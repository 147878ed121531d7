//! Where texts are cut, and what is added to them there.
use vstd::prelude::*;
use vstd::utf8::*;

use crate::format::boundary;
use crate::format::chunks;
use crate::format::escape;
use crate::format::patterns;
use crate::format::stages;
use crate::format::tags;
use crate::format::tags::TagView;

verus! {

/// The number of bytes of `s`.
pub open spec fn size(s: Seq<char>) -> nat {
    encode_utf8(s).len()
}

/// True when in front of position `k` of `s` stands an `opener` that no `closer` follows there.
pub open spec fn left_open(s: Seq<char>, k: int, opener: char, closer: char) -> bool {
    exists|i: int|
        0 <= i < k && #[trigger] s[i] == opener && forall|j: int|
            i < j < k ==> #[trigger] s[j] != closer
}

/// True when position `k` of `s` lies outside of tags and entities.
pub open spec fn outside(s: Seq<char>, k: int) -> bool {
    !left_open(s, k, '<', '>') && !left_open(s, k, '&', ';')
}

/// A prefix ends inside of something where its end lies there.
proof fn lemma_inside(s: Seq<char>, k: int, opener: char, closer: char)
    requires
        0 <= k <= s.len(),
    ensures
        boundary::inside(s.take(k), opener, closer) == left_open(s, k, opener, closer),
{
    let t = s.take(k);
    if boundary::inside(t, opener, closer) {
        let i = choose|i: int|
            0 <= i < t.len() && #[trigger] t[i] == opener && forall|j: int|
                i < j < t.len() ==> #[trigger] t[j] != closer;
        assert(s[i] == opener);
        assert forall|j: int| i < j < k implies #[trigger] s[j] != closer by {
            assert(t[j] == s[j]);
        }
    }
    if left_open(s, k, opener, closer) {
        let i = choose|i: int|
            0 <= i < k && #[trigger] s[i] == opener && forall|j: int|
                i < j < k ==> #[trigger] s[j] != closer;
        assert(t[i] == opener);
        assert forall|j: int| i < j < t.len() implies #[trigger] t[j] != closer by {
            assert(t[j] == s[j]);
        }
    }
}

/// A cut is safe where it fits and lies outside of tags and entities.
proof fn lemma_safe(s: Seq<char>, max_len: nat, k: int)
    ensures
        boundary::safe_cut(s, max_len, k) == (0 <= k <= s.len() && size(s.take(k)) <= max_len
            && outside(s, k)),
{
    if 0 <= k <= s.len() {
        lemma_inside(s, k, '<', '>');
        lemma_inside(s, k, '&', ';');
    }
}

/// The safe boundary of a text fits, lies outside of tags and entities, and all that fits behind
/// it lies inside of one. Without tags and entities, it is the last that fits.
pub proof fn safe_boundaries_are_last(s: Seq<char>, max_len: nat)
    ensures
        ({
            let k = boundary::longest_safe_cut(s, max_len);
            &&& 0 <= k <= s.len()
            &&& size(s.take(k)) <= max_len
            &&& outside(s, k)
            &&& forall|j: int|
                k < j <= s.len() && #[trigger] size(s.take(j)) <= max_len ==> !outside(s, j)
        }),
        ({
            let k = boundary::longest_fit(s, max_len);
            &&& 0 <= k <= s.len()
            &&& size(s.take(k)) <= max_len
            &&& forall|j: int| k < j <= s.len() ==> #[trigger] size(s.take(j)) > max_len
        }),
{
    chunks::lemma_cuts_exist(s, max_len);
    let k = boundary::longest_safe_cut(s, max_len);
    lemma_safe(s, max_len, k);
    assert forall|j: int|
        k < j <= s.len() && #[trigger] size(s.take(j)) <= max_len implies !outside(s, j) by {
        lemma_safe(s, max_len, j);
    }
    let f = boundary::longest_fit(s, max_len);
    assert forall|j: int| f < j <= s.len() implies #[trigger] size(s.take(j)) > max_len by {
        assert(!boundary::fits(s, max_len, j));
    }
}

/// A delimiter that is found is the last one in the text.
pub proof fn last_delimiters_are_found(s: Seq<char>, delimiter: Seq<char>)
    ensures
        match boundary::split_point(s, delimiter) {
            Some(k) => {
                &&& delimiter.len() <= k <= s.len()
                &&& stages::stands_at(s, delimiter, k - delimiter.len())
                &&& forall|j: int|
                    #[trigger] stages::stands_at(s, delimiter, j) ==> j <= k - delimiter.len()
            },
            None => forall|j: int| !#[trigger] stages::stands_at(s, delimiter, j),
        },
{
    let n = delimiter.len() as int;
    assert forall|j: int| 0 <= j <= s.len() implies escape::begins_with(
        #[trigger] s.skip(j),
        delimiter,
    ) == stages::stands_at(s, delimiter, j) by {
        if j + n <= s.len() {
            assert(s.skip(j).take(n) =~= s.subrange(j, j + n));
        }
    }
    match boundary::split_point(s, delimiter) {
        Some(k) => {
            assert(boundary::ends_last(s, delimiter, k));
            assert(escape::begins_with(s.skip(k - n), delimiter));
            assert forall|j: int| #[trigger] stages::stands_at(s, delimiter, j) implies j <= k
                - n by {
                assert(escape::begins_with(s.skip(j), delimiter));
            }
        },
        None => {
            assert forall|j: int| !#[trigger] stages::stands_at(s, delimiter, j) by {
                if stages::stands_at(s, delimiter, j) {
                    assert(escape::begins_with(s.skip(j), delimiter));
                    let last = chunks::lemma_last_occurrence(s, delimiter, j, s.len() as int);
                    assert(boundary::ends_last(s, delimiter, last + n));
                }
            }
        },
    }
}

/// All line breaks at the beginning of a text are dropped, and nothing else.
pub proof fn leading_breaks_are_dropped(breaks: Seq<char>, rest: Seq<char>)
    requires
        forall|i: int| 0 <= i < breaks.len() ==> breaks[i] == '\n',
        rest.len() == 0 || rest[0] != '\n',
    ensures
        boundary::trim_newlines(breaks + rest) == rest,
    decreases breaks.len(),
{
    let s = breaks + rest;
    if breaks.len() == 0 {
        assert(s =~= rest);
    } else {
        leading_breaks_are_dropped(breaks.skip(1), rest);
        assert(s.skip(1) =~= breaks.skip(1) + rest);
    }
}

/// An opening tag opens its name. A closing tag takes back the last open tag of its name, and
/// nothing where none is open.
pub proof fn tags_open_and_close(tags: Seq<TagView>, name: Seq<char>, i: int)
    ensures
        tags::open_after(Seq::empty()) == Seq::<Seq<char>>::empty(),
        tags::open_after(tags.push(TagView { closing: false, name })) == tags::open_after(
            tags,
        ).push(name),
        ({
            let open = tags::open_after(tags);
            let after = tags::open_after(tags.push(TagView { closing: true, name }));
            &&& 0 <= i < open.len() && open[i] == name && (forall|j: int|
                i < j < open.len() ==> open[j] != name) ==> after == open.remove(i)
            &&& (forall|j: int| 0 <= j < open.len() ==> open[j] != name) ==> after == open
        }),
{
    let open = tags::open_after(tags);
    assert(tags.push(TagView { closing: false, name }).drop_last() =~= tags);
    assert(tags.push(TagView { closing: true, name }).drop_last() =~= tags);
    if 0 <= i < open.len() && open[i] == name && (forall|j: int|
        i < j < open.len() ==> open[j] != name) {
        tags::lemma_without_last_at(open, name, i);
    }
    if forall|j: int| 0 <= j < open.len() ==> open[j] != name {
        tags::lemma_without_last_absent(open, name);
    }
}

/// What is open at the end of a text is closed there, the tag that was opened last first. The tags
/// of the text are all matches of the pattern for tags, with their names in lower case.
pub proof fn open_tags_are_closed(
    html: Seq<char>,
    list: Seq<TagView>,
    open: Seq<Seq<char>>,
    name: Seq<char>,
)
    ensures
        tags::closed_with(html, list) == html + tags::closers(tags::open_after(list)),
        ({
            let hits = patterns::regex_captures(r"<(/?)(\w+)[^>]*>"@, html);
            tags::closed(html) == html + tags::closers(
                tags::open_after(
                    Seq::new(
                        hits.len(),
                        |i: int|
                            TagView {
                                closing: stages::part(html, hits[i][1]) == seq!['/'],
                                name: tags::lowercase(stages::part(html, hits[i][2])),
                            },
                    ),
                ),
            )
        }),
        tags::closers(Seq::empty()) == Seq::<char>::empty(),
        tags::closers(open.push(name)) == seq!['<', '/'] + name + seq!['>'] + tags::closers(open),
{
    reveal_strlit("/");
    reveal_strlit("</");
    reveal_strlit(">");
    assert("/"@ =~= seq!['/']);
    assert("</"@ =~= seq!['<', '/']);
    assert(">"@ =~= seq!['>']);
    let hits = patterns::regex_captures(r"<(/?)(\w+)[^>]*>"@, html);
    assert(tags::tags_at(html, hits) =~= Seq::new(
        hits.len(),
        |i: int|
            TagView {
                closing: stages::part(html, hits[i][1]) == seq!['/'],
                name: tags::lowercase(stages::part(html, hits[i][2])),
            },
    ));
    assert(open.push(name).drop_last() =~= open);
}

/// True when `s` can be cut behind its first `k` characters: they take at most `limit` bytes, end
/// with `end`, lie outside of tags and entities, and take at most `max_len` bytes with their open
/// tags closed.
pub open spec fn good(s: Seq<char>, limit: nat, max_len: nat, end: Seq<char>, k: int) -> bool {
    &&& 0 < k <= s.len()
    &&& size(s.take(k)) <= limit
    &&& outside(s, k)
    &&& size(tags::closed(s.take(k))) <= max_len
    &&& end.len() <= k
    &&& s.subrange(k - end.len(), k) == end
}

/// True when `k` is the last of these places.
pub open spec fn last(s: Seq<char>, limit: nat, max_len: nat, end: Seq<char>, k: int) -> bool {
    good(s, limit, max_len, end, k) && forall|j: int|
        j > k ==> !#[trigger] good(s, limit, max_len, end, j)
}

/// True when there is no such place.
pub open spec fn none(s: Seq<char>, limit: nat, max_len: nat, end: Seq<char>) -> bool {
    forall|j: int| !#[trigger] good(s, limit, max_len, end, j)
}

/// Places to cut at are told so.
proof fn lemma_good(s: Seq<char>, limit: nat, max_len: nat, end: Seq<char>, k: int)
    ensures
        chunks::good_cut(s, limit, max_len, end, k) == good(s, limit, max_len, end, k),
{
    lemma_safe(s, limit, k);
    if 0 < k <= s.len() && end.len() <= k {
        assert(s.take(k).skip(k - end.len()) =~= s.subrange(k - end.len(), k));
    }
}

/// The last place to cut at, where there is one.
proof fn lemma_last(s: Seq<char>, limit: nat, max_len: nat, end: Seq<char>)
    ensures
        ({
            let k = chunks::largest_cut(s, limit, max_len, end);
            &&& k == 0 ==> none(s, limit, max_len, end)
            &&& k != 0 ==> last(s, limit, max_len, end, k)
            &&& 0 <= k
        }),
{
    let k = chunks::largest_cut(s, limit, max_len, end);
    chunks::lemma_largest_cut_is_good(s, limit, max_len, end);
    assert forall|j: int| #[trigger] good(s, limit, max_len, end, j) implies j <= k && k > 0 by {
        lemma_good(s, limit, max_len, end, j);
        chunks::lemma_largest_cut_exists(s, limit, max_len, end, j);
    }
    lemma_good(s, limit, max_len, end, k);
}

/// True when a text that does not fit in a chunk of `len` bytes is cut behind its first `k`
/// characters: behind the last empty line, else behind the last line break, else as late as can
/// be, with room for fifty bytes. Failing that, without that room, then without room for closing
/// tags, and at last inside of a tag or an entity.
pub open spec fn cut_at(s: Seq<char>, len: nat, k: int) -> bool {
    let limit = (if len <= 50 {
        0
    } else {
        len - 50
    }) as nat;
    let paragraph = seq!['\n', '\n'];
    let line = seq!['\n'];
    let any = Seq::<char>::empty();
    if !none(s, limit, len, paragraph) {
        last(s, limit, len, paragraph, k)
    } else if !none(s, limit, len, line) {
        last(s, limit, len, line, k)
    } else if !none(s, limit, len, any) {
        last(s, limit, len, any, k)
    } else if !none(s, len, len, any) {
        last(s, len, len, any, k)
    } else if exists|j: int| 0 < j <= s.len() && #[trigger] size(s.take(j)) <= len && outside(s, j) {
        &&& 0 < k <= s.len()
        &&& size(s.take(k)) <= len
        &&& outside(s, k)
        &&& forall|j: int|
            k < j <= s.len() && #[trigger] size(s.take(j)) <= len ==> !outside(s, j)
    } else {
        &&& 0 < k <= s.len()
        &&& size(s.take(k)) <= len
        &&& forall|j: int| k < j <= s.len() ==> #[trigger] size(s.take(j)) > len
    }
}

/// A text is cut where it should be.
proof fn lemma_cut(s: Seq<char>, len: nat)
    requires
        s.len() > 0,
        len > 0,
        chunks::every_char_fits(s, len),
    ensures
        cut_at(s, len, chunks::cut(s, len)),
{
    reveal_strlit("\n\n");
    reveal_strlit("\n");
    assert("\n\n"@ =~= seq!['\n', '\n']);
    assert("\n"@ =~= seq!['\n']);
    let limit = chunks::split_limit(len);
    lemma_last(s, limit, len, seq!['\n', '\n']);
    lemma_last(s, limit, len, seq!['\n']);
    lemma_last(s, limit, len, Seq::empty());
    lemma_last(s, len, len, Seq::empty());
    chunks::lemma_cut_progress(s, len);
    safe_boundaries_are_last(s, len);
    let k = chunks::cut(s, len);
    assert(forall|end: Seq<char>, j: int|
        last(s, limit, len, end, j) ==> !#[trigger] none(s, limit, len, end) || !#[trigger] good(
            s,
            limit,
            len,
            end,
            j,
        ));
    let safe = boundary::longest_safe_cut(s, len);
    if safe > 0 {
        assert(size(s.take(safe)) <= len);
    } else {
        assert forall|j: int| 0 < j <= s.len() && #[trigger] size(s.take(j)) <= len implies
            !outside(s, j) by {}
    }
}

/// The length of chunks where `max_len` is asked for.
pub open spec fn asked_for(max_len: nat) -> nat {
    if max_len == 0 {
        4000
    } else {
        max_len
    }
}

/// The chunk that holds `front`: closed where that fits.
pub open spec fn front_chunk(front: Seq<char>, len: nat) -> Seq<char> {
    if size(tags::closed(front)) <= len {
        tags::closed(front)
    } else {
        front
    }
}

/// The chunks of what is left, if anything is.
pub open spec fn rest_chunks(rest: Seq<char>, max_len: nat) -> Seq<Seq<char>> {
    if rest.len() == 0 {
        Seq::empty()
    } else {
        chunks::html_chunks(rest, max_len)
    }
}

/// A text that fits in a chunk with its open tags closed is one chunk, closed. Any other text is
/// cut, the line breaks behind the cut are dropped, and what is left is cut again. What stands in
/// front of the cut is a chunk, closed where that fits. A length of zero stands for 4000 bytes.
pub proof fn texts_are_cut_into_chunks(html: Seq<char>, max_len: nat)
    requires
        asked_for(max_len) >= 4 || forall|i: int|
            0 <= i < html.len() ==> size(seq![#[trigger] html[i]]) <= asked_for(max_len),
    ensures
        ({
            let len = asked_for(max_len);
            let list = chunks::html_chunks(html, max_len);
            &&& size(tags::closed(html)) <= len ==> list == seq![tags::closed(html)]
            &&& size(tags::closed(html)) > len && html.len() > 0 ==> exists|k: int|
                #[trigger] cut_at(html, len, k) && list == seq![front_chunk(html.take(k), len)]
                    + rest_chunks(boundary::trim_newlines(html.skip(k)), max_len)
        }),
{
    let len = asked_for(max_len);
    let list = chunks::html_chunks(html, max_len);
    if size(tags::closed(html)) <= len {
        assert(list =~= seq![tags::closed(html)]);
    } else if html.len() > 0 {
        lemma_cut(html, len);
        chunks::lemma_cut_progress(html, len);
        let k = chunks::cut(html, len);
        let front = html.take(k);
        let rest = boundary::trim_newlines(html.skip(k));
        let more = chunks::pieces(rest, len);
        assert(chunks::pieces(html, len) == seq![front] + more);
        let later = rest_chunks(rest, max_len);
        if rest.len() > 0 {
            assert(chunks::html_pieces(rest, max_len) =~= more);
        } else {
            assert(more =~= Seq::empty());
        }
        assert(chunks::chunks_of(more, len) =~= later);
        assert(list =~= seq![front_chunk(front, len)] + later);
    }
}

/// What an edit shows of a text of at most 4000 bytes is the text, its open tags closed, where
/// that takes at most 4096 bytes. Of any other text it is as much as takes at most 3940 bytes, ends
/// outside of tags and entities, and leaves room for closing tags and three dots, which follow it.
pub proof fn edits_show_as_much_as_fits(html: Seq<char>)
    ensures
        ({
            let shown = chunks::truncated(html);
            let whole = size(html) <= 4000 && size(tags::closed(html)) <= 4096;
            let any = Seq::<char>::empty();
            let dots = seq!['.', '.', '.'];
            &&& whole ==> shown == tags::closed(html)
            &&& !whole && none(html, 3940, 4093, any) ==> shown == dots
            &&& !whole && !none(html, 3940, 4093, any) ==> exists|k: int|
                #[trigger] last(html, 3940, 4093, any, k) && shown == tags::closed(html.take(k))
                    + dots
        }),
{
    reveal_strlit("...");
    assert("..."@ =~= seq!['.', '.', '.']);
    lemma_last(html, 3940, 4093, Seq::empty());
}

} // verus!
