//! Closing the tags that a cut leaves open.
use vstd::prelude::*;
use vstd::string::*;
use vstd::utf8::*;

use crate::format::boundary;
use crate::format::patterns;
use crate::format::patterns::{captures, group, Captures, Spans, TAG};
use crate::text;
use crate::text::{len_of, same};

verus! {

/// A tag as it stands in HTML text.
#[derive(Debug)]
pub struct Tag {
    /// True of `</b>`, false of `<b>`.
    pub closing: bool,
    /// The name in lower case.
    pub name: String,
}

/// A tag, its name as a sequence of characters.
pub struct TagView {
    pub closing: bool,
    pub name: Seq<char>,
}

impl View for Tag {
    type V = TagView;

    open spec fn view(&self) -> TagView {
        TagView { closing: self.closing, name: self.name@ }
    }
}

/// The tags of `tags` as values of the model.
pub open spec fn tag_views(tags: Seq<Tag>) -> Seq<TagView> {
    tags.map_values(|tag: Tag| tag@)
}

/// `open` without the last `name` in it.
pub open spec fn without_last(open: Seq<Seq<char>>, name: Seq<char>) -> Seq<Seq<char>>
    decreases open.len(),
{
    if open.len() == 0 {
        open
    } else if open.last() == name {
        open.drop_last()
    } else {
        without_last(open.drop_last(), name).push(open.last())
    }
}

/// The names that are open behind `tags`: an opening tag adds its name, a closing tag takes
/// back the last open one of its name.
pub open spec fn open_after(tags: Seq<TagView>) -> Seq<Seq<char>>
    decreases tags.len(),
{
    if tags.len() == 0 {
        Seq::empty()
    } else if tags.last().closing {
        without_last(open_after(tags.drop_last()), tags.last().name)
    } else {
        open_after(tags.drop_last()).push(tags.last().name)
    }
}

/// The closing tags for `open`, the innermost first.
pub open spec fn closers(open: Seq<Seq<char>>) -> Seq<char>
    decreases open.len(),
{
    if open.len() == 0 {
        Seq::empty()
    } else {
        "</"@ + open.last() + ">"@ + closers(open.drop_last())
    }
}

/// `html`, in which `tags` stand, with what they leave open closed at the end.
pub open spec fn closed_with(html: Seq<char>, tags: Seq<TagView>) -> Seq<char> {
    html + closers(open_after(tags))
}

/// What `str::to_lowercase` makes of `s`.
pub uninterp spec fn lowercase(s: Seq<char>) -> Seq<char>;

/// `s` with its ASCII letters in lower case.
pub open spec fn ascii_lowercase(s: Seq<char>) -> Seq<char> {
    s.map_values(
        |c: char|
            if 'A' <= c <= 'Z' {
                (c as u32 + 32) as char
            } else {
                c
            },
    )
}

/// `str::to_lowercase` of the standard library: the result is a function of the text alone. Of
/// ASCII text, it has the letters in lower case, and is in lower case itself. What lower case
/// makes of other text, and whether a second time changes it again, is left unsaid.
pub assume_specification[ str::to_lowercase ](string: &str) -> (lower: String)
    ensures
        lower@ == lowercase(string@),
        is_ascii_chars(string@) ==> lower@ == ascii_lowercase(string@) && lowercase(lower@)
            == lower@,
;

/// The tag that a match of [`TAG`] in `html` stands for.
pub open spec fn tag_at(html: Seq<char>, hit: Spans) -> TagView {
    TagView {
        closing: patterns::group_text(html, hit, 1) == "/"@,
        name: lowercase(patterns::group_text(html, hit, 2)),
    }
}

/// The tags that the matches of [`TAG`] in `html` stand for.
pub open spec fn tags_at(html: Seq<char>, hits: Seq<Spans>) -> Seq<TagView> {
    hits.map_values(|hit: Spans| tag_at(html, hit))
}

/// `html` with the tags that are open at its end closed.
pub open spec fn closed(html: Seq<char>) -> Seq<char> {
    closed_with(html, tags_at(html, patterns::regex_captures(TAG@, html)))
}

/// True when lower case is known of a tag called `name`: the name is ASCII, or in lower case.
pub open spec fn steady(name: Seq<char>) -> bool {
    is_ascii_chars(name) || lowercase(name) == name
}

/// True when this holds of all tags in `s`.
pub open spec fn steady_names(s: Seq<char>) -> bool {
    let hits = patterns::regex_captures(TAG@, s);
    forall|i: int| 0 <= i < hits.len() ==> steady(patterns::group_text(s, #[trigger] hits[i], 2))
}

/// True when position `p` of `s` lies in a name, or just behind one, that begins at the `<` at
/// position `h`. A slash may stand in front of the name.
pub open spec fn name_goes_to(s: Seq<char>, h: int, p: int) -> bool {
    &&& 0 <= h < p < s.len()
    &&& s[h] == '<'
    &&& forall|k: int|
        h < k < p ==> patterns::is_word_char(#[trigger] s[k]) || (k == h + 1 && s[k] == '/')
}

/// True when no name of a tag in `s` holds a character outside ASCII. Attributes may.
pub open spec fn ascii_names(s: Seq<char>) -> bool {
    forall|h: int, p: int| #[trigger] name_goes_to(s, h, p) ==> patterns::is_ascii_char(s[p])
}

/// True when `name` is what lower case makes of `written`, if that is ASCII.
pub open spec fn plainly_named(written: Seq<char>, name: Seq<char>) -> bool {
    is_ascii_chars(written) ==> name == ascii_lowercase(written) && lowercase(name) == name
}

/// Read the tags that stand where [`TAG`] matched.
pub fn read_tags(html: &str, hits: &Vec<Captures>) -> (tags: Vec<Tag>)
    requires
        patterns::hits_within(html@, 2, patterns::spans(hits@)),
    ensures
        tag_views(tags@) == tags_at(html@, patterns::spans(hits@)),
        forall|i: int|
            0 <= i < tags@.len() ==> plainly_named(
                patterns::group_text(html@, patterns::spans(hits@)[i], 2),
                (#[trigger] tags@[i]).name@,
            ),
{
    let mut tags: Vec<Tag> = Vec::new();
    let ghost all = patterns::spans(hits@);
    let mut i: usize = 0;
    while i < hits.len()
        invariant
            i <= hits@.len(),
            all == patterns::spans(hits@),
            patterns::hits_within(html@, 2, all),
            tags@.len() == i,
            forall|j: int|
                0 <= j < i ==> (#[trigger] tags@[j])@ == tag_at(html@, all[j]) && plainly_named(
                    patterns::group_text(html@, all[j], 2),
                    tags@[j].name@,
                ),
        decreases hits@.len() - i,
    {
        assert(all[i as int] == hits@[i as int]@);
        assert(patterns::hit_within(html@, 2, all[i as int]));
        let hit = &hits[i];
        let closing = same(group(html, hit, 1), "/");
        let name = group(html, hit, 2).to_lowercase();
        tags.push(Tag { closing, name });
        i = i + 1;
    }
    assert(tag_views(tags@) =~= tags_at(html@, all));
    tags
}

/// Taking out the entry at `at`, the last one with `name`, is what [`without_last`] does.
pub proof fn lemma_without_last_at(open: Seq<Seq<char>>, name: Seq<char>, at: int)
    requires
        0 <= at < open.len(),
        open[at] == name,
        forall|j: int| at < j < open.len() ==> open[j] != name,
    ensures
        without_last(open, name) == open.remove(at),
    decreases open.len(),
{
    if open.last() == name {
        assert(open.remove(at) =~= open.drop_last());
    } else {
        lemma_without_last_at(open.drop_last(), name, at);
        assert(open.remove(at) =~= open.drop_last().remove(at).push(open.last()));
    }
}

/// Where `name` does not occur nothing is taken out.
pub proof fn lemma_without_last_absent(open: Seq<Seq<char>>, name: Seq<char>)
    requires
        forall|j: int| 0 <= j < open.len() ==> open[j] != name,
    ensures
        without_last(open, name) == open,
    decreases open.len(),
{
    if open.len() > 0 {
        lemma_without_last_absent(open.drop_last(), name);
        assert(open =~= open.drop_last().push(open.last()));
    }
}

/// Take back the last open tag called `name`.
fn close_one(open: &mut Vec<String>, name: &str)
    ensures
        text::strings(final(open)@) == without_last(text::strings(old(open)@), name@),
{
    let ghost names = text::strings(open@);
    let mut i: usize = open.len();
    while i > 0
        invariant
            i <= open@.len(),
            names == text::strings(open@),
            names == text::strings(old(open)@),
            forall|j: int| i <= j < names.len() ==> names[j] != name@,
        decreases i,
    {
        i = i - 1;
        assert(names[i as int] == open@[i as int]@);
        if same(open[i].as_str(), name) {
            proof {
                lemma_without_last_at(names, name@, i as int);
            }
            open.remove(i);
            assert(text::strings(open@) =~= names.remove(i as int));
            return ;
        }
    }
    proof {
        lemma_without_last_absent(names, name@);
    }
}

/// Close what `tags`, the tags of `html`, leave open.
pub fn close_tags(html: &str, tags: &Vec<Tag>) -> (result: String)
    ensures
        result@ == closed_with(html@, tag_views(tags@)),
{
    let mut open: Vec<String> = Vec::new();
    let ghost all = tag_views(tags@);
    let mut i: usize = 0;
    assert(all.take(0) =~= Seq::empty());
    assert(text::strings(open@) =~= Seq::empty());
    while i < tags.len()
        invariant
            i <= tags@.len(),
            all == tag_views(tags@),
            text::strings(open@) == open_after(all.take(i as int)),
        decreases tags@.len() - i,
    {
        let ghost before = text::strings(open@);
        assert(all.take(i + 1).drop_last() =~= all.take(i as int));
        assert(all.take(i + 1).last() == tags@[i as int]@);
        if tags[i].closing {
            close_one(&mut open, tags[i].name.as_str());
        } else {
            open.push(tags[i].name.clone());
            assert(text::strings(open@) =~= before.push(tags@[i as int].name@));
        }
        i = i + 1;
    }
    assert(all.take(i as int) =~= all);
    let mut result = html.to_owned();
    let ghost names = text::strings(open@);
    let mut left: usize = open.len();
    assert(names.take(left as int) =~= names);
    while left > 0
        invariant
            left <= open@.len(),
            names == text::strings(open@),
            html@ + closers(names) == result@ + closers(names.take(left as int)),
        decreases left,
    {
        let ghost done = result@;
        left = left - 1;
        result.append("</");
        result.append(open[left].as_str());
        result.append(">");
        assert(names.take(left + 1).drop_last() =~= names.take(left as int));
        assert(names.take(left + 1).last() == open@[left as int]@);
        assert(done + closers(names.take(left + 1)) =~= result@ + closers(
            names.take(left as int),
        ));
    }
    assert(result@ + closers(names.take(0)) =~= result@);
    result
}

/// Close any unclosed HTML tags in a truncated fragment.
///
/// A text without tags stays as it is. Closing once more changes nothing, not even where text
/// without tags was added in between, unless the text ends in the middle of a tag. This is
/// stated of tags whose names are in ASCII or in lower case, as lower case is known of those
/// alone.
pub fn close_open_tags(html: &str) -> (result: String)
    ensures
        result@ == closed(html@),
        !html@.contains('<') ==> result@ == html@,
        !boundary::inside_tag(html@) && steady_names(html@) ==> closed(result@) == result@,
        !boundary::inside_tag(html@) && steady_names(html@) ==> forall|tail: Seq<char>|
            !tail.contains('<') && text::byte_len(result@ + tail) <= usize::MAX
                ==> #[trigger] closed(result@ + tail) == result@ + tail,
        !boundary::inside_tag(html@) ==> !boundary::inside_tag(result@),
        steady_names(html@) ==> 3 * text::byte_len(result@) <= 7 * text::byte_len(html@),
        ascii_names(html@) ==> steady_names(html@),
{
    assert(patterns::has_groups(TAG@, 2));
    let hits = captures(TAG, html);
    let tags = read_tags(html, &hits);
    let result = close_tags(html, &tags);
    let result_len = len_of(result.as_str());
    proof {
        let s = html@;
        let all = tag_views(tags@);
        let open = open_after(all);
        if !s.contains('<') {
            assert(all =~= Seq::empty());
            assert(result@ =~= s);
        }
        lemma_closers_end(open);
        if !boundary::inside_tag(s) {
            lemma_no_tag_unfinished(s, closers(open));
        }
        let found = patterns::spans(hits@);
        if ascii_names(s) {
            lemma_names_ascii(s, found);
        }
        if steady_names(s) {
            assert forall|i: int| 0 <= i < all.len() implies kept_name(
                patterns::group_text(s, found[i], 2),
                (#[trigger] all[i]).name,
            ) by {
                assert(all[i] == tags@[i]@);
                assert(all[i] == tag_at(s, found[i]));
                assert(patterns::made_of(TAG@, s, found[i]));
                assert(plainly_named(patterns::group_text(s, found[i], 2), tags@[i].name@));
                lemma_kept_name(patterns::group_text(s, found[i], 2), tags@[i].name@);
            }
            lemma_closers_len(all);
            lemma_weight(s, found, all, all.len());
            text::lemma_byte_len_concat(s, closers(open));
        }
        if !boundary::inside_tag(s) && steady_names(s) {
            assert forall|i: int| 0 <= i < open.len() implies lowercase(#[trigger] open[i])
                == open[i] && (patterns::is_word(open[i]) || exists|j: int|
                0 <= j < found.len() && open[i] == patterns::group_text(
                    s,
                    #[trigger] found[j],
                    2,
                )) by {
                let j = lemma_open_name(all, i);
                assert(kept_name(patterns::group_text(s, found[j], 2), all[j].name));
            }
            assert(patterns::known_names(s, found, open));
            assert forall|tail: Seq<char>|
                !tail.contains('<') && text::byte_len(result@ + tail)
                    <= usize::MAX implies #[trigger] closed(result@ + tail) == result@ + tail by {
                assert(patterns::tags_go_on(s, found, open, tail));
                lemma_closed_again(s, open, tail);
            }
            assert(text::byte_len(result@) == result_len);
            assert(result@ + Seq::empty() =~= result@);
            assert(!Seq::<char>::empty().contains('<'));
            assert(closed(result@ + Seq::empty()) == result@ + Seq::empty());
        }
    }
    result
}

/// True when `name`, made of the name `written`, is in lower case and as long, and is the same
/// name or an ASCII word.
spec fn kept_name(written: Seq<char>, name: Seq<char>) -> bool {
    &&& lowercase(name) == name
    &&& text::byte_len(name) == text::byte_len(written)
    &&& name == written || patterns::is_word(name)
}

/// A steady name is kept.
proof fn lemma_kept_name(written: Seq<char>, name: Seq<char>)
    requires
        patterns::names(written),
        steady(written),
        name == lowercase(written),
        plainly_named(written, name),
    ensures
        kept_name(written, name),
{
    if is_ascii_chars(written) {
        assert forall|i: int| 0 <= i < written.len() implies patterns::is_word_char(
            #[trigger] written[i],
        ) by {
            assert(patterns::is_ascii_char(written[i]));
        }
        lemma_lowercase_word(written);
        lemma_lowercase_ascii(written);
        is_ascii_chars_encode_utf8(written);
        is_ascii_chars_encode_utf8(name);
    }
}

/// Where no name holds a character outside ASCII, all that the pattern finds are ASCII.
proof fn lemma_names_ascii(s: Seq<char>, hits: Seq<Spans>)
    requires
        ascii_names(s),
        patterns::hits_within(s, 2, hits),
        forall|i: int| 0 <= i < hits.len() ==> patterns::made_of(TAG@, s, #[trigger] hits[i]),
    ensures
        forall|i: int|
            0 <= i < hits.len() ==> is_ascii_chars(
                patterns::group_text(s, #[trigger] hits[i], 2),
            ),
{
    assert forall|i: int| 0 <= i < hits.len() implies is_ascii_chars(
        patterns::group_text(s, #[trigger] hits[i], 2),
    ) by {
        let two = patterns::group_text(s, hits[i], 2);
        assert(patterns::made_of(TAG@, s, hits[i]));
        let n = lemma_where(s, hits[i]);
        lemma_name_ascii(s, hits[i], n, two.len());
        assert(two.take(two.len() as int) =~= two);
    }
}

/// The first `count` characters of a name are ASCII.
proof fn lemma_name_ascii(s: Seq<char>, hit: Spans, n: int, count: nat)
    requires
        ascii_names(s),
        patterns::made_of(TAG@, s, hit),
        0 <= n,
        n + patterns::group_text(s, hit, 0).len() <= s.len(),
        forall|i: int|
            0 <= i < patterns::group_text(s, hit, 0).len() ==> s[n + i]
                == #[trigger] patterns::group_text(s, hit, 0)[i],
        count <= patterns::group_text(s, hit, 2).len(),
    ensures
        is_ascii_chars(patterns::group_text(s, hit, 2).take(count as int)),
    decreases count,
{
    if count > 0 {
        reveal_strlit("<");
        reveal_strlit("/");
        reveal_strlit("");
        let whole = patterns::group_text(s, hit, 0);
        let one = patterns::group_text(s, hit, 1);
        let two = patterns::group_text(s, hit, 2);
        let m = 1 + one.len() as int;
        let front = whole.take(m + two.len());
        let last = count - 1;
        lemma_name_ascii(s, hit, n, last as nat);
        assert forall|k: int| 0 <= k < m + two.len() implies s[n + k] == #[trigger] front[k] by {
            assert(front[k] == whole[k]);
        }
        assert forall|k: int| n < k < n + m + last implies patterns::is_word_char(#[trigger] s[k])
            || (k == n + 1 && s[k] == '/') by {
            assert(s[k] == front[k - n]);
            if k >= n + m {
                assert(front[k - n] == two[k - n - m]);
                assert(two.take(last)[k - n - m] == two[k - n - m]);
                assert(patterns::is_ascii_char(two[k - n - m]));
            }
        }
        assert(s[n] == front[0]);
        assert(s[n + m + last] == front[m + last]);
        assert(name_goes_to(s, n, n + m + last));
        assert forall|j: int| 0 <= j < count implies '\0' <= #[trigger] two.take(count as int)[j]
            <= '\u{7f}' by {
            if j < last {
                assert(two.take(last)[j] == two[j]);
            }
        }
    }
}

/// Where a match stands in the text, in characters.
proof fn lemma_where(s: Seq<char>, hit: Spans) -> (n: int)
    requires
        patterns::hit_within(s, 2, hit),
    ensures
        0 <= n,
        n + patterns::group_text(s, hit, 0).len() <= s.len(),
        forall|i: int|
            0 <= i < patterns::group_text(s, hit, 0).len() ==> s[n + i]
                == #[trigger] patterns::group_text(s, hit, 0)[i],
        text::byte_len(patterns::group_text(s, hit, 0)) == patterns::span_end(hit[0])
            - patterns::span_start(hit[0]),
{
    let start = patterns::span_start(hit[0]) as int;
    let end = patterns::span_end(hit[0]) as int;
    let len = text::byte_len(s) as int;
    let whole = patterns::group_text(s, hit, 0);
    assert(patterns::span_within(s, hit[0], start as usize, end as usize));
    encode_utf8_valid_utf8(s);
    is_char_boundary_start_end_of_seq(encode_utf8(s));
    text::lemma_slices(s, 0, start, len);
    text::lemma_slices(s, start, end, len);
    assert(encode_utf8(s).subrange(0, len) =~= encode_utf8(s));
    encode_utf8_decode_utf8(s);
    let front = text::byte_slice(s, 0, start);
    assert(s == front + (whole + text::byte_slice(s, end, len)));
    front.len() as int
}

/// The bytes that the closing tags of `tags` take if all of them stay open.
pub open spec fn weight(tags: Seq<TagView>) -> nat
    decreases tags.len(),
{
    if tags.len() == 0 {
        0
    } else {
        weight(tags.drop_last()) + 3 + text::byte_len(tags.last().name)
    }
}

/// One more open tag takes one more closing tag.
proof fn lemma_closers_push(open: Seq<Seq<char>>, name: Seq<char>)
    ensures
        text::byte_len(closers(open.push(name))) == text::byte_len(closers(open)) + 3
            + text::byte_len(name),
{
    assert(open.push(name).drop_last() =~= open);
    reveal_strlit("</");
    reveal_strlit(">");
    is_ascii_chars_encode_utf8("</"@);
    is_ascii_chars_encode_utf8(">"@);
    text::lemma_byte_len_concat("</"@, name);
    text::lemma_byte_len_concat("</"@ + name, ">"@);
    text::lemma_byte_len_concat("</"@ + name + ">"@, closers(open));
}

/// Taking a tag back takes no more closing tags.
proof fn lemma_closers_without(open: Seq<Seq<char>>, name: Seq<char>)
    ensures
        text::byte_len(closers(without_last(open, name))) <= text::byte_len(closers(open)),
    decreases open.len(),
{
    if open.len() > 0 {
        assert(open.drop_last().push(open.last()) =~= open);
        lemma_closers_push(open.drop_last(), open.last());
        if open.last() != name {
            lemma_closers_without(open.drop_last(), name);
            lemma_closers_push(without_last(open.drop_last(), name), open.last());
        }
    }
}

/// The closing tags take no more bytes than if all tags stayed open.
proof fn lemma_closers_len(tags: Seq<TagView>)
    ensures
        text::byte_len(closers(open_after(tags))) <= weight(tags),
    decreases tags.len(),
{
    if tags.len() == 0 {
        assert(closers(open_after(tags)) =~= Seq::<char>::empty());
        assert(encode_utf8(Seq::<char>::empty()).len() == 0);
    } else {
        let front = tags.drop_last();
        lemma_closers_len(front);
        if tags.last().closing {
            lemma_closers_without(open_after(front), tags.last().name);
        } else {
            lemma_closers_push(open_after(front), tags.last().name);
        }
    }
}

/// Closing tags take at most four thirds of the bytes of the text, where the names in them are
/// as long as in the text.
proof fn lemma_weight(s: Seq<char>, hits: Seq<Spans>, tags: Seq<TagView>, n: nat)
    requires
        patterns::hits_within(s, 2, hits),
        tags.len() == hits.len(),
        n <= hits.len(),
        forall|i: int| 0 <= i < hits.len() ==> patterns::made_of(TAG@, s, #[trigger] hits[i]),
        forall|i: int|
            0 <= i < tags.len() ==> kept_name(
                patterns::group_text(s, hits[i], 2),
                (#[trigger] tags[i]).name,
            ),
    ensures
        3 * weight(tags.take(n as int)) <= 4 * text::byte_len(s),
        n == tags.len() ==> 3 * weight(tags) <= 4 * text::byte_len(s),
        n > 0 ==> 3 * weight(tags.take(n as int)) <= 4 * patterns::span_end(hits[n - 1][0]),
    decreases n,
{
    assert(tags.take(tags.len() as int) =~= tags);
    if n > 0 {
        let i = n - 1;
        let hit = hits[i];
        lemma_weight(s, hits, tags, i as nat);
        assert(tags.take(n as int).drop_last() =~= tags.take(i));
        assert(patterns::hit_within(s, 2, hit));
        assert(patterns::made_of(TAG@, s, hit));
        let k = lemma_where(s, hit);
        lemma_tag_len(s, hit);
        assert(kept_name(patterns::group_text(s, hits[i], 2), tags[i].name));
        assert(tags.take(n as int).last() == tags[i]);
        if i > 0 {
            assert(patterns::span_end(hits[i - 1][0]) <= patterns::span_start(hits[i][0]));
        }
    }
}

/// A tag is longer than its name by two brackets at least.
proof fn lemma_tag_len(s: Seq<char>, hit: Spans)
    requires
        patterns::made_of(TAG@, s, hit),
    ensures
        text::byte_len(patterns::group_text(s, hit, 0)) >= text::byte_len(
            patterns::group_text(s, hit, 2),
        ) + 2,
        text::byte_len(patterns::group_text(s, hit, 2)) >= 1,
{
    reveal_strlit("<");
    is_ascii_chars_encode_utf8("<"@);
    let whole = patterns::group_text(s, hit, 0);
    let one = patterns::group_text(s, hit, 1);
    let two = patterns::group_text(s, hit, 2);
    let m = (1 + one.len() + two.len()) as int;
    text::lemma_byte_len_concat("<"@, one);
    text::lemma_byte_len_concat("<"@ + one, two);
    text::lemma_byte_len_monotone(whole, m, whole.len() as int);
    assert(whole.take(whole.len() as int) =~= whole);
    text::lemma_byte_len_monotone(two, 0, two.len() as int);
    assert(two.take(two.len() as int) =~= two);
}

/// ASCII text in lower case is ASCII text.
proof fn lemma_lowercase_ascii(s: Seq<char>)
    requires
        is_ascii_chars(s),
    ensures
        is_ascii_chars(ascii_lowercase(s)),
{
    assert forall|i: int| 0 <= i < s.len() implies '\0' <= #[trigger] ascii_lowercase(s)[i]
        <= '\u{7f}' by {
        assert('\0' <= s[i] <= '\u{7f}');
    }
}

/// Closing tags end with their bracket.
proof fn lemma_closers_end(open: Seq<Seq<char>>)
    ensures
        open.len() > 0 ==> closers(open).len() > 0 && closers(open).last() == '>',
        open.len() == 0 ==> closers(open).len() == 0,
    decreases open.len(),
{
    reveal_strlit(">");
    if open.len() > 0 {
        lemma_closers_end(open.drop_last());
    }
}

/// What ends with a bracket ends in no tag.
proof fn lemma_no_tag_unfinished(s: Seq<char>, added: Seq<char>)
    requires
        !boundary::inside_tag(s),
        added.len() > 0 ==> added.last() == '>',
    ensures
        !boundary::inside_tag(s + added),
{
    let t = s + added;
    if added.len() == 0 {
        assert(t =~= s);
    } else {
        assert(t[t.len() - 1] == '>');
        assert forall|i: int| 0 <= i < t.len() && #[trigger] t[i] == '<' implies exists|j: int|
            i < j < t.len() && #[trigger] t[j] == '>' by {
            assert(i < t.len() - 1);
        }
    }
}

/// An open name is the name of one of the tags.
proof fn lemma_open_name(tags: Seq<TagView>, i: int) -> (j: int)
    requires
        0 <= i < open_after(tags).len(),
    ensures
        0 <= j < tags.len(),
        open_after(tags)[i] == tags[j].name,
    decreases tags.len(),
{
    let front = open_after(tags.drop_last());
    if tags.last().closing {
        let k = lemma_without_last_from(front, tags.last().name, i);
        lemma_open_name(tags.drop_last(), k)
    } else if i == front.len() {
        tags.len() - 1
    } else {
        lemma_open_name(tags.drop_last(), i)
    }
}

/// What is left of a list was in it.
proof fn lemma_without_last_from(open: Seq<Seq<char>>, name: Seq<char>, i: int) -> (k: int)
    requires
        0 <= i < without_last(open, name).len(),
    ensures
        0 <= k < open.len(),
        without_last(open, name)[i] == open[k],
    decreases open.len(),
{
    if open.last() == name {
        i
    } else if i == without_last(open.drop_last(), name).len() {
        open.len() - 1
    } else {
        lemma_without_last_from(open.drop_last(), name, i)
    }
}

/// A word in lower case is a word.
proof fn lemma_lowercase_word(name: Seq<char>)
    requires
        patterns::is_word(name),
    ensures
        patterns::is_word(ascii_lowercase(name)),
{
    assert forall|i: int| 0 <= i < name.len() implies patterns::is_word_char(
        #[trigger] ascii_lowercase(name)[i],
    ) by {
        assert(patterns::is_word_char(name[i]));
    }
}

/// The tag that two groups of a match stand for.
spec fn tag_of(groups: (Seq<char>, Seq<char>)) -> TagView {
    TagView { closing: groups.0 == "/"@, name: lowercase(groups.1) }
}

/// The groups of closing tags stand for closing tags.
proof fn lemma_closing_groups(names: Seq<Seq<char>>)
    requires
        forall|i: int| 0 <= i < names.len() ==> lowercase(#[trigger] names[i]) == names[i],
    ensures
        patterns::closing_groups(names).map_values(
            |groups: (Seq<char>, Seq<char>)| tag_of(groups),
        ) == closing_tags(names),
    decreases names.len(),
{
    let f = |groups: (Seq<char>, Seq<char>)| tag_of(groups);
    let all = patterns::closing_groups(names);
    if names.len() == 0 {
        assert(all.map_values(f) =~= closing_tags(names));
    } else {
        assert forall|i: int| 0 <= i < names.drop_last().len() implies lowercase(
            #[trigger] names.drop_last()[i],
        ) == names.drop_last()[i] by {
            assert(names.drop_last()[i] == names[i]);
        }
        lemma_closing_groups(names.drop_last());
        let rest = patterns::closing_groups(names.drop_last());
        assert(lowercase(names[names.len() - 1]) == names.last());
        assert(all.map_values(f) =~= seq![f(("/"@, names.last()))] + rest.map_values(f));
    }
}

/// Text that was closed is closed, whatever `tail` without tags follows it: what its closing
/// tags close is no longer open.
proof fn lemma_closed_again(s: Seq<char>, open: Seq<Seq<char>>, tail: Seq<char>)
    requires
        open == open_after(tags_at(s, patterns::regex_captures(TAG@, s))),
        patterns::tags_go_on(s, patterns::regex_captures(TAG@, s), open, tail),
        forall|i: int| 0 <= i < open.len() ==> lowercase(#[trigger] open[i]) == open[i],
    ensures
        closed(s + closers(open) + tail) == s + closers(open) + tail,
{
    let f = |groups: (Seq<char>, Seq<char>)| tag_of(groups);
    let hits = patterns::regex_captures(TAG@, s);
    let longer = s + closers(open) + tail;
    let more = patterns::regex_captures(TAG@, longer);
    let tags = tags_at(s, hits);
    lemma_closing_groups(open);
    assert(tags_at(longer, more) =~= patterns::groups_of(longer, more).map_values(f));
    assert(tags =~= patterns::groups_of(s, hits).map_values(f));
    assert(tags_at(longer, more) =~= tags + closing_tags(open));
    closing_leaves_nothing_open(tags);
    closed_text_is_kept(longer, tags_at(longer, more));
}

/// The closing tags that [`closers`] writes, the innermost first.
pub open spec fn closing_tags(open: Seq<Seq<char>>) -> Seq<TagView>
    decreases open.len(),
{
    if open.len() == 0 {
        Seq::empty()
    } else {
        seq![TagView { closing: true, name: open.last() }] + closing_tags(open.drop_last())
    }
}

/// The closing tags that are added leave nothing open: whatever `tags` stand in a text, behind
/// them and the added ones no tag is open.
pub proof fn closing_leaves_nothing_open(tags: Seq<TagView>)
    ensures
        open_after(tags + closing_tags(open_after(tags))) == Seq::<Seq<char>>::empty(),
    decreases open_after(tags).len(),
{
    let open = open_after(tags);
    let added = closing_tags(open);
    if open.len() == 0 {
        assert(tags + added =~= tags);
    } else {
        let first = TagView { closing: true, name: open.last() };
        let more = tags.push(first);
        assert(more.drop_last() =~= tags);
        assert(open_after(more) == open.drop_last());
        closing_leaves_nothing_open(more);
        assert(tags + added =~= more + closing_tags(open.drop_last()));
    }
}

/// A text whose tags are all closed is left as it is.
pub proof fn closed_text_is_kept(html: Seq<char>, tags: Seq<TagView>)
    requires
        open_after(tags).len() == 0,
    ensures
        closed_with(html, tags) == html,
{
    assert(html + closers(open_after(tags)) =~= html);
}

} // verus!
