//! HTML in messages of limited size.
use vstd::prelude::*;
use vstd::string::*;
use vstd::utf8::*;

use crate::format::boundary;
use crate::format::boundary::{
    find_safe_html_boundary, find_split_point, floor_char_boundary, skip_newlines,
};
use crate::format::escape;
use crate::format::patterns;
use crate::format::patterns::TAG;
use crate::format::tags;
use crate::format::tags::close_open_tags;
use crate::text;
use crate::text::{len_of, slice};

verus! {

/// Most bytes that Telegram takes in one message.
pub const MAX_MESSAGE_LEN: usize = 4096;

/// Longest HTML, in bytes, that a message edit shows whole.
pub const MAX_HTML_LEN: usize = 4000;

/// Bytes that a longer edit is cut down to, before its tags are closed.
pub const TRUNCATED_TARGET: usize = 3940;

/// Bytes that a chunk keeps free for the tags that have to be closed at its end.
pub const CLOSING_TAG_HEADROOM: usize = 50;

/// Chunk length that stands for a requested length of zero.
pub const DEFAULT_CHUNK_LEN: usize = 4000;

/// True when `s` ends with `suffix`.
pub open spec fn ends_with(s: Seq<char>, suffix: Seq<char>) -> bool {
    suffix.len() <= s.len() && s.skip(s.len() - suffix.len()) == suffix
}

/// True when `s`, with its open tags closed, takes at most `max_len` bytes.
pub open spec fn closing_fits(s: Seq<char>, max_len: nat) -> bool {
    text::byte_len(tags::closed(s)) <= max_len
}

/// True when `s` can be cut behind its first `k` characters: they fit in `limit` bytes, end
/// with `delimiter`, end neither in a tag nor in an entity, and fit in `max_len` bytes with
/// their open tags closed.
pub open spec fn good_cut(
    s: Seq<char>,
    limit: nat,
    max_len: nat,
    delimiter: Seq<char>,
    k: int,
) -> bool {
    &&& k > 0
    &&& boundary::safe_cut(s, limit, k)
    &&& closing_fits(s.take(k), max_len)
    &&& ends_with(s.take(k), delimiter)
}

/// True when `k` is the largest of these cuts.
pub open spec fn is_largest_cut(
    s: Seq<char>,
    limit: nat,
    max_len: nat,
    delimiter: Seq<char>,
    k: int,
) -> bool {
    &&& good_cut(s, limit, max_len, delimiter, k)
    &&& forall|j: int| #[trigger] good_cut(s, limit, max_len, delimiter, j) ==> j <= k
}

/// The largest of these cuts, 0 where there is none.
pub open spec fn largest_cut(s: Seq<char>, limit: nat, max_len: nat, delimiter: Seq<char>) -> int {
    if exists|k: int| is_largest_cut(s, limit, max_len, delimiter, k) {
        choose|k: int| is_largest_cut(s, limit, max_len, delimiter, k)
    } else {
        0
    }
}

/// True when a message edit shows all of `html`.
pub open spec fn shown_whole(html: Seq<char>) -> bool {
    text::byte_len(html) <= MAX_HTML_LEN && closing_fits(html, MAX_MESSAGE_LEN as nat)
}

/// The number of characters of `html` that a message edit shows where it does not show all.
pub open spec fn truncated_cut(html: Seq<char>) -> int {
    largest_cut(html, TRUNCATED_TARGET as nat, (MAX_MESSAGE_LEN - 3) as nat, Seq::empty())
}

/// The part of `html` that a message edit shows.
pub open spec fn shown_part(html: Seq<char>) -> Seq<char> {
    if shown_whole(html) {
        html
    } else {
        html.take(truncated_cut(html))
    }
}

/// What a message edit shows of `html`: the whole with its open tags closed where it is short,
/// else as much of it as leaves room for its closing tags and three dots.
pub open spec fn truncated(html: Seq<char>) -> Seq<char> {
    let k = truncated_cut(html);
    if shown_whole(html) {
        tags::closed(html)
    } else if k == 0 {
        "..."@
    } else {
        tags::closed(html.take(k)) + "..."@
    }
}

/// The chunk length in force when `max_len` is asked for.
pub open spec fn chunk_len(max_len: nat) -> nat {
    if max_len == 0 {
        DEFAULT_CHUNK_LEN as nat
    } else {
        max_len
    }
}

/// The bytes of a chunk that come from the text.
pub open spec fn split_limit(chunk_len: nat) -> nat {
    if chunk_len <= CLOSING_TAG_HEADROOM {
        0
    } else {
        (chunk_len - CLOSING_TAG_HEADROOM) as nat
    }
}

/// True when each single character of `s` fits in a chunk. Every character takes at most
/// four bytes.
pub open spec fn every_char_fits(s: Seq<char>, chunk_len: nat) -> bool {
    chunk_len >= 4 || forall|i: int|
        0 <= i < s.len() ==> text::byte_len(seq![#[trigger] s[i]]) <= chunk_len
}

/// The number of characters in front of the preferred cut of `s`: behind the last empty
/// line, else behind the last line break, else as late as can be. All of these lie outside of
/// tags and entities, and leave room for the closing tags. 0 where there is no such cut.
pub open spec fn preferred_cut(s: Seq<char>, chunk_len: nat) -> int {
    let limit = split_limit(chunk_len);
    let paragraph = largest_cut(s, limit, chunk_len, "\n\n"@);
    let line = largest_cut(s, limit, chunk_len, "\n"@);
    if paragraph > 0 {
        paragraph
    } else if line > 0 {
        line
    } else {
        largest_cut(s, limit, chunk_len, Seq::empty())
    }
}

/// The number of characters of `s` that the first chunk takes when `s` does not fit in one:
/// the preferred cut, else one that gives up the headroom, else one that gives up the closing
/// tags. Only where all that fits ends in a tag or an entity, the cut lies inside of it.
pub open spec fn cut(s: Seq<char>, chunk_len: nat) -> int {
    let preferred = preferred_cut(s, chunk_len);
    let late = largest_cut(s, chunk_len, chunk_len, Seq::empty());
    let safe = boundary::longest_safe_cut(s, chunk_len);
    if preferred > 0 {
        preferred
    } else if late > 0 {
        late
    } else if safe > 0 {
        safe
    } else {
        boundary::longest_fit(s, chunk_len)
    }
}

/// What a chunk holds of a piece of text: the piece with its open tags closed, or the piece as
/// it is where there is no room for the closing tags.
pub open spec fn chunk_of(piece: Seq<char>, chunk_len: nat) -> Seq<char> {
    if closing_fits(piece, chunk_len) {
        tags::closed(piece)
    } else {
        piece
    }
}

/// The pieces that `s` is cut into, from the front, the line breaks behind each one dropped.
/// What fits in a chunk with its tags closed is the last piece.
pub open spec fn pieces(s: Seq<char>, chunk_len: nat) -> Seq<Seq<char>>
    decreases s.len(),
{
    if s.len() == 0 {
        Seq::empty()
    } else if closing_fits(s, chunk_len) {
        seq![s]
    } else {
        let k = cut(s, chunk_len);
        let rest = boundary::trim_newlines(s.skip(k));
        if 0 < k <= s.len() && rest.len() < s.len() {
            seq![s.take(k)] + pieces(rest, chunk_len)
        } else {
            Seq::empty()
        }
    }
}

/// The chunks that the pieces `list` make.
pub open spec fn chunks_of(list: Seq<Seq<char>>, chunk_len: nat) -> Seq<Seq<char>> {
    list.map_values(|piece: Seq<char>| chunk_of(piece, chunk_len))
}

/// The pieces of `html`. The empty text is one piece.
pub open spec fn html_pieces(html: Seq<char>, max_len: nat) -> Seq<Seq<char>> {
    if closing_fits(html, chunk_len(max_len)) {
        seq![html]
    } else {
        pieces(html, chunk_len(max_len))
    }
}

/// The chunks of `html`.
pub open spec fn html_chunks(html: Seq<char>, max_len: nat) -> Seq<Seq<char>> {
    chunks_of(html_pieces(html, max_len), chunk_len(max_len))
}

/// Dropping line breaks leaves the end of the text.
pub proof fn lemma_trim_is_skip(s: Seq<char>) -> (n: int)
    ensures
        0 <= n <= s.len(),
        boundary::trim_newlines(s) == s.skip(n),
        forall|i: int| 0 <= i < n ==> s[i] == '\n',
    decreases s.len(),
{
    if s.len() > 0 && s[0] == '\n' {
        let m = lemma_trim_is_skip(s.skip(1));
        assert(s.skip(1).skip(m) =~= s.skip(m + 1));
        assert forall|i: int| 0 <= i < m + 1 implies s[i] == '\n' by {
            if i > 0 {
                assert(s[i] == s.skip(1)[i - 1]);
            }
        }
        m + 1
    } else {
        assert(s.skip(0) =~= s);
        0
    }
}

/// The empty prefix takes no bytes.
proof fn lemma_empty_prefix(s: Seq<char>)
    ensures
        s.take(0) == Seq::<char>::empty(),
        text::byte_len(s.take(0)) == 0,
{
    assert(s.take(0) =~= Seq::<char>::empty());
}

/// The largest safe cut and the largest fit exist.
pub proof fn lemma_cuts_exist(s: Seq<char>, max_len: nat)
    ensures
        boundary::is_longest_safe_cut(s, max_len, boundary::longest_safe_cut(s, max_len)),
        boundary::is_longest_fit(s, max_len, boundary::longest_fit(s, max_len)),
{
    lemma_empty_prefix(s);
    assert(boundary::safe_cut(s, max_len, 0));
    assert(boundary::fits(s, max_len, 0));
    let k = lemma_max_safe_cut(s, max_len, s.len() as int);
    let f = lemma_max_fit(s, max_len, s.len() as int);
    assert(boundary::is_longest_safe_cut(s, max_len, k));
    assert(boundary::is_longest_fit(s, max_len, f));
}

proof fn lemma_max_safe_cut(s: Seq<char>, max_len: nat, bound: int) -> (k: int)
    requires
        boundary::safe_cut(s, max_len, 0),
        0 <= bound <= s.len(),
    ensures
        boundary::safe_cut(s, max_len, k),
        forall|j: int| #[trigger] boundary::safe_cut(s, max_len, j) && j <= bound ==> j <= k,
    decreases bound,
{
    if bound == 0 || boundary::safe_cut(s, max_len, bound) {
        bound
    } else {
        lemma_max_safe_cut(s, max_len, bound - 1)
    }
}

proof fn lemma_max_fit(s: Seq<char>, max_len: nat, bound: int) -> (k: int)
    requires
        boundary::fits(s, max_len, 0),
        0 <= bound <= s.len(),
    ensures
        boundary::fits(s, max_len, k),
        forall|j: int| #[trigger] boundary::fits(s, max_len, j) && j <= bound ==> j <= k,
    decreases bound,
{
    if bound == 0 || boundary::fits(s, max_len, bound) {
        bound
    } else {
        lemma_max_fit(s, max_len, bound - 1)
    }
}

/// The largest cut is the only one that is largest.
proof fn lemma_largest_cut(
    s: Seq<char>,
    limit: nat,
    max_len: nat,
    delimiter: Seq<char>,
    k: int,
)
    requires
        is_largest_cut(s, limit, max_len, delimiter, k),
    ensures
        largest_cut(s, limit, max_len, delimiter) == k,
{
    let chosen = largest_cut(s, limit, max_len, delimiter);
    assert(is_largest_cut(s, limit, max_len, delimiter, chosen));
    assert(good_cut(s, limit, max_len, delimiter, chosen));
    assert(good_cut(s, limit, max_len, delimiter, k));
}

/// The largest cut is a good one, unless there is none.
pub proof fn lemma_largest_cut_is_good(
    s: Seq<char>,
    limit: nat,
    max_len: nat,
    delimiter: Seq<char>,
)
    ensures
        ({
            let k = largest_cut(s, limit, max_len, delimiter);
            k == 0 || good_cut(s, limit, max_len, delimiter, k)
        }),
{
    let k = largest_cut(s, limit, max_len, delimiter);
    if exists|j: int| is_largest_cut(s, limit, max_len, delimiter, j) {
        assert(is_largest_cut(s, limit, max_len, delimiter, k));
    }
}

/// Where there is a good cut, there is a largest one.
pub proof fn lemma_largest_cut_exists(
    s: Seq<char>,
    limit: nat,
    max_len: nat,
    delimiter: Seq<char>,
    k: int,
)
    requires
        good_cut(s, limit, max_len, delimiter, k),
    ensures
        largest_cut(s, limit, max_len, delimiter) >= k,
{
    let top = lemma_max_cut(s, limit, max_len, delimiter, k, s.len() as int);
    assert(is_largest_cut(s, limit, max_len, delimiter, top));
    lemma_largest_cut(s, limit, max_len, delimiter, top);
}

proof fn lemma_max_cut(
    s: Seq<char>,
    limit: nat,
    max_len: nat,
    delimiter: Seq<char>,
    k: int,
    bound: int,
) -> (top: int)
    requires
        good_cut(s, limit, max_len, delimiter, k),
        k <= bound <= s.len(),
    ensures
        good_cut(s, limit, max_len, delimiter, top),
        k <= top,
        forall|j: int| #[trigger] good_cut(s, limit, max_len, delimiter, j) && j <= bound ==> j
            <= top,
    decreases bound,
{
    if good_cut(s, limit, max_len, delimiter, bound) {
        bound
    } else {
        lemma_max_cut(s, limit, max_len, delimiter, k, bound - 1)
    }
}

/// A prefix that ends with `delimiter` lies at or in front of the last split point.
proof fn lemma_split_covers(region: Seq<char>, delimiter: Seq<char>, j: int)
    requires
        0 <= j <= region.len(),
        ends_with(region.take(j), delimiter),
    ensures
        boundary::split_point(region, delimiter) matches Some(k) && j <= k,
{
    let n = delimiter.len() as int;
    let at = j - n;
    assert(region.skip(at).take(n) =~= region.take(j).skip(at));
    let last = lemma_last_occurrence(region, delimiter, at, region.len() as int);
    assert(boundary::ends_last(region, delimiter, last + n));
    boundary::lemma_split_point(region, delimiter, last + n);
}

pub proof fn lemma_last_occurrence(
    region: Seq<char>,
    delimiter: Seq<char>,
    at: int,
    bound: int,
) -> (last: int)
    requires
        0 <= at <= bound <= region.len(),
        escape::begins_with(region.skip(at), delimiter),
    ensures
        at <= last <= bound,
        last + delimiter.len() <= region.len(),
        escape::begins_with(region.skip(last), delimiter),
        forall|j: int|
            last < j <= bound ==> !escape::begins_with(#[trigger] region.skip(j), delimiter),
    decreases bound,
{
    if escape::begins_with(region.skip(bound), delimiter) {
        bound
    } else {
        lemma_last_occurrence(region, delimiter, at, bound - 1)
    }
}

/// True when closing the tags of `s` does not make it much longer, if their names are ASCII.
pub open spec fn modest(s: Seq<char>) -> bool {
    tags::ascii_names(s) ==> 3 * text::byte_len(tags::closed(s)) <= 7 * text::byte_len(s)
}

/// The characters in front of an offset are those that fit in it.
proof fn lemma_fit_of_prefix(s: Seq<char>, m: int)
    requires
        0 <= m <= s.len(),
    ensures
        boundary::longest_fit(s, text::byte_len(s.take(m))) == m,
{
    let len = text::byte_len(s.take(m));
    assert forall|j: int| #[trigger] boundary::fits(s, len, j) implies j <= m by {
        if j > m {
            text::lemma_byte_len_monotone(s, m, j);
        }
    }
    assert(boundary::fits(s, len, m));
    boundary::lemma_longest_fit(s, len, m);
}

/// True when no cut behind `m` and up to `k` is safe and leaves room for closing tags.
spec fn tried(s: Seq<char>, point: nat, max_len: nat, m: int, k: int) -> bool {
    forall|j: int|
        m < j <= k && #[trigger] boundary::safe_cut(s, point, j) ==> !closing_fits(
            s.take(j),
            max_len,
        ) && modest(s.take(j))
}

/// Try the cut behind the first `k` characters, at byte offset `point`. Where it is not safe or
/// leaves no room for closing tags, the result is the next offset to look at.
fn try_cut(html: &str, point: usize, max_len: usize, Ghost(k): Ghost<int>) -> (next: Option<usize>)
    requires
        0 < k <= html@.len(),
        point == text::byte_len(html@.take(k)),
        point > 0,
    ensures
        match next {
            None => boundary::safe_cut(html@, point as nat, k) && closing_fits(
                html@.take(k),
                max_len as nat,
            ),
            Some(at) => {
                let m = boundary::longest_fit(html@, at as nat);
                &&& at < point
                &&& 0 <= m < k
                &&& at == text::byte_len(html@.take(m))
                &&& tried(html@, point as nat, max_len as nat, m, k)
            },
        },
{
    let ghost s = html@;
    let safe = find_safe_html_boundary(html, point);
    let ghost c = boundary::longest_safe_cut(s, point as nat);
    proof {
        lemma_safe_below(s, point as nat, point as nat, k, c);
    }
    if safe < point {
        proof {
            lemma_fit_of_prefix(s, c);
        }
        return Some(safe);
    }
    proof {
        text::lemma_prefix_on_boundary(s, 0);
        text::lemma_prefix_on_boundary(s, k);
        text::lemma_prefix_slice(s, k);
        lemma_empty_prefix(s);
        text::lemma_byte_len_monotone(s, k, s.len() as int);
        assert(s.take(s.len() as int) =~= s);
    }
    let closed = close_open_tags(slice(html, 0, point));
    if len_of(closed.as_str()) <= max_len {
        return None;
    }
    let at = floor_char_boundary(html, point - 1);
    proof {
        let f = boundary::longest_fit(s, (point - 1) as nat);
        lemma_fit_of_prefix(s, f);
        if f >= k {
            text::lemma_byte_len_monotone(s, k, f);
        }
        assert forall|j: int| f < j <= k && #[trigger] boundary::safe_cut(
            s,
            point as nat,
            j,
        ) implies !closing_fits(s.take(j), max_len as nat) && modest(s.take(j)) by {
            if j < k {
                text::lemma_byte_len_monotone(s, j, k);
                assert(boundary::fits(s, (point - 1) as nat, j));
            }
        }
    }
    Some(at)
}

/// What is known of the cuts of `s` behind the first `m` characters: none is good, and without
/// a delimiter closing tags makes none of them much longer.
spec fn behind(s: Seq<char>, limit: nat, max_len: nat, delimiter: Seq<char>, m: int) -> bool {
    &&& forall|j: int| #[trigger] good_cut(s, limit, max_len, delimiter, j) ==> j <= m
    &&& delimiter.len() == 0 ==> forall|j: int|
        j > m && #[trigger] boundary::safe_cut(s, limit, j) ==> modest(s.take(j))
}

/// The last split point in the first `m` characters leaves no good cut behind it.
proof fn lemma_behind_point(s: Seq<char>, limit: nat, max_len: nat, delimiter: Seq<char>, m: int)
    requires
        0 <= m <= s.len(),
        behind(s, limit, max_len, delimiter, m),
    ensures
        match boundary::split_point(s.take(m), delimiter) {
            Some(k) => 0 <= k <= m && behind(s, limit, max_len, delimiter, k),
            None => behind(s, limit, max_len, delimiter, 0),
        },
{
    assert forall|j: int| #[trigger] good_cut(s, limit, max_len, delimiter, j) implies ({
        &&& boundary::split_point(s.take(m), delimiter) matches Some(k)
        &&& j <= k
    }) by {
        assert(s.take(m).take(j) =~= s.take(j));
        lemma_split_covers(s.take(m), delimiter, j);
    }
    if delimiter.len() == 0 {
        lemma_no_delimiter(s.take(m), delimiter);
    }
    if boundary::split_point(s.take(m), delimiter) is Some {
        lemma_point(s, m, delimiter);
    }
}

/// Cuts that were tried are none of the good ones.
proof fn lemma_behind_tried(
    s: Seq<char>,
    limit: nat,
    max_len: nat,
    delimiter: Seq<char>,
    m: int,
    k: int,
)
    requires
        0 <= m < k <= s.len(),
        text::byte_len(s.take(k)) <= limit,
        behind(s, limit, max_len, delimiter, k),
        tried(s, text::byte_len(s.take(k)), max_len, m, k),
    ensures
        behind(s, limit, max_len, delimiter, m),
{
    let point = text::byte_len(s.take(k));
    assert forall|j: int| m < j <= k && #[trigger] boundary::safe_cut(
        s,
        limit,
        j,
    ) implies boundary::safe_cut(s, point, j) by {
        text::lemma_byte_len_monotone(s, j, k);
    }
    assert forall|j: int| #[trigger] good_cut(s, limit, max_len, delimiter, j) implies j
        <= m by {
        assert(boundary::safe_cut(s, limit, j));
    }
}

/// Where nothing is left to try, there is no largest cut.
proof fn lemma_behind_nothing(s: Seq<char>, limit: nat, max_len: nat, delimiter: Seq<char>)
    requires
        behind(s, limit, max_len, delimiter, 0),
    ensures
        largest_cut(s, limit, max_len, delimiter) == 0,
{
    assert(forall|j: int| !is_largest_cut(s, limit, max_len, delimiter, j));
}

/// The byte offset of the largest cut of `html`.
fn find_largest_cut(html: &str, limit: usize, max_len: usize, delimiter: &str) -> (at: usize)
    ensures
        at == text::byte_len(
            html@.take(largest_cut(html@, limit as nat, max_len as nat, delimiter@)),
        ),
        0 <= largest_cut(html@, limit as nat, max_len as nat, delimiter@) <= html@.len(),
        at == 0 <==> largest_cut(html@, limit as nat, max_len as nat, delimiter@) == 0,
        at == 0 && delimiter@.len() == 0 ==> forall|k: int|
            k > 0 && #[trigger] boundary::safe_cut(html@, limit as nat, k) ==> modest(
                html@.take(k),
            ),
{
    let ghost s = html@;
    let ghost d = delimiter@;
    let ghost l = limit as nat;
    let ghost n = max_len as nat;
    let mut at = floor_char_boundary(html, limit);
    proof {
        lemma_empty_prefix(s);
        lemma_fit_of_prefix(s, boundary::longest_fit(s, l));
        assert forall|j: int| j > boundary::longest_fit(s, l) implies
            !#[trigger] boundary::safe_cut(s, l, j) by {
            assert(boundary::fits(s, l, j) ==> j <= boundary::longest_fit(s, l));
        }
        assert(behind(s, l, n, d, boundary::longest_fit(s, l)));
    }
    while at > 0
        invariant
            s == html@,
            d == delimiter@,
            l == limit,
            n == max_len,
            0 <= boundary::longest_fit(s, at as nat) <= s.len(),
            at == text::byte_len(s.take(boundary::longest_fit(s, at as nat))),
            at <= limit,
            text::byte_len(s.take(0)) == 0,
            behind(s, l, n, d, boundary::longest_fit(s, at as nat)),
        decreases at,
    {
        let ghost m = boundary::longest_fit(s, at as nat);
        proof {
            text::lemma_prefix_on_boundary(s, m);
            text::lemma_prefix_slice(s, m);
            text::lemma_byte_len_monotone(s, m, s.len() as int);
            assert(s.take(s.len() as int) =~= s);
            lemma_behind_point(s, l, n, d, m);
        }
        match find_split_point(html, at, delimiter) {
            None => {
                proof {
                    lemma_behind_nothing(s, l, n, d);
                }
                return 0;
            },
            Some(point) => {
                let ghost k = boundary::split_point(s.take(m), d)->0;
                proof {
                    lemma_point(s, m, d);
                    text::lemma_byte_len_monotone(s, 0, k);
                }
                if point == 0 {
                    proof {
                        lemma_behind_nothing(s, l, n, d);
                    }
                    return 0;
                }
                match try_cut(html, point, max_len, Ghost(k)) {
                    None => {
                        proof {
                            assert(good_cut(s, l, n, d, k));
                            assert(is_largest_cut(s, l, n, d, k));
                            lemma_largest_cut(s, l, n, d, k);
                        }
                        return point;
                    },
                    Some(next) => {
                        proof {
                            lemma_behind_tried(
                                s,
                                l,
                                n,
                                d,
                                boundary::longest_fit(s, next as nat),
                                k,
                            );
                        }
                        at = next;
                    },
                }
            },
        }
    }
    proof {
        text::lemma_byte_len_monotone(s, 0, boundary::longest_fit(s, at as nat));
        lemma_behind_nothing(s, l, n, d);
    }
    0
}

/// Without a delimiter, the split point is the end.
proof fn lemma_no_delimiter(region: Seq<char>, delimiter: Seq<char>)
    requires
        delimiter.len() == 0,
    ensures
        boundary::split_point(region, delimiter) == Some(region.len() as int),
{
    let n = region.len() as int;
    assert(region.skip(n).take(0) =~= delimiter);
    assert(boundary::ends_last(region, delimiter, n));
    boundary::lemma_split_point(region, delimiter, n);
}

/// The split point of a prefix, seen from the whole text.
proof fn lemma_point(s: Seq<char>, m: int, delimiter: Seq<char>)
    requires
        0 <= m <= s.len(),
        boundary::split_point(s.take(m), delimiter) is Some,
    ensures
        ({
            let k = boundary::split_point(s.take(m), delimiter)->0;
            &&& 0 <= k <= m
            &&& s.take(m).take(k) == s.take(k)
            &&& text::byte_len(s.take(k)) <= text::byte_len(s.take(m))
            &&& ends_with(s.take(k), delimiter)
        }),
{
    let k = boundary::split_point(s.take(m), delimiter)->0;
    let n = delimiter.len() as int;
    assert(boundary::ends_last(s.take(m), delimiter, k));
    assert(s.take(m).take(k) =~= s.take(k));
    assert(s.take(k).skip(k - n) =~= s.take(m).skip(k - n).take(n));
    text::lemma_byte_len_monotone(s, k, m);
}

/// Safe cuts at or in front of `k` are found within the bytes up to `k`.
proof fn lemma_safe_below(s: Seq<char>, limit: nat, point: nat, k: int, c: int)
    requires
        0 <= k <= s.len(),
        point == text::byte_len(s.take(k)),
        point <= limit,
        boundary::is_longest_safe_cut(s, point, c),
    ensures
        0 <= c <= k,
        text::byte_len(s.take(c)) <= point,
        text::byte_len(s.take(c)) == point ==> c == k && boundary::safe_cut(s, limit, k),
        forall|j: int| #[trigger] boundary::safe_cut(s, limit, j) && j <= k ==> j <= c,
{
    if c > k {
        text::lemma_byte_len_monotone(s, k, c);
    } else {
        text::lemma_byte_len_monotone(s, c, k);
    }
    assert forall|j: int| #[trigger] boundary::safe_cut(s, limit, j) && j <= k implies j
        <= c by {
        text::lemma_byte_len_monotone(s, j, k);
        assert(boundary::safe_cut(s, point, j));
    }
}

/// The preferred cut is a good one, unless there is none.
pub proof fn lemma_preferred_cut(s: Seq<char>, chunk_len: nat)
    ensures
        ({
            let k = preferred_cut(s, chunk_len);
            k == 0 || (0 < k <= s.len() && boundary::safe_cut(s, split_limit(chunk_len), k)
                && closing_fits(s.take(k), chunk_len))
        }),
{
    let limit = split_limit(chunk_len);
    lemma_largest_cut_is_good(s, limit, chunk_len, "\n\n"@);
    lemma_largest_cut_is_good(s, limit, chunk_len, "\n"@);
    lemma_largest_cut_is_good(s, limit, chunk_len, Seq::empty());
}

/// A first chunk takes at least one character and no more bytes than a chunk has.
pub proof fn lemma_cut_progress(s: Seq<char>, chunk_len: nat)
    requires
        s.len() > 0,
        chunk_len > 0,
        every_char_fits(s, chunk_len),
    ensures
        0 < cut(s, chunk_len) <= s.len(),
        text::byte_len(s.take(cut(s, chunk_len))) <= chunk_len,
        boundary::trim_newlines(s.skip(cut(s, chunk_len))).len() < s.len(),
{
    lemma_preferred_cut(s, chunk_len);
    lemma_largest_cut_is_good(s, chunk_len, chunk_len, Seq::empty());
    lemma_cuts_exist(s, chunk_len);
    let k = cut(s, chunk_len);
    assert(s.take(1) =~= seq![s[0]]);
    text::lemma_byte_len_one(s[0]);
    assert(boundary::fits(s, chunk_len, 1));
    let n = lemma_trim_is_skip(s.skip(k));
}

/// Closing tags makes a text longer by the closing tags.
proof fn lemma_closed_len(html: Seq<char>)
    ensures
        text::byte_len(tags::closed(html)) >= text::byte_len(html),
{
    text::lemma_byte_len_concat(
        html,
        tags::closers(
            tags::open_after(tags::tags_at(html, patterns::regex_captures(TAG@, html))),
        ),
    );
}

/// Text without tags leaves no tag unfinished.
proof fn lemma_no_tag_begun(s: Seq<char>, tail: Seq<char>)
    requires
        !boundary::inside_tag(s),
        !tail.contains('<'),
    ensures
        !boundary::inside_tag(s + tail),
{
    let t = s + tail;
    assert forall|i: int| 0 <= i < t.len() && #[trigger] t[i] == '<' implies exists|j: int|
        i < j < t.len() && #[trigger] t[j] == '>' by {
        if i >= s.len() {
            assert(tail.contains(t[i]));
        } else {
            assert(s[i] == '<');
            let j = choose|j: int| i < j < s.len() && #[trigger] s[j] == '>';
            assert(t[j] == '>');
        }
    }
}

/// Truncate HTML for in-progress Telegram message edits.
///
/// Stays within Telegram's 4096-byte limit and ensures valid HTML: no tag is left open, unless
/// a short text itself ends in the middle of a tag. Lower case is known of names in ASCII or in
/// lower case alone, so this is stated of those.
pub fn truncate_for_edit(html: &str) -> (result: String)
    ensures
        result@ == truncated(html@),
        text::byte_len(result@) <= MAX_MESSAGE_LEN,
        !shown_whole(html@) ==> !boundary::inside_tag(shown_part(html@)),
        !boundary::inside_tag(shown_part(html@)) ==> !boundary::inside_tag(result@),
        !boundary::inside_tag(shown_part(html@)) && tags::steady_names(shown_part(html@))
            ==> tags::closed(result@) == result@,
        tags::ascii_names(html@) ==> tags::steady_names(shown_part(html@)),
{
    if len_of(html) <= MAX_HTML_LEN {
        let whole = close_open_tags(html);
        if len_of(whole.as_str()) <= MAX_MESSAGE_LEN {
            return whole;
        }
    }
    proof {
        reveal_strlit("");
        assert(""@ =~= Seq::empty());
        truncated_fits(html@);
    }
    let at = find_largest_cut(html, TRUNCATED_TARGET, MAX_MESSAGE_LEN - 3, "");
    let ghost k = truncated_cut(html@);
    proof {
        text::lemma_prefix_on_boundary(html@, 0);
        text::lemma_prefix_on_boundary(html@, k);
        text::lemma_prefix_slice(html@, k);
        text::lemma_byte_len_monotone(html@, 0, k);
        text::lemma_byte_len_monotone(html@, k, html@.len() as int);
        assert(html@.take(html@.len() as int) =~= html@);
        lemma_empty_prefix(html@);
        lemma_largest_cut_is_good(
            html@,
            TRUNCATED_TARGET as nat,
            (MAX_MESSAGE_LEN - 3) as nat,
            Seq::empty(),
        );
    }
    let mut result = close_open_tags(slice(html, 0, at));
    let ghost front = result@;
    result.append("...");
    proof {
        reveal_strlit("...");
        if k == 0 {
            assert(front =~= Seq::empty());
            assert(result@ =~= "..."@);
        }
        assert(result@ == truncated(html@));
        assert(!boundary::inside_tag(html@.take(k)));
        lemma_no_tag_begun(front, "..."@);
        if tags::ascii_names(html@) {
            lemma_ascii_front(html@, k);
        }
        if tags::steady_names(html@.take(k)) {
            assert(tags::closed(front + "..."@) == front + "..."@);
        }
    }
    result
}

/// True when every `<` in `s` is closed by a `>` within ten bytes, its own included.
pub open spec fn short_tags(s: Seq<char>) -> bool {
    forall|i: int|
        0 <= i < s.len() && #[trigger] s[i] == '<' ==> exists|j: int|
            i < j < s.len() && #[trigger] s[j] == '>' && text::byte_len(s.subrange(i, j + 1)) <= 10
}

/// True when all tags in `s` are short, their names are ASCII, and it holds no entities.
pub open spec fn tidy(s: Seq<char>) -> bool {
    short_tags(s) && tags::ascii_names(s) && !s.contains('&')
}

/// A tidy text ends in no tag.
proof fn lemma_tidy_ends(s: Seq<char>)
    requires
        short_tags(s),
    ensures
        !boundary::inside_tag(s),
{
    assert forall|i: int| 0 <= i < s.len() && #[trigger] s[i] == '<' implies !(forall|j: int|
        i < j < s.len() ==> #[trigger] s[j] != '>') by {
        let j = choose|j: int|
            i < j < s.len() && #[trigger] s[j] == '>' && text::byte_len(s.subrange(i, j + 1))
                <= 10;
        assert(s[j] == '>');
    }
}

/// What is left of a tidy text is tidy.
proof fn lemma_tidy_rest(s: Seq<char>, n: int)
    requires
        tidy(s),
        0 <= n <= s.len(),
    ensures
        tidy(s.skip(n)),
{
    let rest = s.skip(n);
    assert forall|i: int| 0 <= i < rest.len() && #[trigger] rest[i] == '<' implies exists|j: int|
        i < j < rest.len() && #[trigger] rest[j] == '>' && text::byte_len(
            rest.subrange(i, j + 1),
        ) <= 10 by {
        assert(s[n + i] == '<');
        let j = choose|j: int|
            n + i < j < s.len() && #[trigger] s[j] == '>' && text::byte_len(
                s.subrange(n + i, j + 1),
            ) <= 10;
        assert(rest[j - n] == '>');
        assert(rest.subrange(i, j - n + 1) =~= s.subrange(n + i, j + 1));
    }
    assert forall|h: int, p: int| #[trigger]
        tags::name_goes_to(rest, h, p) implies patterns::is_ascii_char(rest[p]) by {
        assert forall|k: int| n + h < k < n + p implies patterns::is_word_char(#[trigger] s[k])
            || (k == n + h + 1 && s[k] == '/') by {
            assert(rest[k - n] == s[k]);
        }
        assert(rest[h] == s[n + h]);
        assert(tags::name_goes_to(s, n + h, n + p));
    }
    assert(!rest.contains('&')) by {
        if rest.contains('&') {
            let i = choose|i: int| 0 <= i < rest.len() && rest[i] == '&';
            assert(s[n + i] == '&');
        }
    }
}

/// The names in the beginning of a text are ASCII where those in the text are.
proof fn lemma_ascii_front(s: Seq<char>, k: int)
    requires
        tags::ascii_names(s),
        0 <= k <= s.len(),
    ensures
        tags::ascii_names(s.take(k)),
{
    let front = s.take(k);
    assert forall|h: int, p: int| #[trigger]
        tags::name_goes_to(front, h, p) implies patterns::is_ascii_char(front[p]) by {
        assert forall|i: int| h < i < p implies patterns::is_word_char(#[trigger] s[i]) || (i == h
            + 1 && s[i] == '/') by {
            assert(front[i] == s[i]);
        }
        assert(front[h] == s[h]);
        assert(tags::name_goes_to(s, h, p));
    }
}

/// A tidy text has a safe cut within its first ten bytes.
proof fn lemma_tidy_cut(s: Seq<char>) -> (k: int)
    requires
        tidy(s),
        s.len() > 0,
    ensures
        0 < k <= s.len(),
        text::byte_len(s.take(k)) <= 10,
        !boundary::inside_tag(s.take(k)),
        !boundary::inside_entity(s.take(k)),
{
    let k = if s[0] == '<' {
        let j = choose|j: int|
            0 < j < s.len() && #[trigger] s[j] == '>' && text::byte_len(s.subrange(0, j + 1))
                <= 10;
        assert(s.subrange(0, j + 1) =~= s.take(j + 1));
        assert(s.take(j + 1)[j] == '>');
        j + 1
    } else {
        assert(s.take(1) =~= seq![s[0]]);
        text::lemma_byte_len_one(s[0]);
        1
    };
    let front = s.take(k);
    assert forall|i: int| 0 <= i < front.len() implies front[i] != '&' by {
        assert(s.contains(s[i]));
    }
    k
}

/// The byte offset at which the first chunk of `html` ends.
///
/// A tidy text is cut outside of its tags, and with room for closing them.
fn find_cut(html: &str, chunk_len: usize) -> (at: usize)
    requires
        html@.len() > 0,
        chunk_len > 0,
        every_char_fits(html@, chunk_len as nat),
    ensures
        at == text::byte_len(html@.take(cut(html@, chunk_len as nat))),
        tidy(html@) && chunk_len >= 60 ==> closing_fits(
            html@.take(cut(html@, chunk_len as nat)),
            chunk_len as nat,
        ) && !boundary::inside_tag(html@.take(cut(html@, chunk_len as nat))),
{
    let limit = if chunk_len <= CLOSING_TAG_HEADROOM {
        0
    } else {
        chunk_len - CLOSING_TAG_HEADROOM
    };
    proof {
        reveal_strlit("");
        assert(""@ =~= Seq::empty());
        lemma_cuts_exist(html@, chunk_len as nat);
        lemma_empty_prefix(html@);
        lemma_preferred_cut(html@, chunk_len as nat);
    }
    let paragraph = find_largest_cut(html, limit, chunk_len, "\n\n");
    if paragraph > 0 {
        return paragraph;
    }
    let line = find_largest_cut(html, limit, chunk_len, "\n");
    if line > 0 {
        return line;
    }
    let preferred = find_largest_cut(html, limit, chunk_len, "");
    if preferred > 0 {
        return preferred;
    }
    proof {
        if tidy(html@) && chunk_len >= 60 {
            let s = html@;
            let k = lemma_tidy_cut(s);
            assert(boundary::safe_cut(s, limit as nat, k));
            lemma_ascii_front(s, k);
            assert(modest(s.take(k)));
            assert(s.take(k).skip(k) =~= Seq::empty());
            assert(good_cut(s, limit as nat, chunk_len as nat, Seq::empty(), k));
            lemma_largest_cut_exists(s, limit as nat, chunk_len as nat, Seq::empty(), k);
        }
    }
    let late = find_largest_cut(html, chunk_len, chunk_len, "");
    if late > 0 {
        return late;
    }
    let safe = find_safe_html_boundary(html, chunk_len);
    proof {
        text::lemma_byte_len_monotone(
            html@,
            0,
            boundary::longest_safe_cut(html@, chunk_len as nat),
        );
    }
    if safe > 0 {
        return safe;
    }
    floor_char_boundary(html, chunk_len)
}

/// True when `chunk` keeps its promises for `piece`: it is the piece itself where there is no
/// tag, and where the piece ends in no tag, has its names in ASCII or in lower case and leaves
/// room for closing its tags, closing the chunk once more changes nothing.
pub open spec fn settled(piece: Seq<char>, chunk: Seq<char>, chunk_len: nat) -> bool {
    &&& !piece.contains('<') ==> chunk == piece
    &&& !boundary::inside_tag(piece) ==> !boundary::inside_tag(chunk)
    &&& tags::ascii_names(piece) ==> tags::steady_names(piece)
    &&& !boundary::inside_tag(piece) && tags::steady_names(piece) && closing_fits(
        piece,
        chunk_len,
    ) ==> tags::closed(chunk) == chunk
}

/// The chunk that a piece makes.
fn make_chunk(piece: &str, chunk_len: usize) -> (chunk: String)
    ensures
        chunk@ == chunk_of(piece@, chunk_len as nat),
        settled(piece@, chunk@, chunk_len as nat),
{
    let closed = close_open_tags(piece);
    if len_of(closed.as_str()) <= chunk_len {
        closed
    } else {
        piece.to_owned()
    }
}

/// Cut the first chunk off `html`, which does not fit in one. The result is the chunk and what
/// remains behind it.
fn next_chunk<'a>(html: &'a str, chunk_len: usize) -> (next: (String, &'a str))
    requires
        html@.len() > 0,
        chunk_len > 0,
        every_char_fits(html@, chunk_len as nat),
    ensures
        ({
            let s = html@;
            let len = chunk_len as nat;
            let k = cut(s, len);
            &&& next.0@ == chunk_of(s.take(k), len)
            &&& settled(s.take(k), next.0@, len)
            &&& next.1@ == boundary::trim_newlines(s.skip(k))
            &&& next.1@.len() < s.len()
            &&& 0 < k <= s.len()
            &&& every_char_fits(next.1@, len)
            &&& tidy(s) ==> tidy(next.1@)
            &&& tidy(s) && len >= 60 ==> tags::closed(next.0@) == next.0@
                && !boundary::inside_tag(next.0@)
        }),
{
    let ghost s = html@;
    let ghost len = chunk_len as nat;
    let at = find_cut(html, chunk_len);
    let ghost k = cut(s, len);
    proof {
        lemma_cut_progress(s, len);
        lemma_rest_fits(s, len);
        text::lemma_byte_len_monotone(s, 0, k);
        text::lemma_prefix_on_boundary(s, 0);
        text::lemma_prefix_on_boundary(s, k);
        text::lemma_prefix_on_boundary(s, s.len() as int);
        text::lemma_prefix_slice(s, k);
        text::lemma_byte_len_monotone(s, k, s.len() as int);
        lemma_empty_prefix(s);
        assert(s.take(s.len() as int) =~= s);
        if tidy(s) {
            lemma_ascii_front(s, k);
            lemma_tidy_rest(s, k);
            let n = lemma_trim_is_skip(s.skip(k));
            lemma_tidy_rest(s.skip(k), n);
        }
    }
    let chunk = make_chunk(slice(html, 0, at), chunk_len);
    let rest = slice(html, at, len_of(html));
    (chunk, skip_newlines(rest))
}

/// Split HTML into chunks that fit within Telegram's message size limit.
///
/// HTML-aware: avoids splitting inside tags or entities, and closes any unclosed tags in each
/// chunk. A tag or an entity is split only where nothing in front of it is left to be cut off,
/// and tags are left open only where their closing tags cannot fit. A `max_len` that a single
/// character exceeds would never be met.
pub fn chunk_html(html: &str, max_len: usize) -> (chunks: Vec<String>)
    requires
        every_char_fits(html@, chunk_len(max_len as nat)),
    ensures
        text::strings(chunks@) == html_chunks(html@, max_len as nat),
        forall|i: int|
            0 <= i < chunks@.len() ==> text::byte_len((#[trigger] chunks@[i])@) <= chunk_len(
                max_len as nat,
            ),
        chunks@.len() == html_pieces(html@, max_len as nat).len(),
        forall|i: int|
            0 <= i < chunks@.len() ==> settled(
                html_pieces(html@, max_len as nat)[i],
                (#[trigger] chunks@[i])@,
                chunk_len(max_len as nat),
            ),
        tidy(html@) && chunk_len(max_len as nat) >= 60 ==> forall|i: int|
            0 <= i < chunks@.len() ==> tags::closed((#[trigger] chunks@[i])@) == chunks@[i]@
                && !boundary::inside_tag(chunks@[i]@),
{
    let limit = if max_len == 0 {
        DEFAULT_CHUNK_LEN
    } else {
        max_len
    };
    let ghost len = limit as nat;
    let ghost all = html_pieces(html@, max_len as nat);
    let mut chunks: Vec<String> = Vec::new();
    if len_of(html) <= limit {
        let whole = close_open_tags(html);
        if len_of(whole.as_str()) <= limit {
            proof {
                if tidy(html@) {
                    lemma_tidy_ends(html@);
                }
            }
            chunks.push(whole);
            proof {
                assert(text::strings(chunks@) =~= html_chunks(html@, max_len as nat));
                lemma_fit_one_by_one(chunks@, html@, max_len as nat);
            }
            return chunks;
        }
    }
    let ghost mut done: Seq<Seq<char>> = Seq::empty();
    proof {
        lemma_closed_len(html@);
        assert(done + pieces(html@, len) =~= all);
    }
    let mut remaining: &str = html;
    while !remaining.is_empty()
        invariant
            len == limit,
            len == chunk_len(max_len as nat),
            len > 0,
            all == html_pieces(html@, max_len as nat),
            every_char_fits(html@, len),
            every_char_fits(remaining@, len),
            all == done + pieces(remaining@, len),
            chunks@.len() == done.len(),
            forall|i: int|
                0 <= i < done.len() ==> (#[trigger] chunks@[i])@ == chunk_of(done[i], len)
                    && settled(done[i], chunks@[i]@, len),
            tidy(html@) ==> tidy(remaining@),
            tidy(html@) && len >= 60 ==> forall|i: int|
                0 <= i < done.len() ==> tags::closed((#[trigger] chunks@[i])@) == chunks@[i]@
                    && !boundary::inside_tag(chunks@[i]@),
        decreases remaining@.len(),
    {
        let ghost s = remaining@;
        let remaining_len = len_of(remaining);
        proof {
            lemma_closed_len(s);
        }
        if remaining_len <= limit {
            let whole = close_open_tags(remaining);
            if len_of(whole.as_str()) <= limit {
                proof {
                    if tidy(s) {
                        lemma_tidy_ends(s);
                    }
                    done = done.push(s);
                    assert(done =~= all);
                }
                chunks.push(whole);
                proof {
                    assert(text::strings(chunks@) =~= chunks_of(all, len));
                    lemma_fit_one_by_one(chunks@, html@, max_len as nat);
                }
                return chunks;
            }
        }
        let (chunk, rest) = next_chunk(remaining, limit);
        let ghost k = cut(s, len);
        chunks.push(chunk);
        remaining = rest;
        proof {
            assert(pieces(s, len) == seq![s.take(k)] + pieces(remaining@, len));
            assert(done + pieces(s, len) =~= done.push(s.take(k)) + pieces(remaining@, len));
            done = done.push(s.take(k));
        }
    }
    proof {
        assert(pieces(remaining@, len) =~= Seq::empty());
        assert(done =~= all);
        assert(text::strings(chunks@) =~= chunks_of(all, len));
        lemma_fit_one_by_one(chunks@, html@, max_len as nat);
    }
    chunks
}

/// The characters of `s` that are no line breaks.
pub open spec fn without_breaks(s: Seq<char>) -> Seq<char> {
    s.filter(|c: char| c != '\n')
}

/// What remains behind a piece is still made of characters that fit.
proof fn lemma_rest_fits(s: Seq<char>, chunk_len: nat)
    requires
        s.len() > 0,
        chunk_len > 0,
        every_char_fits(s, chunk_len),
    ensures
        every_char_fits(boundary::trim_newlines(s.skip(cut(s, chunk_len))), chunk_len),
{
    lemma_cut_progress(s, chunk_len);
    let k = cut(s, chunk_len);
    let n = lemma_trim_is_skip(s.skip(k));
    let rest = boundary::trim_newlines(s.skip(k));
    assert forall|i: int| 0 <= i < rest.len() && chunk_len < 4 implies text::byte_len(
        seq![#[trigger] rest[i]],
    ) <= chunk_len by {
        assert(rest[i] == s[i + k + n]);
    }
}

/// No piece is empty, and every piece fits in a chunk.
pub proof fn pieces_fit(s: Seq<char>, chunk_len: nat)
    requires
        chunk_len > 0,
        every_char_fits(s, chunk_len),
    ensures
        forall|i: int|
            0 <= i < pieces(s, chunk_len).len() ==> {
                let piece = #[trigger] pieces(s, chunk_len)[i];
                piece.len() > 0 && text::byte_len(piece) <= chunk_len
            },
    decreases s.len(),
{
    if s.len() > 0 && closing_fits(s, chunk_len) {
        lemma_closed_len(s);
    } else if s.len() > 0 {
        lemma_cut_progress(s, chunk_len);
        lemma_rest_fits(s, chunk_len);
        let k = cut(s, chunk_len);
        let rest = boundary::trim_newlines(s.skip(k));
        pieces_fit(rest, chunk_len);
        assert forall|i: int| 0 <= i < pieces(s, chunk_len).len() implies {
            let piece = #[trigger] pieces(s, chunk_len)[i];
            piece.len() > 0 && text::byte_len(piece) <= chunk_len
        } by {
            if i > 0 {
                assert(pieces(s, chunk_len)[i] == pieces(rest, chunk_len)[i - 1]);
            }
        }
    }
}

/// Every chunk, its closing tags included, fits in the length that was asked for.
pub proof fn chunks_fit(html: Seq<char>, max_len: nat)
    requires
        every_char_fits(html, chunk_len(max_len)),
    ensures
        forall|i: int|
            0 <= i < html_chunks(html, max_len).len() ==> text::byte_len(
                #[trigger] html_chunks(html, max_len)[i],
            ) <= chunk_len(max_len),
{
    let len = chunk_len(max_len);
    pieces_fit(html, len);
    assert forall|i: int| 0 <= i < html_chunks(html, max_len).len() implies text::byte_len(
        #[trigger] html_chunks(html, max_len)[i],
    ) <= len by {
        assert(html_chunks(html, max_len)[i] == chunk_of(html_pieces(html, max_len)[i], len));
        if !closing_fits(html, len) {
            assert(text::byte_len(pieces(html, len)[i]) <= len);
        }
    }
}

/// Strings that are chunks fit one by one.
proof fn lemma_fit_one_by_one(list: Seq<String>, html: Seq<char>, max_len: nat)
    requires
        every_char_fits(html, chunk_len(max_len)),
    ensures
        text::strings(list) == html_chunks(html, max_len) ==> forall|i: int|
            0 <= i < list.len() ==> text::byte_len((#[trigger] list[i])@) <= chunk_len(max_len),
{
    chunks_fit(html, max_len);
    if text::strings(list) == html_chunks(html, max_len) {
        assert forall|i: int| 0 <= i < list.len() implies text::byte_len((#[trigger] list[i])@)
            <= chunk_len(max_len) by {
            assert(text::strings(list)[i] == list[i]@);
        }
    }
}

/// Cutting a text into chunks loses nothing but line breaks: the pieces, joined, hold the
/// other characters of the text in their order.
pub proof fn chunks_lose_only_line_breaks(s: Seq<char>, chunk_len: nat)
    requires
        chunk_len > 0,
        every_char_fits(s, chunk_len),
    ensures
        without_breaks(pieces(s, chunk_len).flatten()) == without_breaks(s),
    decreases s.len(),
{
    broadcast use Seq::filter_distributes_over_add;

    let all = pieces(s, chunk_len);
    if s.len() == 0 {
        assert(all.flatten() =~= s);
    } else if closing_fits(s, chunk_len) {
        all.lemma_flatten_one_element();
    } else {
        lemma_cut_progress(s, chunk_len);
        lemma_rest_fits(s, chunk_len);
        let k = cut(s, chunk_len);
        let tail = s.skip(k);
        let n = lemma_trim_is_skip(tail);
        let rest = tail.skip(n);
        chunks_lose_only_line_breaks(rest, chunk_len);
        assert(all.drop_first() =~= pieces(rest, chunk_len));
        assert(all.flatten() == s.take(k) + pieces(rest, chunk_len).flatten());
        lemma_only_breaks(tail.take(n));
        assert(tail =~= tail.take(n) + rest);
        assert(s =~= s.take(k) + tail);
        assert(without_breaks(tail) =~= without_breaks(tail.take(n)) + without_breaks(rest));
        assert(without_breaks(s) =~= without_breaks(s.take(k)) + without_breaks(tail));
        assert(without_breaks(tail) =~= without_breaks(rest));
    }
}

/// Nothing remains of line breaks.
proof fn lemma_only_breaks(s: Seq<char>)
    requires
        forall|i: int| 0 <= i < s.len() ==> s[i] == '\n',
    ensures
        without_breaks(s) == Seq::<char>::empty(),
    decreases s.len(),
{
    reveal(Seq::filter);
    if s.len() > 0 {
        lemma_only_breaks(s.drop_last());
    }
}

/// A preferred cut lies outside of tags and entities, and leaves room for the closing tags.
pub proof fn preferred_cut_is_safe(s: Seq<char>, chunk_len: nat)
    requires
        preferred_cut(s, chunk_len) > 0,
    ensures
        boundary::safe_cut(s, split_limit(chunk_len), preferred_cut(s, chunk_len)),
        closing_fits(s.take(preferred_cut(s, chunk_len)), chunk_len),
{
    lemma_preferred_cut(s, chunk_len);
}

/// A text is cut inside of a tag or an entity only where no other cut fits in a chunk.
pub proof fn cuts_avoid_tags_and_entities(s: Seq<char>, chunk_len: nat, k: int)
    requires
        k > 0,
        boundary::safe_cut(s, chunk_len, k),
    ensures
        boundary::safe_cut(s, chunk_len, cut(s, chunk_len)),
{
    lemma_preferred_cut(s, chunk_len);
    lemma_largest_cut_is_good(s, chunk_len, chunk_len, Seq::empty());
    lemma_cuts_exist(s, chunk_len);
}

/// A chunk is left with open tags only where no cut, but inside of a tag or an entity, leaves
/// room for closing them.
pub proof fn chunks_are_closed(s: Seq<char>, chunk_len: nat, k: int)
    requires
        k > 0,
        boundary::safe_cut(s, chunk_len, k),
        closing_fits(s.take(k), chunk_len),
    ensures
        closing_fits(s.take(cut(s, chunk_len)), chunk_len),
        chunk_of(s.take(cut(s, chunk_len)), chunk_len) == tags::closed(
            s.take(cut(s, chunk_len)),
        ),
{
    lemma_preferred_cut(s, chunk_len);
    assert(s.take(k).skip(k) =~= Seq::empty());
    assert(good_cut(s, chunk_len, chunk_len, Seq::empty(), k));
    lemma_largest_cut_exists(s, chunk_len, chunk_len, Seq::empty(), k);
    lemma_largest_cut_is_good(s, chunk_len, chunk_len, Seq::empty());
}

/// What a message edit shows stays within the size of a Telegram message.
pub proof fn truncated_fits(html: Seq<char>)
    ensures
        text::byte_len(truncated(html)) <= MAX_MESSAGE_LEN,
{
    let k = truncated_cut(html);
    lemma_largest_cut_is_good(
        html,
        TRUNCATED_TARGET as nat,
        (MAX_MESSAGE_LEN - 3) as nat,
        Seq::empty(),
    );
    text::lemma_byte_len_concat(tags::closed(html.take(k)), "..."@);
    reveal_strlit("...");
    is_ascii_chars_encode_utf8("..."@);
}

} // verus!
