//! Places where HTML text can be cut.
use vstd::prelude::*;
use vstd::string::*;
use vstd::utf8::*;

use crate::format::escape;
use crate::format::escape::matches_at;
use crate::text;
use crate::text::{chars_of, prefix_len, slice, utf8_width};

verus! {

/// True when the end of `s` lies behind an `opener` that no `closer` follows.
pub open spec fn inside(s: Seq<char>, opener: char, closer: char) -> bool {
    exists|i: int|
        0 <= i < s.len() && #[trigger] s[i] == opener && forall|j: int|
            i < j < s.len() ==> #[trigger] s[j] != closer
}

/// True when the end of `s` lies in the middle of a tag.
pub open spec fn inside_tag(s: Seq<char>) -> bool {
    inside(s, '<', '>')
}

/// True when the end of `s` lies in the middle of an entity.
pub open spec fn inside_entity(s: Seq<char>) -> bool {
    inside(s, '&', ';')
}

/// True when the first `k` characters of `s` take at most `max_len` bytes.
pub open spec fn fits(s: Seq<char>, max_len: nat, k: int) -> bool {
    0 <= k <= s.len() && text::byte_len(s.take(k)) <= max_len
}

/// True when `s` can be cut behind its first `k` characters: they fit in `max_len` bytes
/// and end neither in a tag nor in an entity.
pub open spec fn safe_cut(s: Seq<char>, max_len: nat, k: int) -> bool {
    fits(s, max_len, k) && !inside_tag(s.take(k)) && !inside_entity(s.take(k))
}

/// True when `k` is the largest safe cut of `s`.
pub open spec fn is_longest_safe_cut(s: Seq<char>, max_len: nat, k: int) -> bool {
    safe_cut(s, max_len, k) && forall|j: int| #[trigger] safe_cut(s, max_len, j) ==> j <= k
}

/// The largest safe cut of `s`, in characters.
pub open spec fn longest_safe_cut(s: Seq<char>, max_len: nat) -> int {
    choose|k: int| is_longest_safe_cut(s, max_len, k)
}

/// True when `k` is the largest number of characters of `s` that fit in `max_len` bytes.
pub open spec fn is_longest_fit(s: Seq<char>, max_len: nat, k: int) -> bool {
    fits(s, max_len, k) && forall|j: int| #[trigger] fits(s, max_len, j) ==> j <= k
}

/// The largest number of characters of `s` that fit in `max_len` bytes.
pub open spec fn longest_fit(s: Seq<char>, max_len: nat) -> int {
    choose|k: int| is_longest_fit(s, max_len, k)
}

/// True when the last occurrence of `delimiter` in `s` ends behind its first `k` characters.
pub open spec fn ends_last(s: Seq<char>, delimiter: Seq<char>, k: int) -> bool {
    &&& delimiter.len() <= k <= s.len()
    &&& escape::begins_with(s.skip(k - delimiter.len()), delimiter)
    &&& forall|j: int|
        k - delimiter.len() < j <= s.len() ==> !escape::begins_with(#[trigger] s.skip(j), delimiter)
}

/// The number of characters of `s` up to the end of the last `delimiter` in it.
pub open spec fn split_point(s: Seq<char>, delimiter: Seq<char>) -> Option<int> {
    if exists|k: int| ends_last(s, delimiter, k) {
        Some(choose|k: int| ends_last(s, delimiter, k))
    } else {
        None
    }
}

/// One more character opens, closes, or leaves things as they are.
proof fn lemma_inside_step(s: Seq<char>, c: char, opener: char, closer: char)
    requires
        opener != closer,
    ensures
        inside(s.push(c), opener, closer) == (c == opener || (inside(s, opener, closer) && c
            != closer)),
{
    let t = s.push(c);
    let n = s.len() as int;
    if c == opener {
        assert(t[n] == opener);
    } else if inside(s, opener, closer) && c != closer {
        let i = choose|i: int|
            0 <= i < s.len() && #[trigger] s[i] == opener && forall|j: int|
                i < j < s.len() ==> #[trigger] s[j] != closer;
        assert(t[i] == opener);
        assert forall|j: int| i < j < t.len() implies #[trigger] t[j] != closer by {
            if j < n {
                assert(t[j] == s[j]);
            }
        }
    } else if inside(t, opener, closer) {
        let i = choose|i: int|
            0 <= i < t.len() && #[trigger] t[i] == opener && forall|j: int|
                i < j < t.len() ==> #[trigger] t[j] != closer;
        assert(i < n);
        assert(t[n] == c);
        assert(s[i] == opener);
        assert forall|j: int| i < j < s.len() implies #[trigger] s[j] != closer by {
            assert(t[j] == s[j]);
        }
    }
}

/// The largest safe cut exists and is unique.
pub proof fn lemma_longest_safe_cut(s: Seq<char>, max_len: nat, k: int)
    requires
        is_longest_safe_cut(s, max_len, k),
    ensures
        longest_safe_cut(s, max_len) == k,
{
    let chosen = longest_safe_cut(s, max_len);
    assert(is_longest_safe_cut(s, max_len, chosen));
    assert(safe_cut(s, max_len, chosen));
    assert(safe_cut(s, max_len, k));
}

/// The largest fit is unique.
pub proof fn lemma_longest_fit(s: Seq<char>, max_len: nat, k: int)
    requires
        is_longest_fit(s, max_len, k),
    ensures
        longest_fit(s, max_len) == k,
{
    let chosen = longest_fit(s, max_len);
    assert(is_longest_fit(s, max_len, chosen));
    assert(fits(s, max_len, chosen));
    assert(fits(s, max_len, k));
}

/// Nothing fits behind a prefix that does not.
proof fn lemma_fits_closed(s: Seq<char>, max_len: nat, k: int)
    requires
        0 <= k <= s.len(),
        !fits(s, max_len, k),
    ensures
        forall|j: int| #[trigger] fits(s, max_len, j) ==> j < k,
{
    assert forall|j: int| #[trigger] fits(s, max_len, j) implies j < k by {
        if j >= k {
            text::lemma_byte_len_monotone(s, k, j);
        }
    }
}

/// Find a safe truncation boundary in HTML at or before `max_len`.
///
/// The result is the byte offset of the largest safe cut: one that lies between two
/// characters, inside no tag and inside no entity.
pub fn find_safe_html_boundary(html: &str, max_len: usize) -> (boundary: usize)
    ensures
        is_longest_safe_cut(html@, max_len as nat, longest_safe_cut(html@, max_len as nat)),
        boundary == text::byte_len(html@.take(longest_safe_cut(html@, max_len as nat))),
        boundary <= max_len,
{
    let chars = chars_of(html);
    let ghost s = html@;
    let mut at: usize = 0;
    let mut offset: usize = 0;
    let mut boundary: usize = 0;
    let mut in_tag = false;
    let mut in_entity = false;
    let mut open = true;
    let ghost mut cut: int = 0;
    assert(s.take(0) =~= Seq::<char>::empty());
    assert(encode_utf8(Seq::<char>::empty()).len() == 0);
    while open && at < chars.len()
        invariant
            chars@ == s,
            s == html@,
            at <= chars.len(),
            0 <= cut <= at,
            safe_cut(s, max_len as nat, cut),
            boundary == text::byte_len(s.take(cut)),
            boundary <= max_len,
            open ==> {
                &&& offset == text::byte_len(s.take(at as int))
                &&& offset <= max_len
                &&& in_tag == inside_tag(s.take(at as int))
                &&& in_entity == inside_entity(s.take(at as int))
                &&& forall|j: int| #[trigger] safe_cut(s, max_len as nat, j) && j <= at ==> j <= cut
            },
            !open ==> is_longest_safe_cut(s, max_len as nat, cut),
        decreases chars@.len() - at + if open { 1int } else { 0int },
    {
        let c = chars[at];
        let width = utf8_width(c);
        proof {
            text::lemma_byte_len_step(s, at as int);
        }
        if width > max_len - offset {
            proof {
                lemma_fits_closed(s, max_len as nat, at + 1);
            }
            open = false;
        } else {
            proof {
                assert(s.take(at + 1) =~= s.take(at as int).push(c));
                lemma_inside_step(s.take(at as int), c, '<', '>');
                lemma_inside_step(s.take(at as int), c, '&', ';');
            }
            in_tag = c == '<' || (in_tag && c != '>');
            in_entity = c == '&' || (in_entity && c != ';');
            offset = offset + width;
            at = at + 1;
            if !in_tag && !in_entity {
                boundary = offset;
                proof {
                    cut = at as int;
                }
            }
            assert forall|j: int| #[trigger] safe_cut(s, max_len as nat, j) && j <= at implies j
                <= cut by {
                if j == at {
                    assert(s.take(j) == s.take(at as int));
                }
            }
        }
    }
    proof {
        lemma_longest_safe_cut(s, max_len as nat, cut);
    }
    boundary
}

/// The byte offset of the last place between two characters of `string` at or before `at`.
pub fn floor_char_boundary(string: &str, at: usize) -> (boundary: usize)
    ensures
        is_longest_fit(string@, at as nat, longest_fit(string@, at as nat)),
        boundary == text::byte_len(string@.take(longest_fit(string@, at as nat))),
        boundary <= at,
{
    let chars = chars_of(string);
    let ghost s = string@;
    let mut count: usize = 0;
    let mut offset: usize = 0;
    assert(s.take(0) =~= Seq::<char>::empty());
    assert(encode_utf8(Seq::<char>::empty()).len() == 0);
    while count < chars.len()
        invariant_except_break
            chars@ == s,
            s == string@,
            count <= chars.len(),
            offset == text::byte_len(s.take(count as int)),
            offset <= at,
        ensures
            offset == text::byte_len(s.take(count as int)),
            is_longest_fit(s, at as nat, count as int),
        decreases chars@.len() - count,
    {
        let width = utf8_width(chars[count]);
        proof {
            text::lemma_byte_len_step(s, count as int);
        }
        if width > at - offset {
            proof {
                lemma_fits_closed(s, at as nat, count + 1);
            }
            break;
        }
        offset = offset + width;
        count = count + 1;
    }
    proof {
        lemma_longest_fit(s, at as nat, count as int);
    }
    offset
}

/// The end of the last occurrence is unique.
pub proof fn lemma_split_point(s: Seq<char>, delimiter: Seq<char>, k: int)
    requires
        ends_last(s, delimiter, k),
    ensures
        split_point(s, delimiter) == Some(k),
{
    let chosen = choose|k: int| ends_last(s, delimiter, k);
    assert(ends_last(s, delimiter, chosen));
    let n = delimiter.len() as int;
    if chosen < k {
        assert(begins_with_at(s, delimiter, k - n));
    } else if k < chosen {
        assert(begins_with_at(s, delimiter, chosen - n));
    }
}

/// True when `delimiter` stands in `s` behind the first `at` characters.
spec fn begins_with_at(s: Seq<char>, delimiter: Seq<char>, at: int) -> bool {
    escape::begins_with(s.skip(at), delimiter)
}

/// The offset behind the last `delimiter` in the first `boundary` bytes of `string`.
pub fn find_split_point(string: &str, boundary: usize, delimiter: &str) -> (point: Option<usize>)
    requires
        boundary <= text::byte_len(string@),
        text::on_boundary(string@, boundary as int),
    ensures
        ({
            let region = text::byte_slice(string@, 0, boundary as int);
            match split_point(region, delimiter@) {
                Some(k) => point == Some(text::byte_len(region.take(k)) as usize)
                    && text::byte_len(region.take(k)) <= boundary,
                None => point is None,
            }
        }),
{
    proof {
        encode_utf8_valid_utf8(string@);
        is_char_boundary_start_end_of_seq(encode_utf8(string@));
    }
    let region = slice(string, 0, boundary);
    let chars = chars_of(region);
    let word = chars_of(delimiter);
    let ghost s = region@;
    assert(text::byte_len(s) == boundary);
    if chars.len() < word.len() {
        assert(forall|k: int| !ends_last(s, delimiter@, k));
        return None;
    }
    let mut at: usize = chars.len() - word.len();
    assert forall|j: int| at < j <= s.len() implies !escape::begins_with(
        #[trigger] s.skip(j),
        delimiter@,
    ) by {
        assert(s.skip(j).len() < delimiter@.len());
    }
    while at > 0 && !matches_at(&chars, at, &word)
        invariant
            chars@ == s,
            word@ == delimiter@,
            at + word@.len() <= chars.len(),
            forall|j: int|
                at < j <= s.len() ==> !escape::begins_with(#[trigger] s.skip(j), delimiter@),
        decreases at,
    {
        at = at - 1;
    }
    if matches_at(&chars, at, &word) {
        let count = at + word.len();
        proof {
            lemma_split_point(s, delimiter@, count as int);
            text::lemma_byte_len_monotone(s, count as int, s.len() as int);
            assert(s.take(s.len() as int) =~= s);
        }
        Some(prefix_len(&chars, count))
    } else {
        assert forall|k: int| !ends_last(s, delimiter@, k) by {
            if ends_last(s, delimiter@, k) {
                assert(begins_with_at(s, delimiter@, k - delimiter@.len()));
                assert(k - delimiter@.len() == 0);
            }
        }
        None
    }
}

/// `s` without the line breaks that it begins with.
pub open spec fn trim_newlines(s: Seq<char>) -> Seq<char>
    decreases s.len(),
{
    if s.len() > 0 && s[0] == '\n' {
        trim_newlines(s.skip(1))
    } else {
        s
    }
}

/// Drop the line breaks at the beginning of `string`.
pub fn skip_newlines<'a>(string: &'a str) -> (rest: &'a str)
    ensures
        rest@ == trim_newlines(string@),
{
    let chars = chars_of(string);
    let ghost s = string@;
    let len = text::len_of(string);
    let mut count: usize = 0;
    assert(s.skip(0) =~= s);
    while count < chars.len() && chars[count] == '\n'
        invariant
            chars@ == s,
            count <= chars.len(),
            trim_newlines(s) == trim_newlines(s.skip(count as int)),
        decreases chars@.len() - count,
    {
        assert(s.skip(count as int).skip(1) =~= s.skip(count + 1));
        count = count + 1;
    }
    proof {
        text::lemma_byte_len_monotone(s, count as int, s.len() as int);
        assert(s.take(s.len() as int) =~= s);
        text::lemma_prefix_on_boundary(s, count as int);
        text::lemma_prefix_on_boundary(s, s.len() as int);
        text::lemma_prefix_slice(s, count as int);
    }
    let from = prefix_len(&chars, count);
    slice(string, from, len)
}

} // verus!
