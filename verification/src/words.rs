//! Whitespace, words and separated lists.
use vstd::prelude::*;

use crate::text::{chars_of, string_of};

verus! {

/// True of the characters with the Unicode property `White_Space`.
pub open spec fn is_white(c: char) -> bool {
    ||| '\u{9}' <= c <= '\u{d}'
    ||| c == ' '
    ||| c == '\u{85}'
    ||| c == '\u{a0}'
    ||| c == '\u{1680}'
    ||| '\u{2000}' <= c <= '\u{200a}'
    ||| c == '\u{2028}'
    ||| c == '\u{2029}'
    ||| c == '\u{202f}'
    ||| c == '\u{205f}'
    ||| c == '\u{3000}'
}

/// `s` without the whitespace that it begins with.
pub open spec fn trim_start(s: Seq<char>) -> Seq<char>
    decreases s.len(),
{
    if s.len() > 0 && is_white(s[0]) {
        trim_start(s.skip(1))
    } else {
        s
    }
}

/// `s` without the whitespace that it ends with.
pub open spec fn trim_end(s: Seq<char>) -> Seq<char>
    decreases s.len(),
{
    if s.len() > 0 && is_white(s.last()) {
        trim_end(s.drop_last())
    } else {
        s
    }
}

/// `s` without whitespace at its ends.
pub open spec fn trimmed(s: Seq<char>) -> Seq<char> {
    trim_end(trim_start(s))
}

/// The characters of `s` up to the first whitespace.
pub open spec fn leading_word(s: Seq<char>) -> Seq<char>
    decreases s.len(),
{
    if s.len() == 0 || is_white(s[0]) {
        Seq::empty()
    } else {
        seq![s[0]] + leading_word(s.skip(1))
    }
}

/// The first word of `s`, empty where there is none.
pub open spec fn first_word(s: Seq<char>) -> Seq<char> {
    leading_word(trim_start(s))
}

/// The parts of `s` between the separators: one more than there are separators.
pub open spec fn split(s: Seq<char>, separator: char) -> Seq<Seq<char>>
    decreases s.len(),
{
    if s.len() == 0 {
        seq![Seq::empty()]
    } else {
        let front = split(s.drop_last(), separator);
        if s.last() == separator {
            front.push(Seq::empty())
        } else {
            front.drop_last().push(front.last().push(s.last()))
        }
    }
}

/// True when `c` is whitespace.
pub fn is_whitespace(c: char) -> (white: bool)
    ensures
        white == is_white(c),
{
    ('\u{9}' <= c && c <= '\u{d}') || c == ' ' || c == '\u{85}' || c == '\u{a0}' || c == '\u{1680}'
        || ('\u{2000}' <= c && c <= '\u{200a}') || c == '\u{2028}' || c == '\u{2029}' || c
        == '\u{202f}' || c == '\u{205f}' || c == '\u{3000}'
}

/// The characters of `chars` from `from` up to `to`, without whitespace at the ends.
pub fn trim_range(chars: &Vec<char>, from: usize, to: usize) -> (string: String)
    requires
        from <= to <= chars@.len(),
    ensures
        string@ == trimmed(chars@.subrange(from as int, to as int)),
{
    let ghost s = chars@.subrange(from as int, to as int);
    let mut start: usize = from;
    while start < to && is_whitespace(chars[start])
        invariant
            from <= start <= to <= chars@.len(),
            trim_start(s) == trim_start(chars@.subrange(start as int, to as int)),
        decreases to - start,
    {
        assert(chars@.subrange(start as int, to as int).skip(1) =~= chars@.subrange(
            start + 1,
            to as int,
        ));
        start = start + 1;
    }
    let ghost t = chars@.subrange(start as int, to as int);
    assert(trim_start(s) == t);
    let mut end: usize = to;
    while end > start && is_whitespace(chars[end - 1])
        invariant
            from <= start <= end <= to <= chars@.len(),
            trim_end(t) == trim_end(chars@.subrange(start as int, end as int)),
        decreases end,
    {
        assert(chars@.subrange(start as int, end as int).drop_last() =~= chars@.subrange(
            start as int,
            end - 1,
        ));
        end = end - 1;
    }
    assert(trim_end(t) == chars@.subrange(start as int, end as int));
    string_of(chars, start, end)
}

/// The first word of `string`.
pub fn word_of(string: &str) -> (word: String)
    ensures
        word@ == first_word(string@),
{
    let chars = chars_of(string);
    let ghost s = string@;
    let mut start: usize = 0;
    assert(s.skip(0) =~= s);
    while start < chars.len() && is_whitespace(chars[start])
        invariant
            start <= chars@.len(),
            chars@ == s,
            trim_start(s) == trim_start(s.skip(start as int)),
        decreases chars@.len() - start,
    {
        assert(s.skip(start as int).skip(1) =~= s.skip(start + 1));
        start = start + 1;
    }
    let ghost t = s.skip(start as int);
    assert(trim_start(s) == t);
    let mut end: usize = start;
    assert(s.subrange(start as int, end as int) + leading_word(t) =~= leading_word(t));
    while end < chars.len() && !is_whitespace(chars[end])
        invariant
            start <= end <= chars@.len(),
            chars@ == s,
            leading_word(t) == s.subrange(start as int, end as int) + leading_word(
                s.skip(end as int),
            ),
        decreases chars@.len() - end,
    {
        assert(s.skip(end as int).skip(1) =~= s.skip(end + 1));
        assert(s.subrange(start as int, end + 1) =~= s.subrange(start as int, end as int) + seq![
            s[end as int],
        ]);
        assert(leading_word(t) =~= s.subrange(start as int, end + 1) + leading_word(
            s.skip(end + 1),
        ));
        end = end + 1;
    }
    assert(s.subrange(start as int, end as int) + Seq::<char>::empty() =~= s.subrange(
        start as int,
        end as int,
    ));
    string_of(&chars, start, end)
}

} // verus!
