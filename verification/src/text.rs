//! Strings as sequences of characters, measured and cut in UTF-8 bytes.
use vstd::prelude::*;
use vstd::string::*;
use vstd::utf8::*;

verus! {

/// Number of bytes of the UTF-8 encoding of `s`.
pub open spec fn byte_len(s: Seq<char>) -> nat {
    encode_utf8(s).len()
}

/// The characters of `s` whose encoding takes the bytes from `from` to `to`.
pub open spec fn byte_slice(s: Seq<char>, from: int, to: int) -> Seq<char> {
    decode_utf8(encode_utf8(s).subrange(from, to))
}

/// True when byte offset `at` of `s` lies between two characters, or at either end.
pub open spec fn on_boundary(s: Seq<char>, at: int) -> bool {
    is_char_boundary(encode_utf8(s), at)
}

/// The strings of `list` as sequences of characters.
pub open spec fn strings(list: Seq<String>) -> Seq<Seq<char>> {
    list.map_values(|string: String| string@)
}

/// `String::push` of the standard library appends one character.
pub assume_specification[ String::push ](string: &mut String, c: char)
    ensures
        final(string)@ == old(string)@.push(c),
;

/// The encoding of a concatenation is the concatenation of the encodings.
pub proof fn lemma_encode_concat(a: Seq<char>, b: Seq<char>)
    ensures
        encode_utf8(a + b) == encode_utf8(a) + encode_utf8(b),
    decreases a.len(),
{
    if a.len() == 0 {
        assert(a + b =~= b);
        assert(encode_utf8(a) + encode_utf8(b) =~= encode_utf8(b));
    } else {
        assert((a + b).drop_first() =~= a.drop_first() + b);
        lemma_encode_concat(a.drop_first(), b);
        assert(encode_utf8(a + b) =~= encode_utf8(a) + encode_utf8(b));
    }
}

/// Two strings with the same encoding are the same string.
pub proof fn lemma_encode_injective(a: Seq<char>, b: Seq<char>)
    requires
        encode_utf8(a) == encode_utf8(b),
    ensures
        a == b,
{
    encode_utf8_decode_utf8(a);
    encode_utf8_decode_utf8(b);
}

/// The byte length of a concatenation is the sum of the byte lengths.
pub proof fn lemma_byte_len_concat(a: Seq<char>, b: Seq<char>)
    ensures
        byte_len(a + b) == byte_len(a) + byte_len(b),
{
    lemma_encode_concat(a, b);
}

/// Every character takes one to four bytes.
pub proof fn lemma_byte_len_one(c: char)
    ensures
        byte_len(seq![c]) == encode_scalar(c as u32).len(),
        1 <= byte_len(seq![c]) <= 4,
{
    assert(seq![c].drop_first() =~= Seq::<char>::empty());
    assert(encode_utf8(Seq::<char>::empty()) =~= Seq::<u8>::empty());
    assert(encode_utf8(seq![c]) =~= encode_scalar(c as u32));
}

/// The bytes in front of a cut and behind it make up the whole.
pub proof fn lemma_byte_len_split(s: Seq<char>, k: int)
    requires
        0 <= k <= s.len(),
    ensures
        byte_len(s) == byte_len(s.take(k)) + byte_len(s.skip(k)),
{
    assert(s.take(k) + s.skip(k) =~= s);
    lemma_byte_len_concat(s.take(k), s.skip(k));
}

/// One more character adds its width.
pub proof fn lemma_byte_len_step(s: Seq<char>, k: int)
    requires
        0 <= k < s.len(),
    ensures
        byte_len(s.take(k + 1)) == byte_len(s.take(k)) + byte_len(seq![s[k]]),
{
    assert(s.take(k + 1) =~= s.take(k) + seq![s[k]]);
    lemma_byte_len_concat(s.take(k), seq![s[k]]);
}

/// Longer prefixes take at least as many bytes.
pub proof fn lemma_byte_len_monotone(s: Seq<char>, j: int, k: int)
    requires
        0 <= j <= k <= s.len(),
    ensures
        byte_len(s.take(j)) <= byte_len(s.take(k)),
        byte_len(s.take(j)) + (k - j) <= byte_len(s.take(k)),
        byte_len(s.take(k)) <= byte_len(s),
    decreases k - j,
{
    lemma_byte_len_split(s, k);
    if j < k {
        lemma_byte_len_monotone(s, j, k - 1);
        lemma_byte_len_step(s, k - 1);
        lemma_byte_len_one(s[k - 1]);
    }
}

/// The offset behind the first `k` characters is a boundary.
pub proof fn lemma_prefix_on_boundary(s: Seq<char>, k: int)
    requires
        0 <= k <= s.len(),
    ensures
        on_boundary(s, byte_len(s.take(k)) as int),
        encode_utf8(s).subrange(0, byte_len(s.take(k)) as int) == encode_utf8(s.take(k)),
        encode_utf8(s).subrange(byte_len(s.take(k)) as int, byte_len(s) as int) == encode_utf8(
            s.skip(k),
        ),
{
    let head = encode_utf8(s.take(k));
    let tail = encode_utf8(s.skip(k));
    assert(s.take(k) + s.skip(k) =~= s);
    lemma_encode_concat(s.take(k), s.skip(k));
    assert(encode_utf8(s).subrange(0, head.len() as int) =~= head);
    assert(encode_utf8(s).subrange(head.len() as int, byte_len(s) as int) =~= tail);
    encode_utf8_valid_utf8(s);
    encode_utf8_valid_utf8(s.skip(k));
    if tail.len() == 0 {
        is_char_boundary_start_end_of_seq(encode_utf8(s));
    } else {
        assert(encode_utf8(s)[head.len() as int] == tail[0]);
        assert(!is_continuation_byte(tail[0]));
        is_char_boundary_iff_not_is_continuation_byte(encode_utf8(s), head.len() as int);
    }
}

/// Cutting in front of the offset of the first `k` characters leaves these characters.
pub proof fn lemma_prefix_slice(s: Seq<char>, k: int)
    requires
        0 <= k <= s.len(),
    ensures
        byte_slice(s, 0, byte_len(s.take(k)) as int) == s.take(k),
        byte_slice(s, byte_len(s.take(k)) as int, byte_len(s) as int) == s.skip(k),
{
    lemma_prefix_on_boundary(s, k);
    encode_utf8_decode_utf8(s.take(k));
    encode_utf8_decode_utf8(s.skip(k));
}

/// A boundary behind another one is a boundary of what remains there.
pub proof fn lemma_boundary_of_rest(bytes: Seq<u8>, from: int, to: int)
    requires
        valid_utf8(bytes),
        is_char_boundary(bytes, from),
        is_char_boundary(bytes, to),
        0 <= from <= to <= bytes.len(),
    ensures
        valid_utf8(bytes.subrange(from, bytes.len() as int)),
        is_char_boundary(bytes.subrange(from, bytes.len() as int), to - from),
        valid_utf8(bytes.subrange(from, to)),
{
    let rest = bytes.subrange(from, bytes.len() as int);
    valid_utf8_split(bytes, from);
    if to == bytes.len() {
        is_char_boundary_start_end_of_seq(rest);
    } else {
        assert(rest[to - from] == bytes[to]);
        is_char_boundary_iff_not_is_continuation_byte(bytes, to);
        is_char_boundary_iff_not_is_continuation_byte(rest, to - from);
    }
    valid_utf8_split(rest, to - from);
    assert(rest.subrange(0, to - from) =~= bytes.subrange(from, to));
}

/// Two neighbouring slices are one.
pub proof fn lemma_slices(s: Seq<char>, a: int, b: int, c: int)
    requires
        0 <= a <= b <= c <= byte_len(s),
        on_boundary(s, a),
        on_boundary(s, b),
        on_boundary(s, c),
    ensures
        byte_slice(s, a, c) == byte_slice(s, a, b) + byte_slice(s, b, c),
        byte_len(byte_slice(s, a, b)) == b - a,
{
    let bytes = encode_utf8(s);
    encode_utf8_valid_utf8(s);
    lemma_boundary_of_rest(bytes, a, b);
    lemma_boundary_of_rest(bytes, a, c);
    lemma_boundary_of_rest(bytes, b, c);
    decode_utf8_encode_utf8(bytes.subrange(a, b));
    decode_utf8_encode_utf8(bytes.subrange(b, c));
    decode_utf8_encode_utf8(bytes.subrange(a, c));
    let x = byte_slice(s, a, b);
    let y = byte_slice(s, b, c);
    lemma_encode_concat(x, y);
    assert(bytes.subrange(a, b) + bytes.subrange(b, c) =~= bytes.subrange(a, c));
    lemma_encode_injective(byte_slice(s, a, c), x + y);
}

/// The characters of `text`, one by one.
pub fn chars_of(text: &str) -> (chars: Vec<char>)
    ensures
        chars@ == text@,
{
    let mut chars: Vec<char> = Vec::new();
    for c in it: text.chars()
        invariant
            it.seq() == text@,
            chars@ == text@.take(it.index() as int),
    {
        chars.push(c);
    }
    assert(text@.take(text@.len() as int) =~= text@);
    chars
}

/// The string made of the characters of `chars` from `from` up to `to`.
pub fn string_of(chars: &Vec<char>, from: usize, to: usize) -> (string: String)
    requires
        from <= to <= chars@.len(),
    ensures
        string@ == chars@.subrange(from as int, to as int),
{
    let mut string = String::new();
    let mut i: usize = from;
    while i < to
        invariant
            from <= i <= to <= chars@.len(),
            string@ == chars@.subrange(from as int, i as int),
        decreases to - i,
    {
        string.push(chars[i]);
        assert(chars@.subrange(from as int, i + 1) =~= chars@.subrange(from as int, i as int).push(
            chars@[i as int],
        ));
        i = i + 1;
    }
    string
}

/// Number of bytes that `c` takes in UTF-8.
pub fn utf8_width(c: char) -> (width: usize)
    ensures
        width == byte_len(seq![c]),
        1 <= width <= 4,
{
    proof {
        lemma_byte_len_one(c);
    }
    let scalar: u32 = c as u32;
    if scalar < 0x80 {
        1
    } else if scalar < 0x800 {
        2
    } else if scalar < 0x10000 {
        3
    } else {
        4
    }
}

/// Number of bytes that the first `count` characters of `chars` take.
pub fn prefix_len(chars: &Vec<char>, count: usize) -> (len: usize)
    requires
        count <= chars@.len(),
        byte_len(chars@.take(count as int)) <= usize::MAX,
    ensures
        len == byte_len(chars@.take(count as int)),
{
    let mut len: usize = 0;
    let mut i: usize = 0;
    assert(chars@.take(0) =~= Seq::<char>::empty());
    assert(encode_utf8(Seq::<char>::empty()).len() == 0);
    while i < count
        invariant
            i <= count <= chars@.len(),
            byte_len(chars@.take(count as int)) <= usize::MAX,
            len == byte_len(chars@.take(i as int)),
        decreases count - i,
    {
        proof {
            lemma_byte_len_step(chars@, i as int);
            lemma_byte_len_monotone(chars@.take(count as int), i + 1, count as int);
            assert(chars@.take(count as int).take(i + 1) =~= chars@.take(i + 1));
        }
        len = len + utf8_width(chars[i]);
        i = i + 1;
    }
    len
}

/// Number of bytes of `text`.
pub fn len_of(text: &str) -> (len: usize)
    ensures
        len == byte_len(text@),
{
    text.as_bytes().len()
}

/// The part of `text` between two byte offsets.
pub fn slice<'a>(text: &'a str, from: usize, to: usize) -> (part: &'a str)
    requires
        from <= to <= byte_len(text@),
        on_boundary(text@, from as int),
        on_boundary(text@, to as int),
    ensures
        part@ == byte_slice(text@, from as int, to as int),
        encode_utf8(part@) == encode_utf8(text@).subrange(from as int, to as int),
{
    proof {
        encode_utf8_valid_utf8(text@);
        lemma_boundary_of_rest(encode_utf8(text@), from as int, to as int);
    }
    let (_, rest) = text.split_at(from);
    let (part, _) = rest.split_at(to - from);
    proof {
        assert(part.spec_bytes() =~= encode_utf8(text@).subrange(from as int, to as int));
        encode_utf8_decode_utf8(part@);
    }
    part
}

/// True when the two strings hold the same characters.
pub fn same(a: &str, b: &str) -> (equal: bool)
    ensures
        equal == (a@ == b@),
{
    let left = a.as_bytes();
    let right = b.as_bytes();
    if left.len() != right.len() {
        return false;
    }
    let mut i: usize = 0;
    while i < left.len()
        invariant
            i <= left@.len(),
            left@.len() == right@.len(),
            left@ == encode_utf8(a@),
            right@ == encode_utf8(b@),
            forall|j: int| 0 <= j < i ==> left@[j] == right@[j],
        decreases left@.len() - i,
    {
        if left[i] != right[i] {
            return false;
        }
        i = i + 1;
    }
    proof {
        assert(left@ =~= right@);
        lemma_encode_injective(a@, b@);
    }
    true
}

/// `prefix` and `text` as one string.
pub fn prefixed(prefix: &str, text: &str) -> (string: String)
    ensures
        string@ == prefix@ + text@,
{
    let mut string = prefix.to_owned();
    string.append(text);
    string
}

} // verus!
