//! Integers as text.
use vstd::prelude::*;
use vstd::string::*;

use crate::text::chars_of;

verus! {

/// The digit for the value `d`, which is less than sixteen.
pub open spec fn digit_char(d: nat) -> char {
    if d < 10 {
        (48 + d) as char
    } else {
        (87 + d) as char
    }
}

/// The value of the digit `c`; sixteen where `c` is no digit.
pub open spec fn digit_value(c: char) -> nat {
    if '0' <= c <= '9' {
        (c as nat - 48) as nat
    } else if 'a' <= c <= 'f' {
        (c as nat - 87) as nat
    } else {
        16
    }
}

/// `n` written in `base` with lower-case digits and no leading zeros.
pub open spec fn numeral(n: nat, base: nat) -> Seq<char>
    decreases n,
{
    if base < 2 || n < base {
        seq![digit_char(n)]
    } else {
        proof {
            assert(n / base < n) by (nonlinear_arith)
                requires
                    n >= base,
                    base >= 2,
            ;
        }
        numeral(n / base, base).push(digit_char(n % base))
    }
}

/// `i` written in decimal, with a minus sign where it is negative.
pub open spec fn integer(i: int) -> Seq<char> {
    if i < 0 {
        seq!['-'] + numeral((-i) as nat, 10)
    } else {
        numeral(i as nat, 10)
    }
}

/// True when `s` is made of digits of `base`, at least one.
pub open spec fn is_numeral(s: Seq<char>, base: nat) -> bool {
    s.len() > 0 && forall|i: int| 0 <= i < s.len() ==> digit_value(#[trigger] s[i]) < base
}

/// The number that the digits `s` of `base` stand for.
pub open spec fn value(s: Seq<char>, base: nat) -> nat
    decreases s.len(),
{
    if s.len() == 0 {
        0
    } else {
        value(s.drop_last(), base) * base + digit_value(s.last())
    }
}

/// The digits of `s`: what follows the sign, if there is one.
pub open spec fn unsigned_part(s: Seq<char>) -> Seq<char> {
    if s.len() > 0 && (s[0] == '-' || s[0] == '+') {
        s.skip(1)
    } else {
        s
    }
}

/// The number that `s` stands for in decimal, with an optional sign.
pub open spec fn signed_value(s: Seq<char>) -> int {
    if s.len() > 0 && s[0] == '-' {
        -(value(unsigned_part(s), 10) as int)
    } else {
        value(unsigned_part(s), 10) as int
    }
}

/// The 64-bit integer that `s` stands for, if it is one.
pub open spec fn parsed(s: Seq<char>) -> Option<i64> {
    if is_numeral(unsigned_part(s), 10) && i64::MIN <= signed_value(s) <= i64::MAX {
        Some(signed_value(s) as i64)
    } else {
        None
    }
}

/// A digit stands for its value.
proof fn lemma_digit(d: nat)
    requires
        d < 16,
    ensures
        digit_value(digit_char(d)) == d,
{
}

/// Writing a number and reading it back gives the number.
pub proof fn lemma_numeral_value(n: nat, base: nat)
    requires
        2 <= base <= 16,
    ensures
        is_numeral(numeral(n, base), base),
        value(numeral(n, base), base) == n,
    decreases n,
{
    let s = numeral(n, base);
    if n < base {
        lemma_digit(n);
        assert(s.drop_last() =~= Seq::<char>::empty());
        assert(value(s.drop_last(), base) == 0);
        assert(0 * base == 0) by (nonlinear_arith);
    } else {
        assert(n / base < n) by (nonlinear_arith)
            requires
                n >= base,
                base >= 2,
        ;
        lemma_numeral_value(n / base, base);
        assert(n % base < base) by (nonlinear_arith)
            requires
                base >= 2,
        ;
        lemma_digit(n % base);
        assert(s.drop_last() =~= numeral(n / base, base));
        assert((n / base) * base + n % base == n) by (nonlinear_arith)
            requires
                base >= 2,
        ;
        assert forall|i: int| 0 <= i < s.len() implies digit_value(#[trigger] s[i]) < base by {
            if i < s.len() - 1 {
                assert(s[i] == numeral(n / base, base)[i]);
            }
        }
    }
}

/// Different numbers are written differently.
pub proof fn lemma_numeral_injective(m: nat, n: nat, base: nat)
    requires
        2 <= base <= 16,
        numeral(m, base) == numeral(n, base),
    ensures
        m == n,
{
    lemma_numeral_value(m, base);
    lemma_numeral_value(n, base);
}

/// A 64-bit integer, written and read back, is itself.
pub proof fn lemma_integer_parses(i: i64)
    ensures
        parsed(integer(i as int)) == Some(i),
{
    let s = integer(i as int);
    if i < 0 {
        lemma_numeral_value((-(i as int)) as nat, 10);
        assert(s.skip(1) =~= numeral((-(i as int)) as nat, 10));
    } else {
        lemma_numeral_value(i as nat, 10);
        assert(digit_value(s[0]) < 10);
    }
}

/// The characters of an integer are digits and a minus sign.
pub proof fn lemma_integer_chars(i: int)
    ensures
        integer(i).len() > 0,
        forall|k: int|
            0 <= k < integer(i).len() ==> (#[trigger] integer(i)[k] == '-' || '0' <= integer(i)[k]
                <= '9'),
        forall|k: int| 0 < k < integer(i).len() ==> '0' <= #[trigger] integer(i)[k] <= '9',
{
    let n = (if i < 0 { -i } else { i }) as nat;
    let digits = numeral(n, 10);
    lemma_numeral_value(n, 10);
    assert forall|k: int| 0 <= k < digits.len() implies '0' <= #[trigger] digits[k] <= '9' by {
        assert(digit_value(digits[k]) < 10);
    }
    if i < 0 {
        assert forall|k: int| 0 < k < integer(i).len() implies '0' <= #[trigger] integer(i)[k]
            <= '9' by {
            assert(integer(i)[k] == digits[k - 1]);
        }
    }
}

/// Different integers are written differently.
pub proof fn lemma_integer_injective(i: int, j: int)
    requires
        integer(i) == integer(j),
    ensures
        i == j,
{
    lemma_numeral_value((if i < 0 { -i } else { i }) as nat, 10);
    lemma_numeral_value((if j < 0 { -j } else { j }) as nat, 10);
    if i < 0 && j < 0 {
        assert(integer(i).skip(1) =~= numeral((-i) as nat, 10));
        assert(integer(j).skip(1) =~= numeral((-j) as nat, 10));
    } else if i < 0 {
        assert(digit_value(numeral(j as nat, 10)[0]) < 10);
        assert(integer(i)[0] == '-');
    } else if j < 0 {
        assert(digit_value(numeral(i as nat, 10)[0]) < 10);
        assert(integer(j)[0] == '-');
    }
}

/// The digit for the value `d`.
fn digit(d: u8) -> (c: char)
    requires
        d < 16,
    ensures
        c == digit_char(d as nat),
{
    if d < 10 {
        (48 + d) as char
    } else {
        (87 + d) as char
    }
}

/// Append `n`, written in `base`.
pub fn push_numeral(out: &mut String, n: u128, base: u8)
    requires
        2 <= base <= 16,
    ensures
        final(out)@ == old(out)@ + numeral(n as nat, base as nat),
    decreases n,
{
    let wide = base as u128;
    assert((n % wide) as nat == (n as nat) % (base as nat));
    assert((n / wide) as nat == (n as nat) / (base as nat));
    if n >= wide {
        assert(n / wide < n) by (nonlinear_arith)
            requires
                n >= wide,
                wide >= 2,
        ;
        push_numeral(out, n / wide, base);
    }
    assert(n % wide < wide) by (nonlinear_arith)
        requires
            wide >= 2,
    ;
    let ghost before = out@;
    out.push(digit((n % wide) as u8));
    assert(out@ == before.push(digit_char((n as nat) % (base as nat))));
    assert(n < wide ==> (n as nat) % (base as nat) == n) by (nonlinear_arith)
        requires
            wide == base,
            wide >= 2,
    ;
    assert(out@ =~= old(out)@ + numeral(n as nat, base as nat));
}

/// Append `i`, written in decimal.
pub fn push_integer(out: &mut String, i: i64)
    ensures
        final(out)@ == old(out)@ + integer(i as int),
{
    if i < 0 {
        out.push('-');
        let magnitude: i128 = -(i as i128);
        push_numeral(out, magnitude as u128, 10);
        assert(out@ =~= old(out)@ + integer(i as int));
    } else {
        push_numeral(out, i as u128, 10);
    }
}

/// More digits never make a smaller number.
proof fn lemma_value_monotone(s: Seq<char>, k: int)
    requires
        0 <= k <= s.len(),
    ensures
        value(s.take(k), 10) <= value(s, 10),
    decreases s.len() - k,
{
    if k == s.len() {
        assert(s.take(k) =~= s);
    } else {
        lemma_value_monotone(s, k + 1);
        assert(s.take(k + 1).drop_last() =~= s.take(k));
    }
}

/// Read a 64-bit integer in decimal, with an optional sign.
pub fn parse_integer(string: &str) -> (result: Option<i64>)
    ensures
        result == parsed(string@),
{
    let chars = chars_of(string);
    let ghost s = string@;
    let negative = chars.len() > 0 && chars[0] == '-';
    let from: usize = if chars.len() > 0 && (chars[0] == '-' || chars[0] == '+') {
        1
    } else {
        0
    };
    let ghost digits = unsigned_part(s);
    assert(s.skip(0) =~= s);
    assert(digits =~= s.skip(from as int));
    if chars.len() == from {
        return None;
    }
    let limit: u128 = 0x8000_0000_0000_0000;
    let mut total: u128 = 0;
    let mut at: usize = from;
    assert(digits.take(0) =~= Seq::<char>::empty());
    while at < chars.len()
        invariant
            from <= at <= chars.len(),
            chars@ == s,
            s == string@,
            digits == s.skip(from as int),
            digits == unsigned_part(s),
            limit == 0x8000_0000_0000_0000,
            total == value(digits.take(at - from), 10),
            total <= limit,
            forall|i: int| 0 <= i < at - from ==> digit_value(#[trigger] digits[i]) < 10,
        decreases chars@.len() - at,
    {
        let c = chars[at];
        assert(digits[at - from] == c);
        if c < '0' || c > '9' {
            assert(digit_value(c) >= 10);
            return None;
        }
        let d = (c as u32 - 48) as u128;
        assert(digits.take(at + 1 - from).drop_last() =~= digits.take(at - from));
        total = total * 10 + d;
        at = at + 1;
        if total > limit {
            proof {
                lemma_value_monotone(digits, at - from);
            }
            return None;
        }
    }
    assert(digits.take(at - from) =~= digits);
    if negative {
        Some((-(total as i128)) as i64)
    } else if total < limit {
        Some(total as i64)
    } else {
        None
    }
}

/// A number is written digit by digit: one digit more stands behind those of the number without
/// it. In base ten and in base sixteen these are the usual digits, in lower case. A negative
/// number has a minus sign in front.
pub proof fn numbers_are_written_digit_by_digit(n: nat, d: nat)
    ensures
        d < 10 ==> numeral(d, 10) == seq!["0123456789"@[d as int]],
        d < 16 ==> numeral(d, 16) == seq!["0123456789abcdef"@[d as int]],
        d < 10 && n > 0 ==> numeral(n * 10 + d, 10) == numeral(n, 10).push(
            "0123456789"@[d as int],
        ),
        d < 16 && n > 0 ==> numeral(n * 16 + d, 16) == numeral(n, 16).push(
            "0123456789abcdef"@[d as int],
        ),
        integer(n as int) == numeral(n, 10),
        n > 0 ==> integer(-n) == seq!['-'] + numeral(n, 10),
{
    reveal_strlit("0123456789");
    reveal_strlit("0123456789abcdef");
    if d < 10 && n > 0 {
        assert((n * 10 + d) / 10 == n && (n * 10 + d) % 10 == d);
    }
    if d < 16 && n > 0 {
        assert((n * 16 + d) / 16 == n && (n * 16 + d) % 16 == d);
    }
}

/// Digits are read from the left, each ten times what follows it.
pub proof fn digits_add_up(s: Seq<char>, d: nat)
    requires
        d < 10,
    ensures
        value(Seq::empty(), 10) == 0,
        value(s.push("0123456789"@[d as int]), 10) == value(s, 10) * 10 + d,
{
    reveal_strlit("0123456789");
    assert(s.push("0123456789"@[d as int]).drop_last() =~= s);
}

/// A text is read as an integer where it is made of digits, at least one, with a sign in front or
/// none, and fits into 64 bits. A minus sign makes the number negative. No other text is.
pub proof fn integers_are_read(s: Seq<char>, i: int)
    ensures
        s.len() > 0 && (forall|j: int| 0 <= j < s.len() ==> '0' <= #[trigger] s[j] <= '9') ==> {
            let n = value(s, 10) as int;
            &&& n <= i64::MAX ==> parsed(s) == Some(n as i64)
            &&& n > i64::MAX ==> parsed(s) is None
            &&& n <= i64::MAX ==> parsed(seq!['+'] + s) == Some(n as i64)
            &&& n > i64::MAX ==> parsed(seq!['+'] + s) is None
            &&& n <= 0x8000_0000_0000_0000 ==> parsed(seq!['-'] + s) == Some((-n) as i64)
            &&& n > 0x8000_0000_0000_0000 ==> parsed(seq!['-'] + s) is None
        },
        s.len() == 0 ==> parsed(s) is None && parsed(seq!['+']) is None && parsed(
            seq!['-'],
        ) is None,
        0 <= i < s.len() && !('0' <= s[i] <= '9') && !(i == 0 && (s[0] == '-' || s[0] == '+'))
            ==> parsed(s) is None,
{
    let plus = seq!['+'] + s;
    let minus = seq!['-'] + s;
    assert(plus.skip(1) =~= s);
    assert(minus.skip(1) =~= s);
    if s.len() > 0 && (forall|j: int| 0 <= j < s.len() ==> '0' <= #[trigger] s[j] <= '9') {
        assert('0' <= s[0] <= '9');
        assert(unsigned_part(s) == s);
        assert(is_numeral(s, 10));
    }
    assert(seq!['+'].skip(1) =~= Seq::<char>::empty());
    assert(seq!['-'].skip(1) =~= Seq::<char>::empty());
    if 0 <= i < s.len() && !('0' <= s[i] <= '9') && !(i == 0 && (s[0] == '-' || s[0] == '+')) {
        let t = unsigned_part(s);
        let j = if t == s {
            i
        } else {
            i - 1
        };
        assert(t[j] == s[i]);
        assert(digit_value(t[j]) >= 10);
    }
}

} // verus!
