//! The marks that stand for code while the text around it is formatted.
use vstd::multiset::Multiset;
use vstd::prelude::*;
use vstd::seq_lib::lemma_multiset_commutative;

use crate::digits;
use crate::format::markdown;

verus! {

/// True when `s` holds no character that marks are made with.
pub open spec fn unmarked(s: Seq<char>) -> bool {
    forall|i: int| 0 <= i < s.len() ==> s[i] != '\0'
}

/// What stands in a mark between its two delimiters.
pub open spec fn mark_label(k: nat) -> Seq<char> {
    "CODE"@ + digits::numeral(k, 10)
}

/// True of the characters that a mark is made of.
pub open spec fn is_mark_char(c: char) -> bool {
    c == '\0' || c == 'C' || c == 'O' || c == 'D' || c == 'E' || '0' <= c <= '9'
}

/// A mark is its label between two delimiters, and the label holds none.
pub proof fn lemma_mark(k: nat)
    ensures
        markdown::placeholder(k) == seq!['\0'] + mark_label(k) + seq!['\0'],
        unmarked(mark_label(k)),
        markdown::placeholder(k).len() > 0,
        forall|i: int|
            0 <= i < markdown::placeholder(k).len() ==> is_mark_char(
                #[trigger] markdown::placeholder(k)[i],
            ),
{
    reveal_strlit("\x00CODE");
    reveal_strlit("CODE");
    reveal_strlit("\x00");
    assert("\x00CODE"@ =~= seq!['\0'] + "CODE"@);
    assert("\x00"@ =~= seq!['\0']);
    assert(markdown::placeholder(k) =~= seq!['\0'] + mark_label(k) + seq!['\0']);
    digits::lemma_numeral_value(k, 10);
    assert forall|i: int| 0 <= i < mark_label(k).len() implies mark_label(k)[i] != '\0'
        && is_mark_char(#[trigger] mark_label(k)[i]) by {
        if i >= 4 {
            assert(mark_label(k)[i] == digits::numeral(k, 10)[i - 4]);
            assert(digits::digit_value(digits::numeral(k, 10)[i - 4]) < 10);
        }
    }
    assert forall|i: int| 0 <= i < markdown::placeholder(k).len() implies is_mark_char(
        #[trigger] markdown::placeholder(k)[i],
    ) by {
        if 0 < i < markdown::placeholder(k).len() - 1 {
            assert(markdown::placeholder(k)[i] == mark_label(k)[i - 1]);
        }
    }
}

/// Marks of different regions have different labels.
pub proof fn lemma_labels_differ(j: nat, k: nat)
    requires
        j != k,
    ensures
        mark_label(j) != mark_label(k),
{
    if mark_label(j) == mark_label(k) {
        let n = "CODE"@.len() as int;
        assert(mark_label(j).skip(n) =~= digits::numeral(j, 10));
        assert(mark_label(k).skip(n) =~= digits::numeral(k, 10));
        digits::lemma_numeral_injective(j, k, 10);
    }
}

/// The marks with the numbers in `order`.
pub open spec fn marks(order: Seq<nat>) -> Seq<Seq<char>> {
    order.map_values(|k: nat| markdown::placeholder(k))
}

/// The first gap, the first filling, the second gap, and so on up to the last gap.
pub open spec fn woven(gaps: Seq<Seq<char>>, fills: Seq<Seq<char>>) -> Seq<char>
    decreases fills.len(),
{
    if fills.len() == 0 {
        gaps[0]
    } else {
        gaps[0] + fills[0] + woven(gaps.skip(1), fills.skip(1))
    }
}

/// True when `s` is made of the marks with the numbers in `order`, and of `gaps` without
/// delimiters around them.
pub open spec fn laid_out(s: Seq<char>, gaps: Seq<Seq<char>>, order: Seq<nat>) -> bool {
    &&& gaps.len() == order.len() + 1
    &&& forall|i: int| 0 <= i < gaps.len() ==> unmarked(#[trigger] gaps[i])
    &&& s == woven(gaps, marks(order))
}

/// True when `s` is made of whole marks, each number as often as `tally` says, and of text
/// without delimiters.
pub open spec fn holds(s: Seq<char>, tally: Multiset<nat>) -> bool {
    exists|gaps: Seq<Seq<char>>, order: Seq<nat>| #[trigger]
        laid_out(s, gaps, order) && order.to_multiset() == tally
}

/// A layout with a mark is a gap, the mark, and a layout.
pub proof fn lemma_unfold(s: Seq<char>, gaps: Seq<Seq<char>>, order: Seq<nat>) -> (rest: Seq<char>)
    requires
        laid_out(s, gaps, order),
        order.len() > 0,
    ensures
        s == gaps[0] + markdown::placeholder(order[0]) + rest,
        laid_out(rest, gaps.skip(1), order.skip(1)),
{
    assert(marks(order).skip(1) =~= marks(order.skip(1)));
    assert forall|i: int| 0 <= i < gaps.skip(1).len() implies unmarked(
        #[trigger] gaps.skip(1)[i],
    ) by {
        assert(unmarked(gaps[i + 1]));
    }
    woven(gaps.skip(1), marks(order).skip(1))
}

/// A gap, a mark, and a layout make a layout.
pub proof fn lemma_fold(gap: Seq<char>, k: nat, rest: Seq<char>, gaps: Seq<Seq<char>>, order: Seq<nat>)
    requires
        unmarked(gap),
        laid_out(rest, gaps, order),
    ensures
        laid_out(gap + markdown::placeholder(k) + rest, seq![gap] + gaps, seq![k] + order),
{
    let wider = seq![gap] + gaps;
    let longer = seq![k] + order;
    assert(wider.skip(1) =~= gaps);
    assert(marks(longer).skip(1) =~= marks(order));
    assert forall|i: int| 0 <= i < wider.len() implies unmarked(#[trigger] wider[i]) by {
        if i > 0 {
            assert(unmarked(gaps[i - 1]));
        }
    }
}

/// Text without delimiters is a layout of no marks.
pub proof fn lemma_one_gap(gap: Seq<char>)
    requires
        unmarked(gap),
    ensures
        laid_out(gap, seq![gap], Seq::empty()),
{
    assert(marks(Seq::<nat>::empty()) =~= Seq::empty());
}

/// Text without delimiters in front of a layout joins its first gap.
proof fn lemma_widen(gap: Seq<char>, s: Seq<char>, gaps: Seq<Seq<char>>, order: Seq<nat>) -> (wider:
    Seq<Seq<char>>)
    requires
        unmarked(gap),
        laid_out(s, gaps, order),
    ensures
        laid_out(gap + s, wider, order),
{
    assert(unmarked(gaps[0]));
    let first = gap + gaps[0];
    if order.len() == 0 {
        lemma_one_gap(first);
        assert(order =~= Seq::empty());
        assert(marks(order) =~= Seq::empty());
        seq![first]
    } else {
        let rest = lemma_unfold(s, gaps, order);
        lemma_fold(first, order[0], rest, gaps.skip(1), order.skip(1));
        assert(gap + s =~= first + markdown::placeholder(order[0]) + rest);
        assert(seq![order[0]] + order.skip(1) =~= order);
        seq![first] + gaps.skip(1)
    }
}

/// Two layouts make a layout.
proof fn lemma_join_layouts(
    x: Seq<char>,
    gaps_x: Seq<Seq<char>>,
    order_x: Seq<nat>,
    y: Seq<char>,
    gaps_y: Seq<Seq<char>>,
    order_y: Seq<nat>,
) -> (gaps: Seq<Seq<char>>)
    requires
        laid_out(x, gaps_x, order_x),
        laid_out(y, gaps_y, order_y),
    ensures
        laid_out(x + y, gaps, order_x + order_y),
    decreases order_x.len(),
{
    if order_x.len() == 0 {
        assert(marks(order_x) =~= Seq::empty());
        assert(unmarked(gaps_x[0]));
        assert(order_x + order_y =~= order_y);
        lemma_widen(x, y, gaps_y, order_y)
    } else {
        let k = order_x[0];
        let rest = lemma_unfold(x, gaps_x, order_x);
        let joined = lemma_join_layouts(
            rest,
            gaps_x.skip(1),
            order_x.skip(1),
            y,
            gaps_y,
            order_y,
        );
        assert(unmarked(gaps_x[0]));
        lemma_fold(gaps_x[0], k, rest + y, joined, order_x.skip(1) + order_y);
        assert(x + y =~= gaps_x[0] + markdown::placeholder(k) + (rest + y));
        assert(seq![k] + (order_x.skip(1) + order_y) =~= order_x + order_y);
        seq![gaps_x[0]] + joined
    }
}

/// True when no mark goes on across the cut behind the first `at` characters of `s`.
pub open spec fn between_marks(s: Seq<char>, at: int) -> bool {
    at == 0 || at == s.len() || !is_mark_char(s[at]) || !is_mark_char(s[at - 1])
}

/// A layout that is cut next to a character of no mark becomes two layouts.
proof fn lemma_cut_layout(s: Seq<char>, gaps: Seq<Seq<char>>, order: Seq<nat>, at: int) -> (k: int)
    requires
        laid_out(s, gaps, order),
        0 <= at <= s.len(),
        between_marks(s, at),
    ensures
        0 <= k <= order.len(),
        exists|front: Seq<Seq<char>>| laid_out(s.take(at), front, order.take(k)),
        exists|back: Seq<Seq<char>>| laid_out(s.skip(at), back, order.skip(k)),
    decreases order.len(),
{
    let gap = gaps[0];
    assert(unmarked(gap));
    if order.len() == 0 {
        assert(marks(order) =~= Seq::empty());
        lemma_one_gap(s.take(at));
        lemma_one_gap(s.skip(at));
        assert(order.take(0) =~= Seq::empty());
        assert(order.skip(0) =~= Seq::empty());
        0
    } else {
        let mark = markdown::placeholder(order[0]);
        let rest = lemma_unfold(s, gaps, order);
        let n = gap.len() as int;
        let m = mark.len() as int;
        lemma_mark(order[0]);
        if at <= n {
            lemma_one_gap(gap.take(at));
            lemma_fold(gap.skip(at), order[0], rest, gaps.skip(1), order.skip(1));
            assert(s.take(at) =~= gap.take(at));
            assert(s.skip(at) =~= gap.skip(at) + mark + rest);
            assert(order.take(0) =~= Seq::empty());
            assert(order.skip(0) =~= seq![order[0]] + order.skip(1));
            0
        } else if at < n + m {
            assert(s[at] == mark[at - n]);
            assert(s[at - 1] == mark[at - 1 - n]);
            0
        } else {
            let to = at - n - m;
            if 0 < to < rest.len() {
                assert(s[at] == rest[to]);
                assert(s[at - 1] == rest[to - 1]);
            }
            let k = lemma_cut_layout(rest, gaps.skip(1), order.skip(1), to);
            let front = choose|front: Seq<Seq<char>>|
                laid_out(rest.take(to), front, order.skip(1).take(k));
            lemma_fold(gap, order[0], rest.take(to), front, order.skip(1).take(k));
            assert(s.take(at) =~= gap + mark + rest.take(to));
            assert(s.skip(at) =~= rest.skip(to));
            assert(order.take(k + 1) =~= seq![order[0]] + order.skip(1).take(k));
            assert(order.skip(k + 1) =~= order.skip(1).skip(k));
            k + 1
        }
    }
}

/// Text without delimiters holds no marks.
pub proof fn lemma_no_marks(s: Seq<char>)
    requires
        unmarked(s),
    ensures
        holds(s, Multiset::empty()),
{
    lemma_one_gap(s);
    let none = Seq::<nat>::empty();
    vstd::seq_lib::to_multiset_len(none);
    assert(none.to_multiset() =~= Multiset::empty());
}

/// Text without delimiters holds nothing else.
proof fn lemma_no_marks_only(s: Seq<char>, tally: Multiset<nat>)
    requires
        unmarked(s),
        holds(s, tally),
    ensures
        tally == Multiset::<nat>::empty(),
{
    let (gaps, order) = choose|gaps: Seq<Seq<char>>, order: Seq<nat>| #[trigger]
        laid_out(s, gaps, order) && order.to_multiset() == tally;
    if order.len() > 0 {
        let rest = lemma_unfold(s, gaps, order);
        lemma_mark(order[0]);
        assert(s[gaps[0].len() as int] == markdown::placeholder(order[0])[0]);
    }
    vstd::seq_lib::to_multiset_len(order);
    assert(tally =~= Multiset::empty());
}

/// A mark holds itself.
pub proof fn lemma_mark_holds(k: nat)
    ensures
        holds(markdown::placeholder(k), Multiset::singleton(k)),
{
    let none = Seq::<char>::empty();
    let order = seq![k] + Seq::<nat>::empty();
    lemma_one_gap(none);
    lemma_fold(none, k, none, seq![none], Seq::empty());
    assert(none + markdown::placeholder(k) + none =~= markdown::placeholder(k));
    assert(order =~= Seq::<nat>::empty().push(k));
    vstd::seq_lib::to_multiset_len(Seq::<nat>::empty());
    vstd::seq_lib::to_multiset_build(Seq::<nat>::empty(), k);
    assert(order.to_multiset() =~= Multiset::singleton(k));
}

/// Two texts hold what each of them holds.
pub proof fn lemma_join(x: Seq<char>, a: Multiset<nat>, y: Seq<char>, b: Multiset<nat>)
    requires
        holds(x, a),
        holds(y, b),
    ensures
        holds(x + y, a.add(b)),
{
    let (gaps_x, order_x) = choose|gaps: Seq<Seq<char>>, order: Seq<nat>| #[trigger]
        laid_out(x, gaps, order) && order.to_multiset() == a;
    let (gaps_y, order_y) = choose|gaps: Seq<Seq<char>>, order: Seq<nat>| #[trigger]
        laid_out(y, gaps, order) && order.to_multiset() == b;
    let gaps = lemma_join_layouts(x, gaps_x, order_x, y, gaps_y, order_y);
    lemma_multiset_commutative(order_x, order_y);
}

/// A text that is cut next to a character of no mark shares its marks out.
pub proof fn lemma_cut(x: Seq<char>, y: Seq<char>, tally: Multiset<nat>) -> (shares: (
    Multiset<nat>,
    Multiset<nat>,
))
    requires
        holds(x + y, tally),
        between_marks(x + y, x.len() as int),
    ensures
        holds(x, shares.0),
        holds(y, shares.1),
        shares.0.add(shares.1) == tally,
{
    let s = x + y;
    let at = x.len() as int;
    let (gaps, order) = choose|gaps: Seq<Seq<char>>, order: Seq<nat>| #[trigger]
        laid_out(s, gaps, order) && order.to_multiset() == tally;
    let k = lemma_cut_layout(s, gaps, order, at);
    assert(s.take(at) =~= x);
    assert(s.skip(at) =~= y);
    lemma_multiset_commutative(order.take(k), order.skip(k));
    assert(order.take(k) + order.skip(k) =~= order);
    (order.take(k).to_multiset(), order.skip(k).to_multiset())
}

/// Markup can be taken out of a text without touching a mark.
pub proof fn lemma_take_out(
    x: Seq<char>,
    markup: Seq<char>,
    y: Seq<char>,
    tally: Multiset<nat>,
) -> (shares: (Multiset<nat>, Multiset<nat>))
    requires
        holds(x + markup + y, tally),
        markup.len() > 0,
        unmarked(markup),
        !is_mark_char(markup[0]),
        !is_mark_char(markup.last()),
    ensures
        holds(x, shares.0),
        holds(y, shares.1),
        shares.0.add(shares.1) == tally,
{
    let s = x + markup + y;
    assert(s =~= x + (markup + y));
    assert(s[x.len() as int] == markup[0]);
    let (a, b) = lemma_cut(x, markup + y, tally);
    assert((markup + y)[markup.len() - 1] == markup.last());
    let (none, c) = lemma_cut(markup, y, b);
    lemma_no_marks_only(markup, none);
    assert(b =~= c);
    (a, c)
}

/// A text between two tags holds what it holds.
pub proof fn lemma_between(open: Seq<char>, s: Seq<char>, close: Seq<char>, tally: Multiset<nat>)
    requires
        unmarked(open),
        unmarked(close),
        holds(s, tally),
    ensures
        holds(open + s + close, tally),
{
    lemma_no_marks(open);
    lemma_no_marks(close);
    lemma_join(open, Multiset::empty(), s, tally);
    lemma_join(open + s, Multiset::empty().add(tally), close, Multiset::empty());
    assert(Multiset::empty().add(tally).add(Multiset::empty()) =~= tally);
}

/// A text can be read as marks and text around them in one way only.
pub proof fn layouts_are_unique(
    s: Seq<char>,
    gaps: Seq<Seq<char>>,
    order: Seq<nat>,
    others: Seq<Seq<char>>,
    other: Seq<nat>,
)
    requires
        laid_out(s, gaps, order),
        laid_out(s, others, other),
    ensures
        gaps == others,
        order == other,
    decreases order.len(),
{
    if order.len() == 0 || other.len() == 0 {
        if order.len() > 0 {
            let rest = lemma_unfold(s, gaps, order);
            lemma_mark(order[0]);
            assert(s[gaps[0].len() as int] == '\0');
            assert(marks(other) =~= Seq::empty());
            assert(unmarked(others[0]));
        } else if other.len() > 0 {
            let rest = lemma_unfold(s, others, other);
            lemma_mark(other[0]);
            assert(s[others[0].len() as int] == '\0');
            assert(marks(order) =~= Seq::empty());
            assert(unmarked(gaps[0]));
        } else {
            assert(marks(order) =~= Seq::empty());
            assert(marks(other) =~= Seq::empty());
            assert(gaps =~= others);
            assert(order =~= other);
        }
    } else {
        let rest = lemma_unfold(s, gaps, order);
        let tail = lemma_unfold(s, others, other);
        lemma_mark(order[0]);
        lemma_mark(other[0]);
        let x = mark_label(order[0]);
        let y = mark_label(other[0]);
        assert(unmarked(gaps[0]) && unmarked(others[0]));
        assert(s =~= gaps[0] + (seq!['\0'] + (x + (seq!['\0'] + rest))));
        assert(s =~= others[0] + (seq!['\0'] + (y + (seq!['\0'] + tail))));
        lemma_first_delimiter(gaps[0], x + (seq!['\0'] + rest), others[0], y + (seq!['\0'] + tail));
        lemma_first_delimiter(x, rest, y, tail);
        if order[0] != other[0] {
            lemma_labels_differ(order[0], other[0]);
        }
        layouts_are_unique(rest, gaps.skip(1), order.skip(1), others.skip(1), other.skip(1));
        assert(gaps =~= seq![gaps[0]] + gaps.skip(1));
        assert(others =~= seq![others[0]] + others.skip(1));
        assert(order =~= seq![order[0]] + order.skip(1));
        assert(other =~= seq![other[0]] + other.skip(1));
    }
}

/// What stands in front of the first delimiter, and behind it, is fixed.
proof fn lemma_first_delimiter(x: Seq<char>, a: Seq<char>, y: Seq<char>, b: Seq<char>)
    requires
        unmarked(x),
        unmarked(y),
        x + (seq!['\0'] + a) == y + (seq!['\0'] + b),
    ensures
        x == y,
        a == b,
{
    let s = x + (seq!['\0'] + a);
    let t = y + (seq!['\0'] + b);
    assert(s[x.len() as int] == '\0');
    assert(t[y.len() as int] == '\0');
    if x.len() < y.len() {
        assert(t[x.len() as int] == y[x.len() as int]);
    }
    if y.len() < x.len() {
        assert(s[y.len() as int] == x[y.len() as int]);
    }
    assert(s.take(x.len() as int) =~= x);
    assert(t.take(y.len() as int) =~= y);
    assert(s.skip(x.len() as int + 1) =~= a);
    assert(t.skip(y.len() as int + 1) =~= b);
}

} // verus!
