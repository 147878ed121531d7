//! Code comes through the conversion: formatting moves its marks as a whole, and each is put back
//! where its mark stands.
use vstd::multiset::Multiset;
use vstd::prelude::*;
use vstd::utf8::*;

use crate::format::escape;
use crate::format::markdown;
use crate::format::marks;
use crate::format::patterns;
use crate::format::patterns::{Spans, BOLD, CODE_BLOCK, HEADING, INLINE_CODE, ITALIC, LINK};
use crate::format::subset;
use crate::text;

verus! {

/// Escaping leaves a text without special characters as it is.
proof fn lemma_escape_plain(s: Seq<char>)
    requires
        forall|i: int| 0 <= i < s.len() ==> marks::is_mark_char(#[trigger] s[i]),
    ensures
        escape::escape(s) == s,
    decreases s.len(),
{
    if s.len() > 0 {
        assert(marks::is_mark_char(s[0]));
        assert forall|i: int| 0 <= i < s.skip(1).len() implies marks::is_mark_char(
            #[trigger] s.skip(1)[i],
        ) by {
            assert(marks::is_mark_char(s[i + 1]));
        }
        lemma_escape_plain(s.skip(1));
        assert(s =~= seq![s[0]] + s.skip(1));
    }
}

/// Escaping adds no delimiter.
proof fn lemma_escape_unmarked(s: Seq<char>)
    requires
        marks::unmarked(s),
    ensures
        marks::unmarked(escape::escape(s)),
    decreases s.len(),
{
    if s.len() > 0 {
        escape::lemma_entities();
        lemma_escape_unmarked(s.skip(1));
        let w = escape::escape_char(s[0]);
        let t = escape::escape(s.skip(1));
        assert forall|i: int| 0 <= i < escape::escape(s).len() implies escape::escape(s)[i]
            != '\0' by {
            if i < w.len() {
                assert(escape::escape(s)[i] == w[i]);
            } else {
                assert(escape::escape(s)[i] == t[i - w.len()]);
            }
        }
    }
}

/// Escaping keeps the marks of a layout.
proof fn lemma_escape_layout(s: Seq<char>, gaps: Seq<Seq<char>>, order: Seq<nat>) -> (escaped: Seq<
    Seq<char>,
>)
    requires
        marks::laid_out(s, gaps, order),
    ensures
        marks::laid_out(escape::escape(s), escaped, order),
    decreases order.len(),
{
    let gap = gaps[0];
    assert(marks::unmarked(gap));
    lemma_escape_unmarked(gap);
    if order.len() == 0 {
        assert(marks::marks(order) =~= Seq::empty());
        marks::lemma_one_gap(escape::escape(gap));
        assert(order =~= Seq::empty());
        seq![escape::escape(gap)]
    } else {
        let mark = markdown::placeholder(order[0]);
        let rest = marks::lemma_unfold(s, gaps, order);
        let more = lemma_escape_layout(rest, gaps.skip(1), order.skip(1));
        marks::lemma_mark(order[0]);
        lemma_escape_plain(mark);
        escape::escape_of_concatenation(gap, mark);
        escape::escape_of_concatenation(gap + mark, rest);
        marks::lemma_fold(
            escape::escape(gap),
            order[0],
            escape::escape(rest),
            more,
            order.skip(1),
        );
        assert(seq![order[0]] + order.skip(1) =~= order);
        seq![escape::escape(gap)] + more
    }
}

/// Escaping keeps the marks.
proof fn lemma_escape(s: Seq<char>, tally: Multiset<nat>)
    requires
        marks::holds(s, tally),
    ensures
        marks::holds(escape::escape(s), tally),
{
    let (gaps, order) = choose|gaps: Seq<Seq<char>>, order: Seq<nat>| #[trigger]
        marks::laid_out(s, gaps, order) && order.to_multiset() == tally;
    let escaped = lemma_escape_layout(s, gaps, order);
}

/// An entity does not go on behind a delimiter.
proof fn lemma_entity_ends(x: Seq<char>, y: Seq<char>)
    requires
        x.len() > 0,
        y.len() == 0 || y[0] == '\0',
    ensures
        escape::leading_entity(x + y) == escape::leading_entity(x),
        escape::leading_entity(x) matches Some(c) ==> escape::escape_char(c).len() <= x.len(),
{
    escape::lemma_entities();
    let s = x + y;
    assert forall|c: char| c != '\0' implies escape::begins_with(
        s,
        #[trigger] escape::escape_char(c),
    ) == escape::begins_with(x, escape::escape_char(c)) by {
        let w = escape::escape_char(c);
        let n = w.len() as int;
        if escape::begins_with(x, w) {
            assert(s.take(n) =~= x.take(n));
        } else if escape::begins_with(s, w) {
            if n <= x.len() {
                assert(s.take(n) =~= x.take(n));
            } else {
                assert(s.take(n)[x.len() as int] == y[0]);
                assert(w[x.len() as int] != '\0');
            }
        }
    }
}

/// Texts can be unescaped apart where the second begins with a delimiter.
proof fn lemma_unescape_apart(x: Seq<char>, y: Seq<char>)
    requires
        y.len() == 0 || y[0] == '\0',
    ensures
        escape::unescape(x + y) == escape::unescape(x) + escape::unescape(y),
    decreases x.len(),
{
    let s = x + y;
    if x.len() == 0 {
        assert(s =~= y);
        assert(escape::unescape(x) =~= Seq::empty());
        assert(escape::unescape(x) + escape::unescape(y) =~= escape::unescape(y));
    } else {
        escape::lemma_entities();
        lemma_entity_ends(x, y);
        let n = match escape::leading_entity(x) {
            Some(c) => escape::escape_char(c).len() as int,
            None => 1,
        };
        assert(n > 0);
        lemma_unescape_apart(x.skip(n), y);
        assert(s.skip(n) =~= x.skip(n) + y);
        assert(escape::unescape(s) =~= escape::unescape(x) + escape::unescape(y));
    }
}

/// Unescaping leaves a mark as it is.
proof fn lemma_unescape_plain(s: Seq<char>, y: Seq<char>)
    requires
        forall|i: int| 0 <= i < s.len() ==> marks::is_mark_char(#[trigger] s[i]),
    ensures
        escape::unescape(s + y) == s + escape::unescape(y),
    decreases s.len(),
{
    let t = s + y;
    if s.len() == 0 {
        assert(t =~= y);
        assert(s + escape::unescape(y) =~= escape::unescape(y));
    } else {
        escape::lemma_entities();
        assert(marks::is_mark_char(s[0]));
        assert forall|c: char| escape::escape_char(c).len() > 1 implies !escape::begins_with(
            t,
            #[trigger] escape::escape_char(c),
        ) by {
            if escape::begins_with(t, escape::escape_char(c)) {
                assert(t.take(escape::escape_char(c).len() as int)[0] == s[0]);
            }
        }
        assert(escape::leading_entity(t) is None);
        assert(t.skip(1) =~= s.skip(1) + y);
        assert forall|i: int| 0 <= i < s.skip(1).len() implies marks::is_mark_char(
            #[trigger] s.skip(1)[i],
        ) by {
            assert(marks::is_mark_char(s[i + 1]));
        }
        lemma_unescape_plain(s.skip(1), y);
        assert(seq![s[0]] + (s.skip(1) + escape::unescape(y)) =~= s + escape::unescape(y));
    }
}

/// Unescaping adds no delimiter.
proof fn lemma_unescape_unmarked(s: Seq<char>)
    requires
        marks::unmarked(s),
    ensures
        marks::unmarked(escape::unescape(s)),
    decreases s.len(),
{
    if s.len() > 0 {
        escape::lemma_entities();
        let n = match escape::leading_entity(s) {
            Some(c) => escape::escape_char(c).len() as int,
            None => 1,
        };
        lemma_unescape_unmarked(s.skip(n));
    }
}

/// Unescaping keeps the marks of a layout.
proof fn lemma_unescape_layout(s: Seq<char>, gaps: Seq<Seq<char>>, order: Seq<nat>) -> (plain: Seq<
    Seq<char>,
>)
    requires
        marks::laid_out(s, gaps, order),
    ensures
        marks::laid_out(escape::unescape(s), plain, order),
    decreases order.len(),
{
    let gap = gaps[0];
    assert(marks::unmarked(gap));
    lemma_unescape_unmarked(gap);
    if order.len() == 0 {
        assert(marks::marks(order) =~= Seq::empty());
        marks::lemma_one_gap(escape::unescape(gap));
        assert(order =~= Seq::empty());
        seq![escape::unescape(gap)]
    } else {
        let mark = markdown::placeholder(order[0]);
        let rest = marks::lemma_unfold(s, gaps, order);
        let more = lemma_unescape_layout(rest, gaps.skip(1), order.skip(1));
        marks::lemma_mark(order[0]);
        assert(s =~= gap + (mark + rest));
        lemma_unescape_apart(gap, mark + rest);
        lemma_unescape_plain(mark, rest);
        assert(escape::unescape(s) =~= escape::unescape(gap) + mark + escape::unescape(rest));
        marks::lemma_fold(
            escape::unescape(gap),
            order[0],
            escape::unescape(rest),
            more,
            order.skip(1),
        );
        assert(seq![order[0]] + order.skip(1) =~= order);
        seq![escape::unescape(gap)] + more
    }
}

/// Unescaping keeps the marks.
proof fn lemma_unescape(s: Seq<char>, tally: Multiset<nat>)
    requires
        marks::holds(s, tally),
    ensures
        marks::holds(escape::unescape(s), tally),
{
    let (gaps, order) = choose|gaps: Seq<Seq<char>>, order: Seq<nat>| #[trigger]
        marks::laid_out(s, gaps, order) && order.to_multiset() == tally;
    let plain = lemma_unescape_layout(s, gaps, order);
}

/// The mark that replaces match `i`, where marks from number `first` on replace the matches.
pub open spec fn added(first: Option<nat>, i: int) -> Multiset<nat> {
    match first {
        Some(number) => Multiset::singleton((number + i) as nat),
        None => Multiset::empty(),
    }
}

/// The marks that replace the first `n` matches.
pub open spec fn added_by(first: Option<nat>, n: nat) -> Multiset<nat>
    decreases n,
{
    if n == 0 {
        Multiset::empty()
    } else {
        added_by(first, (n - 1) as nat).add(added(first, n - 1))
    }
}

/// True when the three texts hold, one by one, the marks of `tally`.
pub open spec fn shared(x: Seq<char>, y: Seq<char>, z: Seq<char>, tally: Multiset<nat>) -> bool {
    exists|a: Multiset<nat>, b: Multiset<nat>, c: Multiset<nat>|
        #![trigger marks::holds(x, a), marks::holds(y, b), marks::holds(z, c)]
        marks::holds(x, a) && marks::holds(y, b) && marks::holds(z, c) && a.add(b).add(c) == tally
}

/// True when replacing match `i`, behind `before`, part by part keeps the marks.
pub open spec fn parts_keep(
    s: Seq<char>,
    hits: Seq<Spans>,
    parts: subset::Parts,
    first: Option<nat>,
    i: int,
    before: Seq<char>,
    tally: Multiset<nat>,
) -> bool {
    let rest = subset::rest_of(s, hits, i + 1);
    marks::holds(before + patterns::group_text(s, hits[i], 0) + rest, tally) ==> shared(
        before + parts.fronts[i],
        parts.middles[i],
        parts.backs[i] + rest,
        tally.add(added(first, i)),
    )
}

/// True when all replacements are made of their parts, and all keep the marks.
pub open spec fn keeping(
    s: Seq<char>,
    hits: Seq<Spans>,
    replacements: Seq<Seq<char>>,
    parts: subset::Parts,
    first: Option<nat>,
) -> bool {
    &&& replacements.len() == hits.len()
    &&& forall|i: int|
        0 <= i < hits.len() ==> #[trigger] replacements[i] == parts.fronts[i] + parts.middles[i]
            + parts.backs[i]
    &&& forall|i: int, before: Seq<char>, tally: Multiset<nat>|
        0 <= i < hits.len() ==> #[trigger] parts_keep(s, hits, parts, first, i, before, tally)
}

/// The text up to the end of the first `n` matches becomes a front and the back of the last
/// replacement. The front, and the back with what follows, share the marks.
proof fn lemma_front_keeps(
    s: Seq<char>,
    groups: nat,
    hits: Seq<Spans>,
    replacements: Seq<Seq<char>>,
    parts: subset::Parts,
    first: Option<nat>,
    tally: Multiset<nat>,
    n: nat,
) -> (share: (Seq<char>, Multiset<nat>, Multiset<nat>))
    requires
        marks::holds(s, tally),
        patterns::hits_within(s, groups, hits),
        keeping(s, hits, replacements, parts, first),
        n <= hits.len(),
    ensures
        marks::holds(share.0, share.1),
        marks::holds(
            subset::last_of(parts.backs, n as int) + subset::rest_of(s, hits, n as int),
            share.2,
        ),
        share.1.add(share.2) == tally.add(added_by(first, n)),
        markdown::rewritten_front(s, hits, replacements, n) == share.0 + subset::last_of(
            parts.backs,
            n as int,
        ),
        text::on_boundary(s, markdown::end_of(hits, n as int)),
        0 <= markdown::end_of(hits, n as int) <= text::byte_len(s),
    decreases n,
{
    let len = text::byte_len(s) as int;
    let none = Seq::<char>::empty();
    encode_utf8_valid_utf8(s);
    is_char_boundary_start_end_of_seq(encode_utf8(s));
    if n == 0 {
        assert(encode_utf8(s).subrange(0, len) =~= encode_utf8(s));
        encode_utf8_decode_utf8(s);
        assert(subset::rest_of(s, hits, 0) == s);
        assert(none + s =~= s);
        assert(none + subset::last_of(parts.backs, 0) =~= none);
        marks::lemma_no_marks(none);
        assert(Multiset::empty().add(tally) =~= tally.add(Multiset::empty()));
        (none, Multiset::empty(), tally)
    } else {
        let i = n - 1;
        let (front, a, b) = lemma_front_keeps(
            s,
            groups,
            hits,
            replacements,
            parts,
            first,
            tally,
            i as nat,
        );
        let hit = hits[i];
        let back = subset::last_of(parts.backs, i);
        let from = markdown::end_of(hits, i);
        let start = patterns::span_start(hit[0]) as int;
        let end = patterns::span_end(hit[0]) as int;
        assert(patterns::hit_within(s, groups, hit));
        assert(patterns::span_within(s, hit[0], start as usize, end as usize));
        if i > 0 {
            assert(patterns::span_end(hits[i - 1][0]) <= patterns::span_start(hits[i][0]));
        }
        let between = text::byte_slice(s, from, start);
        let whole = patterns::group_text(s, hit, 0);
        let rest = subset::rest_of(s, hits, n as int);
        text::lemma_slices(s, from, start, len);
        text::lemma_slices(s, start, end, len);
        assert(back + subset::rest_of(s, hits, i) =~= (back + between) + whole + rest);
        assert(parts_keep(s, hits, parts, first, i, back + between, b));
        let x = back + between + parts.fronts[i];
        let y = parts.middles[i];
        let z = parts.backs[i] + rest;
        let (c, d, e) = choose|c: Multiset<nat>, d: Multiset<nat>, e: Multiset<nat>|
            #![trigger marks::holds(x, c), marks::holds(y, d), marks::holds(z, e)]
            marks::holds(x, c) && marks::holds(y, d) && marks::holds(z, e) && c.add(d).add(e)
                == b.add(added(first, i));
        marks::lemma_join(front, a, x, c);
        marks::lemma_join(front + x, a.add(c), y, d);
        assert(markdown::rewritten_front(s, hits, replacements, n) =~= (front + x + y)
            + parts.backs[i]);
        assert(a.add(c).add(d).add(e) =~= a.add(c.add(d).add(e)));
        assert(a.add(b.add(added(first, i))) =~= a.add(b).add(added(first, i)));
        assert(tally.add(added_by(first, i as nat)).add(added(first, i)) =~= tally.add(
            added_by(first, n),
        ));
        (front + x + y, a.add(c).add(d), e)
    }
}

/// Rewriting part by part keeps the marks, and adds those that replace matches.
proof fn lemma_rewritten_keeps(
    s: Seq<char>,
    groups: nat,
    hits: Seq<Spans>,
    replacements: Seq<Seq<char>>,
    parts: subset::Parts,
    first: Option<nat>,
    tally: Multiset<nat>,
)
    requires
        marks::holds(s, tally),
        patterns::hits_within(s, groups, hits),
        keeping(s, hits, replacements, parts, first),
    ensures
        marks::holds(
            markdown::rewritten(s, hits, replacements),
            tally.add(added_by(first, hits.len())),
        ),
{
    let n = hits.len();
    let (front, a, b) = lemma_front_keeps(
        s,
        groups,
        hits,
        replacements,
        parts,
        first,
        tally,
        n,
    );
    let tail = subset::last_of(parts.backs, n as int) + subset::rest_of(s, hits, n as int);
    marks::lemma_join(front, a, tail, b);
    assert(markdown::rewritten(s, hits, replacements) =~= front + tail);
}

/// Formatting adds no marks.
proof fn lemma_none_added(n: nat)
    ensures
        added_by(None, n) == Multiset::<nat>::empty(),
    decreases n,
{
    if n > 0 {
        lemma_none_added((n - 1) as nat);
    }
    assert(added_by(None, n) =~= Multiset::empty());
}

/// The tags hold no delimiters.
proof fn lemma_tags_unmarked()
    ensures
        marks::unmarked("<b>"@),
        marks::unmarked("</b>"@),
        marks::unmarked("<i>"@),
        marks::unmarked("</i>"@),
        marks::unmarked("<a href=\""@),
        marks::unmarked("\">"@),
        marks::unmarked("</a>"@),
        marks::unmarked(" ("@),
        marks::unmarked(")"@),
        marks::unmarked("<pre>"@),
        marks::unmarked("</pre>"@),
        marks::unmarked("<code>"@),
        marks::unmarked("</code>"@),
        "<pre>"@[0] == '<',
        "<code>"@[0] == '<',
        "<pre>"@.len() > 0,
        "<code>"@.len() > 0,
{
    reveal_strlit("<b>");
    reveal_strlit("</b>");
    reveal_strlit("<i>");
    reveal_strlit("</i>");
    reveal_strlit("<a href=\"");
    reveal_strlit("\">");
    reveal_strlit("</a>");
    reveal_strlit(" (");
    reveal_strlit(")");
    reveal_strlit("<pre>");
    reveal_strlit("</pre>");
    reveal_strlit("<code>");
    reveal_strlit("</code>");
}

/// Marks that stand where nothing is kept of the match are shared out.
proof fn lemma_shared(
    x: Seq<char>,
    a: Multiset<nat>,
    y: Seq<char>,
    b: Multiset<nat>,
    z: Seq<char>,
    c: Multiset<nat>,
    tally: Multiset<nat>,
)
    requires
        marks::holds(x, a),
        marks::holds(y, b),
        marks::holds(z, c),
        a.add(b).add(c) =~= tally,
    ensures
        shared(x + Seq::<char>::empty(), y, Seq::<char>::empty() + z, tally),
{
    assert(x + Seq::<char>::empty() =~= x);
    assert(Seq::<char>::empty() + z =~= z);
}

/// Bold text keeps the marks.
pub proof fn lemma_bold(s: Seq<char>, hits: Seq<Spans>, tally: Multiset<nat>)
    requires
        marks::holds(s, tally),
        patterns::hits_within(s, 1, hits),
        forall|i: int| 0 <= i < hits.len() ==> patterns::made_of(BOLD@, s, #[trigger] hits[i]),
    ensures
        marks::holds(
            markdown::rewritten(s, hits, markdown::wrapped(s, hits, "<b>"@, "</b>"@)),
            tally,
        ),
{
    let replacements = markdown::wrapped(s, hits, "<b>"@, "</b>"@);
    let parts = subset::middles_only(replacements);
    lemma_tags_unmarked();
    reveal_strlit("**");
    assert forall|i: int, x: Seq<char>, m: Multiset<nat>| 0 <= i < hits.len() implies
        #[trigger] parts_keep(s, hits, parts, None, i, x, m) by {
        let one = patterns::group_text(s, hits[i], 1);
        let whole = patterns::group_text(s, hits[i], 0);
        let rest = subset::rest_of(s, hits, i + 1);
        assert(patterns::made_of(BOLD@, s, hits[i]));
        if marks::holds(x + whole + rest, m) {
            let inner = one + "**"@ + rest;
            assert(x + whole + rest =~= x + "**"@ + inner);
            let (a, b) = marks::lemma_take_out(x, "**"@, inner, m);
            let (c, d) = marks::lemma_take_out(one, "**"@, rest, b);
            marks::lemma_between("<b>"@, one, "</b>"@, c);
            assert(a.add(c).add(d) =~= m.add(added(None, i)));
            lemma_shared(x, a, replacements[i], c, rest, d, m.add(added(None, i)));
        }
    }
    subset::lemma_only_middles(replacements);
    lemma_rewritten_keeps(s, 1, hits, replacements, parts, None, tally);
    lemma_none_added(hits.len());
    assert(tally.add(Multiset::empty()) =~= tally);
}

/// Italic text keeps the marks.
pub proof fn lemma_italic(s: Seq<char>, hits: Seq<Spans>, tally: Multiset<nat>)
    requires
        marks::holds(s, tally),
        patterns::hits_within(s, 3, hits),
        forall|i: int| 0 <= i < hits.len() ==> patterns::made_of(ITALIC@, s, #[trigger] hits[i]),
    ensures
        marks::holds(markdown::rewritten(s, hits, markdown::italicized(s, hits)), tally),
{
    let replacements = markdown::italicized(s, hits);
    let parts = subset::Parts {
        fronts: Seq::new(hits.len(), |i: int| patterns::group_text(s, hits[i], 1)),
        middles: Seq::new(
            hits.len(),
            |i: int| "<i>"@ + patterns::group_text(s, hits[i], 2) + "</i>"@,
        ),
        backs: Seq::new(hits.len(), |i: int| patterns::group_text(s, hits[i], 3)),
    };
    lemma_tags_unmarked();
    reveal_strlit("*");
    assert forall|i: int, x: Seq<char>, m: Multiset<nat>| 0 <= i < hits.len() implies
        #[trigger] parts_keep(s, hits, parts, None, i, x, m) by {
        let one = patterns::group_text(s, hits[i], 1);
        let two = patterns::group_text(s, hits[i], 2);
        let three = patterns::group_text(s, hits[i], 3);
        let whole = patterns::group_text(s, hits[i], 0);
        let rest = subset::rest_of(s, hits, i + 1);
        assert(patterns::made_of(ITALIC@, s, hits[i]));
        if marks::holds(x + whole + rest, m) {
            let tail = two + "*"@ + (three + rest);
            assert(x + whole + rest =~= (x + one) + "*"@ + tail);
            let (a, b) = marks::lemma_take_out(x + one, "*"@, tail, m);
            let (c, d) = marks::lemma_take_out(two, "*"@, three + rest, b);
            marks::lemma_between("<i>"@, two, "</i>"@, c);
            assert(a.add(c).add(d) =~= m.add(added(None, i)));
        }
    }
    assert forall|i: int| 0 <= i < hits.len() implies #[trigger] replacements[i]
        == parts.fronts[i] + parts.middles[i] + parts.backs[i] by {
        assert(replacements[i] =~= parts.fronts[i] + parts.middles[i] + parts.backs[i]);
    }
    lemma_rewritten_keeps(s, 3, hits, replacements, parts, None, tally);
    lemma_none_added(hits.len());
    assert(tally.add(Multiset::empty()) =~= tally);
}

/// A link holds the marks of its label and of its target.
proof fn lemma_link(label: Seq<char>, a: Multiset<nat>, target: Seq<char>, b: Multiset<nat>)
    requires
        marks::holds(label, a),
        marks::holds(target, b),
    ensures
        marks::holds(markdown::link_html(label, target), a.add(b)),
{
    let url = escape::unescape(target);
    let shown = escape::escape(url);
    lemma_tags_unmarked();
    lemma_unescape(target, b);
    lemma_escape(url, b);
    marks::lemma_between("<a href=\""@, shown, "\">"@, b);
    let head = "<a href=\""@ + shown + "\">"@;
    marks::lemma_join(head, b, label, a);
    marks::lemma_between(Seq::empty(), head + label, "</a>"@, b.add(a));
    assert(Seq::<char>::empty() + (head + label) + "</a>"@ =~= head + label + "</a>"@);
    assert(b.add(a) =~= a.add(b));
    marks::lemma_between(Seq::empty(), label, " ("@, a);
    assert(Seq::<char>::empty() + label + " ("@ =~= label + " ("@);
    marks::lemma_join(label + " ("@, a, shown, b);
    let text = label + " ("@ + shown;
    marks::lemma_between(Seq::empty(), text, ")"@, a.add(b));
    assert(Seq::<char>::empty() + text + ")"@ =~= text + ")"@);
}

/// Links keep the marks, but may change the order.
pub proof fn lemma_links(s: Seq<char>, hits: Seq<Spans>, tally: Multiset<nat>)
    requires
        marks::holds(s, tally),
        patterns::hits_within(s, 2, hits),
        forall|i: int| 0 <= i < hits.len() ==> patterns::made_of(LINK@, s, #[trigger] hits[i]),
    ensures
        marks::holds(markdown::rewritten(s, hits, markdown::linked(s, hits)), tally),
{
    let replacements = markdown::linked(s, hits);
    let parts = subset::middles_only(replacements);
    reveal_strlit("[");
    reveal_strlit("](");
    reveal_strlit(")");
    assert forall|i: int, x: Seq<char>, m: Multiset<nat>| 0 <= i < hits.len() implies
        #[trigger] parts_keep(s, hits, parts, None, i, x, m) by {
        let one = patterns::group_text(s, hits[i], 1);
        let two = patterns::group_text(s, hits[i], 2);
        let whole = patterns::group_text(s, hits[i], 0);
        let rest = subset::rest_of(s, hits, i + 1);
        assert(patterns::made_of(LINK@, s, hits[i]));
        if marks::holds(x + whole + rest, m) {
            let target = two + ")"@ + rest;
            let inner = one + "]("@ + target;
            assert(x + whole + rest =~= x + "["@ + inner);
            let (a, b) = marks::lemma_take_out(x, "["@, inner, m);
            let (c, d) = marks::lemma_take_out(one, "]("@, target, b);
            let (e, f) = marks::lemma_take_out(two, ")"@, rest, d);
            lemma_link(one, c, two, e);
            assert(a.add(c.add(e)).add(f) =~= a.add(c.add(e.add(f))));
            assert(a.add(c.add(e)).add(f) =~= m.add(added(None, i)));
            lemma_shared(x, a, replacements[i], c.add(e), rest, f, m.add(added(None, i)));
        }
    }
    subset::lemma_only_middles(replacements);
    lemma_rewritten_keeps(s, 2, hits, replacements, parts, None, tally);
    lemma_none_added(hits.len());
    assert(tally.add(Multiset::empty()) =~= tally);
}

/// Headings keep the marks.
pub proof fn lemma_headings(s: Seq<char>, hits: Seq<Spans>, tally: Multiset<nat>)
    requires
        marks::holds(s, tally),
        patterns::hits_within(s, 1, hits),
        forall|i: int| 0 <= i < hits.len() ==> patterns::made_of(HEADING@, s, #[trigger] hits[i]),
    ensures
        marks::holds(
            markdown::rewritten(s, hits, markdown::wrapped(s, hits, "<b>"@, "</b>"@)),
            tally,
        ),
{
    let replacements = markdown::wrapped(s, hits, "<b>"@, "</b>"@);
    let parts = subset::middles_only(replacements);
    lemma_tags_unmarked();
    assert forall|i: int, x: Seq<char>, m: Multiset<nat>| 0 <= i < hits.len() implies
        #[trigger] parts_keep(s, hits, parts, None, i, x, m) by {
        let one = patterns::group_text(s, hits[i], 1);
        let whole = patterns::group_text(s, hits[i], 0);
        let rest = subset::rest_of(s, hits, i + 1);
        assert(patterns::made_of(HEADING@, s, hits[i]));
        if marks::holds(x + whole + rest, m) {
            let signs = whole.take(whole.len() - one.len());
            assert(patterns::heads(signs));
            assert(whole =~= signs + one);
            assert(x + whole + rest =~= x + signs + (one + rest));
            assert(signs[signs.len() - 1] == '#' || !marks::is_mark_char(signs[signs.len() - 1]));
            let (a, b) = marks::lemma_take_out(x, signs, one + rest, m);
            if rest.len() > 0 {
                assert((one + rest)[one.len() as int] == '\n');
            }
            let (c, d) = marks::lemma_cut(one, rest, b);
            marks::lemma_between("<b>"@, one, "</b>"@, c);
            assert(a.add(c).add(d) =~= m.add(added(None, i)));
            lemma_shared(x, a, replacements[i], c, rest, d, m.add(added(None, i)));
        }
    }
    subset::lemma_only_middles(replacements);
    lemma_rewritten_keeps(s, 1, hits, replacements, parts, None, tally);
    lemma_none_added(hits.len());
    assert(tally.add(Multiset::empty()) =~= tally);
}

/// Setting matches without marks aside keeps the marks and adds one for each match.
pub proof fn lemma_set_aside(
    s: Seq<char>,
    groups: nat,
    hits: Seq<Spans>,
    first: nat,
    tally: Multiset<nat>,
)
    requires
        marks::holds(s, tally),
        patterns::hits_within(s, groups, hits),
        forall|i: int|
            0 <= i < hits.len() ==> {
                let whole = patterns::group_text(s, #[trigger] hits[i], 0);
                whole.len() > 0 && whole[0] == '`' && whole.last() == '`' && marks::unmarked(whole)
            },
    ensures
        marks::holds(
            markdown::rewritten(s, hits, markdown::placeholders(first, hits.len())),
            tally.add(added_by(Some(first), hits.len())),
        ),
{
    let replacements = markdown::placeholders(first, hits.len());
    let parts = subset::middles_only(replacements);
    assert forall|i: int, x: Seq<char>, m: Multiset<nat>| 0 <= i < hits.len() implies
        #[trigger] parts_keep(s, hits, parts, Some(first), i, x, m) by {
        let whole = patterns::group_text(s, hits[i], 0);
        let rest = subset::rest_of(s, hits, i + 1);
        if marks::holds(x + whole + rest, m) {
            let (a, b) = marks::lemma_take_out(x, whole, rest, m);
            let own = added(Some(first), i);
            marks::lemma_mark_holds((first + i) as nat);
            assert(a.add(own).add(b) =~= m.add(own));
            lemma_shared(x, a, replacements[i], own, rest, b, m.add(own));
        }
    }
    subset::lemma_only_middles(replacements);
    lemma_rewritten_keeps(s, groups, hits, replacements, parts, Some(first), tally);
}

/// A mark is not replaced inside of text without delimiters.
proof fn lemma_skips_text(front: Seq<char>, rest: Seq<char>, k: nat, region: Seq<char>)
    requires
        marks::unmarked(front),
    ensures
        escape::replaced(front + rest, markdown::placeholder(k), region) == front
            + escape::replaced(rest, markdown::placeholder(k), region),
    decreases front.len(),
{
    let mark = markdown::placeholder(k);
    let s = front + rest;
    marks::lemma_mark(k);
    if front.len() == 0 {
        assert(s =~= rest);
        assert(front + escape::replaced(rest, mark, region) =~= escape::replaced(
            rest,
            mark,
            region,
        ));
    } else {
        let more = front.skip(1);
        lemma_skips_text(more, rest, k, region);
        assert(s =~= seq![front[0]] + (more + rest));
        if escape::begins_with(s, mark) {
            assert(s.take(mark.len() as int)[0] == mark[0]);
        }
        lemma_skips_one(front[0], more + rest, k, region);
        assert(seq![front[0]] + (more + escape::replaced(rest, mark, region)) =~= front
            + escape::replaced(rest, mark, region));
    }
}

/// A character at which no mark begins stays.
proof fn lemma_skips_one(c: char, rest: Seq<char>, k: nat, region: Seq<char>)
    requires
        !escape::begins_with(seq![c] + rest, markdown::placeholder(k)),
    ensures
        escape::replaced(seq![c] + rest, markdown::placeholder(k), region) == seq![c]
            + escape::replaced(rest, markdown::placeholder(k), region),
{
    let s = seq![c] + rest;
    marks::lemma_mark(k);
    assert(s.skip(1) =~= rest);
    assert(s[0] == c);
}

/// A mark begins at a delimiter only where its own label and a delimiter follow.
proof fn lemma_mark_begins(label: Seq<char>, rest: Seq<char>, k: nat)
    requires
        marks::unmarked(label),
        escape::begins_with(seq!['\0'] + label + rest, markdown::placeholder(k)),
        rest.len() > 0 ==> rest[0] == '\0' || rest[0] == '<',
    ensures
        label == marks::mark_label(k),
        rest.len() > 0,
        rest[0] == '\0',
{
    let s = seq!['\0'] + label + rest;
    let mark = markdown::placeholder(k);
    let own = marks::mark_label(k);
    marks::lemma_mark(k);
    assert forall|i: int| 0 <= i < mark.len() implies s[i] == #[trigger] mark[i] by {
        assert(s.take(mark.len() as int)[i] == mark[i]);
    }
    if label.len() > own.len() {
        assert(mark[own.len() as int + 1] == '\0');
        assert(s[own.len() as int + 1] == label[own.len() as int]);
    } else {
        let at = label.len() as int + 1;
        assert(marks::is_mark_char(mark[at]));
        assert(s[at] == rest[0]);
        if label.len() < own.len() {
            assert(mark[at] == own[label.len() as int]);
        }
    }
    assert forall|i: int| 0 <= i < own.len() implies label[i] == own[i] by {
        assert(s[i + 1] == mark[i + 1]);
        assert(mark[i + 1] == own[i]);
    }
    assert(label =~= own);
}

/// What stands in the text when the first `n` regions are put back: these regions, and the marks
/// of the others.
pub open spec fn partly(regions: Seq<Seq<char>>, order: Seq<nat>, n: nat) -> Seq<Seq<char>> {
    order.map_values(
        |k: nat|
            if k < n {
                regions[k as int]
            } else {
                markdown::placeholder(k)
            },
    )
}

/// The regions with the numbers in `order`.
pub open spec fn picked(regions: Seq<Seq<char>>, order: Seq<nat>) -> Seq<Seq<char>> {
    order.map_values(|k: nat| regions[k as int])
}

/// True when the text between two marks never reads as a third mark that is put back before
/// the first of them, and not after the second.
pub open spec fn told_apart(gaps: Seq<Seq<char>>, order: Seq<nat>) -> bool {
    forall|j: int, k: nat|
        #![trigger gaps[j], marks::mark_label(k)]
        0 < j < order.len() && k < order[j - 1] && k <= order[j] ==> gaps[j] != marks::mark_label(
            k,
        )
}

/// True when `regions` are code between tags, without delimiters.
pub open spec fn are_code(regions: Seq<Seq<char>>) -> bool {
    forall|i: int|
        0 <= i < regions.len() ==> marks::unmarked(#[trigger] regions[i]) && regions[i].len() > 0
            && regions[i][0] == '<'
}

/// Putting back region `k` replaces its mark, and leaves all else in place.
proof fn lemma_put_back(
    gaps: Seq<Seq<char>>,
    order: Seq<nat>,
    regions: Seq<Seq<char>>,
    k: nat,
)
    requires
        gaps.len() == order.len() + 1,
        forall|i: int| 0 <= i < gaps.len() ==> marks::unmarked(#[trigger] gaps[i]),
        told_apart(gaps, order),
        are_code(regions),
        k < regions.len(),
    ensures
        escape::replaced(
            marks::woven(gaps, partly(regions, order, k)),
            markdown::placeholder(k),
            regions[k as int],
        ) == marks::woven(gaps, partly(regions, order, k + 1)),
    decreases order.len(),
{
    let mark = markdown::placeholder(k);
    let region = regions[k as int];
    let fills = partly(regions, order, k);
    let next = partly(regions, order, k + 1);
    let gap = gaps[0];
    marks::lemma_mark(k);
    assert(marks::unmarked(gap));
    if order.len() == 0 {
        lemma_skips_text(gap, Seq::empty(), k, region);
        assert(gap + Seq::<char>::empty() =~= gap);
    } else {
        let first = order[0];
        let more = gaps.skip(1);
        let later = order.skip(1);
        let rest = marks::woven(more, partly(regions, later, k));
        assert(fills.skip(1) =~= partly(regions, later, k));
        assert(next.skip(1) =~= partly(regions, later, k + 1));
        assert forall|i: int| 0 <= i < more.len() implies marks::unmarked(#[trigger] more[i]) by {
            assert(marks::unmarked(gaps[i + 1]));
        }
        assert forall|j: int, n: nat|
            #![trigger more[j], marks::mark_label(n)]
            0 < j < later.len() && n < later[j - 1] && n <= later[j] implies more[j]
            != marks::mark_label(n) by {
            assert(gaps[j + 1] != marks::mark_label(n));
        }
        lemma_put_back(more, later, regions, k);
        assert(marks::woven(gaps, fills) =~= gap + (fills[0] + rest));
        lemma_skips_text(gap, fills[0] + rest, k, region);
        if first < k {
            assert(marks::unmarked(regions[first as int]));
            lemma_skips_text(fills[0], rest, k, region);
        } else if first == k {
            assert((fills[0] + rest).take(mark.len() as int) =~= mark);
            assert((fills[0] + rest).skip(mark.len() as int) =~= rest);
        } else {
            lemma_other_mark(first, gaps[1], rest, gaps, order, regions, k);
        }
        let done = marks::woven(more, partly(regions, later, k + 1));
        assert(escape::replaced(fills[0] + rest, mark, region) == next[0] + done);
        assert(marks::woven(gaps, next) =~= gap + (next[0] + done));
    }
}

/// A mark that is put back later stays.
proof fn lemma_other_mark(
    first: nat,
    gap: Seq<char>,
    rest: Seq<char>,
    gaps: Seq<Seq<char>>,
    order: Seq<nat>,
    regions: Seq<Seq<char>>,
    k: nat,
)
    requires
        gaps.len() == order.len() + 1,
        forall|i: int| 0 <= i < gaps.len() ==> marks::unmarked(#[trigger] gaps[i]),
        told_apart(gaps, order),
        are_code(regions),
        order.len() > 0,
        first == order[0],
        gap == gaps[1],
        k < first,
        k < regions.len(),
        rest == marks::woven(gaps.skip(1), partly(regions, order.skip(1), k)),
    ensures
        escape::replaced(
            markdown::placeholder(first) + rest,
            markdown::placeholder(k),
            regions[k as int],
        ) == markdown::placeholder(first) + escape::replaced(
            rest,
            markdown::placeholder(k),
            regions[k as int],
        ),
{
    let mark = markdown::placeholder(k);
    let region = regions[k as int];
    let label = marks::mark_label(first);
    let end = seq!['\0'] + rest;
    marks::lemma_mark(first);
    marks::lemma_labels_differ(first, k);
    assert(markdown::placeholder(first) + rest =~= seq!['\0'] + (label + end));
    assert(seq!['\0'] + (label + end) =~= seq!['\0'] + label + end);
    if escape::begins_with(seq!['\0'] + label + end, mark) {
        lemma_mark_begins(label, end, k);
    }
    lemma_skips_one('\0', label + end, k, region);
    lemma_skips_text(label, end, k, region);
    assert(marks::unmarked(gaps[1]));
    if escape::begins_with(end, mark) {
        if order.len() == 1 {
            assert(rest == gap);
            assert(end =~= seq!['\0'] + gap + Seq::<char>::empty());
            lemma_mark_begins(gap, Seq::empty(), k);
        } else {
            let fills = partly(regions, order.skip(1), k);
            let behind = fills[0] + marks::woven(gaps.skip(1).skip(1), fills.skip(1));
            assert(end =~= seq!['\0'] + gap + behind);
            if order[1] < k {
                assert(fills[0] == regions[order[1] as int]);
                assert(behind[0] == fills[0][0]);
            } else {
                marks::lemma_mark(order[1]);
                assert(fills[0] == markdown::placeholder(order[1]));
                assert(behind[0] == fills[0][0]);
            }
            lemma_mark_begins(gap, behind, k);
            assert(gaps[1] != marks::mark_label(k));
        }
    }
    lemma_skips_one('\0', rest, k, region);
    assert(seq!['\0'] + (label + (seq!['\0'] + escape::replaced(rest, mark, region)))
        =~= markdown::placeholder(first) + escape::replaced(rest, mark, region));
}

/// The first `n` regions are put back one after the other.
proof fn lemma_first_put_back(
    gaps: Seq<Seq<char>>,
    order: Seq<nat>,
    regions: Seq<Seq<char>>,
    n: nat,
)
    requires
        gaps.len() == order.len() + 1,
        forall|i: int| 0 <= i < gaps.len() ==> marks::unmarked(#[trigger] gaps[i]),
        told_apart(gaps, order),
        are_code(regions),
        n <= regions.len(),
    ensures
        markdown::restored_front(marks::woven(gaps, marks::marks(order)), regions, n)
            == marks::woven(gaps, partly(regions, order, n)),
    decreases n,
{
    if n == 0 {
        assert(partly(regions, order, 0) =~= marks::marks(order));
    } else {
        lemma_first_put_back(gaps, order, regions, (n - 1) as nat);
        lemma_put_back(gaps, order, regions, (n - 1) as nat);
    }
}

/// Code that was set aside comes back exactly where its marks stand, and as it was set aside, in
/// whatever order the marks stand. The text around them can be anything without delimiters that,
/// between two marks, does not read as a mark itself.
pub proof fn code_is_put_back(gaps: Seq<Seq<char>>, order: Seq<nat>, regions: Seq<Seq<char>>)
    requires
        gaps.len() == order.len() + 1,
        forall|i: int| 0 <= i < gaps.len() ==> marks::unmarked(#[trigger] gaps[i]),
        forall|i: int| 0 <= i < order.len() ==> #[trigger] order[i] < regions.len(),
        told_apart(gaps, order),
        are_code(regions),
    ensures
        markdown::restored(marks::woven(gaps, marks::marks(order)), regions) == marks::woven(
            gaps,
            picked(regions, order),
        ),
{
    lemma_first_put_back(gaps, order, regions, regions.len());
    assert(partly(regions, order, regions.len()) =~= picked(regions, order));
}

/// The numbers below `n`.
pub open spec fn numbers(n: nat) -> Seq<nat> {
    Seq::new(n, |i: int| i as nat)
}

/// Marks that are added one after the other have the numbers in their order.
proof fn lemma_numbered(n: nat, count: nat)
    ensures
        added_by(Some(0), n).add(added_by(Some(n), count)) == numbers(n + count).to_multiset(),
    decreases n + count,
{
    if count > 0 {
        let m = (count - 1) as nat;
        lemma_numbered(n, m);
        assert(numbers(n + count) =~= numbers(n + m).push(n + m));
        vstd::seq_lib::to_multiset_build(numbers(n + m), n + m);
        assert(added_by(Some(0), n).add(added_by(Some(n), count)) =~= numbers(
            n + count,
        ).to_multiset());
    } else if n > 0 {
        let m = (n - 1) as nat;
        lemma_numbered(m, 0);
        assert(numbers(n) =~= numbers(m).push(m));
        vstd::seq_lib::to_multiset_build(numbers(m), m);
        assert(added_by(Some(0), n).add(added_by(Some(n), 0)) =~= numbers(n).to_multiset());
    } else {
        vstd::seq_lib::to_multiset_len(numbers(0));
        assert(added_by(Some(0), 0).add(added_by(Some(0), 0)) =~= numbers(0).to_multiset());
    }
}

/// True when `md` has a code block inside of code inside of a line: the mark of the block is
/// then part of that code.
pub open spec fn code_in_code(md: Seq<char>) -> bool {
    let blocks = patterns::regex_captures(CODE_BLOCK@, md);
    let without_blocks = markdown::rewritten(
        md,
        blocks,
        markdown::placeholders(0, blocks.len()),
    );
    let codes = patterns::regex_captures(INLINE_CODE@, without_blocks);
    exists|i: int|
        0 <= i < codes.len() && !marks::unmarked(
            patterns::group_text(without_blocks, #[trigger] codes[i], 1),
        )
}

/// True when `html` holds the code of `md` as it was set aside: formatting leaves each mark
/// standing exactly once, and where the text between marks is told apart from marks, `html` is
/// the formatted text with each piece of code in place of its mark.
pub open spec fn code_kept(md: Seq<char>, html: Seq<char>) -> bool {
    let (without_code, regions) = markdown::set_aside(md);
    exists|gaps: Seq<Seq<char>>, order: Seq<nat>|
        {
            &&& #[trigger] marks::laid_out(markdown::formatted(without_code), gaps, order)
            &&& order.to_multiset() == numbers(regions.len()).to_multiset()
            &&& told_apart(gaps, order) ==> html == marks::woven(gaps, picked(regions, order))
        }
}

/// A part of a text without delimiters holds none.
proof fn lemma_part_unmarked(s: Seq<char>, groups: nat, hit: Spans, g: int)
    requires
        marks::unmarked(s),
        patterns::hit_within(s, groups, hit),
        0 <= g <= groups,
    ensures
        marks::unmarked(patterns::group_text(s, hit, g)),
{
    let start = patterns::span_start(hit[g]) as int;
    let end = patterns::span_end(hit[g]) as int;
    let len = text::byte_len(s) as int;
    assert(patterns::span_within(
        s,
        hit[g],
        patterns::span_start(hit[0]),
        patterns::span_end(hit[0]),
    ));
    encode_utf8_valid_utf8(s);
    is_char_boundary_start_end_of_seq(encode_utf8(s));
    text::lemma_slices(s, 0, start, len);
    text::lemma_slices(s, start, end, len);
    assert(encode_utf8(s).subrange(0, len) =~= encode_utf8(s));
    encode_utf8_decode_utf8(s);
    let front = text::byte_slice(s, 0, start);
    let part = patterns::group_text(s, hit, g);
    assert(s == front + (part + text::byte_slice(s, end, len)));
    assert forall|i: int| 0 <= i < part.len() implies part[i] != '\0' by {
        assert(s[front.len() + i] == part[i]);
    }
}

/// Code between tags is code.
proof fn lemma_are_code(
    s: Seq<char>,
    hits: Seq<Spans>,
    index: int,
    open: Seq<char>,
    close: Seq<char>,
)
    requires
        marks::unmarked(open),
        marks::unmarked(close),
        open.len() > 0,
        open[0] == '<',
        forall|i: int|
            0 <= i < hits.len() ==> marks::unmarked(
                patterns::group_text(s, #[trigger] hits[i], index),
            ),
    ensures
        are_code(markdown::protected_html(s, hits, index, open, close)),
{
    let regions = markdown::protected_html(s, hits, index, open, close);
    assert forall|i: int| 0 <= i < regions.len() implies marks::unmarked(#[trigger] regions[i])
        && regions[i].len() > 0 && regions[i][0] == '<' by {
        assert(marks::unmarked(patterns::group_text(s, hits[i], index)));
        lemma_escape_unmarked(patterns::group_text(s, hits[i], index));
    }
}

/// What is set aside of a text without delimiters leaves each mark once, and is code.
pub proof fn lemma_code_set_aside(md: Seq<char>)
    requires
        marks::unmarked(md),
        !code_in_code(md),
        ({
            let blocks = patterns::regex_captures(CODE_BLOCK@, md);
            let without_blocks = markdown::rewritten(
                md,
                blocks,
                markdown::placeholders(0, blocks.len()),
            );
            let codes = patterns::regex_captures(INLINE_CODE@, without_blocks);
            &&& patterns::hits_within(md, 2, blocks)
            &&& patterns::hits_within(without_blocks, 1, codes)
            &&& forall|i: int|
                0 <= i < blocks.len() ==> patterns::made_of(CODE_BLOCK@, md, #[trigger] blocks[i])
            &&& forall|i: int|
                0 <= i < codes.len() ==> patterns::made_of(
                    INLINE_CODE@,
                    without_blocks,
                    #[trigger] codes[i],
                )
        }),
    ensures
        ({
            let (without_code, regions) = markdown::set_aside(md);
            &&& marks::holds(escape::escape(without_code), numbers(regions.len()).to_multiset())
            &&& are_code(regions)
        }),
{
    let blocks = patterns::regex_captures(CODE_BLOCK@, md);
    let s = markdown::rewritten(md, blocks, markdown::placeholders(0, blocks.len()));
    let codes = patterns::regex_captures(INLINE_CODE@, s);
    let (without_code, regions) = markdown::set_aside(md);
    lemma_tags_unmarked();
    reveal_strlit("`");
    assert forall|i: int| 0 <= i < blocks.len() implies marks::unmarked(
        patterns::group_text(md, #[trigger] blocks[i], 2),
    ) && {
        let whole = patterns::group_text(md, blocks[i], 0);
        whole.len() > 0 && whole[0] == '`' && whole.last() == '`' && marks::unmarked(whole)
    } by {
        assert(patterns::made_of(CODE_BLOCK@, md, blocks[i]));
        assert(patterns::hit_within(md, 2, blocks[i]));
        lemma_part_unmarked(md, 2, blocks[i], 0);
        lemma_part_unmarked(md, 2, blocks[i], 2);
    }
    assert forall|i: int| 0 <= i < codes.len() implies marks::unmarked(
        patterns::group_text(s, #[trigger] codes[i], 1),
    ) && {
        let whole = patterns::group_text(s, codes[i], 0);
        whole.len() > 0 && whole[0] == '`' && whole.last() == '`' && marks::unmarked(whole)
    } by {
        assert(patterns::made_of(INLINE_CODE@, s, codes[i]));
        assert(marks::unmarked(patterns::group_text(s, codes[i], 1)));
    }
    let a = added_by(Some(0), blocks.len());
    let b = added_by(Some(blocks.len()), codes.len());
    marks::lemma_no_marks(md);
    lemma_set_aside(md, 2, blocks, 0, Multiset::empty());
    assert(Multiset::empty().add(a) =~= a);
    lemma_set_aside(s, 1, codes, blocks.len(), a);
    lemma_numbered(blocks.len(), codes.len());
    lemma_escape(without_code, a.add(b));
    lemma_are_code(md, blocks, 2, "<pre>"@, "</pre>"@);
    lemma_are_code(s, codes, 1, "<code>"@, "</code>"@);
    let (x, y) = (
        markdown::protected_html(md, blocks, 2, "<pre>"@, "</pre>"@),
        markdown::protected_html(s, codes, 1, "<code>"@, "</code>"@),
    );
    assert forall|i: int| 0 <= i < regions.len() implies marks::unmarked(#[trigger] regions[i])
        && regions[i].len() > 0 && regions[i][0] == '<' by {
        if i < x.len() {
            assert(regions[i] == x[i]);
        } else {
            assert(regions[i] == y[i - x.len()]);
        }
    }
}

/// Where formatting leaves each mark once, the code is kept.
pub proof fn lemma_code_kept(md: Seq<char>)
    requires
        ({
            let (without_code, regions) = markdown::set_aside(md);
            &&& marks::holds(
                markdown::formatted(without_code),
                numbers(regions.len()).to_multiset(),
            )
            &&& are_code(regions)
        }),
    ensures
        code_kept(md, markdown::telegram_html(md)),
{
    let (without_code, regions) = markdown::set_aside(md);
    let s = markdown::formatted(without_code);
    let tally = numbers(regions.len()).to_multiset();
    let (gaps, order) = choose|gaps: Seq<Seq<char>>, order: Seq<nat>| #[trigger]
        marks::laid_out(s, gaps, order) && order.to_multiset() == tally;
    assert forall|i: int| 0 <= i < order.len() implies #[trigger] order[i] < regions.len() by {
        vstd::seq_lib::to_multiset_contains(order, order[i]);
        vstd::seq_lib::to_multiset_contains(numbers(regions.len()), order[i]);
        assert(order.contains(order[i]));
        assert(numbers(regions.len()).contains(order[i]));
    }
    if told_apart(gaps, order) {
        code_is_put_back(gaps, order, regions);
    }
}

} // verus!
