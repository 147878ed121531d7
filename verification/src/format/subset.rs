//! The HTML subset that Telegram supports, and that the conversion stays within it.
use vstd::prelude::*;
use vstd::utf8::*;

use super::escape;
use super::marks;
use super::markdown;
use super::patterns;
use super::patterns::{Spans, BOLD, HEADING, ITALIC, LINK};
use crate::text;

verus! {

/// True when `s` begins with a tag that the conversion writes. Of the opening tag of a link it
/// is the part in front of the target, in which every character is escaped.
pub open spec fn begins_tag(s: Seq<char>) -> bool {
    ||| escape::begins_with(s, "<b>"@)
    ||| escape::begins_with(s, "</b>"@)
    ||| escape::begins_with(s, "<i>"@)
    ||| escape::begins_with(s, "</i>"@)
    ||| escape::begins_with(s, "<code>"@)
    ||| escape::begins_with(s, "</code>"@)
    ||| escape::begins_with(s, "<pre>"@)
    ||| escape::begins_with(s, "</pre>"@)
    ||| escape::begins_with(s, "<a href=\""@)
    ||| escape::begins_with(s, "</a>"@)
}

/// True when every `<` in `s` begins one of these tags.
pub open spec fn supported(s: Seq<char>) -> bool {
    forall|i: int| 0 <= i < s.len() && s[i] == '<' ==> begins_tag(#[trigger] s.skip(i))
}

/// True of the characters that stand in none of these tags.
pub open spec fn neutral(c: char) -> bool {
    &&& c != '<' && c != '>' && c != '/' && c != ' ' && c != '=' && c != '"'
    &&& c != 'a' && c != 'b' && c != 'c' && c != 'd' && c != 'e' && c != 'f' && c != 'h'
    &&& c != 'i' && c != 'o' && c != 'p' && c != 'r'
}

/// The tags, spelled out.
proof fn lemma_tags()
    ensures
        "<b>"@ == seq!['<', 'b', '>'],
        "</b>"@ == seq!['<', '/', 'b', '>'],
        "<i>"@ == seq!['<', 'i', '>'],
        "</i>"@ == seq!['<', '/', 'i', '>'],
        "<code>"@ == seq!['<', 'c', 'o', 'd', 'e', '>'],
        "</code>"@ == seq!['<', '/', 'c', 'o', 'd', 'e', '>'],
        "<pre>"@ == seq!['<', 'p', 'r', 'e', '>'],
        "</pre>"@ == seq!['<', '/', 'p', 'r', 'e', '>'],
        "<a href=\""@ == seq!['<', 'a', ' ', 'h', 'r', 'e', 'f', '=', '"'],
        "</a>"@ == seq!['<', '/', 'a', '>'],
{
    reveal_strlit("<b>");
    reveal_strlit("</b>");
    reveal_strlit("<i>");
    reveal_strlit("</i>");
    reveal_strlit("<code>");
    reveal_strlit("</code>");
    reveal_strlit("<pre>");
    reveal_strlit("</pre>");
    reveal_strlit("<a href=\"");
    reveal_strlit("</a>");
    assert("<b>"@ =~= seq!['<', 'b', '>']);
    assert("</b>"@ =~= seq!['<', '/', 'b', '>']);
    assert("<i>"@ =~= seq!['<', 'i', '>']);
    assert("</i>"@ =~= seq!['<', '/', 'i', '>']);
    assert("<code>"@ =~= seq!['<', 'c', 'o', 'd', 'e', '>']);
    assert("</code>"@ =~= seq!['<', '/', 'c', 'o', 'd', 'e', '>']);
    assert("<pre>"@ =~= seq!['<', 'p', 'r', 'e', '>']);
    assert("</pre>"@ =~= seq!['<', '/', 'p', 'r', 'e', '>']);
    assert("<a href=\""@ =~= seq!['<', 'a', ' ', 'h', 'r', 'e', 'f', '=', '"']);
    assert("</a>"@ =~= seq!['<', '/', 'a', '>']);
}

/// True when no neutral character stands in `tag`.
spec fn tag_like(tag: Seq<char>) -> bool {
    forall|i: int| 0 <= i < tag.len() ==> !neutral(#[trigger] tag[i])
}

/// What begins with a tag begins with a text in which no neutral character stands, and
/// whatever else begins with that text begins with a tag.
proof fn lemma_tag_of(s: Seq<char>) -> (tag: Seq<char>)
    requires
        begins_tag(s),
    ensures
        tag.len() > 0,
        tag_like(tag),
        escape::begins_with(s, tag),
        forall|t: Seq<char>| #[trigger] escape::begins_with(t, tag) ==> begins_tag(t),
{
    lemma_tags();
    if escape::begins_with(s, "<b>"@) {
        "<b>"@
    } else if escape::begins_with(s, "</b>"@) {
        "</b>"@
    } else if escape::begins_with(s, "<i>"@) {
        "<i>"@
    } else if escape::begins_with(s, "</i>"@) {
        "</i>"@
    } else if escape::begins_with(s, "<code>"@) {
        "<code>"@
    } else if escape::begins_with(s, "</code>"@) {
        "</code>"@
    } else if escape::begins_with(s, "<pre>"@) {
        "<pre>"@
    } else if escape::begins_with(s, "</pre>"@) {
        "</pre>"@
    } else if escape::begins_with(s, "<a href=\""@) {
        "<a href=\""@
    } else {
        "</a>"@
    }
}

/// A tag in front of a neutral character ends in front of it.
proof fn lemma_tag_ends(x: Seq<char>, c: char, y: Seq<char>)
    requires
        neutral(c),
        begins_tag(x + seq![c] + y),
    ensures
        begins_tag(x),
{
    let s = x + seq![c] + y;
    let tag = lemma_tag_of(s);
    if tag.len() > x.len() {
        assert(s.take(tag.len() as int)[x.len() as int] == c);
        assert(!neutral(tag[x.len() as int]));
    }
    assert(x.take(tag.len() as int) =~= s.take(tag.len() as int));
    assert(escape::begins_with(x, tag));
}

/// A supported text can be cut at a neutral character.
proof fn lemma_cut(x: Seq<char>, c: char, y: Seq<char>)
    requires
        neutral(c),
        supported(x + seq![c] + y),
    ensures
        supported(x),
        supported(y),
{
    let s = x + seq![c] + y;
    assert forall|i: int| 0 <= i < x.len() && x[i] == '<' implies begins_tag(
        #[trigger] x.skip(i),
    ) by {
        assert(s[i] == '<');
        assert(s.skip(i) =~= x.skip(i) + seq![c] + y);
        lemma_tag_ends(x.skip(i), c, y);
    }
    assert(s =~= (x + seq![c]) + y);
    lemma_suffix(x + seq![c], y);
}

/// The end of a supported text is supported.
proof fn lemma_suffix(x: Seq<char>, y: Seq<char>)
    requires
        supported(x + y),
    ensures
        supported(y),
{
    let s = x + y;
    assert forall|i: int| 0 <= i < y.len() && y[i] == '<' implies begins_tag(
        #[trigger] y.skip(i),
    ) by {
        assert(s[x.len() + i] == '<');
        assert(s.skip(x.len() + i) =~= y.skip(i));
    }
}

/// Supported texts make a supported text.
proof fn lemma_join(x: Seq<char>, y: Seq<char>)
    requires
        supported(x),
        supported(y),
    ensures
        supported(x + y),
{
    let s = x + y;
    assert forall|i: int| 0 <= i < s.len() && s[i] == '<' implies begins_tag(
        #[trigger] s.skip(i),
    ) by {
        if i < x.len() {
            let tag = lemma_tag_of(x.skip(i));
            assert(s.skip(i).take(tag.len() as int) =~= x.skip(i).take(tag.len() as int));
            assert(escape::begins_with(s.skip(i), tag));
        } else {
            assert(s.skip(i) =~= y.skip(i - x.len()));
        }
    }
}

/// A text between two others is supported with them.
proof fn lemma_between(open: Seq<char>, s: Seq<char>, close: Seq<char>)
    requires
        supported(open),
        supported(s),
        supported(close),
    ensures
        supported(open + s + close),
{
    lemma_join(open, s);
    lemma_join(open + s, close);
}

/// Escaped text is supported: it holds no tag at all.
pub proof fn lemma_escaped(s: Seq<char>)
    ensures
        supported(escape::escape(s)),
{
    escape::escape_leaves_no_markup(s);
}

/// Each tag is supported.
proof fn lemma_tags_supported()
    ensures
        supported("<b>"@),
        supported("</b>"@),
        supported("<i>"@),
        supported("</i>"@),
        supported("<code>"@),
        supported("</code>"@),
        supported("<pre>"@),
        supported("</pre>"@),
        supported("<a href=\""@),
        supported("</a>"@),
        supported("\">"@),
        supported(" ("@),
        supported(")"@),
{
    lemma_tags();
    reveal_strlit("\">");
    reveal_strlit(" (");
    reveal_strlit(")");
    assert("<b>"@.skip(0).take(3) =~= "<b>"@);
    assert("</b>"@.skip(0).take(4) =~= "</b>"@);
    assert("<i>"@.skip(0).take(3) =~= "<i>"@);
    assert("</i>"@.skip(0).take(4) =~= "</i>"@);
    assert("<code>"@.skip(0).take(6) =~= "<code>"@);
    assert("</code>"@.skip(0).take(7) =~= "</code>"@);
    assert("<pre>"@.skip(0).take(5) =~= "<pre>"@);
    assert("</pre>"@.skip(0).take(6) =~= "</pre>"@);
    assert("<a href=\""@.skip(0).take(9) =~= "<a href=\""@);
    assert("</a>"@.skip(0).take(4) =~= "</a>"@);
}

/// What stands behind the first `n` matches.
pub open spec fn rest_of(s: Seq<char>, hits: Seq<Spans>, n: int) -> Seq<char> {
    text::byte_slice(s, markdown::end_of(hits, n), text::byte_len(s) as int)
}

/// The last of the first `n` texts of `list`, empty where there is none.
pub open spec fn last_of(list: Seq<Seq<char>>, n: int) -> Seq<char> {
    if n <= 0 {
        Seq::empty()
    } else {
        list[n - 1]
    }
}

/// How a replacement keeps a text supported: it is made of a front and a back that stay where
/// they were, and of a new text between them.
pub struct Parts {
    pub fronts: Seq<Seq<char>>,
    pub middles: Seq<Seq<char>>,
    pub backs: Seq<Seq<char>>,
}

/// True when match `i`, behind `before`, can be replaced part by part.
pub open spec fn parts_fit(
    s: Seq<char>,
    hits: Seq<Spans>,
    parts: Parts,
    i: int,
    before: Seq<char>,
) -> bool {
    let rest = rest_of(s, hits, i + 1);
    supported(before + patterns::group_text(s, hits[i], 0) + rest) ==> {
        &&& supported(before + parts.fronts[i])
        &&& supported(parts.middles[i])
        &&& supported(parts.backs[i] + rest)
    }
}

/// True when all replacements are made of their parts, and all matches can be replaced so.
pub open spec fn replaceable(
    s: Seq<char>,
    hits: Seq<Spans>,
    replacements: Seq<Seq<char>>,
    parts: Parts,
) -> bool {
    &&& replacements.len() == hits.len()
    &&& forall|i: int|
        0 <= i < hits.len() ==> #[trigger] replacements[i] == parts.fronts[i] + parts.middles[i]
            + parts.backs[i]
    &&& forall|i: int, before: Seq<char>|
        0 <= i < hits.len() ==> #[trigger] parts_fit(s, hits, parts, i, before)
}

/// The text up to the end of the first `n` matches becomes a supported text and the back of the
/// last replacement, which is supported together with what follows.
proof fn lemma_front_supported(
    s: Seq<char>,
    groups: nat,
    hits: Seq<Spans>,
    replacements: Seq<Seq<char>>,
    parts: Parts,
    n: nat,
) -> (front: Seq<char>)
    requires
        supported(s),
        patterns::hits_within(s, groups, hits),
        replaceable(s, hits, replacements, parts),
        n <= hits.len(),
    ensures
        supported(front),
        markdown::rewritten_front(s, hits, replacements, n) == front + last_of(
            parts.backs,
            n as int,
        ),
        supported(last_of(parts.backs, n as int) + rest_of(s, hits, n as int)),
        text::on_boundary(s, markdown::end_of(hits, n as int)),
        0 <= markdown::end_of(hits, n as int) <= text::byte_len(s),
    decreases n,
{
    let len = text::byte_len(s) as int;
    encode_utf8_valid_utf8(s);
    is_char_boundary_start_end_of_seq(encode_utf8(s));
    if n == 0 {
        assert(encode_utf8(s).subrange(0, len) =~= encode_utf8(s));
        encode_utf8_decode_utf8(s);
        assert(rest_of(s, hits, 0) == s);
        assert(Seq::<char>::empty() + s =~= s);
        assert(Seq::<char>::empty() + last_of(parts.backs, 0) =~= Seq::<char>::empty());
        Seq::empty()
    } else {
        let i = n - 1;
        let front = lemma_front_supported(s, groups, hits, replacements, parts, i as nat);
        let hit = hits[i];
        let back = last_of(parts.backs, i);
        let from = markdown::end_of(hits, i);
        let start = patterns::span_start(hit[0]) as int;
        let end = patterns::span_end(hit[0]) as int;
        assert(patterns::hit_within(s, groups, hit));
        assert(patterns::span_within(s, hit[0], start as usize, end as usize));
        if i > 0 {
            assert(patterns::span_end(hits[i - 1][0]) <= patterns::span_start(hits[i][0]));
        }
        let between = text::byte_slice(s, from, start);
        let whole = patterns::group_text(s, hit, 0);
        let rest = rest_of(s, hits, n as int);
        text::lemma_slices(s, from, start, len);
        text::lemma_slices(s, start, end, len);
        assert(back + rest_of(s, hits, i) =~= (back + between) + whole + rest);
        assert(parts_fit(s, hits, parts, i, back + between));
        lemma_join(front, back + between + parts.fronts[i]);
        let kept = front + (back + between + parts.fronts[i]);
        lemma_join(kept, parts.middles[i]);
        assert(markdown::rewritten_front(s, hits, replacements, n) =~= (kept + parts.middles[i])
            + parts.backs[i]);
        kept + parts.middles[i]
    }
}

/// Rewriting part by part keeps a text supported.
proof fn lemma_rewritten_supported(
    s: Seq<char>,
    groups: nat,
    hits: Seq<Spans>,
    replacements: Seq<Seq<char>>,
    parts: Parts,
)
    requires
        supported(s),
        patterns::hits_within(s, groups, hits),
        replaceable(s, hits, replacements, parts),
    ensures
        supported(markdown::rewritten(s, hits, replacements)),
{
    let n = hits.len();
    let front = lemma_front_supported(s, groups, hits, replacements, parts, n);
    let tail = last_of(parts.backs, n as int) + rest_of(s, hits, n as int);
    lemma_join(front, tail);
    assert(markdown::rewritten(s, hits, replacements) =~= front + tail);
}

/// The parts of replacements that keep nothing but what they put between tags.
pub open spec fn middles_only(replacements: Seq<Seq<char>>) -> Parts {
    let none = Seq::new(replacements.len(), |i: int| Seq::<char>::empty());
    Parts { fronts: none, middles: replacements, backs: none }
}

/// Bold text keeps a text supported.
pub proof fn lemma_bold(s: Seq<char>, hits: Seq<Spans>)
    requires
        supported(s),
        patterns::hits_within(s, 1, hits),
        forall|i: int| 0 <= i < hits.len() ==> patterns::made_of(BOLD@, s, #[trigger] hits[i]),
    ensures
        supported(
            markdown::rewritten(s, hits, markdown::wrapped(s, hits, "<b>"@, "</b>"@)),
        ),
{
    let replacements = markdown::wrapped(s, hits, "<b>"@, "</b>"@);
    let parts = middles_only(replacements);
    lemma_tags_supported();
    reveal_strlit("**");
    assert forall|i: int, x: Seq<char>| 0 <= i < hits.len() implies #[trigger] parts_fit(
        s,
        hits,
        parts,
        i,
        x,
    ) by {
        let one = patterns::group_text(s, hits[i], 1);
        let whole = patterns::group_text(s, hits[i], 0);
        let rest = rest_of(s, hits, i + 1);
        assert(patterns::made_of(BOLD@, s, hits[i]));
        if supported(x + whole + rest) {
            let tail = seq!['*'] + rest;
            let inner = one + seq!['*'] + tail;
            assert(x + whole + rest =~= x + seq!['*'] + (seq!['*'] + inner));
            lemma_cut(x, '*', seq!['*'] + inner);
            lemma_suffix(seq!['*'], inner);
            lemma_cut(one, '*', tail);
            lemma_suffix(seq!['*'], rest);
            lemma_between("<b>"@, one, "</b>"@);
            assert(x + Seq::<char>::empty() =~= x);
            assert(Seq::<char>::empty() + rest =~= rest);
        }
    }
    lemma_only_middles(replacements);
    lemma_rewritten_supported(s, 1, hits, replacements, parts);
}

/// Replacements are made of their middles.
pub proof fn lemma_only_middles(replacements: Seq<Seq<char>>)
    ensures
        forall|i: int|
            0 <= i < replacements.len() ==> #[trigger] replacements[i] == middles_only(
                replacements,
            ).fronts[i] + middles_only(replacements).middles[i] + middles_only(
                replacements,
            ).backs[i],
{
    let parts = middles_only(replacements);
    assert forall|i: int| 0 <= i < replacements.len() implies #[trigger] replacements[i]
        == parts.fronts[i] + parts.middles[i] + parts.backs[i] by {
        assert(replacements[i] =~= parts.fronts[i] + parts.middles[i] + parts.backs[i]);
    }
}

/// Italic text keeps a text supported.
pub proof fn lemma_italic(s: Seq<char>, hits: Seq<Spans>)
    requires
        supported(s),
        patterns::hits_within(s, 3, hits),
        forall|i: int| 0 <= i < hits.len() ==> patterns::made_of(ITALIC@, s, #[trigger] hits[i]),
    ensures
        supported(markdown::rewritten(s, hits, markdown::italicized(s, hits))),
{
    let replacements = markdown::italicized(s, hits);
    let parts = Parts {
        fronts: Seq::new(hits.len(), |i: int| patterns::group_text(s, hits[i], 1)),
        middles: Seq::new(
            hits.len(),
            |i: int| "<i>"@ + patterns::group_text(s, hits[i], 2) + "</i>"@,
        ),
        backs: Seq::new(hits.len(), |i: int| patterns::group_text(s, hits[i], 3)),
    };
    lemma_tags_supported();
    reveal_strlit("*");
    assert forall|i: int, x: Seq<char>| 0 <= i < hits.len() implies #[trigger] parts_fit(
        s,
        hits,
        parts,
        i,
        x,
    ) by {
        let one = patterns::group_text(s, hits[i], 1);
        let two = patterns::group_text(s, hits[i], 2);
        let three = patterns::group_text(s, hits[i], 3);
        let whole = patterns::group_text(s, hits[i], 0);
        let rest = rest_of(s, hits, i + 1);
        assert(patterns::made_of(ITALIC@, s, hits[i]));
        if supported(x + whole + rest) {
            let tail = two + seq!['*'] + (three + rest);
            assert(x + whole + rest =~= (x + one) + seq!['*'] + tail);
            lemma_cut(x + one, '*', tail);
            lemma_cut(two, '*', three + rest);
            lemma_between("<i>"@, two, "</i>"@);
        }
    }
    assert forall|i: int| 0 <= i < hits.len() implies #[trigger] replacements[i]
        == parts.fronts[i] + parts.middles[i] + parts.backs[i] by {
        assert(replacements[i] =~= parts.fronts[i] + parts.middles[i] + parts.backs[i]);
    }
    lemma_rewritten_supported(s, 3, hits, replacements, parts);
}

/// A link with a supported label is supported.
proof fn lemma_link_supported(label: Seq<char>, target: Seq<char>)
    requires
        supported(label),
    ensures
        supported(markdown::link_html(label, target)),
{
    let url = escape::unescape(target);
    let shown = escape::escape(url);
    lemma_tags_supported();
    lemma_escaped(url);
    lemma_between("<a href=\""@, shown, "\">"@);
    lemma_between("<a href=\""@ + shown + "\">"@, label, "</a>"@);
    lemma_join(label, " ("@);
    lemma_between(label + " ("@, shown, ")"@);
}

/// Links keep a text supported.
pub proof fn lemma_links(s: Seq<char>, hits: Seq<Spans>)
    requires
        supported(s),
        patterns::hits_within(s, 2, hits),
        forall|i: int| 0 <= i < hits.len() ==> patterns::made_of(LINK@, s, #[trigger] hits[i]),
    ensures
        supported(markdown::rewritten(s, hits, markdown::linked(s, hits))),
{
    let replacements = markdown::linked(s, hits);
    let parts = middles_only(replacements);
    reveal_strlit("[");
    reveal_strlit("](");
    reveal_strlit(")");
    assert forall|i: int, x: Seq<char>| 0 <= i < hits.len() implies #[trigger] parts_fit(
        s,
        hits,
        parts,
        i,
        x,
    ) by {
        let one = patterns::group_text(s, hits[i], 1);
        let two = patterns::group_text(s, hits[i], 2);
        let whole = patterns::group_text(s, hits[i], 0);
        let rest = rest_of(s, hits, i + 1);
        assert(patterns::made_of(LINK@, s, hits[i]));
        if supported(x + whole + rest) {
            let target = seq!['('] + two + seq![')'];
            let inner = one + seq![']'] + (target + rest);
            assert(x + whole + rest =~= x + seq!['['] + inner);
            lemma_cut(x, '[', inner);
            lemma_cut(one, ']', target + rest);
            lemma_suffix(target, rest);
            lemma_link_supported(one, two);
            assert(x + Seq::<char>::empty() =~= x);
            assert(Seq::<char>::empty() + rest =~= rest);
        }
    }
    lemma_only_middles(replacements);
    lemma_rewritten_supported(s, 2, hits, replacements, parts);
}

/// Headings keep a text supported.
pub proof fn lemma_headings(s: Seq<char>, hits: Seq<Spans>)
    requires
        supported(s),
        patterns::hits_within(s, 1, hits),
        forall|i: int| 0 <= i < hits.len() ==> patterns::made_of(HEADING@, s, #[trigger] hits[i]),
    ensures
        supported(
            markdown::rewritten(s, hits, markdown::wrapped(s, hits, "<b>"@, "</b>"@)),
        ),
{
    let replacements = markdown::wrapped(s, hits, "<b>"@, "</b>"@);
    let parts = middles_only(replacements);
    lemma_tags_supported();
    assert forall|i: int, x: Seq<char>| 0 <= i < hits.len() implies #[trigger] parts_fit(
        s,
        hits,
        parts,
        i,
        x,
    ) by {
        let one = patterns::group_text(s, hits[i], 1);
        let whole = patterns::group_text(s, hits[i], 0);
        let rest = rest_of(s, hits, i + 1);
        assert(patterns::made_of(HEADING@, s, hits[i]));
        if supported(x + whole + rest) {
            let signs = whole.take(whole.len() - one.len());
            let tail = signs.skip(1) + one + rest;
            assert(whole =~= signs + one);
            assert(whole[0] == signs[0]);
            assert(x + whole + rest =~= x + seq!['#'] + tail);
            lemma_cut(x, '#', tail);
            assert(tail =~= signs.skip(1) + (one + rest));
            lemma_suffix(signs.skip(1), one + rest);
            lemma_suffix(one, rest);
            if rest.len() == 0 {
                assert(one + rest =~= one);
            } else {
                assert(one + rest =~= one + seq!['\n'] + rest.skip(1));
                lemma_cut(one, '\n', rest.skip(1));
            }
            lemma_between("<b>"@, one, "</b>"@);
            assert(x + Seq::<char>::empty() =~= x);
            assert(Seq::<char>::empty() + rest =~= rest);
        }
    }
    lemma_only_middles(replacements);
    lemma_rewritten_supported(s, 1, hits, replacements, parts);
}

/// Putting back a region leaves a tag at the beginning of a text in place.
proof fn lemma_replaced_keeps(s: Seq<char>, k: nat, region: Seq<char>, tag: Seq<char>)
    requires
        tag_like(tag),
        escape::begins_with(s, tag),
    ensures
        escape::begins_with(escape::replaced(s, markdown::placeholder(k), region), tag),
    decreases tag.len(),
{
    let mark = markdown::placeholder(k);
    let t = escape::replaced(s, mark, region);
    marks::lemma_mark(k);
    if tag.len() == 0 {
        assert(t.take(0) =~= tag);
    } else if s.len() >= mark.len() {
        assert(s.take(tag.len() as int)[0] == tag[0]);
        assert(!neutral(tag[0]));
        if escape::begins_with(s, mark) {
            assert(s.take(mark.len() as int)[0] == mark[0]);
        }
        let rest = tag.skip(1);
        let n = tag.len() as int;
        assert(s.skip(1).take(n - 1) =~= s.take(n).skip(1));
        assert forall|i: int| 0 <= i < rest.len() implies !neutral(#[trigger] rest[i]) by {
            assert(!neutral(tag[i + 1]));
        }
        lemma_replaced_keeps(s.skip(1), k, region, rest);
        let u = escape::replaced(s.skip(1), mark, region);
        assert(t == seq![s[0]] + u);
        assert(t.take(n) =~= seq![s[0]] + u.take(n - 1));
        assert(tag =~= seq![tag[0]] + rest);
    }
}

/// Putting back a supported region keeps a text supported.
proof fn lemma_replaced_supported(s: Seq<char>, k: nat, region: Seq<char>)
    requires
        supported(s),
        supported(region),
    ensures
        supported(escape::replaced(s, markdown::placeholder(k), region)),
    decreases s.len(),
{
    let mark = markdown::placeholder(k);
    let n = mark.len() as int;
    let t = escape::replaced(s, mark, region);
    marks::lemma_mark(k);
    if s.len() < mark.len() {
    } else if escape::begins_with(s, mark) {
        assert(s =~= s.take(n) + s.skip(n));
        lemma_suffix(s.take(n), s.skip(n));
        lemma_replaced_supported(s.skip(n), k, region);
        lemma_join(region, escape::replaced(s.skip(n), mark, region));
    } else {
        let u = escape::replaced(s.skip(1), mark, region);
        assert(s =~= s.take(1) + s.skip(1));
        lemma_suffix(s.take(1), s.skip(1));
        lemma_replaced_supported(s.skip(1), k, region);
        assert forall|i: int| 0 <= i < t.len() && t[i] == '<' implies begins_tag(
            #[trigger] t.skip(i),
        ) by {
            if i == 0 {
                assert(s.skip(0) =~= s);
                assert(t.skip(0) =~= t);
                let tag = lemma_tag_of(s);
                lemma_replaced_keeps(s, k, region, tag);
            } else {
                assert(t.skip(i) =~= u.skip(i - 1));
            }
        }
    }
}

/// Putting back supported regions keeps a text supported.
pub proof fn lemma_restored_supported(s: Seq<char>, regions: Seq<Seq<char>>, n: nat)
    requires
        supported(s),
        n <= regions.len(),
        forall|i: int| 0 <= i < regions.len() ==> supported(#[trigger] regions[i]),
    ensures
        supported(markdown::restored_front(s, regions, n)),
    decreases n,
{
    if n > 0 {
        let m = (n - 1) as nat;
        lemma_restored_supported(s, regions, m);
        lemma_replaced_supported(
            markdown::restored_front(s, regions, m),
            m,
            regions[n - 1],
        );
    }
}

/// Code that is set aside is supported.
pub proof fn lemma_regions_supported(s: Seq<char>, hits: Seq<Spans>)
    ensures
        forall|index: int, i: int|
            0 <= i < hits.len() ==> supported(
                #[trigger] markdown::protected_html(s, hits, index, "<pre>"@, "</pre>"@)[i],
            ),
        forall|index: int, i: int|
            0 <= i < hits.len() ==> supported(
                #[trigger] markdown::protected_html(s, hits, index, "<code>"@, "</code>"@)[i],
            ),
{
    lemma_tags_supported();
    assert forall|index: int, i: int| 0 <= i < hits.len() implies {
        &&& supported(
            #[trigger] markdown::protected_html(s, hits, index, "<pre>"@, "</pre>"@)[i],
        )
    } by {
        let code = patterns::group_text(s, hits[i], index);
        lemma_escaped(code);
        lemma_between("<pre>"@, escape::escape(code), "</pre>"@);
    }
    assert forall|index: int, i: int| 0 <= i < hits.len() implies {
        &&& supported(
            #[trigger] markdown::protected_html(s, hits, index, "<code>"@, "</code>"@)[i],
        )
    } by {
        let code = patterns::group_text(s, hits[i], index);
        lemma_escaped(code);
        lemma_between("<code>"@, escape::escape(code), "</code>"@);
    }
}

} // verus!
