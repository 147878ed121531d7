//! What each stage of the conversion does to a text: every match of its pattern is rewritten, and
//! nothing else.
use vstd::prelude::*;
use vstd::utf8::*;

use crate::digits;
use crate::format::escape;
use crate::format::markdown;
use crate::format::marks;
use crate::format::patterns;
use crate::format::patterns::Spans;
use crate::text;

verus! {

/// The part of `s` that takes the bytes of `span`.
pub open spec fn part(s: Seq<char>, span: Option<(usize, usize)>) -> Seq<char> {
    decode_utf8(encode_utf8(s).subrange((span->0).0 as int, (span->0).1 as int))
}

/// What stands in front of the first match, between the matches, and behind the last.
pub open spec fn between(s: Seq<char>, hits: Seq<Spans>) -> Seq<Seq<char>> {
    Seq::new(
        hits.len() + 1,
        |i: int|
            decode_utf8(
                encode_utf8(s).subrange(
                    if i == 0 {
                        0
                    } else {
                        (hits[i - 1][0]->0).1 as int
                    },
                    if i == hits.len() {
                        encode_utf8(s).len() as int
                    } else {
                        (hits[i][0]->0).0 as int
                    },
                ),
            ),
    )
}

/// True when `t` is `s` with every match replaced: match `i` by `new[i]`. What stands between
/// the matches is the same.
pub open spec fn all_replaced(
    s: Seq<char>,
    hits: Seq<Spans>,
    new: Seq<Seq<char>>,
    t: Seq<char>,
) -> bool {
    new.len() == hits.len() && t == marks::woven(between(s, hits), new)
}

/// Weaving goes on at the end.
proof fn lemma_woven_last(gaps: Seq<Seq<char>>, fills: Seq<Seq<char>>)
    requires
        gaps.len() == fills.len() + 1,
        fills.len() > 0,
    ensures
        marks::woven(gaps, fills) == marks::woven(gaps.drop_last(), fills.drop_last())
            + fills.last() + gaps.last(),
    decreases fills.len(),
{
    if fills.len() == 1 {
        assert(marks::woven(gaps.skip(1), fills.skip(1)) == gaps.skip(1)[0]);
        assert(gaps.skip(1)[0] == gaps.last());
        assert(marks::woven(gaps.drop_last(), fills.drop_last()) == gaps[0]);
    } else {
        lemma_woven_last(gaps.skip(1), fills.skip(1));
        assert(gaps.skip(1).drop_last() =~= gaps.drop_last().skip(1));
        assert(fills.skip(1).drop_last() =~= fills.drop_last().skip(1));
        assert(marks::woven(gaps, fills) =~= marks::woven(gaps.drop_last(), fills.drop_last())
            + fills.last() + gaps.last());
    }
}

/// The text up to the end of the first `n` matches.
proof fn lemma_front(s: Seq<char>, hits: Seq<Spans>, new: Seq<Seq<char>>, n: nat)
    requires
        new.len() == hits.len(),
        n <= hits.len(),
    ensures
        markdown::rewritten_front(s, hits, new, n) + between(s, hits)[n as int] == marks::woven(
            between(s, hits).take(n as int + 1),
            new.take(n as int),
        ),
    decreases n,
{
    let gaps = between(s, hits);
    if n == 0 {
        assert(Seq::<char>::empty() + gaps[0] =~= gaps[0]);
        assert(gaps.take(1)[0] == gaps[0]);
    } else {
        let m = (n - 1) as nat;
        lemma_front(s, hits, new, m);
        lemma_woven_last(gaps.take(n as int + 1), new.take(n as int));
        assert(gaps.take(n as int + 1).drop_last() =~= gaps.take(m as int + 1));
        assert(new.take(n as int).drop_last() =~= new.take(m as int));
        assert(gaps[m as int] == text::byte_slice(
            s,
            markdown::end_of(hits, m as int),
            patterns::span_start(hits[m as int][0]) as int,
        ));
    }
}

/// Rewriting replaces every match.
pub proof fn rewriting_replaces_every_match(s: Seq<char>, hits: Seq<Spans>, new: Seq<Seq<char>>)
    requires
        new.len() == hits.len(),
    ensures
        all_replaced(s, hits, new, markdown::rewritten(s, hits, new)),
{
    let n = hits.len();
    let gaps = between(s, hits);
    lemma_front(s, hits, new, n);
    assert(gaps.take(n as int + 1) =~= gaps);
    assert(new.take(n as int) =~= new);
}

/// A text is what stands between the matches, and the matches.
pub proof fn matches_make_up_the_text(s: Seq<char>, groups: nat, hits: Seq<Spans>)
    requires
        patterns::hits_within(s, groups, hits),
    ensures
        all_replaced(s, hits, Seq::new(hits.len(), |i: int| part(s, hits[i][0])), s),
{
    let whole = Seq::new(hits.len(), |i: int| part(s, hits[i][0]));
    rewriting_replaces_every_match(s, hits, whole);
    lemma_rebuilt(s, groups, hits, whole, hits.len());
    let len = text::byte_len(s) as int;
    let end = markdown::end_of(hits, hits.len() as int);
    encode_utf8_valid_utf8(s);
    is_char_boundary_start_end_of_seq(encode_utf8(s));
    text::lemma_slices(s, 0, end, len);
    assert(encode_utf8(s).subrange(0, len) =~= encode_utf8(s));
    encode_utf8_decode_utf8(s);
}

/// The text up to the end of the first `n` matches, replaced by themselves.
proof fn lemma_rebuilt(
    s: Seq<char>,
    groups: nat,
    hits: Seq<Spans>,
    whole: Seq<Seq<char>>,
    n: nat,
)
    requires
        patterns::hits_within(s, groups, hits),
        whole == Seq::new(hits.len(), |i: int| part(s, hits[i][0])),
        n <= hits.len(),
    ensures
        markdown::rewritten_front(s, hits, whole, n) == text::byte_slice(
            s,
            0,
            markdown::end_of(hits, n as int),
        ),
        text::on_boundary(s, markdown::end_of(hits, n as int)),
        0 <= markdown::end_of(hits, n as int) <= text::byte_len(s),
    decreases n,
{
    encode_utf8_valid_utf8(s);
    is_char_boundary_start_end_of_seq(encode_utf8(s));
    if n == 0 {
        text::lemma_prefix_slice(s, 0);
        assert(s.take(0) =~= Seq::<char>::empty());
        assert(encode_utf8(Seq::<char>::empty()).len() == 0);
        assert(markdown::rewritten_front(s, hits, whole, 0) =~= text::byte_slice(s, 0, 0));
    } else {
        let i = n - 1;
        lemma_rebuilt(s, groups, hits, whole, i as nat);
        let from = markdown::end_of(hits, i);
        let start = patterns::span_start(hits[i][0]) as int;
        let end = patterns::span_end(hits[i][0]) as int;
        assert(patterns::hit_within(s, groups, hits[i]));
        assert(patterns::span_within(s, hits[i][0], start as usize, end as usize));
        if i > 0 {
            assert(patterns::span_end(hits[i - 1][0]) <= patterns::span_start(hits[i][0]));
        }
        text::lemma_slices(s, 0, from, start);
        text::lemma_slices(s, 0, start, end);
        assert(whole[i] == text::byte_slice(s, start, end));
    }
}

/// Every match of the pattern for bold text becomes what stood between its asterisks, between the
/// tags for bold. The text between the matches stays.
pub proof fn bold_text_is_marked(s: Seq<char>)
    ensures
        ({
            let hits = patterns::regex_captures(r"\*\*(.+?)\*\*"@, s);
            all_replaced(
                s,
                hits,
                Seq::new(hits.len(), |i: int| "<b>"@ + part(s, hits[i][1]) + "</b>"@),
                markdown::with_bold(s),
            )
        }),
{
    let hits = patterns::regex_captures(r"\*\*(.+?)\*\*"@, s);
    let new = Seq::new(hits.len(), |i: int| "<b>"@ + part(s, hits[i][1]) + "</b>"@);
    assert(markdown::wrapped(s, hits, "<b>"@, "</b>"@) =~= new);
    rewriting_replaces_every_match(s, hits, new);
}

/// Every match of the pattern for italic text becomes its first neighbour, what stood between its
/// asterisks between the tags for italics, and its second neighbour. The text between the matches
/// stays.
pub proof fn italic_text_is_marked(s: Seq<char>)
    ensures
        ({
            let hits = patterns::regex_captures(r"([^*]|^)\*([^*]+)\*([^*]|$)"@, s);
            all_replaced(
                s,
                hits,
                Seq::new(
                    hits.len(),
                    |i: int|
                        part(s, hits[i][1]) + "<i>"@ + part(s, hits[i][2]) + "</i>"@ + part(
                            s,
                            hits[i][3],
                        ),
                ),
                markdown::with_italic(s),
            )
        }),
{
    let hits = patterns::regex_captures(r"([^*]|^)\*([^*]+)\*([^*]|$)"@, s);
    let new = Seq::new(
        hits.len(),
        |i: int|
            part(s, hits[i][1]) + "<i>"@ + part(s, hits[i][2]) + "</i>"@ + part(s, hits[i][3]),
    );
    assert(markdown::italicized(s, hits) =~= new);
    rewriting_replaces_every_match(s, hits, new);
}

/// Every heading line becomes its text between the tags for bold. The text between the matches
/// stays.
pub proof fn headings_are_marked(s: Seq<char>)
    ensures
        ({
            let hits = patterns::regex_captures(r"(?m)^#{1,6}\s+(.+)$"@, s);
            all_replaced(
                s,
                hits,
                Seq::new(hits.len(), |i: int| "<b>"@ + part(s, hits[i][1]) + "</b>"@),
                markdown::with_headings(s),
            )
        }),
{
    let hits = patterns::regex_captures(r"(?m)^#{1,6}\s+(.+)$"@, s);
    let new = Seq::new(hits.len(), |i: int| "<b>"@ + part(s, hits[i][1]) + "</b>"@);
    assert(markdown::wrapped(s, hits, "<b>"@, "</b>"@) =~= new);
    rewriting_replaces_every_match(s, hits, new);
}

/// True when `s` begins with `prefix`.
pub open spec fn opens_with(s: Seq<char>, prefix: Seq<char>) -> bool {
    exists|rest: Seq<char>| s == prefix + rest
}

/// True when `url` has one of the schemes that are linked to.
pub open spec fn linkable(url: Seq<char>) -> bool {
    opens_with(url, "http://"@) || opens_with(url, "https://"@) || opens_with(url, "tg://"@)
        || opens_with(url, "mailto:"@)
}

/// What begins with a text begins with it.
proof fn lemma_opens_with(s: Seq<char>, prefix: Seq<char>)
    ensures
        escape::begins_with(s, prefix) == opens_with(s, prefix),
{
    if escape::begins_with(s, prefix) {
        assert(s =~= prefix + s.skip(prefix.len() as int));
    }
    if opens_with(s, prefix) {
        let rest = choose|rest: Seq<char>| s == prefix + rest;
        assert((prefix + rest).take(prefix.len() as int) =~= prefix);
    }
}

/// A link to `url`, escaped with the text around it, is a link with that target, escaped once,
/// and its label, where the scheme is one that is linked to. Else it is the label, and the target
/// in brackets, escaped once.
pub proof fn links_are_written_out(label: Seq<char>, url: Seq<char>)
    ensures
        markdown::link_html(label, escape::escape(url)) == if linkable(url) {
            "<a href=\""@ + escape::escape(url) + "\">"@ + label + "</a>"@
        } else {
            label + " ("@ + escape::escape(url) + ")"@
        },
{
    escape::unescape_undoes_escape(url);
    lemma_opens_with(url, "http://"@);
    lemma_opens_with(url, "https://"@);
    lemma_opens_with(url, "tg://"@);
    lemma_opens_with(url, "mailto:"@);
}

/// Every match of the pattern for links becomes a link with its label and its target, or text.
/// The target is unescaped, checked, and escaped again. The text between the matches stays.
pub proof fn links_are_marked(s: Seq<char>)
    ensures
        ({
            let hits = patterns::regex_captures(r"\[([^\]]+)\]\(([^)]+)\)"@, s);
            all_replaced(
                s,
                hits,
                Seq::new(
                    hits.len(),
                    |i: int|
                        {
                            let label = part(s, hits[i][1]);
                            let url = escape::unescape(part(s, hits[i][2]));
                            if linkable(url) {
                                "<a href=\""@ + escape::escape(url) + "\">"@ + label + "</a>"@
                            } else {
                                label + " ("@ + escape::escape(url) + ")"@
                            }
                        },
                ),
                markdown::with_links(s),
            )
        }),
{
    let hits = patterns::regex_captures(r"\[([^\]]+)\]\(([^)]+)\)"@, s);
    let new = Seq::new(
        hits.len(),
        |i: int|
            {
                let label = part(s, hits[i][1]);
                let url = escape::unescape(part(s, hits[i][2]));
                if linkable(url) {
                    "<a href=\""@ + escape::escape(url) + "\">"@ + label + "</a>"@
                } else {
                    label + " ("@ + escape::escape(url) + ")"@
                }
            },
    );
    assert forall|i: int| 0 <= i < hits.len() implies #[trigger] markdown::linked(s, hits)[i]
        == new[i] by {
        let url = escape::unescape(part(s, hits[i][2]));
        lemma_opens_with(url, "http://"@);
        lemma_opens_with(url, "https://"@);
        lemma_opens_with(url, "tg://"@);
        lemma_opens_with(url, "mailto:"@);
    }
    assert(markdown::linked(s, hits) =~= new);
    rewriting_replaces_every_match(s, hits, new);
}

/// The mark of the piece of code with number `k`.
pub open spec fn mark(k: nat) -> Seq<char> {
    seq!['\0', 'C', 'O', 'D', 'E'] + digits::numeral(k, 10) + seq!['\0']
}

/// Marks are written so.
proof fn lemma_mark(k: nat)
    ensures
        markdown::placeholder(k) == mark(k),
{
    reveal_strlit("\x00CODE");
    reveal_strlit("\x00");
    assert(markdown::placeholder(k) =~= mark(k));
}

/// The conversion goes from stage to stage: all code blocks are set aside, then all code inside
/// of lines, each behind a mark with the next number. What is left is escaped, then bold text,
/// italic text, links and headings are marked. At last the code is put back, escaped and between
/// tags.
pub proof fn conversion_goes_from_stage_to_stage(md: Seq<char>)
    ensures
        ({
            let blocks = patterns::regex_captures(r"```(\w*)\n?([\s\S]*?)```"@, md);
            let n = blocks.len();
            let s = marks::woven(between(md, blocks), Seq::new(n, |i: int| mark(i as nat)));
            let codes = patterns::regex_captures(r"`([^`]+)`"@, s);
            let (without_code, regions) = markdown::set_aside(md);
            &&& all_replaced(
                s,
                codes,
                Seq::new(codes.len(), |i: int| mark((n + i) as nat)),
                without_code,
            )
            &&& regions == Seq::new(
                n + codes.len(),
                |i: int|
                    if i < n {
                        "<pre>"@ + escape::escape(part(md, blocks[i][2])) + "</pre>"@
                    } else {
                        "<code>"@ + escape::escape(part(s, codes[i - n][1])) + "</code>"@
                    },
            )
        }),
        ({
            let (without_code, regions) = markdown::set_aside(md);
            markdown::telegram_html(md) == markdown::restored(
                markdown::with_headings(
                    markdown::with_links(
                        markdown::with_italic(markdown::with_bold(escape::escape(without_code))),
                    ),
                ),
                regions,
            )
        }),
{
    let blocks = patterns::regex_captures(r"```(\w*)\n?([\s\S]*?)```"@, md);
    let n = blocks.len();
    let first = Seq::new(n, |i: int| mark(i as nat));
    assert forall|i: int| 0 <= i < n implies #[trigger] markdown::placeholders(0, n)[i]
        == first[i] by {
        lemma_mark(i as nat);
    }
    assert(markdown::placeholders(0, n) =~= first);
    rewriting_replaces_every_match(md, blocks, first);
    let s = markdown::rewritten(md, blocks, first);
    let codes = patterns::regex_captures(r"`([^`]+)`"@, s);
    let second = Seq::new(codes.len(), |i: int| mark((n + i) as nat));
    assert forall|i: int| 0 <= i < codes.len() implies #[trigger] markdown::placeholders(
        n,
        codes.len(),
    )[i] == second[i] by {
        lemma_mark((n + i) as nat);
    }
    assert(markdown::placeholders(n, codes.len()) =~= second);
    rewriting_replaces_every_match(s, codes, second);
    let regions = markdown::set_aside(md).1;
    assert(regions =~= Seq::new(
        n + codes.len(),
        |i: int|
            if i < n {
                "<pre>"@ + escape::escape(part(md, blocks[i][2])) + "</pre>"@
            } else {
                "<code>"@ + escape::escape(part(s, codes[i - n][1])) + "</code>"@
            },
    ));
}

/// Code is put back number by number: one more piece of code is put in place of its mark,
/// wherever that stands once all pieces in front of it are put back.
pub proof fn code_goes_back_in_turn(s: Seq<char>, regions: Seq<Seq<char>>, region: Seq<char>)
    ensures
        markdown::restored(s, Seq::empty()) == s,
        markdown::restored(s, regions.push(region)) == escape::replaced(
            markdown::restored(s, regions),
            mark(regions.len()),
            region,
        ),
{
    let n = regions.len();
    lemma_mark(n);
    lemma_restored_front(s, regions, regions.push(region), n);
}

/// The first regions decide what becomes of the text at first.
proof fn lemma_restored_front(
    s: Seq<char>,
    regions: Seq<Seq<char>>,
    more: Seq<Seq<char>>,
    n: nat,
)
    requires
        n <= regions.len() <= more.len(),
        forall|i: int| 0 <= i < regions.len() ==> regions[i] == more[i],
    ensures
        markdown::restored_front(s, regions, n) == markdown::restored_front(s, more, n),
    decreases n,
{
    if n > 0 {
        lemma_restored_front(s, regions, more, (n - 1) as nat);
    }
}

/// True when `word` stands in `s` behind its first `at` characters.
pub open spec fn stands_at(s: Seq<char>, word: Seq<char>, at: int) -> bool {
    0 <= at && at + word.len() <= s.len() && s.subrange(at, at + word.len()) == word
}

/// The first occurrence of a word is replaced, and then the occurrences behind it. A text in
/// which the word does not stand stays as it is.
pub proof fn words_are_replaced(s: Seq<char>, word: Seq<char>, new: Seq<char>, at: int)
    requires
        word.len() > 0,
        stands_at(s, word, at) || at == s.len(),
        forall|j: int| 0 <= j < at ==> !#[trigger] stands_at(s, word, j),
    ensures
        stands_at(s, word, at) ==> escape::replaced(s, word, new) == s.take(at) + new
            + escape::replaced(s.skip(at + word.len()), word, new),
        at == s.len() ==> escape::replaced(s, word, new) == s,
    decreases s.len(),
{
    let n = word.len() as int;
    if s.len() < n {
    } else if at == 0 {
        assert(s.subrange(0, n) =~= s.take(n));
        assert(s.take(0) + new + escape::replaced(s.skip(n), word, new) =~= new
            + escape::replaced(s.skip(n), word, new));
    } else {
        let rest = s.skip(1);
        assert(!stands_at(s, word, 0));
        assert(s.subrange(0, n) =~= s.take(n));
        assert forall|j: int| 0 <= j < at - 1 implies !#[trigger] stands_at(rest, word, j) by {
            assert(!stands_at(s, word, j + 1));
            if j + n <= rest.len() {
                assert(rest.subrange(j, j + n) =~= s.subrange(j + 1, j + 1 + n));
            }
        }
        if stands_at(s, word, at) {
            assert(rest.subrange(at - 1, at - 1 + n) =~= s.subrange(at, at + n));
            assert(rest.skip(at - 1 + n) =~= s.skip(at + n));
        }
        words_are_replaced(rest, word, new, at - 1);
        assert(s.take(at) =~= seq![s[0]] + rest.take(at - 1));
        assert(s =~= seq![s[0]] + rest);
        assert(s.take(at) + new + escape::replaced(s.skip(at + n), word, new) =~= seq![s[0]] + (
        rest.take(at - 1) + new + escape::replaced(s.skip(at + n), word, new)));
    }
}

/// Each of the five special characters has its entity, and all other characters stand for
/// themselves. Texts can be escaped apart.
pub proof fn characters_are_escaped(s: Seq<char>, c: char)
    ensures
        escape::escape(Seq::empty()) == Seq::<char>::empty(),
        escape::escape(s.push(c)) == escape::escape(s) + if c == '&' {
            seq!['&', 'a', 'm', 'p', ';']
        } else if c == '<' {
            seq!['&', 'l', 't', ';']
        } else if c == '>' {
            seq!['&', 'g', 't', ';']
        } else if c == '"' {
            seq!['&', 'q', 'u', 'o', 't', ';']
        } else if c == '\'' {
            seq!['&', '#', '3', '9', ';']
        } else {
            seq![c]
        },
{
    escape::lemma_entities();
    escape::escape_of_concatenation(s, seq![c]);
    assert(s.push(c) =~= s + seq![c]);
    assert(seq![c].skip(1) =~= Seq::<char>::empty());
    assert(escape::escape(Seq::<char>::empty()) =~= Seq::<char>::empty());
    assert(escape::escape(seq![c]) == escape::escape_char(c) + escape::escape(seq![c].skip(1)));
    assert(escape::escape(seq![c]) =~= escape::escape_char(c));
}

/// An entity of one of the five special characters at the beginning of a text is turned back, and
/// what follows is read on its own. A character that begins none of them stays.
pub proof fn entities_are_turned_back(c: char, rest: Seq<char>)
    ensures
        escape::unescape(Seq::empty()) == Seq::<char>::empty(),
        escape::unescape(seq!['&', 'a', 'm', 'p', ';'] + rest) == seq!['&'] + escape::unescape(
            rest,
        ),
        escape::unescape(seq!['&', 'l', 't', ';'] + rest) == seq!['<'] + escape::unescape(rest),
        escape::unescape(seq!['&', 'g', 't', ';'] + rest) == seq!['>'] + escape::unescape(rest),
        escape::unescape(seq!['&', 'q', 'u', 'o', 't', ';'] + rest) == seq!['"']
            + escape::unescape(rest),
        escape::unescape(seq!['&', '#', '3', '9', ';'] + rest) == seq!['\''] + escape::unescape(
            rest,
        ),
        c != '&' || !(stands_at(rest, seq!['a', 'm', 'p', ';'], 0) || stands_at(
            rest,
            seq!['l', 't', ';'],
            0,
        ) || stands_at(rest, seq!['g', 't', ';'], 0) || stands_at(
            rest,
            seq!['q', 'u', 'o', 't', ';'],
            0,
        ) || stands_at(rest, seq!['#', '3', '9', ';'], 0)) ==> escape::unescape(seq![c] + rest)
            == seq![c] + escape::unescape(rest),
{
    escape::lemma_entities();
    lemma_turned_back('&', rest);
    lemma_turned_back('<', rest);
    lemma_turned_back('>', rest);
    lemma_turned_back('"', rest);
    lemma_turned_back('\'', rest);
    let s = seq![c] + rest;
    assert(s.skip(1) =~= rest);
    if let Some(d) = escape::leading_entity(s) {
        let w = escape::escape_char(d);
        let n = w.len() as int;
        assert(s.take(n) == w);
        assert(s.take(n)[0] == c);
        assert(rest.subrange(0, n - 1) =~= w.skip(1));
        assert("&amp;"@.skip(1) =~= seq!['a', 'm', 'p', ';']);
        assert("&lt;"@.skip(1) =~= seq!['l', 't', ';']);
        assert("&gt;"@.skip(1) =~= seq!['g', 't', ';']);
        assert("&quot;"@.skip(1) =~= seq!['q', 'u', 'o', 't', ';']);
        assert("&#39;"@.skip(1) =~= seq!['#', '3', '9', ';']);
    }
}

/// The entity of a character is turned back.
proof fn lemma_turned_back(c: char, rest: Seq<char>)
    requires
        escape::escape_char(c) != seq![c],
    ensures
        escape::unescape(escape::escape_char(c) + rest) == seq![c] + escape::unescape(rest),
{
    escape::lemma_entities();
    escape::lemma_first_entity(c, rest);
    let w = escape::escape_char(c);
    assert((w + rest).skip(w.len() as int) =~= rest);
}

/// What takes the place of a match is made of its groups: code that is set aside is escaped, and
/// stands between the tags for it, bold text stands between its tags as it is, and a link is one
/// where its unescaped target has a scheme that is linked to.
pub proof fn replacements_are_made_of_groups(
    s: Seq<char>,
    hits: Seq<Spans>,
    index: int,
    open: Seq<char>,
    close: Seq<char>,
    label: Seq<char>,
    target: Seq<char>,
    first: nat,
)
    ensures
        markdown::protected_html(s, hits, index, open, close) == Seq::new(
            hits.len(),
            |i: int| open + escape::escape(part(s, hits[i][index])) + close,
        ),
        markdown::wrapped(s, hits, open, close) == Seq::new(
            hits.len(),
            |i: int| open + part(s, hits[i][1]) + close,
        ),
        markdown::placeholders(first, hits.len()) == Seq::new(
            hits.len(),
            |i: int| mark((first + i) as nat),
        ),
        markdown::link_html(label, target) == if linkable(escape::unescape(target)) {
            "<a href=\""@ + escape::escape(escape::unescape(target)) + "\">"@ + label + "</a>"@
        } else {
            label + " ("@ + escape::escape(escape::unescape(target)) + ")"@
        },
{
    assert(markdown::protected_html(s, hits, index, open, close) =~= Seq::new(
        hits.len(),
        |i: int| open + escape::escape(part(s, hits[i][index])) + close,
    ));
    assert(markdown::wrapped(s, hits, open, close) =~= Seq::new(
        hits.len(),
        |i: int| open + part(s, hits[i][1]) + close,
    ));
    let expected = Seq::new(hits.len(), |i: int| mark((first + i) as nat));
    assert forall|i: int| 0 <= i < hits.len() implies #[trigger] markdown::placeholders(
        first,
        hits.len(),
    )[i] == expected[i] by {
        lemma_mark((first + i) as nat);
    }
    assert(markdown::placeholders(first, hits.len()) =~= expected);
    let url = escape::unescape(target);
    lemma_opens_with(url, "http://"@);
    lemma_opens_with(url, "https://"@);
    lemma_opens_with(url, "tg://"@);
    lemma_opens_with(url, "mailto:"@);
}

} // verus!
