//! Markdown to Telegram HTML.
use vstd::prelude::*;
use vstd::string::*;
use vstd::utf8::*;

use crate::digits;
use crate::digits::push_numeral;
use crate::format::code;
use crate::format::escape;
use crate::format::escape::{html_escape, html_unescape, replace_all, starts_with};
use crate::format::laws;
use crate::format::patterns;
use crate::format::patterns::{
    captures, group, Captures, Spans, BOLD, CODE_BLOCK, HEADING, INLINE_CODE, ITALIC, LINK,
};
use crate::format::subset;
use crate::text;
use crate::text::{len_of, slice};

verus! {

/// Where the first `n` matches leave off.
pub open spec fn end_of(hits: Seq<Spans>, n: int) -> int {
    if n <= 0 {
        0
    } else {
        patterns::span_end(hits[n - 1][0]) as int
    }
}

/// What the text up to the end of the first `n` matches becomes: what stands between the
/// matches, and the replacements in place of the matches.
pub open spec fn rewritten_front(
    s: Seq<char>,
    hits: Seq<Spans>,
    replacements: Seq<Seq<char>>,
    n: nat,
) -> Seq<char>
    decreases n,
{
    if n == 0 {
        Seq::empty()
    } else {
        rewritten_front(s, hits, replacements, (n - 1) as nat) + text::byte_slice(
            s,
            end_of(hits, n - 1),
            patterns::span_start(hits[n - 1][0]) as int,
        ) + replacements[n - 1]
    }
}

/// `s` with each match replaced.
pub open spec fn rewritten(s: Seq<char>, hits: Seq<Spans>, replacements: Seq<Seq<char>>) -> Seq<
    char,
> {
    rewritten_front(s, hits, replacements, hits.len()) + text::byte_slice(
        s,
        end_of(hits, hits.len() as int),
        text::byte_len(s) as int,
    )
}

/// The mark that stands for the `i`-th protected region.
pub open spec fn placeholder(i: nat) -> Seq<char> {
    "\x00CODE"@ + digits::numeral(i, 10) + "\x00"@
}

/// The marks of `count` protected regions from number `first` on.
pub open spec fn placeholders(first: nat, count: nat) -> Seq<Seq<char>> {
    Seq::new(count, |i: int| placeholder((first + i) as nat))
}

/// The HTML of the protected regions: group `index` of each match, escaped, between `open`
/// and `close`.
pub open spec fn protected_html(
    s: Seq<char>,
    hits: Seq<Spans>,
    index: int,
    open: Seq<char>,
    close: Seq<char>,
) -> Seq<Seq<char>> {
    hits.map_values(
        |hit: Spans| open + escape::escape(patterns::group_text(s, hit, index)) + close,
    )
}

/// The first group of each match between `open` and `close`.
pub open spec fn wrapped(s: Seq<char>, hits: Seq<Spans>, open: Seq<char>, close: Seq<char>) -> Seq<
    Seq<char>,
> {
    hits.map_values(|hit: Spans| open + patterns::group_text(s, hit, 1) + close)
}

/// The second group of each match in italics, between its neighbours.
pub open spec fn italicized(s: Seq<char>, hits: Seq<Spans>) -> Seq<Seq<char>> {
    hits.map_values(
        |hit: Spans|
            patterns::group_text(s, hit, 1) + "<i>"@ + patterns::group_text(s, hit, 2) + "</i>"@
                + patterns::group_text(s, hit, 3),
    )
}

/// True when a link may lead to `url`.
pub open spec fn allowed_url(url: Seq<char>) -> bool {
    ||| escape::begins_with(url, "http://"@)
    ||| escape::begins_with(url, "https://"@)
    ||| escape::begins_with(url, "tg://"@)
    ||| escape::begins_with(url, "mailto:"@)
}

/// The HTML of a link with an escaped `label` and an escaped `target`.
pub open spec fn link_html(label: Seq<char>, target: Seq<char>) -> Seq<char> {
    let url = escape::unescape(target);
    if allowed_url(url) {
        "<a href=\""@ + escape::escape(url) + "\">"@ + label + "</a>"@
    } else {
        label + " ("@ + escape::escape(url) + ")"@
    }
}

/// Each match as a link.
pub open spec fn linked(s: Seq<char>, hits: Seq<Spans>) -> Seq<Seq<char>> {
    hits.map_values(
        |hit: Spans|
            link_html(patterns::group_text(s, hit, 1), patterns::group_text(s, hit, 2)),
    )
}

/// `s` with the marks of the first `n` protected regions replaced by their HTML, one after
/// the other.
pub open spec fn restored_front(s: Seq<char>, regions: Seq<Seq<char>>, n: nat) -> Seq<char>
    decreases n,
{
    if n == 0 {
        s
    } else {
        escape::replaced(
            restored_front(s, regions, (n - 1) as nat),
            placeholder((n - 1) as nat),
            regions[n - 1],
        )
    }
}

/// `s` with the marks of all protected regions replaced by their HTML.
pub open spec fn restored(s: Seq<char>, regions: Seq<Seq<char>>) -> Seq<char> {
    restored_front(s, regions, regions.len())
}

/// `s` with bold text marked.
pub open spec fn with_bold(s: Seq<char>) -> Seq<char> {
    let hits = patterns::regex_captures(BOLD@, s);
    rewritten(s, hits, wrapped(s, hits, "<b>"@, "</b>"@))
}

/// `s` with italic text marked.
pub open spec fn with_italic(s: Seq<char>) -> Seq<char> {
    let hits = patterns::regex_captures(ITALIC@, s);
    rewritten(s, hits, italicized(s, hits))
}

/// `s` with links marked.
pub open spec fn with_links(s: Seq<char>) -> Seq<char> {
    let hits = patterns::regex_captures(LINK@, s);
    rewritten(s, hits, linked(s, hits))
}

/// `s` with headings marked as bold.
pub open spec fn with_headings(s: Seq<char>) -> Seq<char> {
    let hits = patterns::regex_captures(HEADING@, s);
    rewritten(s, hits, wrapped(s, hits, "<b>"@, "</b>"@))
}

/// The markdown `md` with a mark in place of each piece of code, and the HTML of the pieces.
/// Code blocks come first, then code inside lines.
pub open spec fn set_aside(md: Seq<char>) -> (Seq<char>, Seq<Seq<char>>) {
    let blocks = patterns::regex_captures(CODE_BLOCK@, md);
    let without_blocks = rewritten(md, blocks, placeholders(0, blocks.len()));
    let codes = patterns::regex_captures(INLINE_CODE@, without_blocks);
    (
        rewritten(without_blocks, codes, placeholders(blocks.len(), codes.len())),
        protected_html(md, blocks, 2, "<pre>"@, "</pre>"@) + protected_html(
            without_blocks,
            codes,
            1,
            "<code>"@,
            "</code>"@,
        ),
    )
}

/// The HTML of markdown without code.
pub open spec fn formatted(md: Seq<char>) -> Seq<char> {
    with_headings(with_links(with_italic(with_bold(escape::escape(md)))))
}

/// The Telegram HTML of the markdown `md`: code is set aside, the rest is escaped and
/// formatted, then the code is put back.
pub open spec fn telegram_html(md: Seq<char>) -> Seq<char> {
    let (without_code, regions) = set_aside(md);
    restored(formatted(without_code), regions)
}

/// True when no character of markup stands in `md`.
pub open spec fn is_plain(md: Seq<char>) -> bool {
    !md.contains('`') && !md.contains('*') && !md.contains('[') && !md.contains('#')
}

/// Replace each match in `string` by the string of the same number in `replacements`.
pub fn rewrite(string: &str, hits: &Vec<Captures>, replacements: &Vec<String>) -> (result: String)
    requires
        exists|groups: nat| patterns::hits_within(string@, groups, patterns::spans(hits@)),
        replacements@.len() == hits@.len(),
    ensures
        result@ == rewritten(string@, patterns::spans(hits@), text::strings(replacements@)),
{
    let ghost s = string@;
    let ghost all = patterns::spans(hits@);
    let ghost new = text::strings(replacements@);
    let ghost groups = choose|groups: nat| patterns::hits_within(s, groups, all);
    let mut result = String::new();
    let mut last: usize = 0;
    let mut i: usize = 0;
    let len = len_of(string);
    proof {
        encode_utf8_valid_utf8(s);
        is_char_boundary_start_end_of_seq(encode_utf8(s));
    }
    while i < hits.len()
        invariant
            i <= hits@.len(),
            s == string@,
            all == patterns::spans(hits@),
            new == text::strings(replacements@),
            replacements@.len() == hits@.len(),
            patterns::hits_within(s, groups, all),
            last == end_of(all, i as int),
            last <= len,
            len == text::byte_len(s),
            text::on_boundary(s, last as int),
            result@ == rewritten_front(s, all, new, i as nat),
        decreases hits@.len() - i,
    {
        let ghost hit = all[i as int];
        assert(hit == hits@[i as int]@);
        assert(patterns::hit_within(s, groups, hit));
        assert(patterns::span_within(
            s,
            hit[0],
            patterns::span_start(hit[0]),
            patterns::span_end(hit[0]),
        ));
        if i > 0 {
            assert(patterns::span_end(all[i - 1][0]) <= patterns::span_start(all[i as int][0]));
        }
        if let Some((start, end)) = hits[i][0] {
            result.append(slice(string, last, start));
            result.append(replacements[i].as_str());
            assert(new[i as int] == replacements@[i as int]@);
            last = end;
        }
        i = i + 1;
    }
    result.append(slice(string, last, len));
    result
}

/// The mark that stands for the `i`-th protected region.
fn make_placeholder(i: usize) -> (mark: String)
    ensures
        mark@ == placeholder(i as nat),
        mark@.len() > 0,
{
    let mut mark = "\x00CODE".to_owned();
    push_numeral(&mut mark, i as u128, 10);
    mark.append("\x00");
    proof {
        reveal_strlit("\x00CODE");
    }
    mark
}

/// Set the matches aside: their HTML joins `regions`, and marks take their place.
pub fn protect(
    string: &str,
    hits: &Vec<Captures>,
    index: usize,
    open: &str,
    close: &str,
    regions: &mut Vec<String>,
) -> (result: String)
    requires
        exists|groups: nat|
            patterns::hits_within(string@, groups, patterns::spans(hits@)) && index <= groups,
    ensures
        result@ == rewritten(
            string@,
            patterns::spans(hits@),
            placeholders(old(regions)@.len(), hits@.len()),
        ),
        text::strings(final(regions)@) == text::strings(old(regions)@) + protected_html(
            string@,
            patterns::spans(hits@),
            index as int,
            open@,
            close@,
        ),
{
    let ghost s = string@;
    let ghost all = patterns::spans(hits@);
    let ghost groups = choose|groups: nat|
        patterns::hits_within(s, groups, all) && index <= groups;
    let ghost before = text::strings(regions@);
    let ghost html = protected_html(s, all, index as int, open@, close@);
    let mut marks: Vec<String> = Vec::new();
    let mut i: usize = 0;
    assert(before + html.take(0) =~= before);
    while i < hits.len()
        invariant
            i <= hits@.len(),
            s == string@,
            all == patterns::spans(hits@),
            html == protected_html(s, all, index as int, open@, close@),
            patterns::hits_within(s, groups, all),
            index <= groups,
            before == text::strings(old(regions)@),
            text::strings(regions@) == before + html.take(i as int),
            marks@.len() == i,
            forall|j: int|
                0 <= j < i ==> (#[trigger] marks@[j])@ == placeholder((before.len() + j) as nat),
        decreases hits@.len() - i,
    {
        assert(all[i as int] == hits@[i as int]@);
        assert(patterns::hit_within(s, groups, all[i as int]));
        let ghost so_far = text::strings(regions@);
        assert(so_far.len() == regions@.len());
        let code = html_escape(group(string, &hits[i], index));
        marks.push(make_placeholder(regions.len()));
        let mut region = open.to_owned();
        region.append(code.as_str());
        region.append(close);
        assert(region@ == html[i as int]);
        regions.push(region);
        assert(text::strings(regions@) =~= so_far.push(html[i as int]));
        assert(html.take(i + 1) =~= html.take(i as int).push(html[i as int]));
        i = i + 1;
    }
    assert(html.take(i as int) =~= html);
    assert(text::strings(marks@) =~= placeholders(before.len(), hits@.len()));
    rewrite(string, hits, &marks)
}

/// Put the first group of each match between `open` and `close`.
pub fn wrap_hits(string: &str, hits: &Vec<Captures>, open: &str, close: &str) -> (result: String)
    requires
        patterns::hits_within(string@, 1, patterns::spans(hits@)),
    ensures
        result@ == rewritten(
            string@,
            patterns::spans(hits@),
            wrapped(string@, patterns::spans(hits@), open@, close@),
        ),
{
    let ghost all = patterns::spans(hits@);
    let ghost html = wrapped(string@, all, open@, close@);
    let mut new: Vec<String> = Vec::new();
    let mut i: usize = 0;
    while i < hits.len()
        invariant
            i <= hits@.len(),
            all == patterns::spans(hits@),
            html == wrapped(string@, all, open@, close@),
            patterns::hits_within(string@, 1, all),
            new@.len() == i,
            forall|j: int| 0 <= j < i ==> (#[trigger] new@[j])@ == html[j],
        decreases hits@.len() - i,
    {
        assert(all[i as int] == hits@[i as int]@);
        assert(patterns::hit_within(string@, 1, all[i as int]));
        let mut replacement = open.to_owned();
        replacement.append(group(string, &hits[i], 1));
        replacement.append(close);
        new.push(replacement);
        i = i + 1;
    }
    assert(text::strings(new@) =~= html);
    rewrite(string, hits, &new)
}

/// Put the second group of each match in italics.
pub fn italicize_hits(string: &str, hits: &Vec<Captures>) -> (result: String)
    requires
        patterns::hits_within(string@, 3, patterns::spans(hits@)),
    ensures
        result@ == rewritten(
            string@,
            patterns::spans(hits@),
            italicized(string@, patterns::spans(hits@)),
        ),
{
    let ghost all = patterns::spans(hits@);
    let ghost html = italicized(string@, all);
    let mut new: Vec<String> = Vec::new();
    let mut i: usize = 0;
    while i < hits.len()
        invariant
            i <= hits@.len(),
            all == patterns::spans(hits@),
            html == italicized(string@, all),
            patterns::hits_within(string@, 3, all),
            new@.len() == i,
            forall|j: int| 0 <= j < i ==> (#[trigger] new@[j])@ == html[j],
        decreases hits@.len() - i,
    {
        assert(all[i as int] == hits@[i as int]@);
        assert(patterns::hit_within(string@, 3, all[i as int]));
        let mut replacement = group(string, &hits[i], 1).to_owned();
        replacement.append("<i>");
        replacement.append(group(string, &hits[i], 2));
        replacement.append("</i>");
        replacement.append(group(string, &hits[i], 3));
        new.push(replacement);
        i = i + 1;
    }
    assert(text::strings(new@) =~= html);
    rewrite(string, hits, &new)
}

/// The HTML of a link with an escaped `label` and an escaped `target`.
pub fn make_link(label: &str, target: &str) -> (result: String)
    ensures
        result@ == link_html(label@, target@),
{
    let url = html_unescape(target);
    let escaped_url = html_escape(url.as_str());
    if starts_with(url.as_str(), "http://") || starts_with(url.as_str(), "https://") || starts_with(
        url.as_str(),
        "tg://",
    ) || starts_with(url.as_str(), "mailto:") {
        let mut result = "<a href=\"".to_owned();
        result.append(escaped_url.as_str());
        result.append("\">");
        result.append(label);
        result.append("</a>");
        result
    } else {
        let mut result = label.to_owned();
        result.append(" (");
        result.append(escaped_url.as_str());
        result.append(")");
        result
    }
}

/// Turn each match into a link.
pub fn link_hits(string: &str, hits: &Vec<Captures>) -> (result: String)
    requires
        patterns::hits_within(string@, 2, patterns::spans(hits@)),
    ensures
        result@ == rewritten(
            string@,
            patterns::spans(hits@),
            linked(string@, patterns::spans(hits@)),
        ),
{
    let ghost all = patterns::spans(hits@);
    let ghost html = linked(string@, all);
    let mut new: Vec<String> = Vec::new();
    let mut i: usize = 0;
    while i < hits.len()
        invariant
            i <= hits@.len(),
            all == patterns::spans(hits@),
            html == linked(string@, all),
            patterns::hits_within(string@, 2, all),
            new@.len() == i,
            forall|j: int| 0 <= j < i ==> (#[trigger] new@[j])@ == html[j],
        decreases hits@.len() - i,
    {
        assert(all[i as int] == hits@[i as int]@);
        assert(patterns::hit_within(string@, 2, all[i as int]));
        new.push(make_link(group(string, &hits[i], 1), group(string, &hits[i], 2)));
        i = i + 1;
    }
    assert(text::strings(new@) =~= html);
    rewrite(string, hits, &new)
}

/// Put the protected regions back in place of their marks.
pub fn restore(string: String, regions: &Vec<String>) -> (result: String)
    ensures
        result@ == restored(string@, text::strings(regions@)),
{
    let ghost html = text::strings(regions@);
    let ghost s = string@;
    let mut result = string;
    let mut i: usize = 0;
    while i < regions.len()
        invariant
            i <= regions@.len(),
            html == text::strings(regions@),
            result@ == restored_front(s, html, i as nat),
        decreases regions@.len() - i,
    {
        let mark = make_placeholder(i);
        result = replace_all(result.as_str(), mark.as_str(), regions[i].as_str());
        assert(html[i as int] == regions@[i as int]@);
        i = i + 1;
    }
    result
}

/// Convert LLM markdown to Telegram HTML.
///
/// Handles: bold, italic, inline code, code blocks, links, headings. Text without any of their
/// markup is only escaped. The result holds no other tags than those of Telegram's subset.
///
/// Code comes through as it is, whatever the text around it: each piece stands in place of its
/// mark, which formatting leaves alone. This is stated of text without the delimiter of marks,
/// and without code blocks inside of other code.
pub fn md_to_telegram_html(md: &str) -> (html: String)
    ensures
        html@ == telegram_html(md@),
        is_plain(md@) ==> html@ == escape::escape(md@),
        subset::supported(html@),
        !md@.contains('\0') && !code::code_in_code(md@) ==> code::code_kept(md@, html@),
{
    proof {
        assert(patterns::has_groups(CODE_BLOCK@, 2));
        assert(patterns::has_groups(INLINE_CODE@, 1));
        assert(patterns::has_groups(BOLD@, 1));
        assert(patterns::has_groups(ITALIC@, 3));
        assert(patterns::has_groups(LINK@, 2));
        assert(patterns::has_groups(HEADING@, 1));
    }
    let mut regions: Vec<String> = Vec::new();
    assert(text::strings(regions@) =~= Seq::empty());
    let blocks = captures(CODE_BLOCK, md);
    let without_blocks = protect(md, &blocks, 2, "<pre>", "</pre>", &mut regions);
    let codes = captures(INLINE_CODE, without_blocks.as_str());
    let without_code = protect(
        without_blocks.as_str(),
        &codes,
        1,
        "<code>",
        "</code>",
        &mut regions,
    );
    assert(text::strings(regions@) =~= protected_html(
        md@,
        patterns::spans(blocks@),
        2,
        "<pre>"@,
        "</pre>"@,
    ) + protected_html(
        without_blocks@,
        patterns::spans(codes@),
        1,
        "<code>"@,
        "</code>"@,
    ));
    let escaped = html_escape(without_code.as_str());
    let bold = captures(BOLD, escaped.as_str());
    let with_bold = wrap_hits(escaped.as_str(), &bold, "<b>", "</b>");
    let italic = captures(ITALIC, with_bold.as_str());
    let with_italic = italicize_hits(with_bold.as_str(), &italic);
    let links = captures(LINK, with_italic.as_str());
    let with_links = link_hits(with_italic.as_str(), &links);
    let headings = captures(HEADING, with_links.as_str());
    let formatted = wrap_hits(with_links.as_str(), &headings, "<b>", "</b>");
    proof {
        if is_plain(md@) {
            laws::lemma_escaped_has_no_markup(md@);
            laws::lemma_nothing_rewritten(
                md@,
                patterns::spans(blocks@),
                placeholders(0, blocks@.len()),
            );
            laws::lemma_nothing_rewritten(
                md@,
                patterns::spans(codes@),
                placeholders(blocks@.len(), codes@.len()),
            );
            let s = escape::escape(md@);
            laws::lemma_nothing_rewritten(
                s,
                patterns::spans(bold@),
                wrapped(s, patterns::spans(bold@), "<b>"@, "</b>"@),
            );
            laws::lemma_nothing_rewritten(
                s,
                patterns::spans(italic@),
                italicized(s, patterns::spans(italic@)),
            );
            laws::lemma_nothing_rewritten(
                s,
                patterns::spans(links@),
                linked(s, patterns::spans(links@)),
            );
            laws::plain_text_is_escaped(md@);
        }
    }
    proof {
        subset::lemma_regions_supported(md@, patterns::spans(blocks@));
        subset::lemma_regions_supported(without_blocks@, patterns::spans(codes@));
        subset::lemma_escaped(without_code@);
        subset::lemma_bold(escaped@, patterns::spans(bold@));
        subset::lemma_italic(with_bold@, patterns::spans(italic@));
        subset::lemma_links(with_italic@, patterns::spans(links@));
        subset::lemma_headings(with_links@, patterns::spans(headings@));
        let html = text::strings(regions@);
        subset::lemma_restored_supported(formatted@, html, html.len());
    }
    proof {
        if !md@.contains('\0') && !code::code_in_code(md@) {
            assert forall|i: int| 0 <= i < md@.len() implies md@[i] != '\0' by {
                assert(md@.contains(md@[i]));
            }
            let tally = code::numbers(regions@.len()).to_multiset();
            code::lemma_code_set_aside(md@);
            code::lemma_bold(escaped@, patterns::spans(bold@), tally);
            code::lemma_italic(with_bold@, patterns::spans(italic@), tally);
            code::lemma_links(with_italic@, patterns::spans(links@), tally);
            code::lemma_headings(with_links@, patterns::spans(headings@), tally);
            code::lemma_code_kept(md@);
        }
    }
    restore(formatted, &regions)
}

} // verus!
