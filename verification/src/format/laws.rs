//! What holds of the markdown conversion as a whole.
use vstd::prelude::*;

use super::escape;
use super::markdown;
use super::patterns;
use super::patterns::{BOLD, CODE_BLOCK, HEADING, INLINE_CODE, ITALIC, LINK};
use crate::text;

verus! {

/// Where nothing is matched, nothing is rewritten.
pub proof fn lemma_nothing_rewritten(
    s: Seq<char>,
    hits: Seq<patterns::Spans>,
    replacements: Seq<Seq<char>>,
)
    requires
        hits.len() == 0,
    ensures
        markdown::rewritten(s, hits, replacements) == s,
{
    assert(s.take(0) =~= Seq::<char>::empty());
    assert(text::byte_len(s.take(0)) == 0);
    text::lemma_prefix_slice(s, 0);
    assert(s.skip(0) =~= s);
    assert(Seq::<char>::empty() + s =~= s);
}

/// Escaped text without markup of its own has none that the patterns match on.
pub proof fn lemma_escaped_has_no_markup(md: Seq<char>)
    requires
        markdown::is_plain(md),
    ensures
        !escape::escape(md).contains('*'),
        !escape::escape(md).contains('['),
        !patterns::has_heading_line(escape::escape(md)),
{
    escape::escape_adds_no_markup(md, '*');
    escape::escape_adds_no_markup(md, '[');
    escape::escape_adds_no_markup(md, '#');
}

/// Text in which the patterns match nothing is only escaped.
pub proof fn plain_text_is_escaped(md: Seq<char>)
    requires
        patterns::regex_captures(CODE_BLOCK@, md).len() == 0,
        patterns::regex_captures(INLINE_CODE@, md).len() == 0,
        patterns::regex_captures(BOLD@, escape::escape(md)).len() == 0,
        patterns::regex_captures(ITALIC@, escape::escape(md)).len() == 0,
        patterns::regex_captures(LINK@, escape::escape(md)).len() == 0,
        patterns::regex_captures(HEADING@, escape::escape(md)).len() == 0,
    ensures
        markdown::telegram_html(md) == escape::escape(md),
{
    let s = escape::escape(md);
    let none = Seq::<patterns::Spans>::empty();
    assert(patterns::regex_captures(CODE_BLOCK@, md) =~= none);
    assert(patterns::regex_captures(INLINE_CODE@, md) =~= none);
    assert(patterns::regex_captures(BOLD@, s) =~= none);
    assert(patterns::regex_captures(ITALIC@, s) =~= none);
    assert(patterns::regex_captures(LINK@, s) =~= none);
    assert(patterns::regex_captures(HEADING@, s) =~= none);
    lemma_nothing_rewritten(md, none, markdown::placeholders(0, 0));
    lemma_nothing_rewritten(s, none, markdown::wrapped(s, none, "<b>"@, "</b>"@));
    lemma_nothing_rewritten(s, none, markdown::italicized(s, none));
    lemma_nothing_rewritten(s, none, markdown::linked(s, none));
}

/// The target of a link, escaped with the text around it, is escaped exactly once in the HTML
/// of the link.
pub proof fn links_are_escaped_once(label: Seq<char>, url: Seq<char>)
    requires
        markdown::allowed_url(url),
    ensures
        markdown::link_html(label, escape::escape(url)) == "<a href=\""@ + escape::escape(url)
            + "\">"@ + label + "</a>"@,
{
    escape::unescape_undoes_escape(url);
}

/// A link with a target of another scheme becomes text: it brings no tag with it.
pub proof fn other_schemes_are_not_linked(label: Seq<char>, target: Seq<char>)
    requires
        !markdown::allowed_url(escape::unescape(target)),
        !label.contains('<'),
    ensures
        markdown::link_html(label, target) == label + " ("@ + escape::escape(
            escape::unescape(target),
        ) + ")"@,
        !markdown::link_html(label, target).contains('<'),
{
    reveal_strlit(" (");
    reveal_strlit(")");
    let url = escape::escape(escape::unescape(target));
    let html = markdown::link_html(label, target);
    escape::escape_leaves_no_markup(escape::unescape(target));
    assert forall|i: int| 0 <= i < html.len() implies html[i] != '<' by {
        let n = label.len() as int;
        let m = url.len() as int;
        if i < n {
            assert(label.contains(html[i]));
        } else if n + 2 <= i < n + 2 + m {
            assert(html[i] == url[i - n - 2]);
        }
    }
}

/// The target of a link of another scheme, escaped with the text around it, stays escaped as it
/// was.
pub proof fn other_targets_stay_escaped(label: Seq<char>, url: Seq<char>)
    requires
        !markdown::allowed_url(url),
    ensures
        markdown::link_html(label, escape::escape(url)) == label + " ("@ + escape::escape(url)
            + ")"@,
{
    escape::unescape_undoes_escape(url);
}

/// Text without special characters is escaped as it is.
pub proof fn lemma_nothing_to_escape(s: Seq<char>)
    requires
        forall|i: int|
            0 <= i < s.len() ==> {
                let c = #[trigger] s[i];
                c != '&' && c != '<' && c != '>' && c != '"' && c != '\''
            },
    ensures
        escape::escape(s) == s,
    decreases s.len(),
{
    if s.len() > 0 {
        let c = s[0];
        assert(c != '&' && c != '<' && c != '>' && c != '"' && c != '\'');
        assert forall|i: int| 0 <= i < s.skip(1).len() implies {
            let d = #[trigger] s.skip(1)[i];
            d != '&' && d != '<' && d != '>' && d != '"' && d != '\''
        } by {
            assert(s.skip(1)[i] == s[i + 1]);
        }
        lemma_nothing_to_escape(s.skip(1));
        assert(s =~= seq![s[0]] + s.skip(1));
    }
}

} // verus!
