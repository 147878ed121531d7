//! The regular expressions of the markdown and HTML passes, and where they match.
use regex::Regex;
use vstd::prelude::*;

use crate::format::boundary;
use crate::format::tags;
use crate::text;
use crate::text::slice;
use crate::words;

verus! {

/// A fenced code block: the language, then the code.
pub const CODE_BLOCK: &'static str = r"```(\w*)\n?([\s\S]*?)```";

/// Code inside a line.
pub const INLINE_CODE: &'static str = r"`([^`]+)`";

/// Text between double asterisks.
pub const BOLD: &'static str = r"\*\*(.+?)\*\*";

/// Text between single asterisks, with its neighbours on both sides.
pub const ITALIC: &'static str = r"([^*]|^)\*([^*]+)\*([^*]|$)";

/// A link: the label, then the target.
pub const LINK: &'static str = r"\[([^\]]+)\]\(([^)]+)\)";

/// A heading line.
pub const HEADING: &'static str = r"(?m)^#{1,6}\s+(.+)$";

/// An HTML tag: the slash of a closing tag, then the name.
pub const TAG: &'static str = r"<(/?)(\w+)[^>]*>";

/// One match: the byte span of the whole match, followed by those of the groups.
pub type Captures = Vec<Option<(usize, usize)>>;

/// The spans of one match, as [`Captures`] holds them.
pub type Spans = Seq<Option<(usize, usize)>>;

/// The matches of `hits` as sequences.
pub open spec fn spans(hits: Seq<Captures>) -> Seq<Spans> {
    hits.map_values(|hit: Captures| hit@)
}

/// True when `pattern` is one of the patterns above and has `groups` groups, each of which
/// takes part in every match.
pub open spec fn has_groups(pattern: Seq<char>, groups: nat) -> bool {
    ||| pattern == CODE_BLOCK@ && groups == 2
    ||| pattern == INLINE_CODE@ && groups == 1
    ||| pattern == BOLD@ && groups == 1
    ||| pattern == ITALIC@ && groups == 3
    ||| pattern == LINK@ && groups == 2
    ||| pattern == HEADING@ && groups == 1
    ||| pattern == TAG@ && groups == 2
}

/// Where `span` begins.
pub open spec fn span_start(span: Option<(usize, usize)>) -> usize {
    (span->0).0
}

/// Where `span` ends.
pub open spec fn span_end(span: Option<(usize, usize)>) -> usize {
    (span->0).1
}

/// True when `span` holds whole characters of `s` and lies between `from` and `to`.
pub open spec fn span_within(
    s: Seq<char>,
    span: Option<(usize, usize)>,
    from: usize,
    to: usize,
) -> bool {
    span matches Some((start, end)) && from <= start <= end <= to && text::on_boundary(
        s,
        start as int,
    ) && text::on_boundary(s, end as int)
}

/// True when `hit` is a match in `s` whose `groups` groups all took part.
pub open spec fn hit_within(s: Seq<char>, groups: nat, hit: Spans) -> bool {
    &&& hit.len() == groups + 1
    &&& hit[0] is Some
    &&& span_end(hit[0]) <= text::byte_len(s)
    &&& forall|g: int|
        0 <= g <= groups ==> span_within(s, #[trigger] hit[g], span_start(hit[0]), span_end(hit[0]))
}

/// True when `hits` are matches in `s`, from left to right and not overlapping.
pub open spec fn hits_within(s: Seq<char>, groups: nat, hits: Seq<Spans>) -> bool {
    &&& forall|i: int| 0 <= i < hits.len() ==> hit_within(s, groups, #[trigger] hits[i])
    &&& forall|i: int, j: int|
        0 <= i < j < hits.len() ==> span_end((#[trigger] hits[i])[0]) <= span_start(
            (#[trigger] hits[j])[0],
        )
}

/// The text of group `index` of `hit` in `s`.
pub open spec fn group_text(s: Seq<char>, hit: Spans, index: int) -> Seq<char> {
    text::byte_slice(
        s,
        span_start(hit[index]) as int,
        span_end(hit[index]) as int,
    )
}

/// True when a line of `s` begins with a number sign.
pub open spec fn has_heading_line(s: Seq<char>) -> bool {
    exists|i: int| 0 <= i < s.len() && #[trigger] s[i] == '#' && (i == 0 || s[i - 1] == '\n')
}

/// True when `s` holds the markup without which `pattern` does not match.
pub open spec fn has_markup(pattern: Seq<char>, s: Seq<char>) -> bool {
    &&& pattern == CODE_BLOCK@ ==> s.contains('`')
    &&& pattern == INLINE_CODE@ ==> s.contains('`')
    &&& pattern == BOLD@ ==> s.contains('*')
    &&& pattern == ITALIC@ ==> s.contains('*')
    &&& pattern == LINK@ ==> s.contains('[')
    &&& pattern == HEADING@ ==> has_heading_line(s)
    &&& pattern == TAG@ ==> s.contains('<')
}

/// True when the match `hit` of `pattern` in `s` is made of its groups and of the markup that
/// the pattern writes out: backquotes, asterisks, the brackets of a link, or the number signs and
/// the whitespace in front of a heading, which goes on to the end of its line. A tag is made of
/// its groups, a slash or nothing and a name, and of attributes between two brackets, and ends at
/// the first closing bracket.
pub open spec fn made_of(pattern: Seq<char>, s: Seq<char>, hit: Spans) -> bool {
    let whole = group_text(s, hit, 0);
    let one = group_text(s, hit, 1);
    let two = group_text(s, hit, 2);
    let three = group_text(s, hit, 3);
    let rest = text::byte_slice(s, span_end(hit[0]) as int, text::byte_len(s) as int);
    &&& pattern == CODE_BLOCK@ ==> whole.len() > 0 && whole[0] == '`' && whole.last() == '`'
    &&& pattern == INLINE_CODE@ ==> whole == "`"@ + one + "`"@
    &&& pattern == BOLD@ ==> whole == "**"@ + one + "**"@
    &&& pattern == ITALIC@ ==> whole == one + "*"@ + two + "*"@ + three
    &&& pattern == LINK@ ==> whole == "["@ + one + "]("@ + two + ")"@
    &&& pattern == HEADING@ ==> whole.len() > one.len() && whole.skip(whole.len() - one.len())
        == one && heads(whole.take(whole.len() - one.len())) && (rest.len() == 0 || rest[0]
        == '\n')
    &&& pattern == TAG@ ==> whole.len() >= one.len() + two.len() + 2 && whole.take(
        (1 + one.len() + two.len()) as int,
    ) == "<"@ + one + two && ends_tag(whole) && (one == ""@ || one == "/"@) && names(two)
}

/// True when `s` is made of number signs and whitespace, a number sign first.
pub open spec fn heads(s: Seq<char>) -> bool {
    s.len() > 0 && s[0] == '#' && forall|i: int|
        0 <= i < s.len() ==> #[trigger] s[i] == '#' || words::is_white(s[i])
}

/// True of ASCII characters.
pub open spec fn is_ascii_char(c: char) -> bool {
    '\0' <= c <= '\u{7f}'
}

/// True of ASCII letters, digits and underscores.
pub open spec fn is_word_char(c: char) -> bool {
    'a' <= c <= 'z' || 'A' <= c <= 'Z' || '0' <= c <= '9' || c == '_'
}

/// True when `s` can be a name: it is not empty, and what is ASCII in it are letters, digits and
/// underscores.
pub open spec fn names(s: Seq<char>) -> bool {
    s.len() > 0 && forall|i: int|
        0 <= i < s.len() && is_ascii_char(#[trigger] s[i]) ==> is_word_char(s[i])
}

/// True when `s` ends with a `>` and holds no other.
pub open spec fn ends_tag(s: Seq<char>) -> bool {
    s.len() > 0 && s.last() == '>' && !s.drop_last().contains('>')
}

/// The texts of the first two groups of each match.
pub open spec fn groups_of(s: Seq<char>, hits: Seq<Spans>) -> Seq<(Seq<char>, Seq<char>)> {
    hits.map_values(|hit: Spans| (group_text(s, hit, 1), group_text(s, hit, 2)))
}

/// True when `name` is made of ASCII letters, digits and underscores.
pub open spec fn is_word(name: Seq<char>) -> bool {
    name.len() > 0 && forall|i: int| 0 <= i < name.len() ==> is_word_char(#[trigger] name[i])
}

/// True when each of `list` is such a word, or the name of one of the tags that [`TAG`] matches
/// in `s` as `hits`.
pub open spec fn known_names(s: Seq<char>, hits: Seq<Spans>, list: Seq<Seq<char>>) -> bool {
    forall|i: int|
        0 <= i < list.len() ==> is_word(#[trigger] list[i]) || exists|j: int|
            0 <= j < hits.len() && list[i] == group_text(s, #[trigger] hits[j], 2)
}

/// The groups of the closing tags for `names`, the last name first.
pub open spec fn closing_groups(names: Seq<Seq<char>>) -> Seq<(Seq<char>, Seq<char>)>
    decreases names.len(),
{
    if names.len() == 0 {
        Seq::empty()
    } else {
        seq![("/"@, names.last())] + closing_groups(names.drop_last())
    }
}

/// True when [`TAG`], in `s` with the closing tags for `names` and `tail` behind it, matches what
/// it matches in `s` as `hits`, and then each closing tag.
pub open spec fn tags_go_on(
    s: Seq<char>,
    hits: Seq<Spans>,
    names: Seq<Seq<char>>,
    tail: Seq<char>,
) -> bool {
    let longer = s + tags::closers(names) + tail;
    groups_of(longer, regex_captures(TAG@, longer)) == groups_of(s, hits) + closing_groups(names)
}

/// What `Regex::captures_iter` finds for `pattern` in `text`.
pub uninterp spec fn regex_captures(pattern: Seq<char>, text: Seq<char>) -> Seq<
    Seq<Option<(usize, usize)>>,
>;

/// All matches of one of the patterns above, by `regex::Regex::captures_iter`.
///
/// Which matches there are is left to the regex crate: they are a function of the pattern and
/// of the text alone. Claimed of them is that they come from left to right without overlap,
/// that every span holds whole characters, that the spans of the groups lie inside the span
/// of the match, and that all groups of these patterns take part in every match. There is none
/// without the markup of the pattern, and each is made of this markup and of its groups.
///
/// Of [`TAG`] more is claimed: closing tags that are added to a text without an unfinished tag
/// are matched one by one, behind the tags of the text, where their names are names of these tags
/// or made of ASCII letters, digits and underscores. Text without a `<` behind them adds no
/// match. All this holds as long as byte offsets can count the whole.
///
/// All of the patterns compile.
#[verifier::external_body]
pub(crate) fn captures(pattern: &str, string: &str) -> (hits: Vec<Captures>)
    requires
        exists|groups: nat| has_groups(pattern@, groups),
    ensures
        spans(hits@) == regex_captures(pattern@, string@),
        forall|groups: nat| #[trigger]
            has_groups(pattern@, groups) ==> hits_within(string@, groups, spans(hits@)),
        hits@.len() > 0 ==> has_markup(pattern@, string@),
        forall|i: int|
            0 <= i < hits@.len() ==> made_of(pattern@, string@, #[trigger] spans(hits@)[i]),
        pattern@ == TAG@ && !boundary::inside_tag(string@) ==> forall|
            list: Seq<Seq<char>>,
            tail: Seq<char>,
        |
            known_names(string@, spans(hits@), list) && !tail.contains('<') && text::byte_len(
                string@ + tags::closers(list) + tail,
            ) <= usize::MAX ==> #[trigger] tags_go_on(string@, spans(hits@), list, tail),
{
    Regex::new(pattern)
        .expect("invalid regex")
        .captures_iter(string)
        .map(|hit| hit.iter().map(|group| group.map(|m| (m.start(), m.end()))).collect())
        .collect()
}

/// The text of one group of a match.
pub fn group<'a>(string: &'a str, hit: &Captures, index: usize) -> (part: &'a str)
    requires
        index < hit@.len(),
        hit_within(string@, (hit@.len() - 1) as nat, hit@),
    ensures
        part@ == group_text(string@, hit@, index as int),
{
    assert(span_within(
        string@,
        hit@[index as int],
        span_start(hit@[0]),
        span_end(hit@[0]),
    ));
    match hit[index] {
        Some((start, end)) => slice(string, start, end),
        None => "",
    }
}

} // verus!
