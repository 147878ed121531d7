//! HTML entities and plain text replacement.
use vstd::prelude::*;
use vstd::string::*;

use crate::text::chars_of;

verus! {

/// How one character is written in Telegram HTML text.
pub open spec fn escape_char(c: char) -> Seq<char> {
    if c == '&' {
        "&amp;"@
    } else if c == '<' {
        "&lt;"@
    } else if c == '>' {
        "&gt;"@
    } else if c == '"' {
        "&quot;"@
    } else if c == '\'' {
        "&#39;"@
    } else {
        seq![c]
    }
}

/// `s` with every character written as [`escape_char`] says.
pub open spec fn escape(s: Seq<char>) -> Seq<char>
    decreases s.len(),
{
    if s.len() == 0 {
        s
    } else {
        escape_char(s[0]) + escape(s.skip(1))
    }
}

/// True when `s` begins with `prefix`.
pub open spec fn begins_with(s: Seq<char>, prefix: Seq<char>) -> bool {
    prefix.len() <= s.len() && s.take(prefix.len() as int) == prefix
}

/// `s` with the occurrences of `from`, taken from the left and not overlapping, replaced
/// by `to`.
pub open spec fn replaced(s: Seq<char>, from: Seq<char>, to: Seq<char>) -> Seq<char>
    decreases s.len(),
{
    if from.len() == 0 || s.len() < from.len() {
        s
    } else if begins_with(s, from) {
        to + replaced(s.skip(from.len() as int), from, to)
    } else {
        seq![s[0]] + replaced(s.skip(1), from, to)
    }
}

/// The character whose entity stands at the beginning of `s`, if one does.
pub open spec fn leading_entity(s: Seq<char>) -> Option<char> {
    if begins_with(s, escape_char('&')) {
        Some('&')
    } else if begins_with(s, escape_char('<')) {
        Some('<')
    } else if begins_with(s, escape_char('>')) {
        Some('>')
    } else if begins_with(s, escape_char('"')) {
        Some('"')
    } else if begins_with(s, escape_char('\'')) {
        Some('\'')
    } else {
        None
    }
}

/// `s` with the five entities that [`escape`] writes turned back, each of them once: what a
/// turned back ampersand makes of the characters behind it is left as it is.
pub open spec fn unescape(s: Seq<char>) -> Seq<char>
    decreases s.len(),
{
    proof {
        lemma_entities();
    }
    if s.len() == 0 {
        s
    } else {
        match leading_entity(s) {
            Some(c) => seq![c] + unescape(s.skip(escape_char(c).len() as int)),
            None => seq![s[0]] + unescape(s.skip(1)),
        }
    }
}

/// True when the characters of `chars` from `at` on begin with `word`.
pub fn matches_at(chars: &Vec<char>, at: usize, word: &Vec<char>) -> (matched: bool)
    requires
        at <= chars@.len(),
    ensures
        matched == begins_with(chars@.skip(at as int), word@),
{
    if chars.len() - at < word.len() {
        return false;
    }
    let ghost rest = chars@.skip(at as int);
    let mut i: usize = 0;
    while i < word.len()
        invariant
            at <= chars.len(),
            i <= word@.len() <= chars.len() - at,
            rest == chars@.skip(at as int),
            forall|j: int| 0 <= j < i ==> rest[j] == word@[j],
        decreases word@.len() - i,
    {
        if chars[at + i] != word[i] {
            assert(rest.take(word@.len() as int)[i as int] != word@[i as int]);
            return false;
        }
        i = i + 1;
    }
    assert(rest.take(word@.len() as int) =~= word@);
    true
}

/// True when `string` begins with `prefix`.
pub fn starts_with(string: &str, prefix: &str) -> (result: bool)
    ensures
        result == begins_with(string@, prefix@),
{
    let chars = chars_of(string);
    let word = chars_of(prefix);
    assert(string@.skip(0) =~= string@);
    matches_at(&chars, 0, &word)
}

/// Replace every occurrence of `from` in `text` by `to`.
pub fn replace_all(text: &str, from: &str, to: &str) -> (result: String)
    requires
        from@.len() > 0,
    ensures
        result@ == replaced(text@, from@, to@),
{
    let chars = chars_of(text);
    let word = chars_of(from);
    let mut result = String::new();
    let mut at: usize = 0;
    assert(text@.skip(0) =~= text@);
    while at < chars.len()
        invariant
            at <= chars@.len(),
            chars@ == text@,
            word@ == from@,
            from@.len() > 0,
            replaced(text@, from@, to@) == result@ + replaced(text@.skip(at as int), from@, to@),
        decreases chars@.len() - at,
    {
        let ghost rest = text@.skip(at as int);
        let ghost done = result@;
        if matches_at(&chars, at, &word) {
            result.append(to);
            at = at + word.len();
            assert(rest.skip(from@.len() as int) =~= text@.skip(at as int));
        } else {
            result.push(chars[at]);
            at = at + 1;
            assert(rest.skip(1) =~= text@.skip(at as int));
            assert(rest =~= seq![rest[0]] + rest.skip(1));
        }
        assert(replaced(text@, from@, to@) =~= result@ + replaced(
            text@.skip(at as int),
            from@,
            to@,
        ));
    }
    assert(text@.skip(at as int) =~= Seq::<char>::empty());
    assert(result@ + Seq::<char>::empty() =~= result@);
    result
}

/// Escape text for safe inclusion in Telegram HTML.
pub fn html_escape(text: &str) -> (result: String)
    ensures
        result@ == escape(text@),
{
    let chars = chars_of(text);
    let mut result = String::new();
    let mut at: usize = 0;
    assert(text@.skip(0) =~= text@);
    while at < chars.len()
        invariant
            at <= chars@.len(),
            chars@ == text@,
            escape(text@) == result@ + escape(text@.skip(at as int)),
        decreases chars@.len() - at,
    {
        let ghost rest = text@.skip(at as int);
        let ghost done = result@;
        let c = chars[at];
        if c == '&' {
            result.append("&amp;");
        } else if c == '<' {
            result.append("&lt;");
        } else if c == '>' {
            result.append("&gt;");
        } else if c == '"' {
            result.append("&quot;");
        } else if c == '\'' {
            result.append("&#39;");
        } else {
            result.push(c);
        }
        at = at + 1;
        assert(rest.skip(1) =~= text@.skip(at as int));
        assert(result@ =~= done + escape_char(c));
        assert(escape(text@) =~= result@ + escape(text@.skip(at as int)));
    }
    assert(result@ + escape(text@.skip(at as int)) =~= result@);
    result
}

/// The character whose entity stands in `chars` behind the first `at` characters, and the
/// length of that entity.
fn entity_at(chars: &Vec<char>, at: usize) -> (entity: Option<(char, usize)>)
    requires
        at <= chars@.len(),
    ensures
        match entity {
            Some((c, len)) => leading_entity(chars@.skip(at as int)) == Some(c) && len
                == escape_char(c).len() && at + len <= chars@.len(),
            None => leading_entity(chars@.skip(at as int)) is None,
        },
{
    proof {
        lemma_entities();
    }
    if matches_at(chars, at, &chars_of("&amp;")) {
        Some(('&', 5))
    } else if matches_at(chars, at, &chars_of("&lt;")) {
        Some(('<', 4))
    } else if matches_at(chars, at, &chars_of("&gt;")) {
        Some(('>', 4))
    } else if matches_at(chars, at, &chars_of("&quot;")) {
        Some(('"', 6))
    } else if matches_at(chars, at, &chars_of("&#39;")) {
        Some(('\'', 5))
    } else {
        None
    }
}

/// Reverse common HTML entity escapes.
pub fn html_unescape(text: &str) -> (result: String)
    ensures
        result@ == unescape(text@),
{
    let chars = chars_of(text);
    let mut result = String::new();
    let mut at: usize = 0;
    assert(text@.skip(0) =~= text@);
    while at < chars.len()
        invariant
            at <= chars@.len(),
            chars@ == text@,
            unescape(text@) == result@ + unescape(text@.skip(at as int)),
        decreases chars@.len() - at,
    {
        let ghost rest = text@.skip(at as int);
        proof {
            lemma_entities();
        }
        match entity_at(&chars, at) {
            Some((c, len)) => {
                result.push(c);
                at = at + len;
                assert(rest.skip(len as int) =~= text@.skip(at as int));
            },
            None => {
                result.push(chars[at]);
                at = at + 1;
                assert(rest.skip(1) =~= text@.skip(at as int));
            },
        }
        assert(unescape(text@) =~= result@ + unescape(text@.skip(at as int)));
    }
    assert(result@ + unescape(text@.skip(at as int)) =~= result@);
    result
}

/// The literals of [`escape_char`], spelled out.
pub proof fn lemma_entities()
    ensures
        "&amp;"@ == seq!['&', 'a', 'm', 'p', ';'],
        "&lt;"@ == seq!['&', 'l', 't', ';'],
        "&gt;"@ == seq!['&', 'g', 't', ';'],
        "&quot;"@ == seq!['&', 'q', 'u', 'o', 't', ';'],
        "&#39;"@ == seq!['&', '#', '3', '9', ';'],
{
    reveal_strlit("&amp;");
    reveal_strlit("&lt;");
    reveal_strlit("&gt;");
    reveal_strlit("&quot;");
    reveal_strlit("&#39;");
    assert("&amp;"@ =~= seq!['&', 'a', 'm', 'p', ';']);
    assert("&lt;"@ =~= seq!['&', 'l', 't', ';']);
    assert("&gt;"@ =~= seq!['&', 'g', 't', ';']);
    assert("&quot;"@ =~= seq!['&', 'q', 'u', 'o', 't', ';']);
    assert("&#39;"@ =~= seq!['&', '#', '3', '9', ';']);
}

/// Unescaping undoes escaping.
pub proof fn unescape_undoes_escape(s: Seq<char>)
    ensures
        unescape(escape(s)) == s,
    decreases s.len(),
{
    lemma_entities();
    if s.len() > 0 {
        let c = s[0];
        let rest = escape(s.skip(1));
        let w = escape_char(c);
        let t = escape(s);
        unescape_undoes_escape(s.skip(1));
        assert(t == w + rest);
        assert(t.skip(w.len() as int) =~= rest);
        assert(t[0] == w[0]);
        lemma_first_entity(c, rest);
        assert(s =~= seq![c] + s.skip(1));
    }
}

/// Of a text that begins with an escaped character, this character is found.
pub proof fn lemma_first_entity(c: char, rest: Seq<char>)
    ensures
        leading_entity(escape_char(c) + rest) == if escape_char(c) == seq![c] {
            None
        } else {
            Some(c)
        },
{
    lemma_entities();
    let w = escape_char(c);
    let t = w + rest;
    assert(t.take(w.len() as int) =~= w);
    assert forall|d: char| d != c && escape_char(d) != seq![d] implies !begins_with(
        t,
        #[trigger] escape_char(d),
    ) by {
        let e = escape_char(d);
        if begins_with(t, e) {
            assert forall|i: int| 0 <= i < e.len() implies #[trigger] e[i] == t[i] by {
                assert(t.take(e.len() as int)[i] == e[i]);
            }
            assert(e[0] == '&' && t[0] == w[0]);
            if w != seq![c] {
                assert(e[1] == w[1]);
                assert(e[2] == w[2]);
            }
        }
    }
}

/// Escaped text holds no character with a meaning in HTML but the ampersands of its entities.
pub proof fn escape_leaves_no_markup(s: Seq<char>)
    ensures
        forall|i: int|
            0 <= i < escape(s).len() ==> {
                let c = #[trigger] escape(s)[i];
                c != '<' && c != '>' && c != '"' && c != '\''
            },
    decreases s.len(),
{
    if s.len() > 0 {
        lemma_entities();
        escape_leaves_no_markup(s.skip(1));
        let w = escape_char(s[0]);
        let t = escape(s.skip(1));
        assert forall|i: int| 0 <= i < escape(s).len() implies {
            let c = #[trigger] escape(s)[i];
            c != '<' && c != '>' && c != '"' && c != '\''
        } by {
            if i < w.len() {
                assert(escape(s)[i] == w[i]);
            } else {
                assert(escape(s)[i] == t[i - w.len()]);
            }
        }
    }
}

/// Escaping adds no markup: a character that stands in no entity is in the escaped text only if
/// it is in the text, and a number sign that is not in the text stands behind an ampersand.
pub proof fn escape_adds_no_markup(s: Seq<char>, c: char)
    requires
        c == '*' || c == '[' || c == '`' || c == '#',
        !s.contains(c),
    ensures
        forall|i: int|
            0 <= i < escape(s).len() && #[trigger] escape(s)[i] == c ==> c == '#' && i > 0
                && escape(s)[i - 1] == '&',
    decreases s.len(),
{
    if s.len() > 0 {
        lemma_entities();
        let rest = s.skip(1);
        let w = escape_char(s[0]);
        let t = escape(rest);
        assert(s.contains(s[0]));
        assert forall|i: int| 0 <= i < rest.len() implies rest[i] != c by {
            assert(s.contains(s[i + 1]));
        }
        escape_adds_no_markup(rest, c);
        assert forall|i: int| 0 <= i < escape(s).len() && #[trigger] escape(s)[i]
            == c implies c == '#' && i > 0 && escape(s)[i - 1] == '&' by {
            let n = w.len() as int;
            if i < n {
                assert(escape(s)[i] == w[i]);
                assert(i == 1 && escape(s)[0] == w[0]);
            } else {
                assert(escape(s)[i] == t[i - n]);
                assert(escape(s)[i - 1] == t[i - n - 1]);
            }
        }
    }
}

/// Escaping goes character by character: two texts can be escaped apart and joined.
pub proof fn escape_of_concatenation(a: Seq<char>, b: Seq<char>)
    ensures
        escape(a + b) == escape(a) + escape(b),
    decreases a.len(),
{
    if a.len() == 0 {
        assert(a + b =~= b);
        assert(escape(a) + escape(b) =~= escape(b));
    } else {
        assert((a + b).skip(1) =~= a.skip(1) + b);
        escape_of_concatenation(a.skip(1), b);
        assert(escape(a + b) =~= escape(a) + escape(b));
    }
}

} // verus!
