use capsule_telegram::format::boundary::{floor_char_boundary, skip_newlines};
use capsule_telegram::format::escape::replace_all;
use capsule_telegram::format::markdown::{
    italicize_hits, link_hits, make_link, protect, restore, rewrite, wrap_hits,
};
use capsule_telegram::format::tags::{close_tags, read_tags, Tag};
use capsule_telegram::format::{
    chunk_html, close_open_tags, find_safe_html_boundary, find_split_point, html_escape,
    html_unescape, md_to_telegram_html, truncate_for_edit,
};
use regex::Regex;

#[test]
fn escapes_all_five() {
    assert_eq!(html_escape("a&b<c>d\"e'f"), "a&amp;b&lt;c&gt;d&quot;e&#39;f");
    assert_eq!(html_escape(""), "");
    assert_eq!(html_escape("é ☃"), "é ☃");
}

#[test]
fn escaping_twice_shows_the_entities() {
    assert_eq!(html_escape(&html_escape("<")), "&amp;lt;");
}

#[test]
fn unescaping_reverses_one_level() {
    assert_eq!(html_unescape("&amp;lt;"), "&lt;");
    assert_eq!(html_unescape("&quot;&#39;&gt;&nbsp;"), "\"'>&nbsp;");
    assert_eq!(html_unescape("&&lt;&am&amp;p;"), "&<&am&p;");
    for text in ["&lt;", "&amp;lt;", "\"it's\" <b>&amp;</b>", "&#39;&quot", ""] {
        assert_eq!(html_unescape(&html_escape(text)), text);
    }
}

#[test]
fn replacements_do_not_overlap() {
    assert_eq!(replace_all("aaaaa", "aa", "b"), "bba");
    assert_eq!(replace_all("abc", "x", "y"), "abc");
    assert_eq!(replace_all("", "x", "y"), "");
}

#[test]
fn plain_text_is_only_escaped() {
    assert_eq!(md_to_telegram_html("1 < 2 & \"so\" on"), "1 &lt; 2 &amp; &quot;so&quot; on");
    assert_eq!(md_to_telegram_html(""), "");
}

#[test]
fn formats_are_converted() {
    assert_eq!(md_to_telegram_html("**a** and *b*"), "<b>a</b> and <i>b</i>");
    assert_eq!(md_to_telegram_html("# Title\ntext"), "<b>Title</b>\ntext");
    assert_eq!(md_to_telegram_html("###### Six\n####### seven"), "<b>Six</b>\n####### seven");
    assert_eq!(md_to_telegram_html("```rust\nfn f() {}\n```"), "<pre>fn f() {}\n</pre>");
    assert_eq!(md_to_telegram_html("`a<b`"), "<code>a&lt;b</code>");
}

#[test]
fn code_comes_back_in_its_place() {
    assert_eq!(
        md_to_telegram_html("x `*a*` y ```\n**b**\n``` z `c` w"),
        "x <code>*a*</code> y <pre>**b**\n</pre> z <code>c</code> w"
    );
    let many: Vec<String> = (0..12).map(|i| format!("`{i}`")).collect();
    let expected: Vec<String> = (0..12).map(|i| format!("<code>{i}</code>")).collect();
    assert_eq!(md_to_telegram_html(&many.join(" ")), expected.join(" "));
}

#[test]
fn code_inside_formats_is_kept() {
    assert_eq!(md_to_telegram_html("**a `*b*` c**"), "<b>a <code>*b*</code> c</b>");
}

#[test]
fn links_need_a_known_scheme() {
    assert_eq!(
        md_to_telegram_html("[a](tg://user?id=1) [b](mailto:x@y.z) [c](http://h/)"),
        "<a href=\"tg://user?id=1\">a</a> <a href=\"mailto:x@y.z\">b</a> <a href=\"http://h/\">c</a>"
    );
    assert_eq!(md_to_telegram_html("[a](ftp://h)"), "a (ftp://h)");
    assert_eq!(make_link("l", "https://h/?a=1&amp;b=2"), "<a href=\"https://h/?a=1&amp;b=2\">l</a>");
    assert_eq!(make_link("l", "javascript:x"), "l (javascript:x)");
    assert_eq!(make_link("x", "&lt;u&gt;"), "x (&lt;u&gt;)");
    assert_eq!(md_to_telegram_html("[x](<u>) [y](https://h/?a&lt;b)"),
        "x (&lt;u&gt;) <a href=\"https://h/?a&amp;lt;b\">y</a>");
}

fn hits(pattern: &str, text: &str) -> Vec<Vec<Option<(usize, usize)>>> {
    Regex::new(pattern)
        .unwrap()
        .captures_iter(text)
        .map(|c| c.iter().map(|g| g.map(|m| (m.start(), m.end()))).collect())
        .collect()
}

#[test]
fn rewriting_agrees_with_the_regex_crate() {
    let texts = ["", "**a**", "é**ü**ö **x** y", "**a** **b", "x*y*z *p* *q*", "# h\n## *i*"];
    for text in texts {
        let bold = r"\*\*(.+?)\*\*";
        assert_eq!(
            wrap_hits(text, &hits(bold, text), "<b>", "</b>"),
            Regex::new(bold).unwrap().replace_all(text, "<b>$1</b>"),
            "{text:?}"
        );
        let italic = r"([^*]|^)\*([^*]+)\*([^*]|$)";
        assert_eq!(
            italicize_hits(text, &hits(italic, text)),
            Regex::new(italic).unwrap().replace_all(text, "$1<i>$2</i>$3"),
            "{text:?}"
        );
    }
    let text = "see [a](https://h) and [b](x)";
    assert_eq!(
        link_hits(text, &hits(r"\[([^\]]+)\]\(([^)]+)\)", text)),
        "see <a href=\"https://h\">a</a> and b (x)"
    );
    let replacements = vec!["1".to_string(), "2".to_string()];
    assert_eq!(rewrite("a-b-c", &hits("-", "a-b-c"), &replacements), "a1b2c");
}

#[test]
fn regions_are_set_aside_and_restored() {
    let mut regions = vec!["first".to_string()];
    let text = "x `a&b` y `c`";
    let marked = protect(text, &hits(r"`([^`]+)`", text), 1, "<code>", "</code>", &mut regions);
    assert_eq!(marked, "x \u{0}CODE1\u{0} y \u{0}CODE2\u{0}");
    assert_eq!(regions, vec!["first", "<code>a&amp;b</code>", "<code>c</code>"]);
    assert_eq!(restore(marked, &regions), "x <code>a&amp;b</code> y <code>c</code>");
}

#[test]
fn boundaries_avoid_tags_and_entities() {
    assert_eq!(find_safe_html_boundary("abc<b>def", 5), 3);
    assert_eq!(find_safe_html_boundary("abc<b>def", 6), 6);
    assert_eq!(find_safe_html_boundary("ab &amp; cd", 6), 3);
    assert_eq!(find_safe_html_boundary("ab &amp; cd", 8), 8);
    assert_eq!(find_safe_html_boundary("<b", 2), 0);
    assert_eq!(find_safe_html_boundary("aé", 2), 1);
    assert_eq!(find_safe_html_boundary("aé", 100), 3);
    assert_eq!(find_safe_html_boundary("", 10), 0);
}

#[test]
fn character_boundaries_are_floored() {
    let text = "aé☃𝄞z";
    for at in 0..15 {
        let mut expected = at.min(text.len());
        while !text.is_char_boundary(expected) {
            expected -= 1;
        }
        assert_eq!(floor_char_boundary(text, at), expected);
    }
}

#[test]
fn split_points_stand_behind_the_last_delimiter() {
    assert_eq!(find_split_point("a\n\nb\n\nc", 7, "\n\n"), Some(6));
    assert_eq!(find_split_point("a\n\nb\n\nc", 5, "\n\n"), Some(3));
    assert_eq!(find_split_point("é\nb", 3, "\n"), Some(3));
    assert_eq!(find_split_point("abc", 3, "\n"), None);
    assert_eq!(skip_newlines("\n\n a\n"), " a\n");
}

#[test]
fn tags_are_closed_from_the_inside_out() {
    assert_eq!(close_open_tags("<b><i>x</i>"), "<b><i>x</i></b>");
    assert_eq!(close_open_tags("<B>x"), "<B>x</b>");
    assert_eq!(close_open_tags("<b>x</B>"), "<b>x</B>");
    assert_eq!(close_open_tags("</b>x"), "</b>x");
    assert_eq!(close_open_tags("<a href=\"h\">x"), "<a href=\"h\">x</a>");
    assert_eq!(close_open_tags("<b><i></b>x"), "<b><i></b>x</i>");
    assert_eq!(close_open_tags(&close_open_tags("<b><i>x")), "<b><i>x</i></b>");
}

#[test]
fn tags_are_read_and_closed() {
    let html = "<B><i>x</I>";
    let tags = read_tags(html, &hits(r"<(/?)(\w+)[^>]*>", html));
    assert_eq!(tags.len(), 3);
    assert_eq!(tags[0].name, "b");
    assert!(!tags[0].closing);
    assert_eq!(tags[2].name, "i");
    assert!(tags[2].closing);
    assert_eq!(close_tags(html, &tags), "<B><i>x</I></b>");
    let tag = Tag { closing: false, name: "u".to_string() };
    assert_eq!(close_tags("y", &vec![tag]), "y</u>");
}

#[test]
fn truncation_closes_tags() {
    let html = format!("<b>{}</b>", "x".repeat(5000));
    assert_eq!(truncate_for_edit(&html), format!("<b>{}</b>...", "x".repeat(3937)));
    let exact = "y".repeat(4000);
    assert_eq!(truncate_for_edit(&exact), exact);
    assert_eq!(truncate_for_edit(&"y".repeat(4001)), format!("{}...", "y".repeat(3940)));
}

#[test]
fn chunks_prefer_empty_lines() {
    let html = format!("{}\n\n{}\n{}", "a".repeat(60), "b".repeat(60), "c".repeat(100));
    assert_eq!(
        chunk_html(&html, 200),
        vec![
            format!("{}\n\n", "a".repeat(60)),
            format!("{}\n{}", "b".repeat(60), "c".repeat(100)),
        ]
    );
}

#[test]
fn chunks_fall_back_to_lines_and_to_the_limit() {
    let html = format!("{}\n{}", "a".repeat(100), "b".repeat(140));
    assert_eq!(
        chunk_html(&html, 200),
        vec![format!("{}\n", "a".repeat(100)), "b".repeat(140)]
    );
    assert_eq!(
        chunk_html(&"x".repeat(420), 200),
        vec!["x".repeat(150), "x".repeat(150), "x".repeat(120)]
    );
}

#[test]
fn short_limits_leave_no_headroom() {
    assert_eq!(chunk_html("abcdef", 2), vec!["ab", "cd", "ef"]);
    assert_eq!(chunk_html("ab\n\n\ncd", 2), vec!["ab", "cd"]);
    assert_eq!(chunk_html("", 2), vec![""]);
    assert_eq!(chunk_html("éé", 2), vec!["é", "é"]);
}

#[test]
fn chunks_close_their_tags() {
    let html = format!("<b>{}</b>", "x".repeat(300));
    let chunks = chunk_html(&html, 200);
    assert_eq!(chunks[0], format!("<b>{}</b>", "x".repeat(147)));
    assert_eq!(chunks[1], format!("{}</b>", "x".repeat(153)));
    assert_eq!(chunks.len(), 2);
}

#[test]
fn no_limit_means_the_default_limit() {
    let chunks = chunk_html(&"x".repeat(4001), 0);
    assert_eq!(chunks, vec!["x".repeat(3950), "x".repeat(51)]);
    assert_eq!(chunk_html(&"x".repeat(4000), 0).len(), 1);
}

#[test]
fn chunks_lose_only_line_breaks() {
    let html = format!("{}\n\n\n{}\n{}", "a".repeat(90), "b".repeat(90), "c".repeat(90));
    let joined: String = chunk_html(&html, 120).concat();
    let kept: String = joined.chars().filter(|c| *c != '\n').collect();
    let expected: String = html.chars().filter(|c| *c != '\n').collect();
    assert_eq!(kept, expected);
}

#[test]
fn truncation_leaves_room_for_closing_tags() {
    let html = "<b>".repeat(1400);
    let shown = truncate_for_edit(&html);
    assert_eq!(shown, format!("{}{}...", "<b>".repeat(584), "</b>".repeat(584)));
    assert!(shown.len() <= 4096);
    assert_eq!(truncate_for_edit(&format!("<{}", "x".repeat(5000))), "...");
    assert_eq!(
        truncate_for_edit(&format!("<a {}>", "x".repeat(3930)).repeat(2)),
        format!("<a {}></a>...", "x".repeat(3930))
    );
}

#[test]
fn short_edits_are_closed() {
    assert_eq!(truncate_for_edit("<b>hi <i>there"), "<b>hi <i>there</i></b>");
    assert_eq!(truncate_for_edit("<b>hi</b>"), "<b>hi</b>");
    assert_eq!(truncate_for_edit("a <b"), "a <b");
    let shown = truncate_for_edit(&"<b>".repeat(1000));
    assert_eq!(shown, format!("{}{}...", "<b>".repeat(584), "</b>".repeat(584)));
}

#[test]
fn chunks_fit_with_their_closing_tags() {
    for (count, max_len) in [(40, 54), (60, 60), (100, 100), (600, 4000)] {
        let chunks = chunk_html(&"<b>".repeat(count), max_len);
        for chunk in &chunks {
            assert!(chunk.len() <= max_len);
            assert_eq!(&close_open_tags(chunk), chunk);
        }
    }
    assert_eq!(
        chunk_html(&"<b>".repeat(20), 60)[0],
        format!("{}{}", "<b>".repeat(3), "</b>".repeat(3))
    );
}

#[test]
fn the_last_chunk_is_closed() {
    assert_eq!(chunk_html("<b>hi", 100), vec!["<b>hi</b>"]);
    let html = format!("{}\n\n<i>{}", "x".repeat(90), "y".repeat(90));
    assert_eq!(
        chunk_html(&html, 150),
        vec![format!("{}\n\n", "x".repeat(90)), format!("<i>{}</i>", "y".repeat(90))]
    );
}

#[test]
fn line_breaks_inside_tags_are_no_places_to_cut() {
    let html = format!("<b\n>{}", "y".repeat(60));
    let chunks = chunk_html(&html, 60);
    assert_eq!(chunks[0], format!("<b\n>{}</b>", "y".repeat(6)));
}

#[test]
fn safe_cuts_come_before_the_limit() {
    let html = format!("{}<b>x</b>", "a".repeat(28));
    assert_eq!(chunk_html(&html, 30), vec!["a".repeat(28), "<b>x</b>".to_string()]);
    let html = format!("<a {}>x", "h".repeat(50));
    assert_eq!(chunk_html(&html, 54), vec![format!("<a {}>", "h".repeat(50)), "x".to_string()]);
    let html = format!("<a {}>x", "h".repeat(50));
    assert_eq!(chunk_html(&html, 20)[0], format!("<a {}", "h".repeat(17)));
}
