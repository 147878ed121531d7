use std::collections::BTreeMap;

use capsule_telegram::actions::{Action, Next, Outcome, Step};
use capsule_telegram::bot::callbacks::split_callback;
use capsule_telegram::bot::TelegramBot;
use capsule_telegram::format::{
    chunk_html, close_open_tags, html_escape, md_to_telegram_html, truncate_for_edit,
};
use capsule_telegram::json::Json;
use capsule_telegram::poll::{AfterPoll, Poller};
use capsule_telegram::session::session_kv_key;
use capsule_telegram::types::{CallbackQuery, TgChat, TgMessage, TgUser, Update};

fn message(chat_id: i64, text: &str) -> TgMessage {
    TgMessage {
        message_id: 1,
        from: Some(TgUser { id: 5, first_name: "Ada".to_string() }),
        chat: TgChat { id: chat_id },
        text: Some(text.to_string()),
    }
}

fn press(chat_id: i64, data: &str) -> CallbackQuery {
    CallbackQuery {
        id: "cb".to_string(),
        from: TgUser { id: 5, first_name: "Ada".to_string() },
        message: Some(message(chat_id, "")),
        data: Some(data.to_string()),
    }
}

fn event(fields: &[(&str, &str)]) -> Json {
    Json::Fields(
        fields.iter().map(|(n, v)| (n.to_string(), Json::Text(v.to_string()))).collect(),
    )
}

/// Does the actions of steps on a store, and numbers the messages that are sent.
struct World {
    bot: TelegramBot,
    store: BTreeMap<String, String>,
    sent: i64,
    done: Vec<Action>,
}

impl World {
    fn new() -> World {
        World { bot: TelegramBot::default(), store: BTreeMap::new(), sent: 0, done: Vec::new() }
    }

    fn carry_out(&mut self, mut step: Step, now: u128) {
        loop {
            let mut outcomes = Vec::new();
            for action in step.actions {
                outcomes.push(match &action {
                    Action::SendMessage { .. } => {
                        self.sent += 1;
                        Outcome::Sent(self.sent)
                    }
                    Action::SaveSession { key, session_id } => {
                        self.store.insert(key.clone(), session_id.clone());
                        Outcome::Done
                    }
                    Action::DeleteSession { key } => {
                        self.store.remove(key);
                        Outcome::Done
                    }
                    _ => Outcome::Done,
                });
                self.done.push(action);
            }
            if step.next == Next::Idle {
                return;
            }
            step = self.bot.resume(step.next, &outcomes, now);
        }
    }

    fn say(&mut self, chat_id: i64, text: &str, now: u128) {
        let step = self.bot.handle_message(&[], &message(chat_id, text));
        self.carry_out(step, now);
    }

    fn tell(&mut self, topic: &str, payload: &Json, now: u128) {
        let step = self.bot.handle_ipc_event(topic, payload, now);
        self.carry_out(step, now);
    }

    fn assert_kept(&self) {
        assert_eq!(self.store.len(), self.bot.sessions.len());
        for (chat_id, id) in &self.bot.sessions {
            assert_eq!(self.store.get(&session_kv_key(*chat_id)), Some(id));
            assert_eq!(self.bot.session_to_chat.get(id), Some(chat_id));
        }
        assert_eq!(self.bot.session_to_chat.len(), self.bot.sessions.len());
    }
}

#[test]
fn the_store_keeps_the_sessions() {
    let mut world = World::new();
    for (chat_id, text) in [(1, "a"), (2, "b"), (1, "c"), (2, "/reset"), (3, "/start"), (2, "d")] {
        world.say(chat_id, text, 0);
        world.assert_kept();
    }
    assert_eq!(world.bot.sessions.len(), 2);
    let entries: Vec<(String, String)> = world.store.clone().into_iter().collect();
    let again = TelegramBot::with_sessions(&entries);
    assert_eq!(again.sessions, world.bot.sessions);
}

#[test]
fn events_and_presses_leave_sessions_alone() {
    let mut world = World::new();
    world.say(1, "a", 0);
    let before = world.bot.sessions.clone();
    let id = before.get(&1).unwrap().clone();
    world.tell("agent.v1.stream.delta", &event(&[("session_id", &id), ("text", "x")]), 0);
    world.tell("astrid.v1.approval", &event(&[("type", "approval_required")]), 0);
    let step = world.bot.handle_callback(&[], &press(1, "apr::deny"));
    world.carry_out(step, 0);
    assert_eq!(world.bot.sessions, before);
    world.assert_kept();
}

#[test]
fn answers_stay_in_their_chat() {
    let mut world = World::new();
    world.say(1, "a", 0);
    world.say(2, "b", 0);
    world.done.clear();
    let id = world.bot.sessions.get(&2).unwrap().clone();
    world.tell("agent.v1.stream.delta", &event(&[("session_id", &id), ("text", "x")]), 1 << 40);
    assert_eq!(world.done.len(), 1);
    assert!(matches!(world.done[0], Action::EditMessage { chat_id: 2, message_id: 2, .. }));
    assert_eq!(world.bot.turns.get(&1).unwrap().text_buffer, "");
    world.say(2, "/reset", 0);
    assert!(world.bot.turns.contains_key(&1));
    assert!(world.bot.sessions.contains_key(&1));
    assert!(!world.bot.turns.contains_key(&2));
}

#[test]
fn only_known_topics_are_published() {
    let mut world = World::new();
    world.say(1, "a", 0);
    world.tell(
        "astrid.v1.approval",
        &event(&[("type", "approval_required"), ("request_id", "r")]),
        0,
    );
    for data in ["apr:r:deny", "eli:q:v", "foo:r:x"] {
        let step = world.bot.handle_callback(&[], &press(1, data));
        world.carry_out(step, 0);
    }
    let topics: Vec<String> = world
        .done
        .iter()
        .filter_map(|action| match action {
            Action::Publish { topic, .. } => Some(topic.clone()),
            _ => None,
        })
        .collect();
    assert_eq!(
        topics,
        vec!["user.v1.prompt", "astrid.v1.approval.response.r", "astrid.v1.elicit.response.q"]
    );
}

#[test]
fn callback_data_is_split_at_two_colons() {
    assert_eq!(
        split_callback("apr:r1:a:b"),
        Some(("apr".to_string(), "r1".to_string(), "a:b".to_string()))
    );
    assert_eq!(
        split_callback("::"),
        Some((String::new(), String::new(), String::new()))
    );
    assert_eq!(split_callback("apr:r1"), None);
    assert_eq!(split_callback(""), None);
}

#[test]
fn escaped_text_holds_no_markup() {
    let escaped = html_escape("<a href=\"x\">&'</a>");
    assert!(!escaped.contains('<') && !escaped.contains('>') && !escaped.contains('"'));
    assert_eq!(escaped, format!("{}{}", html_escape("<a href="), html_escape("\"x\">&'</a>")));
}

#[test]
fn closed_text_begins_with_the_text() {
    for html in ["", "x", "<b>x", "<b><i>x</b>", "<pre><code>"] {
        assert!(close_open_tags(html).starts_with(html));
        assert_eq!(close_open_tags(&close_open_tags(html)), close_open_tags(html));
    }
}

#[test]
fn messages_fit() {
    let md = format!("**{}**\n\n`{}`\n{}", "é".repeat(3000), "c".repeat(900), "x ".repeat(4000));
    let html = md_to_telegram_html(&md);
    for chunk in chunk_html(&html, 4000) {
        assert!(chunk.len() <= 4096, "{}", chunk.len());
    }
    assert!(truncate_for_edit(&html).len() <= 4096);
}

#[test]
fn chunks_are_cut_outside_of_tags_and_entities() {
    let html = format!("{}<b>x</b>{}&amp;{}", "a".repeat(148), "b".repeat(140), "c".repeat(100));
    let chunks = chunk_html(&html, 200);
    assert_eq!(chunks[0], "a".repeat(148));
    assert_eq!(chunks[1], format!("<b>x</b>{}", "b".repeat(140)));
    assert_eq!(chunks[2], format!("&amp;{}", "c".repeat(100)));
    assert_eq!(chunks.len(), 3);
}

#[test]
fn text_without_marks_is_only_escaped() {
    for md in ["", "it's 2 < 3 & \"so\" on", "a_b ](x) > \u{0}CODE\u{0}\nnext line", "é ☃"] {
        assert_eq!(md_to_telegram_html(md), html_escape(md));
    }
    assert_eq!(md_to_telegram_html("it's"), "it&#39;s");
}

#[test]
fn every_bracket_begins_a_supported_tag() {
    let tags = [
        "<b>", "</b>", "<i>", "</i>", "<code>", "</code>", "<pre>", "</pre>", "<a href=\"", "</a>",
    ];
    let md = [
        "# Title with <b> & `code`\n\n**bold *both* <x>** and [a <b>](https://x.y/?a=1&b=<2>)",
        "```rust\nlet x: Vec<u8> = vec![];\n```\n[no](javascript:<script>) ***a*** **b *c** d*",
        "## [l](http://x.y/*a*) `<`\n*i* <u>** **`**`** \u{0}CODE0\u{0} [<](<)",
    ];
    for text in md {
        let html = md_to_telegram_html(text);
        for (at, _) in html.match_indices('<') {
            assert!(tags.iter().any(|tag| html[at..].starts_with(tag)), "{html}");
        }
    }
}

#[test]
fn closing_once_more_changes_nothing() {
    let open = ["", "x", "<b>x", "<B class=\"y\"><I>x</b>", "</i><pre><code_1>", "a > b", "< b>"];
    for html in open {
        let closed = close_open_tags(html);
        assert_eq!(close_open_tags(&closed), closed);
        let longer = format!("{closed} > more & more...");
        assert_eq!(close_open_tags(&longer), longer);
        assert!(closed.len() * 3 <= html.len() * 7);
    }
    assert_eq!(close_open_tags("<Code_1>x"), "<Code_1>x</code_1>");
    assert_eq!(close_open_tags("a > b"), "a > b");
}

#[test]
fn closing_depends_on_names_alone() {
    let open = [
        "<a href=\"https://x.y/é?☃\">x",
        "<é>x <ß_1 b=\"c\">y</é>",
        "<b><a title='日本'>x</b>",
        "<☃>x<i>",
    ];
    for html in open {
        let closed = close_open_tags(html);
        assert_eq!(close_open_tags(&closed), closed);
        assert_eq!(close_open_tags(&format!("{closed}...")), format!("{closed}..."));
        assert_eq!(truncate_for_edit(html), closed);
    }
    assert_eq!(close_open_tags("<é>x"), "<é>x</é>");
    assert_eq!(close_open_tags("<☃>x"), "<☃>x");
    assert_eq!(close_open_tags("<b☃>x"), "<b☃>x</b>");
    let html = "<a h='é'>one</a> <i x='ü'>two".repeat(12);
    for chunk in chunk_html(&html, 70) {
        assert!(chunk.len() <= 70);
        assert_eq!(close_open_tags(&chunk), chunk);
    }
}

#[test]
fn short_tags_are_closed_in_every_chunk() {
    let html = "<b>one</b> <i>two\n\n<code>three four</code> <pre>five".repeat(6);
    for max_len in [60, 75, 120] {
        let chunks = chunk_html(&html, max_len);
        assert!(chunks.len() > 1);
        for chunk in &chunks {
            assert!(chunk.len() <= max_len);
            assert_eq!(&close_open_tags(chunk), chunk);
            assert!(chunk.rfind('<') <= chunk.rfind('>'));
        }
    }
}

#[test]
fn edits_are_closed() {
    let html = format!("<b>{}\n<i>{}", "x".repeat(3000), "y".repeat(3000));
    for text in [html.as_str(), "<b>short", "plain", "<pre><code>"] {
        let shown = truncate_for_edit(text);
        assert_eq!(close_open_tags(&shown), shown);
        assert!(shown.len() <= 4096);
    }
}

#[test]
fn code_is_kept_in_its_place() {
    assert_eq!(
        md_to_telegram_html("`a*b*` ```\nc``` **x `d` y** `e`"),
        "<code>a*b*</code> <pre>c</pre> <b>x <code>d</code> y</b> <code>e</code>"
    );
    assert_eq!(
        md_to_telegram_html("[see `a`](https://x.y/`b`) *`c`* [no `d`](x:`e`)"),
        "<a href=\"https://x.y/<code>b</code>\">see <code>a</code></a> <i><code>c</code></i> \
         no <code>d</code> (x:<code>e</code>)"
    );
    assert_eq!(
        md_to_telegram_html("##\u{a0} `# 1`\nCODE0 `2`CODE3`3`\n```\n# x\n```"),
        "<b><code># 1</code></b>\nCODE0 <code>2</code>CODE3<code>3</code>\n<pre># x\n</pre>"
    );
    let many: String = (0..12).map(|i| format!("`{i}<`\n")).collect();
    let expected: String = (0..12).map(|i| format!("<code>{i}&lt;</code>\n")).collect();
    assert_eq!(md_to_telegram_html(&many), expected);
}

#[test]
fn text_that_reads_as_a_mark_is_taken_for_one() {
    assert_eq!(
        md_to_telegram_html("`a`CODE0`b` ```\nc```"),
        "\u{0}CODE1<pre>c</pre>CODE2\u{0} <pre>c</pre>"
    );
    assert_eq!(md_to_telegram_html("` ```\nx``` `"), "<code> \u{0}CODE0\u{0} </code>");
}

#[test]
fn polls_follow_the_updates() {
    let update = |update_id: i64| Update { update_id, message: None, callback_query: None };
    let mut poller = Poller::start(None);
    assert_eq!((poller.poll().offset, poller.poll().timeout), (0, 1));
    let after = poller.hear(Some(&vec![update(9), update(4)]));
    assert!(matches!(after, AfterPoll::Store { key: "tg.offset", offset: 5 }));
    assert_eq!(poller.poll().offset, 5);
    assert!(matches!(poller.hear(None), AfterPoll::Pause { seconds: 2 }));
    assert_eq!(poller.poll().offset, 5);
    let after = poller.hear(Some(&vec![]));
    assert!(matches!(after, AfterPoll::Store { key: "tg.offset", offset: 5 }));
    let again = Poller::start(Some(5));
    assert_eq!((again.poll().offset, again.poll().timeout), (5, 1));
}
