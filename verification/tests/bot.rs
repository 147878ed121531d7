use capsule_telegram::actions::{Action, Next, Outcome, Step};
use capsule_telegram::bot::messages::HELP;
use capsule_telegram::bot::{TelegramBot, EDIT_THROTTLE};
use capsule_telegram::json::Json;
use capsule_telegram::session::session_id_at;
use capsule_telegram::types::{
    offset_after, CallbackQuery, InlineKeyboardButton, InlineKeyboardMarkup, TgChat, TgMessage,
    TgUser, Update,
};

const CHAT: i64 = 77;
const USER: i64 = 5;
const START: u128 = 10_000_000_000;

fn user(id: i64) -> TgUser {
    TgUser { id, first_name: "Ada".to_string() }
}

fn message_from(from: Option<i64>, chat_id: i64, text: Option<&str>) -> TgMessage {
    TgMessage {
        message_id: 1,
        from: from.map(user),
        chat: TgChat { id: chat_id },
        text: text.map(str::to_string),
    }
}

fn message(text: &str) -> TgMessage {
    message_from(Some(USER), CHAT, Some(text))
}

fn press(data: Option<&str>) -> CallbackQuery {
    CallbackQuery {
        id: "cb".to_string(),
        from: user(USER),
        message: Some(TgMessage {
            message_id: 31,
            from: None,
            chat: TgChat { id: CHAT },
            text: None,
        }),
        data: data.map(str::to_string),
    }
}

fn plain(chat_id: i64, text: &str) -> Action {
    Action::SendMessage { chat_id, text: text.to_string(), html: false, keyboard: None }
}

fn html(chat_id: i64, text: &str) -> Action {
    Action::SendMessage { chat_id, text: text.to_string(), html: true, keyboard: None }
}

fn edit(chat_id: i64, message_id: i64, text: &str) -> Action {
    Action::EditMessage { chat_id, message_id, text: text.to_string(), html: true }
}

fn answer(text: &str) -> Action {
    Action::AnswerCallback { callback_id: "cb".to_string(), notice: Some(text.to_string()) }
}

fn publish(topic: &str, fields: &[(&str, &str)]) -> Action {
    Action::Publish {
        topic: topic.to_string(),
        fields: fields.iter().map(|(n, v)| (n.to_string(), v.to_string())).collect(),
    }
}

fn done(actions: Vec<Action>) -> Step {
    Step { actions, next: Next::Idle }
}

fn object(fields: &[(&str, &str)]) -> Json {
    Json::Fields(
        fields.iter().map(|(n, v)| (n.to_string(), Json::Text(v.to_string()))).collect(),
    )
}

fn keyboard(buttons: &[(&str, &str)]) -> Option<InlineKeyboardMarkup> {
    Some(InlineKeyboardMarkup {
        inline_keyboard: buttons
            .iter()
            .map(|(text, data)| {
                vec![InlineKeyboardButton {
                    text: text.to_string(),
                    callback_data: data.to_string(),
                }]
            })
            .collect(),
    })
}

/// A bot with a turn in progress in `CHAT`, its answer in message 20, its session called `s1`.
fn busy_bot() -> TelegramBot {
    let mut bot = TelegramBot::default();
    let step = bot.handle_message_with(&[], &message("hello"), "s1".to_string());
    let step = bot.resume(step.next, &vec![Outcome::Done, Outcome::Sent(20)], START);
    let step = bot.resume(step.next, &vec![Outcome::Done, Outcome::Done], START);
    assert_eq!(step, done(vec![]));
    bot
}

#[test]
fn messages_without_text_are_passed_over() {
    let mut bot = TelegramBot::default();
    let step = bot.handle_message(&[1], &message_from(Some(USER), CHAT, None));
    assert_eq!(step, done(vec![]));
}

#[test]
fn strangers_are_refused() {
    let mut bot = busy_bot();
    for text in ["hi", "/reset", "/help"] {
        let step = bot.handle_message(&[1, 2], &message(text));
        assert_eq!(step, done(vec![plain(CHAT, "Not authorized.")]));
    }
    let step = bot.handle_message(&[1], &message_from(None, CHAT, Some("hi")));
    assert_eq!(step, done(vec![plain(CHAT, "Not authorized.")]));
    let step = bot.handle_callback(&[1], &press(Some("apr:r:deny")));
    assert_eq!(step, done(vec![answer("Not authorized")]));
    assert_eq!(bot.sessions.get(&CHAT), Some(&"s1".to_string()));
    assert!(bot.turns.contains_key(&CHAT));
}

#[test]
fn prompts_start_a_session_and_a_turn() {
    let mut bot = TelegramBot::default();
    let step = bot.handle_message_with(&[USER], &message("hello"), "s1".to_string());
    assert_eq!(
        step,
        Step {
            actions: vec![
                Action::SaveSession {
                    key: "tg.session.77".to_string(),
                    session_id: "s1".to_string()
                },
                plain(CHAT, "Thinking..."),
            ],
            next: Next::StartTurn {
                chat_id: CHAT,
                session_id: "s1".to_string(),
                prompt: "hello".to_string()
            },
        }
    );
    assert!(!bot.turns.contains_key(&CHAT));
    let step = bot.resume(step.next, &vec![Outcome::Failed, Outcome::Sent(20)], START);
    assert_eq!(
        step,
        Step {
            actions: vec![
                Action::SendTyping { chat_id: CHAT },
                publish(
                    "user.v1.prompt",
                    &[("type", "user_input"), ("text", "hello"), ("session_id", "s1")]
                ),
            ],
            next: Next::ConfirmPrompt { chat_id: CHAT, message_id: 20 },
        }
    );
    let turn = bot.turns.get(&CHAT).unwrap();
    assert_eq!(turn.msg_id, 20);
    assert_eq!(turn.text_buffer, "");
    assert_eq!(turn.last_edit, START - EDIT_THROTTLE);
    assert!(!turn.finalized);
    assert_eq!(bot.session_to_chat.get("s1"), Some(&CHAT));
    let step = bot.resume(step.next, &vec![Outcome::Failed, Outcome::Done], START);
    assert_eq!(step, done(vec![]));
    assert!(bot.turns.contains_key(&CHAT));
}

#[test]
fn fresh_sessions_carry_chat_and_time() {
    let mut bot = TelegramBot::default();
    bot.handle_message(&[], &message("hello"));
    assert!(bot.sessions.get(&CHAT).unwrap().starts_with("tg-77-"));
}

#[test]
fn sessions_go_on() {
    let mut bot = busy_bot();
    bot.handle_command(CHAT, "/cancel");
    let step = bot.handle_message_with(&[], &message("again"), "s2".to_string());
    assert_eq!(step.actions, vec![plain(CHAT, "Thinking...")]);
    assert_eq!(
        step.next,
        Next::StartTurn {
            chat_id: CHAT,
            session_id: "s1".to_string(),
            prompt: "again".to_string()
        }
    );
}

#[test]
fn prompts_wait_for_the_turn() {
    let mut bot = busy_bot();
    let step = bot.handle_message(&[], &message("again"));
    assert_eq!(
        step,
        done(vec![plain(CHAT, "A turn is already in progress. Please wait or /cancel.")])
    );
}

#[test]
fn failed_prompts_leave_no_turn() {
    let mut bot = TelegramBot::default();
    let step = bot.handle_message(&[], &message("hello"));
    let step = bot.resume(step.next, &vec![Outcome::Done, Outcome::Failed], START);
    assert_eq!(step, done(vec![]));
    assert!(!bot.turns.contains_key(&CHAT));

    let step = bot.handle_message(&[], &message("hello"));
    let step = bot.resume(step.next, &vec![Outcome::Sent(20)], START);
    let step = bot.resume(step.next, &vec![Outcome::Done, Outcome::Failed], START);
    assert_eq!(
        step,
        done(vec![Action::EditMessage {
            chat_id: CHAT,
            message_id: 20,
            text: "Failed to send message to agent.".to_string(),
            html: false
        }])
    );
    assert!(!bot.turns.contains_key(&CHAT));
}

#[test]
fn help_is_given() {
    let mut bot = TelegramBot::default();
    for text in ["/start", "/help", "/help me"] {
        assert_eq!(bot.handle_message(&[], &message(text)), done(vec![html(CHAT, HELP)]));
    }
    assert_eq!(
        HELP,
        "<b>Astrid Telegram Bot</b>\n\nSend any text message to interact with the agent.\n\n<b>Commands:</b>\n/start — Welcome message\n/help — This help text\n/reset — End session and start fresh\n/cancel — Cancel the current turn"
    );
}

#[test]
fn unknown_commands_are_told_so() {
    let mut bot = busy_bot();
    for text in ["/", "/Start", "/start@bot", "/resett"] {
        assert_eq!(
            bot.handle_message(&[], &message(text)),
            done(vec![plain(CHAT, "Unknown command. Try /help.")])
        );
    }
}

#[test]
fn reset_forgets_session_and_turn() {
    let mut bot = busy_bot();
    assert_eq!(
        bot.handle_message(&[], &message("/reset")),
        done(vec![
            Action::DeleteSession { key: "tg.session.77".to_string() },
            plain(CHAT, "Session reset."),
        ])
    );
    assert!(!bot.sessions.contains_key(&CHAT));
    assert!(!bot.session_to_chat.contains_key("s1"));
    assert!(!bot.turns.contains_key(&CHAT));
    assert_eq!(
        bot.handle_message(&[], &message("/reset")),
        done(vec![plain(CHAT, "Session reset.")])
    );
    bot.handle_message_with(&[], &message("hello"), "s2".to_string());
    assert_eq!(bot.sessions.get(&CHAT), Some(&"s2".to_string()));
}

#[test]
fn cancel_ends_the_turn_alone() {
    let mut bot = busy_bot();
    assert_eq!(
        bot.handle_message(&[], &message("/cancel")),
        done(vec![plain(CHAT, "Turn cancelled.")])
    );
    assert_eq!(bot.sessions.get(&CHAT), Some(&"s1".to_string()));
    assert_eq!(
        bot.handle_message(&[], &message("/cancel")),
        done(vec![plain(CHAT, "No turn in progress.")])
    );
}

#[test]
fn answers_stream_into_the_message() {
    let mut bot = busy_bot();
    let delta = object(&[("type", "agent_response"), ("session_id", "s1"), ("text", "**a** ")]);
    let step = bot.handle_ipc_event("agent.v1.response", &delta, START);
    assert_eq!(
        step,
        Step { actions: vec![edit(CHAT, 20, "<b>a</b> ")], next: Next::NoteEdit { chat_id: CHAT } }
    );
    assert_eq!(bot.resume(step.next, &vec![Outcome::Failed], START + 3), done(vec![]));
    assert_eq!(bot.turns.get(&CHAT).unwrap().last_edit, START + 3);

    let more = object(&[("session_id", "s1"), ("text", "b")]);
    let step = bot.handle_ipc_event("agent.v1.stream.delta", &more, START + 2 + EDIT_THROTTLE);
    assert_eq!(step, done(vec![]));
    assert_eq!(bot.turns.get(&CHAT).unwrap().text_buffer, "**a** b");

    let step = bot.handle_ipc_event("agent.v1.stream.delta", &more, START + 3 + EDIT_THROTTLE);
    assert_eq!(step.actions, vec![edit(CHAT, 20, "<b>a</b> bb")]);
}

#[test]
fn clocks_that_run_backwards_show_nothing() {
    let mut bot = busy_bot();
    assert_eq!(bot.handle_stream_delta(CHAT, "x", 0), done(vec![]));
}

#[test]
fn empty_pieces_and_unknown_sessions_are_passed_over() {
    let mut bot = busy_bot();
    assert_eq!(bot.handle_stream_delta(CHAT, "", START), done(vec![]));
    assert_eq!(bot.handle_stream_delta(78, "x", START), done(vec![]));
    let stray = object(&[("type", "agent_response"), ("session_id", "s9"), ("text", "x")]);
    assert_eq!(bot.handle_ipc_event("agent.v1.response", &stray, START), done(vec![]));
    let other = object(&[("type", "other"), ("session_id", "s1"), ("text", "x")]);
    assert_eq!(bot.handle_ipc_event("astrid.v1.response.x", &other, START), done(vec![]));
    assert_eq!(bot.handle_ipc_event("agent.v1.strea", &other, START), done(vec![]));
    assert_eq!(bot.turns.get(&CHAT).unwrap().text_buffer, "");
    assert_eq!(
        bot.handle_ipc_event("agent.v1.stream", &other, START).actions,
        vec![edit(CHAT, 20, "x")]
    );
}

#[test]
fn long_answers_are_truncated_while_they_stream() {
    let mut bot = busy_bot();
    let step = bot.handle_stream_delta(CHAT, &"x".repeat(5000), START);
    assert_eq!(step.actions, vec![edit(CHAT, 20, &format!("{}...", "x".repeat(3940)))]);
}

fn final_response(text: &str) -> Json {
    Json::Fields(vec![
        ("type".to_string(), Json::Text("agent_response".to_string())),
        ("session_id".to_string(), Json::Text("s1".to_string())),
        ("text".to_string(), Json::Text(text.to_string())),
        ("is_final".to_string(), Json::Bool(true)),
    ])
}

#[test]
fn final_texts_replace_the_message() {
    let mut bot = busy_bot();
    bot.handle_stream_delta(CHAT, "draft", START);
    let step = bot.handle_ipc_event("agent.v1.response", &final_response("*end*"), START);
    assert_eq!(step, done(vec![edit(CHAT, 20, "<i>end</i>")]));
    assert!(!bot.turns.contains_key(&CHAT));
    let step = bot.handle_ipc_event("agent.v1.response", &final_response("again"), START);
    assert_eq!(step, done(vec![]));
}

#[test]
fn streamed_texts_are_posted_in_full() {
    let mut bot = busy_bot();
    bot.handle_stream_delta(CHAT, &"a".repeat(3000), START);
    bot.handle_stream_delta(CHAT, "\n\n", START);
    bot.handle_stream_delta(CHAT, &"b".repeat(3000), START);
    let step = bot.handle_final_response(CHAT, "");
    assert_eq!(
        step,
        done(vec![
            edit(CHAT, 20, &format!("{}\n\n", "a".repeat(3000))),
            html(CHAT, &"b".repeat(3000)),
        ])
    );
}

#[test]
fn empty_answers_end_the_turn_silently() {
    let mut bot = busy_bot();
    assert_eq!(bot.handle_final_response(CHAT, ""), done(vec![]));
    assert!(!bot.turns.contains_key(&CHAT));
}

fn approval(request_id: &str) -> Json {
    object(&[
        ("type", "approval_required"),
        ("request_id", request_id),
        ("action", "run <x>"),
        ("resource", "a&b"),
        ("reason", "it's"),
    ])
}

fn question(request_id: &str, text: &str) -> Action {
    let once = format!("apr:{request_id}:allow_once");
    let session = format!("apr:{request_id}:allow_session");
    let deny = format!("apr:{request_id}:deny");
    Action::SendMessage {
        chat_id: CHAT,
        text: text.to_string(),
        html: true,
        keyboard: keyboard(&[
            ("Allow Once", once.as_str()),
            ("Allow Session", session.as_str()),
            ("Deny", deny.as_str()),
        ]),
    }
}

const QUESTION: &str = "Approval needed:\n<b>Action:</b> run &lt;x&gt;\n<b>Resource:</b> <code>a&amp;b</code>\n<b>Reason:</b> it&#39;s";

#[test]
fn approvals_are_asked_for_and_decided_once() {
    let mut bot = busy_bot();
    let step = bot.handle_ipc_event("astrid.v1.approval", &approval("r1"), START);
    assert_eq!(step, done(vec![question("r1", QUESTION)]));
    assert_eq!(bot.pending_approvals.get("r1").unwrap().chat_id, CHAT);

    let step = bot.handle_callback(&[USER], &press(Some("apr:r1:allow_session")));
    assert_eq!(
        step,
        done(vec![
            publish(
                "astrid.v1.approval.response.r1",
                &[
                    ("type", "approval_response"),
                    ("request_id", "r1"),
                    ("decision", "allow_session")
                ]
            ),
            answer("Approved: allow_session"),
            edit(CHAT, 31, "Approval: <b>allow_session</b>"),
        ])
    );
    let step = bot.handle_callback(&[USER], &press(Some("apr:r1:deny")));
    assert_eq!(step, done(vec![answer("Approval expired")]));
}

#[test]
fn decisions_without_a_message_edit_none() {
    let mut bot = busy_bot();
    bot.handle_approval_request(CHAT, "r1", "a", "b", "c");
    let mut cb = press(Some("apr:r1:deny"));
    cb.message = None;
    assert_eq!(bot.handle_callback(&[], &cb).actions.len(), 2);
}

#[test]
fn approvals_have_defaults() {
    let mut bot = busy_bot();
    let bare = object(&[("type", "approval_required")]);
    let step = bot.handle_ipc_event("astrid.v1.approval", &bare, START);
    assert_eq!(
        step.actions,
        vec![question(
            "",
            "Approval needed:\n<b>Action:</b> unknown\n<b>Resource:</b> <code></code>\n<b>Reason:</b> "
        )]
    );
}

#[test]
fn approvals_close_the_open_message() {
    let mut bot = busy_bot();
    let long = format!("{}\n\n{}", "a".repeat(3000), "b".repeat(3000));
    bot.handle_stream_delta(CHAT, &long, START);
    let step = bot.handle_ipc_event("astrid.v1.approval", &approval("r1"), START);
    assert_eq!(
        step,
        Step {
            actions: vec![
                edit(CHAT, 20, &format!("{}\n\n", "a".repeat(3000))),
                html(CHAT, &"b".repeat(3000)),
                question("r1", QUESTION),
            ],
            next: Next::NoteFlush { chat_id: CHAT },
        }
    );
    let outcomes = vec![Outcome::Done, Outcome::Sent(21), Outcome::Sent(22)];
    assert_eq!(bot.resume(step.next, &outcomes, START), done(vec![]));
    let turn = bot.turns.get(&CHAT).unwrap();
    assert!(turn.finalized);
    assert_eq!(turn.msg_id, 21);

    // A second question finds the message closed.
    let step = bot.handle_ipc_event("astrid.v1.approval", &approval("r2"), START);
    assert_eq!(step, done(vec![question("r2", QUESTION)]));

    // What streams in now goes into a new message.
    let later = START + 2 * EDIT_THROTTLE;
    let step = bot.handle_stream_delta(CHAT, "c", later);
    assert!(matches!(step.actions[0], Action::SendMessage { html: true, .. }));
    assert_eq!(step.next, Next::NoteMessage { chat_id: CHAT });
    bot.resume(Next::NoteMessage { chat_id: CHAT }, &vec![Outcome::Failed], later + 1);
    assert!(bot.turns.get(&CHAT).unwrap().finalized);
    assert_eq!(bot.turns.get(&CHAT).unwrap().last_edit, later + 1);
    bot.resume(Next::NoteMessage { chat_id: CHAT }, &vec![Outcome::Sent(23)], later + 2);
    assert!(!bot.turns.get(&CHAT).unwrap().finalized);
    assert_eq!(bot.turns.get(&CHAT).unwrap().msg_id, 23);
}

#[test]
fn final_texts_after_a_question_are_new_messages() {
    let mut bot = busy_bot();
    bot.handle_stream_delta(CHAT, "draft", START);
    bot.handle_approval_request(CHAT, "r1", "a", "b", "c");
    assert_eq!(bot.handle_final_response(CHAT, "end"), done(vec![html(CHAT, "end")]));
}

#[test]
fn events_without_a_session_need_a_single_turn() {
    let mut bot = TelegramBot::default();
    assert_eq!(bot.find_chat_for_event(), None);
    assert_eq!(bot.handle_ipc_event("astrid.v1.approval", &approval("r"), START), done(vec![]));

    let mut bot = busy_bot();
    assert_eq!(bot.find_chat_for_event(), Some(CHAT));
    let step = bot.handle_message(&[], &message_from(Some(USER), 78, Some("hi")));
    bot.resume(step.next, &vec![Outcome::Done, Outcome::Sent(9)], START);
    assert_eq!(bot.find_chat_for_event(), None);
    assert_eq!(bot.handle_ipc_event("astrid.v1.approval", &approval("r"), START), done(vec![]));
    let elicit = object(&[("type", "elicit_request"), ("request_id", "r")]);
    assert_eq!(bot.handle_ipc_event("astrid.v1.elicit.x", &elicit, START), done(vec![]));
    assert!(bot.pending_approvals.get("r").is_none());
}

fn elicitation(field: Json) -> Json {
    Json::Fields(vec![
        ("type".to_string(), Json::Text("elicit_request".to_string())),
        ("request_id".to_string(), Json::Text("r7".to_string())),
        ("field".to_string(), field),
    ])
}

fn enumeration(options: Vec<Json>) -> Json {
    Json::Fields(vec![
        ("prompt".to_string(), Json::Text("Which <one>?".to_string())),
        (
            "field_type".to_string(),
            Json::Fields(vec![("Enum".to_string(), Json::List(options))]),
        ),
    ])
}

#[test]
fn options_are_shown_and_selected() {
    let mut bot = busy_bot();
    let options = vec![Json::Text("red".to_string()), Json::Number, Json::Text("a:b".to_string())];
    let step = bot.handle_ipc_event("astrid.v1.elicit.r7", &elicitation(enumeration(options)), 0);
    assert_eq!(
        step,
        done(vec![Action::SendMessage {
            chat_id: CHAT,
            text: "Which &lt;one&gt;?".to_string(),
            html: true,
            keyboard: keyboard(&[("red", "eli:r7:red"), ("a:b", "eli:r7:a:b")]),
        }])
    );
    let step = bot.handle_callback(&[], &press(Some("eli:r7:a:b")));
    assert_eq!(
        step,
        done(vec![
            publish(
                "astrid.v1.elicit.response.r7",
                &[("type", "elicit_response"), ("request_id", "r7"), ("value", "a:b")]
            ),
            answer("Selected: a:b"),
        ])
    );
}

#[test]
fn fields_without_options_are_prompted_for() {
    let mut bot = busy_bot();
    let step = bot.handle_ipc_event(
        "astrid.v1.elicit.r7",
        &elicitation(enumeration(vec![Json::Number])),
        0,
    );
    assert_eq!(step, done(vec![html(CHAT, "Input required: Which &lt;one&gt;?")]));
    let step = bot.handle_ipc_event("astrid.v1.elicit.r7", &elicitation(Json::Null), 0);
    assert_eq!(step, done(vec![html(CHAT, "Input required: Input required")]));
    assert_eq!(
        bot.handle_elicitation_request(CHAT, "r7", None),
        done(vec![html(CHAT, "Input required: Input required")])
    );
}

#[test]
fn selections_need_a_session() {
    let mut bot = TelegramBot::default();
    let step = bot.handle_callback(&[], &press(Some("eli:r7:red")));
    assert_eq!(step, done(vec![answer("No active session")]));
    let mut cb = press(Some("eli:r7:red"));
    cb.message = None;
    assert_eq!(busy_bot().handle_callback(&[], &cb), done(vec![answer("No active session")]));
}

#[test]
fn other_presses_are_answered() {
    let mut bot = busy_bot();
    assert_eq!(
        bot.handle_callback(&[], &press(None)),
        done(vec![Action::AnswerCallback { callback_id: "cb".to_string(), notice: None }])
    );
    for data in ["", "apr", "apr:r1", "foo:r1:x", "APR:r1:x"] {
        assert_eq!(
            bot.handle_callback(&[], &press(Some(data))),
            done(vec![answer("Unknown action")])
        );
    }
    assert_eq!(
        bot.handle_callback(&[], &press(Some("apr::"))),
        done(vec![answer("Approval expired")])
    );
}

#[test]
fn stored_sessions_come_back() {
    let entries: Vec<(String, String)> = vec![
        ("tg.session.1".to_string(), session_id_at(1, 10)),
        ("tg.offset".to_string(), "x".to_string()),
        ("tg.session.-2".to_string(), session_id_at(-2, 20)),
        ("tg.session.+1".to_string(), "later".to_string()),
    ];
    let bot = TelegramBot::with_sessions(&entries);
    assert_eq!(bot.sessions.len(), 2);
    assert_eq!(bot.sessions.get(&1), Some(&"later".to_string()));
    assert_eq!(bot.sessions.get(&-2), Some(&session_id_at(-2, 20)));
    assert_eq!(bot.session_to_chat.get("later"), Some(&1));
    assert_eq!(bot.session_to_chat.get("tg--2-14"), Some(&-2));
    assert_eq!(bot.session_to_chat.len(), 2);
    assert!(bot.turns.is_empty());
    assert!(bot.pending_approvals.is_empty());
}

#[test]
fn shared_sessions_lead_to_one_of_their_chats() {
    let entries: Vec<(String, String)> = vec![
        ("tg.session.1".to_string(), "same".to_string()),
        ("tg.session.2".to_string(), "same".to_string()),
    ];
    let bot = TelegramBot::with_sessions(&entries);
    let chat_id = *bot.session_to_chat.get("same").unwrap();
    assert!(chat_id == 1 || chat_id == 2);
}

#[test]
fn turns_of_forgotten_chats_are_not_revived() {
    let mut bot = busy_bot();
    let step = bot.handle_stream_delta(CHAT, "x", START);
    bot.handle_command(CHAT, "/reset");
    assert_eq!(bot.resume(step.next, &vec![Outcome::Done], START), done(vec![]));
    assert!(bot.turns.is_empty());
    assert_eq!(bot.resume(Next::Idle, &vec![], START), done(vec![]));
}

#[test]
fn offsets_acknowledge_updates() {
    let update = Update { update_id: 41, message: None, callback_query: None };
    assert_eq!(update.next_offset(), 42);
    assert_eq!(offset_after(7, &vec![]), 7);
    let earlier = Update { update_id: 99, message: None, callback_query: None };
    assert_eq!(offset_after(7, &vec![earlier, update]), 42);
}
