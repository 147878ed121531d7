//! Who is answered, and what becomes of prompts and commands.
use vstd::prelude::*;

use crate::access;
use crate::actions;
use crate::actions::{ActionView, NextView, Outcome};
use crate::bot::BotView;
use crate::bot::callbacks;
use crate::bot::events;
use crate::bot::messages;
use crate::bot::resume;
use crate::format::escape;
use crate::json::JsonView;
use crate::types::{CallbackQuery, TgMessage};
use crate::words;

verus! {

/// A message of a user who is not allowed changes nothing, and reaches nobody: at most the chat
/// is told that the user is not authorized.
pub proof fn strangers_are_refused(
    bot: BotView,
    allowed: Seq<i64>,
    msg: TgMessage,
    fresh: Seq<char>,
)
    requires
        !access::admits(allowed, messages::sender(msg)),
    ensures
        messages::on_message(bot, allowed, msg, fresh).0 == bot,
        messages::on_message(bot, allowed, msg, fresh).1 == actions::done(
            if msg.text is Some {
                seq![actions::plain(msg.chat.id, "Not authorized."@)]
            } else {
                Seq::empty()
            },
        ),
{
}

/// A button that a user presses who is not allowed changes nothing, and decides nothing: the
/// user is told so.
pub proof fn presses_of_strangers_are_refused(bot: BotView, allowed: Seq<i64>, cb: CallbackQuery)
    requires
        !access::admits(allowed, Some(cb.from.id)),
    ensures
        callbacks::on_callback(bot, allowed, cb).0 == bot,
        callbacks::on_callback(bot, allowed, cb).1 == actions::done(
            seq![actions::answer(cb.id@, "Not authorized"@)],
        ),
{
}

/// True when nothing is published by `list` and nothing is changed in the store.
pub open spec fn only_talk(list: Seq<ActionView>) -> bool {
    forall|i: int|
        0 <= i < list.len() ==> !(#[trigger] list[i] is Publish) && !(list[i] is SaveSession)
            && !(list[i] is DeleteSession)
}

/// While a turn is in progress, a prompt changes nothing and is not passed on.
pub proof fn one_turn_at_a_time(bot: BotView, allowed: Seq<i64>, msg: TgMessage, fresh: Seq<char>)
    requires
        msg.text matches Some(text) && !messages::is_command(text@),
        bot.turns.contains_key(msg.chat.id),
    ensures
        messages::on_message(bot, allowed, msg, fresh).0 == bot,
        only_talk(messages::on_message(bot, allowed, msg, fresh).1.actions),
        messages::on_message(bot, allowed, msg, fresh).1.next == NextView::Idle,
{
}

/// A prompt is published once the message that stands in for the answer was sent, together with
/// the session of its chat.
pub proof fn prompts_are_published(
    bot: BotView,
    allowed: Seq<i64>,
    msg: TgMessage,
    fresh: Seq<char>,
    outcomes: Seq<Outcome>,
    message_id: i64,
    now: int,
)
    requires
        access::admits(allowed, messages::sender(msg)),
        msg.text matches Some(text) && !messages::is_command(text@),
        !bot.turns.contains_key(msg.chat.id),
        resume::last_sent(outcomes) == Some(message_id),
    ensures
        ({
            let (asked, first) = messages::on_message(bot, allowed, msg, fresh);
            let (started, second) = resume::resumed(asked, first.next, outcomes, now);
            &&& asked.sessions.contains_key(msg.chat.id)
            &&& started.turns.contains_key(msg.chat.id)
            &&& second.actions.last() == (ActionView::Publish {
                topic: "user.v1.prompt"@,
                fields: seq![
                    ("type"@, "user_input"@),
                    ("text"@, msg.text->0@),
                    ("session_id"@, asked.sessions[msg.chat.id]),
                ],
            })
        }),
{
}

/// A prompt that does not get through leaves no turn behind: neither when the message that
/// stands in for the answer cannot be sent, nor when the prompt cannot be published.
pub proof fn failed_prompts_leave_no_turn(
    bot: BotView,
    chat_id: i64,
    session_id: Seq<char>,
    prompt: Seq<char>,
    message_id: i64,
    outcomes: Seq<Outcome>,
    now: int,
)
    requires
        !bot.turns.contains_key(chat_id),
        resume::last_failed(outcomes),
    ensures
        ({
            let next = NextView::StartTurn { chat_id, session_id, prompt };
            resume::resumed(bot, next, outcomes, now).0 == bot
        }),
        ({
            let started = BotView {
                turns: bot.turns.insert(chat_id, resume::new_turn(message_id, now)),
                ..bot
            };
            let next = NextView::ConfirmPrompt { chat_id, message_id };
            resume::resumed(started, next, outcomes, now).0 == bot
        }),
{
    let started = BotView {
        turns: bot.turns.insert(chat_id, resume::new_turn(message_id, now)),
        ..bot
    };
    assert(messages::without_turn(started, chat_id) =~= bot);
}

/// After `/reset` a chat has neither session nor turn, and its next prompt starts a session.
pub proof fn reset_starts_fresh(
    bot: BotView,
    chat_id: i64,
    text: Seq<char>,
    prompt: Seq<char>,
    fresh: Seq<char>,
)
    requires
        words::first_word(text) == "/reset"@,
    ensures
        ({
            let after = messages::on_command(bot, chat_id, text).0;
            &&& !after.sessions.contains_key(chat_id)
            &&& !after.turns.contains_key(chat_id)
            &&& messages::on_prompt(after, chat_id, prompt, fresh).0.sessions[chat_id] == fresh
        }),
{
    reveal_strlit("/reset");
    reveal_strlit("/start");
    reveal_strlit("/help");
    assert("/reset"@[1] != "/start"@[1]);
    assert("/reset"@[1] != "/help"@[1]);
}

/// After `/cancel` a chat has no turn, but the session that it had.
pub proof fn cancel_keeps_the_session(bot: BotView, chat_id: i64, text: Seq<char>)
    requires
        words::first_word(text) == "/cancel"@,
    ensures
        ({
            let after = messages::on_command(bot, chat_id, text).0;
            &&& !after.turns.contains_key(chat_id)
            &&& after.sessions == bot.sessions
            &&& after.session_to_chat == bot.session_to_chat
        }),
{
    reveal_strlit("/cancel");
    reveal_strlit("/start");
    reveal_strlit("/help");
    reveal_strlit("/reset");
    assert("/cancel"@[1] != "/start"@[1]);
    assert("/cancel"@[1] != "/help"@[1]);
    assert("/cancel"@[1] != "/reset"@[1]);
}

/// True when all that `list` publishes goes to a topic that the bot answers on: user input, or
/// the answer to one request.
pub open spec fn on_known_topics(list: Seq<ActionView>) -> bool {
    forall|i: int|
        0 <= i < list.len() ==> match #[trigger] list[i] {
            ActionView::Publish { topic, .. } => {
                ||| topic == "user.v1.prompt"@
                ||| escape::begins_with(topic, "astrid.v1.approval.response."@)
                ||| escape::begins_with(topic, "astrid.v1.elicit.response."@)
            },
            _ => true,
        }
}

/// A button publishes nothing but answers to requests.
proof fn lemma_presses_on_known_topics(bot: BotView, allowed: Seq<i64>, cb: CallbackQuery)
    ensures
        on_known_topics(callbacks::on_callback(bot, allowed, cb).1.actions),
{
    if cb.data is Some && callbacks::parts(cb.data->0@) is Some {
        let request_id = (callbacks::parts(cb.data->0@)->0).1;
        let approval = "astrid.v1.approval.response."@;
        let elicit = "astrid.v1.elicit.response."@;
        assert((approval + request_id).take(approval.len() as int) =~= approval);
        assert((elicit + request_id).take(elicit.len() as int) =~= elicit);
    }
}

/// Events of the IPC bus lead to messages and edits, and to nothing else.
pub proof fn events_only_show(bot: BotView, topic: Seq<char>, payload: JsonView, now: int)
    ensures
        ({
            let list = events::on_event(bot, topic, payload, now).1.actions;
            forall|i: int|
                0 <= i < list.len() ==> #[trigger] list[i] is SendMessage || list[i] is EditMessage
        }),
{
}

/// The bot publishes user input and answers to requests, and nothing else.
pub proof fn topics_are_known(
    bot: BotView,
    allowed: Seq<i64>,
    msg: TgMessage,
    fresh: Seq<char>,
    cb: CallbackQuery,
    topic: Seq<char>,
    payload: JsonView,
    next: NextView,
    outcomes: Seq<Outcome>,
    now: int,
)
    ensures
        on_known_topics(messages::on_message(bot, allowed, msg, fresh).1.actions),
        on_known_topics(callbacks::on_callback(bot, allowed, cb).1.actions),
        on_known_topics(events::on_event(bot, topic, payload, now).1.actions),
        on_known_topics(resume::resumed(bot, next, outcomes, now).1.actions),
{
    lemma_presses_on_known_topics(bot, allowed, cb);
    events_only_show(bot, topic, payload, now);
}

} // verus!
