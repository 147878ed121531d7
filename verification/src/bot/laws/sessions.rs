//! Sessions and chats lead to each other, and chats do not disturb each other.
use vstd::prelude::*;

use crate::actions::{ActionView, NextView, Outcome};
use crate::bot;
use crate::bot::BotView;
use crate::bot::callbacks;
use crate::bot::events;
use crate::bot::messages;
use crate::bot::resume;
use crate::json::JsonView;
use crate::session;
use crate::types::{CallbackQuery, TgMessage};

verus! {

/// True when every session has an ID that its own chat started it with.
pub open spec fn own_ids(sessions: Map<i64, Seq<char>>) -> bool {
    forall|chat_id: i64| #[trigger]
        sessions.contains_key(chat_id) ==> exists|millis: nat|
            sessions[chat_id] == #[trigger] session::session_id(chat_id, millis)
}

/// True when sessions and chats lead to each other, and every session is its chat's own.
pub open spec fn paired(bot: BotView) -> bool {
    bot::inverse(bot.session_to_chat, bot.sessions) && own_ids(bot.sessions)
}

/// Where sessions and chats are paired, the session of a chat leads back to that chat.
pub proof fn sessions_lead_to_their_chats(bot: BotView, chat_id: i64)
    requires
        paired(bot),
        bot.sessions.contains_key(chat_id),
    ensures
        bot.session_to_chat.contains_key(bot.sessions[chat_id]),
        bot.session_to_chat[bot.sessions[chat_id]] == chat_id,
{
    let id = bot.sessions[chat_id];
    let other = bot.session_to_chat[id];
    assert(bot.session_to_chat.contains_key(id));
    assert(bot.sessions.contains_key(other) && bot.sessions[other] == id);
    let m = choose|millis: nat| id == session::session_id(chat_id, millis);
    let n = choose|millis: nat| id == session::session_id(other, millis);
    if other != chat_id {
        session::session_ids_differ(chat_id, m, other, n);
    }
}

/// Sessions and chats are paired in a bot that starts without sessions, and in one that starts
/// from a store where every session is its chat's own.
pub proof fn pairs_hold_from_the_start(bot: BotView, entries: Seq<(Seq<char>, Seq<char>)>)
    requires
        bot.sessions == bot::stored_sessions(entries),
        bot::inverse(bot.session_to_chat, bot.sessions),
        own_ids(bot::stored_sessions(entries)),
    ensures
        paired(bot),
        paired(bot::fresh()),
{
}

/// A command keeps sessions and chats paired.
proof fn lemma_command_keeps_pairs(bot: BotView, chat_id: i64, text: Seq<char>)
    requires
        paired(bot),
    ensures
        paired(messages::on_command(bot, chat_id, text).0),
{
    let after = messages::without_session(bot, chat_id);
    if bot.sessions.contains_key(chat_id) {
        let id = bot.sessions[chat_id];
        assert forall|other: i64| #[trigger]
            after.sessions.contains_key(other) implies after.session_to_chat.contains_key(
            after.sessions[other],
        ) by {
            assert(bot.sessions.contains_key(other));
            if bot.sessions[other] == id {
                sessions_lead_to_their_chats(bot, other);
                sessions_lead_to_their_chats(bot, chat_id);
            }
        }
        assert forall|key: Seq<char>| #[trigger]
            after.session_to_chat.contains_key(key) implies after.sessions.contains_key(
            after.session_to_chat[key],
        ) && after.sessions[after.session_to_chat[key]] == key by {
            assert(bot.session_to_chat.contains_key(key));
        }
        assert(own_ids(after.sessions)) by {
            assert forall|other: i64| #[trigger] after.sessions.contains_key(other) implies exists|
                millis: nat,
            |
                after.sessions[other] == #[trigger] session::session_id(other, millis) by {
                assert(bot.sessions.contains_key(other));
            }
        }
    }
}

/// Messages keep sessions and chats paired, at whatever time new sessions start.
pub proof fn messages_keep_pairs(bot: BotView, allowed: Seq<i64>, msg: TgMessage, millis: nat)
    requires
        paired(bot),
    ensures
        paired(
            messages::on_message(
                bot,
                allowed,
                msg,
                session::session_id(msg.chat.id, millis),
            ).0,
        ),
{
    let chat_id = msg.chat.id;
    let fresh = session::session_id(chat_id, millis);
    if msg.text is Some {
        lemma_command_keeps_pairs(bot, chat_id, msg.text->0@);
        let after = messages::with_session(bot, chat_id, fresh);
        if !bot.sessions.contains_key(chat_id) {
            assert forall|key: Seq<char>| #[trigger]
                after.session_to_chat.contains_key(key) implies after.sessions.contains_key(
                after.session_to_chat[key],
            ) && after.sessions[after.session_to_chat[key]] == key by {
                if key != fresh {
                    assert(bot.session_to_chat.contains_key(key));
                }
            }
            assert forall|other: i64| #[trigger]
                after.sessions.contains_key(other) implies after.session_to_chat.contains_key(
                after.sessions[other],
            ) by {
                if other != chat_id {
                    assert(bot.sessions.contains_key(other));
                }
            }
            assert(own_ids(after.sessions)) by {
                assert forall|other: i64| #[trigger]
                    after.sessions.contains_key(other) implies exists|m: nat|
                    after.sessions[other] == #[trigger] session::session_id(other, m) by {
                    if other != chat_id {
                        assert(bot.sessions.contains_key(other));
                    }
                }
            }
        }
    }
}

/// Nothing but messages changes sessions.
pub proof fn only_messages_change_sessions(
    bot: BotView,
    allowed: Seq<i64>,
    cb: CallbackQuery,
    topic: Seq<char>,
    payload: JsonView,
    next: NextView,
    outcomes: Seq<Outcome>,
    now: int,
)
    ensures
        ({
            let pressed = callbacks::on_callback(bot, allowed, cb).0;
            &&& pressed.sessions == bot.sessions
            &&& pressed.session_to_chat == bot.session_to_chat
        }),
        ({
            let told = events::on_event(bot, topic, payload, now).0;
            &&& told.sessions == bot.sessions
            &&& told.session_to_chat == bot.session_to_chat
        }),
        ({
            let after = resume::resumed(bot, next, outcomes, now).0;
            &&& after.sessions == bot.sessions
            &&& after.session_to_chat == bot.session_to_chat
        }),
{
}

/// The chat that an action is about, if it is about one.
pub open spec fn chat_of(action: ActionView) -> Option<i64> {
    match action {
        ActionView::SendMessage { chat_id, .. } => Some(chat_id),
        ActionView::EditMessage { chat_id, .. } => Some(chat_id),
        ActionView::SendTyping { chat_id } => Some(chat_id),
        _ => None,
    }
}

/// True when `list` shows things to `chat_id` and does nothing else.
pub open spec fn only_shows(list: Seq<ActionView>, chat_id: i64) -> bool {
    forall|i: int| 0 <= i < list.len() ==> chat_of(#[trigger] list[i]) == Some(chat_id)
}

/// True when `a` and `b` hold the same sessions and turns for all chats but `chat_id`.
pub open spec fn same_elsewhere(a: BotView, b: BotView, chat_id: i64) -> bool {
    forall|other: i64|
        #![trigger a.turns.contains_key(other)]
        #![trigger a.sessions.contains_key(other)]
        other != chat_id ==> {
            &&& a.sessions.contains_key(other) == b.sessions.contains_key(other)
            &&& a.sessions.contains_key(other) ==> a.sessions[other] == b.sessions[other]
            &&& a.turns.contains_key(other) == b.turns.contains_key(other)
            &&& a.turns.contains_key(other) ==> a.turns[other] == b.turns[other]
        }
}

/// An answer for the session of a chat is shown in that chat alone, and leaves all other chats
/// as they are.
pub proof fn answers_stay_in_their_chat(
    bot: BotView,
    chat_id: i64,
    text: Seq<char>,
    is_final: bool,
    now: int,
)
    requires
        paired(bot),
        bot.sessions.contains_key(chat_id),
    ensures
        ({
            let (after, step) = events::on_response(
                bot,
                bot.sessions[chat_id],
                text,
                is_final,
                now,
            );
            &&& only_shows(step.actions, chat_id)
            &&& same_elsewhere(bot, after, chat_id)
        }),
{
    sessions_lead_to_their_chats(bot, chat_id);
}

/// A message leaves all chats but its own as they are.
pub proof fn messages_stay_in_their_chat(
    bot: BotView,
    allowed: Seq<i64>,
    msg: TgMessage,
    fresh: Seq<char>,
)
    ensures
        same_elsewhere(bot, messages::on_message(bot, allowed, msg, fresh).0, msg.chat.id),
{
}

} // verus!
