//! Events of the IPC bus.
use vstd::prelude::*;
use vstd::string::*;

use super::requests;
use super::turns;
use super::{chat_for_event, BotView, TelegramBot};
use crate::actions;
use crate::actions::{nothing, Step, StepView};
use crate::format::escape;
use crate::format::escape::starts_with;
use crate::json;
use crate::json::{Json, JsonView};
use crate::text::same;

verus! {

/// What the topics of streamed text begin with.
pub const STREAM_TOPIC: &'static str = "agent.v1.stream";

/// How `bot` takes a piece of an answer for a session. One for an unknown session is passed
/// over.
pub open spec fn on_response(
    bot: BotView,
    session_id: Seq<char>,
    text: Seq<char>,
    is_final: bool,
    now: int,
) -> (BotView, StepView) {
    if !bot.session_to_chat.contains_key(session_id) {
        (bot, actions::done(Seq::empty()))
    } else if is_final {
        turns::on_final(bot, bot.session_to_chat[session_id], text)
    } else {
        turns::on_delta(bot, bot.session_to_chat[session_id], text, now)
    }
}

/// How `bot` answers an event with the payload `payload` on `topic`, at time `now`. The type of
/// the payload decides. Payloads of other types count as streamed text on the topics for it, and
/// are passed over elsewhere.
pub open spec fn on_event(bot: BotView, topic: Seq<char>, payload: JsonView, now: int) -> (
    BotView,
    StepView,
) {
    let kind = json::text_or(payload, "type"@, ""@);
    let session_id = json::text_or(payload, "session_id"@, ""@);
    let text = json::text_or(payload, "text"@, ""@);
    let request_id = json::text_or(payload, "request_id"@, ""@);
    if kind == "agent_response"@ {
        on_response(bot, session_id, text, json::flag(payload, "is_final"@), now)
    } else if kind == "approval_required"@ {
        match chat_for_event(bot.turns) {
            Some(chat_id) => requests::on_approval(
                bot,
                chat_id,
                request_id,
                json::text_or(payload, "action"@, "unknown"@),
                json::text_or(payload, "resource"@, ""@),
                json::text_or(payload, "reason"@, ""@),
            ),
            None => (bot, actions::done(Seq::empty())),
        }
    } else if kind == "elicit_request"@ {
        match chat_for_event(bot.turns) {
            Some(chat_id) => (
                bot,
                requests::on_elicitation(chat_id, request_id, json::member(payload, "field"@)),
            ),
            None => (bot, actions::done(Seq::empty())),
        }
    } else if escape::begins_with(topic, STREAM_TOPIC@) {
        on_response(bot, session_id, text, false, now)
    } else {
        (bot, actions::done(Seq::empty()))
    }
}

impl TelegramBot {
    /// Answer an event of the IPC bus, at time `now`.
    pub fn handle_ipc_event(&mut self, topic: &str, payload: &Json, now: u128) -> (step: Step)
        ensures
            (final(self)@, step@) == on_event(old(self)@, topic@, payload@, now as int),
    {
        let kind = payload.text_or("type", "");
        let request_id = payload.text_or("request_id", "");
        if same(kind, "agent_response") {
            let is_final = payload.flag("is_final");
            self.handle_response(payload, is_final, now)
        } else if same(kind, "approval_required") {
            match self.find_chat_for_event() {
                Some(chat_id) => self.handle_approval_request(
                    chat_id,
                    request_id,
                    payload.text_or("action", "unknown"),
                    payload.text_or("resource", ""),
                    payload.text_or("reason", ""),
                ),
                None => nothing(),
            }
        } else if same(kind, "elicit_request") {
            match self.find_chat_for_event() {
                Some(chat_id) => self.handle_elicitation_request(
                    chat_id,
                    request_id,
                    payload.get("field"),
                ),
                None => nothing(),
            }
        } else if starts_with(topic, STREAM_TOPIC) {
            self.handle_response(payload, false, now)
        } else {
            nothing()
        }
    }

    /// Take a piece of an answer.
    fn handle_response(&mut self, payload: &Json, is_final: bool, now: u128) -> (step: Step)
        ensures
            (final(self)@, step@) == on_response(
                old(self)@,
                json::text_or(payload@, "session_id"@, ""@),
                json::text_or(payload@, "text"@, ""@),
                is_final,
                now as int,
            ),
    {
        let session_id = payload.text_or("session_id", "");
        let text = payload.text_or("text", "");
        let chat_id = match self.session_to_chat.get(session_id) {
            Some(chat_id) => *chat_id,
            None => return nothing(),
        };
        if is_final {
            self.handle_final_response(chat_id, text)
        } else {
            self.handle_stream_delta(chat_id, text, now)
        }
    }
}

} // verus!
