//! Presses of inline keyboard buttons.
use vstd::prelude::*;
use vstd::string::*;

use super::{BotView, TelegramBot};
use crate::access;
use crate::access::is_user_allowed;
use crate::actions;
use crate::actions::{
    callback_answer, html_edit, nothing, only, push_action, Action, ActionView, Step, StepView,
};
use crate::text::{chars_of, prefixed, same, string_of};
use crate::types::CallbackQuery;

verus! {

broadcast use vstd::std_specs::hash::group_hash_axioms;

/// The number of characters of `s` in front of the first colon; all of them where there is none.
pub open spec fn colon(s: Seq<char>) -> int
    decreases s.len(),
{
    if s.len() == 0 || s[0] == ':' {
        0
    } else {
        1 + colon(s.skip(1))
    }
}

/// The three parts of callback data: what stands in front of the first colon, between the first
/// two and behind the second.
pub open spec fn parts(data: Seq<char>) -> Option<(Seq<char>, Seq<char>, Seq<char>)> {
    let rest = data.skip(colon(data) + 1);
    if colon(data) < data.len() && colon(rest) < rest.len() {
        Some((data.take(colon(data)), rest.take(colon(rest)), rest.skip(colon(rest) + 1)))
    } else {
        None
    }
}

/// The payload of the answer to a request: its type, the request and what was chosen.
pub open spec fn response_fields(
    kind: Seq<char>,
    request_id: Seq<char>,
    name: Seq<char>,
    choice: Seq<char>,
) -> Seq<(Seq<char>, Seq<char>)> {
    seq![("type"@, kind), ("request_id"@, request_id), (name, choice)]
}

/// How `bot` takes the decision on an approval, made by button `cb`: it is published for the
/// one who asked, and shown in the message with the buttons. A request that is not waited for
/// has expired.
pub open spec fn on_decision(
    bot: BotView,
    cb: CallbackQuery,
    request_id: Seq<char>,
    decision: Seq<char>,
) -> (BotView, StepView) {
    if bot.pending_approvals.contains_key(request_id) {
        let chat_id = bot.pending_approvals[request_id].chat_id;
        let told = seq![
            ActionView::Publish {
                topic: "astrid.v1.approval.response."@ + request_id,
                fields: response_fields(
                    "approval_response"@,
                    request_id,
                    "decision"@,
                    decision,
                ),
            },
            actions::answer(cb.id@, "Approved: "@ + decision),
        ];
        (
            BotView { pending_approvals: bot.pending_approvals.remove(request_id), ..bot },
            actions::done(
                match cb.message {
                    Some(msg) => told.push(
                        actions::edited(
                            chat_id,
                            msg.message_id,
                            "Approval: <b>"@ + decision + "</b>"@,
                        ),
                    ),
                    None => told,
                },
            ),
        )
    } else {
        (bot, actions::done(seq![actions::answer(cb.id@, "Approval expired"@)]))
    }
}

/// The chat with the message that button `cb` belongs to has a session.
pub open spec fn in_session(bot: BotView, cb: CallbackQuery) -> bool {
    cb.message matches Some(msg) && bot.sessions.contains_key(msg.chat.id)
}

/// How `bot` takes the value for a request, chosen by button `cb`: it is published for the one
/// who asked, if the chat has a session.
pub open spec fn on_selection(
    bot: BotView,
    cb: CallbackQuery,
    request_id: Seq<char>,
    value: Seq<char>,
) -> StepView {
    if in_session(bot, cb) {
        actions::done(
            seq![
                ActionView::Publish {
                    topic: "astrid.v1.elicit.response."@ + request_id,
                    fields: response_fields("elicit_response"@, request_id, "value"@, value),
                },
                actions::answer(cb.id@, "Selected: "@ + value),
            ],
        )
    } else {
        actions::done(seq![actions::answer(cb.id@, "No active session"@)])
    }
}

/// How `bot` answers the press of button `cb`. Users who are not allowed are told so. The
/// callback data says what the button is for.
pub open spec fn on_callback(bot: BotView, allowed: Seq<i64>, cb: CallbackQuery) -> (
    BotView,
    StepView,
) {
    let unknown = actions::done(seq![actions::answer(cb.id@, "Unknown action"@)]);
    if !access::admits(allowed, Some(cb.from.id)) {
        (bot, actions::done(seq![actions::answer(cb.id@, "Not authorized"@)]))
    } else {
        match cb.data {
            None => (
                bot,
                actions::done(
                    seq![ActionView::AnswerCallback { callback_id: cb.id@, notice: None }],
                ),
            ),
            Some(data) => match parts(data@) {
                None => (bot, unknown),
                Some((kind, request_id, choice)) => if kind == "apr"@ {
                    on_decision(bot, cb, request_id, choice)
                } else if kind == "eli"@ {
                    (bot, on_selection(bot, cb, request_id, choice))
                } else {
                    (bot, unknown)
                },
            },
        }
    }
}

/// The number of characters from `from` on in front of the first colon there.
fn find_colon(chars: &Vec<char>, from: usize) -> (at: usize)
    requires
        from <= chars@.len(),
    ensures
        from <= at <= chars@.len(),
        at - from == colon(chars@.skip(from as int)),
{
    let ghost s = chars@;
    let mut at: usize = from;
    while at < chars.len() && chars[at] != ':'
        invariant
            from <= at <= chars@.len(),
            chars@ == s,
            colon(s.skip(from as int)) == at - from + colon(s.skip(at as int)),
        decreases chars@.len() - at,
    {
        assert(s.skip(at as int).skip(1) =~= s.skip(at + 1));
        at = at + 1;
    }
    at
}

/// The three parts of callback data.
pub fn split_callback(data: &str) -> (split: Option<(String, String, String)>)
    ensures
        match split {
            Some((kind, request_id, choice)) => parts(data@) == Some(
                (kind@, request_id@, choice@),
            ),
            None => parts(data@) is None,
        },
{
    let chars = chars_of(data);
    let ghost s = data@;
    assert(s.skip(0) =~= s);
    let first = find_colon(&chars, 0);
    if first == chars.len() {
        return None;
    }
    let second = find_colon(&chars, first + 1);
    if second == chars.len() {
        return None;
    }
    proof {
        let rest = s.skip(first + 1);
        assert(s.subrange(0, first as int) =~= s.take(first as int));
        assert(s.subrange(first + 1, second as int) =~= rest.take(second - first - 1));
        assert(s.subrange(second + 1, s.len() as int) =~= rest.skip(second - first));
    }
    Some(
        (
            string_of(&chars, 0, first),
            string_of(&chars, first + 1, second),
            string_of(&chars, second + 1, chars.len()),
        ),
    )
}

/// The message that answers a request on the IPC bus.
fn response(topic: &str, kind: &str, request_id: &str, name: &str, choice: &str) -> (action: Action)
    ensures
        action@ == (ActionView::Publish {
            topic: topic@ + request_id@,
            fields: response_fields(kind@, request_id@, name@, choice@),
        }),
{
    let mut fields: Vec<(String, String)> = Vec::new();
    fields.push(("type".to_owned(), kind.to_owned()));
    fields.push(("request_id".to_owned(), request_id.to_owned()));
    fields.push((name.to_owned(), choice.to_owned()));
    assert(actions::pairs(fields@) =~= response_fields(kind@, request_id@, name@, choice@));
    Action::Publish { topic: prefixed(topic, request_id), fields }
}

impl TelegramBot {
    /// Answer the press of a button.
    pub fn handle_callback(&mut self, allowed_users: &[i64], cb: &CallbackQuery) -> (step: Step)
        ensures
            (final(self)@, step@) == on_callback(old(self)@, allowed_users@, *cb),
    {
        if !is_user_allowed(allowed_users, Some(cb.from.id)) {
            return only(callback_answer(cb.id.as_str(), "Not authorized"));
        }
        let data = match &cb.data {
            Some(data) => data,
            None => {
                return only(Action::AnswerCallback { callback_id: cb.id.clone(), notice: None });
            },
        };
        let (kind, request_id, choice) = match split_callback(data.as_str()) {
            Some(split) => split,
            None => return only(callback_answer(cb.id.as_str(), "Unknown action")),
        };
        if same(kind.as_str(), "apr") {
            self.decide(cb, request_id.as_str(), choice.as_str())
        } else if same(kind.as_str(), "eli") {
            self.select(cb, request_id.as_str(), choice.as_str())
        } else {
            only(callback_answer(cb.id.as_str(), "Unknown action"))
        }
    }

    /// Take the decision on an approval.
    fn decide(&mut self, cb: &CallbackQuery, request_id: &str, decision: &str) -> (step: Step)
        ensures
            (final(self)@, step@) == on_decision(old(self)@, *cb, request_id@, decision@),
    {
        let chat_id = match self.pending_approvals.get(request_id) {
            Some(approval) => approval.chat_id,
            None => return only(callback_answer(cb.id.as_str(), "Approval expired")),
        };
        self.pending_approvals.remove(request_id);
        let mut step = nothing();
        push_action(
            &mut step.actions,
            response(
                "astrid.v1.approval.response.",
                "approval_response",
                request_id,
                "decision",
                decision,
            ),
        );
        push_action(
            &mut step.actions,
            callback_answer(cb.id.as_str(), prefixed("Approved: ", decision).as_str()),
        );
        if let Some(msg) = &cb.message {
            let mut shown = prefixed("Approval: <b>", decision);
            shown.append("</b>");
            push_action(&mut step.actions, html_edit(chat_id, msg.message_id, shown.as_str()));
        }
        proof {
            let (bot, expected) = on_decision(old(self)@, *cb, request_id@, decision@);
            assert(self@ =~= bot);
            assert(step@.actions =~= expected.actions);
        }
        step
    }

    /// Take the value chosen for a request.
    fn select(&self, cb: &CallbackQuery, request_id: &str, value: &str) -> (step: Step)
        ensures
            step@ == on_selection(self@, *cb, request_id@, value@),
    {
        let active = match &cb.message {
            Some(msg) => self.sessions.contains_key(&msg.chat.id),
            None => false,
        };
        if !active {
            return only(callback_answer(cb.id.as_str(), "No active session"));
        }
        let mut step = nothing();
        push_action(
            &mut step.actions,
            response(
                "astrid.v1.elicit.response.",
                "elicit_response",
                request_id,
                "value",
                value,
            ),
        );
        push_action(
            &mut step.actions,
            callback_answer(cb.id.as_str(), prefixed("Selected: ", value).as_str()),
        );
        assert(step@.actions =~= on_selection(self@, *cb, request_id@, value@).actions);
        step
    }
}

} // verus!
