//! What the press of a button leads to, told from its callback data.
use vstd::prelude::*;

use super::questions;
use crate::actions::{ActionView, NextView, StepView};
use crate::bot::callbacks;
use crate::bot::BotView;
use crate::types::CallbackQuery;

verus! {

/// A step that answers a press with `notice`, and is over.
pub open spec fn notes(cb: CallbackQuery, notice: Seq<char>) -> StepView {
    StepView {
        actions: seq![
            ActionView::AnswerCallback { callback_id: cb.id@, notice: Some(notice) },
        ],
        next: NextView::Idle,
    }
}

/// True when the user who pressed the button is on the list, or there is no list.
pub open spec fn welcome(allowed: Seq<i64>, cb: CallbackQuery) -> bool {
    allowed.len() == 0 || exists|i: int| 0 <= i < allowed.len() && allowed[i] == cb.from.id
}

/// A press of a user who is not on the list changes nothing, and is answered so. One without
/// callback data changes nothing, and is answered without a notice.
pub proof fn presses_are_checked(bot: BotView, allowed: Seq<i64>, cb: CallbackQuery)
    ensures
        !welcome(allowed, cb) ==> callbacks::on_callback(bot, allowed, cb) == (
            bot,
            notes(cb, "Not authorized"@),
        ),
        welcome(allowed, cb) && cb.data is None ==> callbacks::on_callback(bot, allowed, cb) == (
            bot,
            StepView {
                actions: seq![ActionView::AnswerCallback { callback_id: cb.id@, notice: None }],
                next: NextView::Idle,
            },
        ),
{
}

/// What stands in front of the first two colons, and behind them, is read.
proof fn lemma_parts(kind: Seq<char>, request_id: Seq<char>, choice: Seq<char>)
    requires
        questions::no_colon(kind),
        questions::no_colon(request_id),
    ensures
        callbacks::parts(kind + seq![':'] + request_id + seq![':'] + choice) == Some(
            (kind, request_id, choice),
        ),
{
    let data = kind + seq![':'] + request_id + seq![':'] + choice;
    let rest = request_id + seq![':'] + choice;
    assert(data =~= kind + seq![':'] + rest);
    questions::lemma_colon(kind, rest);
    questions::lemma_colon(request_id, choice);
    assert(data.skip(kind.len() as int + 1) =~= rest);
    assert(data.take(kind.len() as int) =~= kind);
    assert(rest.take(request_id.len() as int) =~= request_id);
    assert(rest.skip(request_id.len() as int + 1) =~= choice);
}

/// The decision of a button on an approval that is waited for is published for the one who
/// asked, word for word. The press is answered, and the message with the buttons shows the
/// decision in place of the question. The approval is waited for no more, and nothing else
/// changes. Where it is not waited for, the press is answered so, and nothing changes.
pub proof fn decisions_are_published(
    bot: BotView,
    allowed: Seq<i64>,
    cb: CallbackQuery,
    request_id: Seq<char>,
    decision: Seq<char>,
)
    requires
        welcome(allowed, cb),
        questions::no_colon(request_id),
        cb.data matches Some(data) && data@ == "apr"@ + seq![':'] + request_id + seq![':']
            + decision,
    ensures
        ({
            let (after, step) = callbacks::on_callback(bot, allowed, cb);
            let published = ActionView::Publish {
                topic: "astrid.v1.approval.response."@ + request_id,
                fields: seq![
                    ("type"@, "approval_response"@),
                    ("request_id"@, request_id),
                    ("decision"@, decision),
                ],
            };
            let answered = ActionView::AnswerCallback {
                callback_id: cb.id@,
                notice: Some("Approved: "@ + decision),
            };
            &&& step.next == NextView::Idle
            &&& bot.pending_approvals.contains_key(request_id) ==> {
                &&& after.pending_approvals == bot.pending_approvals.remove(request_id)
                &&& after.sessions == bot.sessions
                &&& after.session_to_chat == bot.session_to_chat
                &&& after.turns == bot.turns
                &&& step.actions == match cb.message {
                    Some(msg) => seq![
                        published,
                        answered,
                        ActionView::EditMessage {
                            chat_id: bot.pending_approvals[request_id].chat_id,
                            message_id: msg.message_id,
                            text: "Approval: <b>"@ + decision + "</b>"@,
                            html: true,
                        },
                    ],
                    None => seq![published, answered],
                }
            }
            &&& !bot.pending_approvals.contains_key(request_id) ==> (after, step) == (
                bot,
                notes(cb, "Approval expired"@),
            )
        }),
{
    reveal_strlit("apr");
    lemma_parts("apr"@, request_id, decision);
    let step = callbacks::on_callback(bot, allowed, cb).1;
    if bot.pending_approvals.contains_key(request_id) {
        let published = ActionView::Publish {
            topic: "astrid.v1.approval.response."@ + request_id,
            fields: seq![
                ("type"@, "approval_response"@),
                ("request_id"@, request_id),
                ("decision"@, decision),
            ],
        };
        let answered = ActionView::AnswerCallback {
            callback_id: cb.id@,
            notice: Some("Approved: "@ + decision),
        };
        if let Some(msg) = cb.message {
            assert(step.actions =~= seq![
                published,
                answered,
                ActionView::EditMessage {
                    chat_id: bot.pending_approvals[request_id].chat_id,
                    message_id: msg.message_id,
                    text: "Approval: <b>"@ + decision + "</b>"@,
                    html: true,
                },
            ]);
        }
    }
}

/// The value of a button is published for the one who asked, word for word, where the chat of
/// its message has a session, and the press is answered. Elsewhere the press is answered by the
/// notice that there is no session. The bot stays as it is.
pub proof fn values_are_published(
    bot: BotView,
    allowed: Seq<i64>,
    cb: CallbackQuery,
    request_id: Seq<char>,
    value: Seq<char>,
)
    requires
        welcome(allowed, cb),
        questions::no_colon(request_id),
        cb.data matches Some(data) && data@ == "eli"@ + seq![':'] + request_id + seq![':'] + value,
    ensures
        ({
            let (after, step) = callbacks::on_callback(bot, allowed, cb);
            let active = cb.message matches Some(msg) && bot.sessions.contains_key(msg.chat.id);
            &&& after == bot
            &&& active ==> step == (StepView {
                actions: seq![
                    ActionView::Publish {
                        topic: "astrid.v1.elicit.response."@ + request_id,
                        fields: seq![
                            ("type"@, "elicit_response"@),
                            ("request_id"@, request_id),
                            ("value"@, value),
                        ],
                    },
                    ActionView::AnswerCallback {
                        callback_id: cb.id@,
                        notice: Some("Selected: "@ + value),
                    },
                ],
                next: NextView::Idle,
            })
            &&& !active ==> step == notes(cb, "No active session"@)
        }),
{
    reveal_strlit("eli");
    reveal_strlit("apr");
    assert("eli"@[0] != "apr"@[0]);
    lemma_parts("eli"@, request_id, value);
}

/// Callback data of any other kind, or with less than two colons, changes nothing and is answered
/// as unknown.
pub proof fn other_presses_are_unknown(
    bot: BotView,
    allowed: Seq<i64>,
    cb: CallbackQuery,
    kind: Seq<char>,
    request_id: Seq<char>,
    choice: Seq<char>,
)
    requires
        welcome(allowed, cb),
        questions::no_colon(kind),
        questions::no_colon(request_id),
        cb.data matches Some(data) && {
            ||| data@ == kind
            ||| data@ == kind + seq![':'] + request_id
            ||| kind != "apr"@ && kind != "eli"@ && data@ == kind + seq![':'] + request_id + seq![
                ':',
            ] + choice
        },
    ensures
        callbacks::on_callback(bot, allowed, cb) == (bot, notes(cb, "Unknown action"@)),
{
    let data = cb.data->0@;
    lemma_no_colon(kind);
    lemma_no_colon(request_id);
    if data == kind {
    } else if data == kind + seq![':'] + request_id {
        questions::lemma_colon(kind, request_id);
        assert(data.skip(kind.len() as int + 1) =~= request_id);
    } else {
        lemma_parts(kind, request_id, choice);
    }
}

/// Without a colon, all characters stand in front of the first one.
proof fn lemma_no_colon(s: Seq<char>)
    requires
        questions::no_colon(s),
    ensures
        callbacks::colon(s) == s.len(),
    decreases s.len(),
{
    if s.len() > 0 {
        lemma_no_colon(s.skip(1));
    }
}

} // verus!
