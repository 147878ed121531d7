//! Buttons lead back to the requests that they were made for.
use vstd::prelude::*;

use super::answers;
use super::bus;
use crate::access;
use crate::actions;
use crate::actions::{ActionView, NextView, StepView};
use crate::bot::callbacks;
use crate::bot::requests;
use crate::bot::turns;
use crate::bot::{BotView, PendingApproval, TurnView};
use crate::format::chunks;
use crate::format::escape;
use crate::format::laws;
use crate::format::markdown;
use crate::json::JsonView;
use crate::types::CallbackQuery;

verus! {

/// True when no colon stands in `s`.
pub open spec fn no_colon(s: Seq<char>) -> bool {
    forall|i: int| 0 <= i < s.len() ==> s[i] != ':'
}

/// The first colon stands behind what holds none.
pub proof fn lemma_colon(front: Seq<char>, rest: Seq<char>)
    requires
        no_colon(front),
    ensures
        callbacks::colon(front + seq![':'] + rest) == front.len(),
    decreases front.len(),
{
    let s = front + seq![':'] + rest;
    if front.len() > 0 {
        assert(s[0] == front[0]);
        lemma_colon(front.skip(1), rest);
        assert(s.skip(1) =~= front.skip(1) + seq![':'] + rest);
    }
}

/// The parts that callback data is made of are found in it again, whatever the choice holds.
pub proof fn callback_data_reads_back(kind: Seq<char>, request_id: Seq<char>, choice: Seq<char>)
    requires
        no_colon(kind),
        no_colon(request_id),
    ensures
        callbacks::parts(requests::callback_data(kind, request_id, choice)) == Some(
            (kind, request_id, choice),
        ),
{
    reveal_strlit(":");
    let data = requests::callback_data(kind, request_id, choice);
    let rest = request_id + seq![':'] + choice;
    assert(data =~= kind + seq![':'] + rest);
    lemma_colon(kind, rest);
    lemma_colon(request_id, choice);
    assert(data.skip(kind.len() as int + 1) =~= rest);
    assert(data.take(kind.len() as int) =~= kind);
    assert(rest.take(request_id.len() as int) =~= request_id);
    assert(rest.skip(request_id.len() as int + 1) =~= choice);
}

/// What the press of button `cb` says.
pub open spec fn says(cb: CallbackQuery, data: Seq<char>) -> bool {
    cb.data matches Some(text) && text@ == data
}

/// Of the buttons under a question for an approval, the first that is pressed decides: its
/// decision is published for the one who asked, and all later presses find the question expired.
pub proof fn approvals_are_decided_once(
    bot: BotView,
    chat_id: i64,
    request_id: Seq<char>,
    action: Seq<char>,
    resource: Seq<char>,
    reason: Seq<char>,
    allowed: Seq<i64>,
    first: CallbackQuery,
    i: int,
    second: CallbackQuery,
    j: int,
)
    requires
        no_colon(request_id),
        0 <= i < requests::approval_buttons(request_id).len(),
        0 <= j < requests::approval_buttons(request_id).len(),
        says(first, requests::approval_buttons(request_id)[i].1),
        says(second, requests::approval_buttons(request_id)[j].1),
        access::admits(allowed, Some(first.from.id)),
        access::admits(allowed, Some(second.from.id)),
    ensures
        ({
            let decision = seq!["allow_once"@, "allow_session"@, "deny"@][i];
            let asked = requests::on_approval(
                bot,
                chat_id,
                request_id,
                action,
                resource,
                reason,
            ).0;
            let (decided, step) = callbacks::on_callback(asked, allowed, first);
            &&& step.actions[0] == (ActionView::Publish {
                topic: "astrid.v1.approval.response."@ + request_id,
                fields: seq![
                    ("type"@, "approval_response"@),
                    ("request_id"@, request_id),
                    ("decision"@, decision),
                ],
            })
            &&& callbacks::on_callback(decided, allowed, second) == (
                decided,
                actions::done(seq![actions::answer(second.id@, "Approval expired"@)]),
            )
        }),
{
    reveal_strlit("apr");
    let buttons = requests::approval_buttons(request_id);
    callback_data_reads_back("apr"@, request_id, "allow_once"@);
    callback_data_reads_back("apr"@, request_id, "allow_session"@);
    callback_data_reads_back("apr"@, request_id, "deny"@);
    assert(callbacks::parts(buttons[0].1) == Some(("apr"@, request_id, "allow_once"@)));
    assert(callbacks::parts(buttons[1].1) == Some(("apr"@, request_id, "allow_session"@)));
    assert(callbacks::parts(buttons[2].1) == Some(("apr"@, request_id, "deny"@)));
}

/// The button of an option publishes this option for the one who asked, where the chat has a
/// session.
pub proof fn options_are_selected(
    bot: BotView,
    request_id: Seq<char>,
    options: Seq<Seq<char>>,
    i: int,
    allowed: Seq<i64>,
    cb: CallbackQuery,
)
    requires
        no_colon(request_id),
        0 <= i < options.len(),
        says(cb, requests::option_buttons(request_id, options)[i].1),
        access::admits(allowed, Some(cb.from.id)),
        callbacks::in_session(bot, cb),
    ensures
        callbacks::on_callback(bot, allowed, cb).0 == bot,
        callbacks::on_callback(bot, allowed, cb).1.actions[0] == (ActionView::Publish {
            topic: "astrid.v1.elicit.response."@ + request_id,
            fields: seq![
                ("type"@, "elicit_response"@),
                ("request_id"@, request_id),
                ("value"@, options[i]),
            ],
        }),
{
    reveal_strlit("apr");
    reveal_strlit("eli");
    callback_data_reads_back("eli"@, request_id, options[i]);
    assert("eli"@[0] != "apr"@[0]);
}

/// A question for an approval completes the answer so far in front of it: what streams in
/// later goes into a new message.
pub proof fn questions_close_the_message(
    bot: BotView,
    chat_id: i64,
    request_id: Seq<char>,
    action: Seq<char>,
    resource: Seq<char>,
    reason: Seq<char>,
    text: Seq<char>,
    now: int,
)
    requires
        requests::has_open_text(bot, chat_id),
    ensures
        ({
            let (asked, step) = requests::on_approval(
                bot,
                chat_id,
                request_id,
                action,
                resource,
                reason,
            );
            let (after, shown) = turns::on_delta(asked, chat_id, text, now);
            &&& step.actions.drop_last() == turns::posted(
                chat_id,
                Some(bot.turns[chat_id].msg_id),
                turns::message_texts(bot.turns[chat_id].text_buffer),
            )
            &&& forall|i: int|
                0 <= i < shown.actions.len() ==> #[trigger] shown.actions[i] is SendMessage
        }),
{
    let step = requests::on_approval(bot, chat_id, request_id, action, resource, reason).1;
    assert(step.actions.drop_last() =~= turns::posted(
        chat_id,
        Some(bot.turns[chat_id].msg_id),
        turns::message_texts(bot.turns[chat_id].text_buffer),
    ));
}

/// The question for an approval names the action, the resource and the reason, each escaped, and
/// has a button for each decision, one below the other, that leads back to the request. The
/// request is waited for in that chat. The answer so far is posted in front of the question, where
/// it stands in an open message, and that message is complete then. All else stays.
pub proof fn approvals_are_asked_for(
    bot: BotView,
    chat_id: i64,
    request_id: Seq<char>,
    action: Seq<char>,
    resource: Seq<char>,
    reason: Seq<char>,
)
    ensures
        ({
            let (after, step) = requests::on_approval(
                bot,
                chat_id,
                request_id,
                action,
                resource,
                reason,
            );
            let question = ActionView::SendMessage {
                chat_id,
                text: "Approval needed:\n<b>Action:</b> "@ + escape::escape(action)
                    + "\n<b>Resource:</b> <code>"@ + escape::escape(resource)
                    + "</code>\n<b>Reason:</b> "@ + escape::escape(reason),
                html: true,
                keyboard: Some(
                    seq![
                        seq![("Allow Once"@, "apr:"@ + request_id + ":allow_once"@)],
                        seq![("Allow Session"@, "apr:"@ + request_id + ":allow_session"@)],
                        seq![("Deny"@, "apr:"@ + request_id + ":deny"@)],
                    ],
                ),
            };
            let open = bot.turns.contains_key(chat_id) && bot.turns[chat_id].text_buffer.len() > 0
                && !bot.turns[chat_id].finalized;
            &&& step.actions.len() > 0
            &&& step.actions.last() == question
            &&& after.pending_approvals == bot.pending_approvals.insert(
                request_id,
                PendingApproval { chat_id },
            )
            &&& after.sessions == bot.sessions
            &&& after.session_to_chat == bot.session_to_chat
            &&& open ==> {
                let turn = bot.turns[chat_id];
                &&& after.turns == bot.turns.insert(chat_id, TurnView { finalized: true, ..turn })
                &&& step.next == NextView::NoteFlush { chat_id }
                &&& answers::shown_as(
                    step.actions.drop_last(),
                    chat_id,
                    Some(turn.msg_id),
                    chunks::html_chunks(markdown::telegram_html(turn.text_buffer), 4000),
                )
            }
            &&& !open ==> {
                &&& after.turns == bot.turns
                &&& step.next == NextView::Idle
                &&& step.actions.len() == 1
            }
        }),
{
    reveal_strlit("apr");
    reveal_strlit("apr:");
    reveal_strlit(":");
    reveal_strlit("allow_once");
    reveal_strlit(":allow_once");
    reveal_strlit("allow_session");
    reveal_strlit(":allow_session");
    reveal_strlit("deny");
    reveal_strlit(":deny");
    let r = request_id;
    let buttons = requests::approval_buttons(r);
    assert(buttons[0].1 =~= "apr:"@ + r + ":allow_once"@);
    assert(buttons[1].1 =~= "apr:"@ + r + ":allow_session"@);
    assert(buttons[2].1 =~= "apr:"@ + r + ":deny"@);
    assert(actions::one_per_row(buttons) =~= seq![
        seq![("Allow Once"@, "apr:"@ + r + ":allow_once"@)],
        seq![("Allow Session"@, "apr:"@ + r + ":allow_session"@)],
        seq![("Deny"@, "apr:"@ + r + ":deny"@)],
    ]);
}

/// The strings among the options of a field, in their order.
pub open spec fn strings_of(items: Seq<JsonView>) -> Seq<Seq<char>> {
    items.filter(|item: JsonView| item is Text).map_values(|item: JsonView| item->Text_0)
}

/// The strings are found among the options.
proof fn lemma_strings(items: Seq<JsonView>)
    ensures
        requests::texts(items) == strings_of(items),
    decreases items.len(),
{
    let is_text = |item: JsonView| item is Text;
    reveal(Seq::filter);
    if items.len() == 0 {
        assert(requests::texts(items) =~= strings_of(items));
    } else {
        lemma_strings(items.drop_last());
        let front = items.drop_last().filter(is_text);
        if items.last() is Text {
            assert(items.filter(is_text) == front.push(items.last()));
            assert(strings_of(items) =~= strings_of(items.drop_last()).push(items.last()->Text_0));
        } else {
            assert(items.filter(is_text) == front);
        }
    }
}

/// The question for a value shows the prompt of the field, escaped, whatever the type of the
/// field; without a prompt, it says that input is required. Where the field has options that are strings, it is the prompt alone, with one button
/// for each, one below the other, that leads back to the request. Else it is announced as input
/// that is required, without buttons.
pub proof fn values_are_asked_for(
    chat_id: i64,
    request_id: Seq<char>,
    field: JsonView,
    shown: Seq<char>,
    kind: JsonView,
    items: Seq<JsonView>,
    other: JsonView,
)
    requires
        bus::gives(field, "prompt"@, shown, "Input required"@),
    ensures
        ({
            let step = requests::on_elicitation(chat_id, request_id, Some(field));
            let choices = strings_of(items);
            let offered = bus::has(field, "field_type"@, kind) && bus::has(
                kind,
                "Enum"@,
                JsonView::List(items),
            );
            let bare = StepView {
                actions: seq![
                    ActionView::SendMessage {
                        chat_id,
                        text: "Input required: "@ + escape::escape(shown),
                        html: true,
                        keyboard: None,
                    },
                ],
                next: NextView::Idle,
            };
            &&& offered && choices.len() > 0 ==> step == (StepView {
                actions: seq![
                    ActionView::SendMessage {
                        chat_id,
                        text: escape::escape(shown),
                        html: true,
                        keyboard: Some(
                            Seq::new(
                                choices.len(),
                                |i: int| seq![(choices[i], "eli:"@ + request_id + ":"@ + choices[i])],
                            ),
                        ),
                    },
                ],
                next: NextView::Idle,
            })
            &&& offered && choices.len() == 0 ==> step == bare
            &&& bus::lacks(field, "field_type"@) ==> step == bare
            &&& bus::has(field, "field_type"@, kind) && bus::lacks(kind, "Enum"@) ==> step == bare
            &&& bus::has(field, "field_type"@, kind) && bus::has(kind, "Enum"@, other) && !(
            other is List) ==> step == bare
        }),
{
    reveal_strlit("eli");
    reveal_strlit(":");
    reveal_strlit("eli:");
    bus::strings_are_read(field, "prompt"@, shown, "Input required"@);
    lemma_strings(items);
    if bus::has(field, "field_type"@, kind) {
        bus::lemma_has(field, "field_type"@, kind);
        if bus::has(kind, "Enum"@, JsonView::List(items)) {
            bus::lemma_has(kind, "Enum"@, JsonView::List(items));
            let choices = strings_of(items);
            let buttons = requests::option_buttons(request_id, choices);
            assert forall|i: int| 0 <= i < choices.len() implies buttons[i] == (
                choices[i],
                "eli:"@ + request_id + ":"@ + choices[i],
            ) by {
                assert(buttons[i].1 =~= "eli:"@ + request_id + ":"@ + choices[i]);
            }
            assert(actions::one_per_row(buttons) =~= Seq::new(
                choices.len(),
                |i: int| seq![(choices[i], "eli:"@ + request_id + ":"@ + choices[i])],
            ));
        }
        if bus::has(kind, "Enum"@, other) {
            bus::lemma_has(kind, "Enum"@, other);
        }
        if bus::lacks(kind, "Enum"@) {
            bus::lemma_lacks(kind, "Enum"@);
        }
    }
    if bus::lacks(field, "field_type"@) {
        bus::lemma_lacks(field, "field_type"@);
    }
}

/// A request without a field asks for input without saying which.
pub proof fn missing_fields_ask_for_input(chat_id: i64, request_id: Seq<char>)
    ensures
        requests::on_elicitation(chat_id, request_id, None) == (StepView {
            actions: seq![
                ActionView::SendMessage {
                    chat_id,
                    text: "Input required: Input required"@,
                    html: true,
                    keyboard: None,
                },
            ],
            next: NextView::Idle,
        }),
{
    reveal_strlit("Input required: Input required");
    reveal_strlit("Input required: ");
    reveal_strlit("Input required");
    laws::lemma_nothing_to_escape("Input required"@);
    assert("Input required: "@ + "Input required"@ =~= "Input required: Input required"@);
}

} // verus!
