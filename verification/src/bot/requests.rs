//! Requests of the kernel to the user: approvals and elicitations.
use vstd::prelude::*;
use vstd::string::*;

use super::turns;
use super::turns::finalize_turn_text;
use super::{BotView, PendingApproval, TelegramBot, TurnView};
use crate::actions;
use crate::actions::{
    html_message, keyboard_message, nothing, only, push_action, Action, Next, NextView, Step,
    StepView,
};
use crate::format::escape;
use crate::format::html_escape;
use crate::json;
use crate::json::{Json, JsonView};
use crate::text::prefixed;

verus! {

broadcast use vstd::std_specs::hash::group_hash_axioms;

/// The callback data of a button: what it is for, the request and the choice.
pub open spec fn callback_data(kind: Seq<char>, request_id: Seq<char>, choice: Seq<char>) -> Seq<
    char,
> {
    kind + ":"@ + request_id + ":"@ + choice
}

/// The text that asks for an approval.
pub open spec fn approval_text(action: Seq<char>, resource: Seq<char>, reason: Seq<char>) -> Seq<
    char,
> {
    "Approval needed:\n<b>Action:</b> "@ + escape::escape(action)
        + "\n<b>Resource:</b> <code>"@ + escape::escape(resource)
        + "</code>\n<b>Reason:</b> "@ + escape::escape(reason)
}

/// The buttons under the text that asks for an approval.
pub open spec fn approval_buttons(request_id: Seq<char>) -> Seq<(Seq<char>, Seq<char>)> {
    seq![
        ("Allow Once"@, callback_data("apr"@, request_id, "allow_once"@)),
        ("Allow Session"@, callback_data("apr"@, request_id, "allow_session"@)),
        ("Deny"@, callback_data("apr"@, request_id, "deny"@)),
    ]
}

/// True when `chat_id` has a turn whose answer so far stands in an open message.
pub open spec fn has_open_text(bot: BotView, chat_id: i64) -> bool {
    &&& bot.turns.contains_key(chat_id)
    &&& bot.turns[chat_id].text_buffer.len() > 0
    &&& !bot.turns[chat_id].finalized
}

/// How `bot` asks for an approval in `chat_id`: the answer so far is completed in front of the
/// question, and the request is waited for.
pub open spec fn on_approval(
    bot: BotView,
    chat_id: i64,
    request_id: Seq<char>,
    action: Seq<char>,
    resource: Seq<char>,
    reason: Seq<char>,
) -> (BotView, StepView) {
    let question = actions::asking(
        chat_id,
        approval_text(action, resource, reason),
        approval_buttons(request_id),
    );
    let pending_approvals = bot.pending_approvals.insert(request_id, PendingApproval { chat_id });
    if has_open_text(bot, chat_id) {
        let turn = bot.turns[chat_id];
        (
            BotView {
                turns: bot.turns.insert(chat_id, TurnView { finalized: true, ..turn }),
                pending_approvals,
                ..bot
            },
            StepView {
                actions: turns::posted(
                    chat_id,
                    Some(turn.msg_id),
                    turns::message_texts(turn.text_buffer),
                ).push(question),
                next: NextView::NoteFlush { chat_id },
            },
        )
    } else {
        (BotView { pending_approvals, ..bot }, actions::done(seq![question]))
    }
}

/// The member called `name` of a value that may not be there.
pub open spec fn within(value: Option<JsonView>, name: Seq<char>) -> Option<JsonView> {
    match value {
        Some(value) => json::member(value, name),
        None => None,
    }
}

/// The strings among `items`.
pub open spec fn texts(items: Seq<JsonView>) -> Seq<Seq<char>>
    decreases items.len(),
{
    if items.len() == 0 {
        Seq::empty()
    } else {
        match items.last() {
            JsonView::Text(string) => texts(items.drop_last()).push(string),
            _ => texts(items.drop_last()),
        }
    }
}

/// The options of a field of an enumeration type, written `{"Enum": ["one", "two"]}`. Other
/// fields have none.
pub open spec fn options(field: Option<JsonView>) -> Seq<Seq<char>> {
    match within(within(field, "field_type"@), "Enum"@) {
        Some(JsonView::List(items)) => texts(items),
        _ => Seq::empty(),
    }
}

/// The prompt of a field.
pub open spec fn prompt(field: Option<JsonView>) -> Seq<char> {
    match within(field, "prompt"@) {
        Some(JsonView::Text(string)) => string,
        _ => "Input required"@,
    }
}

/// One button for each option.
pub open spec fn option_buttons(request_id: Seq<char>, options: Seq<Seq<char>>) -> Seq<
    (Seq<char>, Seq<char>),
> {
    options.map_values(|option: Seq<char>| (option, callback_data("eli"@, request_id, option)))
}

/// How the bot asks for the value of a field in `chat_id`: with a button for each option where
/// there are any, else with the prompt alone.
pub open spec fn on_elicitation(
    chat_id: i64,
    request_id: Seq<char>,
    field: Option<JsonView>,
) -> StepView {
    let question = escape::escape(prompt(field));
    actions::done(
        seq![
            if options(field).len() > 0 {
                actions::asking(chat_id, question, option_buttons(request_id, options(field)))
            } else {
                actions::html(chat_id, "Input required: "@ + question)
            },
        ],
    )
}

/// The callback data of a button.
fn data_of(kind: &str, request_id: &str, choice: &str) -> (data: String)
    ensures
        data@ == callback_data(kind@, request_id@, choice@),
{
    let mut data = prefixed(kind, ":");
    data.append(request_id);
    data.append(":");
    data.append(choice);
    data
}

/// The buttons under the text that asks for an approval.
fn buttons_for(request_id: &str) -> (buttons: Vec<(String, String)>)
    ensures
        actions::pairs(buttons@) == approval_buttons(request_id@),
{
    let mut buttons: Vec<(String, String)> = Vec::new();
    buttons.push(("Allow Once".to_owned(), data_of("apr", request_id, "allow_once")));
    buttons.push(("Allow Session".to_owned(), data_of("apr", request_id, "allow_session")));
    buttons.push(("Deny".to_owned(), data_of("apr", request_id, "deny")));
    assert(actions::pairs(buttons@) =~= approval_buttons(request_id@));
    buttons
}

/// The strings in the list `items`, as buttons of a request.
fn buttons_of(request_id: &str, items: &Vec<Json>) -> (buttons: Vec<(String, String)>)
    ensures
        actions::pairs(buttons@) == option_buttons(request_id@, texts(json::list_view(items@))),
{
    let ghost all = json::list_view(items@);
    let mut buttons: Vec<(String, String)> = Vec::new();
    let mut i: usize = 0;
    proof {
        json::lemma_list_view(items@);
        assert(all.take(0) =~= Seq::empty());
        assert(actions::pairs(buttons@) =~= option_buttons(request_id@, texts(all.take(0))));
    }
    while i < items.len()
        invariant
            i <= items@.len() == all.len(),
            forall|j: int| 0 <= j < items@.len() ==> #[trigger] all[j] == items@[j]@,
            actions::pairs(buttons@) == option_buttons(request_id@, texts(all.take(i as int))),
        decreases items@.len() - i,
    {
        assert(all.take(i + 1).drop_last() =~= all.take(i as int));
        assert(all.take(i + 1).last() == items@[i as int]@);
        if let Some(option) = items[i].as_str() {
            let ghost before = actions::pairs(buttons@);
            let ghost shown = texts(all.take(i as int));
            buttons.push((option.to_owned(), data_of("eli", request_id, option)));
            assert(actions::pairs(buttons@) =~= before.push(
                (option@, callback_data("eli"@, request_id@, option@)),
            ));
            assert(option_buttons(request_id@, shown.push(option@)) =~= option_buttons(
                request_id@,
                shown,
            ).push((option@, callback_data("eli"@, request_id@, option@))));
        }
        i = i + 1;
    }
    assert(all.take(i as int) =~= all);
    buttons
}

/// The member called `name` of a value that may not be there.
fn get_within<'a>(value: Option<&'a Json>, name: &str) -> (found: Option<&'a Json>)
    ensures
        match found {
            Some(json) => within(json::maybe(value), name@) == Some(json@),
            None => within(json::maybe(value), name@) is None,
        },
{
    match value {
        Some(value) => value.get(name),
        None => None,
    }
}

impl TelegramBot {
    /// Ask for an approval.
    pub fn handle_approval_request(
        &mut self,
        chat_id: i64,
        request_id: &str,
        action: &str,
        resource: &str,
        reason: &str,
    ) -> (step: Step)
        ensures
            (final(self)@, step@) == on_approval(
                old(self)@,
                chat_id,
                request_id@,
                action@,
                resource@,
                reason@,
            ),
    {
        let mut step = nothing();
        if let Some(mut turn) = self.turns.remove(&chat_id) {
            if !turn.text_buffer.as_str().is_empty() && !turn.finalized {
                step.actions = finalize_turn_text(chat_id, &mut turn);
                step.next = Next::NoteFlush { chat_id };
            }
            self.turns.insert(chat_id, turn);
        }
        self.pending_approvals.insert(request_id.to_owned(), PendingApproval { chat_id });
        let mut question = prefixed(
            "Approval needed:\n<b>Action:</b> ",
            html_escape(action).as_str(),
        );
        question.append("\n<b>Resource:</b> <code>");
        question.append(html_escape(resource).as_str());
        question.append("</code>\n<b>Reason:</b> ");
        question.append(html_escape(reason).as_str());
        push_action(
            &mut step.actions,
            keyboard_message(chat_id, question, buttons_for(request_id)),
        );
        proof {
            let (bot, expected) = on_approval(
                old(self)@,
                chat_id,
                request_id@,
                action@,
                resource@,
                reason@,
            );
            assert(self@ =~= bot);
            assert(step@.actions =~= expected.actions);
            assert(step@ =~= expected);
        }
        step
    }

    /// Ask for the value of a field.
    pub fn handle_elicitation_request(
        &self,
        chat_id: i64,
        request_id: &str,
        field: Option<&Json>,
    ) -> (step: Step)
        ensures
            step@ == on_elicitation(chat_id, request_id@, json::maybe(field)),
    {
        let prompt = match get_within(field, "prompt") {
            Some(value) => match value.as_str() {
                Some(string) => string,
                None => "Input required",
            },
            None => "Input required",
        };
        let question = html_escape(prompt);
        if let Some(list) = get_within(get_within(field, "field_type"), "Enum") {
            if let Some(items) = list.as_list() {
                let buttons = buttons_of(request_id, items);
                if buttons.len() > 0 {
                    return only(keyboard_message(chat_id, question, buttons));
                }
            }
        }
        only(html_message(chat_id, prefixed("Input required: ", question.as_str()).as_str()))
    }
}

} // verus!
