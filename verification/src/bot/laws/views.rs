//! The model of a value says all that the value holds.
use vstd::prelude::*;

use crate::actions::{Action, ActionView, Next, NextView, Step};
use crate::bot;
use crate::bot::{PendingApproval, TelegramBot, TurnState, TurnView};
use crate::types::InlineKeyboardMarkup;

verus! {

/// An action says in the model what it says.
pub proof fn actions_are_seen(
    chat_id: i64,
    message_id: i64,
    text: String,
    other: String,
    html: bool,
    keyboard: InlineKeyboardMarkup,
    fields: Vec<(String, String)>,
)
    ensures
        (Action::SendMessage { chat_id, text, html, keyboard: None })@ == (
        ActionView::SendMessage { chat_id, text: text@, html, keyboard: None }),
        (Action::SendMessage { chat_id, text, html, keyboard: Some(keyboard) })@ == (
        ActionView::SendMessage {
            chat_id,
            text: text@,
            html,
            keyboard: Some(
                Seq::new(
                    keyboard.inline_keyboard@.len(),
                    |i: int|
                        Seq::new(
                            keyboard.inline_keyboard@[i]@.len(),
                            |j: int|
                                (
                                    keyboard.inline_keyboard@[i]@[j].text@,
                                    keyboard.inline_keyboard@[i]@[j].callback_data@,
                                ),
                        ),
                ),
            ),
        }),
        (Action::EditMessage { chat_id, message_id, text, html })@ == (ActionView::EditMessage {
            chat_id,
            message_id,
            text: text@,
            html,
        }),
        (Action::AnswerCallback { callback_id: text, notice: Some(other) })@ == (
        ActionView::AnswerCallback { callback_id: text@, notice: Some(other@) }),
        (Action::AnswerCallback { callback_id: text, notice: None })@ == (
        ActionView::AnswerCallback { callback_id: text@, notice: None }),
        (Action::SendTyping { chat_id })@ == (ActionView::SendTyping { chat_id }),
        (Action::Publish { topic: text, fields })@ == (ActionView::Publish {
            topic: text@,
            fields: Seq::new(fields@.len(), |i: int| (fields@[i].0@, fields@[i].1@)),
        }),
        (Action::SaveSession { key: text, session_id: other })@ == (ActionView::SaveSession {
            key: text@,
            session_id: other@,
        }),
        (Action::DeleteSession { key: text })@ == (ActionView::DeleteSession { key: text@ }),
{
    let rows = crate::actions::rows(keyboard);
    let expected = Seq::new(
        keyboard.inline_keyboard@.len(),
        |i: int|
            Seq::new(
                keyboard.inline_keyboard@[i]@.len(),
                |j: int|
                    (
                        keyboard.inline_keyboard@[i]@[j].text@,
                        keyboard.inline_keyboard@[i]@[j].callback_data@,
                    ),
            ),
    );
    assert forall|i: int| 0 <= i < rows.len() implies rows[i] == expected[i] by {
        assert(rows[i] =~= expected[i]);
    }
    assert(rows =~= expected);
    assert(crate::actions::pairs(fields@) =~= Seq::new(
        fields@.len(),
        |i: int| (fields@[i].0@, fields@[i].1@),
    ));
}

/// A step says in the model what it says.
pub proof fn steps_are_seen(
    step: Step,
    chat_id: i64,
    message_id: i64,
    session_id: String,
    prompt: String,
)
    ensures
        step@.actions.len() == step.actions@.len(),
        forall|i: int|
            0 <= i < step.actions@.len() ==> #[trigger] step@.actions[i] == step.actions@[i]@,
        step@.next == step.next@,
        Next::Idle@ == NextView::Idle,
        (Next::StartTurn { chat_id, session_id, prompt })@ == (NextView::StartTurn {
            chat_id,
            session_id: session_id@,
            prompt: prompt@,
        }),
        (Next::ConfirmPrompt { chat_id, message_id })@ == (NextView::ConfirmPrompt {
            chat_id,
            message_id,
        }),
        (Next::NoteEdit { chat_id })@ == (NextView::NoteEdit { chat_id }),
        (Next::NoteMessage { chat_id })@ == (NextView::NoteMessage { chat_id }),
        (Next::NoteFlush { chat_id })@ == (NextView::NoteFlush { chat_id }),
{
}

/// A bot keeps in the model what it keeps. A new one keeps nothing.
pub proof fn bots_are_seen(telegram: TelegramBot, turn: TurnState, chat_id: i64)
    ensures
        turn@.msg_id == turn.msg_id,
        turn@.text_buffer == turn.text_buffer@,
        turn@.last_edit == turn.last_edit,
        turn@.finalized == turn.finalized,
        telegram@.sessions.contains_key(chat_id) == telegram.sessions@.contains_key(chat_id),
        telegram.sessions@.contains_key(chat_id) ==> telegram@.sessions[chat_id]
            == telegram.sessions@[chat_id]@,
        telegram@.turns.contains_key(chat_id) == telegram.turns@.contains_key(chat_id),
        telegram.turns@.contains_key(chat_id) ==> telegram@.turns[chat_id] == telegram.turns@[chat_id]@,
        telegram@.session_to_chat == telegram.session_to_chat@,
        telegram@.pending_approvals == telegram.pending_approvals@,
        bot::fresh().sessions == Map::<i64, Seq<char>>::empty(),
        bot::fresh().session_to_chat == Map::<Seq<char>, i64>::empty(),
        bot::fresh().turns == Map::<i64, TurnView>::empty(),
        bot::fresh().pending_approvals == Map::<Seq<char>, PendingApproval>::empty(),
{
}

} // verus!
