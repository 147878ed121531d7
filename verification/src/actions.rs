//! What the bot asks to be done for it, and what it is told of how that went.
use vstd::prelude::*;
use vstd::string::*;

use crate::types::{InlineKeyboardButton, InlineKeyboardMarkup};

verus! {

/// Something to be done outside: a call of the Telegram Bot API, a message on the IPC bus or a
/// change in the key-value store.
#[derive(Debug, PartialEq, Eq)]
pub enum Action {
    /// Send a message to a chat, as HTML or as plain text.
    SendMessage {
        chat_id: i64,
        text: String,
        html: bool,
        keyboard: Option<InlineKeyboardMarkup>,
    },
    /// Replace the text of a message.
    EditMessage { chat_id: i64, message_id: i64, text: String, html: bool },
    /// Answer the press of a button.
    AnswerCallback { callback_id: String, notice: Option<String> },
    /// Show in a chat that an answer is being written.
    SendTyping { chat_id: i64 },
    /// Publish a JSON object on the IPC bus, made of these members.
    Publish { topic: String, fields: Vec<(String, String)> },
    /// Keep the ID of a session in the store.
    SaveSession { key: String, session_id: String },
    /// Take a session out of the store.
    DeleteSession { key: String },
}

/// The buttons of a keyboard, row by row, each with its label and its callback data.
pub type Rows = Seq<Seq<(Seq<char>, Seq<char>)>>;

/// What an action says.
#[verifier::ext_equal]
pub enum ActionView {
    SendMessage { chat_id: i64, text: Seq<char>, html: bool, keyboard: Option<Rows> },
    EditMessage { chat_id: i64, message_id: i64, text: Seq<char>, html: bool },
    AnswerCallback { callback_id: Seq<char>, notice: Option<Seq<char>> },
    SendTyping { chat_id: i64 },
    Publish { topic: Seq<char>, fields: Seq<(Seq<char>, Seq<char>)> },
    SaveSession { key: Seq<char>, session_id: Seq<char> },
    DeleteSession { key: Seq<char> },
}

/// The label and the callback data of a button.
pub open spec fn button(button: InlineKeyboardButton) -> (Seq<char>, Seq<char>) {
    (button.text@, button.callback_data@)
}

/// The buttons of a keyboard, row by row.
pub open spec fn rows(keyboard: InlineKeyboardMarkup) -> Rows {
    keyboard.inline_keyboard@.map_values(
        |row: Vec<InlineKeyboardButton>| row@.map_values(|b: InlineKeyboardButton| button(b)),
    )
}

/// The characters of each string of `pairs`.
pub open spec fn pairs(pairs: Seq<(String, String)>) -> Seq<(Seq<char>, Seq<char>)> {
    pairs.map_values(|pair: (String, String)| (pair.0@, pair.1@))
}

impl View for Action {
    type V = ActionView;

    open spec fn view(&self) -> ActionView {
        match *self {
            Action::SendMessage { chat_id, text, html, keyboard } => ActionView::SendMessage {
                chat_id,
                text: text@,
                html,
                keyboard: match keyboard {
                    Some(keyboard) => Some(rows(keyboard)),
                    None => None,
                },
            },
            Action::EditMessage { chat_id, message_id, text, html } => ActionView::EditMessage {
                chat_id,
                message_id,
                text: text@,
                html,
            },
            Action::AnswerCallback { callback_id, notice } => ActionView::AnswerCallback {
                callback_id: callback_id@,
                notice: match notice {
                    Some(notice) => Some(notice@),
                    None => None,
                },
            },
            Action::SendTyping { chat_id } => ActionView::SendTyping { chat_id },
            Action::Publish { topic, fields } => ActionView::Publish {
                topic: topic@,
                fields: pairs(fields@),
            },
            Action::SaveSession { key, session_id } => ActionView::SaveSession {
                key: key@,
                session_id: session_id@,
            },
            Action::DeleteSession { key } => ActionView::DeleteSession { key: key@ },
        }
    }
}

/// How an action went.
#[derive(Debug, PartialEq, Eq)]
pub enum Outcome {
    /// A message was sent, and got this ID.
    Sent(i64),
    /// Something else was done.
    Done,
    /// It failed.
    Failed,
}

/// What the bot has to hear of once the actions of a step are through.
#[derive(Debug, PartialEq, Eq)]
pub enum Next {
    /// Nothing.
    Idle,
    /// The message that stands in for the answer, the last action: the prompt goes out behind
    /// it.
    StartTurn { chat_id: i64, session_id: String, prompt: String },
    /// The prompt, the last action: where it failed, the chat is told so in `message_id`.
    ConfirmPrompt { chat_id: i64, message_id: i64 },
    /// An edit of the answer.
    NoteEdit { chat_id: i64 },
    /// A new message, the last action, in which the answer goes on.
    NoteMessage { chat_id: i64 },
    /// The messages that carry the answer so far, all actions but the last.
    NoteFlush { chat_id: i64 },
}

/// What the bot has to hear of once the actions of a step are through.
#[verifier::ext_equal]
pub enum NextView {
    Idle,
    StartTurn { chat_id: i64, session_id: Seq<char>, prompt: Seq<char> },
    ConfirmPrompt { chat_id: i64, message_id: i64 },
    NoteEdit { chat_id: i64 },
    NoteMessage { chat_id: i64 },
    NoteFlush { chat_id: i64 },
}

impl View for Next {
    type V = NextView;

    open spec fn view(&self) -> NextView {
        match *self {
            Next::Idle => NextView::Idle,
            Next::StartTurn { chat_id, session_id, prompt } => NextView::StartTurn {
                chat_id,
                session_id: session_id@,
                prompt: prompt@,
            },
            Next::ConfirmPrompt { chat_id, message_id } => NextView::ConfirmPrompt {
                chat_id,
                message_id,
            },
            Next::NoteEdit { chat_id } => NextView::NoteEdit { chat_id },
            Next::NoteMessage { chat_id } => NextView::NoteMessage { chat_id },
            Next::NoteFlush { chat_id } => NextView::NoteFlush { chat_id },
        }
    }
}

/// One step of the bot: these actions are to be done in their order, then the bot resumes with
/// their outcomes.
#[derive(Debug, PartialEq, Eq)]
pub struct Step {
    pub actions: Vec<Action>,
    pub next: Next,
}

/// One step of the bot.
#[verifier::ext_equal]
pub struct StepView {
    pub actions: Seq<ActionView>,
    pub next: NextView,
}

/// What the actions of `list` say.
pub open spec fn action_views(list: Seq<Action>) -> Seq<ActionView> {
    list.map_values(|action: Action| action@)
}

impl View for Step {
    type V = StepView;

    open spec fn view(&self) -> StepView {
        StepView { actions: action_views(self.actions@), next: self.next@ }
    }
}

/// A step of which the bot wants to hear no more.
pub open spec fn done(actions: Seq<ActionView>) -> StepView {
    StepView { actions, next: NextView::Idle }
}

/// A plain message without a keyboard.
pub open spec fn plain(chat_id: i64, text: Seq<char>) -> ActionView {
    ActionView::SendMessage { chat_id, text, html: false, keyboard: None }
}

/// A message in HTML without a keyboard.
pub open spec fn html(chat_id: i64, text: Seq<char>) -> ActionView {
    ActionView::SendMessage { chat_id, text, html: true, keyboard: None }
}

/// A message in HTML with one button in each row of its keyboard.
pub open spec fn asking(
    chat_id: i64,
    text: Seq<char>,
    buttons: Seq<(Seq<char>, Seq<char>)>,
) -> ActionView {
    ActionView::SendMessage { chat_id, text, html: true, keyboard: Some(one_per_row(buttons)) }
}

/// An edit in HTML.
pub open spec fn edited(chat_id: i64, message_id: i64, text: Seq<char>) -> ActionView {
    ActionView::EditMessage { chat_id, message_id, text, html: true }
}

/// An answer to the press of a button.
pub open spec fn answer(callback_id: Seq<char>, notice: Seq<char>) -> ActionView {
    ActionView::AnswerCallback { callback_id, notice: Some(notice) }
}

/// A keyboard with one button in each row.
pub open spec fn one_per_row(buttons: Seq<(Seq<char>, Seq<char>)>) -> Rows {
    buttons.map_values(|button: (Seq<char>, Seq<char>)| seq![button])
}

/// A plain message without a keyboard.
pub fn plain_message(chat_id: i64, text: &str) -> (action: Action)
    ensures
        action@ == plain(chat_id, text@),
{
    Action::SendMessage { chat_id, text: text.to_owned(), html: false, keyboard: None }
}

/// A message in HTML without a keyboard.
pub fn html_message(chat_id: i64, text: &str) -> (action: Action)
    ensures
        action@ == html(chat_id, text@),
{
    Action::SendMessage { chat_id, text: text.to_owned(), html: true, keyboard: None }
}

/// A message in HTML with a keyboard.
pub fn keyboard_message(chat_id: i64, text: String, buttons: Vec<(String, String)>) -> (action:
    Action)
    ensures
        action@ == asking(chat_id, text@, pairs(buttons@)),
{
    Action::SendMessage { chat_id, text, html: true, keyboard: Some(inline_keyboard(buttons)) }
}

/// An edit in HTML.
pub fn html_edit(chat_id: i64, message_id: i64, text: &str) -> (action: Action)
    ensures
        action@ == edited(chat_id, message_id, text@),
{
    Action::EditMessage { chat_id, message_id, text: text.to_owned(), html: true }
}

/// An answer to the press of a button.
pub fn callback_answer(callback_id: &str, notice: &str) -> (action: Action)
    ensures
        action@ == answer(callback_id@, notice@),
{
    Action::AnswerCallback { callback_id: callback_id.to_owned(), notice: Some(notice.to_owned()) }
}

/// Add `action` to the actions of a step.
pub fn push_action(actions: &mut Vec<Action>, action: Action)
    ensures
        action_views(final(actions)@) == action_views(old(actions)@).push(action@),
{
    actions.push(action);
    assert(action_views(actions@) =~= action_views(old(actions)@).push(action@));
}

/// A step without actions.
pub fn nothing() -> (step: Step)
    ensures
        step@ == done(Seq::empty()),
{
    let actions: Vec<Action> = Vec::new();
    assert(action_views(actions@) =~= Seq::empty());
    Step { actions, next: Next::Idle }
}

/// A step with one action.
pub fn only(action: Action) -> (step: Step)
    ensures
        step@ == done(seq![action@]),
{
    let mut step = nothing();
    push_action(&mut step.actions, action);
    assert(step@.actions =~= seq![action@]);
    step
}

/// A keyboard with one button in each row, made of labels and callback data.
pub fn inline_keyboard(buttons: Vec<(String, String)>) -> (keyboard: InlineKeyboardMarkup)
    ensures
        rows(keyboard) == one_per_row(pairs(buttons@)),
{
    let mut inline_keyboard: Vec<Vec<InlineKeyboardButton>> = Vec::new();
    let mut i: usize = 0;
    while i < buttons.len()
        invariant
            i <= buttons@.len(),
            inline_keyboard@.len() == i,
            forall|j: int|
                0 <= j < i ==> {
                    &&& (#[trigger] inline_keyboard@[j])@.len() == 1
                    &&& button(inline_keyboard@[j]@[0]) == (buttons@[j].0@, buttons@[j].1@)
                },
        decreases buttons@.len() - i,
    {
        let mut row: Vec<InlineKeyboardButton> = Vec::new();
        row.push(
            InlineKeyboardButton {
                text: buttons[i].0.clone(),
                callback_data: buttons[i].1.clone(),
            },
        );
        inline_keyboard.push(row);
        i = i + 1;
    }
    let keyboard = InlineKeyboardMarkup { inline_keyboard };
    proof {
        let expected = one_per_row(pairs(buttons@));
        assert forall|j: int| 0 <= j < expected.len() implies rows(keyboard)[j] == expected[j] by {
            assert(keyboard.inline_keyboard@[j]@.len() == 1);
            assert(rows(keyboard)[j] =~= expected[j]);
        }
        assert(rows(keyboard) =~= expected);
    }
    keyboard
}

} // verus!
