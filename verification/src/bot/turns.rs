//! The agent's answer, as it streams in and when it is complete.
use vstd::prelude::*;
use vstd::string::*;

use super::messages;
use super::{BotView, TelegramBot, TurnState, TurnView, EDIT_THROTTLE};
use crate::actions;
use crate::actions::{
    html_edit, html_message, nothing, only, push_action, Action, ActionView, Next, NextView, Step,
    StepView,
};
use crate::format::chunks;
use crate::format::markdown;
use crate::format::{chunk_html, md_to_telegram_html, truncate_for_edit};
use crate::text;

verus! {

broadcast use vstd::std_specs::hash::group_hash_axioms;

/// Maximum length of a message of the answer, in bytes, the tags that it closes included.
pub const MESSAGE_LEN: usize = 4000;

/// What is shown of the markdown `md` while more of it streams in.
pub open spec fn preview(md: Seq<char>) -> Seq<char> {
    chunks::truncated(markdown::telegram_html(md))
}

/// The HTML of the messages that carry the markdown `md`.
pub open spec fn message_texts(md: Seq<char>) -> Seq<Seq<char>> {
    chunks::html_chunks(markdown::telegram_html(md), MESSAGE_LEN as nat)
}

/// The actions that put `texts` into a chat: the first replaces message `message_id`, where
/// there is one, and all others are new messages.
pub open spec fn posted(chat_id: i64, message_id: Option<i64>, texts: Seq<Seq<char>>) -> Seq<
    ActionView,
> {
    Seq::new(
        texts.len(),
        |i: int|
            match message_id {
                Some(id) if i == 0 => actions::edited(chat_id, id, texts[0]),
                _ => actions::html(chat_id, texts[i]),
            },
    )
}

/// The message that the answer may still replace.
pub open spec fn open_message(turn: TurnView) -> Option<i64> {
    if turn.finalized {
        None
    } else {
        Some(turn.msg_id)
    }
}

/// True when the message of `turn` may be edited again at time `now`.
pub open spec fn edit_due(turn: TurnView, now: int) -> bool {
    now - turn.last_edit >= EDIT_THROTTLE
}

/// `turn` with `text` added to the answer.
pub open spec fn extended(turn: TurnView, text: Seq<char>) -> TurnView {
    TurnView { text_buffer: turn.text_buffer + text, ..turn }
}

/// The step that shows the answer of `turn` so far at time `now`, in the open message or in a
/// new one. Where the last edit was not long enough ago, nothing is shown.
pub open spec fn shown(chat_id: i64, turn: TurnView, now: int) -> StepView {
    if !edit_due(turn, now) {
        actions::done(Seq::empty())
    } else if turn.finalized {
        StepView {
            actions: seq![actions::html(chat_id, preview(turn.text_buffer))],
            next: NextView::NoteMessage { chat_id },
        }
    } else {
        StepView {
            actions: seq![actions::edited(chat_id, turn.msg_id, preview(turn.text_buffer))],
            next: NextView::NoteEdit { chat_id },
        }
    }
}

/// How `bot` takes the next piece of the answer for `chat_id`: it is kept, and the answer so
/// far is shown if the last edit was long enough ago, in the open message or in a new one.
pub open spec fn on_delta(bot: BotView, chat_id: i64, text: Seq<char>, now: int) -> (
    BotView,
    StepView,
) {
    if text.len() == 0 || !bot.turns.contains_key(chat_id) {
        (bot, actions::done(Seq::empty()))
    } else {
        let turn = extended(bot.turns[chat_id], text);
        (
            BotView { turns: bot.turns.insert(chat_id, turn), ..bot },
            shown(chat_id, turn, now),
        )
    }
}

/// How `bot` completes the answer for `chat_id`: the turn ends, and the final text, or where
/// there is none the text that streamed in, is put into the chat.
pub open spec fn on_final(bot: BotView, chat_id: i64, text: Seq<char>) -> (BotView, StepView) {
    if !bot.turns.contains_key(chat_id) {
        (bot, actions::done(Seq::empty()))
    } else {
        let turn = bot.turns[chat_id];
        let complete = if text.len() == 0 {
            turn.text_buffer
        } else {
            text
        };
        (
            messages::without_turn(bot, chat_id),
            actions::done(
                if complete.len() == 0 {
                    Seq::empty()
                } else {
                    posted(chat_id, open_message(turn), message_texts(complete))
                },
            ),
        )
    }
}

/// The actions that put the markdown `md` into a chat.
pub(crate) fn post(chat_id: i64, message_id: Option<i64>, md: &str) -> (posts: Vec<Action>)
    ensures
        actions::action_views(posts@) == posted(chat_id, message_id, message_texts(md@)),
{
    let html = md_to_telegram_html(md);
    let texts = chunk_html(html.as_str(), MESSAGE_LEN);
    let ghost all = text::strings(texts@);
    let ghost expected = posted(chat_id, message_id, all);
    let mut posts: Vec<Action> = Vec::new();
    let mut i: usize = 0;
    assert(actions::action_views(posts@) =~= expected.take(0));
    while i < texts.len()
        invariant
            i <= texts@.len(),
            all == text::strings(texts@),
            expected == posted(chat_id, message_id, all),
            actions::action_views(posts@) == expected.take(i as int),
        decreases texts@.len() - i,
    {
        assert(all[i as int] == texts@[i as int]@);
        assert(expected.take(i + 1) =~= expected.take(i as int).push(expected[i as int]));
        match message_id {
            Some(id) if i == 0 => {
                push_action(&mut posts, html_edit(chat_id, id, texts[i].as_str()));
            },
            _ => {
                push_action(&mut posts, html_message(chat_id, texts[i].as_str()));
            },
        }
        i = i + 1;
    }
    assert(expected.take(i as int) =~= expected);
    posts
}

/// The step that shows the answer of `turn` so far.
fn show(chat_id: i64, turn: &TurnState, now: u128) -> (step: Step)
    ensures
        step@ == shown(chat_id, turn@, now as int),
{
    if now < turn.last_edit || now - turn.last_edit < EDIT_THROTTLE {
        return nothing();
    }
    let html = md_to_telegram_html(turn.text_buffer.as_str());
    let display = truncate_for_edit(html.as_str());
    if turn.finalized {
        let mut step = only(html_message(chat_id, display.as_str()));
        step.next = Next::NoteMessage { chat_id };
        step
    } else {
        let mut step = only(html_edit(chat_id, turn.msg_id, display.as_str()));
        step.next = Next::NoteEdit { chat_id };
        step
    }
}

impl TelegramBot {
    /// Take the next piece of the answer for `chat_id`, at time `now`.
    pub fn handle_stream_delta(&mut self, chat_id: i64, text: &str, now: u128) -> (step: Step)
        ensures
            (final(self)@, step@) == on_delta(old(self)@, chat_id, text@, now as int),
    {
        if text.is_empty() {
            return nothing();
        }
        let mut turn = match self.turns.remove(&chat_id) {
            Some(turn) => turn,
            None => {
                assert(self@ =~= old(self)@);
                return nothing();
            },
        };
        let ghost before = turn@;
        turn.text_buffer.append(text);
        assert(turn@ =~= extended(before, text@));
        let step = show(chat_id, &turn, now);
        self.turns.insert(chat_id, turn);
        assert(self@ =~= on_delta(old(self)@, chat_id, text@, now as int).0);
        step
    }

    /// Complete the answer for `chat_id`.
    pub fn handle_final_response(&mut self, chat_id: i64, text: &str) -> (step: Step)
        ensures
            (final(self)@, step@) == on_final(old(self)@, chat_id, text@),
    {
        let turn = match self.turns.remove(&chat_id) {
            Some(turn) => turn,
            None => {
                assert(self@ =~= old(self)@);
                return nothing();
            },
        };
        assert(self@ =~= messages::without_turn(old(self)@, chat_id));
        let complete = if text.is_empty() {
            turn.text_buffer.as_str()
        } else {
            text
        };
        if complete.is_empty() {
            return nothing();
        }
        let message_id = if turn.finalized {
            None
        } else {
            Some(turn.msg_id)
        };
        Step { actions: post(chat_id, message_id, complete), next: Next::Idle }
    }
}

/// Complete the message of a turn with the answer so far. What follows goes into a new message.
pub(crate) fn finalize_turn_text(chat_id: i64, turn: &mut TurnState) -> (posts: Vec<Action>)
    ensures
        actions::action_views(posts@) == posted(
            chat_id,
            Some(old(turn).msg_id),
            message_texts(old(turn).text_buffer@),
        ),
        final(turn)@ == (TurnView { finalized: true, ..old(turn)@ }),
{
    let posts = post(chat_id, Some(turn.msg_id), turn.text_buffer.as_str());
    turn.finalized = true;
    posts
}

} // verus!
