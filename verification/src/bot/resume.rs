//! What the bot does once the actions of a step are through.
use vstd::prelude::*;
use vstd::string::*;

use super::messages;
use super::{BotView, TelegramBot, TurnState, TurnView, EDIT_THROTTLE};
use crate::actions;
use crate::actions::{
    nothing, only, push_action, Action, ActionView, Next, NextView, Outcome, Step, StepView,
};

verus! {

broadcast use vstd::std_specs::hash::group_hash_axioms;

/// The topic of the user's input.
pub const PROMPT_TOPIC: &'static str = "user.v1.prompt";

/// The ID of the message that the last action sent, if it did.
pub open spec fn last_sent(outcomes: Seq<Outcome>) -> Option<i64> {
    if outcomes.len() == 0 {
        None
    } else {
        match outcomes.last() {
            Outcome::Sent(message_id) => Some(message_id),
            _ => None,
        }
    }
}

/// True when the last action failed.
pub open spec fn last_failed(outcomes: Seq<Outcome>) -> bool {
    outcomes.len() > 0 && outcomes.last() == Outcome::Failed
}

/// The ID of the last message that was sent, `message_id` where there was none.
pub open spec fn latest_message(message_id: i64, outcomes: Seq<Outcome>) -> i64
    decreases outcomes.len(),
{
    if outcomes.len() == 0 {
        message_id
    } else {
        match outcomes.last() {
            Outcome::Sent(id) => id,
            _ => latest_message(message_id, outcomes.drop_last()),
        }
    }
}

/// The ID of the last message that all actions but the last sent, `message_id` where there was
/// none.
pub open spec fn flushed(message_id: i64, outcomes: Seq<Outcome>) -> i64 {
    if outcomes.len() == 0 {
        message_id
    } else {
        latest_message(message_id, outcomes.drop_last())
    }
}

/// A turn that starts at time `now`, its answer in `message_id`. The first edit is due at once.
pub open spec fn new_turn(message_id: i64, now: int) -> TurnView {
    TurnView {
        msg_id: message_id,
        text_buffer: Seq::empty(),
        last_edit: if now >= EDIT_THROTTLE {
            now - EDIT_THROTTLE
        } else {
            now
        },
        finalized: false,
    }
}

/// The payload of the user's input.
pub open spec fn prompt_fields(prompt: Seq<char>, session_id: Seq<char>) -> Seq<
    (Seq<char>, Seq<char>),
> {
    seq![("type"@, "user_input"@), ("text"@, prompt), ("session_id"@, session_id)]
}

/// `bot` with `turn` for `chat_id` in place of the turn that it has there.
pub open spec fn with_turn(bot: BotView, chat_id: i64, turn: TurnView) -> BotView {
    if bot.turns.contains_key(chat_id) {
        BotView { turns: bot.turns.insert(chat_id, turn), ..bot }
    } else {
        bot
    }
}

/// How `bot` goes on at time `now`, after the actions that `next` tells of.
///
/// A prompt is published, and its turn starts, once the message that stands in for the answer
/// was sent. Where the prompt cannot be published, the turn ends. An answer goes on in the last
/// message that was sent for it, and the time of each edit is kept.
pub open spec fn resumed(bot: BotView, next: NextView, outcomes: Seq<Outcome>, now: int) -> (
    BotView,
    StepView,
) {
    match next {
        NextView::Idle => (bot, actions::done(Seq::empty())),
        NextView::StartTurn { chat_id, session_id, prompt } => match last_sent(outcomes) {
            Some(message_id) => (
                BotView { turns: bot.turns.insert(chat_id, new_turn(message_id, now)), ..bot },
                StepView {
                    actions: seq![
                        ActionView::SendTyping { chat_id },
                        ActionView::Publish {
                            topic: PROMPT_TOPIC@,
                            fields: prompt_fields(prompt, session_id),
                        },
                    ],
                    next: NextView::ConfirmPrompt { chat_id, message_id },
                },
            ),
            None => (bot, actions::done(Seq::empty())),
        },
        NextView::ConfirmPrompt { chat_id, message_id } => if last_failed(outcomes) {
            (
                messages::without_turn(bot, chat_id),
                actions::done(
                    seq![
                        ActionView::EditMessage {
                            chat_id,
                            message_id,
                            text: "Failed to send message to agent."@,
                            html: false,
                        },
                    ],
                ),
            )
        } else {
            (bot, actions::done(Seq::empty()))
        },
        NextView::NoteEdit { chat_id } => (
            with_turn(bot, chat_id, TurnView { last_edit: now, ..bot.turns[chat_id] }),
            actions::done(Seq::empty()),
        ),
        NextView::NoteMessage { chat_id } => (
            with_turn(
                bot,
                chat_id,
                match last_sent(outcomes) {
                    Some(message_id) => TurnView {
                        msg_id: message_id,
                        last_edit: now,
                        finalized: false,
                        ..bot.turns[chat_id]
                    },
                    None => TurnView { last_edit: now, ..bot.turns[chat_id] },
                },
            ),
            actions::done(Seq::empty()),
        ),
        NextView::NoteFlush { chat_id } => (
            with_turn(
                bot,
                chat_id,
                TurnView {
                    msg_id: flushed(bot.turns[chat_id].msg_id, outcomes),
                    ..bot.turns[chat_id]
                },
            ),
            actions::done(Seq::empty()),
        ),
    }
}

/// The ID of the message that the last action sent.
fn sent_message(outcomes: &Vec<Outcome>) -> (message_id: Option<i64>)
    ensures
        message_id == last_sent(outcomes@),
{
    if outcomes.len() == 0 {
        return None;
    }
    match &outcomes[outcomes.len() - 1] {
        Outcome::Sent(message_id) => Some(*message_id),
        _ => None,
    }
}

/// The ID of the last message that all actions but the last sent.
fn flushed_message(message_id: i64, outcomes: &Vec<Outcome>) -> (latest: i64)
    ensures
        latest == flushed(message_id, outcomes@),
{
    if outcomes.len() == 0 {
        return message_id;
    }
    let mut latest = message_id;
    let mut i: usize = 1;
    assert(outcomes@.take(0) =~= Seq::empty());
    while i < outcomes.len()
        invariant
            1 <= i <= outcomes@.len(),
            latest == latest_message(message_id, outcomes@.take(i - 1)),
        decreases outcomes.len() - i,
    {
        assert(outcomes@.take(i as int).drop_last() =~= outcomes@.take(i - 1));
        assert(outcomes@.take(i as int).last() == outcomes@[i - 1]);
        if let Outcome::Sent(id) = &outcomes[i - 1] {
            latest = *id;
        }
        i = i + 1;
    }
    assert(outcomes@.take(i - 1) =~= outcomes@.drop_last());
    latest
}

impl TelegramBot {
    /// Go on at time `now`, after the actions of a step had these outcomes, one for each action
    /// and in their order.
    pub fn resume(&mut self, next: Next, outcomes: &Vec<Outcome>, now: u128) -> (step: Step)
        ensures
            (final(self)@, step@) == resumed(old(self)@, next@, outcomes@, now as int),
    {
        match next {
            Next::Idle => nothing(),
            Next::StartTurn { chat_id, session_id, prompt } => match sent_message(outcomes) {
                Some(message_id) => {
                    let last_edit = if now >= EDIT_THROTTLE {
                        now - EDIT_THROTTLE
                    } else {
                        now
                    };
                    let turn = TurnState {
                        msg_id: message_id,
                        text_buffer: String::new(),
                        last_edit,
                        finalized: false,
                    };
                    assert(turn@ =~= new_turn(message_id, now as int));
                    self.turns.insert(chat_id, turn);
                    let mut fields: Vec<(String, String)> = Vec::new();
                    fields.push(("type".to_owned(), "user_input".to_owned()));
                    fields.push(("text".to_owned(), prompt));
                    fields.push(("session_id".to_owned(), session_id));
                    assert(actions::pairs(fields@) =~= prompt_fields(prompt@, session_id@));
                    let mut step = only(Action::SendTyping { chat_id });
                    push_action(
                        &mut step.actions,
                        Action::Publish { topic: PROMPT_TOPIC.to_owned(), fields },
                    );
                    step.next = Next::ConfirmPrompt { chat_id, message_id };
                    proof {
                        let (bot, expected) = resumed(old(self)@, next@, outcomes@, now as int);
                        assert(self@ =~= bot);
                        assert(step@.actions =~= expected.actions);
                    }
                    step
                },
                None => nothing(),
            },
            Next::ConfirmPrompt { chat_id, message_id } => {
                if outcomes.len() == 0 {
                    return nothing();
                }
                match &outcomes[outcomes.len() - 1] {
                    Outcome::Failed => {
                        self.turns.remove(&chat_id);
                        assert(self@ =~= messages::without_turn(old(self)@, chat_id));
                        only(
                            Action::EditMessage {
                                chat_id,
                                message_id,
                                text: "Failed to send message to agent.".to_owned(),
                                html: false,
                            },
                        )
                    },
                    _ => nothing(),
                }
            },
            Next::NoteEdit { chat_id } => {
                if let Some(turn) = self.turns.remove(&chat_id) {
                    self.turns.insert(chat_id, TurnState { last_edit: now, ..turn });
                }
                assert(self@ =~= resumed(old(self)@, next@, outcomes@, now as int).0);
                nothing()
            },
            Next::NoteMessage { chat_id } => {
                if let Some(mut turn) = self.turns.remove(&chat_id) {
                    if let Some(message_id) = sent_message(outcomes) {
                        turn.msg_id = message_id;
                        turn.finalized = false;
                    }
                    turn.last_edit = now;
                    self.turns.insert(chat_id, turn);
                }
                assert(self@ =~= resumed(old(self)@, next@, outcomes@, now as int).0);
                nothing()
            },
            Next::NoteFlush { chat_id } => {
                if let Some(mut turn) = self.turns.remove(&chat_id) {
                    turn.msg_id = flushed_message(turn.msg_id, outcomes);
                    self.turns.insert(chat_id, turn);
                }
                assert(self@ =~= resumed(old(self)@, next@, outcomes@, now as int).0);
                nothing()
            },
        }
    }
}

} // verus!
