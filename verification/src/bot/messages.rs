//! Messages and commands from Telegram.
use vstd::prelude::*;
use vstd::string::*;

use super::{BotView, TelegramBot};
use crate::access;
use crate::access::is_user_allowed;
use crate::actions;
use crate::actions::{
    html_message, nothing, only, plain_message, push_action, Action, ActionView, Next, NextView,
    Step, StepView,
};
use crate::session;
use crate::session::{new_session_id, session_kv_key};
use crate::text::{chars_of, same};
use crate::types::TgMessage;
use crate::words;
use crate::words::word_of;

verus! {

broadcast use vstd::std_specs::hash::group_hash_axioms;

/// The help text.
pub const HELP: &'static str = "<b>Astrid Telegram Bot</b>\n\n\
    Send any text message to interact with the agent.\n\n\
    <b>Commands:</b>\n\
    /start — Welcome message\n\
    /help — This help text\n\
    /reset — End session and start fresh\n\
    /cancel — Cancel the current turn";

/// True when `text` is a command.
pub open spec fn is_command(text: Seq<char>) -> bool {
    text.len() > 0 && text[0] == '/'
}

/// The user who sent a message, where Telegram names one.
pub open spec fn sender(msg: TgMessage) -> Option<i64> {
    match msg.from {
        Some(user) => Some(user.id),
        None => None,
    }
}

/// `bot` without the session of `chat_id`.
pub open spec fn without_session(bot: BotView, chat_id: i64) -> BotView {
    if bot.sessions.contains_key(chat_id) {
        BotView {
            sessions: bot.sessions.remove(chat_id),
            session_to_chat: bot.session_to_chat.remove(bot.sessions[chat_id]),
            ..bot
        }
    } else {
        bot
    }
}

/// `bot` without the turn of `chat_id`.
pub open spec fn without_turn(bot: BotView, chat_id: i64) -> BotView {
    BotView { turns: bot.turns.remove(chat_id), ..bot }
}

/// How `bot` answers the command `text` of `chat_id`: its first word decides.
pub open spec fn on_command(bot: BotView, chat_id: i64, text: Seq<char>) -> (BotView, StepView) {
    let command = words::first_word(text);
    if command == "/start"@ || command == "/help"@ {
        (bot, actions::done(seq![actions::html(chat_id, HELP@)]))
    } else if command == "/reset"@ {
        let reset = actions::plain(chat_id, "Session reset."@);
        (
            without_turn(without_session(bot, chat_id), chat_id),
            actions::done(
                if bot.sessions.contains_key(chat_id) {
                    seq![ActionView::DeleteSession { key: session::session_key(chat_id) }, reset]
                } else {
                    seq![reset]
                },
            ),
        )
    } else if command == "/cancel"@ {
        (
            without_turn(bot, chat_id),
            actions::done(
                seq![
                    actions::plain(
                        chat_id,
                        if bot.turns.contains_key(chat_id) {
                            "Turn cancelled."@
                        } else {
                            "No turn in progress."@
                        },
                    ),
                ],
            ),
        )
    } else {
        (bot, actions::done(seq![actions::plain(chat_id, "Unknown command. Try /help."@)]))
    }
}

/// `bot` with a session for `chat_id`: the one it has, else the one called `fresh`.
pub open spec fn with_session(bot: BotView, chat_id: i64, fresh: Seq<char>) -> BotView {
    if bot.sessions.contains_key(chat_id) {
        bot
    } else {
        BotView {
            sessions: bot.sessions.insert(chat_id, fresh),
            session_to_chat: bot.session_to_chat.insert(fresh, chat_id),
            ..bot
        }
    }
}

/// How `bot` takes up the prompt `text` of `chat_id`: a session is started and kept where there
/// is none, and a message stands in for the answer.
pub open spec fn on_prompt(bot: BotView, chat_id: i64, text: Seq<char>, fresh: Seq<char>) -> (
    BotView,
    StepView,
) {
    let started = with_session(bot, chat_id, fresh);
    let placeholder = actions::plain(chat_id, "Thinking..."@);
    (
        started,
        StepView {
            actions: if bot.sessions.contains_key(chat_id) {
                seq![placeholder]
            } else {
                seq![
                    ActionView::SaveSession {
                        key: session::session_key(chat_id),
                        session_id: fresh,
                    },
                    placeholder,
                ]
            },
            next: NextView::StartTurn {
                chat_id,
                session_id: started.sessions[chat_id],
                prompt: text,
            },
        },
    )
}

/// How `bot` answers a message. A message without text is passed over. Users who are not
/// allowed are told so. Commands are carried out. While a turn is in progress, no prompt is
/// taken up. `fresh` is the ID for a new session.
pub open spec fn on_message(bot: BotView, allowed: Seq<i64>, msg: TgMessage, fresh: Seq<char>) -> (
    BotView,
    StepView,
) {
    let chat_id = msg.chat.id;
    match msg.text {
        None => (bot, actions::done(Seq::empty())),
        Some(text) => if !access::admits(allowed, sender(msg)) {
            (bot, actions::done(seq![actions::plain(chat_id, "Not authorized."@)]))
        } else if is_command(text@) {
            on_command(bot, chat_id, text@)
        } else if bot.turns.contains_key(chat_id) {
            (
                bot,
                actions::done(
                    seq![
                        actions::plain(
                            chat_id,
                            "A turn is already in progress. Please wait or /cancel."@,
                        ),
                    ],
                ),
            )
        } else {
            on_prompt(bot, chat_id, text@, fresh)
        },
    }
}

impl TelegramBot {
    /// Answer a message.
    pub fn handle_message(&mut self, allowed_users: &[i64], msg: &TgMessage) -> (step: Step)
        ensures
            exists|millis: u128|
                (final(self)@, step@) == on_message(
                    old(self)@,
                    allowed_users@,
                    *msg,
                    #[trigger] session::session_id(msg.chat.id, millis as nat),
                ),
    {
        let fresh = new_session_id(msg.chat.id);
        self.handle_message_with(allowed_users, msg, fresh)
    }

    /// Answer a message. A session that starts with it is called `fresh`.
    pub fn handle_message_with(
        &mut self,
        allowed_users: &[i64],
        msg: &TgMessage,
        fresh: String,
    ) -> (step: Step)
        ensures
            (final(self)@, step@) == on_message(old(self)@, allowed_users@, *msg, fresh@),
    {
        let chat_id = msg.chat.id;
        let text = match &msg.text {
            Some(text) => text,
            None => return nothing(),
        };
        let user_id = match &msg.from {
            Some(user) => Some(user.id),
            None => None,
        };
        if !is_user_allowed(allowed_users, user_id) {
            return only(plain_message(chat_id, "Not authorized."));
        }
        let chars = chars_of(text.as_str());
        if chars.len() > 0 && chars[0] == '/' {
            return self.handle_command(chat_id, text.as_str());
        }
        if self.turns.contains_key(&chat_id) {
            return only(
                plain_message(chat_id, "A turn is already in progress. Please wait or /cancel."),
            );
        }
        let mut step = nothing();
        let session_id = match self.sessions.get(&chat_id) {
            Some(id) => id.clone(),
            None => {
                push_action(
                    &mut step.actions,
                    Action::SaveSession {
                        key: session_kv_key(chat_id),
                        session_id: fresh.clone(),
                    },
                );
                self.session_to_chat.insert(fresh.clone(), chat_id);
                self.sessions.insert(chat_id, fresh.clone());
                fresh
            },
        };
        push_action(&mut step.actions, plain_message(chat_id, "Thinking..."));
        step.next = Next::StartTurn { chat_id, session_id, prompt: text.clone() };
        proof {
            let (bot, expected) = on_prompt(old(self)@, chat_id, text@, fresh@);
            assert(self@ =~= bot);
            assert(step@.actions =~= expected.actions);
            assert(step@ =~= expected);
        }
        step
    }

    /// Carry out a command.
    pub fn handle_command(&mut self, chat_id: i64, text: &str) -> (step: Step)
        ensures
            (final(self)@, step@) == on_command(old(self)@, chat_id, text@),
    {
        let word = word_of(text);
        let command = word.as_str();
        if same(command, "/start") || same(command, "/help") {
            only(html_message(chat_id, HELP))
        } else if same(command, "/reset") {
            let mut step = nothing();
            if let Some(id) = self.sessions.remove(&chat_id) {
                self.session_to_chat.remove(id.as_str());
                push_action(
                    &mut step.actions,
                    Action::DeleteSession { key: session_kv_key(chat_id) },
                );
            }
            self.turns.remove(&chat_id);
            push_action(&mut step.actions, plain_message(chat_id, "Session reset."));
            proof {
                let (bot, expected) = on_command(old(self)@, chat_id, text@);
                assert(self@ =~= bot);
                assert(step@.actions =~= expected.actions);
            }
            step
        } else if same(command, "/cancel") {
            let cancelled = self.turns.remove(&chat_id).is_some();
            assert(self@ =~= without_turn(old(self)@, chat_id));
            if cancelled {
                only(plain_message(chat_id, "Turn cancelled."))
            } else {
                only(plain_message(chat_id, "No turn in progress."))
            }
        } else {
            only(plain_message(chat_id, "Unknown command. Try /help."))
        }
    }
}

} // verus!
