//! Telegram Bot API types (minimal subset).
use vstd::prelude::*;

verus! {

/// Generic Telegram API response wrapper.
#[derive(Debug)]
pub struct TgResponse<T> {
    pub ok: bool,
    pub result: Option<T>,
    pub description: Option<String>,
}

/// A Telegram update from `getUpdates`.
#[derive(Debug)]
pub struct Update {
    pub update_id: i64,
    pub message: Option<TgMessage>,
    pub callback_query: Option<CallbackQuery>,
}

impl Update {
    /// The offset that acknowledges the update: the next poll starts behind it.
    pub fn next_offset(&self) -> (offset: i64)
        requires
            self.update_id < i64::MAX,
        ensures
            offset == self.update_id + 1,
    {
        self.update_id + 1
    }
}

/// The offset of the next poll, after one from `offset` on that returned `updates`: behind the
/// last update, or the same where there was none.
pub fn offset_after(offset: i64, updates: &Vec<Update>) -> (next: i64)
    requires
        forall|i: int| 0 <= i < updates@.len() ==> (#[trigger] updates@[i]).update_id < i64::MAX,
    ensures
        updates@.len() == 0 ==> next == offset,
        updates@.len() > 0 ==> next == updates@.last().update_id + 1,
{
    if updates.len() == 0 {
        offset
    } else {
        updates[updates.len() - 1].next_offset()
    }
}

/// A Telegram message.
#[derive(Debug)]
pub struct TgMessage {
    pub message_id: i64,
    pub from: Option<TgUser>,
    pub chat: TgChat,
    pub text: Option<String>,
}

/// A Telegram user.
#[derive(Debug)]
pub struct TgUser {
    pub id: i64,
    pub first_name: String,
}

/// A Telegram chat.
#[derive(Debug)]
pub struct TgChat {
    pub id: i64,
}

/// A callback query from an inline keyboard button press.
#[derive(Debug)]
pub struct CallbackQuery {
    pub id: String,
    pub from: TgUser,
    pub message: Option<TgMessage>,
    pub data: Option<String>,
}

/// Inline keyboard markup for approval/elicitation buttons.
#[derive(Debug, PartialEq, Eq)]
pub struct InlineKeyboardMarkup {
    pub inline_keyboard: Vec<Vec<InlineKeyboardButton>>,
}

/// A single inline keyboard button.
#[derive(Debug, PartialEq, Eq)]
pub struct InlineKeyboardButton {
    pub text: String,
    pub callback_data: String,
}

} // verus!
