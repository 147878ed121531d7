//! The bot: what it keeps between events, and how it answers each of them.
//!
//! Every handler changes the state and returns a [`Step`](crate::actions::Step). Whoever runs
//! the bot does the actions of the step, and then lets the bot
//! [`resume`](TelegramBot::resume) with their outcomes.
pub mod callbacks;
pub mod events;
pub mod laws;
pub mod messages;
pub mod requests;
pub mod resume;
pub mod turns;

use std::collections::HashMap;
use vstd::hash_map::StringHashMap;
use vstd::prelude::*;

use crate::session;
use crate::session::session_chat_id;

verus! {

broadcast use vstd::std_specs::hash::group_hash_axioms;

/// Minimum interval between edits of a message, in nanoseconds.
pub const EDIT_THROTTLE: u128 = 500_000_000;

/// Transient state of a chat for the current turn.
#[derive(Debug)]
pub struct TurnState {
    /// The message that is edited while the answer streams in.
    pub msg_id: i64,
    /// The answer so far, in markdown.
    pub text_buffer: String,
    /// When that message was edited last, in nanoseconds.
    pub last_edit: u128,
    /// Whether that message is complete: what follows goes into a new one.
    pub finalized: bool,
}

/// An approval that waits for the press of a button.
#[derive(Debug)]
pub struct PendingApproval {
    pub chat_id: i64,
}

/// Telegram Bot uplink: its sessions, its turns and the approvals that it waits for.
pub struct TelegramBot {
    /// The session of each chat.
    pub sessions: HashMap<i64, String>,
    /// The chat of each session.
    pub session_to_chat: StringHashMap<i64>,
    /// The turn in progress of each chat that has one.
    pub turns: HashMap<i64, TurnState>,
    /// The approvals that were asked for, by request.
    pub pending_approvals: StringHashMap<PendingApproval>,
}

/// What a turn holds.
#[verifier::ext_equal]
pub struct TurnView {
    pub msg_id: i64,
    pub text_buffer: Seq<char>,
    pub last_edit: int,
    pub finalized: bool,
}

impl View for TurnState {
    type V = TurnView;

    open spec fn view(&self) -> TurnView {
        TurnView {
            msg_id: self.msg_id,
            text_buffer: self.text_buffer@,
            last_edit: self.last_edit as int,
            finalized: self.finalized,
        }
    }
}

/// What the bot keeps.
#[verifier::ext_equal]
pub struct BotView {
    pub sessions: Map<i64, Seq<char>>,
    pub session_to_chat: Map<Seq<char>, i64>,
    pub turns: Map<i64, TurnView>,
    pub pending_approvals: Map<Seq<char>, PendingApproval>,
}

impl View for TelegramBot {
    type V = BotView;

    open spec fn view(&self) -> BotView {
        BotView {
            sessions: self.sessions@.map_values(|id: String| id@),
            session_to_chat: self.session_to_chat@,
            turns: self.turns@.map_values(|turn: TurnState| turn@),
            pending_approvals: self.pending_approvals@,
        }
    }
}

/// A bot that keeps nothing yet.
pub open spec fn fresh() -> BotView {
    BotView {
        sessions: Map::empty(),
        session_to_chat: Map::empty(),
        turns: Map::empty(),
        pending_approvals: Map::empty(),
    }
}

/// The sessions that the store lists as keys and session IDs. What stands under a key of no
/// session is passed over. Of two keys for one chat the later counts.
pub open spec fn stored_sessions(entries: Seq<(Seq<char>, Seq<char>)>) -> Map<i64, Seq<char>>
    decreases entries.len(),
{
    if entries.len() == 0 {
        Map::empty()
    } else {
        let front = stored_sessions(entries.drop_last());
        match session::chat_of_key(entries.last().0) {
            Some(chat_id) => front.insert(chat_id, entries.last().1),
            None => front,
        }
    }
}

/// True when `chats` leads from a session ID to a chat exactly where a chat has that session,
/// and then to one that has it.
pub open spec fn inverse(chats: Map<Seq<char>, i64>, sessions: Map<i64, Seq<char>>) -> bool {
    &&& forall|id: Seq<char>| #[trigger]
        chats.contains_key(id) ==> sessions.contains_key(chats[id]) && sessions[chats[id]] == id
    &&& forall|chat_id: i64| #[trigger]
        sessions.contains_key(chat_id) ==> chats.contains_key(sessions[chat_id])
}

/// True when `chat_id` is the only chat with a turn in progress.
pub open spec fn only_turn(turns: Map<i64, TurnView>, chat_id: i64) -> bool {
    turns.dom() == set![chat_id]
}

/// The only chat with a turn in progress, if there is exactly one.
pub open spec fn chat_for_event(turns: Map<i64, TurnView>) -> Option<i64> {
    if exists|chat_id: i64| only_turn(turns, chat_id) {
        Some(choose|chat_id: i64| only_turn(turns, chat_id))
    } else {
        None
    }
}

/// A key of a session in the store gives its chat a session.
pub proof fn lemma_stored(entries: Seq<(Seq<char>, Seq<char>)>, k: int)
    requires
        0 <= k < entries.len(),
    ensures
        match session::chat_of_key(entries[k].0) {
            Some(chat_id) => stored_sessions(entries).contains_key(chat_id),
            None => true,
        },
    decreases entries.len(),
{
    if k < entries.len() - 1 {
        lemma_stored(entries.drop_last(), k);
    }
}

/// Every chat with a session has it from an entry of the store.
pub proof fn lemma_stored_from(entries: Seq<(Seq<char>, Seq<char>)>, chat_id: i64) -> (k: int)
    requires
        stored_sessions(entries).contains_key(chat_id),
    ensures
        0 <= k < entries.len(),
        session::chat_of_key(entries[k].0) == Some(chat_id),
        stored_sessions(entries)[chat_id] == entries[k].1,
    decreases entries.len(),
{
    if session::chat_of_key(entries.last().0) == Some(chat_id) {
        entries.len() - 1
    } else {
        lemma_stored_from(entries.drop_last(), chat_id)
    }
}

impl Default for TelegramBot {
    fn default() -> (bot: Self)
        ensures
            bot@ == fresh(),
    {
        let bot = TelegramBot {
            sessions: HashMap::new(),
            session_to_chat: StringHashMap::new(),
            turns: HashMap::new(),
            pending_approvals: StringHashMap::new(),
        };
        assert(bot@ =~= fresh());
        bot
    }
}

impl TelegramBot {
    /// A bot with the sessions that the store lists as keys and session IDs.
    pub fn with_sessions(entries: &Vec<(String, String)>) -> (bot: Self)
        ensures
            bot@.sessions == stored_sessions(crate::actions::pairs(entries@)),
            inverse(bot@.session_to_chat, bot@.sessions),
            bot@.turns == Map::<i64, TurnView>::empty(),
            bot@.pending_approvals == Map::<Seq<char>, PendingApproval>::empty(),
    {
        let ghost listed = crate::actions::pairs(entries@);
        let mut bot = TelegramBot::default();
        let mut i: usize = 0;
        assert(listed.take(0) =~= Seq::empty());
        while i < entries.len()
            invariant
                i <= entries@.len(),
                listed == crate::actions::pairs(entries@),
                bot@.sessions == stored_sessions(listed.take(i as int)),
                bot@.session_to_chat == Map::<Seq<char>, i64>::empty(),
                bot@.turns == Map::<i64, TurnView>::empty(),
                bot@.pending_approvals == Map::<Seq<char>, PendingApproval>::empty(),
            decreases entries@.len() - i,
        {
            let ghost before = bot.sessions@;
            assert(listed.take(i + 1).drop_last() =~= listed.take(i as int));
            if let Some(chat_id) = session_chat_id(entries[i].0.as_str()) {
                bot.sessions.insert(chat_id, entries[i].1.clone());
                assert(bot@.sessions =~= before.map_values(|id: String| id@).insert(
                    chat_id,
                    listed[i as int].1,
                ));
            }
            i = i + 1;
        }
        assert(listed.take(i as int) =~= listed);
        let ghost sessions = bot@.sessions;
        let mut k: usize = 0;
        while k < entries.len()
            invariant
                k <= entries@.len(),
                listed == crate::actions::pairs(entries@),
                sessions == stored_sessions(listed),
                bot@.sessions == sessions,
                bot@.turns == Map::<i64, TurnView>::empty(),
                bot@.pending_approvals == Map::<Seq<char>, PendingApproval>::empty(),
                forall|id: Seq<char>| #[trigger]
                    bot@.session_to_chat.contains_key(id) ==> sessions.contains_key(
                        bot@.session_to_chat[id],
                    ) && sessions[bot@.session_to_chat[id]] == id,
                forall|j: int|
                    0 <= j < k ==> match session::chat_of_key((#[trigger] listed[j]).0) {
                        Some(chat_id) => bot@.session_to_chat.contains_key(sessions[chat_id]),
                        None => true,
                    },
            decreases entries@.len() - k,
        {
            if let Some(chat_id) = session_chat_id(entries[k].0.as_str()) {
                proof {
                    lemma_stored(listed, k as int);
                }
                if let Some(id) = bot.sessions.get(&chat_id) {
                    assert(bot@.sessions[chat_id] == id@);
                    let ghost before = bot@.session_to_chat;
                    assert(sessions.contains_key(chat_id));
                    bot.session_to_chat.insert(id.clone(), chat_id);
                    assert(bot@.session_to_chat == before.insert(sessions[chat_id], chat_id));
                }
            }
            k = k + 1;
        }
        proof {
            assert forall|chat_id: i64| #[trigger] sessions.contains_key(chat_id) implies
                bot@.session_to_chat.contains_key(sessions[chat_id]) by {
                let k = lemma_stored_from(listed, chat_id);
                assert(session::chat_of_key(listed[k].0) == Some(chat_id));
            }
        }
        bot
    }

    /// Find the chat of an event that names no session: the only one with a turn in progress.
    pub fn find_chat_for_event(&self) -> (found: Option<i64>)
        ensures
            found == chat_for_event(self@.turns),
    {
        assert(self@.turns.dom() =~= self.turns@.dom());
        if self.turns.len() == 1 {
            let mut found: Option<i64> = None;
            for chat_id in it: self.turns.keys()
                invariant
                    it.seq().unref().to_set() == self.turns@.dom(),
                    it.seq().len() == 1,
                    it.index() == 1 ==> (found matches Some(id) && self.turns@.contains_key(id)),
            {
                assert(it.seq().unref()[it.index() as int] == *chat_id);
                assert(it.seq().unref().to_set().contains(*chat_id));
                found = Some(*chat_id);
            }
            let ghost chat_id = found->0;
            proof {
                let dom = self.turns@.dom();
                assert(dom.contains(chat_id));
                Set::lemma_is_singleton(dom);
                assert(dom =~= set![chat_id]);
                assert(only_turn(self@.turns, chat_id));
                assert forall|other: i64| only_turn(self@.turns, other) implies other
                    == chat_id by {
                    assert(set![other].contains(chat_id));
                }
            }
            found
        } else {
            proof {
                assert forall|chat_id: i64| !only_turn(self@.turns, chat_id) by {
                    if only_turn(self@.turns, chat_id) {
                        assert(set![chat_id].len() == 1);
                    }
                }
            }
            None
        }
    }
}

} // verus!
