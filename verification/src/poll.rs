//! Polling Telegram for updates, each time from where the last poll left off.
use vstd::prelude::*;

use crate::types::{offset_after, Update};

verus! {

/// Telegram long-poll timeout (seconds). Kept short so that IPC events are processed between
/// polls.
pub const POLL_TIMEOUT: u32 = 1;

/// Pause after a failed poll (seconds).
pub const RETRY_PAUSE: u64 = 2;

/// KV key for the last processed Telegram update offset.
pub const KV_OFFSET: &'static str = "tg.offset";

/// A call of `getUpdates`.
#[derive(Debug)]
pub struct Poll {
    /// The first update to return.
    pub offset: i64,
    /// How long to wait for updates, in seconds.
    pub timeout: u32,
}

/// What is to be done before the next poll.
#[derive(Debug)]
pub enum AfterPoll {
    /// Put `offset` into the store, under `key`.
    Store { key: &'static str, offset: i64 },
    /// Wait.
    Pause { seconds: u64 },
}

/// The state of polling.
#[derive(Debug)]
pub struct Poller {
    /// Where the next poll starts.
    pub offset: i64,
}

/// The offset of the first poll, with `stored` in the store.
pub open spec fn first_offset(stored: Option<int>) -> int {
    match stored {
        Some(offset) => offset,
        None => 0,
    }
}

/// The number of an offset that was read from the store.
pub open spec fn number(stored: Option<i64>) -> Option<int> {
    match stored {
        Some(offset) => Some(offset as int),
        None => None,
    }
}

/// The IDs of `updates`.
pub open spec fn ids(updates: Seq<Update>) -> Seq<int> {
    updates.map_values(|update: Update| update.update_id as int)
}

/// What a poll returned: the IDs of the updates, or nothing where it failed.
pub open spec fn returned(updates: Option<&Vec<Update>>) -> Option<Seq<int>> {
    match updates {
        Some(list) => Some(ids(list@)),
        None => None,
    }
}

/// The offset behind a poll from `offset` on: behind the last update, or the same where the poll
/// failed or returned none.
pub open spec fn offset_behind(offset: int, round: Option<Seq<int>>) -> int {
    match round {
        Some(list) if list.len() > 0 => list.last() + 1,
        _ => offset,
    }
}

/// The offset of the poll behind `rounds`, which began with `stored` in the store.
pub open spec fn offset_at(stored: Option<int>, rounds: Seq<Option<Seq<int>>>) -> int
    decreases rounds.len(),
{
    if rounds.len() == 0 {
        first_offset(stored)
    } else {
        offset_behind(offset_at(stored, rounds.drop_last()), rounds.last())
    }
}

/// What the store holds behind `rounds`: the offset behind each poll that did not fail is put
/// into it.
pub open spec fn stored_at(stored: Option<int>, rounds: Seq<Option<Seq<int>>>) -> Option<int>
    decreases rounds.len(),
{
    if rounds.len() == 0 {
        stored
    } else if rounds.last() is Some {
        Some(offset_at(stored, rounds))
    } else {
        stored_at(stored, rounds.drop_last())
    }
}

impl Poller {
    /// Begin with what the store holds under [`KV_OFFSET`].
    pub fn start(stored: Option<i64>) -> (poller: Poller)
        ensures
            poller.offset == first_offset(number(stored)),
    {
        match stored {
            Some(offset) => Poller { offset },
            None => Poller { offset: 0 },
        }
    }

    /// The next call of `getUpdates`.
    pub fn poll(&self) -> (poll: Poll)
        ensures
            poll.offset == self.offset,
            poll.timeout == 1,
    {
        Poll { offset: self.offset, timeout: POLL_TIMEOUT }
    }

    /// Take note of the updates that a poll returned, or that it failed.
    pub fn hear(&mut self, updates: Option<&Vec<Update>>) -> (after: AfterPoll)
        requires
            updates matches Some(list) ==> forall|i: int|
                0 <= i < list@.len() ==> (#[trigger] list@[i]).update_id < i64::MAX,
        ensures
            final(self).offset == offset_behind(old(self).offset as int, returned(updates)),
            match after {
                AfterPoll::Store { key, offset } => updates is Some && key@ == "tg.offset"@
                    && offset == final(self).offset,
                AfterPoll::Pause { seconds } => updates is None && seconds == 2,
            },
    {
        match updates {
            Some(list) => {
                self.offset = offset_after(self.offset, list);
                AfterPoll::Store { key: KV_OFFSET, offset: self.offset }
            },
            None => AfterPoll::Pause { seconds: RETRY_PAUSE },
        }
    }
}

/// Behind a poll that returned updates, the store holds the offset behind the last of them, and
/// the next poll starts there. Behind one that failed or returned none, the next poll starts
/// where the last one did.
pub proof fn polls_go_on(
    stored: Option<int>,
    rounds: Seq<Option<Seq<int>>>,
    round: Option<Seq<int>>,
)
    ensures
        match round {
            Some(list) if list.len() > 0 => {
                &&& offset_at(stored, rounds.push(round)) == list.last() + 1
                &&& stored_at(stored, rounds.push(round)) == Some(list.last() + 1)
            },
            _ => offset_at(stored, rounds.push(round)) == offset_at(stored, rounds),
        },
{
    assert(rounds.push(round).drop_last() =~= rounds);
}

/// The offset outlives the bot: after a restart, the first poll starts where the next one would
/// have started.
pub proof fn offset_outlives_the_bot(stored: Option<int>, rounds: Seq<Option<Seq<int>>>)
    ensures
        offset_at(stored_at(stored, rounds), Seq::empty()) == offset_at(stored, rounds),
    decreases rounds.len(),
{
    if rounds.len() > 0 && rounds.last() is None {
        offset_outlives_the_bot(stored, rounds.drop_last());
    }
}

/// Polling starts at the offset in the store, at zero where there is none. What a poll returned is
/// the IDs of its updates in their order, and nothing where it failed.
pub proof fn polls_start_at_the_store(stored: i64, list: Vec<Update>)
    ensures
        offset_at(number(Some(stored)), Seq::empty()) == stored,
        offset_at(number(None), Seq::empty()) == 0,
        returned(None) is None,
        returned(Some(&list)) == Some(
            Seq::new(list@.len(), |i: int| list@[i].update_id as int),
        ),
{
    assert(ids(list@) =~= Seq::new(list@.len(), |i: int| list@[i].update_id as int));
}

} // verus!
