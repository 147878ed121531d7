//! The store keeps the sessions of the bot.
use vstd::prelude::*;

use super::conduct;
use crate::actions::{ActionView, NextView, Outcome};
use crate::bot;
use crate::bot::BotView;
use crate::bot::callbacks;
use crate::bot::events;
use crate::bot::messages;
use crate::bot::resume;
use crate::digits;
use crate::json::JsonView;
use crate::session;
use crate::types::{CallbackQuery, TgMessage};

verus! {

/// The store once `action` is through.
pub open spec fn stored(store: Map<Seq<char>, Seq<char>>, action: ActionView) -> Map<
    Seq<char>,
    Seq<char>,
> {
    match action {
        ActionView::SaveSession { key, session_id } => store.insert(key, session_id),
        ActionView::DeleteSession { key } => store.remove(key),
        _ => store,
    }
}

/// The store once the actions of `list` are through.
pub open spec fn store_after(store: Map<Seq<char>, Seq<char>>, list: Seq<ActionView>) -> Map<
    Seq<char>,
    Seq<char>,
>
    decreases list.len(),
{
    if list.len() == 0 {
        store
    } else {
        stored(store_after(store, list.drop_last()), list.last())
    }
}

/// True when the store keeps exactly `sessions`, each under the key of its chat. It may keep
/// other things under other keys.
pub open spec fn keeps(store: Map<Seq<char>, Seq<char>>, sessions: Map<i64, Seq<char>>) -> bool {
    &&& forall|chat_id: i64| #[trigger]
        sessions.contains_key(chat_id) ==> store.contains_key(session::session_key(chat_id))
            && store[session::session_key(chat_id)] == sessions[chat_id]
    &&& forall|key: Seq<char>| #[trigger]
        store.contains_key(key) ==> match session::chat_of_key(key) {
            Some(chat_id) => key == session::session_key(chat_id) && sessions.contains_key(chat_id),
            None => true,
        }
}

/// True when `list` changes nothing in the store.
pub open spec fn leaves_store(list: Seq<ActionView>) -> bool {
    forall|i: int|
        0 <= i < list.len() ==> !(#[trigger] list[i] is SaveSession) && !(
        list[i] is DeleteSession)
}

/// Actions that change nothing in the store leave it as it is.
proof fn lemma_store_untouched(store: Map<Seq<char>, Seq<char>>, list: Seq<ActionView>)
    requires
        leaves_store(list),
    ensures
        store_after(store, list) == store,
    decreases list.len(),
{
    if list.len() > 0 {
        assert(!(list[list.len() - 1] is SaveSession));
        assert forall|i: int| 0 <= i < list.len() - 1 implies !(#[trigger] list.drop_last()[
        i] is SaveSession) && !(list.drop_last()[i] is DeleteSession) by {
            assert(list.drop_last()[i] == list[i]);
        }
        lemma_store_untouched(store, list.drop_last());
    }
}

/// Two actions, of which the second changes nothing in the store.
proof fn lemma_store_after_two(store: Map<Seq<char>, Seq<char>>, list: Seq<ActionView>)
    requires
        list.len() == 2,
        list[1] is SendMessage,
    ensures
        store_after(store, list) == stored(store, list[0]),
{
    let first = list.drop_last();
    assert(first.last() == list[0]);
    assert(first.drop_last() =~= Seq::empty());
    assert(store_after(store, first.drop_last()) == store);
    assert(store_after(store, first) == stored(store, list[0]));
}

/// The store keeps exactly the sessions of the bot, whatever message comes.
pub proof fn store_follows_messages(
    store: Map<Seq<char>, Seq<char>>,
    bot: BotView,
    allowed: Seq<i64>,
    msg: TgMessage,
    fresh: Seq<char>,
)
    requires
        keeps(store, bot.sessions),
    ensures
        ({
            let (after, step) = messages::on_message(bot, allowed, msg, fresh);
            keeps(store_after(store, step.actions), after.sessions)
        }),
{
    let chat_id = msg.chat.id;
    let key = session::session_key(chat_id);
    let (after, step) = messages::on_message(bot, allowed, msg, fresh);
    let list = step.actions;
    session::key_leads_back(chat_id);
    assert forall|other: i64| other != chat_id implies #[trigger] session::session_key(other)
        != key by {
        session::keys_differ(chat_id, other);
    }
    if list.len() == 2 {
        lemma_store_after_two(store, list);
    } else {
        lemma_store_untouched(store, list);
    }
    let kept = store_after(store, list);
    assert forall|other: i64| #[trigger] after.sessions.contains_key(other) implies {
        &&& kept.contains_key(session::session_key(other))
        &&& kept[session::session_key(other)] == after.sessions[other]
    } by {
        if other != chat_id {
            assert(bot.sessions.contains_key(other));
        }
    }
    assert forall|k: Seq<char>| #[trigger] kept.contains_key(k) implies match session::chat_of_key(
        k,
    ) {
        Some(other) => k == session::session_key(other) && after.sessions.contains_key(other),
        None => true,
    } by {
        if k != key {
            assert(store.contains_key(k));
        }
    }
}

/// Presses of buttons change nothing in the store.
proof fn lemma_presses_leave_store(bot: BotView, allowed: Seq<i64>, cb: CallbackQuery)
    ensures
        leaves_store(callbacks::on_callback(bot, allowed, cb).1.actions),
{
}

/// What follows on a step changes nothing in the store.
proof fn lemma_resuming_leaves_store(
    bot: BotView,
    next: NextView,
    outcomes: Seq<Outcome>,
    now: int,
)
    ensures
        leaves_store(resume::resumed(bot, next, outcomes, now).1.actions),
{
}

/// Nothing but messages changes the store.
pub proof fn only_messages_change_the_store(
    store: Map<Seq<char>, Seq<char>>,
    bot: BotView,
    allowed: Seq<i64>,
    cb: CallbackQuery,
    topic: Seq<char>,
    payload: JsonView,
    next: NextView,
    outcomes: Seq<Outcome>,
    now: int,
)
    ensures
        store_after(store, callbacks::on_callback(bot, allowed, cb).1.actions) == store,
        store_after(store, events::on_event(bot, topic, payload, now).1.actions) == store,
        store_after(store, resume::resumed(bot, next, outcomes, now).1.actions) == store,
{
    lemma_presses_leave_store(bot, allowed, cb);
    conduct::events_only_show(bot, topic, payload, now);
    lemma_resuming_leaves_store(bot, next, outcomes, now);
    let pressed = callbacks::on_callback(bot, allowed, cb).1.actions;
    let told = events::on_event(bot, topic, payload, now).1.actions;
    let after = resume::resumed(bot, next, outcomes, now).1.actions;
    lemma_store_untouched(store, pressed);
    lemma_store_untouched(store, told);
    lemma_store_untouched(store, after);
}

/// True when `entries` lists what the store keeps under the keys of sessions.
pub open spec fn lists(
    entries: Seq<(Seq<char>, Seq<char>)>,
    store: Map<Seq<char>, Seq<char>>,
) -> bool {
    &&& forall|i: int|
        0 <= i < entries.len() ==> store.contains_key((#[trigger] entries[i]).0)
            && store[entries[i].0] == entries[i].1
    &&& forall|key: Seq<char>| #[trigger]
        store.contains_key(key) && session::chat_of_key(key) is Some ==> exists|i: int|
            0 <= i < entries.len() && (#[trigger] entries[i]).0 == key
}

/// A bot that starts from a store that keeps the sessions of another has the same sessions.
pub proof fn sessions_outlive_the_bot(
    store: Map<Seq<char>, Seq<char>>,
    sessions: Map<i64, Seq<char>>,
    entries: Seq<(Seq<char>, Seq<char>)>,
)
    requires
        keeps(store, sessions),
        lists(entries, store),
    ensures
        bot::stored_sessions(entries) == sessions,
{
    let stored = bot::stored_sessions(entries);
    assert forall|chat_id: i64| stored.contains_key(chat_id) == sessions.contains_key(chat_id) by {
        if stored.contains_key(chat_id) {
            let k = bot::lemma_stored_from(entries, chat_id);
            assert(store.contains_key(entries[k].0));
        }
        if sessions.contains_key(chat_id) {
            let key = session::session_key(chat_id);
            session::key_leads_back(chat_id);
            assert(store.contains_key(key));
            let i = choose|i: int| 0 <= i < entries.len() && (#[trigger] entries[i]).0 == key;
            bot::lemma_stored(entries, i);
        }
    }
    assert forall|chat_id: i64| stored.contains_key(chat_id) implies stored[chat_id]
        == sessions[chat_id] by {
        let k = bot::lemma_stored_from(entries, chat_id);
        assert(store.contains_key(entries[k].0));
    }
    assert(stored =~= sessions);
}

/// Entries of the store are read one after the other: one more under the key of a chat gives that
/// chat its session, in place of an earlier one, and one under any other key gives none.
pub proof fn entries_are_read_in_order(
    entries: Seq<(Seq<char>, Seq<char>)>,
    key: Seq<char>,
    rest: Seq<char>,
    session_id: Seq<char>,
    chat_id: i64,
)
    ensures
        bot::stored_sessions(Seq::empty()) == Map::<i64, Seq<char>>::empty(),
        bot::stored_sessions(
            entries.push(("tg.session."@ + digits::integer(chat_id as int), session_id)),
        ) == bot::stored_sessions(entries).insert(chat_id, session_id),
        key == "tg.session."@ + rest ==> bot::stored_sessions(entries.push((key, session_id)))
            == match digits::parsed(rest) {
            Some(id) => bot::stored_sessions(entries).insert(id, session_id),
            None => bot::stored_sessions(entries),
        },
        (forall|end: Seq<char>| key != #[trigger] ("tg.session."@ + end))
            ==> bot::stored_sessions(entries.push((key, session_id))) == bot::stored_sessions(
            entries,
        ),
{
    let own = "tg.session."@ + digits::integer(chat_id as int);
    session::key_leads_back(chat_id);
    session::ids_and_keys_are_written_out(chat_id, 0, rest);
    session::ids_and_keys_are_written_out(chat_id, 0, key);
    assert(entries.push((own, session_id)).drop_last() =~= entries);
    assert(entries.push((key, session_id)).drop_last() =~= entries);
}

} // verus!
