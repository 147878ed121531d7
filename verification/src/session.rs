//! Session IDs, and the keys under which sessions are kept.
use std::time::{Duration, SystemTime, UNIX_EPOCH};
use vstd::prelude::*;
use vstd::string::*;

use crate::digits;
use crate::digits::{parse_integer, push_integer, push_numeral};
use crate::format::escape;
use crate::format::escape::matches_at;
use crate::text::{chars_of, string_of};

verus! {

/// The system's clock, as `std::time` reads it.
#[verifier::external_type_specification]
#[verifier::external_body]
pub struct ExSystemTime(SystemTime);

/// `SystemTime::now`: nothing is claimed of the time that it returns.
pub assume_specification[ SystemTime::now ]() -> SystemTime
;

/// `SystemTime::duration_since`, applied to the Unix epoch. There is no such span for a time in
/// front of the epoch. Nothing is claimed of the span.
#[verifier::external_body]
fn since_epoch(time: SystemTime) -> Option<Duration> {
    match time.duration_since(UNIX_EPOCH) {
        Ok(elapsed) => Some(elapsed),
        Err(_) => None,
    }
}

/// `Duration::as_millis`: nothing is claimed of the number that it returns.
pub assume_specification[ Duration::as_millis ](duration: &Duration) -> u128
;

/// What the keys of all sessions begin with.
pub const SESSION_PREFIX: &'static str = "tg.session.";

/// The ID of the session that chat `chat_id` starts at `millis` milliseconds since the epoch.
pub open spec fn session_id(chat_id: i64, millis: nat) -> Seq<char> {
    "tg-"@ + digits::integer(chat_id as int) + "-"@ + digits::numeral(millis, 16)
}

/// The key under which the session of chat `chat_id` is kept.
pub open spec fn session_key(chat_id: i64) -> Seq<char> {
    SESSION_PREFIX@ + digits::integer(chat_id as int)
}

/// The chat whose session is kept under `key`, if it is the key of a session.
pub open spec fn chat_of_key(key: Seq<char>) -> Option<i64> {
    if escape::begins_with(key, SESSION_PREFIX@) {
        digits::parsed(key.skip(SESSION_PREFIX@.len() as int))
    } else {
        None
    }
}

/// The ID of the session that chat `chat_id` starts at `millis` milliseconds since the epoch.
pub fn session_id_at(chat_id: i64, millis: u128) -> (id: String)
    ensures
        id@ == session_id(chat_id, millis as nat),
{
    let mut id = "tg-".to_owned();
    push_integer(&mut id, chat_id);
    id.append("-");
    push_numeral(&mut id, millis, 16);
    id
}

/// Generate a session ID from the chat and the time. Where the clock stands in front of the
/// epoch, the epoch is taken.
pub fn new_session_id(chat_id: i64) -> (id: String)
    ensures
        exists|millis: u128| id@ == #[trigger] session_id(chat_id, millis as nat),
{
    let millis = match since_epoch(SystemTime::now()) {
        Some(elapsed) => elapsed.as_millis(),
        None => 0,
    };
    session_id_at(chat_id, millis)
}

/// The key under which the session of chat `chat_id` is kept.
pub fn session_kv_key(chat_id: i64) -> (key: String)
    ensures
        key@ == session_key(chat_id),
{
    let mut key = SESSION_PREFIX.to_owned();
    push_integer(&mut key, chat_id);
    key
}

/// The chat whose session is kept under `key`.
pub fn session_chat_id(key: &str) -> (chat_id: Option<i64>)
    ensures
        chat_id == chat_of_key(key@),
{
    let chars = chars_of(key);
    let prefix = chars_of(SESSION_PREFIX);
    assert(key@.skip(0) =~= key@);
    if matches_at(&chars, 0, &prefix) {
        let rest = string_of(&chars, prefix.len(), chars.len());
        assert(rest@ =~= key@.skip(prefix@.len() as int));
        parse_integer(rest.as_str())
    } else {
        None
    }
}

/// The chat of a session is found again from the key under which the session is kept.
pub proof fn key_leads_back(chat_id: i64)
    ensures
        chat_of_key(session_key(chat_id)) == Some(chat_id),
{
    let key = session_key(chat_id);
    let prefix = SESSION_PREFIX@;
    assert(key.take(prefix.len() as int) =~= prefix);
    assert(key.skip(prefix.len() as int) =~= digits::integer(chat_id as int));
    digits::lemma_integer_parses(chat_id);
}

/// No two chats keep their sessions under the same key.
pub proof fn keys_differ(a: i64, b: i64)
    requires
        a != b,
    ensures
        session_key(a) != session_key(b),
{
    key_leads_back(a);
    key_leads_back(b);
}

/// Sessions of different chats, and sessions that one chat starts at different milliseconds,
/// have different IDs.
pub proof fn session_ids_differ(a: i64, m: nat, b: i64, n: nat)
    requires
        a != b || m != n,
    ensures
        session_id(a, m) != session_id(b, n),
{
    reveal_strlit("tg-");
    reveal_strlit("-");
    let x = digits::integer(a as int);
    let i = x.len() as int;
    let y = digits::integer(b as int);
    let j = y.len() as int;
    let h = digits::numeral(m, 16);
    let k = digits::numeral(n, 16);
    digits::lemma_integer_chars(a as int);
    digits::lemma_integer_chars(b as int);
    let s = session_id(a, m);
    let t = session_id(b, n);
    if s == t {
        assert(s[3 + i] == '-');
        assert(t[3 + j] == '-');
        if i < j {
            assert(t[3 + i] == y[i]);
        } else if j < i {
            assert(s[3 + j] == x[j]);
        }
        assert(i == j);
        assert(s.subrange(3, 3 + i) =~= x);
        assert(t.subrange(3, 3 + j) =~= y);
        digits::lemma_integer_injective(a as int, b as int);
        assert(s.skip(4 + i) =~= h);
        assert(t.skip(4 + j) =~= k);
        digits::lemma_numeral_injective(m, n, 16);
    }
}

/// The ID of a session names the bot, its chat and, in base sixteen, the time. The key of a
/// session is told by its prefix, and what follows that is the number of the chat. No other key
/// is the key of a session.
pub proof fn ids_and_keys_are_written_out(chat_id: i64, millis: nat, key: Seq<char>)
    ensures
        session_id(chat_id, millis) == "tg-"@ + digits::integer(chat_id as int) + "-"@
            + digits::numeral(millis, 16),
        session_key(chat_id) == "tg.session."@ + digits::integer(chat_id as int),
        chat_of_key("tg.session."@ + key) == digits::parsed(key),
        (forall|rest: Seq<char>| key != #[trigger] ("tg.session."@ + rest)) ==> chat_of_key(
            key,
        ) is None,
{
    let prefix = "tg.session."@;
    assert((prefix + key).take(prefix.len() as int) =~= prefix);
    assert((prefix + key).skip(prefix.len() as int) =~= key);
    if escape::begins_with(key, prefix) {
        assert(key =~= prefix + key.skip(prefix.len() as int));
    }
}

} // verus!
