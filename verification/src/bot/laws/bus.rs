//! What the events of the IPC bus lead to, told from the members of their payloads.
use vstd::prelude::*;

use crate::actions::{NextView, StepView};
use crate::bot;
use crate::bot::events;
use crate::bot::requests;
use crate::bot::turns;
use crate::bot::{BotView, TurnView};
use crate::json;
use crate::json::JsonView;

verus! {

/// True when `value` is an object whose first member called `name` is `held`.
pub open spec fn has(value: JsonView, name: Seq<char>, held: JsonView) -> bool {
    value matches JsonView::Fields(fields) && exists|i: int|
        0 <= i < fields.len() && #[trigger] fields[i] == (name, held) && forall|j: int|
            0 <= j < i ==> (#[trigger] fields[j]).0 != name
}

/// True when `value` has no member called `name`.
pub open spec fn lacks(value: JsonView, name: Seq<char>) -> bool {
    value matches JsonView::Fields(fields) ==> forall|i: int|
        0 <= i < fields.len() ==> (#[trigger] fields[i]).0 != name
}

/// True when `value` has the string `held` as its member called `name`, or none and `held` is
/// `default`.
pub open spec fn gives(
    value: JsonView,
    name: Seq<char>,
    held: Seq<char>,
    default: Seq<char>,
) -> bool {
    ||| has(value, name, JsonView::Text(held))
    ||| lacks(value, name) && held == default
    ||| exists|other: JsonView|
        #[trigger] has(value, name, other) && !(other is Text) && held == default
}

/// A member is found at its place.
proof fn lemma_lookup(fields: Seq<(Seq<char>, JsonView)>, name: Seq<char>, i: int)
    requires
        0 <= i < fields.len(),
        fields[i].0 == name,
        forall|j: int| 0 <= j < i ==> (#[trigger] fields[j]).0 != name,
    ensures
        json::lookup(fields, name) == Some(fields[i].1),
    decreases i,
{
    if i > 0 {
        assert(fields[0].0 != name);
        let rest = fields.skip(1);
        assert(rest[i - 1] == fields[i]);
        assert forall|j: int| 0 <= j < i - 1 implies (#[trigger] rest[j]).0 != name by {
            assert(rest[j] == fields[j + 1]);
        }
        lemma_lookup(rest, name, i - 1);
    }
}

/// The member called `name` is the first of that name.
pub proof fn lemma_has(value: JsonView, name: Seq<char>, held: JsonView)
    requires
        has(value, name, held),
    ensures
        json::member(value, name) == Some(held),
{
    let fields = value->Fields_0;
    let i = choose|i: int|
        0 <= i < fields.len() && #[trigger] fields[i] == (name, held) && forall|j: int|
            0 <= j < i ==> (#[trigger] fields[j]).0 != name;
    lemma_lookup(fields, name, i);
}

/// No member is found where there is none of the name.
pub proof fn lemma_lacks(value: JsonView, name: Seq<char>)
    requires
        lacks(value, name),
    ensures
        json::member(value, name) is None,
{
    if let JsonView::Fields(fields) = value {
        lemma_lookup_nothing(fields, name);
    }
}

proof fn lemma_lookup_nothing(fields: Seq<(Seq<char>, JsonView)>, name: Seq<char>)
    requires
        forall|i: int| 0 <= i < fields.len() ==> (#[trigger] fields[i]).0 != name,
    ensures
        json::lookup(fields, name) is None,
    decreases fields.len(),
{
    if fields.len() > 0 {
        assert(fields[0].0 != name);
        assert forall|i: int| 0 <= i < fields.skip(1).len() implies (#[trigger] fields.skip(1)[
        i]).0 != name by {
            assert(fields.skip(1)[i] == fields[i + 1]);
        }
        lemma_lookup_nothing(fields.skip(1), name);
    }
}

/// The string that a member gives is read.
pub proof fn strings_are_read(value: JsonView, name: Seq<char>, held: Seq<char>, default: Seq<char>)
    requires
        gives(value, name, held, default),
    ensures
        json::text_or(value, name, default) == held,
{
    if has(value, name, JsonView::Text(held)) {
        lemma_has(value, name, JsonView::Text(held));
    } else if lacks(value, name) {
        lemma_lacks(value, name);
    } else {
        let other = choose|other: JsonView|
            #[trigger] has(value, name, other) && !(other is Text) && held == default;
        lemma_has(value, name, other);
    }
}

/// What is looked up is a member.
proof fn lemma_lookup_found(fields: Seq<(Seq<char>, JsonView)>, name: Seq<char>) -> (i: int)
    requires
        json::lookup(fields, name) is Some,
    ensures
        0 <= i < fields.len(),
        fields[i] == (name, json::lookup(fields, name)->0),
        forall|j: int| 0 <= j < i ==> (#[trigger] fields[j]).0 != name,
    decreases fields.len(),
{
    if fields[0].0 == name {
        0
    } else {
        let i = lemma_lookup_found(fields.skip(1), name);
        assert(fields.skip(1)[i] == fields[i + 1]);
        assert forall|j: int| 0 <= j < i + 1 implies (#[trigger] fields[j]).0 != name by {
            if j > 0 {
                assert(fields.skip(1)[j - 1] == fields[j]);
            }
        }
        i + 1
    }
}

/// A flag is set where the member is the value `true`, and nowhere else.
pub proof fn flags_are_read(value: JsonView, name: Seq<char>)
    ensures
        json::flag(value, name) == has(value, name, JsonView::Bool(true)),
{
    if has(value, name, JsonView::Bool(true)) {
        lemma_has(value, name, JsonView::Bool(true));
    }
    if json::flag(value, name) {
        let i = lemma_lookup_found(value->Fields_0, name);
        assert(has(value, name, JsonView::Bool(true)));
    }
}

/// A step that does nothing.
pub open spec fn rests() -> StepView {
    StepView { actions: Seq::empty(), next: NextView::Idle }
}

/// The names of the events are different, and none is empty.
proof fn lemma_kinds_differ()
    ensures
        "agent_response"@ != "approval_required"@,
        "agent_response"@ != "elicit_request"@,
        "approval_required"@ != "elicit_request"@,
{
    reveal_strlit("agent_response");
    reveal_strlit("approval_required");
    reveal_strlit("elicit_request");
    assert("agent_response"@[1] == 'g');
    assert("approval_required"@[1] == 'p');
    assert("elicit_request"@[1] == 'l');
}

/// A response for a session that leads to a chat is a final text for that chat where it is
/// marked as final, and a piece of its answer elsewhere. One for an unknown session is passed
/// over.
pub proof fn responses_reach_their_chat(
    bot: BotView,
    topic: Seq<char>,
    payload: JsonView,
    session_id: Seq<char>,
    text: Seq<char>,
    now: int,
)
    requires
        has(payload, "type"@, JsonView::Text("agent_response"@)),
        gives(payload, "session_id"@, session_id, ""@),
        gives(payload, "text"@, text, ""@),
    ensures
        ({
            let outcome = events::on_event(bot, topic, payload, now);
            let chat_id = bot.session_to_chat[session_id];
            let known = bot.session_to_chat.contains_key(session_id);
            let ends = has(payload, "is_final"@, JsonView::Bool(true));
            &&& known && ends ==> outcome == turns::on_final(bot, chat_id, text)
            &&& known && !ends ==> outcome == turns::on_delta(bot, chat_id, text, now)
            &&& !known ==> outcome == (bot, rests())
        }),
{
    lemma_has(payload, "type"@, JsonView::Text("agent_response"@));
    strings_are_read(payload, "session_id"@, session_id, ""@);
    strings_are_read(payload, "text"@, text, ""@);
    flags_are_read(payload, "is_final"@);
}

/// An event of no other kind on a topic of streamed text is a piece of the answer for the chat of
/// its session. On all other topics it is passed over.
pub proof fn streamed_text_reaches_its_chat(
    bot: BotView,
    topic: Seq<char>,
    payload: JsonView,
    kind: Seq<char>,
    session_id: Seq<char>,
    text: Seq<char>,
    now: int,
)
    requires
        gives(payload, "type"@, kind, ""@),
        kind != "agent_response"@,
        kind != "approval_required"@,
        kind != "elicit_request"@,
        gives(payload, "session_id"@, session_id, ""@),
        gives(payload, "text"@, text, ""@),
    ensures
        ({
            let outcome = events::on_event(bot, topic, payload, now);
            let chat_id = bot.session_to_chat[session_id];
            let streamed = topic.len() >= 15 && topic.take(15) == "agent.v1.stream"@;
            let known = bot.session_to_chat.contains_key(session_id);
            &&& streamed && known ==> outcome == turns::on_delta(bot, chat_id, text, now)
            &&& !streamed || !known ==> outcome == (bot, rests())
        }),
{
    reveal_strlit("agent.v1.stream");
    strings_are_read(payload, "type"@, kind, ""@);
    strings_are_read(payload, "session_id"@, session_id, ""@);
    strings_are_read(payload, "text"@, text, ""@);
}

/// A request names no session: it is put to the only chat with a turn in progress, if there is
/// exactly one.
pub proof fn requests_go_to_the_only_turn(turns: Map<i64, TurnView>, a: i64, b: i64)
    ensures
        turns.dom() == set![a] ==> bot::chat_for_event(turns) == Some(a),
        turns.contains_key(a) && turns.contains_key(b) && a != b ==> bot::chat_for_event(
            turns,
        ) is None,
        turns.dom() == Set::<i64>::empty() ==> bot::chat_for_event(turns) is None,
{
    if turns.dom() == set![a] {
        assert(bot::only_turn(turns, a));
        let chosen = choose|chat_id: i64| bot::only_turn(turns, chat_id);
        assert(bot::only_turn(turns, chosen));
        assert(set![chosen].contains(a));
    }
    if exists|chat_id: i64| bot::only_turn(turns, chat_id) {
        let chosen = choose|chat_id: i64| bot::only_turn(turns, chat_id);
        assert(turns.dom().contains(chosen));
        if turns.contains_key(a) && turns.contains_key(b) {
            assert(set![chosen].contains(a));
            assert(set![chosen].contains(b));
        }
    }
}

/// A request for an approval is put to the only chat with a turn, with what its members say. The
/// action is unknown where they do not say it. Where there is no such chat, it is passed over.
pub proof fn approvals_reach_their_chat(
    bot: BotView,
    topic: Seq<char>,
    payload: JsonView,
    request_id: Seq<char>,
    action: Seq<char>,
    resource: Seq<char>,
    reason: Seq<char>,
    chat_id: i64,
    other: i64,
    now: int,
)
    requires
        has(payload, "type"@, JsonView::Text("approval_required"@)),
        gives(payload, "request_id"@, request_id, ""@),
        gives(payload, "action"@, action, "unknown"@),
        gives(payload, "resource"@, resource, ""@),
        gives(payload, "reason"@, reason, ""@),
    ensures
        ({
            let outcome = events::on_event(bot, topic, payload, now);
            let several = bot.turns.contains_key(chat_id) && bot.turns.contains_key(other)
                && chat_id != other;
            &&& bot.turns.dom() == set![chat_id] ==> outcome == requests::on_approval(
                bot,
                chat_id,
                request_id,
                action,
                resource,
                reason,
            )
            &&& several || bot.turns.dom() == Set::<i64>::empty() ==> outcome == (bot, rests())
        }),
{
    lemma_kinds_differ();
    lemma_has(payload, "type"@, JsonView::Text("approval_required"@));
    strings_are_read(payload, "request_id"@, request_id, ""@);
    strings_are_read(payload, "action"@, action, "unknown"@);
    strings_are_read(payload, "resource"@, resource, ""@);
    strings_are_read(payload, "reason"@, reason, ""@);
    requests_go_to_the_only_turn(bot.turns, chat_id, other);
}

/// A request for a value is put to the only chat with a turn, with its field. Where there is no
/// such chat, it is passed over. The bot stays as it is.
pub proof fn elicitations_reach_their_chat(
    bot: BotView,
    topic: Seq<char>,
    payload: JsonView,
    request_id: Seq<char>,
    field: JsonView,
    chat_id: i64,
    other: i64,
    now: int,
)
    requires
        has(payload, "type"@, JsonView::Text("elicit_request"@)),
        gives(payload, "request_id"@, request_id, ""@),
    ensures
        ({
            let (after, step) = events::on_event(bot, topic, payload, now);
            let several = bot.turns.contains_key(chat_id) && bot.turns.contains_key(other)
                && chat_id != other;
            &&& after == bot
            &&& bot.turns.dom() == set![chat_id] && has(payload, "field"@, field) ==> step
                == requests::on_elicitation(chat_id, request_id, Some(field))
            &&& bot.turns.dom() == set![chat_id] && lacks(payload, "field"@) ==> step
                == requests::on_elicitation(chat_id, request_id, None)
            &&& several || bot.turns.dom() == Set::<i64>::empty() ==> step == rests()
        }),
{
    lemma_kinds_differ();
    lemma_has(payload, "type"@, JsonView::Text("elicit_request"@));
    strings_are_read(payload, "request_id"@, request_id, ""@);
    if has(payload, "field"@, field) {
        lemma_has(payload, "field"@, field);
    }
    if lacks(payload, "field"@) {
        lemma_lacks(payload, "field"@);
    }
    requests_go_to_the_only_turn(bot.turns, chat_id, other);
}

} // verus!
