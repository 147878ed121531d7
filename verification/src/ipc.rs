//! Messages of the IPC bus, as a poll hands them over.
use vstd::prelude::*;

use crate::bot::laws::bus;
use crate::json;
use crate::json::{parse_json, Json, JsonView};

verus! {

/// A message of the IPC bus.
#[derive(Debug)]
pub struct IpcMessage {
    pub topic: String,
    pub payload: Json,
}

/// What a message of the IPC bus says.
pub struct IpcMessageView {
    pub topic: Seq<char>,
    pub payload: JsonView,
}

impl View for IpcMessage {
    type V = IpcMessageView;

    open spec fn view(&self) -> IpcMessageView {
        IpcMessageView { topic: self.topic@, payload: self.payload@ }
    }
}

/// The messages of `list`, one by one.
pub open spec fn message_views(list: Seq<IpcMessage>) -> Seq<IpcMessageView> {
    list.map_values(|message: IpcMessage| message@)
}

/// The messages among `items`: those that have a payload. One without a topic has the empty
/// one.
pub open spec fn with_payload(items: Seq<JsonView>) -> Seq<IpcMessageView>
    decreases items.len(),
{
    if items.len() == 0 {
        Seq::empty()
    } else {
        let front = with_payload(items.drop_last());
        match json::member(items.last(), "payload"@) {
            Some(payload) => front.push(
                IpcMessageView { topic: json::text_or(items.last(), "topic"@, ""@), payload },
            ),
            None => front,
        }
    }
}

/// The messages of an envelope, which lists them under `messages`.
pub open spec fn enveloped(envelope: JsonView) -> Seq<IpcMessageView> {
    match json::member(envelope, "messages"@) {
        Some(JsonView::List(items)) => with_payload(items),
        _ => Seq::empty(),
    }
}

/// The messages of an envelope.
pub fn envelope_messages(envelope: &Json) -> (messages: Vec<IpcMessage>)
    ensures
        message_views(messages@) == enveloped(envelope@),
{
    let mut messages: Vec<IpcMessage> = Vec::new();
    assert(message_views(messages@) =~= Seq::empty());
    let items = match envelope.get("messages") {
        Some(list) => match list.as_list() {
            Some(items) => items,
            None => return messages,
        },
        None => return messages,
    };
    let ghost all = json::list_view(items@);
    proof {
        json::lemma_list_view(items@);
        assert(all.take(0) =~= Seq::empty());
    }
    let mut i: usize = 0;
    while i < items.len()
        invariant
            i <= items@.len() == all.len(),
            forall|j: int| 0 <= j < items@.len() ==> #[trigger] all[j] == items@[j]@,
            message_views(messages@) == with_payload(all.take(i as int)),
        decreases items@.len() - i,
    {
        let item = &items[i];
        assert(all.take(i + 1).drop_last() =~= all.take(i as int));
        assert(all.take(i + 1).last() == item@);
        if let Some(payload) = item.get("payload") {
            let message = IpcMessage {
                topic: item.text_or("topic", "").to_owned(),
                payload: payload.duplicate(),
            };
            let ghost before = messages@;
            messages.push(message);
            assert(message_views(messages@) =~= message_views(before).push(message@));
        }
        i = i + 1;
    }
    assert(all.take(i as int) =~= all);
    messages
}

/// The messages that a poll of the IPC bus returned as `bytes`. Bytes that are no JSON
/// document hold none.
pub fn ipc_messages(bytes: &[u8]) -> (messages: Vec<IpcMessage>)
    ensures
        message_views(messages@) == match json::json_document(bytes@) {
            Some(envelope) => enveloped(envelope),
            None => Seq::empty(),
        },
{
    match parse_json(bytes) {
        Some(envelope) => envelope_messages(&envelope),
        None => {
            let messages: Vec<IpcMessage> = Vec::new();
            assert(message_views(messages@) =~= Seq::empty());
            messages
        },
    }
}

/// The messages of an envelope are listed under `messages`. They are read one after the other:
/// one more entry is one more message, with its topic and its payload, where it has a payload.
/// An envelope without such a list holds none.
pub proof fn messages_are_read_in_order(
    envelope: JsonView,
    items: Seq<JsonView>,
    item: JsonView,
    payload: JsonView,
    topic: Seq<char>,
    other: JsonView,
)
    ensures
        bus::has(envelope, "messages"@, JsonView::List(Seq::empty())) ==> enveloped(envelope)
            == Seq::<IpcMessageView>::empty(),
        bus::has(envelope, "messages"@, JsonView::List(items)) ==> enveloped(envelope)
            == with_payload(items),
        bus::lacks(envelope, "messages"@) ==> enveloped(envelope).len() == 0,
        bus::has(envelope, "messages"@, other) && !(other is List) ==> enveloped(envelope).len()
            == 0,
        bus::has(item, "payload"@, payload) && bus::gives(item, "topic"@, topic, ""@)
            ==> with_payload(items.push(item)) == with_payload(items).push(
            IpcMessageView { topic, payload },
        ),
        bus::lacks(item, "payload"@) ==> with_payload(items.push(item)) == with_payload(items),
{
    assert(items.push(item).drop_last() =~= items);
    if bus::has(envelope, "messages"@, JsonView::List(Seq::empty())) {
        bus::lemma_has(envelope, "messages"@, JsonView::List(Seq::empty()));
    }
    if bus::has(envelope, "messages"@, JsonView::List(items)) {
        bus::lemma_has(envelope, "messages"@, JsonView::List(items));
    }
    if bus::lacks(envelope, "messages"@) {
        bus::lemma_lacks(envelope, "messages"@);
    }
    if bus::has(envelope, "messages"@, other) {
        bus::lemma_has(envelope, "messages"@, other);
    }
    if bus::has(item, "payload"@, payload) && bus::gives(item, "topic"@, topic, ""@) {
        bus::lemma_has(item, "payload"@, payload);
        bus::strings_are_read(item, "topic"@, topic, ""@);
    }
    if bus::lacks(item, "payload"@) {
        bus::lemma_lacks(item, "payload"@);
    }
}

} // verus!
