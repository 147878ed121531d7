use capsule_telegram::ipc::{envelope_messages, ipc_messages};
use capsule_telegram::json::{parse_json, Json};

fn text(string: &str) -> Json {
    Json::Text(string.to_string())
}

fn object(fields: Vec<(&str, Json)>) -> Json {
    Json::Fields(fields.into_iter().map(|(name, value)| (name.to_string(), value)).collect())
}

#[test]
fn documents_are_read() {
    let json = parse_json(" {\"a\": [null, true, 1.5, \"x\\né\"], \"b\": {\"c\": false}} ".as_bytes())
        .unwrap();
    let items = json.get("a").unwrap().as_list().unwrap();
    assert_eq!(items.len(), 4);
    assert!(matches!(items[0], Json::Null));
    assert!(matches!(items[1], Json::Bool(true)));
    assert!(matches!(items[2], Json::Number));
    assert_eq!(items[3].as_str(), Some("x\né"));
    assert!(matches!(json.get("b").unwrap().get("c"), Some(Json::Bool(false))));
    assert!(json.get("c").is_none());
    assert!(items[0].get("a").is_none());
}

#[test]
fn other_bytes_are_no_documents() {
    assert!(parse_json(b"").is_none());
    assert!(parse_json(b"{").is_none());
    assert!(parse_json(b"{} {}").is_none());
    assert!(parse_json(&[0xff, 0xfe]).is_none());
}

#[test]
fn the_last_of_equal_names_counts_in_documents() {
    let json = parse_json(br#"{"a": "one", "a": "two"}"#).unwrap();
    assert_eq!(json.text_or("a", ""), "two");
}

#[test]
fn members_have_defaults() {
    let json = object(vec![("name", text("n")), ("number", Json::Number), ("on", Json::Bool(true))]);
    assert_eq!(json.text_or("name", "d"), "n");
    assert_eq!(json.text_or("number", "d"), "d");
    assert_eq!(json.text_or("none", "d"), "d");
    assert_eq!(text("t").text_or("name", "d"), "d");
    assert!(json.flag("on"));
    assert!(!json.flag("name"));
    assert!(!json.flag("none"));
}

#[test]
fn copies_are_equal() {
    let json = object(vec![
        ("a", Json::List(vec![text("x"), Json::Null, object(vec![("b", Json::Bool(false))])])),
        ("c", Json::Number),
    ]);
    assert_eq!(format!("{:?}", json.duplicate()), format!("{json:?}"));
}

#[test]
fn envelopes_list_messages() {
    let envelope = object(vec![(
        "messages",
        Json::List(vec![
            object(vec![("topic", text("a.b")), ("payload", text("one"))]),
            object(vec![("topic", text("no payload"))]),
            object(vec![("payload", Json::Null)]),
            text("no object"),
            object(vec![("topic", Json::Number), ("payload", text("two"))]),
        ]),
    )]);
    let messages = envelope_messages(&envelope);
    assert_eq!(messages.len(), 3);
    assert_eq!(messages[0].topic, "a.b");
    assert_eq!(messages[0].payload.as_str(), Some("one"));
    assert_eq!(messages[1].topic, "");
    assert!(matches!(messages[1].payload, Json::Null));
    assert_eq!(messages[2].topic, "");
    assert_eq!(messages[2].payload.as_str(), Some("two"));
}

#[test]
fn other_envelopes_are_empty() {
    assert!(envelope_messages(&Json::Null).is_empty());
    assert!(envelope_messages(&object(vec![("messages", text("x"))])).is_empty());
    assert!(envelope_messages(&object(vec![("others", Json::List(vec![]))])).is_empty());
}

#[test]
fn polls_are_read() {
    let bytes = br#"{"messages":[{"topic":"agent.v1.response","payload":{"type":"agent_response"}}],"dropped":0}"#;
    let messages = ipc_messages(bytes);
    assert_eq!(messages.len(), 1);
    assert_eq!(messages[0].topic, "agent.v1.response");
    assert_eq!(messages[0].payload.text_or("type", ""), "agent_response");
    assert!(ipc_messages(b"not json").is_empty());
    assert!(ipc_messages(b"[]").is_empty());
}
