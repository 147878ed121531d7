use capsule_telegram::digits::{parse_integer, push_integer, push_numeral};
use capsule_telegram::session::{
    new_session_id, session_chat_id, session_id_at, session_kv_key,
};
use capsule_telegram::words::{is_whitespace, word_of};

#[test]
fn new_session_id_format() {
    let sid = new_session_id(12345);
    assert!(sid.starts_with("tg-12345-"));
    // Should contain a hex timestamp after the second dash.
    let parts: Vec<&str> = sid.splitn(3, '-').collect();
    assert_eq!(parts.len(), 3);
    assert_eq!(parts[0], "tg");
    assert_eq!(parts[1], "12345");
    assert!(u128::from_str_radix(parts[2], 16).is_ok());
}

#[test]
fn new_session_id_unique() {
    let a = new_session_id(1);
    // Let the clock move on, so that the timestamp differs.
    let start = std::time::Instant::now();
    while start.elapsed() < std::time::Duration::from_millis(2) {}
    let b = new_session_id(1);
    assert_ne!(a, b);
}

#[test]
fn new_session_id_tells_the_time() {
    let before = std::time::SystemTime::now()
        .duration_since(std::time::UNIX_EPOCH)
        .unwrap()
        .as_millis();
    let sid = new_session_id(7);
    let after = std::time::SystemTime::now()
        .duration_since(std::time::UNIX_EPOCH)
        .unwrap()
        .as_millis();
    let millis = u128::from_str_radix(sid.strip_prefix("tg-7-").unwrap(), 16).unwrap();
    assert!(before <= millis && millis <= after);
}

#[test]
fn session_id_at_is_hexadecimal() {
    assert_eq!(session_id_at(12345, 0), "tg-12345-0");
    assert_eq!(session_id_at(-100, 0x18f2_a3b4_c5d6), "tg--100-18f2a3b4c5d6");
    assert_eq!(session_id_at(1, u128::MAX), format!("tg-1-{:x}", u128::MAX));
}

#[test]
fn sessions_of_different_chats_differ() {
    assert_ne!(session_id_at(1, 0x11), session_id_at(11, 0x1));
    assert_ne!(session_id_at(1, 5), session_id_at(-1, 5));
    assert_ne!(session_id_at(1, 5), session_id_at(1, 6));
}

#[test]
fn session_keys_lead_back() {
    assert_eq!(session_kv_key(42), "tg.session.42");
    assert_eq!(session_kv_key(i64::MIN), "tg.session.-9223372036854775808");
    for chat_id in [0, 1, -1, 42, i64::MAX, i64::MIN] {
        assert_eq!(session_chat_id(&session_kv_key(chat_id)), Some(chat_id));
    }
}

#[test]
fn other_keys_belong_to_no_session() {
    assert_eq!(session_chat_id("tg.session."), None);
    assert_eq!(session_chat_id("tg.session.x"), None);
    assert_eq!(session_chat_id("tg.session. 1"), None);
    assert_eq!(session_chat_id("tg.offset"), None);
    assert_eq!(session_chat_id("xtg.session.1"), None);
    assert_eq!(session_chat_id("tg.session.+5"), Some(5));
}

#[test]
fn integers_are_written_and_read() {
    for i in [0, 9, 10, -10, 1234567890, i64::MAX, i64::MIN] {
        let mut string = String::new();
        push_integer(&mut string, i);
        assert_eq!(string, i.to_string());
        assert_eq!(parse_integer(&string), Some(i));
    }
    let mut string = "n=".to_string();
    push_numeral(&mut string, 255, 16);
    assert_eq!(string, "n=ff");
    assert_eq!(parse_integer(""), None);
    assert_eq!(parse_integer("-"), None);
    assert_eq!(parse_integer("9223372036854775808"), None);
}

#[test]
fn whitespace_is_that_of_unicode() {
    for scalar in 0..=0x10ffffu32 {
        if let Some(c) = char::from_u32(scalar) {
            assert_eq!(is_whitespace(c), c.is_whitespace(), "{c:?}");
        }
    }
}

#[test]
fn first_words() {
    for string in ["", "  ", "/start", "/start now", " \t/help\u{a0}me", "a\nb", "é è"] {
        assert_eq!(word_of(string), string.split_whitespace().next().unwrap_or(""));
    }
}
