use capsule_telegram::access::{is_user_allowed, parse_allowed_users};

#[test]
fn parse_allowed_users_basic() {
    assert_eq!(parse_allowed_users("123,456,789"), vec![123, 456, 789]);
}

#[test]
fn parse_allowed_users_with_spaces() {
    assert_eq!(parse_allowed_users(" 123 , 456 , 789 "), vec![123, 456, 789]);
}

#[test]
fn parse_allowed_users_empty_string() {
    assert_eq!(parse_allowed_users(""), Vec::<i64>::new());
}

#[test]
fn parse_allowed_users_ignores_invalid() {
    assert_eq!(parse_allowed_users("123,abc,456"), vec![123, 456]);
}

#[test]
fn parse_allowed_users_single() {
    assert_eq!(parse_allowed_users("42"), vec![42]);
}

#[test]
fn is_user_allowed_empty_allows_all() {
    assert!(is_user_allowed(&[], Some(999)));
    assert!(is_user_allowed(&[], None));
}

#[test]
fn is_user_allowed_present() {
    assert!(is_user_allowed(&[100, 200, 300], Some(200)));
}

#[test]
fn is_user_allowed_absent() {
    assert!(!is_user_allowed(&[100, 200], Some(999)));
}

#[test]
fn is_user_allowed_none_user_id() {
    assert!(!is_user_allowed(&[100], None));
}

#[test]
fn parse_allowed_users_signs_and_limits() {
    assert_eq!(
        parse_allowed_users("+7,-8,9223372036854775807,-9223372036854775808,9223372036854775808"),
        vec![7, -8, i64::MAX, i64::MIN]
    );
}

#[test]
fn parse_allowed_users_agrees_with_the_standard_library() {
    let parts = [
        "", " ", "1", "01", "+", "-", "--1", "1 2", "\t12\n", "\u{3000}3\u{a0}", "٣", "1_000", "0x1",
        "1e3", "-0", "18446744073709551616", "9223372036854775808", "-9223372036854775809",
    ];
    for part in parts {
        let list = format!("5,{part},6");
        let mut expected = vec![5];
        if let Ok(id) = part.trim().parse::<i64>() {
            expected.push(id);
        }
        expected.push(6);
        assert_eq!(parse_allowed_users(&list), expected, "part {part:?}");
    }
}

#[test]
fn written_lists_read_back() {
    let ids: Vec<i64> = vec![0, 1, -1, 5_000_000_000, i64::MAX, i64::MIN];
    let mut list = String::new();
    for (i, id) in ids.iter().enumerate() {
        if i > 0 {
            list.push(',');
        }
        list.push_str(&id.to_string());
    }
    assert_eq!(parse_allowed_users(&list), ids);
    assert!(is_user_allowed(&parse_allowed_users(&list), Some(-1)));
    assert!(!is_user_allowed(&parse_allowed_users(&list), Some(2)));
}
