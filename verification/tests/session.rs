use protests::session::{
    parse_i32, format_i32, extract_user, cookie_language, language_cookie, user_cookie,
    login_link, DEFAULT_LANGUAGE,
};

#[test]
fn integers_are_read_as_std_reads_them() {
    for s in ["0", "42", "+7", "-13", "007", "2147483647", "-2147483648", "2147483648", "-2147483649",
        "", "+", "-", " 1", "1 ", "1a", "--1", "99999999999999999999", "٣"] {
        assert_eq!(parse_i32(s), s.parse::<i32>().ok(), "{:?}", s);
    }
}

#[test]
fn integers_are_written_as_std_writes_them() {
    for v in [0, 7, 10, -1, 123456, i32::MAX, i32::MIN] {
        assert_eq!(format_i32(v), v.to_string());
    }
}

#[test]
fn the_user_cookie_is_read_back() {
    for id in [1, 0, -5, i32::MAX, i32::MIN] {
        let cookie = user_cookie(id);
        assert_eq!(cookie.name, "user_id");
        assert_eq!(cookie.max_age_days, 30);
        assert_eq!(cookie.path, None);
        assert_eq!(extract_user(Some(cookie.value)), Some(id));
    }
}

#[test]
fn a_missing_or_garbled_user_cookie_is_no_user() {
    assert_eq!(extract_user(None), None);
    assert_eq!(extract_user(Some("abc".to_string())), None);
}

#[test]
fn the_language_defaults_to_slovak() {
    assert_eq!(cookie_language(None), "sk");
    assert_eq!(DEFAULT_LANGUAGE, "sk");
    assert_eq!(cookie_language(Some("en".to_string())), "en");
}

#[test]
fn the_chosen_language_is_read_back() {
    let cookie = language_cookie("en-US");
    assert_eq!(cookie.name, "language");
    assert_eq!(cookie.max_age_days, 30);
    assert_eq!(cookie.path, Some("/".to_string()));
    assert_eq!(cookie_language(Some(cookie.value)), "en-US");
}

#[test]
fn the_login_link_names_user_and_code() {
    assert_eq!(login_link(12, "ab-cd"), "/login/code/12/ab-cd");
}
