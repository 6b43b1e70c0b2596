use protests::model::{parse_tags, parse_time, ClockTime, is_white_space_char};

fn strings(v: &[&str]) -> Vec<String> {
    v.iter().map(|s| s.to_string()).collect()
}

#[test]
fn tags_are_split_at_commas_and_trimmed() {
    assert_eq!(parse_tags("climate, peace ,  housing"), strings(&["climate", "peace", "housing"]));
}

#[test]
fn empty_tag_text_gives_one_empty_tag() {
    assert_eq!(parse_tags(""), strings(&[""]));
}

#[test]
fn empty_pieces_are_kept() {
    assert_eq!(parse_tags(" a ,, b ,"), strings(&["a", "", "b", ""]));
}

#[test]
fn unicode_white_space_is_trimmed() {
    assert_eq!(parse_tags("\u{3000}mier\u{a0},\tžiaci\n"), strings(&["mier", "žiaci"]));
}

#[test]
fn inner_white_space_stays() {
    assert_eq!(parse_tags("human rights"), strings(&["human rights"]));
}

#[test]
fn white_space_agrees_with_std() {
    for u in 0u32..0x3100 {
        if let Some(c) = char::from_u32(u) {
            assert_eq!(is_white_space_char(c), c.is_whitespace(), "{:?}", c);
        }
    }
}

#[test]
fn time_is_read_as_hour_and_minute() {
    assert_eq!(parse_time("18:30"), Some(ClockTime { hour: 18, minute: 30 }));
    assert_eq!(parse_time("00:00"), Some(ClockTime { hour: 0, minute: 0 }));
    assert_eq!(parse_time("23:59"), Some(ClockTime { hour: 23, minute: 59 }));
}

#[test]
fn time_out_of_range_is_refused() {
    assert_eq!(parse_time("24:00"), None);
    assert_eq!(parse_time("12:60"), None);
}

#[test]
fn time_in_another_form_is_refused() {
    assert_eq!(parse_time("7:05"), None);
    assert_eq!(parse_time("07:05:00"), None);
    assert_eq!(parse_time("07-05"), None);
    assert_eq!(parse_time(""), None);
    assert_eq!(parse_time(" 7:05"), None);
    assert_eq!(parse_time("٠٧:٠٥"), None);
}
