use protests::model::{CalendarDate, ClockTime, Protest, ProtestSave, ProtestSearch};
use protests::queries::{
    list_protests_query, get_protest_statement, insert_protest_statement, tag_statements,
    edit_protest_statements, delete_protest_statement, save_login_code_statement,
    check_login_code_statement, save_image_statement, list_regions_statement,
    list_protests_statement, join_texts, SqlValue, LIST_PROTESTS_HEAD, LIST_PROTESTS_TAIL,
    GET_PROTEST_SQL, INSERT_PROTEST_SQL, INSERT_TAGS_SQL, LINK_TAGS_SQL, UPDATE_PROTEST_SQL,
    UNLINK_TAGS_SQL, DELETE_PROTEST_SQL, SAVE_LOGIN_CODE_SQL, CHECK_LOGIN_CODE_SQL,
    SAVE_IMAGE_SQL, LIST_REGIONS_SQL,
};

fn empty_search() -> ProtestSearch {
    ProtestSearch { town: None, date_from: None, tags: None, created_by: None }
}

fn strings(v: &[&str]) -> Vec<String> {
    v.iter().map(|s| s.to_string()).collect()
}

#[test]
fn an_empty_search_lists_all_protests_not_deleted() {
    let q = list_protests_query(&empty_search());
    assert_eq!(q, format!("{}p.deleted IS NULL{}", LIST_PROTESTS_HEAD, LIST_PROTESTS_TAIL));
}

#[test]
fn a_full_search_joins_its_conditions() {
    let search = ProtestSearch {
        town: Some("ba".to_string()),
        date_from: Some("2021-01-01".to_string()),
        tags: Some(strings(&["tag1", "tag2"])),
        created_by: Some("user".to_string()),
    };
    let q = list_protests_query(&search);
    let where_clause = "p.deleted IS NULL AND (r.id = 'ba' OR r2.id = 'ba') AND p.protest_date >= '2021-01-01' AND t.name IN ('tag1', 'tag2') AND u.name = 'user'";
    assert_eq!(q, format!("{}{}{}", LIST_PROTESTS_HEAD, where_clause, LIST_PROTESTS_TAIL));
}

#[test]
fn an_empty_tag_list_still_adds_its_condition() {
    let mut search = empty_search();
    search.tags = Some(Vec::new());
    let q = list_protests_query(&search);
    assert_eq!(q, format!("{}p.deleted IS NULL AND t.name IN (){}", LIST_PROTESTS_HEAD, LIST_PROTESTS_TAIL));
}

#[test]
fn the_query_text_is_the_one_of_the_site() {
    assert!(LIST_PROTESTS_HEAD.starts_with("SELECT\n            p.id,"));
    assert!(LIST_PROTESTS_HEAD.ends_with("        WHERE "));
    assert!(LIST_PROTESTS_TAIL.ends_with("GROUP BY\n            p.id, r.name, r2.name, user_name, image_name"));
}

#[test]
fn join_puts_the_separator_between_parts() {
    assert_eq!(join_texts(&strings(&["a", "b", "c"]), ", "), "a, b, c");
    assert_eq!(join_texts(&strings(&["a"]), ", "), "a");
    assert_eq!(join_texts(&Vec::new(), ", "), "");
}

fn date() -> CalendarDate {
    CalendarDate { year: 2024, month: 5, day: 1 }
}

fn time() -> ClockTime {
    ClockTime { hour: 17, minute: 0 }
}

#[test]
fn a_new_protest_binds_its_fields_in_order() {
    let p = ProtestSave {
        title: "T".to_string(),
        description: "D".to_string(),
        tags: strings(&["x"]),
        date: date(),
        time: time(),
        location: "L".to_string(),
        image_id: Some(4),
    };
    let s = insert_protest_statement(&p, 9);
    assert_eq!(s.sql, INSERT_PROTEST_SQL);
    assert_eq!(
        s.args,
        vec![
            SqlValue::Text("T".to_string()),
            SqlValue::Text("D".to_string()),
            SqlValue::Date(date()),
            SqlValue::Time(time()),
            SqlValue::Text("L".to_string()),
            SqlValue::Int(9),
            SqlValue::Int(1),
            SqlValue::OptionalInt(Some(4)),
        ]
    );
}

#[test]
fn tags_are_stored_then_linked() {
    let r = tag_statements(3, &strings(&["a", "b"]));
    assert_eq!(r.len(), 2);
    assert_eq!(r[0].sql, INSERT_TAGS_SQL);
    assert_eq!(r[0].args, vec![SqlValue::TextList(strings(&["a", "b"]))]);
    assert_eq!(r[1].sql, LINK_TAGS_SQL);
    assert_eq!(r[1].args, vec![SqlValue::Int(3), SqlValue::TextList(strings(&["a", "b"]))]);
}

#[test]
fn an_edit_updates_then_relinks_the_tags() {
    let p = Protest {
        id: 12,
        title: "T".to_string(),
        description: "D".to_string(),
        tags: strings(&["a"]),
        town: None,
        region: None,
        date: date(),
        time: time(),
        location: "L".to_string(),
        user_id: 2,
        user_name: "u".to_string(),
        image_name: None,
    };
    let r = edit_protest_statements(&p);
    let sqls: Vec<&str> = r.iter().map(|s| s.sql.as_str()).collect();
    assert_eq!(sqls, vec![UPDATE_PROTEST_SQL, UNLINK_TAGS_SQL, INSERT_TAGS_SQL, LINK_TAGS_SQL]);
    assert_eq!(
        r[0].args,
        vec![
            SqlValue::Text("T".to_string()),
            SqlValue::Text("D".to_string()),
            SqlValue::Date(date()),
            SqlValue::Time(time()),
            SqlValue::Text("L".to_string()),
            SqlValue::Int(1),
            SqlValue::Int(12),
        ]
    );
    assert_eq!(r[1].args, vec![SqlValue::Int(12)]);
    assert_eq!(r[3].args, vec![SqlValue::Int(12), SqlValue::TextList(strings(&["a"]))]);
}

#[test]
fn the_other_statements_bind_their_values() {
    let s = get_protest_statement(5);
    assert_eq!((s.sql.as_str(), s.args), (GET_PROTEST_SQL, vec![SqlValue::Int(5)]));
    let s = delete_protest_statement(6);
    assert_eq!((s.sql.as_str(), s.args), (DELETE_PROTEST_SQL, vec![SqlValue::Int(6)]));
    let s = save_login_code_statement("a@b.sk", "c0de");
    assert_eq!(
        (s.sql.as_str(), s.args),
        (SAVE_LOGIN_CODE_SQL, vec![SqlValue::Text("a@b.sk".to_string()), SqlValue::Text("c0de".to_string())])
    );
    let s = check_login_code_statement(7, "c0de", 3);
    assert_eq!(
        (s.sql.as_str(), s.args),
        (CHECK_LOGIN_CODE_SQL, vec![SqlValue::Int(7), SqlValue::Text("c0de".to_string()), SqlValue::Int(3)])
    );
    let s = save_image_statement("f", 8);
    assert_eq!((s.sql.as_str(), s.args), (SAVE_IMAGE_SQL, vec![SqlValue::Text("f".to_string()), SqlValue::Int(8)]));
    let s = list_regions_statement();
    assert_eq!((s.sql.as_str(), s.args), (LIST_REGIONS_SQL, vec![]));
    let s = list_protests_statement(&empty_search());
    assert_eq!(s.sql, list_protests_query(&empty_search()));
    assert!(s.args.is_empty());
}
