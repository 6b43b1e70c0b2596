use protests::replies::{
    protest_change_reply, protest_page_missing, protest_form_missing, login_reply,
    is_image_field, image_path, missing_image_reply, ProtestChange, Reply, LoginReply,
};

#[test]
fn a_change_that_went_through_leads_to_the_list() {
    assert_eq!(protest_change_reply(ProtestChange::Add, Ok(())), Reply::Redirect("/protests".to_string()));
}

#[test]
fn a_failed_change_names_itself_and_the_error() {
    assert_eq!(
        protest_change_reply(ProtestChange::Add, Err("boom".to_string())),
        Reply::Status { code: 500, body: "Failed to add protest: boom".to_string() }
    );
    assert_eq!(
        protest_change_reply(ProtestChange::Update, Err("x".to_string())),
        Reply::Status { code: 500, body: "Failed to update protest: x".to_string() }
    );
    assert_eq!(
        protest_change_reply(ProtestChange::Delete, Err("y".to_string())),
        Reply::Status { code: 500, body: "Failed to delete protest: y".to_string() }
    );
}

#[test]
fn a_missing_protest_is_not_found() {
    assert_eq!(
        protest_page_missing("no rows"),
        Reply::Status { code: 404, body: "Protest not found no rows".to_string() }
    );
    assert_eq!(protest_form_missing(), Reply::Status { code: 404, body: "Protest not found".to_string() });
}

#[test]
fn a_valid_login_code_signs_the_user_in() {
    match login_reply(5, Ok(Some(5))) {
        LoginReply::SignIn { cookie, redirect } => {
            assert_eq!(cookie.name, "user_id");
            assert_eq!(cookie.value, "5");
            assert_eq!(cookie.max_age_days, 30);
            assert_eq!(redirect, "/");
        }
        LoginReply::NotFound => panic!("expected a sign-in"),
    }
}

#[test]
fn an_invalid_login_code_is_not_found() {
    assert_eq!(login_reply(5, Ok(None)), LoginReply::NotFound);
    assert_eq!(login_reply(5, Err("db".to_string())), LoginReply::NotFound);
}

#[test]
fn only_the_image_field_carries_the_image() {
    assert!(is_image_field(Some("image")));
    assert!(!is_image_field(Some("images")));
    assert!(!is_image_field(None));
    assert_eq!(image_path("uploads", "f1"), "uploads/f1");
    assert_eq!(missing_image_reply(), Reply::Status { code: 400, body: "No image field found".to_string() });
}
