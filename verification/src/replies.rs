//! What the pages of the site answer once the database has answered them:
//! where a change of a protest leads, what a missing protest or a failed
//! change shows, how a login link is honoured, and where an uploaded image
//! is stored.
use vstd::prelude::*;
use vstd::string::*;
use crate::session::{CookieSpec, user_cookie, decimal, USER_COOKIE, COOKIE_MAX_AGE_DAYS};

verus! {

/// The status of a request that failed on the server.
pub const STATUS_SERVER_ERROR: u16 = 500;

/// The status of a request for something that is not there.
pub const STATUS_NOT_FOUND: u16 = 404;

/// The status of a request that lacks what it must send.
pub const STATUS_BAD_REQUEST: u16 = 400;

/// The page that lists the protests, where a change leads.
pub const PROTESTS_PAGE: &'static str = "/protests";

/// The front page, where a login leads.
pub const HOME_PAGE: &'static str = "/";

/// The form field that carries an uploaded image.
pub const IMAGE_FIELD: &'static str = "image";

/// An answer that is not a rendered page: a redirect to a path, or a status
/// with a text.
#[derive(Clone, Debug, PartialEq, Eq)]
pub enum Reply {
    Redirect(String),
    Status { code: u16, body: String },
}

/// A change of a protest.
#[derive(Clone, Copy, Debug, PartialEq, Eq)]
pub enum ProtestChange {
    Add,
    Update,
    Delete,
}

/// The answer to a login link.
#[derive(Clone, Debug, PartialEq, Eq)]
pub enum LoginReply {
    /// Set the cookie, then go to the path.
    SignIn { cookie: CookieSpec, redirect: String },
    NotFound,
}

/// The verb that names a change in its error text.
pub open spec fn change_verb(change: ProtestChange) -> Seq<char> {
    match change {
        ProtestChange::Add => "add"@,
        ProtestChange::Update => "update"@,
        ProtestChange::Delete => "delete"@,
    }
}

/// The text of a change that failed with `error`.
pub open spec fn change_failure_text(change: ProtestChange, error: Seq<char>) -> Seq<char> {
    "Failed to "@ + change_verb(change) + " protest: "@ + error
}

/// What a change of a protest answers: the list of protests where it went
/// through, else a server error with the error's text.
pub fn protest_change_reply(change: ProtestChange, outcome: Result<(), String>) -> (r: Reply)
    ensures
        match outcome {
            Ok(()) => r matches Reply::Redirect(to) && to@ == PROTESTS_PAGE@,
            Err(e) => r matches Reply::Status { code, body } && code == STATUS_SERVER_ERROR
                && body@ == change_failure_text(change, e@),
        },
{
    match outcome {
        Ok(()) => Reply::Redirect(String::from_str(PROTESTS_PAGE)),
        Err(e) => {
            let mut body = String::from_str("Failed to ");
            match change {
                ProtestChange::Add => body.append("add"),
                ProtestChange::Update => body.append("update"),
                ProtestChange::Delete => body.append("delete"),
            }
            body.append(" protest: ");
            body.append(e.as_str());
            Reply::Status { code: STATUS_SERVER_ERROR, body }
        },
    }
}

/// What the page of a protest answers where the protest cannot be read:
/// not found, with the error's text.
pub fn protest_page_missing(error: &str) -> (r: Reply)
    ensures
        r matches Reply::Status { code, body } && code == STATUS_NOT_FOUND && body@
            == "Protest not found "@ + error@,
{
    let mut body = String::from_str("Protest not found ");
    body.append(error);
    Reply::Status { code: STATUS_NOT_FOUND, body }
}

/// What the form to edit a protest answers where the protest cannot be
/// read: not found.
pub fn protest_form_missing() -> (r: Reply)
    ensures
        r matches Reply::Status { code, body } && code == STATUS_NOT_FOUND && body@
            == "Protest not found"@,
{
    Reply::Status { code: STATUS_NOT_FOUND, body: String::from_str("Protest not found") }
}

/// What a login link for the user `user_id` answers, given what the check
/// of its code found: where the code holds (the user was found), the user
/// cookie for `user_id` and the front page; else not found, whether the
/// code is wrong, expired, or the check failed.
pub fn login_reply(user_id: i32, check: Result<Option<i32>, String>) -> (r: LoginReply)
    ensures
        match check {
            Ok(Some(_)) => r matches LoginReply::SignIn { cookie, redirect } && cookie.name@
                == USER_COOKIE@ && cookie.value@ == decimal(user_id as int) && cookie.max_age_days
                == COOKIE_MAX_AGE_DAYS && cookie.path is None && redirect@ == HOME_PAGE@,
            _ => r is NotFound,
        },
{
    match check {
        Ok(Some(_)) => LoginReply::SignIn {
            cookie: user_cookie(user_id),
            redirect: String::from_str(HOME_PAGE),
        },
        _ => LoginReply::NotFound,
    }
}

/// Whether a form field named `name` carries the uploaded image.
pub fn is_image_field(name: Option<&str>) -> (r: bool)
    ensures
        r == (name matches Some(n) && n@ == IMAGE_FIELD@),
{
    match name {
        Some(n) => String::from_str(n) == String::from_str(IMAGE_FIELD),
        None => false,
    }
}

/// Where an uploaded image named `file_name` is stored under `directory`.
pub fn image_path(directory: &str, file_name: &str) -> (r: String)
    ensures
        r@ == directory@ + "/"@ + file_name@,
{
    let mut r = String::from_str(directory);
    r.append("/");
    r.append(file_name);
    r
}

/// What an upload answers that has no image field.
pub fn missing_image_reply() -> (r: Reply)
    ensures
        r matches Reply::Status { code, body } && code == STATUS_BAD_REQUEST && body@
            == "No image field found"@,
{
    Reply::Status { code: STATUS_BAD_REQUEST, body: String::from_str("No image field found") }
}

} // verus!
