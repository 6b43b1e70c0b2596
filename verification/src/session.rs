//! The session of a visitor, as two cookies hold it: the chosen language and,
//! once logged in, the id of the user. How the cookies are written and read
//! back, and the link that logs a user in.
use vstd::prelude::*;
use vstd::string::*;
use crate::model::{is_digit, digit_value};

verus! {

/// The cookie that holds the chosen language.
pub const LANGUAGE_COOKIE: &'static str = "language";

/// The cookie that holds the id of the logged-in user.
pub const USER_COOKIE: &'static str = "user_id";

/// The language of a visitor who has chosen none.
pub const DEFAULT_LANGUAGE: &'static str = "sk";

/// How long the cookies of the session last, in days.
pub const COOKIE_MAX_AGE_DAYS: i64 = 30;

/// A cookie to set: its name, value, lifetime in days, and the path it is
/// sent for, where one is set.
#[derive(Clone, Debug, PartialEq, Eq)]
pub struct CookieSpec {
    pub name: String,
    pub value: String,
    pub max_age_days: i64,
    pub path: Option<String>,
}

/// The character of the digit `d`.
pub open spec fn digit_char(d: int) -> char {
    (d + 0x30) as char
}

/// The decimal digits of `n`, most significant first, without leading zeros.
pub open spec fn digits_of(n: nat) -> Seq<char>
    decreases n,
{
    if n < 10 {
        seq![digit_char(n as int)]
    } else {
        digits_of(n / 10).push(digit_char((n % 10) as int))
    }
}

/// The decimal text of `v`, as `to_string` writes an integer: a minus sign
/// for a negative value, then the digits.
pub open spec fn decimal(v: int) -> Seq<char> {
    if v < 0 {
        seq!['-'] + digits_of((-v) as nat)
    } else {
        digits_of(v as nat)
    }
}

/// Whether all characters of `s` are digits.
pub open spec fn all_digits(s: Seq<char>) -> bool {
    forall|i: int| 0 <= i < s.len() ==> is_digit(#[trigger] s[i])
}

/// The value of the digits `s`, read as a decimal number.
pub open spec fn digits_value(s: Seq<char>) -> int
    decreases s.len(),
{
    if s.len() == 0 {
        0
    } else {
        digits_value(s.drop_last()) * 10 + digit_value(s.last())
    }
}

/// The integer that `s` writes, as `str::parse` reads one: an optional `+`
/// or `-`, then one digit or more, and nothing else.
pub open spec fn integer_of(s: Seq<char>) -> Option<int> {
    if s.len() > 0 && (s[0] == '+' || s[0] == '-') {
        let rest = s.drop_first();
        if rest.len() > 0 && all_digits(rest) {
            Some(
                if s[0] == '-' {
                    -digits_value(rest)
                } else {
                    digits_value(rest)
                },
            )
        } else {
            None
        }
    } else if s.len() > 0 && all_digits(s) {
        Some(digits_value(s))
    } else {
        None
    }
}

/// The `i32` that `s` writes, as `s.parse::<i32>()` reads it: `None` where
/// `s` writes no integer or one out of range.
pub open spec fn i32_of(s: Seq<char>) -> Option<i32> {
    match integer_of(s) {
        Some(v) => if i32::MIN <= v <= i32::MAX {
            Some(v as i32)
        } else {
            None
        },
        None => None,
    }
}

/// The language of a visitor: the one the language cookie names, else the
/// default language.
pub open spec fn language_of(cookie: Option<Seq<char>>) -> Seq<char> {
    match cookie {
        Some(lang) => lang,
        None => DEFAULT_LANGUAGE@,
    }
}

/// The user of a visitor: the id that the user cookie holds, where it holds
/// one.
pub open spec fn user_of(cookie: Option<Seq<char>>) -> Option<i32> {
    match cookie {
        Some(v) => i32_of(v),
        None => None,
    }
}

/// An optional text, by view.
pub open spec fn cookie_view(o: Option<String>) -> Option<Seq<char>> {
    match o {
        Some(s) => Some(s@),
        None => None,
    }
}

proof fn lemma_digits_value_grows(s: Seq<char>, i: int)
    requires
        0 <= i <= s.len(),
        all_digits(s),
    ensures
        digits_value(s) >= digits_value(s.subrange(0, i)),
        digits_value(s.subrange(0, i)) >= 0,
    decreases s.len() - i,
{
    if i == 0 {
        assert(s.subrange(0, 0).len() == 0);
        lemma_digits_value_nonneg(s);
    } else if i < s.len() {
        lemma_digits_value_grows(s, i + 1);
        assert(s.subrange(0, i + 1).drop_last() =~= s.subrange(0, i));
        assert(is_digit(s[i]));
    } else {
        assert(s.subrange(0, i) =~= s);
        lemma_digits_value_nonneg(s);
    }
}

proof fn lemma_digits_value_nonneg(s: Seq<char>)
    requires
        all_digits(s),
    ensures
        digits_value(s) >= 0,
    decreases s.len(),
{
    if s.len() > 0 {
        assert(all_digits(s.drop_last()));
        lemma_digits_value_nonneg(s.drop_last());
        assert(is_digit(s[s.len() - 1]));
    }
}

/// The `i32` that `s` writes, read as `s.parse::<i32>()` reads it: an
/// optional sign, then digits; `None` where `s` writes none or one out of
/// range.
pub fn parse_i32(s: &str) -> (r: Option<i32>)
    ensures
        r == i32_of(s@),
{
    let n = s.unicode_len();
    if n == 0 {
        return None;
    }
    let first = s.get_char(0);
    let negative = first == '-';
    let start: usize = if first == '+' || first == '-' { 1 } else { 0 };
    if start == n {
        return None;
    }
    let ghost body = s@.subrange(start as int, n as int);
    proof {
        if start == 1 {
            assert(body =~= s@.drop_first());
        } else {
            assert(body =~= s@);
        }
    }
    let mut acc: i64 = 0;
    let mut i: usize = start;
    while i < n
        invariant
            n == s@.len(),
            start <= i <= n,
            body == s@.subrange(start as int, n as int),
            s@.len() > 0,
            negative == (s@[0] == '-'),
            start == 0 || start == 1,
            start == 1 ==> (s@[0] == '+' || s@[0] == '-') && body == s@.drop_first(),
            start == 0 ==> !(s@[0] == '+' || s@[0] == '-') && body == s@,
            body.len() > 0,
            all_digits(s@.subrange(start as int, i as int)),
            acc == digits_value(s@.subrange(start as int, i as int)),
            0 <= acc <= 0x8000_0000,
        decreases n - i,
    {
        let c = s.get_char(i);
        let u = c as u32;
        if !(0x30 <= u && u <= 0x39) {
            proof {
                assert(!is_digit(c));
                assert(body[i - start] == c);
                assert(!is_digit(body[i - start]));
                assert(!all_digits(body));
                if start == 1 {
                    assert(s@.drop_first() == body);
                    assert(integer_of(s@) is None);
                } else {
                    assert(s@ == body);
                    assert(!(s@[0] == '+' || s@[0] == '-'));
                    assert(!all_digits(s@));
                    assert(integer_of(s@) is None);
                }
            }
            return None;
        }
        proof {
            assert(s@.subrange(start as int, i + 1).drop_last() =~= s@.subrange(start as int, i as int));
            assert(all_digits(s@.subrange(start as int, i + 1)));
        }
        acc = acc * 10 + (u - 0x30) as i64;
        i = i + 1;
        if acc > 0x8000_0000 {
            proof {
                if all_digits(body) {
                    assert(body.subrange(0, i - start) =~= s@.subrange(start as int, i as int));
                    lemma_digits_value_grows(body, i - start);
                    assert(digits_value(body) > 0x8000_0000);
                    if start == 1 {
                        assert(integer_of(s@) == Some(if s@[0] == '-' { -digits_value(body) } else { digits_value(body) }));
                    } else {
                        assert(integer_of(s@) == Some(digits_value(body)));
                    }
                }
                assert(i32_of(s@) is None);
            }
            return None;
        }
    }
    proof {
        assert(s@.subrange(start as int, n as int) =~= body);
    }
    if negative {
        Some((-acc) as i32)
    } else if acc <= 0x7fff_ffff {
        Some(acc as i32)
    } else {
        None
    }
}

/// The text of the digit `d`.
fn digit_text(d: u64) -> (r: &'static str)
    requires
        d < 10,
    ensures
        r@ == seq![digit_char(d as int)],
{
    proof {
        reveal_strlit("0");
        reveal_strlit("1");
        reveal_strlit("2");
        reveal_strlit("3");
        reveal_strlit("4");
        reveal_strlit("5");
        reveal_strlit("6");
        reveal_strlit("7");
        reveal_strlit("8");
        reveal_strlit("9");
    }
    let r = if d == 0 {
        "0"
    } else if d == 1 {
        "1"
    } else if d == 2 {
        "2"
    } else if d == 3 {
        "3"
    } else if d == 4 {
        "4"
    } else if d == 5 {
        "5"
    } else if d == 6 {
        "6"
    } else if d == 7 {
        "7"
    } else if d == 8 {
        "8"
    } else {
        "9"
    };
    assert(r@ =~= seq![digit_char(d as int)]);
    r
}

/// Appends the decimal digits of `n` to `out`.
fn append_digits(out: &mut String, n: u64)
    ensures
        final(out)@ == old(out)@ + digits_of(n as nat),
    decreases n,
{
    if n >= 10 {
        append_digits(out, n / 10);
    }
    out.append(digit_text(n % 10));
    proof {
        if n >= 10 {
            assert(digits_of(n as nat) == digits_of((n / 10) as nat).push(digit_char((n % 10) as int)));
        }
    }
    assert(final(out)@ =~= old(out)@ + digits_of(n as nat));
}

/// The decimal text of `v`, as `v.to_string()` writes it.
pub fn format_i32(v: i32) -> (r: String)
    ensures
        r@ == decimal(v as int),
{
    let mut r = String::new();
    if v < 0 {
        r.append("-");
        proof {
            reveal_strlit("-");
        }
        let magnitude: u64 = (0 - (v as i64)) as u64;
        append_digits(&mut r, magnitude);
        assert(r@ =~= decimal(v as int));
    } else {
        append_digits(&mut r, v as u64);
        assert(r@ =~= decimal(v as int));
    }
    r
}

/// The language of a visitor: the one the language cookie names, else the
/// default language.
pub fn cookie_language(cookie: Option<String>) -> (r: String)
    ensures
        r@ == language_of(cookie_view(cookie)),
{
    match cookie {
        Some(lang) => lang,
        None => String::from_str(DEFAULT_LANGUAGE),
    }
}

/// The user of a visitor: the id that the user cookie holds, where it holds
/// an integer; `None` where there is no such cookie or it holds none.
pub fn extract_user(user_cookie: Option<String>) -> (r: Option<i32>)
    ensures
        r == user_of(cookie_view(user_cookie)),
{
    match user_cookie {
        Some(v) => parse_i32(v.as_str()),
        None => None,
    }
}

/// The cookie that records the language `code` a visitor chose: for the
/// whole site, for 30 days.
pub fn language_cookie(code: &str) -> (c: CookieSpec)
    ensures
        c.name@ == LANGUAGE_COOKIE@,
        c.value@ == code@,
        c.max_age_days == COOKIE_MAX_AGE_DAYS,
        cookie_view(c.path) == Some("/"@),
{
    CookieSpec {
        name: String::from_str(LANGUAGE_COOKIE),
        value: String::from_str(code),
        max_age_days: COOKIE_MAX_AGE_DAYS,
        path: Some(String::from_str("/")),
    }
}

/// The cookie that records that the user `user_id` has logged in: its id in
/// decimal, for 30 days, no path set.
pub fn user_cookie(user_id: i32) -> (c: CookieSpec)
    ensures
        c.name@ == USER_COOKIE@,
        c.value@ == decimal(user_id as int),
        c.max_age_days == COOKIE_MAX_AGE_DAYS,
        c.path is None,
{
    CookieSpec {
        name: String::from_str(USER_COOKIE),
        value: format_i32(user_id),
        max_age_days: COOKIE_MAX_AGE_DAYS,
        path: None,
    }
}

/// The path of the link that logs the user `user_id` in with `code`.
pub open spec fn login_link_path(user_id: i32, code: Seq<char>) -> Seq<char> {
    "/login/code/"@ + decimal(user_id as int) + "/"@ + code
}

/// The link that logs the user `user_id` in with the login code `code`.
pub fn login_link(user_id: i32, code: &str) -> (r: String)
    ensures
        r@ == login_link_path(user_id, code@),
{
    let mut r = String::from_str("/login/code/");
    r.append(format_i32(user_id).as_str());
    r.append("/");
    r.append(code);
    r
}

proof fn lemma_digits_of(n: nat)
    ensures
        digits_of(n).len() > 0,
        all_digits(digits_of(n)),
        digits_value(digits_of(n)) == n,
        is_digit(digits_of(n)[0]),
    decreases n,
{
    if n < 10 {
        assert(digit_char(n as int) as int == n + 0x30);
        assert(digits_of(n).drop_last() =~= Seq::<char>::empty());
        assert(digits_value(digits_of(n)) == digits_value(Seq::<char>::empty()) * 10 + digit_value(digits_of(n).last()));
    } else {
        lemma_digits_of(n / 10);
        let d = digits_of(n);
        assert(d.drop_last() =~= digits_of(n / 10));
        assert(digit_char((n % 10) as int) as int == (n % 10) + 0x30);
        assert(d.last() == digit_char((n % 10) as int));
        assert(digits_value(d) == digits_value(digits_of(n / 10)) * 10 + digit_value(d.last()));
        assert((n / 10) * 10 + n % 10 == n) by (nonlinear_arith);
        assert(forall|i: int| 0 <= i < d.len() - 1 ==> d[i] == digits_of(n / 10)[i]);
        assert(all_digits(d)) by {
            assert forall|i: int| 0 <= i < d.len() implies is_digit(#[trigger] d[i]) by {
                if i < d.len() - 1 {
                    assert(is_digit(digits_of(n / 10)[i]));
                }
            }
        }
    }
}

/// The user id that a login writes into the user cookie is read back from
/// it as the same id: `extract_user` on the value of `user_cookie(id)` gives
/// `id`, for every `id`.
pub proof fn lemma_user_cookie_round_trip(id: i32)
    ensures
        user_of(Some(decimal(id as int))) == Some(id),
{
    let v = id as int;
    if v < 0 {
        let m = (-v) as nat;
        lemma_digits_of(m);
        let s = decimal(v);
        assert(s.drop_first() =~= digits_of(m));
        assert(integer_of(s) == Some(-digits_value(digits_of(m))));
    } else {
        lemma_digits_of(v as nat);
        let s = decimal(v);
        assert(!(s[0] == '+' || s[0] == '-'));
    }
}

/// The language that a visitor chooses is the language the site then uses:
/// the value of `language_cookie(code)`, read back by `cookie_language`, is
/// `code`.
pub proof fn lemma_language_cookie_round_trip(code: Seq<char>)
    ensures
        language_of(Some(code)) == code,
{
}

/// The login link of a user carries the whole code and the user's id: it
/// begins with `/login/code/`, ends with `/` and then the code, of whatever
/// length, and what stands between reads back as the id.
pub proof fn lemma_login_link_carries_code(user_id: i32, code: Seq<char>)
    ensures
        ({
            let path = login_link_path(user_id, code);
            let head = "/login/code/"@;
            let id_end = path.len() - code.len() - 1;
            &&& path.len() > head.len() + code.len()
            &&& path.subrange(0, head.len() as int) == head
            &&& path.subrange(path.len() - code.len(), path.len() as int) == code
            &&& path[id_end] == '/'
            &&& i32_of(path.subrange(head.len() as int, id_end)) == Some(user_id)
        }),
{
    reveal_strlit("/login/code/");
    reveal_strlit("/");
    let path = login_link_path(user_id, code);
    let head = "/login/code/"@;
    let d = decimal(user_id as int);
    lemma_user_cookie_round_trip(user_id);
    if user_id < 0 {
        lemma_digits_of((-(user_id as int)) as nat);
    } else {
        lemma_digits_of(user_id as nat);
    }
    assert(d.len() > 0);
    assert(path.subrange(0, head.len() as int) =~= head);
    assert(path.subrange(path.len() - code.len(), path.len() as int) =~= code);
    assert(path.subrange(head.len() as int, path.len() - code.len() - 1) =~= d);
}

} // verus!
