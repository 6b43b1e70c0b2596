//! The records of the site (protests, their search, the login form) and how
//! the text that a form sends for the tags and the time of a protest is read.
use vstd::prelude::*;
use vstd::string::*;
use crate::queries::join;

verus! {

/// A day of the calendar, as the database stores the date of a protest.
#[derive(Clone, Copy, Debug, PartialEq, Eq)]
pub struct CalendarDate {
    pub year: i32,
    pub month: u8,
    pub day: u8,
}

/// A time of day to the minute, as a protest is scheduled.
#[derive(Clone, Copy, Debug, PartialEq, Eq)]
pub struct ClockTime {
    pub hour: u8,
    pub minute: u8,
}

/// A protest as it is listed and shown.
#[derive(Clone, Debug, PartialEq, Eq)]
pub struct Protest {
    pub id: i32,
    pub title: String,
    pub description: String,
    pub tags: Vec<String>,
    pub town: Option<String>,
    pub region: Option<String>,
    pub date: CalendarDate,
    pub time: ClockTime,
    pub location: String,
    pub user_id: i32,
    pub user_name: String,
    pub image_name: Option<String>,
}

/// A protest as the form to add one sends it.
#[derive(Clone, Debug, PartialEq, Eq)]
pub struct ProtestSave {
    pub title: String,
    pub description: String,
    pub tags: Vec<String>,
    pub date: CalendarDate,
    pub time: ClockTime,
    pub location: String,
    pub image_id: Option<i32>,
}

/// What the list of protests is filtered by; `None` filters nothing.
#[derive(Clone, Debug, PartialEq, Eq)]
pub struct ProtestSearch {
    pub town: Option<String>,
    pub date_from: Option<String>,
    pub tags: Option<Vec<String>>,
    pub created_by: Option<String>,
}

/// The form that asks for a login code.
#[derive(Clone, Debug, PartialEq, Eq)]
pub struct LoginForm {
    pub email: String,
}

/// The characters with the Unicode property White_Space, those that
/// `char::is_whitespace` accepts.
pub open spec fn is_white_space(c: char) -> bool {
    let u = c as int;
    ||| 0x9 <= u <= 0xd
    ||| u == 0x20
    ||| u == 0x85
    ||| u == 0xa0
    ||| u == 0x1680
    ||| 0x2000 <= u <= 0x200a
    ||| u == 0x2028
    ||| u == 0x2029
    ||| u == 0x202f
    ||| u == 0x205f
    ||| u == 0x3000
}

/// `s` without its leading white space.
pub open spec fn trim_start(s: Seq<char>) -> Seq<char>
    decreases s.len(),
{
    if s.len() > 0 && is_white_space(s[0]) {
        trim_start(s.drop_first())
    } else {
        s
    }
}

/// `s` without its trailing white space.
pub open spec fn trim_end(s: Seq<char>) -> Seq<char>
    decreases s.len(),
{
    if s.len() > 0 && is_white_space(s.last()) {
        trim_end(s.drop_last())
    } else {
        s
    }
}

/// `s` without leading and trailing white space, as `str::trim` gives it.
pub open spec fn trim(s: Seq<char>) -> Seq<char> {
    trim_end(trim_start(s))
}

/// The pieces of `s` between its commas, in order: one more piece than
/// there are commas, empty pieces included.
pub open spec fn split_commas(s: Seq<char>) -> Seq<Seq<char>>
    decreases s.len(),
{
    if s.len() == 0 {
        seq![Seq::<char>::empty()]
    } else {
        let rest = split_commas(s.drop_last());
        if s.last() == ',' {
            rest.push(Seq::<char>::empty())
        } else {
            rest.update(rest.len() - 1, rest.last().push(s.last()))
        }
    }
}

/// The tags that the text `s` of the tag field lists: its pieces between
/// commas, each trimmed.
pub open spec fn tags_of(s: Seq<char>) -> Seq<Seq<char>> {
    split_commas(s).map_values(|p: Seq<char>| trim(p))
}

/// Whether `c` is `0` to `9`.
pub open spec fn is_digit(c: char) -> bool {
    0x30 <= (c as int) <= 0x39
}

/// The value of the digit `c`.
pub open spec fn digit_value(c: char) -> int {
    (c as int) - 0x30
}

/// The hour and minute that `s` gives in the form `HH:MM`: two digits of an
/// hour up to 23, a colon, two digits of a minute up to 59, nothing else.
pub open spec fn hour_minute_of(s: Seq<char>) -> Option<(int, int)> {
    if s.len() == 5 && is_digit(s[0]) && is_digit(s[1]) && s[2] == ':' && is_digit(s[3])
        && is_digit(s[4]) {
        let h = digit_value(s[0]) * 10 + digit_value(s[1]);
        let m = digit_value(s[3]) * 10 + digit_value(s[4]);
        if h <= 23 && m <= 59 {
            Some((h, m))
        } else {
            None
        }
    } else {
        None
    }
}

proof fn lemma_split_commas_nonempty(s: Seq<char>)
    ensures
        split_commas(s).len() >= 1,
    decreases s.len(),
{
    if s.len() > 0 {
        lemma_split_commas_nonempty(s.drop_last());
    }
}

/// Whether `c` is white space, as `char::is_whitespace` says.
pub fn is_white_space_char(c: char) -> (r: bool)
    ensures
        r == is_white_space(c),
{
    let u = c as u32;
    (0x9 <= u && u <= 0xd) || u == 0x20 || u == 0x85 || u == 0xa0 || u == 0x1680 || (0x2000 <= u
        && u <= 0x200a) || u == 0x2028 || u == 0x2029 || u == 0x202f || u == 0x205f || u == 0x3000
}

/// The characters `a .. b` of `s`, trimmed.
fn trimmed_piece(s: &str, a: usize, b: usize) -> (r: String)
    requires
        a <= b <= s@.len(),
    ensures
        r@ == trim(s@.subrange(a as int, b as int)),
{
    let mut lo = a;
    while lo < b && is_white_space_char(s.get_char(lo))
        invariant
            a <= lo <= b,
            b <= s@.len(),
            trim_start(s@.subrange(a as int, b as int)) == trim_start(s@.subrange(lo as int, b as int)),
        decreases b - lo,
    {
        assert(s@.subrange(lo as int, b as int).drop_first() =~= s@.subrange(lo + 1, b as int));
        lo = lo + 1;
    }
    let mut hi = b;
    while hi > lo && is_white_space_char(s.get_char(hi - 1))
        invariant
            a <= lo <= hi <= b,
            b <= s@.len(),
            trim_end(s@.subrange(lo as int, b as int)) == trim_end(s@.subrange(lo as int, hi as int)),
        decreases hi - lo,
    {
        assert(s@.subrange(lo as int, hi as int).drop_last() =~= s@.subrange(lo as int, hi - 1));
        hi = hi - 1;
    }
    proof {
        let x = s@.subrange(lo as int, b as int);
        let y = s@.subrange(lo as int, hi as int);
        assert(trim_start(s@.subrange(a as int, b as int)) == x);
        assert(trim_end(y) == y);
    }
    let piece = s.substring_char(lo, hi);
    String::from_str(piece)
}

/// The tags that the text `s` of the tag field lists: its pieces between
/// commas, each with white space trimmed from both ends.
pub fn parse_tags(s: &str) -> (tags: Vec<String>)
    ensures
        tags@.map_values(|t: String| t@) == tags_of(s@),
{
    let n = s.unicode_len();
    let mut tags: Vec<String> = Vec::new();
    let ghost mut raw: Seq<Seq<char>> = Seq::empty();
    let mut start: usize = 0;
    let mut i: usize = 0;
    assert(s@.subrange(0, 0) =~= Seq::<char>::empty());
    assert(s@.subrange(0, 0).len() == 0);
    assert(split_commas(s@.subrange(0, 0)) =~= raw.push(s@.subrange(0, 0)));
    while i < n
        invariant
            n == s@.len(),
            start <= i <= n,
            split_commas(s@.subrange(0, i as int)) == raw.push(s@.subrange(start as int, i as int)),
            tags@.map_values(|t: String| t@) == raw.map_values(|p: Seq<char>| trim(p)),
        decreases n - i,
    {
        let c = s.get_char(i);
        proof {
            let pre = s@.subrange(0, i as int);
            assert(s@.subrange(0, i + 1).drop_last() =~= pre);
            assert(s@.subrange(0, i + 1).last() == c);
            lemma_split_commas_nonempty(pre);
        }
        if c == ',' {
            let piece = trimmed_piece(s, start, i);
            proof {
                let old_raw = raw;
                raw = raw.push(s@.subrange(start as int, i as int));
                assert(tags@.push(piece).map_values(|t: String| t@) =~= old_raw.map_values(|p: Seq<char>| trim(p)).push(piece@));
                assert(raw.map_values(|p: Seq<char>| trim(p)) =~= old_raw.map_values(|p: Seq<char>| trim(p)).push(trim(s@.subrange(start as int, i as int))));
                assert(s@.subrange(i + 1, i + 1) =~= Seq::<char>::empty());
                assert(split_commas(s@.subrange(0, i + 1)) =~= raw.push(s@.subrange(i + 1, i + 1)));
            }
            tags.push(piece);
            start = i + 1;
        } else {
            proof {
                assert(s@.subrange(start as int, i + 1) =~= s@.subrange(start as int, i as int).push(c));
                assert(split_commas(s@.subrange(0, i + 1)) =~= raw.push(s@.subrange(start as int, i + 1)));
            }
        }
        i = i + 1;
    }
    let last = trimmed_piece(s, start, n);
    proof {
        assert(s@.subrange(0, n as int) =~= s@);
        let old_raw = raw;
        assert(tags@.push(last).map_values(|t: String| t@) =~= old_raw.map_values(|p: Seq<char>| trim(p)).push(last@));
        assert(old_raw.push(s@.subrange(start as int, n as int)).map_values(|p: Seq<char>| trim(p)) =~= old_raw.map_values(|p: Seq<char>| trim(p)).push(trim(s@.subrange(start as int, n as int))));
    }
    tags.push(last);
    tags
}

/// The value of the digit character `c`, if it is one.
fn digit(c: char) -> (r: Option<u8>)
    ensures
        match r {
            Some(d) => is_digit(c) && d as int == digit_value(c),
            None => !is_digit(c),
        },
{
    let u = c as u32;
    if 0x30 <= u && u <= 0x39 {
        Some((u - 0x30) as u8)
    } else {
        None
    }
}

/// The time of day that `s` gives as `HH:MM` (as the time of a protest is
/// entered); `None` where `s` is not of that form or names no time of day.
pub fn parse_time(s: &str) -> (r: Option<ClockTime>)
    ensures
        match r {
            Some(t) => hour_minute_of(s@) == Some((t.hour as int, t.minute as int)),
            None => hour_minute_of(s@) is None,
        },
{
    if s.unicode_len() != 5 {
        return None;
    }
    let colon = s.get_char(2);
    if colon != ':' {
        return None;
    }
    let h1 = digit(s.get_char(0));
    let h2 = digit(s.get_char(1));
    let m1 = digit(s.get_char(3));
    let m2 = digit(s.get_char(4));
    match (h1, h2, m1, m2) {
        (Some(a), Some(b), Some(c), Some(d)) => {
            let hour = a * 10 + b;
            let minute = c * 10 + d;
            if hour <= 23 && minute <= 59 {
                Some(ClockTime { hour, minute })
            } else {
                None
            }
        },
        _ => None,
    }
}

proof fn lemma_trim_start_shape(s: Seq<char>)
    ensures
        trim_start(s).len() == 0 || !is_white_space(trim_start(s)[0]),
    decreases s.len(),
{
    if s.len() > 0 && is_white_space(s[0]) {
        lemma_trim_start_shape(s.drop_first());
    }
}

proof fn lemma_trim_end_shape(s: Seq<char>)
    ensures
        trim_end(s).len() <= s.len(),
        trim_end(s) == s.subrange(0, trim_end(s).len() as int),
        trim_end(s).len() == 0 || !is_white_space(trim_end(s).last()),
    decreases s.len(),
{
    if s.len() > 0 && is_white_space(s.last()) {
        lemma_trim_end_shape(s.drop_last());
        let t = trim_end(s.drop_last());
        assert(s.drop_last().subrange(0, t.len() as int) =~= s.subrange(0, t.len() as int));
    } else {
        assert(s.subrange(0, s.len() as int) =~= s);
    }
}

/// A tag never starts or ends with white space: `trim` leaves none at
/// either end.
pub proof fn lemma_trim_leaves_no_outer_space(s: Seq<char>)
    ensures
        trim(s).len() > 0 ==> !is_white_space(trim(s)[0]) && !is_white_space(trim(s).last()),
{
    lemma_trim_start_shape(s);
    lemma_trim_end_shape(trim_start(s));
    if trim(s).len() > 0 {
        assert(trim(s)[0] == trim_start(s)[0]);
    }
}

/// Holds of a comma.
pub open spec fn is_comma() -> spec_fn(char) -> bool {
    |c: char| c == ','
}

/// The tag field lists one tag more than it has commas.
pub proof fn lemma_tag_count(s: Seq<char>)
    ensures
        tags_of(s).len() == s.filter(is_comma()).len() + 1,
    decreases s.len(),
{
    if s.len() == 0 {
        reveal(Seq::filter);
    } else {
        lemma_tag_count(s.drop_last());
        lemma_split_commas_nonempty(s.drop_last());
        assert(s.drop_last().push(s.last()) =~= s);
        s.drop_last().lemma_filter_push(s.last(), is_comma());
    }
}

/// The time that a time field gives is a time of day.
pub proof fn lemma_time_of_day(s: Seq<char>)
    ensures
        hour_minute_of(s) matches Some(t) ==> 0 <= t.0 <= 23 && 0 <= t.1 <= 59,
{
}

/// `n` (below 100) written with two decimal digits, as `09`.
pub open spec fn two_digits(n: int) -> Seq<char> {
    seq![((n / 10) + 0x30) as char, ((n % 10) + 0x30) as char]
}

/// The time field reads exactly the times of day written as `HH:MM`: every
/// hour up to 23 and minute up to 59, written with two digits each around a
/// colon, reads back as that hour and minute; and any text that reads as a
/// time is that time so written.
pub proof fn lemma_time_text_round_trip(h: int, m: int, s: Seq<char>)
    ensures
        0 <= h <= 23 && 0 <= m <= 59 ==> hour_minute_of(two_digits(h) + seq![':'] + two_digits(m))
            == Some((h, m)),
        hour_minute_of(s) == Some((h, m)) ==> s == two_digits(h) + seq![':'] + two_digits(m),
{
    if 0 <= h <= 23 && 0 <= m <= 59 {
        let t = two_digits(h) + seq![':'] + two_digits(m);
        assert(t.len() == 5);
        assert(t[0] == ((h / 10) + 0x30) as char);
        assert(t[1] == ((h % 10) + 0x30) as char);
        assert(t[2] == ':');
        assert(t[3] == ((m / 10) + 0x30) as char);
        assert(t[4] == ((m % 10) + 0x30) as char);
        assert(digit_value(t[0]) == h / 10);
        assert(digit_value(t[1]) == h % 10);
        assert(digit_value(t[3]) == m / 10);
        assert(digit_value(t[4]) == m % 10);
    }
    if hour_minute_of(s) == Some((h, m)) {
        let t = two_digits(h) + seq![':'] + two_digits(m);
        assert(h == digit_value(s[0]) * 10 + digit_value(s[1]));
        assert(m == digit_value(s[3]) * 10 + digit_value(s[4]));
        assert(h / 10 == digit_value(s[0]));
        assert(h % 10 == digit_value(s[1]));
        assert(m / 10 == digit_value(s[3]));
        assert(m % 10 == digit_value(s[4]));
        assert(s =~= t);
    }
}

proof fn lemma_trim_start_range(s: Seq<char>) -> (a: int)
    ensures
        0 <= a <= s.len(),
        trim_start(s) == s.subrange(a, s.len() as int),
        forall|i: int| 0 <= i < a ==> is_white_space(#[trigger] s[i]),
        a < s.len() ==> !is_white_space(s[a]),
    decreases s.len(),
{
    if s.len() > 0 && is_white_space(s[0]) {
        let t = s.drop_first();
        let a1 = lemma_trim_start_range(t);
        assert(t.subrange(a1, t.len() as int) =~= s.subrange(a1 + 1, s.len() as int));
        assert forall|i: int| 0 <= i < a1 + 1 implies is_white_space(#[trigger] s[i]) by {
            if i > 0 {
                assert(s[i] == t[i - 1]);
            }
        }
        a1 + 1
    } else {
        assert(s.subrange(0, s.len() as int) =~= s);
        0
    }
}

proof fn lemma_trim_end_range(s: Seq<char>) -> (b: int)
    ensures
        0 <= b <= s.len(),
        trim_end(s) == s.subrange(0, b),
        forall|i: int| b <= i < s.len() ==> is_white_space(#[trigger] s[i]),
        b > 0 ==> !is_white_space(s[b - 1]),
    decreases s.len(),
{
    if s.len() > 0 && is_white_space(s.last()) {
        let t = s.drop_last();
        let b1 = lemma_trim_end_range(t);
        assert(t.subrange(0, b1) =~= s.subrange(0, b1));
        assert forall|i: int| b1 <= i < s.len() implies is_white_space(#[trigger] s[i]) by {
            if i < s.len() - 1 {
                assert(s[i] == t[i]);
            }
        }
        b1
    } else {
        assert(s.subrange(0, s.len() as int) =~= s);
        s.len() as int
    }
}

/// `t` is `p` without its white space at either end: a stretch of `p`
/// with only white space before and after it, that itself neither begins
/// nor ends with white space.
pub open spec fn is_trimmed_from(t: Seq<char>, p: Seq<char>) -> bool {
    exists|a: int, b: int|
        0 <= a <= b <= p.len() && t == p.subrange(a, b) && (forall|i: int|
            0 <= i < a ==> is_white_space(#[trigger] p[i])) && (forall|i: int|
            b <= i < p.len() ==> is_white_space(#[trigger] p[i])) && (t.len() > 0 ==> !is_white_space(t[0])
            && !is_white_space(t[t.len() - 1]))
}

proof fn lemma_trim_is_trimmed(p: Seq<char>)
    ensures
        is_trimmed_from(trim(p), p),
{
    let a = lemma_trim_start_range(p);
    let x = trim_start(p);
    let b = lemma_trim_end_range(x);
    assert(trim(p) =~= p.subrange(a, a + b));
    assert forall|i: int| a + b <= i < p.len() implies is_white_space(#[trigger] p[i]) by {
        assert(p[i] == x[i - a]);
    }
    if b > 0 {
        assert(trim(p)[0] == p[a]);
        assert(trim(p)[trim(p).len() - 1] == x[b - 1]);
    }
    assert(0 <= a <= a + b <= p.len());
}

proof fn lemma_split_commas_joins_back(s: Seq<char>)
    ensures
        split_commas(s).len() >= 1,
        join(split_commas(s), seq![',']) == s,
        forall|k: int| 0 <= k < split_commas(s).len() ==> !(#[trigger] split_commas(s)[k]).contains(','),
    decreases s.len(),
{
    if s.len() == 0 {
        assert(split_commas(s)[0] =~= Seq::<char>::empty());
    } else {
        let t = s.drop_last();
        let c = s.last();
        lemma_split_commas_joins_back(t);
        let rest = split_commas(t);
        let sp = split_commas(s);
        assert(t.push(c) =~= s);
        if c == ',' {
            assert(sp == rest.push(Seq::<char>::empty()));
            assert(sp.drop_last() =~= rest);
            assert(join(sp, seq![',']) == join(rest, seq![',']) + seq![','] + Seq::<char>::empty());
            assert(join(sp, seq![',']) =~= s);
            assert forall|k: int| 0 <= k < sp.len() implies !(#[trigger] sp[k]).contains(',') by {
                if k < rest.len() {
                    assert(sp[k] == rest[k]);
                }
            }
        } else {
            let y = rest.last().push(c);
            assert(sp == rest.update(rest.len() - 1, y));
            if rest.len() == 1 {
                assert(join(rest, seq![',']) == rest[0]);
                assert(join(sp, seq![',']) == sp[0]);
                assert(join(sp, seq![',']) =~= s);
            } else {
                assert(sp.drop_last() =~= rest.drop_last());
                assert(join(sp, seq![',']) == join(rest.drop_last(), seq![',']) + seq![','] + y);
                assert(join(rest, seq![',']) == join(rest.drop_last(), seq![',']) + seq![','] + rest.last());
                assert(join(sp, seq![',']) =~= s);
            }
            assert forall|k: int| 0 <= k < sp.len() implies !(#[trigger] sp[k]).contains(',') by {
                if k < rest.len() - 1 {
                    assert(sp[k] == rest[k]);
                } else {
                    assert(!rest[k].contains(','));
                    if y.contains(',') {
                        let j = choose|j: int| 0 <= j < y.len() && y[j] == ',';
                        assert(rest.last()[j] == ',');
                    }
                }
            }
        }
    }
}

/// The tag field is read as the original text cut at its commas: the
/// pieces joined back with commas give the text, no piece holds a comma,
/// and each tag is its piece without the white space at either end.
pub proof fn lemma_tags_are_trimmed_pieces(s: Seq<char>)
    ensures
        join(split_commas(s), seq![',']) == s,
        forall|k: int| 0 <= k < split_commas(s).len() ==> !(#[trigger] split_commas(s)[k]).contains(','),
        tags_of(s).len() == split_commas(s).len(),
        forall|k: int| 0 <= k < tags_of(s).len() ==> is_trimmed_from(#[trigger] tags_of(s)[k], split_commas(s)[k]),
{
    lemma_split_commas_joins_back(s);
    assert forall|k: int| 0 <= k < tags_of(s).len() implies is_trimmed_from(#[trigger] tags_of(s)[k], split_commas(s)[k]) by {
        lemma_trim_is_trimmed(split_commas(s)[k]);
    }
}

} // verus!
