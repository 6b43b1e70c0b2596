//! What the site asks of its database: the text of each statement and the
//! values bound to its parameters, in order. Running them is left to the
//! caller; the statements of one change go through one transaction, in the
//! order given here.
use vstd::prelude::*;
use vstd::string::*;
use vstd::seq_lib::lemma_concat_associative;
use crate::model::{CalendarDate, ClockTime, Protest, ProtestSave, ProtestSearch};

verus! {

pub const LIST_PROTESTS_HEAD: &'static str = "SELECT\n            p.id,\n            p.title,\n            p.description,\n            ARRAY_AGG(t.name) as tags,\n            r.name AS town,\n            r2.name AS region,\n            p.protest_date AS date,\n            p.protest_time AS time,\n            p.location,\n            p.user_id,\n            COALESCE(u.name, u.email) as user_name,\n            i.name as image_name\n        FROM\n            protest p\n                JOIN\n            users u ON p.user_id = u.id\n                LEFT JOIN\n            region r ON p.region_id = r.id\n                LEFT JOIN\n            region r2 ON r.parent_id = r2.id\n                JOIN\n            protest_tag pt ON p.id = pt.protest_id\n                LEFT JOIN\n            tag t ON pt.tag_id = t.id\n                LEFT JOIN\n            image i ON p.image_id = i.id\n        WHERE ";

pub const LIST_PROTESTS_TAIL: &'static str = "\n        GROUP BY\n            p.id, r.name, r2.name, user_name, image_name";

pub const GET_PROTEST_SQL: &'static str = "SELECT\n            p.id,\n            p.title,\n            p.description,\n            ARRAY_AGG(t.name) as tags,\n            r.name AS town,\n            r2.name AS region,\n            p.protest_date AS date,\n            p.protest_time AS time,\n            p.location,\n            p.user_id,\n            COALESCE(u.name, u.email) as user_name,\n            i.name as image_name\n        FROM\n            protest p\n                JOIN\n            users u ON p.user_id = u.id\n                LEFT JOIN\n            region r ON p.region_id = r.id\n                LEFT JOIN\n            region r2 ON r.parent_id = r2.id\n                JOIN\n            protest_tag pt ON p.id = pt.protest_id\n                LEFT JOIN\n            tag t ON pt.tag_id = t.id\n                LEFT JOIN\n            image i ON p.image_id = i.id\n        WHERE p.id = $1 AND p.deleted IS NULL\n        GROUP BY\n            p.id, r.name, r2.name, user_name, image_name";

pub const INSERT_PROTEST_SQL: &'static str = "INSERT INTO protest (title, description, protest_date, protest_time, location, user_id, region_id, image_id)\n            VALUES ($1, $2, $3, $4, $5, $6, $7, $8) RETURNING id";

pub const INSERT_TAGS_SQL: &'static str = "\n        INSERT INTO tag (name)\n        SELECT * FROM UNNEST(ARRAY[$1])\n        ON CONFLICT (name) DO NOTHING\n        ";

pub const LINK_TAGS_SQL: &'static str = "\n        INSERT INTO protest_tag (protest_id, tag_id)\n        SELECT $1, id FROM tag WHERE name = ANY($2)\n        ";

pub const UPDATE_PROTEST_SQL: &'static str = "UPDATE protest SET\n            title = $1,\n            description = $2,\n            protest_date = $3,\n            protest_time = $4,\n            location = $5,\n            region_id = $6,\n            updated = NOW()\n            WHERE id = $7";

pub const UNLINK_TAGS_SQL: &'static str = "\n        DELETE FROM protest_tag WHERE protest_id = $1\n        ";

pub const DELETE_PROTEST_SQL: &'static str = "UPDATE protest SET deleted = NOW() WHERE id = $1";

pub const SAVE_LOGIN_CODE_SQL: &'static str = "INSERT INTO users (email, login_code, login_code_created)\n            VALUES ($1, $2, NOW())\n            ON CONFLICT (email)\n            DO UPDATE SET\n                login_code = EXCLUDED.login_code,\n                login_code_created = EXCLUDED.login_code_created\n            RETURNING id;";

pub const CHECK_LOGIN_CODE_SQL: &'static str = "SELECT id FROM users WHERE id = $1 AND login_code = $2 AND NOW() < (login_code_created + INTERVAL '$3 days')";

pub const SAVE_IMAGE_SQL: &'static str = "INSERT INTO image (name, user_id) VALUES ($1, $2) RETURNING id";

pub const LIST_REGIONS_SQL: &'static str = "SELECT id, name, parent_id FROM region";

/// A value bound to a parameter of a statement.
#[derive(Clone, Debug, PartialEq, Eq)]
pub enum SqlValue {
    Int(i32),
    OptionalInt(Option<i32>),
    Text(String),
    TextList(Vec<String>),
    Date(CalendarDate),
    Time(ClockTime),
}

/// A value bound to a parameter, by view.
pub enum SqlValueView {
    Int(i32),
    OptionalInt(Option<i32>),
    Text(Seq<char>),
    TextList(Seq<Seq<char>>),
    Date(CalendarDate),
    Time(ClockTime),
}

/// The views of a list of texts.
pub open spec fn texts_view(s: Seq<String>) -> Seq<Seq<char>> {
    s.map_values(|t: String| t@)
}

impl View for SqlValue {
    type V = SqlValueView;

    open spec fn view(&self) -> SqlValueView {
        match self {
            SqlValue::Int(v) => SqlValueView::Int(*v),
            SqlValue::OptionalInt(v) => SqlValueView::OptionalInt(*v),
            SqlValue::Text(t) => SqlValueView::Text(t@),
            SqlValue::TextList(ts) => SqlValueView::TextList(texts_view(ts@)),
            SqlValue::Date(d) => SqlValueView::Date(*d),
            SqlValue::Time(t) => SqlValueView::Time(*t),
        }
    }
}

/// A statement: its text, and the values of its parameters `$1, $2, ..`.
#[derive(Clone, Debug, PartialEq, Eq)]
pub struct Statement {
    pub sql: String,
    pub args: Vec<SqlValue>,
}

/// A statement by view.
#[verifier::ext_equal]
pub struct StatementView {
    pub sql: Seq<char>,
    pub args: Seq<SqlValueView>,
}

impl View for Statement {
    type V = StatementView;

    open spec fn view(&self) -> StatementView {
        StatementView { sql: self.sql@, args: self.args@.map_values(|a: SqlValue| a@) }
    }
}

/// The parts joined with `sep` between each two.
pub open spec fn join(parts: Seq<Seq<char>>, sep: Seq<char>) -> Seq<char>
    decreases parts.len(),
{
    if parts.len() == 0 {
        Seq::empty()
    } else if parts.len() == 1 {
        parts[0]
    } else {
        join(parts.drop_last(), sep) + sep + parts.last()
    }
}

/// `s` between single quotes.
pub open spec fn quoted(s: Seq<char>) -> Seq<char> {
    "'"@ + s + "'"@
}

/// An optional text, by view.
pub open spec fn opt_view(o: Option<String>) -> Option<Seq<char>> {
    match o {
        Some(s) => Some(s@),
        None => None,
    }
}

/// An optional list of texts, by view.
pub open spec fn opt_texts_view(o: Option<Vec<String>>) -> Option<Seq<Seq<char>>> {
    match o {
        Some(v) => Some(texts_view(v@)),
        None => None,
    }
}

/// The conditions that the protests of a search meet, in order: not
/// deleted; in the town (or its region); not before the date; with one of
/// the tags; created by the user. The values are written into the
/// conditions as they are, between single quotes.
pub open spec fn search_conditions(
    town: Option<Seq<char>>,
    date_from: Option<Seq<char>>,
    tags: Option<Seq<Seq<char>>>,
    created_by: Option<Seq<char>>,
) -> Seq<Seq<char>> {
    let c0 = seq!["p.deleted IS NULL"@];
    let c1 = match town {
        Some(t) => c0.push("(r.id = "@ + quoted(t) + " OR r2.id = "@ + quoted(t) + ")"@),
        None => c0,
    };
    let c2 = match date_from {
        Some(d) => c1.push("p.protest_date >= "@ + quoted(d)),
        None => c1,
    };
    let c3 = match tags {
        Some(ts) => c2.push("t.name IN ("@ + join(ts.map_values(|t: Seq<char>| quoted(t)), ", "@) + ")"@),
        None => c2,
    };
    match created_by {
        Some(u) => c3.push("u.name = "@ + quoted(u)),
        None => c3,
    }
}

/// The query that lists the protests of a search.
pub open spec fn list_protests_sql(search: ProtestSearch) -> Seq<char> {
    LIST_PROTESTS_HEAD@ + join(
        search_conditions(
            opt_view(search.town),
            opt_view(search.date_from),
            opt_texts_view(search.tags),
            opt_view(search.created_by),
        ),
        " AND "@,
    ) + LIST_PROTESTS_TAIL@
}

/// The parts joined with `sep` between each two.
pub fn join_texts(parts: &Vec<String>, sep: &str) -> (r: String)
    ensures
        r@ == join(texts_view(parts@), sep@),
{
    let ghost pv = texts_view(parts@);
    let mut r = String::new();
    let n = parts.len();
    let mut i: usize = 0;
    assert(pv.subrange(0, 0) =~= Seq::<Seq<char>>::empty());
    while i < n
        invariant
            n == parts@.len(),
            pv == texts_view(parts@),
            i <= n,
            r@ == join(pv.subrange(0, i as int), sep@),
        decreases n - i,
    {
        assert(pv.subrange(0, i + 1).drop_last() =~= pv.subrange(0, i as int));
        if i > 0 {
            r.append(sep);
        } else {
            assert(r@ =~= Seq::<char>::empty());
        }
        r.append(parts[i].as_str());
        proof {
            if i == 0 {
                assert(r@ =~= parts@[0]@);
            }
        }
        i = i + 1;
    }
    assert(pv.subrange(0, n as int) =~= pv);
    r
}

/// `s` between single quotes.
fn quote(s: &str) -> (r: String)
    ensures
        r@ == quoted(s@),
{
    let mut r = String::from_str("'");
    r.append(s);
    r.append("'");
    r
}

/// The query that lists the protests of a search, as the text of its
/// conditions says.
pub fn list_protests_query(search: &ProtestSearch) -> (q: String)
    ensures
        q@ == list_protests_sql(*search),
{
    let mut conditions: Vec<String> = Vec::new();
    conditions.push(String::from_str("p.deleted IS NULL"));
    match &search.town {
        Some(t) => {
            let mut c = String::from_str("(r.id = ");
            c.append(quote(t.as_str()).as_str());
            c.append(" OR r2.id = ");
            c.append(quote(t.as_str()).as_str());
            c.append(")");
            conditions.push(c);
        },
        None => {},
    }
    match &search.date_from {
        Some(d) => {
            let mut c = String::from_str("p.protest_date >= ");
            c.append(quote(d.as_str()).as_str());
            conditions.push(c);
        },
        None => {},
    }
    match &search.tags {
        Some(tags) => {
            let mut quoted_tags: Vec<String> = Vec::new();
            let n = tags.len();
            let mut i: usize = 0;
            while i < n
                invariant
                    n == tags@.len(),
                    i <= n,
                    texts_view(quoted_tags@) == texts_view(tags@).subrange(0, i as int).map_values(|t: Seq<char>| quoted(t)),
                decreases n - i,
            {
                let q = quote(tags[i].as_str());
                proof {
                    assert(texts_view(quoted_tags@.push(q)) =~= texts_view(quoted_tags@).push(q@));
                    assert(texts_view(tags@).subrange(0, i + 1).map_values(|t: Seq<char>| quoted(t)) =~= texts_view(tags@).subrange(0, i as int).map_values(|t: Seq<char>| quoted(t)).push(quoted(tags@[i as int]@)));
                }
                quoted_tags.push(q);
                i = i + 1;
            }
            assert(texts_view(tags@).subrange(0, n as int) =~= texts_view(tags@));
            let mut c = String::from_str("t.name IN (");
            c.append(join_texts(&quoted_tags, ", ").as_str());
            c.append(")");
            conditions.push(c);
        },
        None => {},
    }
    match &search.created_by {
        Some(u) => {
            let mut c = String::from_str("u.name = ");
            c.append(quote(u.as_str()).as_str());
            conditions.push(c);
        },
        None => {},
    }
    proof {
        assert(texts_view(conditions@) =~= search_conditions(
            opt_view(search.town),
            opt_view(search.date_from),
            opt_texts_view(search.tags),
            opt_view(search.created_by),
        ));
    }
    let mut q = String::from_str(LIST_PROTESTS_HEAD);
    q.append(join_texts(&conditions, " AND ").as_str());
    q.append(LIST_PROTESTS_TAIL);
    q
}

/// Joining one part more adds the separator and that part at the end.
proof fn lemma_join_push(parts: Seq<Seq<char>>, x: Seq<char>, sep: Seq<char>)
    requires
        parts.len() >= 1,
    ensures
        join(parts.push(x), sep) == join(parts, sep) + sep + x,
{
    assert(parts.push(x).drop_last() =~= parts);
}

proof fn lemma_town_condition(t: Seq<char>)
    ensures
        "(r.id = "@ + quoted(t) + " OR r2.id = "@ + quoted(t) + ")"@
            == "(r.id = '"@ + t + "' OR r2.id = '"@ + t + "')"@,
{
    reveal_strlit("'");
    reveal_strlit("(r.id = ");
    reveal_strlit("(r.id = '");
    reveal_strlit(" OR r2.id = ");
    reveal_strlit("' OR r2.id = '");
    reveal_strlit(")");
    reveal_strlit("')");
    assert("(r.id = "@ + quoted(t) + " OR r2.id = "@ + quoted(t) + ")"@
        =~= "(r.id = '"@ + t + "' OR r2.id = '"@ + t + "')"@);
}

proof fn lemma_date_condition(d: Seq<char>)
    ensures
        "p.protest_date >= "@ + quoted(d) == "p.protest_date >= '"@ + d + "'"@,
{
    reveal_strlit("'");
    reveal_strlit("p.protest_date >= ");
    reveal_strlit("p.protest_date >= '");
    assert("p.protest_date >= "@ + quoted(d) =~= "p.protest_date >= '"@ + d + "'"@);
}

proof fn lemma_author_condition(u: Seq<char>)
    ensures
        "u.name = "@ + quoted(u) == "u.name = '"@ + u + "'"@,
{
    reveal_strlit("'");
    reveal_strlit("u.name = ");
    reveal_strlit("u.name = '");
    assert("u.name = "@ + quoted(u) =~= "u.name = '"@ + u + "'"@);
}

/// What a search adds to the query for one field: `" AND "` and its
/// condition where the field is given, nothing where it is not.
pub open spec fn and_clause(given: bool, condition: Seq<char>) -> Seq<char> {
    if given { " AND "@ + condition } else { Seq::empty() }
}

/// Joining with `" AND "` one more part where `given` holds adds that
/// part's clause at the end.
proof fn lemma_and_step(parts: Seq<Seq<char>>, given: bool, x: Seq<char>, acc: Seq<char>)
    requires
        parts.len() >= 1,
        join(parts, " AND "@) == acc,
    ensures
        join(if given { parts.push(x) } else { parts }, " AND "@) == acc + and_clause(given, x),
        (if given { parts.push(x) } else { parts }).len() >= 1,
{
    if given {
        lemma_join_push(parts, x, " AND "@);
        lemma_concat_associative(acc, " AND "@, x);
    } else {
        assert(acc + Seq::<char>::empty() =~= acc);
    }
}

proof fn lemma_quoted_list(ts: Seq<Seq<char>>)
    ensures
        ts.map_values(|t: Seq<char>| quoted(t)) == ts.map_values(|t: Seq<char>| "'"@ + t + "'"@),
{
    assert(ts.map_values(|t: Seq<char>| quoted(t)) =~= ts.map_values(|t: Seq<char>| "'"@ + t + "'"@));
}

/// The list of tags in the condition on tags: each tag between single
/// quotes, separated by `", "`.
pub open spec fn tag_list(tags: Seq<Seq<char>>) -> Seq<char> {
    join(tags.map_values(|t: Seq<char>| "'"@ + t + "'"@), ", "@)
}

/// The query of a search is the head, the condition that the protest is not
/// deleted, then for each given field in turn (town, start date, tags,
/// author) `" AND "` and that field's condition with the value between
/// single quotes, then the tail. A field that is not given adds nothing, and
/// each given field adds its condition whatever the other fields are.
pub proof fn lemma_search_query_shape(search: ProtestSearch)
    ensures
        list_protests_sql(search) == LIST_PROTESTS_HEAD@ + (
            "p.deleted IS NULL"@
            + and_clause(
                search.town is Some,
                "(r.id = '"@ + search.town->0@ + "' OR r2.id = '"@ + search.town->0@ + "')"@,
            ) + and_clause(
                search.date_from is Some,
                "p.protest_date >= '"@ + search.date_from->0@ + "'"@,
            ) + and_clause(
                search.tags is Some,
                "t.name IN ("@ + tag_list(texts_view(search.tags->0@)) + ")"@,
            ) + and_clause(
                search.created_by is Some,
                "u.name = '"@ + search.created_by->0@ + "'"@,
            )
        ) + LIST_PROTESTS_TAIL@,
{
    let town = opt_view(search.town);
    let date_from = opt_view(search.date_from);
    let tags = opt_texts_view(search.tags);
    let created_by = opt_view(search.created_by);
    let x1 = "(r.id = '"@ + search.town->0@ + "' OR r2.id = '"@ + search.town->0@ + "')"@;
    let x2 = "p.protest_date >= '"@ + search.date_from->0@ + "'"@;
    let x3 = "t.name IN ("@ + tag_list(texts_view(search.tags->0@)) + ")"@;
    let x4 = "u.name = '"@ + search.created_by->0@ + "'"@;
    let c0 = seq!["p.deleted IS NULL"@];
    let c1 = if town is Some { c0.push(x1) } else { c0 };
    let c2 = if date_from is Some { c1.push(x2) } else { c1 };
    let c3 = if tags is Some { c2.push(x3) } else { c2 };
    let c4 = if created_by is Some { c3.push(x4) } else { c3 };
    lemma_town_condition(search.town->0@);
    lemma_date_condition(search.date_from->0@);
    lemma_author_condition(search.created_by->0@);
    lemma_quoted_list(texts_view(search.tags->0@));
    assert(c4 == search_conditions(town, date_from, tags, created_by));
    let p = "p.deleted IS NULL"@;
    assert(join(c0, " AND "@) == p);
    lemma_and_step(c0, search.town is Some, x1, p);
    let a1 = and_clause(search.town is Some, x1);
    lemma_and_step(c1, search.date_from is Some, x2, p + a1);
    let a2 = and_clause(search.date_from is Some, x2);
    lemma_and_step(c2, search.tags is Some, x3, p + a1 + a2);
    let a3 = and_clause(search.tags is Some, x3);
    lemma_and_step(c3, search.created_by is Some, x4, p + a1 + a2 + a3);
}

/// The region that new and edited protests are placed in, until the forms
/// ask for one.
pub const DEFAULT_REGION_ID: i32 = 1;

/// A statement by view, from its text and the views of its values.
pub open spec fn statement_view(sql: Seq<char>, args: Seq<SqlValueView>) -> StatementView {
    StatementView { sql, args }
}

/// The views of a list of statements.
pub open spec fn statements_view(s: Seq<Statement>) -> Seq<StatementView> {
    s.map_values(|st: Statement| st@)
}

/// A copy of a list of texts.
pub fn copy_texts(v: &Vec<String>) -> (r: Vec<String>)
    ensures
        r@ == v@,
{
    let mut r: Vec<String> = Vec::new();
    let n = v.len();
    let mut i: usize = 0;
    while i < n
        invariant
            n == v@.len(),
            i <= n,
            r@ == v@.subrange(0, i as int),
        decreases n - i,
    {
        r.push(v[i].clone());
        assert(r@ =~= v@.subrange(0, i + 1));
        i = i + 1;
    }
    assert(v@.subrange(0, n as int) =~= v@);
    r
}

fn statement(sql: &str, args: Vec<SqlValue>) -> (s: Statement)
    ensures
        s.sql@ == sql@,
        s.args == args,
{
    Statement { sql: String::from_str(sql), args }
}

/// The query for the protest `id`, unless it is deleted.
pub fn get_protest_statement(id: i32) -> (s: Statement)
    ensures
        s@ == statement_view(GET_PROTEST_SQL@, seq![SqlValueView::Int(id)]),
{
    let s = statement(GET_PROTEST_SQL, vec![SqlValue::Int(id)]);
    assert(s@ =~= statement_view(GET_PROTEST_SQL@, seq![SqlValueView::Int(id)]));
    s
}

/// The query for the protests of a search; it has no parameters.
pub fn list_protests_statement(search: &ProtestSearch) -> (s: Statement)
    ensures
        s@ == statement_view(list_protests_sql(*search), Seq::empty()),
{
    let s = Statement { sql: list_protests_query(search), args: Vec::new() };
    assert(s@ =~= statement_view(list_protests_sql(*search), Seq::empty()));
    s
}

/// The statement that stores a new protest by `user_id` and returns its id.
pub fn insert_protest_statement(protest: &ProtestSave, user_id: i32) -> (s: Statement)
    ensures
        s@ == statement_view(
            INSERT_PROTEST_SQL@,
            seq![
                SqlValueView::Text(protest.title@),
                SqlValueView::Text(protest.description@),
                SqlValueView::Date(protest.date),
                SqlValueView::Time(protest.time),
                SqlValueView::Text(protest.location@),
                SqlValueView::Int(user_id),
                SqlValueView::Int(DEFAULT_REGION_ID),
                SqlValueView::OptionalInt(protest.image_id),
            ],
        ),
{
    let s = statement(
        INSERT_PROTEST_SQL,
        vec![
            SqlValue::Text(protest.title.clone()),
            SqlValue::Text(protest.description.clone()),
            SqlValue::Date(protest.date),
            SqlValue::Time(protest.time),
            SqlValue::Text(protest.location.clone()),
            SqlValue::Int(user_id),
            SqlValue::Int(DEFAULT_REGION_ID),
            SqlValue::OptionalInt(protest.image_id),
        ],
    );
    assert(s@ =~= statement_view(
        INSERT_PROTEST_SQL@,
        seq![
            SqlValueView::Text(protest.title@),
            SqlValueView::Text(protest.description@),
            SqlValueView::Date(protest.date),
            SqlValueView::Time(protest.time),
            SqlValueView::Text(protest.location@),
            SqlValueView::Int(user_id),
            SqlValueView::Int(DEFAULT_REGION_ID),
            SqlValueView::OptionalInt(protest.image_id),
        ],
    ));
    s
}

/// The statements that attach the tags to the protest `protest_id`: the
/// first stores the tags not stored yet, the second links the protest to
/// each of them.
pub fn tag_statements(protest_id: i32, tags: &Vec<String>) -> (r: Vec<Statement>)
    ensures
        statements_view(r@) == seq![
            statement_view(INSERT_TAGS_SQL@, seq![SqlValueView::TextList(texts_view(tags@))]),
            statement_view(
                LINK_TAGS_SQL@,
                seq![SqlValueView::Int(protest_id), SqlValueView::TextList(texts_view(tags@))],
            ),
        ],
{
    let insert = statement(INSERT_TAGS_SQL, vec![SqlValue::TextList(copy_texts(tags))]);
    let link = statement(
        LINK_TAGS_SQL,
        vec![SqlValue::Int(protest_id), SqlValue::TextList(copy_texts(tags))],
    );
    assert(insert@ =~= statement_view(INSERT_TAGS_SQL@, seq![SqlValueView::TextList(texts_view(tags@))]));
    assert(link@ =~= statement_view(
        LINK_TAGS_SQL@,
        seq![SqlValueView::Int(protest_id), SqlValueView::TextList(texts_view(tags@))],
    ));
    let r = vec![insert, link];
    assert(statements_view(r@) =~= seq![
        statement_view(INSERT_TAGS_SQL@, seq![SqlValueView::TextList(texts_view(tags@))]),
        statement_view(
            LINK_TAGS_SQL@,
            seq![SqlValueView::Int(protest_id), SqlValueView::TextList(texts_view(tags@))],
        ),
    ]);
    r
}

/// The statements that change a stored protest to `protest`, in order: its
/// fields, then its tags (the old links removed, the new ones made as
/// `tag_statements` says).
pub fn edit_protest_statements(protest: &Protest) -> (r: Vec<Statement>)
    ensures
        statements_view(r@) == seq![
            statement_view(
                UPDATE_PROTEST_SQL@,
                seq![
                    SqlValueView::Text(protest.title@),
                    SqlValueView::Text(protest.description@),
                    SqlValueView::Date(protest.date),
                    SqlValueView::Time(protest.time),
                    SqlValueView::Text(protest.location@),
                    SqlValueView::Int(DEFAULT_REGION_ID),
                    SqlValueView::Int(protest.id),
                ],
            ),
            statement_view(UNLINK_TAGS_SQL@, seq![SqlValueView::Int(protest.id)]),
            statement_view(INSERT_TAGS_SQL@, seq![SqlValueView::TextList(texts_view(protest.tags@))]),
            statement_view(
                LINK_TAGS_SQL@,
                seq![SqlValueView::Int(protest.id), SqlValueView::TextList(texts_view(protest.tags@))],
            ),
        ],
{
    let update = statement(
        UPDATE_PROTEST_SQL,
        vec![
            SqlValue::Text(protest.title.clone()),
            SqlValue::Text(protest.description.clone()),
            SqlValue::Date(protest.date),
            SqlValue::Time(protest.time),
            SqlValue::Text(protest.location.clone()),
            SqlValue::Int(DEFAULT_REGION_ID),
            SqlValue::Int(protest.id),
        ],
    );
    let unlink = statement(UNLINK_TAGS_SQL, vec![SqlValue::Int(protest.id)]);
    assert(update@ =~= statement_view(
        UPDATE_PROTEST_SQL@,
        seq![
            SqlValueView::Text(protest.title@),
            SqlValueView::Text(protest.description@),
            SqlValueView::Date(protest.date),
            SqlValueView::Time(protest.time),
            SqlValueView::Text(protest.location@),
            SqlValueView::Int(DEFAULT_REGION_ID),
            SqlValueView::Int(protest.id),
        ],
    ));
    assert(unlink@ =~= statement_view(UNLINK_TAGS_SQL@, seq![SqlValueView::Int(protest.id)]));
    let mut r = vec![update, unlink];
    let mut tagging = tag_statements(protest.id, &protest.tags);
    let ghost tv = statements_view(tagging@);
    let ghost old_t = tagging@;
    let ghost old_r = r@;
    r.append(&mut tagging);
    assert(old_r.len() == 2 && tv.len() == 2);
    assert(r@[2] == old_t[0] && r@[3] == old_t[1]);
    assert(statements_view(r@) =~= seq![
        statement_view(
            UPDATE_PROTEST_SQL@,
            seq![
                SqlValueView::Text(protest.title@),
                SqlValueView::Text(protest.description@),
                SqlValueView::Date(protest.date),
                SqlValueView::Time(protest.time),
                SqlValueView::Text(protest.location@),
                SqlValueView::Int(DEFAULT_REGION_ID),
                SqlValueView::Int(protest.id),
            ],
        ),
        statement_view(UNLINK_TAGS_SQL@, seq![SqlValueView::Int(protest.id)]),
        statement_view(INSERT_TAGS_SQL@, seq![SqlValueView::TextList(texts_view(protest.tags@))]),
        statement_view(
            LINK_TAGS_SQL@,
            seq![SqlValueView::Int(protest.id), SqlValueView::TextList(texts_view(protest.tags@))],
        ),
    ]);
    r
}

/// The statement that marks the protest `id` as deleted.
pub fn delete_protest_statement(id: i32) -> (s: Statement)
    ensures
        s@ == statement_view(DELETE_PROTEST_SQL@, seq![SqlValueView::Int(id)]),
{
    let s = statement(DELETE_PROTEST_SQL, vec![SqlValue::Int(id)]);
    assert(s@ =~= statement_view(DELETE_PROTEST_SQL@, seq![SqlValueView::Int(id)]));
    s
}

/// The statement that stores a login code for `email`, making the user where
/// there is none, and returns the user's id.
pub fn save_login_code_statement(email: &str, login_code: &str) -> (s: Statement)
    ensures
        s@ == statement_view(
            SAVE_LOGIN_CODE_SQL@,
            seq![SqlValueView::Text(email@), SqlValueView::Text(login_code@)],
        ),
{
    let s = statement(
        SAVE_LOGIN_CODE_SQL,
        vec![SqlValue::Text(String::from_str(email)), SqlValue::Text(String::from_str(login_code))],
    );
    assert(s@ =~= statement_view(
        SAVE_LOGIN_CODE_SQL@,
        seq![SqlValueView::Text(email@), SqlValueView::Text(login_code@)],
    ));
    s
}

/// The query that finds the user `user_id` where its login code is
/// `login_code` and has not expired.
pub fn check_login_code_statement(user_id: i32, login_code: &str, expiration_days: i32) -> (s:
    Statement)
    ensures
        s@ == statement_view(
            CHECK_LOGIN_CODE_SQL@,
            seq![
                SqlValueView::Int(user_id),
                SqlValueView::Text(login_code@),
                SqlValueView::Int(expiration_days),
            ],
        ),
{
    let s = statement(
        CHECK_LOGIN_CODE_SQL,
        vec![
            SqlValue::Int(user_id),
            SqlValue::Text(String::from_str(login_code)),
            SqlValue::Int(expiration_days),
        ],
    );
    assert(s@ =~= statement_view(
        CHECK_LOGIN_CODE_SQL@,
        seq![
            SqlValueView::Int(user_id),
            SqlValueView::Text(login_code@),
            SqlValueView::Int(expiration_days),
        ],
    ));
    s
}

/// The statement that stores an uploaded image of `user_id` and returns its
/// id.
pub fn save_image_statement(image_name: &str, user_id: i32) -> (s: Statement)
    ensures
        s@ == statement_view(
            SAVE_IMAGE_SQL@,
            seq![SqlValueView::Text(image_name@), SqlValueView::Int(user_id)],
        ),
{
    let s = statement(
        SAVE_IMAGE_SQL,
        vec![SqlValue::Text(String::from_str(image_name)), SqlValue::Int(user_id)],
    );
    assert(s@ =~= statement_view(
        SAVE_IMAGE_SQL@,
        seq![SqlValueView::Text(image_name@), SqlValueView::Int(user_id)],
    ));
    s
}

/// The query for all regions; it has no parameters.
pub fn list_regions_statement() -> (s: Statement)
    ensures
        s@ == statement_view(LIST_REGIONS_SQL@, Seq::empty()),
{
    let s = statement(LIST_REGIONS_SQL, Vec::new());
    assert(s@ =~= statement_view(LIST_REGIONS_SQL@, Seq::empty()));
    s
}

} // verus!
