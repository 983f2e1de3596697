//! Database queries and the decisions around them: which statement a
//! request needs, with which parameters, and what is made of the rows.
use vstd::prelude::*;
use crate::text::{
    blen, chars_of, decimal, decimal_chars, extend_chars, lowercase_of, replace_all, replace_exec,
    slice_chars, str_byte_len, string_from,
};
use crate::utils::{date_text, is_date_text, parent_chars, parent_of};

verus! {

broadcast use vstd::string::group_string_axioms;

// ------------------------------------------------------------------
// Page listing
// ------------------------------------------------------------------

/// Which pages to list.
#[derive(Debug, Clone)]
pub enum PageFilter {
    /// Pages under a path prefix.
    PathPrefix(String),
    /// System pages (path starting with `_`).
    SystemPages,
    /// User pages.
    UserPages,
    /// Daily pages (path `YYYY-MM-DD`).
    DailyPages,
}

/// Pages under a path prefix, by path.
pub const PAGES_BY_PREFIX_SQL: &'static str = "SELECT id, title, path, created_at, updated_at FROM pages WHERE path LIKE ?1 || '%' ORDER BY path";

/// System pages, by path.
pub const SYSTEM_PAGES_SQL: &'static str = "SELECT id, title, path, created_at, updated_at FROM pages WHERE path LIKE '\\_%' ESCAPE '\\' ORDER BY path";

/// User pages, by path.
pub const USER_PAGES_SQL: &'static str = "SELECT id, title, path, created_at, updated_at FROM pages WHERE path NOT LIKE '\\_%' ESCAPE '\\' ORDER BY path";

/// Daily pages, latest first.
pub const DAILY_PAGES_SQL: &'static str = "SELECT id, title, path, created_at, updated_at FROM pages WHERE path REGEXP '^[0-9]{4}-[0-9]{2}-[0-9]{2}$' ORDER BY path DESC";

/// All pages, most recently updated first.
pub const ALL_PAGES_SQL: &'static str = "SELECT id, title, path, created_at, updated_at FROM pages ORDER BY updated_at DESC";

/// The direct children of a page path, by path.
pub const CHILD_PAGES_SQL: &'static str = "SELECT id, title, path, created_at, updated_at FROM pages WHERE path LIKE ?1 AND path NOT LIKE ?2 ORDER BY path";

/// A statement and its parameters.
pub struct Query {
    pub sql: String,
    pub params: Vec<String>,
}

/// The statement and parameter views for listing pages.
pub open spec fn page_list_query(filter: Option<PageFilter>) -> (Seq<char>, Seq<Seq<char>>) {
    match filter {
        Some(PageFilter::PathPrefix(p)) => (PAGES_BY_PREFIX_SQL@, seq![p@]),
        Some(PageFilter::SystemPages) => (SYSTEM_PAGES_SQL@, Seq::empty()),
        Some(PageFilter::UserPages) => (USER_PAGES_SQL@, Seq::empty()),
        Some(PageFilter::DailyPages) => (DAILY_PAGES_SQL@, Seq::empty()),
        None => (ALL_PAGES_SQL@, Seq::empty()),
    }
}

/// The view of a query.
pub open spec fn query_view(q: Query) -> (Seq<char>, Seq<Seq<char>>) {
    (q.sql@, crate::text::string_views(q.params@))
}

fn owned(s: &str) -> (r: String)
    ensures
        r@ == s@,
{
    string_from(chars_of(s).as_slice())
}

/// The statement that lists pages for a filter, and its parameters.
pub fn list_pages_query(filter: Option<PageFilter>) -> (res: Query)
    ensures
        query_view(res) == page_list_query(filter),
{
    let mut params: Vec<String> = Vec::new();
    let sql = match filter {
        Some(PageFilter::PathPrefix(p)) => {
            params.push(p);
            owned(PAGES_BY_PREFIX_SQL)
        },
        Some(PageFilter::SystemPages) => owned(SYSTEM_PAGES_SQL),
        Some(PageFilter::UserPages) => owned(USER_PAGES_SQL),
        Some(PageFilter::DailyPages) => owned(DAILY_PAGES_SQL),
        None => owned(ALL_PAGES_SQL),
    };
    let res = Query { sql, params };
    assert(query_view(res).1 =~= page_list_query(filter).1);
    res
}

/// The filter that a listing request names: `system`, `user`, `daily`, or
/// else a path prefix.
pub fn page_filter_from_request(f: &str) -> (res: PageFilter)
    ensures
        match res {
            PageFilter::SystemPages => f@ == "system"@,
            PageFilter::UserPages => f@ == "user"@,
            PageFilter::DailyPages => f@ == "daily"@,
            PageFilter::PathPrefix(p) => p@ == f@ && f@ != "system"@ && f@ != "user"@ && f@
                != "daily"@,
        },
{
    let c = chars_of(f);
    if crate::text::chars_eq(c.as_slice(), chars_of("system").as_slice()) {
        PageFilter::SystemPages
    } else if crate::text::chars_eq(c.as_slice(), chars_of("user").as_slice()) {
        PageFilter::UserPages
    } else if crate::text::chars_eq(c.as_slice(), chars_of("daily").as_slice()) {
        PageFilter::DailyPages
    } else {
        PageFilter::PathPrefix(owned(f))
    }
}

} // verus!

verus! {

// ------------------------------------------------------------------
// Daily pages and page paths
// ------------------------------------------------------------------

/// Validate a date string (`YYYY-MM-DD`): ten bytes, parts of four, two and
/// two ASCII digits between hyphens.
pub fn is_valid_date_format(date: &str) -> (res: bool)
    ensures
        res == date_text(date@),
{
    let s = chars_of(date);
    is_date_text(s.as_slice())
}

/// The parent of a hierarchical path: the text before its last `/`.
pub fn get_parent_path(path: &str) -> (res: Option<String>)
    ensures
        match res {
            Some(v) => parent_of(path@) == Some(v@),
            None => parent_of(path@) is None,
        },
{
    crate::utils::get_parent_dir(path)
}

/// The ancestors of a path, nearest first: its parent, the parent's
/// parent, and so on.
pub open spec fn ancestors_of(p: Seq<char>) -> Seq<Seq<char>>
    decreases p.len(),
{
    match parent_of(p) {
        Some(q) => if q.len() < p.len() {
            seq![q] + ancestors_of(q)
        } else {
            Seq::empty()
        },
        None => Seq::empty(),
    }
}

/// The paths to look up, nearest first, for the ancestors of a page; the
/// lookup stops at the first that has no page.
pub fn ancestor_paths(path: &str) -> (res: Vec<String>)
    ensures
        crate::text::string_views(res@) == ancestors_of(path@),
{
    let mut cur = chars_of(path);
    let mut res: Vec<String> = Vec::new();
    assert(crate::text::string_views(res@) =~= Seq::<Seq<char>>::empty());
    loop
        invariant
            crate::text::string_views(res@) + ancestors_of(cur@) == ancestors_of(path@),
        decreases cur@.len(),
    {
        match parent_chars(cur.as_slice()) {
            Some(q) => {
                proof {
                    crate::text::lemma_last_of(cur@, '/', 0, cur@.len() as int);
                }
                assert(q@.len() < cur@.len());
                let ghost prev = res@;
                let qs = string_from(q.as_slice());
                res.push(qs);
                proof {
                    crate::text::lemma_string_views_push(prev, qs);
                    assert(crate::text::string_views(res@) + ancestors_of(q@) =~= crate::text::string_views(prev)
                        + ancestors_of(cur@));
                }
                cur = q;
            },
            None => {
                assert(crate::text::string_views(res@) + ancestors_of(cur@) =~= crate::text::string_views(res@));
                return res;
            },
        }
    }
}

/// The two `LIKE` patterns that select the direct children of a page path:
/// everything under `path/`, and not what is under a deeper `/`.
pub fn child_page_patterns(path: &str) -> (res: (String, String))
    ensures
        res.0@ == path@ + "/%"@,
        res.1@ == path@ + "/%/%"@,
{
    let mut a = chars_of(path);
    extend_chars(&mut a, chars_of("/%").as_slice());
    let mut b = chars_of(path);
    extend_chars(&mut b, chars_of("/%/%").as_slice());
    (string_from(a.as_slice()), string_from(b.as_slice()))
}

/// The text of a template with its variables filled in: `<today>`,
/// `<time>`, `<title>` and `<path>`, in that order.
pub open spec fn substituted(
    content: Seq<char>,
    today: Seq<char>,
    time: Seq<char>,
    title: Seq<char>,
    path: Seq<char>,
) -> Seq<char> {
    replace_all(
        replace_all(
            replace_all(replace_all(content, "<today>"@, today), "<time>"@, time),
            "<title>"@,
            title,
        ),
        "<path>"@,
        path,
    )
}

fn replace_str(s: &[char], pat: &str, by: &[char]) -> (r: Vec<char>)
    requires
        pat@.len() > 0,
    ensures
        r@ == replace_all(s@, pat@, by@),
{
    let p = chars_of(pat);
    replace_exec(s, p.as_slice(), by)
}

/// Fill in a template's variables with the given date, time and page.
pub fn substitute_template_variables_with(
    content: &str,
    today: &str,
    time: &str,
    title: &str,
    path: &str,
) -> (res: String)
    ensures
        res@ == substituted(content@, today@, time@, title@, path@),
{
    proof {
        reveal_strlit("<today>");
        reveal_strlit("<time>");
        reveal_strlit("<title>");
        reveal_strlit("<path>");
    }
    let c = chars_of(content);
    let a = replace_str(c.as_slice(), "<today>", chars_of(today).as_slice());
    let b = replace_str(a.as_slice(), "<time>", chars_of(time).as_slice());
    let d = replace_str(b.as_slice(), "<title>", chars_of(title).as_slice());
    let e = replace_str(d.as_slice(), "<path>", chars_of(path).as_slice());
    string_from(e.as_slice())
}

/// `chrono::Utc::now().format("%Y-%m-%d")`: today's UTC date.  Which
/// date comes is left open.
#[verifier::external_body]
fn utc_today_text() -> (r: String) {
    chrono::Utc::now().format("%Y-%m-%d").to_string()
}

/// `chrono::Utc::now().format("%H:%M")`: the current UTC time of day.
/// Which time comes is left open.
#[verifier::external_body]
fn utc_time_text() -> (r: String) {
    chrono::Utc::now().format("%H:%M").to_string()
}

/// Fill in a template's variables for a page, with today's date
/// (`YYYY-MM-DD`) and the current time (`HH:MM`), in UTC.
pub fn substitute_template_variables(content: &str, page: &crate::model::Page) -> (res: String)
    ensures
        exists|today: Seq<char>, time: Seq<char>|
            res@ == substituted(content@, today, time, page.title@, page.path@),
{
    let today = utc_today_text();
    let time = utc_time_text();
    substitute_template_variables_with(
        content,
        today.as_str(),
        time.as_str(),
        page.title.as_str(),
        page.path.as_str(),
    )
}

// ------------------------------------------------------------------
// Page updates
// ------------------------------------------------------------------

/// Set a page's title and path.
pub const UPDATE_TITLE_AND_PATH_SQL: &'static str = "UPDATE pages SET title = ?1, path = ?2, updated_at = ?3 WHERE id = ?4";

/// Set a page's title.
pub const UPDATE_TITLE_SQL: &'static str = "UPDATE pages SET title = ?1, updated_at = ?2 WHERE id = ?3";

/// Set a page's path.
pub const UPDATE_PATH_SQL: &'static str = "UPDATE pages SET path = ?1, updated_at = ?2 WHERE id = ?3";

/// The statement that updates a page, with the text parameters that come
/// before the time and the id: `None` when there is nothing to update.
pub open spec fn page_update_plan(title: Option<Seq<char>>, path: Option<Seq<char>>) -> Option<
    (Seq<char>, Seq<Seq<char>>),
> {
    match (title, path) {
        (Some(t), Some(p)) => Some((UPDATE_TITLE_AND_PATH_SQL@, seq![t, p])),
        (Some(t), None) => Some((UPDATE_TITLE_SQL@, seq![t])),
        (None, Some(p)) => Some((UPDATE_PATH_SQL@, seq![p])),
        (None, None) => None,
    }
}

/// The view of an optional string slice.
pub open spec fn str_opt_view(o: Option<&str>) -> Option<Seq<char>> {
    match o {
        Some(s) => Some(s@),
        None => None,
    }
}

/// Plan a page update: the statement and its leading parameters, or the
/// error that there is nothing to update.
pub fn plan_page_update(title: Option<&str>, path: Option<&str>) -> (res: Result<Query, AppError>)
    ensures
        match res {
            Ok(q) => page_update_plan(str_opt_view(title), str_opt_view(path)) == Some(
                query_view(q),
            ),
            Err(e) => page_update_plan(str_opt_view(title), str_opt_view(path)) is None
                && e@ == AppErrorView::InvalidInput("No fields to update"@),
        },
{
    let mut params: Vec<String> = Vec::new();
    let sql = match (title, path) {
        (Some(t), Some(p)) => {
            params.push(owned(t));
            params.push(owned(p));
            owned(UPDATE_TITLE_AND_PATH_SQL)
        },
        (Some(t), None) => {
            params.push(owned(t));
            owned(UPDATE_TITLE_SQL)
        },
        (None, Some(p)) => {
            params.push(owned(p));
            owned(UPDATE_PATH_SQL)
        },
        (None, None) => {
            return Err(AppError::invalid_input(owned("No fields to update")));
        },
    };
    let q = Query { sql, params };
    let ghost plan = page_update_plan(str_opt_view(title), str_opt_view(path))->0;
    assert(query_view(q).1 =~= plan.1);
    Ok(q)
}

// ------------------------------------------------------------------
// Errors
// ------------------------------------------------------------------

/// The errors of the application, each with its message.
#[derive(Debug)]
pub enum AppError {
    Database(String),
    Io(String),
    Serialization(String),
    Parse(String),
    NotFound(String),
    InvalidInput(String),
}

/// The abstract value of an error.
pub enum AppErrorView {
    Database(Seq<char>),
    Io(Seq<char>),
    Serialization(Seq<char>),
    Parse(Seq<char>),
    NotFound(Seq<char>),
    InvalidInput(Seq<char>),
}

impl View for AppError {
    type V = AppErrorView;

    open spec fn view(&self) -> AppErrorView {
        match self {
            AppError::Database(m) => AppErrorView::Database(m@),
            AppError::Io(m) => AppErrorView::Io(m@),
            AppError::Serialization(m) => AppErrorView::Serialization(m@),
            AppError::Parse(m) => AppErrorView::Parse(m@),
            AppError::NotFound(m) => AppErrorView::NotFound(m@),
            AppError::InvalidInput(m) => AppErrorView::InvalidInput(m@),
        }
    }
}

/// The message of an error, as it is shown.
pub open spec fn error_message(e: AppErrorView) -> Seq<char> {
    match e {
        AppErrorView::Database(m) => "Database error: "@ + m,
        AppErrorView::Io(m) => "IO error: "@ + m,
        AppErrorView::Serialization(m) => "Serialization error: "@ + m,
        AppErrorView::Parse(m) => "Parse error: "@ + m,
        AppErrorView::NotFound(m) => "Not found: "@ + m,
        AppErrorView::InvalidInput(m) => "Invalid input: "@ + m,
    }
}

impl AppError {
    /// An invalid-input error with a message.
    pub fn invalid_input(m: String) -> (res: AppError)
        ensures
            res@ == AppErrorView::InvalidInput(m@),
    {
        AppError::InvalidInput(m)
    }

    /// A not-found error with a message.
    pub fn not_found(m: String) -> (res: AppError)
        ensures
            res@ == AppErrorView::NotFound(m@),
    {
        AppError::NotFound(m)
    }

    /// The message of the error, as it is shown.
    pub fn message(&self) -> (res: String)
        ensures
            res@ == error_message(self@),
    {
        let (prefix, m) = match self {
            AppError::Database(m) => ("Database error: ", m),
            AppError::Io(m) => ("IO error: ", m),
            AppError::Serialization(m) => ("Serialization error: ", m),
            AppError::Parse(m) => ("Parse error: ", m),
            AppError::NotFound(m) => ("Not found: ", m),
            AppError::InvalidInput(m) => ("Invalid input: ", m),
        };
        let mut out = chars_of(prefix);
        extend_chars(&mut out, chars_of(m.as_str()).as_slice());
        string_from(out.as_slice())
    }
}

} // verus!

verus! {

// ------------------------------------------------------------------
// Search
// ------------------------------------------------------------------

/// Full-text search of blocks, best first (before the limit clause).
pub const BLOCK_SEARCH_SQL_HEAD: &'static str = r#"
            SELECT 
                b.id, b.uuid, b.page_id, b.parent_id, b."order", b.content, 
                b.is_encrypted, b.created_at, b.updated_at,
                p.title as page_title, p.path as page_path,
                bm25(blocks_fts) as rank
            FROM blocks_fts 
            JOIN blocks b ON blocks_fts.rowid = b.id
            JOIN pages p ON b.page_id = p.id
            WHERE blocks_fts MATCH ?1
            ORDER BY rank
            "#;

/// Full-text search of blocks, best first (after the limit clause).
pub const BLOCK_SEARCH_SQL_TAIL: &'static str = r#"
            "#;

/// Search of pages by title and path, best match first (before the limit clause).
pub const PAGE_SEARCH_SQL_HEAD: &'static str = r#"
            SELECT id, title, path, created_at, updated_at
            FROM pages
            WHERE title LIKE ?1 OR path LIKE ?1
            ORDER BY 
                CASE 
                    WHEN title = ?2 THEN 1
                    WHEN title LIKE ?3 THEN 2
                    WHEN path = ?2 THEN 3
                    WHEN path LIKE ?3 THEN 4
                    ELSE 5
                END,
                length(title),
                updated_at DESC
            "#;

/// Search of pages by title and path, best match first (after the limit clause).
pub const PAGE_SEARCH_SQL_TAIL: &'static str = r#"
            "#;

/// Blocks with content, most recently updated first (before the limit clause).
pub const RECENT_BLOCKS_SQL_HEAD: &'static str = r#"
            SELECT id, uuid, page_id, parent_id, "order", content, is_encrypted, created_at, updated_at
            FROM blocks
            WHERE content != ''
            ORDER BY updated_at DESC
            "#;

/// Blocks with content, most recently updated first (after the limit clause).
pub const RECENT_BLOCKS_SQL_TAIL: &'static str = r#"
            "#;

/// Blocks with a property of a given key and value, most recently updated first.
pub const BLOCKS_BY_PROPERTY_VALUE_SQL: &'static str = r#"
                SELECT DISTINCT b.id, b.uuid, b.page_id, b.parent_id, b."order", b.content, 
                       b.is_encrypted, b.created_at, b.updated_at
                FROM blocks b
                JOIN block_properties bp ON b.id = bp.block_id
                WHERE bp.key = ?1 AND bp.value = ?2
                ORDER BY b.updated_at DESC
                "#;

/// Blocks with a property of a given key, most recently updated first.
pub const BLOCKS_BY_PROPERTY_SQL: &'static str = r#"
                SELECT DISTINCT b.id, b.uuid, b.page_id, b.parent_id, b."order", b.content, 
                       b.is_encrypted, b.created_at, b.updated_at
                FROM blocks b
                JOIN block_properties bp ON b.id = bp.block_id
                WHERE bp.key = ?1
                ORDER BY b.updated_at DESC
                "#;

/// The limit clause of a statement: `LIMIT n`, or nothing.
pub open spec fn limit_text(limit: Option<usize>) -> Seq<char> {
    match limit {
        Some(l) => "LIMIT "@ + decimal(l as nat),
        None => Seq::empty(),
    }
}

/// The limit clause of a statement.
pub fn limit_clause(limit: Option<usize>) -> (res: String)
    ensures
        res@ == limit_text(limit),
{
    match limit {
        Some(l) => {
            let mut out = chars_of("LIMIT ");
            extend_chars(&mut out, decimal_chars(l as u64).as_slice());
            string_from(out.as_slice())
        },
        None => {
            proof {
                reveal_strlit("");
            }
            string_from(chars_of("").as_slice())
        },
    }
}

fn with_limit(head: &str, limit: Option<usize>, tail: &str) -> (res: String)
    ensures
        res@ == head@ + limit_text(limit) + tail@,
{
    let mut out = chars_of(head);
    let l = limit_clause(limit);
    extend_chars(&mut out, chars_of(l.as_str()).as_slice());
    extend_chars(&mut out, chars_of(tail).as_slice());
    string_from(out.as_slice())
}

/// The full-text search statement for blocks, with its limit.
pub fn block_search_sql(limit: Option<usize>) -> (res: String)
    ensures
        res@ == BLOCK_SEARCH_SQL_HEAD@ + limit_text(limit) + BLOCK_SEARCH_SQL_TAIL@,
{
    with_limit(BLOCK_SEARCH_SQL_HEAD, limit, BLOCK_SEARCH_SQL_TAIL)
}

/// The page search statement, with its limit.
pub fn page_search_sql(limit: Option<usize>) -> (res: String)
    ensures
        res@ == PAGE_SEARCH_SQL_HEAD@ + limit_text(limit) + PAGE_SEARCH_SQL_TAIL@,
{
    with_limit(PAGE_SEARCH_SQL_HEAD, limit, PAGE_SEARCH_SQL_TAIL)
}

/// The recent blocks statement, with its limit.
pub fn recent_blocks_sql(limit: Option<usize>) -> (res: String)
    ensures
        res@ == RECENT_BLOCKS_SQL_HEAD@ + limit_text(limit) + RECENT_BLOCKS_SQL_TAIL@,
{
    with_limit(RECENT_BLOCKS_SQL_HEAD, limit, RECENT_BLOCKS_SQL_TAIL)
}

/// Whether a search query is blank, so that no search is run.
pub fn query_is_blank(query: &str) -> (res: bool)
    ensures
        res == crate::text::is_blank(query@),
{
    crate::text::trim_chars(chars_of(query).as_slice()).len() == 0
}

/// The three patterns of a page search: the query anywhere, the query
/// exactly, the query as a prefix.
pub fn page_search_patterns(query: &str) -> (res: (String, String, String))
    ensures
        res.0@ == "%"@ + query@ + "%"@,
        res.1@ == query@,
        res.2@ == query@ + "%"@,
{
    let mut a = chars_of("%");
    extend_chars(&mut a, chars_of(query).as_slice());
    extend_chars(&mut a, chars_of("%").as_slice());
    let b = owned(query);
    let mut c = chars_of(query);
    extend_chars(&mut c, chars_of("%").as_slice());
    (string_from(a.as_slice()), b, string_from(c.as_slice()))
}

/// How a global search shares its limit: half (rounded down) for pages,
/// the rest for blocks; ten pages and twenty blocks without a limit.
pub open spec fn global_limits(limit: Option<usize>) -> (usize, usize) {
    match limit {
        Some(l) => ((l / 2) as usize, (l - l / 2) as usize),
        None => (10, 20),
    }
}

/// Share the limit of a global search between pages and blocks.
pub fn global_search_limits(limit: Option<usize>) -> (res: (usize, usize))
    ensures
        res == global_limits(limit),
        match limit {
            Some(l) => res.0 + res.1 == l,
            None => true,
        },
{
    match limit {
        Some(l) => {
            let page_limit = l / 2;
            (page_limit, l - page_limit)
        },
        None => (10, 20),
    }
}

/// The statement that finds blocks by a property, with or without a
/// required value, and its parameters.
pub fn property_search_query(key: &str, value: Option<&str>) -> (res: Query)
    ensures
        query_view(res) == (match value {
            Some(v) => (BLOCKS_BY_PROPERTY_VALUE_SQL@, seq![key@, v@]),
            None => (BLOCKS_BY_PROPERTY_SQL@, seq![key@]),
        }),
{
    let mut params: Vec<String> = Vec::new();
    params.push(owned(key));
    let sql = match value {
        Some(v) => {
            params.push(owned(v));
            owned(BLOCKS_BY_PROPERTY_VALUE_SQL)
        },
        None => owned(BLOCKS_BY_PROPERTY_SQL),
    };
    let q = Query { sql, params };
    assert(crate::text::string_views(q.params@) =~= (match value {
        Some(v) => seq![key@, v@],
        None => seq![key@],
    }));
    q
}

} // verus!

verus! {

// ------------------------------------------------------------------
// Search snippets
// ------------------------------------------------------------------

/// Walking from character `i` at byte offset `off`, the index of the
/// character that starts at byte offset `n`.
pub open spec fn index_at_byte_from(s: Seq<char>, n: int, i: int, off: int) -> Option<int>
    decreases s.len() - i,
{
    if off == n {
        Some(i)
    } else if i < 0 || i >= s.len() || off > n {
        None
    } else {
        index_at_byte_from(s, n, i + 1, off + crate::text::char_width(s[i]))
    }
}

/// The index of the character that starts at byte offset `n` (the length
/// for the end); `None` when `n` falls inside a character or past the end.
pub open spec fn index_at_byte(s: Seq<char>, n: int) -> Option<int> {
    index_at_byte_from(s, n, 0, 0)
}

proof fn lemma_index_at_byte_from(s: Seq<char>, n: int, i: int, off: int)
    requires
        0 <= i <= s.len(),
        off == blen(s.take(i)),
    ensures
        match index_at_byte_from(s, n, i, off) {
            Some(k) => i <= k <= s.len() && blen(s.take(k)) == n,
            None => true,
        },
    decreases s.len() - i,
{
    if off != n && i < s.len() && off <= n {
        assert(s.take(i + 1) =~= s.take(i).push(s[i]));
        crate::text::lemma_blen_push(s.take(i), s[i]);
        lemma_index_at_byte_from(s, n, i + 1, off + crate::text::char_width(s[i]));
    }
}

fn index_at_byte_exec(s: &[char], n: u128) -> (r: Option<usize>)
    ensures
        match r {
            Some(k) => index_at_byte(s@, n as int) == Some(k as int) && k <= s@.len() && blen(
                s@.take(k as int),
            ) == n,
            None => index_at_byte(s@, n as int) is None,
        },
{
    proof {
        assert(s@.take(0) =~= Seq::<char>::empty());
        lemma_index_at_byte_from(s@, n as int, 0, 0);
    }
    let mut i: usize = 0;
    let mut off: u128 = 0;
    while off != n && i < s.len() && off <= n
        invariant
            i <= s@.len(),
            off == blen(s@.take(i as int)),
            off <= 4 * i,
            index_at_byte_from(s@, n as int, i as int, off as int) == index_at_byte(s@, n as int),
        decreases s@.len() - i,
    {
        let w = crate::text::char_width_of(s[i]);
        proof {
            assert(s@.take(i + 1) =~= s@.take(i as int).push(s@[i as int]));
            crate::text::lemma_blen_push(s@.take(i as int), s@[i as int]);
        }
        off = off + w as u128;
        i = i + 1;
    }
    proof {
        lemma_index_at_byte_from(s@, n as int, i as int, off as int);
    }
    if off == n {
        Some(i)
    } else {
        None
    }
}

/// `s` from `i` on with each stretch of `n` characters whose lowercase
/// is `ql` replaced by `r`, leftmost first and not overlapping.
pub open spec fn mark_from(s: Seq<char>, n: nat, ql: Seq<char>, r: Seq<char>, i: int) -> Seq<char>
    decreases s.len() - i,
{
    if i < 0 || i >= s.len() {
        Seq::empty()
    } else if n > 0 && i + n <= s.len() && lowercase_of(s.subrange(i, i + n)) == ql {
        r + mark_from(s, n, ql, r, i + n)
    } else {
        seq![s[i]] + mark_from(s, n, ql, r, i + 1)
    }
}

/// Marking the second part of a joined text, from some index on, is
/// marking that part alone.
proof fn lemma_mark_shift(p: Seq<char>, t: Seq<char>, n: nat, ql: Seq<char>, r: Seq<char>, k: int)
    requires
        0 <= k,
    ensures
        mark_from(p + t, n, ql, r, p.len() + k) == mark_from(t, n, ql, r, k),
    decreases t.len() - k,
{
    let s = p + t;
    let i = p.len() + k;
    if k < t.len() {
        if k + n <= t.len() {
            assert(s.subrange(i, i + n) =~= t.subrange(k, k + n));
        }
        assert(s[i] == t[k]);
        if n > 0 && k + n <= t.len() && lowercase_of(t.subrange(k, k + n)) == ql {
            lemma_mark_shift(p, t, n, ql, r, k + n);
        } else {
            lemma_mark_shift(p, t, n, ql, r, k + 1);
        }
    }
}

/// A stretch at the start that lowercases to the query becomes the mark,
/// and every later stretch is marked in turn: marking one match never
/// leaves the ones after it unmarked.
pub proof fn law_mark_match_then_rest(w: Seq<char>, t: Seq<char>, ql: Seq<char>, r: Seq<char>)
    requires
        w.len() > 0,
        lowercase_of(w) == ql,
    ensures
        mark_from(w + t, w.len(), ql, r, 0) == r + mark_from(t, w.len(), ql, r, 0),
{
    assert((w + t).subrange(0, w.len() as int) =~= w);
    lemma_mark_shift(w, t, w.len(), ql, r, 0);
}

/// A character that starts no match is kept, and the rest is marked in
/// turn.
pub proof fn law_mark_unmatched_char_then_rest(c: char, t: Seq<char>, n: nat, ql: Seq<char>, r: Seq<char>)
    requires
        !(n > 0 && n <= t.len() + 1 && lowercase_of((seq![c] + t).subrange(0, n as int)) == ql),
    ensures
        mark_from(seq![c] + t, n, ql, r, 0) == seq![c] + mark_from(t, n, ql, r, 0),
{
    lemma_mark_shift(seq![c], t, n, ql, r, 0);
}

proof fn lemma_mark_unmatched_from(s: Seq<char>, n: nat, ql: Seq<char>, r: Seq<char>, i: int)
    requires
        0 <= i <= s.len(),
        forall|k: int| 0 <= k && k + n <= s.len() ==> #[trigger] lowercase_of(s.subrange(k, k + n)) != ql,
    ensures
        mark_from(s, n, ql, r, i) == s.subrange(i, s.len() as int),
    decreases s.len() - i,
{
    if i < s.len() {
        lemma_mark_unmatched_from(s, n, ql, r, i + 1);
        if i + n <= s.len() {
            assert(lowercase_of(s.subrange(i, i + n)) != ql);
        }
        assert(s.subrange(i, s.len() as int) =~= seq![s[i]] + s.subrange(i + 1, s.len() as int));
    }
}

/// A text with no stretch that lowercases to the query comes out
/// unchanged.
pub proof fn law_mark_without_match_unchanged(s: Seq<char>, n: nat, ql: Seq<char>, r: Seq<char>)
    requires
        forall|k: int| 0 <= k && k + n <= s.len() ==> #[trigger] lowercase_of(s.subrange(k, k + n)) != ql,
    ensures
        mark_from(s, n, ql, r, 0) == s,
{
    lemma_mark_unmatched_from(s, n, ql, r, 0);
    assert(s.subrange(0, s.len() as int) =~= s);
}

fn mark_exec(s: &[char], n: usize, ql: &[char], r: &[char]) -> (out: Vec<char>)
    ensures
        out@ == mark_from(s@, n as nat, ql@, r@, 0),
{
    let mut out: Vec<char> = Vec::new();
    let mut i: usize = 0;
    while i < s.len()
        invariant
            out@ + mark_from(s@, n as nat, ql@, r@, i as int) == mark_from(s@, n as nat, ql@, r@, 0),
        decreases s@.len() - i,
    {
        let ghost before = out@;
        let hit = if n > 0 && n <= s.len() - i {
            let window = string_from(slice_chars(s, i, i + n).as_slice());
            let low = chars_of(crate::text::to_lowercase(window.as_str()).as_str());
            crate::text::chars_eq(low.as_slice(), ql)
        } else {
            false
        };
        if hit {
            extend_chars(&mut out, r);
            assert(out@ + mark_from(s@, n as nat, ql@, r@, i + n) =~= before + mark_from(
                s@,
                n as nat,
                ql@,
                r@,
                i as int,
            ));
            i = i + n;
        } else {
            out.push(s[i]);
            assert(out@ + mark_from(s@, n as nat, ql@, r@, i + 1) =~= before + mark_from(
                s@,
                n as nat,
                ql@,
                r@,
                i as int,
            ));
            i = i + 1;
        }
    }
    assert(mark_from(s@, n as nat, ql@, r@, i as int) =~= Seq::<char>::empty());
    assert(out@ + Seq::<char>::empty() =~= out@);
    out
}

/// The snippet shown for a block found by a query: up to 50 bytes around
/// the first match of the lowercased query in the lowercased content,
/// with `...` where text was cut and each stretch as long as the query
/// that lowercases to the lowercased query (the query in any case)
/// replaced by `**query**`; without a match, the first 100 bytes and `...`.  `None`
/// where a cut would fall inside a character or the lowercased query is
/// empty.
pub open spec fn snippet_of(content: Seq<char>, query: Seq<char>) -> Option<Seq<char>> {
    let cl = lowercase_of(content);
    let ql = lowercase_of(query);
    let total = blen(content) as int;
    if ql.len() == 0 {
        None
    } else {
        match crate::text::find(cl, ql) {
            Some(k) => {
                let pos = blen(cl.take(k)) as int;
                let start = if pos >= 50 {
                    pos - 50
                } else {
                    0
                };
                let end = if pos + blen(query) + 50 < total {
                    pos + blen(query) + 50
                } else {
                    total
                };
                match (index_at_byte(content, start), index_at_byte(content, end)) {
                    (Some(a), Some(b)) => if a <= b {
                        let s0 = content.subrange(a, b);
                        let s1 = if start > 0 {
                            "..."@ + s0
                        } else {
                            s0
                        };
                        let s2 = if end < total {
                            s1 + "..."@
                        } else {
                            s1
                        };
                        Some(mark_from(s2, query.len(), ql, "**"@ + query + "**"@, 0))
                    } else {
                        None
                    },
                    _ => None,
                }
            },
            None => if total > 100 {
                match index_at_byte(content, 100) {
                    Some(c) => Some(content.take(c) + "..."@),
                    None => None,
                }
            } else {
                Some(content)
            },
        }
    }
}

/// Generate the snippet of a search result (see `snippet_of`).
pub fn generate_snippet(content: &str, query: &str) -> (res: Option<String>)
    ensures
        match res {
            Some(s) => snippet_of(content@, query@) == Some(s@),
            None => snippet_of(content@, query@) is None,
        },
{
    let c = chars_of(content);
    let cl = chars_of(crate::text::to_lowercase(content).as_str());
    let ql = chars_of(crate::text::to_lowercase(query).as_str());
    let total = str_byte_len(content) as u128;
    if ql.len() == 0 {
        return None;
    }
    match crate::text::find_from_exec(cl.as_slice(), ql.as_slice(), 0) {
        Some(k) => {
            proof {
                crate::text::lemma_find_from_facts(cl@, ql@, 0);
            }
            let head = slice_chars(cl.as_slice(), 0, k);
            let _hl = head.len();
            let pos = crate::text::byte_len_wide(head.as_slice());
            assert(cl@.subrange(0, k as int) =~= cl@.take(k as int));
            let qlen = str_byte_len(query) as u128;
            let start: u128 = if pos >= 50 {
                pos - 50
            } else {
                0
            };
            let end: u128 = if pos + qlen + 50 < total {
                pos + qlen + 50
            } else {
                total
            };
            let a = index_at_byte_exec(c.as_slice(), start);
            let b = index_at_byte_exec(c.as_slice(), end);
            match (a, b) {
                (Some(a), Some(b)) => {
                    if a <= b {
                        let mut s = Vec::new();
                        if start > 0 {
                            s = chars_of("...");
                        }
                        extend_chars(&mut s, slice_chars(c.as_slice(), a, b).as_slice());
                        if end < total {
                            extend_chars(&mut s, chars_of("...").as_slice());
                        }
                        let mut mark = chars_of("**");
                        extend_chars(&mut mark, chars_of(query).as_slice());
                        extend_chars(&mut mark, chars_of("**").as_slice());
                        let qn = chars_of(query).len();
                        let out = mark_exec(s.as_slice(), qn, ql.as_slice(), mark.as_slice());
                        proof {
                            let s0 = content@.subrange(a as int, b as int);
                            let s1 = if start > 0 {
                                "..."@ + s0
                            } else {
                                s0
                            };
                            let s2 = if end < total {
                                s1 + "..."@
                            } else {
                                s1
                            };
                            assert(s@ =~= s2);
                            assert(mark@ =~= "**"@ + query@ + "**"@);
                        }
                        Some(string_from(out.as_slice()))
                    } else {
                        None
                    }
                },
                _ => None,
            }
        },
        None => {
            if total > 100 {
                match index_at_byte_exec(c.as_slice(), 100) {
                    Some(k) => {
                        let mut s = slice_chars(c.as_slice(), 0, k);
                        extend_chars(&mut s, chars_of("...").as_slice());
                        assert(s@ =~= content@.take(k as int) + "..."@);
                        Some(string_from(s.as_slice()))
                    },
                    None => None,
                }
            } else {
                Some(string_from(c.as_slice()))
            }
        },
    }
}

} // verus!

verus! {

/// A block that links to a page, with the page it is on.
#[derive(Debug)]
pub struct BacklinkResult {
    pub block: crate::model::Block,
    pub source_page_title: String,
    pub source_page_path: String,
    pub link_text: Option<String>,
}

/// A backlink with the hierarchy of the linking block.
#[derive(Debug)]
pub struct ContextualBacklink {
    pub source_page_title: String,
    pub source_page_path: String,
    pub link_text: Option<String>,
    pub hierarchy: crate::model::BlockHierarchy,
}

} // verus!
