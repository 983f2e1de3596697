//! The commands offered to the user interface: their requests, responses
//! and the decisions they make.
use vstd::prelude::*;
use crate::db::{AppError, AppErrorView, error_message};
use crate::links::{extract_page_links, find_malformed_links, malformed_links, page_links};
use crate::markdown::{cmark_html, parse_to_html, post_processed};
use crate::model::{block_status_of, insert_order, insert_order_fits, Block, BlockProperty, Page};
use crate::properties::{properties, pair_views};
use crate::tasks::{extract_task_status, has_task_markers, status_keyword, task_status_of};
use crate::text::{blen, chars_of, extend_chars, str_byte_len, string_from, string_views};
pub use crate::properties::PropertyContext;

verus! {

broadcast use vstd::string::group_string_axioms;

// ------------------------------------------------------------------
// Responses
// ------------------------------------------------------------------

/// The response of a command: its data on success, its error message
/// otherwise.
#[derive(Debug)]
pub struct CommandResponse<T> {
    pub success: bool,
    pub data: Option<T>,
    pub error: Option<String>,
}

impl<T> CommandResponse<T> {
    /// A successful response carrying `data`.
    pub fn success(data: T) -> (res: CommandResponse<T>)
        ensures
            res.success,
            res.data == Some(data),
            res.error is None,
    {
        CommandResponse { success: true, data: Some(data), error: None }
    }

    /// A failed response carrying an error message.
    pub fn error(message: String) -> (res: CommandResponse<T>)
        ensures
            !res.success,
            res.data is None,
            res.error == Some(message),
    {
        CommandResponse { success: false, data: None, error: Some(message) }
    }

    /// The response for the result of an operation: its data, or the
    /// message of its error.
    pub fn from_result(result: Result<T, AppError>) -> (res: CommandResponse<T>)
        ensures
            match result {
                Ok(d) => res.success && res.data == Some(d) && res.error is None,
                Err(e) => !res.success && res.data is None && (res.error matches Some(m) && m@
                    == error_message(e@)),
            },
    {
        match result {
            Ok(d) => CommandResponse::success(d),
            Err(e) => CommandResponse::error(e.message()),
        }
    }
}

// ------------------------------------------------------------------
// Requests
// ------------------------------------------------------------------

/// Create a block on a page, under an optional parent, at an optional
/// position among its siblings.
#[derive(Debug)]
pub struct CreateBlockRequest {
    pub page_id: i32,
    pub parent_id: Option<i32>,
    pub content: String,
    pub position: Option<usize>,
}

/// Replace a block's content.
#[derive(Debug)]
pub struct UpdateBlockRequest {
    pub content: String,
}

/// Move a block under a new parent, at a new position.
#[derive(Debug)]
pub struct MoveBlockRequest {
    pub new_parent_id: Option<i32>,
    pub new_position: Option<usize>,
}

/// Set a block property; `value_type` is `text` or `list`.
#[derive(Debug)]
pub struct SetPropertyRequest {
    pub key: String,
    pub value: String,
    pub value_type: String,
}

/// Render Markdown; `render_mode` false keeps the raw text.
#[derive(Debug)]
pub struct ParseMarkdownRequest {
    pub content: String,
    pub render_mode: Option<bool>,
}

/// Extract the page links of a text.
#[derive(Debug)]
pub struct ExtractLinksRequest {
    pub content: String,
}

/// Extract the properties of a text.
#[derive(Debug)]
pub struct ExtractPropertiesRequest {
    pub content: String,
}

/// Create a page.
#[derive(Debug)]
pub struct CreatePageRequest {
    pub title: String,
    pub path: String,
}

/// Change a page's title, path, or both.
#[derive(Debug)]
pub struct UpdatePageRequest {
    pub title: Option<String>,
    pub path: Option<String>,
}

/// List pages: filter `system`, `user`, `daily` or a path prefix.
#[derive(Debug)]
pub struct ListPagesRequest {
    pub filter: Option<String>,
    pub limit: Option<usize>,
}

/// A text search.
#[derive(Debug)]
pub struct SearchRequest {
    pub query: String,
    pub limit: Option<usize>,
}

/// A search by property key and optional value.
#[derive(Debug)]
pub struct PropertySearchRequest {
    pub key: String,
    pub value: Option<String>,
}

/// A property condition of an advanced search.
#[derive(Debug)]
pub struct PropertyFilter {
    pub key: String,
    pub value: Option<String>,
}

// ------------------------------------------------------------------
// Content commands
// ------------------------------------------------------------------

/// Rendered Markdown and what was found in it.
#[derive(Debug)]
pub struct MarkdownResult {
    pub html: String,
    pub raw: String,
    pub links: Vec<String>,
    pub has_tasks: bool,
}

/// A property found in a text, with its line number.
#[derive(Debug)]
pub struct PropertyResult {
    pub key: String,
    pub value: String,
    pub line_number: usize,
}

/// Warnings and errors about a text.
#[derive(Debug)]
pub struct ContentValidationResult {
    pub is_valid: bool,
    pub warnings: Vec<String>,
    pub errors: Vec<String>,
}

/// Completions for the text being typed.
#[derive(Debug)]
pub struct ContentSuggestions {
    pub page_suggestions: Vec<String>,
    pub property_suggestions: Vec<String>,
    pub template_suggestions: Vec<String>,
}

/// Whether a linked page exists.
#[derive(Debug)]
pub struct LinkStatus {
    pub link: String,
    pub exists: bool,
}

/// A preview of rendered content with what was found in it.
#[derive(Debug)]
pub struct ContentPreview {
    pub html: String,
    pub properties: Vec<PropertyResult>,
    pub link_statuses: Vec<LinkStatus>,
    pub task_status: Option<String>,
    pub word_count: usize,
    pub character_count: usize,
}

fn copy_string(s: &String) -> (r: String)
    ensures
        r@ == s@,
{
    string_from(chars_of(s.as_str()).as_slice())
}

/// Parse Markdown: the HTML (or the raw text when not rendering), the raw
/// text, its page links and whether it is a task.
pub fn parse_markdown(request: ParseMarkdownRequest) -> (res: CommandResponse<MarkdownResult>)
    ensures
        res.success && res.error is None,
        res.data matches Some(r) && {
            &&& r.html@ == (if request.render_mode != Some(false) {
                post_processed(cmark_html(request.content@, true, true, true))
            } else {
                request.content@
            })
            &&& r.raw@ == request.content@
            &&& string_views(r.links@) == page_links(request.content@)
            &&& r.has_tasks == (task_status_of(request.content@) is Some)
        },
{
    let render_mode = match request.render_mode {
        Some(b) => b,
        None => true,
    };
    let html = parse_to_html(request.content.as_str());
    let links = extract_page_links(request.content.as_str());
    let has_tasks = has_task_markers(request.content.as_str());
    let html = if render_mode {
        html
    } else {
        copy_string(&request.content)
    };
    CommandResponse::success(MarkdownResult { html, raw: request.content, links, has_tasks })
}

/// Extract the page links of a text.
pub fn extract_links(request: ExtractLinksRequest) -> (res: CommandResponse<Vec<String>>)
    ensures
        res.success && res.error is None,
        res.data matches Some(v) && string_views(v@) == page_links(request.content@),
{
    CommandResponse::success(extract_page_links(request.content.as_str()))
}

/// The properties found, numbered from `first` on, or all with number 0
/// when `first` is 0.
pub open spec fn numbered(ps: Seq<(Seq<char>, Seq<char>)>, r: Seq<PropertyResult>, first: int) -> bool {
    &&& r.len() == ps.len()
    &&& forall|i: int|
        0 <= i < r.len() ==> {
            &&& (#[trigger] r[i]).key@ == ps[i].0
            &&& r[i].value@ == ps[i].1
            &&& r[i].line_number == (if first == 0 {
                0
            } else {
                i + first
            })
        }
}

fn property_results(pairs: Vec<(String, String)>, first: usize) -> (res: Vec<PropertyResult>)
    requires
        first <= 1,
    ensures
        numbered(pair_views(pairs@), res@, first as int),
{
    let ghost views = pair_views(pairs@);
    let n = pairs.len();
    let mut rest = pairs;
    let mut res: Vec<PropertyResult> = Vec::new();
    let mut i: usize = 0;
    while rest.len() > 0
        invariant
            i <= n,
            views.len() == n,
            first <= 1,
            pair_views(rest@) == views.skip(i as int),
            numbered(views.take(i as int), res@, first as int),
        decreases rest@.len(),
    {
        let ghost before = rest@;
        assert(pair_views(before).len() == before.len());
        assert(i < n);
        let (key, value) = rest.remove(0);
        proof {
            assert(rest@ =~= before.drop_first());
            assert(pair_views(rest@) =~= pair_views(before).drop_first());
            assert(pair_views(rest@) =~= views.skip(i + 1));
            assert(pair_views(before)[0] == views[i as int]);
            assert(views[i as int] == (key@, value@));
        }
        let line_number = if first == 0 {
            0
        } else {
            i + 1
        };
        res.push(PropertyResult { key, value, line_number });
        proof {
            assert forall|k: int| 0 <= k < res@.len() implies {
                &&& (#[trigger] res@[k]).key@ == views.take(i + 1)[k].0
                &&& res@[k].value@ == views.take(i + 1)[k].1
                &&& res@[k].line_number == (if first == 0 {
                    0
                } else {
                    k + first
                })
            } by {
                if k < i {
                    assert(views.take(i + 1)[k] == views.take(i as int)[k]);
                }
            }
        }
        i = i + 1;
    }
    assert(views.take(i as int) =~= views);
    res
}

/// Extract the properties of a text, numbered in order from 1.
pub fn extract_properties(request: ExtractPropertiesRequest) -> (res: CommandResponse<
    Vec<PropertyResult>,
>)
    ensures
        res.success && res.error is None,
        res.data matches Some(v) && numbered(properties(request.content@), v@, 1),
{
    let pairs = crate::properties::extract_properties(request.content.as_str());
    CommandResponse::success(property_results(pairs, 1))
}

/// The warnings on a text: each malformed link, each malformed property,
/// and a text over 10,000 bytes.
pub open spec fn content_warnings(c: Seq<char>) -> Seq<Seq<char>> {
    malformed_links(c).map_values(|l: Seq<char>| "Malformed link: "@ + l)
        + crate::properties::malformed_reports(crate::text::lines(c)).map_values(
        |p: Seq<char>|
            "Malformed property: "@ + p,
    ) + if blen(c) > 10000 {
        seq!["Block content is very long (>10k characters)"@]
    } else {
        Seq::empty()
    }
}

fn push_prefixed(out: &mut Vec<String>, prefix: &str, items: Vec<String>)
    ensures
        string_views(final(out)@) == string_views(old(out)@) + string_views(items@).map_values(
            |l: Seq<char>| prefix@ + l,
        ),
{
    let ghost start = string_views(out@);
    let ghost iv = string_views(items@);
    let mut i: usize = 0;
    while i < items.len()
        invariant
            i <= items@.len(),
            iv == string_views(items@),
            string_views(out@) == start + iv.take(i as int).map_values(|l: Seq<char>| prefix@ + l),
        decreases items@.len() - i,
    {
        let mut m = chars_of(prefix);
        extend_chars(&mut m, chars_of(items[i].as_str()).as_slice());
        let s = string_from(m.as_slice());
        let ghost prev = out@;
        out.push(s);
        proof {
            crate::text::lemma_string_views_push(prev, s);
            assert(iv.take(i + 1).map_values(|l: Seq<char>| prefix@ + l) =~= iv.take(
                i as int,
            ).map_values(|l: Seq<char>| prefix@ + l).push(prefix@ + iv[i as int]));
        }
        i = i + 1;
    }
    assert(iv.take(i as int) =~= iv);
}

/// Validate content: warnings for malformed links and properties and for
/// very long text; there are no errors, so the content is valid.
pub fn validate_content(content: String) -> (res: CommandResponse<ContentValidationResult>)
    ensures
        res.success && res.error is None,
        res.data matches Some(r) && {
            &&& string_views(r.warnings@) == content_warnings(content@)
            &&& r.errors@.len() == 0
            &&& r.is_valid
        },
{
    let mut warnings: Vec<String> = Vec::new();
    let errors: Vec<String> = Vec::new();
    assert(string_views(warnings@) =~= Seq::<Seq<char>>::empty());
    push_prefixed(&mut warnings, "Malformed link: ", find_malformed_links(content.as_str()));
    push_prefixed(
        &mut warnings,
        "Malformed property: ",
        crate::properties::find_malformed_properties(content.as_str()),
    );
    let ghost mid = string_views(warnings@);
    if str_byte_len(content.as_str()) > 10000 {
        let w = string_from(chars_of("Block content is very long (>10k characters)").as_slice());
        let ghost prev = warnings@;
        warnings.push(w);
        proof {
            crate::text::lemma_string_views_push(prev, w);
        }
    }
    assert(string_views(warnings@) =~= content_warnings(content@));
    let is_valid = errors.len() == 0;
    CommandResponse::success(ContentValidationResult { is_valid, warnings, errors })
}

} // verus!

verus! {

// ------------------------------------------------------------------
// Previews and suggestions
// ------------------------------------------------------------------

/// Count the whitespace-separated words of a text.
pub fn count_words(text: &str) -> (res: usize)
    ensures
        res == crate::utils::words_from(text@, 0).len(),
{
    let s = chars_of(text);
    let mut n: usize = 0;
    let mut i: usize = 0;
    while i < s.len()
        invariant
            i <= s@.len(),
            n <= i,
            n + crate::utils::words_from(s@, i as int).len() == crate::utils::words_from(s@, 0).len(),
        decreases s@.len() - i,
    {
        let b = crate::text::skip_ws_exec(s.as_slice(), i);
        proof {
            crate::text::lemma_skip_ws_bounds(s@, i as int);
        }
        if b >= s.len() {
            assert(crate::utils::words_from(s@, i as int) =~= Seq::<Seq<char>>::empty());
            i = s.len();
            assert(crate::utils::words_from(s@, i as int) =~= Seq::<Seq<char>>::empty());
        } else {
            proof {
                crate::utils::lemma_next_ws(s@, b as int);
                crate::utils::lemma_next_ws(s@, b + 1);
            }
            let mut e = b;
            while e < s.len() && !crate::text::is_whitespace(s[e])
                invariant
                    b <= e <= s@.len(),
                    crate::utils::next_ws(s@, e as int) == crate::utils::next_ws(s@, b as int),
                decreases s@.len() - e,
            {
                e = e + 1;
            }
            assert(crate::utils::words_from(s@, i as int) == seq![s@.subrange(b as int, e as int)]
                + crate::utils::words_from(s@, e as int));
            n = n + 1;
            i = e;
        }
    }
    n
}

/// The marker word of an optional status.
pub open spec fn status_text(st: Option<crate::tasks::TaskStatus>) -> Option<Seq<char>> {
    match st {
        Some(s) => Some(status_keyword(s)),
        None => None,
    }
}

/// Build the preview of a text, given whether each of its linked pages
/// exists: the HTML, its properties (line number 0), the statuses of its
/// links, its task status, and its numbers of words and bytes.
pub fn build_content_preview(content: String, link_statuses: Vec<LinkStatus>) -> (res: ContentPreview)
    ensures
        res.html@ == post_processed(cmark_html(content@, true, true, true)),
        numbered(properties(content@), res.properties@, 0),
        res.link_statuses == link_statuses,
        crate::tasks::opt_view(res.task_status) == status_text(task_status_of(content@)),
        res.word_count == crate::utils::words_from(content@, 0).len(),
        res.character_count == blen(content@),
{
    let html = parse_to_html(content.as_str());
    let props = property_results(crate::properties::extract_properties(content.as_str()), 0);
    let task_status = match extract_task_status(content.as_str()) {
        Some(st) => Some(string_from(chars_of(st.as_str()).as_slice())),
        None => None,
    };
    let word_count = count_words(content.as_str());
    let character_count = str_byte_len(content.as_str());
    ContentPreview {
        html,
        properties: props,
        link_statuses,
        task_status,
        word_count,
        character_count,
    }
}

/// The keys that start with `p`, in order.
pub open spec fn keys_with_prefix(ks: Seq<Seq<char>>, p: Seq<char>) -> Seq<Seq<char>>
    decreases ks.len(),
{
    if ks.len() == 0 {
        Seq::empty()
    } else if crate::text::starts_with(ks.last(), p) {
        keys_with_prefix(ks.drop_last(), p).push(ks.last())
    } else {
        keys_with_prefix(ks.drop_last(), p)
    }
}

/// Keep the property keys that start with the text typed so far.
pub fn filter_keys_by_prefix(keys: Vec<String>, partial: &str) -> (res: Vec<String>)
    ensures
        string_views(res@) == keys_with_prefix(string_views(keys@), partial@),
{
    let ghost kv = string_views(keys@);
    let p = chars_of(partial);
    let n = keys.len();
    let mut rest = keys;
    let mut res: Vec<String> = Vec::new();
    let mut i: usize = 0;
    assert(string_views(res@) =~= Seq::<Seq<char>>::empty());
    while rest.len() > 0
        invariant
            i <= n,
            kv.len() == n,
            p@ == partial@,
            string_views(rest@) == kv.skip(i as int),
            string_views(res@) == keys_with_prefix(kv.take(i as int), partial@),
        decreases rest@.len(),
    {
        let ghost before = rest@;
        assert(string_views(before).len() == before.len());
        assert(i < n);
        let k = rest.remove(0);
        proof {
            assert(rest@ =~= before.drop_first());
            assert(string_views(rest@) =~= string_views(before).drop_first());
            assert(string_views(rest@) =~= kv.skip(i + 1));
            assert(string_views(before)[0] == kv[i as int]);
            assert(kv.take(i + 1).drop_last() =~= kv.take(i as int));
        }
        if crate::text::starts_with_exec(chars_of(k.as_str()).as_slice(), p.as_slice()) {
            let ghost prev = res@;
            res.push(k);
            proof {
                crate::text::lemma_string_views_push(prev, k);
            }
        }
        i = i + 1;
    }
    assert(kv.take(i as int) =~= kv);
    res
}

/// What the completions at a cursor need: a page search for the partial
/// link name being typed, and the property keys starting with the partial
/// key being typed.
#[derive(Debug)]
pub struct SuggestionNeeds {
    pub page_query: Option<String>,
    pub key_prefix: Option<String>,
}

/// Decide what to look up for the completions at a cursor (a byte offset
/// on a character boundary, or past the end).
pub fn suggestion_needs(content: &str, cursor_position: usize) -> (res: SuggestionNeeds)
    requires
        cursor_position > blen(content@) || vstd::utf8::is_char_boundary(
            vstd::string::StringSliceAdditionalSpecFns::spec_bytes(content),
            cursor_position as int,
        ),
    ensures
        cursor_position > blen(content@) ==> res.page_query is None && res.key_prefix is None,
        cursor_position <= blen(content@) ==> {
            let before = crate::links::prefix_bytes(content@, cursor_position as int);
            &&& crate::tasks::opt_view(res.page_query) == crate::links::link_context_of(before)
            &&& crate::tasks::opt_view(res.key_prefix) == match crate::properties::property_context_of(
                content@,
                before.len() as int,
            ) {
                Some(c) => if c.context_type == "key"@ {
                    Some(c.partial_text)
                } else {
                    None
                },
                None => None,
            }
        },
{
    let page_query = crate::links::get_link_context(content, cursor_position);
    let key_prefix = match crate::properties::get_property_context(content, cursor_position) {
        Some(c) => {
            if crate::text::chars_eq(
                chars_of(c.context_type.as_str()).as_slice(),
                chars_of("key").as_slice(),
            ) {
                Some(c.partial_text)
            } else {
                None
            }
        },
        None => None,
    };
    SuggestionNeeds { page_query, key_prefix }
}

} // verus!

verus! {

// ------------------------------------------------------------------
// Moving blocks
// ------------------------------------------------------------------

/// The first index of `x` in `s`.
pub open spec fn index_of(s: Seq<i32>, x: i32) -> Option<int>
    decreases s.len(),
{
    if s.len() == 0 {
        None
    } else {
        match index_of(s.drop_last(), x) {
            Some(k) => Some(k),
            None => if s.last() == x {
                Some(s.len() - 1)
            } else {
                None
            },
        }
    }
}

proof fn lemma_index_of(s: Seq<i32>, x: i32)
    ensures
        match index_of(s, x) {
            Some(k) => 0 <= k < s.len() && s[k] == x && forall|j: int| 0 <= j < k ==> s[j] != x,
            None => forall|j: int| 0 <= j < s.len() ==> s[j] != x,
        },
    decreases s.len(),
{
    if s.len() > 0 {
        let d = s.drop_last();
        lemma_index_of(d, x);
        assert forall|j: int| 0 <= j < d.len() implies d[j] == s[j] by {}
        match index_of(d, x) {
            Some(k) => {
                assert(s[k] == d[k]);
            },
            None => {
                assert(s[s.len() - 1] == s.last());
            },
        }
    }
}

fn index_of_exec(s: &[i32], x: i32) -> (r: Option<usize>)
    ensures
        match r {
            Some(k) => index_of(s@, x) == Some(k as int),
            None => index_of(s@, x) is None,
        },
{
    proof {
        lemma_index_of(s@, x);
    }
    let mut i: usize = 0;
    while i < s.len()
        invariant
            i <= s@.len(),
            forall|j: int| 0 <= j < i ==> s@[j] != x,
        decreases s@.len() - i,
    {
        if s[i] == x {
            proof {
                lemma_index_of(s@, x);
            }
            return Some(i);
        }
        i = i + 1;
    }
    None
}

/// The position for a new sibling right after the current block, among
/// siblings listed by id; `None` (append at the end) when it is not among
/// them.
pub fn sibling_insert_position(sibling_ids: &[i32], current_block_id: i32) -> (res: Option<usize>)
    ensures
        match index_of(sibling_ids@, current_block_id) {
            Some(k) => res == Some((k + 1) as usize),
            None => res is None,
        },
{
    proof {
        lemma_index_of(sibling_ids@, current_block_id);
    }
    let _n = sibling_ids.len();
    match index_of_exec(sibling_ids, current_block_id) {
        Some(k) => Some(k + 1),
        None => None,
    }
}

/// The new parent of an indented block: the sibling before it.
pub fn indent_target(sibling_ids: &[i32], block_id: i32) -> (res: Result<i32, AppError>)
    ensures
        match index_of(sibling_ids@, block_id) {
            None => res matches Err(e) && e@ == AppErrorView::NotFound("Block not found in siblings"@),
            Some(k) => if k == 0 {
                res matches Err(e) && e@ == AppErrorView::InvalidInput("Cannot indent first block"@)
            } else {
                res == Ok::<i32, AppError>(sibling_ids@[k - 1])
            },
        },
{
    proof {
        lemma_index_of(sibling_ids@, block_id);
    }
    match index_of_exec(sibling_ids, block_id) {
        None => Err(AppError::not_found(string_from(chars_of("Block not found in siblings").as_slice()))),
        Some(k) => {
            if k == 0 {
                Err(AppError::invalid_input(string_from(chars_of("Cannot indent first block").as_slice())))
            } else {
                Ok(sibling_ids[k - 1])
            }
        },
    }
}

/// The parent of a block to outdent: a root block cannot be outdented.
pub fn outdent_parent(parent_id: Option<i32>) -> (res: Result<i32, AppError>)
    ensures
        match parent_id {
            Some(p) => res == Ok::<i32, AppError>(p),
            None => res matches Err(e) && e@ == AppErrorView::InvalidInput("Cannot outdent root block"@),
        },
{
    match parent_id {
        Some(p) => Ok(p),
        None => Err(AppError::invalid_input(string_from(chars_of("Cannot outdent root block").as_slice()))),
    }
}

/// The position of an outdented block: right after its parent among the
/// parent's siblings (listed by id).
pub fn outdent_position(parent_sibling_ids: &[i32], parent_id: i32) -> (res: Result<usize, AppError>)
    ensures
        match index_of(parent_sibling_ids@, parent_id) {
            None => res matches Err(e) && e@ == AppErrorView::NotFound("Parent not found in siblings"@),
            Some(k) => res == Ok::<usize, AppError>((k + 1) as usize),
        },
{
    proof {
        lemma_index_of(parent_sibling_ids@, parent_id);
    }
    let _n = parent_sibling_ids.len();
    match index_of_exec(parent_sibling_ids, parent_id) {
        None => Err(AppError::not_found(string_from(chars_of("Parent not found in siblings").as_slice()))),
        Some(k) => Ok(k + 1),
    }
}

/// A block may not move under itself or under one of its own descendants,
/// so a move never makes the parent links loop.
pub fn check_parent_move(block_id: i32, descendant_ids: &[i32], new_parent_id: i32) -> (res: Result<(), AppError>)
    ensures
        if new_parent_id == block_id {
            res matches Err(e) && e@ == AppErrorView::InvalidInput("Cannot move block under itself"@)
        } else {
            match index_of(descendant_ids@, new_parent_id) {
                Some(_) => res matches Err(e) && e@ == AppErrorView::InvalidInput(
                    "Cannot move block under its own descendant"@,
                ),
                None => res is Ok,
            }
        },
{
    if new_parent_id == block_id {
        return Err(AppError::invalid_input(string_from(chars_of("Cannot move block under itself").as_slice())));
    }
    match index_of_exec(descendant_ids, new_parent_id) {
        Some(_) => Err(AppError::invalid_input(string_from(chars_of("Cannot move block under its own descendant").as_slice()))),
        None => Ok(()),
    }
}

/// The order value for a block placed at `position` (at the end when
/// none) among siblings with order values `orders`; `None` when the
/// siblings must be reordered first.
pub fn block_order_for(orders: &[i32], position: Option<usize>) -> (res: Option<i32>)
    requires
        insert_order_fits(orders@, match position {
            Some(p) => p as int,
            None => orders@.len() as int,
        }),
    ensures
        ({
            let p = match position {
                Some(p) => p as int,
                None => orders@.len() as int,
            };
            match res {
                Some(o) => insert_order(orders@, p) == Some(o as int),
                None => insert_order(orders@, p) is None,
            }
        }),
{
    let target = match position {
        Some(p) => p,
        None => orders.len(),
    };
    crate::model::calculate_insert_order(orders, target)
}

} // verus!

verus! {

// ------------------------------------------------------------------
// Recency order
// ------------------------------------------------------------------

/// `x` inserted after the elements at the end of `s` whose key is not
/// smaller (a stable sort, newest first, puts it after equal keys).
pub open spec fn insert_newest_first<T>(s: Seq<T>, x: T, key: spec_fn(T) -> int) -> Seq<T>
    decreases s.len(),
{
    if s.len() == 0 {
        seq![x]
    } else if key(s.last()) >= key(x) {
        s.push(x)
    } else {
        insert_newest_first(s.drop_last(), x, key).push(s.last())
    }
}

/// The elements stably sorted by key, largest first.
pub open spec fn newest_first<T>(s: Seq<T>, key: spec_fn(T) -> int) -> Seq<T>
    decreases s.len(),
{
    if s.len() == 0 {
        s
    } else {
        insert_newest_first(newest_first(s.drop_last(), key), s.last(), key)
    }
}

/// The update time of a page.
pub open spec fn page_updated(p: Page) -> int {
    p.updated_at as int
}

/// The update time of a block.
pub open spec fn block_updated(b: Block) -> int {
    b.updated_at as int
}

fn insert_page_newest_first(v: &mut Vec<Page>, x: Page)
    ensures
        final(v)@ == insert_newest_first(old(v)@, x, |p: Page| page_updated(p)),
    decreases old(v)@.len(),
{
    if v.len() == 0 {
        v.push(x);
        assert(v@ =~= seq![x]);
    } else if v[v.len() - 1].updated_at >= x.updated_at {
        v.push(x);
    } else {
        let last = v.pop().unwrap();
        insert_page_newest_first(v, x);
        v.push(last);
    }
}

fn pages_newest_first(v: Vec<Page>) -> (r: Vec<Page>)
    ensures
        r@ == newest_first(v@, |p: Page| page_updated(p)),
    decreases v@.len(),
{
    let mut v = v;
    if v.len() == 0 {
        return v;
    }
    let ghost whole = v@;
    let last = v.pop().unwrap();
    assert(v@ == whole.drop_last());
    let mut s = pages_newest_first(v);
    insert_page_newest_first(&mut s, last);
    s
}

fn insert_block_newest_first(v: &mut Vec<Block>, x: Block)
    ensures
        final(v)@ == insert_newest_first(old(v)@, x, |b: Block| block_updated(b)),
    decreases old(v)@.len(),
{
    if v.len() == 0 {
        v.push(x);
        assert(v@ =~= seq![x]);
    } else if v[v.len() - 1].updated_at >= x.updated_at {
        v.push(x);
    } else {
        let last = v.pop().unwrap();
        insert_block_newest_first(v, x);
        v.push(last);
    }
}

fn blocks_newest_first(v: Vec<Block>) -> (r: Vec<Block>)
    ensures
        r@ == newest_first(v@, |b: Block| block_updated(b)),
    decreases v@.len(),
{
    let mut v = v;
    if v.len() == 0 {
        return v;
    }
    let ghost whole = v@;
    let last = v.pop().unwrap();
    assert(v@ == whole.drop_last());
    let mut s = blocks_newest_first(v);
    insert_block_newest_first(&mut s, last);
    s
}

/// At most `limit` elements from the front, or all without a limit.
pub open spec fn limited<T>(s: Seq<T>, limit: Option<usize>) -> Seq<T> {
    match limit {
        Some(l) => if l < s.len() {
            s.take(l as int)
        } else {
            s
        },
        None => s,
    }
}

/// The most recently updated pages first (a stable sort), at most
/// `limit` of them.
pub fn recent_pages(pages: Vec<Page>, limit: Option<usize>) -> (res: Vec<Page>)
    ensures
        res@ == limited(newest_first(pages@, |p: Page| page_updated(p)), limit),
{
    let mut sorted = pages_newest_first(pages);
    match limit {
        Some(l) => {
            sorted.truncate(l);
        },
        None => {},
    }
    sorted
}

/// Sorting newest first keeps every element.
pub proof fn law_newest_first_len<T>(s: Seq<T>, key: spec_fn(T) -> int)
    ensures
        newest_first(s, key).len() == s.len(),
    decreases s.len(),
{
    if s.len() > 0 {
        law_newest_first_len(s.drop_last(), key);
        lemma_insert_newest_first_len(newest_first(s.drop_last(), key), s.last(), key);
    }
}

proof fn lemma_insert_newest_first_len<T>(s: Seq<T>, x: T, key: spec_fn(T) -> int)
    ensures
        insert_newest_first(s, x, key).len() == s.len() + 1,
    decreases s.len(),
{
    if s.len() > 0 && key(s.last()) < key(x) {
        lemma_insert_newest_first_len(s.drop_last(), x, key);
    }
}

/// The keys run from largest to smallest.
pub open spec fn sorted_newest_first<T>(s: Seq<T>, key: spec_fn(T) -> int) -> bool {
    forall|i: int, j: int| 0 <= i < j < s.len() ==> key(#[trigger] s[i]) >= key(#[trigger] s[j])
}

/// The elements whose key is `k`.
pub open spec fn key_is<T>(key: spec_fn(T) -> int, k: int) -> spec_fn(T) -> bool {
    |x: T| key(x) == k
}

proof fn lemma_insert_newest_first<T>(s: Seq<T>, x: T, key: spec_fn(T) -> int)
    requires
        sorted_newest_first(s, key),
    ensures
        sorted_newest_first(insert_newest_first(s, x, key), key),
        insert_newest_first(s, x, key).to_multiset() == s.to_multiset().insert(x),
        forall|i: int| 0 <= i < insert_newest_first(s, x, key).len() ==>
            #[trigger] insert_newest_first(s, x, key)[i] == x || s.contains(insert_newest_first(s, x, key)[i]),
        forall|k: int| #[trigger] insert_newest_first(s, x, key).filter(key_is(key, k)) == if key(x) == k {
            s.filter(key_is(key, k)).push(x)
        } else {
            s.filter(key_is(key, k))
        },
    decreases s.len(),
{
    broadcast use vstd::seq_lib::group_to_multiset_ensures;
    broadcast use vstd::seq::Seq::lemma_filter_push;
    let r = insert_newest_first(s, x, key);
    if s.len() == 0 {
        assert(r =~= Seq::<T>::empty().push(x));
        assert(s =~= Seq::<T>::empty());
        assert forall|k: int| #[trigger] r.filter(key_is(key, k)) == if key(x) == k {
            s.filter(key_is(key, k)).push(x)
        } else {
            s.filter(key_is(key, k))
        } by {
            assert(Seq::<T>::empty().push(x).filter(key_is(key, k)) == if key_is(key, k)(x) {
                Seq::<T>::empty().filter(key_is(key, k)).push(x)
            } else {
                Seq::<T>::empty().filter(key_is(key, k))
            });
        }
    } else if key(s.last()) >= key(x) {
        assert forall|i: int, j: int| 0 <= i < j < r.len() implies key(#[trigger] r[i]) >= key(#[trigger] r[j]) by {
            if j == s.len() {
                assert(key(s[i]) >= key(s[s.len() - 1]));
            }
        }
        assert forall|i: int| 0 <= i < r.len() implies #[trigger] r[i] == x || s.contains(r[i]) by {
            if i < s.len() {
                assert(s[i] == r[i]);
            }
        }
        assert forall|k: int| #[trigger] r.filter(key_is(key, k)) == if key(x) == k {
            s.filter(key_is(key, k)).push(x)
        } else {
            s.filter(key_is(key, k))
        } by {
            assert(s.push(x).filter(key_is(key, k)) == if key_is(key, k)(x) {
                s.filter(key_is(key, k)).push(x)
            } else {
                s.filter(key_is(key, k))
            });
        }
    } else {
        let sp = s.drop_last();
        let l = s.last();
        assert(sorted_newest_first(sp, key)) by {
            assert forall|i: int, j: int| 0 <= i < j < sp.len() implies key(#[trigger] sp[i]) >= key(#[trigger] sp[j]) by {
                assert(sp[i] == s[i] && sp[j] == s[j]);
            }
        }
        lemma_insert_newest_first(sp, x, key);
        let rp = insert_newest_first(sp, x, key);
        assert(r == rp.push(l));
        assert(s =~= sp.push(l));
        lemma_insert_newest_first_len(sp, x, key);
        assert forall|i: int, j: int| 0 <= i < j < r.len() implies key(#[trigger] r[i]) >= key(#[trigger] r[j]) by {
            if j == rp.len() {
                assert(r[i] == rp[i]);
                if rp[i] != x {
                    let m = choose|m: int| 0 <= m < sp.len() && sp[m] == rp[i];
                    assert(key(s[m]) >= key(s[s.len() - 1]));
                }
            } else {
                assert(r[i] == rp[i] && r[j] == rp[j]);
            }
        }
        assert forall|i: int| 0 <= i < r.len() implies #[trigger] r[i] == x || s.contains(r[i]) by {
            if i < rp.len() {
                assert(r[i] == rp[i]);
                if rp[i] != x {
                    let m = choose|m: int| 0 <= m < sp.len() && sp[m] == rp[i];
                    assert(s[m] == sp[m]);
                }
            } else {
                assert(r[i] == s[s.len() - 1]);
            }
        }
        assert(r.to_multiset() == s.to_multiset().insert(x)) by {
            assert(rp.push(l).to_multiset() == rp.to_multiset().insert(l));
            assert(sp.push(l).to_multiset() == sp.to_multiset().insert(l));
            assert(sp.to_multiset().insert(x).insert(l) =~= sp.to_multiset().insert(l).insert(x));
        }
        assert forall|k: int| #[trigger] r.filter(key_is(key, k)) == if key(x) == k {
            s.filter(key_is(key, k)).push(x)
        } else {
            s.filter(key_is(key, k))
        } by {
            let p = key_is(key, k);
            assert(rp.push(l).filter(p) == if p(l) { rp.filter(p).push(l) } else { rp.filter(p) });
            assert(sp.push(l).filter(p) == if p(l) { sp.filter(p).push(l) } else { sp.filter(p) });
            assert(rp.filter(p) == if key(x) == k { sp.filter(p).push(x) } else { sp.filter(p) });
        }
    }
}

/// Sorting newest first puts the keys in descending order, keeps every
/// element as often as it came (a permutation), and is stable: the elements
/// that share a key keep the order they came in.
pub proof fn law_newest_first_sorted_stable<T>(s: Seq<T>, key: spec_fn(T) -> int)
    ensures
        sorted_newest_first(newest_first(s, key), key),
        newest_first(s, key).to_multiset() == s.to_multiset(),
        forall|k: int| #[trigger] newest_first(s, key).filter(key_is(key, k)) == s.filter(key_is(key, k)),
    decreases s.len(),
{
    broadcast use vstd::seq_lib::group_to_multiset_ensures;
    broadcast use vstd::seq::Seq::lemma_filter_push;
    if s.len() == 0 {
        assert forall|k: int| #[trigger] newest_first(s, key).filter(key_is(key, k)) == s.filter(key_is(key, k)) by {}
    } else {
        let sp = s.drop_last();
        let l = s.last();
        law_newest_first_sorted_stable(sp, key);
        lemma_insert_newest_first(newest_first(sp, key), l, key);
        assert(s =~= sp.push(l));
        assert(s.to_multiset() == sp.to_multiset().insert(l)) by {
            assert(sp.push(l).to_multiset() == sp.to_multiset().insert(l));
        }
        assert forall|k: int| #[trigger] newest_first(s, key).filter(key_is(key, k)) == s.filter(key_is(key, k)) by {
            let p = key_is(key, k);
            assert(sp.push(l).filter(p) == if p(l) { sp.filter(p).push(l) } else { sp.filter(p) });
            assert(newest_first(sp, key).filter(p) == sp.filter(p));
        }
    }
}

// ------------------------------------------------------------------
// Task searches
// ------------------------------------------------------------------

/// Whether a block is a task.
pub open spec fn block_is_task(b: Block) -> bool {
    block_status_of(b.content@) is Some
}

/// The blocks that are tasks, in order.
pub open spec fn task_blocks(bs: Seq<Block>) -> Seq<Block>
    decreases bs.len(),
{
    if bs.len() == 0 {
        Seq::empty()
    } else if block_is_task(bs.last()) {
        task_blocks(bs.drop_last()).push(bs.last())
    } else {
        task_blocks(bs.drop_last())
    }
}

fn retain_tasks(blocks: Vec<Block>) -> (res: Vec<Block>)
    ensures
        res@ == task_blocks(blocks@),
{
    let ghost bs = blocks@;
    let n = blocks.len();
    let mut rest = blocks;
    let mut res: Vec<Block> = Vec::new();
    let mut i: usize = 0;
    while rest.len() > 0
        invariant
            i <= n,
            bs.len() == n,
            rest@ == bs.skip(i as int),
            res@ == task_blocks(bs.take(i as int)),
        decreases rest@.len(),
    {
        assert(i < n);
        let b = rest.remove(0);
        proof {
            assert(b == bs[i as int]);
            assert(rest@ =~= bs.skip(i + 1));
            assert(bs.take(i + 1).drop_last() =~= bs.take(i as int));
        }
        if b.is_task() {
            res.push(b);
        }
        i = i + 1;
    }
    assert(bs.take(i as int) =~= bs);
    res
}

/// The task blocks among those found, at most `limit` of them.
pub fn search_tasks_filter(blocks: Vec<Block>, limit: Option<usize>) -> (res: Vec<Block>)
    ensures
        res@ == limited(task_blocks(blocks@), limit),
{
    let mut tasks = retain_tasks(blocks);
    match limit {
        Some(l) => {
            tasks.truncate(l);
        },
        None => {},
    }
    tasks
}

/// The task blocks among those found.
pub fn tasks_only(blocks: Vec<Block>) -> (res: Vec<Block>)
    ensures
        res@ == task_blocks(blocks@),
{
    retain_tasks(blocks)
}

/// The due date that a due-date search looks for: today's date for
/// `today`, the given text for a date; `overdue` and `this_week` are not
/// supported yet.
pub open spec fn due_condition(filter: Seq<char>, today: Seq<char>) -> Result<Seq<char>, Seq<char>> {
    if filter == "today"@ {
        Ok(today)
    } else if filter == "overdue"@ {
        Err("Overdue search not yet implemented"@)
    } else if filter == "this_week"@ {
        Err("Week search not yet implemented"@)
    } else {
        Ok(filter)
    }
}

/// The due date a due-date search looks for, or the message for a
/// search that is not supported.
pub fn due_date_condition(date_filter: &str, today: &str) -> (res: Result<String, String>)
    ensures
        match res {
            Ok(d) => due_condition(date_filter@, today@) == Ok::<Seq<char>, Seq<char>>(d@),
            Err(m) => due_condition(date_filter@, today@) == Err::<Seq<char>, Seq<char>>(m@),
        },
{
    let f = chars_of(date_filter);
    if crate::text::chars_eq(f.as_slice(), chars_of("today").as_slice()) {
        Ok(string_from(chars_of(today).as_slice()))
    } else if crate::text::chars_eq(f.as_slice(), chars_of("overdue").as_slice()) {
        Err(string_from(chars_of("Overdue search not yet implemented").as_slice()))
    } else if crate::text::chars_eq(f.as_slice(), chars_of("this_week").as_slice()) {
        Err(string_from(chars_of("Week search not yet implemented").as_slice()))
    } else {
        Ok(string_from(f.as_slice()))
    }
}

} // verus!

verus! {

// ------------------------------------------------------------------
// Advanced search
// ------------------------------------------------------------------

/// A range of days, both ends included: as days since the Unix epoch, and
/// as dates `YYYY-MM-DD` for showing.
#[derive(Debug)]
pub struct DateRange {
    pub start_date: String,
    pub end_date: String,
    pub start_day: i64,
    pub end_day: i64,
}

/// The conditions of an advanced search.
#[derive(Debug)]
pub struct AdvancedSearchCriteria {
    pub text_query: Option<String>,
    pub property_filters: Vec<PropertyFilter>,
    pub date_range: Option<DateRange>,
    pub tasks_only: Option<bool>,
    pub limit: Option<usize>,
}

/// The blocks an advanced search found, with a description of each
/// condition applied.
#[derive(Debug)]
pub struct AdvancedSearchResults {
    pub blocks: Vec<Block>,
    pub total_results: usize,
    pub filters_applied: Vec<String>,
}

/// The microseconds in a day.
pub const MICROS_PER_DAY: i64 = 86_400_000_000;

/// The UTC day (since the epoch) of a time in microseconds.
pub open spec fn day_of(micros: i64) -> int {
    micros as int / MICROS_PER_DAY as int
}

/// The UTC day (since the epoch) of a time in microseconds.
pub fn day_of_micros(micros: i64) -> (res: i64)
    ensures
        res == day_of(micros),
{
    let q = micros / MICROS_PER_DAY;
    let r = micros % MICROS_PER_DAY;
    if r < 0 {
        q - 1
    } else {
        q
    }
}

/// The description of a property condition: `key:value`, or `key:*`.
pub open spec fn property_filter_text(f: PropertyFilter) -> Seq<char> {
    f.key@ + ":"@ + match f.value {
        Some(v) => v@,
        None => "*"@,
    }
}

/// The descriptions of the conditions, in the order they are applied.
pub open spec fn filters_text(c: AdvancedSearchCriteria) -> Seq<Seq<char>> {
    (match c.text_query {
        Some(q) => seq!["text: '"@ + q@ + "'"@],
        None => Seq::empty(),
    }) + c.property_filters@.map_values(|f: PropertyFilter| property_filter_text(f)) + (match c.date_range {
        Some(d) => seq!["date: "@ + d.start_date@ + " to "@ + d.end_date@],
        None => Seq::empty(),
    }) + (if c.tasks_only == Some(true) {
        seq!["tasks only"@]
    } else {
        Seq::empty()
    })
}

/// A block meets the conditions: its id is among the matches of every
/// property condition, its creation day is in the range, and it is a task
/// when only tasks are asked for.
pub open spec fn meets(b: Block, c: AdvancedSearchCriteria, matches: Seq<Seq<i32>>) -> bool {
    &&& forall|k: int| 0 <= k < matches.len() ==> #[trigger] matches[k].contains(b.id)
    &&& match c.date_range {
        Some(d) => d.start_day <= day_of(b.created_at) <= d.end_day,
        None => true,
    }
    &&& (c.tasks_only == Some(true) ==> block_is_task(b))
}

/// The candidates that meet the conditions, in order.
pub open spec fn meeting(bs: Seq<Block>, c: AdvancedSearchCriteria, matches: Seq<Seq<i32>>) -> Seq<Block>
    decreases bs.len(),
{
    if bs.len() == 0 {
        Seq::empty()
    } else if meets(bs.last(), c, matches) {
        meeting(bs.drop_last(), c, matches).push(bs.last())
    } else {
        meeting(bs.drop_last(), c, matches)
    }
}

fn contains_id(ids: &Vec<i32>, id: i32) -> (b: bool)
    ensures
        b == ids@.contains(id),
{
    let mut i: usize = 0;
    while i < ids.len()
        invariant
            i <= ids@.len(),
            forall|j: int| 0 <= j < i ==> ids@[j] != id,
        decreases ids@.len() - i,
    {
        if ids[i] == id {
            assert(ids@[i as int] == id);
            return true;
        }
        i = i + 1;
    }
    false
}

fn meets_exec(b: &Block, c: &AdvancedSearchCriteria, matches: &Vec<Vec<i32>>) -> (r: bool)
    ensures
        r == meets(*b, *c, matches@.map_values(|v: Vec<i32>| v@)),
{
    let ghost mv = matches@.map_values(|v: Vec<i32>| v@);
    let mut k: usize = 0;
    while k < matches.len()
        invariant
            k <= matches@.len(),
            mv == matches@.map_values(|v: Vec<i32>| v@),
            forall|j: int| 0 <= j < k ==> #[trigger] mv[j].contains(b.id),
        decreases matches@.len() - k,
    {
        if !contains_id(&matches[k], b.id) {
            assert(!mv[k as int].contains(b.id));
            return false;
        }
        k = k + 1;
    }
    let in_range = match &c.date_range {
        Some(d) => {
            let day = day_of_micros(b.created_at);
            d.start_day <= day && day <= d.end_day
        },
        None => true,
    };
    let task_ok = match c.tasks_only {
        Some(true) => b.is_task(),
        _ => true,
    };
    in_range && task_ok
}

fn describe_filters(c: &AdvancedSearchCriteria) -> (res: Vec<String>)
    ensures
        string_views(res@) == filters_text(*c),
{
    let mut res: Vec<String> = Vec::new();
    let ghost mut acc: Seq<Seq<char>> = Seq::empty();
    match &c.text_query {
        Some(q) => {
            let mut m = chars_of("text: '");
            extend_chars(&mut m, chars_of(q.as_str()).as_slice());
            extend_chars(&mut m, chars_of("'").as_slice());
            res.push(string_from(m.as_slice()));
            assert(string_views(res@) =~= seq!["text: '"@ + q@ + "'"@]);
        },
        None => {
            assert(string_views(res@) =~= Seq::<Seq<char>>::empty());
        },
    }
    let ghost head = string_views(res@);
    let ghost pf = c.property_filters@.map_values(|f: PropertyFilter| property_filter_text(f));
    let mut i: usize = 0;
    while i < c.property_filters.len()
        invariant
            i <= c.property_filters@.len(),
            pf == c.property_filters@.map_values(|f: PropertyFilter| property_filter_text(f)),
            string_views(res@) == head + pf.take(i as int),
        decreases c.property_filters@.len() - i,
    {
        let f = &c.property_filters[i];
        let mut m = chars_of(f.key.as_str());
        extend_chars(&mut m, chars_of(":").as_slice());
        match &f.value {
            Some(v) => extend_chars(&mut m, chars_of(v.as_str()).as_slice()),
            None => extend_chars(&mut m, chars_of("*").as_slice()),
        }
        let s = string_from(m.as_slice());
        let ghost prev = res@;
        res.push(s);
        proof {
            crate::text::lemma_string_views_push(prev, s);
            assert(pf.take(i + 1) =~= pf.take(i as int).push(pf[i as int]));
        }
        i = i + 1;
    }
    assert(pf.take(i as int) =~= pf);
    match &c.date_range {
        Some(d) => {
            let mut m = chars_of("date: ");
            extend_chars(&mut m, chars_of(d.start_date.as_str()).as_slice());
            extend_chars(&mut m, chars_of(" to ").as_slice());
            extend_chars(&mut m, chars_of(d.end_date.as_str()).as_slice());
            let s = string_from(m.as_slice());
            let ghost prev = res@;
            res.push(s);
            proof {
                crate::text::lemma_string_views_push(prev, s);
            }
        },
        None => {},
    }
    match c.tasks_only {
        Some(true) => {
            let s = string_from(chars_of("tasks only").as_slice());
            let ghost prev = res@;
            res.push(s);
            proof {
                crate::text::lemma_string_views_push(prev, s);
            }
        },
        _ => {},
    }
    assert(string_views(res@) =~= filters_text(*c));
    res
}

/// Apply an advanced search's conditions to the candidate blocks (those
/// found by its text query, or the recent blocks): `property_matches`
/// holds, for each property condition in order, the ids of the blocks that
/// meet it.  The blocks that meet every condition, most recently updated
/// first, at most `limit` of them, with the descriptions of the conditions.
pub fn advanced_search_results(
    criteria: AdvancedSearchCriteria,
    candidates: Vec<Block>,
    property_matches: Vec<Vec<i32>>,
) -> (res: AdvancedSearchResults)
    requires
        property_matches@.len() == criteria.property_filters@.len(),
    ensures
        string_views(res.filters_applied@) == filters_text(criteria),
        res.blocks@ == limited(
            newest_first(
                meeting(candidates@, criteria, property_matches@.map_values(|v: Vec<i32>| v@)),
                |b: Block| block_updated(b),
            ),
            criteria.limit,
        ),
        res.total_results == res.blocks@.len(),
{
    let filters_applied = describe_filters(&criteria);
    let ghost mv = property_matches@.map_values(|v: Vec<i32>| v@);
    let ghost bs = candidates@;
    let n = candidates.len();
    let mut rest = candidates;
    let mut kept: Vec<Block> = Vec::new();
    let mut i: usize = 0;
    while rest.len() > 0
        invariant
            i <= n,
            bs.len() == n,
            rest@ == bs.skip(i as int),
            mv == property_matches@.map_values(|v: Vec<i32>| v@),
            kept@ == meeting(bs.take(i as int), criteria, mv),
        decreases rest@.len(),
    {
        assert(i < n);
        let b = rest.remove(0);
        proof {
            assert(b == bs[i as int]);
            assert(rest@ =~= bs.skip(i + 1));
            assert(bs.take(i + 1).drop_last() =~= bs.take(i as int));
        }
        if meets_exec(&b, &criteria, &property_matches) {
            kept.push(b);
        }
        i = i + 1;
    }
    assert(bs.take(i as int) =~= bs);
    let mut sorted = blocks_newest_first(kept);
    match criteria.limit {
        Some(l) => {
            sorted.truncate(l);
        },
        None => {},
    }
    let total_results = sorted.len();
    AdvancedSearchResults { blocks: sorted, total_results, filters_applied }
}

} // verus!

verus! {

/// A block with its properties and direct children.
#[derive(Debug)]
pub struct BlockContext {
    pub block: Block,
    pub properties: Vec<BlockProperty>,
    pub children: Vec<Block>,
}

/// The ancestors (root first) and the direct children of a page.
#[derive(Debug)]
pub struct PageNavigationData {
    pub ancestors: Vec<Page>,
    pub children: Vec<Page>,
}

} // verus!
