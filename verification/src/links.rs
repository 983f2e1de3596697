//! Page links (`[[Page Name]]`), external links, and link-related helpers.
use vstd::prelude::*;
use vstd::utf8::{decode_utf8, encode_utf8, is_char_boundary};
use vstd::string::StringSliceAdditionalSpecFns;

use crate::text::{back_ws_exec, lemma_back_c_bounds, char_alphanumeric, is_alphanumeric, lemma_skip_c_bounds, lemma_trim_matches_ends, lowercase_of, skip_c, to_lowercase, trim_matches, trim_matches_exec, is_whitespace, is_ws, matches_at, matches_at_exec, back_ws, extend_chars, last_of, last_of_exec, lemma_last_of, lemma_trim_facts, skip_ws, substring, blen, char_width_of, chars_byte_len, chars_of, contains, contains_char, contains_exec, ends_with, ends_with_exec, first_of, first_of_exec, lemma_blen_push, lemma_blen_single, lemma_blen_subrange, lemma_first_of, lemma_rfind_facts, lemma_string_views_push, rfind, rfind_exec, slice_chars, starts_with, starts_with_exec, str_byte_len, string_from, string_views, trim, trim_chars};

verus! {

broadcast use vstd::string::group_string_axioms;

// ------------------------------------------------------------------
// The `[[name]]` grammar
// ------------------------------------------------------------------

/// A page link starts at `i` when `s[i..]` reads `[[`, one or more
/// characters other than `]`, then `]]`.  The result is the index of the
/// closing `]]`.
pub open spec fn link_close(s: Seq<char>, i: int) -> Option<int> {
    if 0 <= i && i + 1 < s.len() && s[i] == '[' && s[i + 1] == '[' {
        let j = first_of(s, ']', i + 2);
        if j > i + 2 && j + 1 < s.len() && s[j + 1] == ']' {
            Some(j)
        } else {
            None
        }
    } else {
        None
    }
}

/// The leftmost, non-overlapping page links from `i` on, as pairs of the
/// start index and the index of the closing `]]`.
pub open spec fn link_matches_from(s: Seq<char>, i: int) -> Seq<(int, int)>
    decreases s.len() - i,
{
    if i < 0 || i >= s.len() {
        Seq::empty()
    } else {
        match link_close(s, i) {
            Some(j) => if j + 2 > i {
                seq![(i, j)] + link_matches_from(s, j + 2)
            } else {
                Seq::empty()
            },
            None => link_matches_from(s, i + 1),
        }
    }
}

/// All page links of `s`.
pub open spec fn link_matches(s: Seq<char>) -> Seq<(int, int)> {
    link_matches_from(s, 0)
}

/// The name inside a page link: the text between the brackets, trimmed.
pub open spec fn link_name(s: Seq<char>, m: (int, int)) -> Seq<char> {
    trim(s.subrange(m.0 + 2, m.1))
}

/// The link names of `s` that are not blank, in order.
pub open spec fn page_links_from(s: Seq<char>, i: int) -> Seq<Seq<char>>
    decreases s.len() - i,
{
    if i < 0 || i >= s.len() {
        Seq::empty()
    } else {
        match link_close(s, i) {
            Some(j) => if j + 2 > i {
                let n = trim(s.subrange(i + 2, j));
                if n.len() > 0 {
                    seq![n] + page_links_from(s, j + 2)
                } else {
                    page_links_from(s, j + 2)
                }
            } else {
                Seq::empty()
            },
            None => page_links_from(s, i + 1),
        }
    }
}

/// The names of the page links of `s` that are not blank.
pub open spec fn page_links(s: Seq<char>) -> Seq<Seq<char>> {
    page_links_from(s, 0)
}

pub proof fn lemma_link_close(s: Seq<char>, i: int)
    requires
        link_close(s, i) is Some,
    ensures
        ({
            let j = link_close(s, i)->0;
            &&& i + 2 < j
            &&& j + 1 < s.len()
            &&& s[j] == ']'
            &&& s[j + 1] == ']'
            &&& forall|k: int| i + 2 <= k < j ==> #[trigger] s[k] != ']'
        }),
{
    lemma_first_of(s, ']', i + 2);
}

/// Where a page link starting at `i` closes.
pub fn link_close_exec(s: &[char], i: usize) -> (r: Option<usize>)
    ensures
        r matches Some(j) ==> link_close(s@, i as int) == Some(j as int),
        r is None ==> link_close(s@, i as int) is None,
{
    if i < s.len() && s.len() - i > 1 && s[i] == '[' && s[i + 1] == '[' {
        let j = first_of_exec(s, ']', i + 2);
        proof {
            lemma_first_of(s@, ']', i + 2);
        }
        if j > i + 2 && j < s.len() - 1 && s[j + 1] == ']' {
            Some(j)
        } else {
            None
        }
    } else {
        None
    }
}

/// Extract all `[[Page Name]]` links from content: the trimmed names, in
/// order, leaving out the blank ones.
pub fn extract_page_links(content: &str) -> (res: Vec<String>)
    ensures
        string_views(res@) == page_links(content@),
{
    let s = chars_of(content);
    let mut res: Vec<String> = Vec::new();
    let mut i: usize = 0;
    while i < s.len()
        invariant
            string_views(res@) + page_links_from(s@, i as int) == page_links(s@),
        decreases s@.len() - i,
    {
        let ghost before = string_views(res@);
        match link_close_exec(s.as_slice(), i) {
            Some(j) => {
                proof {
                    lemma_link_close(s@, i as int);
                }
                let inner = slice_chars(s.as_slice(), i + 2, j);
                let name = trim_chars(inner.as_slice());
                if name.len() > 0 {
                    let n = string_from(name.as_slice());
                    let ghost prev = res@;
                    res.push(n);
                    proof {
                        lemma_string_views_push(prev, n);
                    }
                }
                assert(string_views(res@) + page_links_from(s@, j + 2) =~= before
                    + page_links_from(s@, i as int));
                i = j + 2;
            },
            None => {
                i = i + 1;
            },
        }
    }
    res
}

} // verus!

verus! {

/// A page reference found in content: the trimmed name, the byte offset and
/// byte length of the whole `[[..]]` text, and its index among all links.
#[derive(Debug, Clone)]
pub struct PageReference {
    pub page_name: String,
    pub position: usize,
    pub length: usize,
    pub reference_index: usize,
}

/// What `get_referenced_pages` reports for the `k`-th link of `s`.
pub open spec fn reference_ok(s: Seq<char>, r: PageReference, k: int) -> bool {
    let m = link_matches(s)[k];
    &&& r.page_name@ == link_name(s, m)
    &&& r.position == blen(s.take(m.0))
    &&& r.length == blen(s.subrange(m.0, m.1 + 2))
    &&& r.reference_index == k
}

pub proof fn lemma_link_matches_from_bounds(s: Seq<char>, i: int)
    requires
        0 <= i,
    ensures
        forall|k: int|
            0 <= k < link_matches_from(s, i).len() ==> {
                let m = #[trigger] link_matches_from(s, i)[k];
                &&& i <= m.0
                &&& m.0 + 2 < m.1
                &&& m.1 + 2 <= s.len()
                &&& link_close(s, m.0) == Some(m.1)
            },
    decreases s.len() - i,
{
    if i < s.len() {
        match link_close(s, i) {
            Some(j) => {
                lemma_link_close(s, i);
                lemma_link_matches_from_bounds(s, j + 2);
                let rest = link_matches_from(s, j + 2);
                assert forall|k: int| 0 <= k < link_matches_from(s, i).len() implies {
                    let m = #[trigger] link_matches_from(s, i)[k];
                    &&& i <= m.0
                    &&& m.0 + 2 < m.1
                    &&& m.1 + 2 <= s.len()
                    &&& link_close(s, m.0) == Some(m.1)
                } by {
                    if k > 0 {
                        assert(link_matches_from(s, i)[k] == rest[k - 1]);
                    }
                }
            },
            None => {
                lemma_link_matches_from_bounds(s, i + 1);
            },
        }
    }
}

/// Extract every page reference with its position, length and index; the
/// names are trimmed and blank ones are kept.
pub fn get_referenced_pages(content: &str) -> (res: Vec<PageReference>)
    ensures
        res@.len() == link_matches(content@).len(),
        forall|k: int| 0 <= k < res@.len() ==> reference_ok(content@, #[trigger] res@[k], k),
{
    let total = str_byte_len(content);
    let s = chars_of(content);
    let mut res: Vec<PageReference> = Vec::new();
    let mut i: usize = 0;
    let mut bpos: usize = 0;
    let ghost mut acc: Seq<(int, int)> = Seq::empty();
    proof {
        lemma_link_matches_from_bounds(s@, 0);
    }
    while i < s.len()
        invariant
            total == blen(s@),
            i <= s@.len(),
            bpos == blen(s@.take(i as int)),
            acc + link_matches_from(s@, i as int) == link_matches(s@),
            res@.len() == acc.len(),
            forall|k: int| 0 <= k < res@.len() ==> reference_ok(s@, #[trigger] res@[k], k),
        decreases s@.len() - i,
    {
        match link_close_exec(s.as_slice(), i) {
            Some(j) => {
                proof {
                    lemma_link_close(s@, i as int);
                    lemma_blen_subrange(s@, i as int, j + 2);
                    lemma_blen_subrange(s@, 0, j + 2);
                }
                let inner = slice_chars(s.as_slice(), i + 2, j);
                let name = trim_chars(inner.as_slice());
                let whole = slice_chars(s.as_slice(), i, j + 2);
                let len = chars_byte_len(whole.as_slice());
                let r = PageReference {
                    page_name: string_from(name.as_slice()),
                    position: bpos,
                    length: len,
                    reference_index: res.len(),
                };
                proof {
                    assert(link_matches(s@) == acc.push((i as int, j as int)) + link_matches_from(
                        s@,
                        j + 2,
                    )) by {
                        assert(acc.push((i as int, j as int)) + link_matches_from(s@, j + 2)
                            =~= acc + link_matches_from(s@, i as int));
                    }
                    assert(link_matches(s@)[acc.len() as int] == (i as int, j as int));
                    acc = acc.push((i as int, j as int));
                }
                res.push(r);
                bpos = bpos + len;
                i = j + 2;
            },
            None => {
                proof {
                    assert(s@.take(i + 1) =~= s@.take(i as int).push(s@[i as int]));
                    lemma_blen_push(s@.take(i as int), s@[i as int]);
                    lemma_blen_subrange(s@, 0, i + 1);
                    lemma_blen_single(s@[i as int]);
                }
                let w = char_width_of(s[i]);
                bpos = bpos + w;
                i = i + 1;
            },
        }
    }
    proof {
        assert(link_matches_from(s@, i as int) =~= Seq::<(int, int)>::empty());
        assert(acc =~= link_matches(s@));
    }
    res
}

/// Check if content has any links: both `[[` and `]]` occur.
pub fn has_links(content: &str) -> (res: bool)
    ensures
        res == (contains(content@, seq!['[', '[']) && contains(content@, seq![']', ']'])),
{
    let s = chars_of(content);
    let open: [char; 2] = ['[', '['];
    let close: [char; 2] = [']', ']'];
    let o: &[char] = &open;
    let c: &[char] = &close;
    assert(o@ =~= seq!['[', '[']);
    assert(c@ =~= seq![']', ']']);
    contains_exec(s.as_slice(), o) && contains_exec(s.as_slice(), c)
}

/// The validity rule for page names.
pub open spec fn valid_page_name(name: Seq<char>) -> bool {
    &&& name.len() > 0
    &&& blen(name) <= 255
    &&& !name.contains('\n')
    &&& !name.contains('\r')
    &&& !starts_with(name, seq!['/'])
    &&& !ends_with(name, seq!['/'])
    &&& !contains(name, seq!['/', '/'])
}

/// Validate that a page name is valid: non-empty, at most 255 bytes, on one
/// line, not starting or ending with `/`, and without `//`.
pub fn is_valid_page_name(name: &str) -> (res: bool)
    ensures
        res == valid_page_name(name@),
{
    let n = str_byte_len(name);
    let s = chars_of(name);
    let slash: [char; 1] = ['/'];
    let dslash: [char; 2] = ['/', '/'];
    let sl: &[char] = &slash;
    let dsl: &[char] = &dslash;
    assert(sl@ =~= seq!['/']);
    assert(dsl@ =~= seq!['/', '/']);
    s.len() > 0 && n <= 255 && !contains_char(s.as_slice(), '\n') && !contains_char(
        s.as_slice(),
        '\r',
    ) && !starts_with_exec(s.as_slice(), sl) && !ends_with_exec(s.as_slice(), sl)
        && !contains_exec(s.as_slice(), dsl)
}

/// The characters of `s` whose UTF-8 encoding is the first `n` bytes of
/// that of `s`.
pub open spec fn prefix_bytes(s: Seq<char>, n: int) -> Seq<char> {
    decode_utf8(encode_utf8(s).subrange(0, n))
}

/// The partial link text before a cursor, given the text before the cursor:
/// the text after the last `[[`, when no `]]` follows that `[[`, the text is
/// on one line and is at most 100 bytes long.
pub open spec fn link_context_of(before: Seq<char>) -> Option<Seq<char>> {
    match rfind(before, seq!['[', '[']) {
        Some(o) => {
            let partial = before.subrange(o + 2, before.len() as int);
            if !contains(before.subrange(o, before.len() as int), seq![']', ']'])
                && !partial.contains('\n') && blen(partial) <= 100 {
                Some(partial)
            } else {
                None
            }
        },
        None => None,
    }
}

/// Get link context at cursor position (a byte offset), for autocomplete:
/// the page name being typed after an unclosed `[[`.
pub fn get_link_context(content: &str, cursor_position: usize) -> (res: Option<String>)
    requires
        cursor_position > blen(content@) || is_char_boundary(
            content.spec_bytes(),
            cursor_position as int,
        ),
    ensures
        cursor_position > blen(content@) ==> res is None,
        cursor_position <= blen(content@) ==> match res {
            Some(p) => link_context_of(prefix_bytes(content@, cursor_position as int)) == Some(p@),
            None => link_context_of(prefix_bytes(content@, cursor_position as int)) is None,
        },
{
    let total = str_byte_len(content);
    if cursor_position > total {
        return None;
    }
    let (before_str, _after) = content.split_at(cursor_position);
    proof {
        vstd::utf8::encode_utf8_decode_utf8(before_str@);
        assert(before_str.spec_bytes() == encode_utf8(before_str@));
        assert(before_str@ == prefix_bytes(content@, cursor_position as int));
    }
    let before = chars_of(before_str);
    let open: [char; 2] = ['[', '['];
    let close: [char; 2] = [']', ']'];
    let o: &[char] = &open;
    let c: &[char] = &close;
    assert(o@ =~= seq!['[', '[']);
    assert(c@ =~= seq![']', ']']);
    match rfind_exec(before.as_slice(), o) {
        Some(open_pos) => {
            proof {
                lemma_rfind_facts(before@, o@, before@.len() - 2);
            }
            let between = slice_chars(before.as_slice(), open_pos, before.len());
            if !contains_exec(between.as_slice(), c) {
                let partial = slice_chars(before.as_slice(), open_pos + 2, before.len());
                proof {
                    vstd::utf8::encode_utf8_decode_utf8(before_str@);
                    lemma_blen_subrange(before@, open_pos + 2, before@.len() as int);
                    assert(blen(before@) == cursor_position);
                }
                if !contains_char(partial.as_slice(), '\n') && chars_byte_len(partial.as_slice())
                    <= 100 {
                    return Some(string_from(partial.as_slice()));
                }
            }
            None
        },
        None => None,
    }
}

} // verus!

verus! {

// ------------------------------------------------------------------
// Malformed links
// ------------------------------------------------------------------

/// The first `[[` at or after `i` with no `]` anywhere after it.
pub open spec fn open_tail_from(s: Seq<char>, i: int) -> Option<int>
    decreases s.len() - i,
{
    if i < 0 || i + 1 >= s.len() {
        None
    } else if s[i] == '[' && s[i + 1] == '[' && first_of(s, ']', i + 2) == s.len() {
        Some(i)
    } else {
        open_tail_from(s, i + 1)
    }
}

/// The end of the text from the start up to the last `]]` that comes
/// before any `[`.
pub open spec fn close_head(s: Seq<char>) -> Option<int> {
    match rfind(s.take(first_of(s, '[', 0)), seq![']', ']']) {
        Some(m) => Some(m + 2),
        None => None,
    }
}

/// The first index at or after `i` holding a bracket, or the length.
pub open spec fn first_bracket(s: Seq<char>, i: int) -> int
    decreases s.len() - i,
{
    if 0 <= i < s.len() {
        if s[i] == '[' || s[i] == ']' {
            i
        } else {
            first_bracket(s, i + 1)
        }
    } else {
        s.len() as int
    }
}

/// A `[` at `i` followed by bracket-free text that holds a newline: the
/// index of the last such newline before the next bracket.
pub open spec fn bracket_newline(s: Seq<char>, i: int) -> Option<int> {
    if 0 <= i < s.len() && s[i] == '[' {
        last_of(s, '\n', i + 1, first_bracket(s, i + 1))
    } else {
        None
    }
}

/// The "possible incomplete link" reports from `i` on.
pub open spec fn incomplete_reports_from(s: Seq<char>, i: int) -> Seq<Seq<char>>
    decreases s.len() - i,
{
    if i < 0 || i >= s.len() {
        Seq::empty()
    } else {
        match bracket_newline(s, i) {
            Some(m) => if i < m + 1 <= s.len() {
                let text = trim(s.subrange(i, m + 1));
                if text.len() > 0 && blen(text) > 1 {
                    seq!["Possible incomplete link: "@ + text] + incomplete_reports_from(s, m + 1)
                } else {
                    incomplete_reports_from(s, m + 1)
                }
            } else {
                Seq::empty()
            },
            None => incomplete_reports_from(s, i + 1),
        }
    }
}

/// All malformed-link reports: an unclosed `[[` at the end, a `]]` with no
/// `[` before it, then every `[` whose line ends before a bracket.
pub open spec fn malformed_links(s: Seq<char>) -> Seq<Seq<char>> {
    let first: Seq<Seq<char>> = match open_tail_from(s, 0) {
        Some(i) => seq![s.subrange(i, s.len() as int)],
        None => Seq::empty(),
    };
    let second: Seq<Seq<char>> = match close_head(s) {
        Some(e) => seq![s.subrange(0, e)],
        None => Seq::empty(),
    };
    first + second + incomplete_reports_from(s, 0)
}

pub proof fn lemma_first_bracket(s: Seq<char>, i: int)
    requires
        0 <= i <= s.len(),
    ensures
        i <= first_bracket(s, i) <= s.len(),
    decreases s.len() - i,
{
    if i < s.len() && !(s[i] == '[' || s[i] == ']') {
        lemma_first_bracket(s, i + 1);
    }
}

fn first_bracket_exec(s: &[char], i: usize) -> (r: usize)
    requires
        i <= s@.len(),
    ensures
        r == first_bracket(s@, i as int),
        i <= r <= s@.len(),
{
    proof {
        lemma_first_bracket(s@, i as int);
    }
    let mut k = i;
    while k < s.len() && !(s[k] == '[' || s[k] == ']')
        invariant
            i <= k <= s@.len(),
            first_bracket(s@, k as int) == first_bracket(s@, i as int),
        decreases s.len() - k,
    {
        k = k + 1;
    }
    k
}

fn open_tail_exec(s: &[char]) -> (r: Option<usize>)
    ensures
        r matches Some(i) ==> open_tail_from(s@, 0) == Some(i as int),
        r is None ==> open_tail_from(s@, 0) is None,
{
    let mut i: usize = 0;
    while s.len() > 1 && i < s.len() - 1
        invariant
            i <= s@.len(),
            open_tail_from(s@, i as int) == open_tail_from(s@, 0),
        decreases s@.len() - i,
    {
        if s[i] == '[' && s[i + 1] == '[' && first_of_exec(s, ']', i + 2) == s.len() {
            return Some(i);
        }
        i = i + 1;
    }
    None
}

/// Find malformed links: an opening `[[` never closed, a closing `]]`
/// never opened, and single brackets whose line ends without a bracket.
pub fn find_malformed_links(content: &str) -> (res: Vec<String>)
    ensures
        string_views(res@) == malformed_links(content@),
{
    let s = chars_of(content);
    let total = str_byte_len(content);
    let mut res: Vec<String> = Vec::new();
    let ghost mut acc: Seq<Seq<char>> = Seq::empty();
    match open_tail_exec(s.as_slice()) {
        Some(i) => {
            proof {
                assert(open_tail_from(s@, 0) == Some(i as int));
                lemma_open_tail_bounds(s@, 0);
            }
            let t = substring(s.as_slice(), i, s.len());
            let ghost prev = res@;
            res.push(t);
            proof {
                lemma_string_views_push(prev, t);
            }
        },
        None => {},
    }
    let k = first_of_exec(s.as_slice(), '[', 0);
    proof {
        lemma_first_of(s@, '[', 0);
    }
    let head = slice_chars(s.as_slice(), 0, k);
    let close: [char; 2] = [']', ']'];
    let c: &[char] = &close;
    assert(c@ =~= seq![']', ']']);
    assert(head@ =~= s@.take(k as int));
    match rfind_exec(head.as_slice(), c) {
        Some(m) => {
            proof {
                lemma_rfind_facts(head@, c@, head@.len() - 2);
            }
            let t = substring(s.as_slice(), 0, m + 2);
            let ghost prev = res@;
            res.push(t);
            proof {
                lemma_string_views_push(prev, t);
            }
        },
        None => {},
    }
    let ghost firsts = string_views(res@);
    assert(firsts + incomplete_reports_from(s@, 0) == malformed_links(s@));
    let prefix = chars_of("Possible incomplete link: ");
    let mut i: usize = 0;
    while i < s.len()
        invariant
            total == blen(s@),
            prefix@ == "Possible incomplete link: "@,
            string_views(res@) + incomplete_reports_from(s@, i as int) == malformed_links(s@),
        decreases s@.len() - i,
    {
        let ghost before = string_views(res@);
        if s[i] == '[' {
            let fb = first_bracket_exec(s.as_slice(), i + 1);
            match last_of_exec(s.as_slice(), '\n', i + 1, fb) {
                Some(m) => {
                    proof {
                        lemma_last_of(s@, '\n', i + 1, fb as int);
                    }
                    let piece = slice_chars(s.as_slice(), i, m + 1);
                    let text = trim_chars(piece.as_slice());
                    proof {
                        lemma_trim_facts(piece@);
                        lemma_blen_subrange(s@, i as int, m + 1);
                        lemma_blen_subrange(piece@, skip_ws(piece@, 0), back_ws(
                            piece@,
                            skip_ws(piece@, 0),
                            piece@.len() as int,
                        ));
                    }
                    if text.len() > 0 && chars_byte_len(text.as_slice()) > 1 {
                        let mut msg = prefix.clone();
                        extend_chars(&mut msg, text.as_slice());
                        let t = string_from(msg.as_slice());
                        let ghost prev = res@;
                        res.push(t);
                        proof {
                            lemma_string_views_push(prev, t);
                        }
                    }
                    assert(string_views(res@) + incomplete_reports_from(s@, m + 1) =~= before
                        + incomplete_reports_from(s@, i as int));
                    i = m + 1;
                },
                None => {
                    i = i + 1;
                },
            }
        } else {
            i = i + 1;
        }
    }
    res
}

proof fn lemma_open_tail_bounds(s: Seq<char>, i: int)
    requires
        0 <= i,
    ensures
        open_tail_from(s, i) matches Some(j) ==> i <= j < s.len(),
    decreases s.len() - i,
{
    if i + 1 < s.len() && !(s[i] == '[' && s[i + 1] == '[' && first_of(s, ']', i + 2)
        == s.len()) {
        lemma_open_tail_bounds(s, i + 1);
    }
}

} // verus!

verus! {

// ------------------------------------------------------------------
// External links
// ------------------------------------------------------------------

/// The kind of an external link.
#[derive(Debug, Clone, Copy, PartialEq, Eq, Structural)]
pub enum ExternalLinkType {
    Http,
    Email,
    Other,
}

/// An external link: its text, its URL and its kind.
#[derive(Debug, Clone)]
pub struct ExternalLink {
    pub text: String,
    pub url: String,
    pub link_type: ExternalLinkType,
}

/// The abstract value of an external link.
pub struct ExternalLinkView {
    pub text: Seq<char>,
    pub url: Seq<char>,
    pub link_type: ExternalLinkType,
}

impl View for ExternalLink {
    type V = ExternalLinkView;

    open spec fn view(&self) -> ExternalLinkView {
        ExternalLinkView { text: self.text@, url: self.url@, link_type: self.link_type }
    }
}

/// A Markdown link `[text](url)` starts at `i`: the indices of its `]`
/// and of its closing `)`.
pub open spec fn md_link_at(s: Seq<char>, i: int) -> Option<(int, int)> {
    if 0 <= i < s.len() && s[i] == '[' {
        let j = first_of(s, ']', i + 1);
        if j > i + 1 && j + 1 < s.len() && s[j + 1] == '(' {
            let k = first_of(s, ')', j + 2);
            if k > j + 2 && k < s.len() {
                Some((j, k))
            } else {
                None
            }
        } else {
            None
        }
    } else {
        None
    }
}

/// The kind of a link from its URL.
pub open spec fn link_type_of(url: Seq<char>) -> ExternalLinkType {
    if starts_with(url, "http"@) {
        ExternalLinkType::Http
    } else if starts_with(url, "mailto:"@) {
        ExternalLinkType::Email
    } else {
        ExternalLinkType::Other
    }
}

/// The Markdown links from `i` on.
pub open spec fn md_links_from(s: Seq<char>, i: int) -> Seq<ExternalLinkView>
    decreases s.len() - i,
{
    if i < 0 || i >= s.len() {
        Seq::empty()
    } else {
        match md_link_at(s, i) {
            Some((j, k)) => if i < k + 1 <= s.len() {
                let url = s.subrange(j + 2, k);
                seq![
                    ExternalLinkView {
                        text: s.subrange(i + 1, j),
                        url: url,
                        link_type: link_type_of(url),
                    },
                ] + md_links_from(s, k + 1)
            } else {
                Seq::empty()
            },
            None => md_links_from(s, i + 1),
        }
    }
}

/// Characters that end a bare URL: whitespace, angle brackets, square
/// brackets, and a closing parenthesis (so that a URL written inside a
/// Markdown link's parentheses is the same URL).
pub open spec fn url_stop(c: char) -> bool {
    is_ws(c) || c == '<' || c == '>' || c == '[' || c == ']' || c == ')'
}

/// The first index at or after `i` holding a URL stop character.
pub open spec fn first_stop(s: Seq<char>, i: int) -> int
    decreases s.len() - i,
{
    if 0 <= i < s.len() {
        if url_stop(s[i]) {
            i
        } else {
            first_stop(s, i + 1)
        }
    } else {
        s.len() as int
    }
}

/// A bare URL `http://..` or `https://..` starts at `i`: its end.
pub open spec fn bare_url_at(s: Seq<char>, i: int) -> Option<int> {
    let body = if matches_at(s, "https://"@, i) {
        i + 8
    } else if matches_at(s, "http://"@, i) {
        i + 7
    } else {
        -1
    };
    if body < 0 {
        None
    } else {
        let e = first_stop(s, body);
        if e > body {
            Some(e)
        } else {
            None
        }
    }
}

/// The bare URLs from `i` on.
pub open spec fn bare_urls_from(s: Seq<char>, i: int) -> Seq<Seq<char>>
    decreases s.len() - i,
{
    if i < 0 || i >= s.len() {
        Seq::empty()
    } else {
        match bare_url_at(s, i) {
            Some(e) => if i < e <= s.len() {
                seq![s.subrange(i, e)] + bare_urls_from(s, e)
            } else {
                Seq::empty()
            },
            None => bare_urls_from(s, i + 1),
        }
    }
}

/// Adds each bare URL, in order, unless a link with that URL is present.
pub open spec fn add_bare_urls(links: Seq<ExternalLinkView>, urls: Seq<Seq<char>>) -> Seq<
    ExternalLinkView,
>
    decreases urls.len(),
{
    if urls.len() == 0 {
        links
    } else {
        let prev = add_bare_urls(links, urls.drop_last());
        let u = urls.last();
        if exists|k: int| 0 <= k < prev.len() && (#[trigger] prev[k]).url == u {
            prev
        } else {
            prev.push(ExternalLinkView { text: u, url: u, link_type: ExternalLinkType::Http })
        }
    }
}

/// All external links of `s`: the Markdown links, then the bare URLs not
/// already present.
pub open spec fn external_links(s: Seq<char>) -> Seq<ExternalLinkView> {
    add_bare_urls(md_links_from(s, 0), bare_urls_from(s, 0))
}

/// The views of a sequence of external links.
pub open spec fn link_views(v: Seq<ExternalLink>) -> Seq<ExternalLinkView> {
    v.map_values(|l: ExternalLink| l@)
}

proof fn lemma_first_stop(s: Seq<char>, i: int)
    requires
        0 <= i <= s.len(),
    ensures
        i <= first_stop(s, i) <= s.len(),
    decreases s.len() - i,
{
    if i < s.len() && !url_stop(s[i]) {
        lemma_first_stop(s, i + 1);
    }
}

fn first_stop_exec(s: &[char], i: usize) -> (r: usize)
    requires
        i <= s@.len(),
    ensures
        r == first_stop(s@, i as int),
        i <= r <= s@.len(),
{
    proof {
        lemma_first_stop(s@, i as int);
    }
    let mut k = i;
    while k < s.len() && !(is_whitespace(s[k]) || s[k] == '<' || s[k] == '>' || s[k] == '['
        || s[k] == ']' || s[k] == ')')
        invariant
            i <= k <= s@.len(),
            first_stop(s@, k as int) == first_stop(s@, i as int),
        decreases s.len() - k,
    {
        k = k + 1;
    }
    k
}

fn link_type_exec(url: &[char]) -> (t: ExternalLinkType)
    ensures
        t == link_type_of(url@),
{
    let http = chars_of("http");
    let mailto = chars_of("mailto:");
    if starts_with_exec(url, http.as_slice()) {
        ExternalLinkType::Http
    } else if starts_with_exec(url, mailto.as_slice()) {
        ExternalLinkType::Email
    } else {
        ExternalLinkType::Other
    }
}

fn md_link_at_exec(s: &[char], i: usize) -> (r: Option<(usize, usize)>)
    ensures
        r matches Some((j, k)) ==> md_link_at(s@, i as int) == Some((j as int, k as int)),
        r is None ==> md_link_at(s@, i as int) is None,
{
    if i < s.len() && s[i] == '[' {
        let j = first_of_exec(s, ']', i + 1);
        proof {
            lemma_first_of(s@, ']', i + 1);
        }
        if j > i + 1 && j < s.len() - 1 && s[j + 1] == '(' {
            let k = first_of_exec(s, ')', j + 2);
            proof {
                lemma_first_of(s@, ')', j + 2);
            }
            if k > j + 2 && k < s.len() {
                return Some((j, k));
            }
        }
    }
    None
}

fn bare_url_at_exec(s: &[char], i: usize) -> (r: Option<usize>)
    ensures
        r matches Some(e) ==> bare_url_at(s@, i as int) == Some(e as int),
        r is None ==> bare_url_at(s@, i as int) is None,
{
    let https = chars_of("https://");
    let http = chars_of("http://");
    let _n = s.len();
    proof {
        reveal_strlit("https://");
        reveal_strlit("http://");
        assert(https@.len() == 8);
        assert(http@.len() == 7);
    }
    let body: usize;
    if matches_at_exec(s, https.as_slice(), i) {
        body = i + 8;
    } else if matches_at_exec(s, http.as_slice(), i) {
        body = i + 7;
    } else {
        return None;
    }
    let e = first_stop_exec(s, body);
    if e > body {
        Some(e)
    } else {
        None
    }
}

/// Whether some link in `links` has the URL `url`.
fn has_url(links: &Vec<ExternalLink>, url: &String) -> (b: bool)
    ensures
        b == exists|k: int| 0 <= k < links@.len() && (#[trigger] links@[k])@.url == url@,
{
    let mut i: usize = 0;
    while i < links.len()
        invariant
            i <= links@.len(),
            forall|k: int| 0 <= k < i ==> (#[trigger] links@[k])@.url != url@,
        decreases links@.len() - i,
    {
        if links[i].url == *url {
            assert(links@[i as int]@.url == url@);
            return true;
        }
        i = i + 1;
    }
    false
}

/// Extract external links: Markdown `[text](url)` links, then bare
/// `http(s)://` URLs that are not already the URL of a link found.
pub fn extract_external_links(content: &str) -> (res: Vec<ExternalLink>)
    ensures
        link_views(res@) == external_links(content@),
{
    let s = chars_of(content);
    let mut links: Vec<ExternalLink> = Vec::new();
    let mut i: usize = 0;
    while i < s.len()
        invariant
            link_views(links@) + md_links_from(s@, i as int) == md_links_from(s@, 0),
        decreases s@.len() - i,
    {
        let ghost before = link_views(links@);
        match md_link_at_exec(s.as_slice(), i) {
            Some((j, k)) => {
                proof {
                    lemma_first_of(s@, ']', i + 1);
                    lemma_first_of(s@, ')', j + 2);
                }
                let url = slice_chars(s.as_slice(), j + 2, k);
                let link = ExternalLink {
                    text: substring(s.as_slice(), i + 1, j),
                    url: string_from(url.as_slice()),
                    link_type: link_type_exec(url.as_slice()),
                };
                links.push(link);
                assert(link_views(links@) + md_links_from(s@, k + 1) =~= before + md_links_from(
                    s@,
                    i as int,
                ));
                i = k + 1;
            },
            None => {
                i = i + 1;
            },
        }
    }
    assert(md_links_from(s@, i as int) =~= Seq::<ExternalLinkView>::empty());
    assert(link_views(links@) =~= md_links_from(s@, 0));
    let ghost md = md_links_from(s@, 0);
    let ghost mut urls: Seq<Seq<char>> = Seq::empty();
    let mut i: usize = 0;
    while i < s.len()
        invariant
            urls + bare_urls_from(s@, i as int) == bare_urls_from(s@, 0),
            link_views(links@) == add_bare_urls(md, urls),
        decreases s@.len() - i,
    {
        match bare_url_at_exec(s.as_slice(), i) {
            Some(e) => {
                proof {
                    lemma_first_stop(s@, if matches_at(s@, "https://"@, i as int) {
                        i + 8
                    } else {
                        i + 7
                    });
                }
                let url = substring(s.as_slice(), i, e);
                proof {
                    assert(urls.push(url@) + bare_urls_from(s@, e as int) =~= urls + bare_urls_from(
                        s@,
                        i as int,
                    ));
                    assert(urls.push(url@).drop_last() =~= urls);
                }
                if !has_url(&links, &url) {
                    let link = ExternalLink {
                        text: url.clone(),
                        url: url.clone(),
                        link_type: ExternalLinkType::Http,
                    };
                    links.push(link);
                    assert(link_views(links@) =~= add_bare_urls(md, urls.push(url@)));
                } else {
                    proof {
                        let k = choose|k: int|
                            0 <= k < links@.len() && (#[trigger] links@[k])@.url == url@;
                        let prev = add_bare_urls(md, urls);
                        assert(prev[k].url == url@);
                        assert(urls.push(url@).last() == url@);
                    }
                    assert(link_views(links@) =~= add_bare_urls(md, urls.push(url@)));
                }
                proof {
                    urls = urls.push(url@);
                }
                i = e;
            },
            None => {
                i = i + 1;
            },
        }
    }
    assert(bare_urls_from(s@, i as int) =~= Seq::<Seq<char>>::empty());
    assert(urls =~= bare_urls_from(s@, 0));
    links
}

} // verus!

verus! {

// ------------------------------------------------------------------
// Page names as paths
// ------------------------------------------------------------------

/// What one character of a lowercased page name becomes in its path:
/// a space becomes `-`; letters, digits, `-`, `_` and `/` stay; the rest
/// are dropped.
pub open spec fn slug_piece(c: char) -> Seq<char> {
    if c == ' ' {
        seq!['-']
    } else if char_alphanumeric(c) || c == '-' || c == '_' || c == '/' {
        seq![c]
    } else {
        Seq::empty()
    }
}

/// The characters of a lowercased page name, each mapped by `slug_piece`.
pub open spec fn slug_chars(l: Seq<char>) -> Seq<char>
    decreases l.len(),
{
    if l.len() == 0 {
        Seq::empty()
    } else {
        slug_chars(l.drop_last()) + slug_piece(l.last())
    }
}

/// The path for a lowercased page name: its mapped characters without
/// leading or trailing dashes.
pub open spec fn path_slug(lower: Seq<char>) -> Seq<char> {
    trim_matches(slug_chars(lower), '-')
}

/// Characters that can appear in a page path.
pub open spec fn path_char(c: char) -> bool {
    char_alphanumeric(c) || c == '-' || c == '_' || c == '/'
}

proof fn lemma_slug_chars(l: Seq<char>)
    ensures
        forall|k: int|
            0 <= k < slug_chars(l).len() ==> path_char(#[trigger] slug_chars(l)[k])
                && slug_chars(l)[k] != ' ',
    decreases l.len(),
{
    if l.len() > 0 {
        lemma_slug_chars(l.drop_last());
        let a = slug_chars(l.drop_last());
        let b = slug_piece(l.last());
        assert forall|k: int| 0 <= k < slug_chars(l).len() implies path_char(
            #[trigger] slug_chars(l)[k],
        ) && slug_chars(l)[k] != ' ' by {
            if k >= a.len() {
                assert(slug_chars(l)[k] == b[k - a.len()]);
            } else {
                assert(slug_chars(l)[k] == a[k]);
            }
        }
    }
}

/// `slug_piece` for an ASCII character: a space becomes `-`; ASCII
/// letters, digits, `-`, `_` and `/` stay; the rest are dropped.
pub open spec fn ascii_slug_piece(c: char) -> Seq<char> {
    if c == ' ' {
        seq!['-']
    } else if crate::text::is_ascii_alnum(c) || c == '-' || c == '_' || c == '/' {
        seq![c]
    } else {
        Seq::empty()
    }
}

/// The characters of an ASCII text, each mapped by `ascii_slug_piece`.
pub open spec fn ascii_slug_chars(l: Seq<char>) -> Seq<char>
    decreases l.len(),
{
    if l.len() == 0 {
        Seq::empty()
    } else {
        ascii_slug_chars(l.drop_last()) + ascii_slug_piece(l.last())
    }
}

/// The path of an ASCII page name: trimmed, ASCII-lowercased, mapped by
/// `ascii_slug_piece`, dashes trimmed from both ends.
pub open spec fn ascii_page_path(name: Seq<char>) -> Seq<char> {
    trim_matches(
        ascii_slug_chars(trim(name).map_values(|c: char| crate::text::ascii_lower_char(c))),
        '-',
    )
}

/// The path for a page name that is already trimmed and lowercased.
pub fn slug_from_lowercase(lower: &str) -> (res: String)
    ensures
        res@ == path_slug(lower@),
        crate::text::all_ascii(lower@) ==> res@ == trim_matches(ascii_slug_chars(lower@), '-'),
{
    let l = chars_of(lower);
    let mut out: Vec<char> = Vec::new();
    let mut i: usize = 0;
    while i < l.len()
        invariant
            i <= l@.len(),
            l@ == lower@,
            out@ == slug_chars(l@.take(i as int)),
            crate::text::all_ascii(l@) ==> out@ == ascii_slug_chars(l@.take(i as int)),
        decreases l@.len() - i,
    {
        let c = l[i];
        proof {
            assert(l@.take(i + 1).drop_last() =~= l@.take(i as int));
            assert(l@.take(i + 1).last() == c);
            if crate::text::all_ascii(l@) {
                assert((l@[i as int] as u32) < 128);
            }
        }
        if c == ' ' {
            out.push('-');
            assert(out@ =~= slug_chars(l@.take(i + 1)));
            assert(crate::text::all_ascii(l@) ==> out@ =~= ascii_slug_chars(l@.take(i + 1)));
        } else if is_alphanumeric(c) || c == '-' || c == '_' || c == '/' {
            out.push(c);
            assert(out@ =~= slug_chars(l@.take(i + 1)));
            assert(crate::text::all_ascii(l@) ==> out@ =~= ascii_slug_chars(l@.take(i + 1)));
        } else {
            assert(out@ =~= slug_chars(l@.take(i + 1)));
            assert(crate::text::all_ascii(l@) ==> out@ =~= ascii_slug_chars(l@.take(i + 1)));
        }
        i = i + 1;
    }
    assert(l@.take(l@.len() as int) =~= l@);
    let t = trim_matches_exec(out.as_slice(), '-');
    string_from(t.as_slice())
}

/// Convert a page name to a path: trimmed, lowercased, spaces turned to
/// dashes, other characters than letters, digits, `-`, `_` and `/` dropped,
/// and dashes trimmed from both ends.
pub fn page_name_to_path(name: &str) -> (res: String)
    ensures
        res@ == path_slug(lowercase_of(trim(name@))),
        crate::text::all_ascii(name@) ==> res@ == ascii_page_path(name@),
        forall|k: int| 0 <= k < res@.len() ==> path_char(#[trigger] res@[k]) && res@[k] != ' ',
        res@.len() > 0 ==> res@[0] != '-' && res@.last() != '-',
{
    let n = chars_of(name);
    let t = trim_chars(n.as_slice());
    let ts = string_from(t.as_slice());
    let lower = to_lowercase(ts.as_str());
    let res = slug_from_lowercase(lower.as_str());
    proof {
        lemma_path_slug_facts(lower@);
        if crate::text::all_ascii(name@) {
            lemma_trim_facts(name@);
            crate::text::lemma_skip_ws_bounds(name@, 0);
            crate::text::lemma_back_ws_bounds(name@, skip_ws(name@, 0), name@.len() as int);
            assert(crate::text::all_ascii(ts@)) by {
                assert forall|k: int| 0 <= k < ts@.len() implies (#[trigger] ts@[k] as u32) < 128 by {
                    assert(ts@[k] == name@[skip_ws(name@, 0) + k]);
                }
            }
            let m = trim(name@).map_values(|c: char| crate::text::ascii_lower_char(c));
            assert(lower@ =~= m);
            assert(crate::text::all_ascii(lower@)) by {
                assert forall|k: int| 0 <= k < lower@.len() implies (#[trigger] lower@[k] as u32) < 128 by {
                    assert(lower@[k] == crate::text::ascii_lower_char(ts@[k]));
                }
            }
        }
    }
    res
}

// ------------------------------------------------------------------
// Rendering page links
// ------------------------------------------------------------------

/// A piece of content: plain text, or a page link with its name.
pub enum Segment {
    Plain(Seq<char>),
    Link(Seq<char>),
}

/// The content from `i` on, cut into plain characters and page links.
pub open spec fn segments_from(s: Seq<char>, i: int) -> Seq<Segment>
    decreases s.len() - i,
{
    if i < 0 || i >= s.len() {
        Seq::empty()
    } else {
        match link_close(s, i) {
            Some(j) => if i < j + 2 <= s.len() {
                seq![Segment::Link(trim(s.subrange(i + 2, j)))] + segments_from(s, j + 2)
            } else {
                Seq::empty()
            },
            None => seq![Segment::Plain(s.subrange(i, i + 1))] + segments_from(s, i + 1),
        }
    }
}

/// The names of the links among the segments, in order.
pub open spec fn segment_names(segs: Seq<Segment>) -> Seq<Seq<char>>
    decreases segs.len(),
{
    if segs.len() == 0 {
        Seq::empty()
    } else {
        match segs.last() {
            Segment::Plain(_) => segment_names(segs.drop_last()),
            Segment::Link(n) => segment_names(segs.drop_last()).push(n),
        }
    }
}

/// The text made of the segments, each link replaced by the next rendering.
pub open spec fn assemble(segs: Seq<Segment>, outs: Seq<Seq<char>>) -> Seq<char>
    decreases segs.len(),
{
    if segs.len() == 0 {
        Seq::empty()
    } else {
        match segs.last() {
            Segment::Plain(p) => assemble(segs.drop_last(), outs) + p,
            Segment::Link(_) => assemble(segs.drop_last(), outs.drop_last()) + outs.last(),
        }
    }
}

proof fn lemma_link_close_shift(p: Seq<char>, t: Seq<char>, k: int)
    requires
        0 <= k,
    ensures
        link_close(p + t, p.len() + k) == match link_close(t, k) {
            Some(j) => Some(p.len() + j),
            None => None::<int>,
        },
{
    let s = p + t;
    let i = p.len() + k;
    if k + 1 < t.len() {
        assert(s[i] == t[k] && s[i + 1] == t[k + 1]);
        crate::text::lemma_first_of_shift(p, t, ']', k + 2);
        let j = first_of(t, ']', k + 2);
        lemma_first_of(t, ']', k + 2);
        if j + 1 < t.len() {
            assert(s[p.len() + j + 1] == t[j + 1]);
        }
    }
}

/// Cutting the second part of a joined text into segments, from some index
/// on, is cutting that part alone.
proof fn lemma_segments_shift(p: Seq<char>, t: Seq<char>, k: int)
    requires
        0 <= k,
    ensures
        segments_from(p + t, p.len() + k) == segments_from(t, k),
    decreases t.len() - k,
{
    let s = p + t;
    let i = p.len() + k;
    if k < t.len() {
        lemma_link_close_shift(p, t, k);
        match link_close(t, k) {
            Some(j) => {
                lemma_link_close(t, k);
                assert(s.subrange(i + 2, p.len() + j) =~= t.subrange(k + 2, j));
                lemma_segments_shift(p, t, j + 2);
            },
            None => {
                assert(s.subrange(i, i + 1) =~= t.subrange(k, k + 1));
                lemma_segments_shift(p, t, k + 1);
            },
        }
    }
}

proof fn lemma_segment_names_concat(a: Seq<Segment>, b: Seq<Segment>)
    ensures
        segment_names(a + b) == segment_names(a) + segment_names(b),
    decreases b.len(),
{
    if b.len() == 0 {
        assert(a + b =~= a);
        assert(segment_names(a) + segment_names(b) =~= segment_names(a));
    } else {
        assert((a + b).drop_last() =~= a + b.drop_last());
        lemma_segment_names_concat(a, b.drop_last());
        match b.last() {
            Segment::Plain(_) => {},
            Segment::Link(n) => {
                assert(segment_names(a) + segment_names(b.drop_last()).push(n) =~= (segment_names(a)
                    + segment_names(b.drop_last())).push(n));
            },
        }
    }
}

/// Assembling joined segments with joined renderings, the second list of
/// renderings serving the links of the second segments.
proof fn lemma_assemble_concat(a: Seq<Segment>, b: Seq<Segment>, oa: Seq<Seq<char>>, ob: Seq<Seq<char>>)
    requires
        ob.len() == segment_names(b).len(),
    ensures
        assemble(a + b, oa + ob) == assemble(a, oa) + assemble(b, ob),
    decreases b.len(),
{
    if b.len() == 0 {
        assert(a + b =~= a);
        assert(oa + ob =~= oa);
        assert(assemble(a, oa) + assemble(b, ob) =~= assemble(a, oa));
    } else {
        assert((a + b).drop_last() =~= a + b.drop_last());
        assert((a + b).last() == b.last());
        match b.last() {
            Segment::Plain(p) => {
                lemma_assemble_concat(a, b.drop_last(), oa, ob);
                assert(assemble(a, oa) + assemble(b.drop_last(), ob) + p =~= assemble(a, oa) + (
                assemble(b.drop_last(), ob) + p));
            },
            Segment::Link(_) => {
                assert((oa + ob).drop_last() =~= oa + ob.drop_last());
                assert((oa + ob).last() == ob.last());
                lemma_assemble_concat(a, b.drop_last(), oa, ob.drop_last());
                assert(assemble(a, oa) + assemble(b.drop_last(), ob.drop_last()) + ob.last()
                    =~= assemble(a, oa) + (assemble(b.drop_last(), ob.drop_last()) + ob.last()));
            },
        }
    }
}

/// One segment alone: a plain piece is itself and names nothing; a link
/// is its rendering and names itself.
proof fn lemma_single_segment(seg: Segment, o: Seq<char>)
    ensures
        segment_names(seq![seg]) == match seg {
            Segment::Plain(_) => Seq::<Seq<char>>::empty(),
            Segment::Link(n) => seq![n],
        },
        match seg {
            Segment::Plain(p) => assemble(seq![seg], Seq::empty()) == p,
            Segment::Link(_) => assemble(seq![seg], seq![o]) == o,
        },
{
    let one = seq![seg];
    assert(one.drop_last() =~= Seq::<Segment>::empty());
    assert(one.last() == seg);
    assert(segment_names(Seq::<Segment>::empty()) == Seq::<Seq<char>>::empty());
    assert(assemble(Seq::<Segment>::empty(), Seq::<Seq<char>>::empty()) == Seq::<char>::empty());
    assert(seq![o].drop_last() =~= Seq::<Seq<char>>::empty());
    assert(Seq::<Seq<char>>::empty().push(o) =~= seq![o]);
    assert(Seq::<char>::empty() + o =~= o);
    match seg {
        Segment::Plain(p) => {
            assert(Seq::<char>::empty() + p =~= p);
        },
        Segment::Link(n) => {},
    }
}

/// A page link at the start of a content is rendered as what the renderer
/// gave for its trimmed name, followed by the rendering of the rest: the
/// text after a link is neither dropped nor left unrendered.
pub proof fn law_render_link_then_rest(x: Seq<char>, t: Seq<char>, o: Seq<char>, outs: Seq<Seq<char>>)
    requires
        x.len() > 0,
        forall|k: int| 0 <= k < x.len() ==> #[trigger] x[k] != ']',
        outs.len() == segment_names(segments_from(t, 0)).len(),
    ensures
        segment_names(segments_from(seq!['[', '['] + x + seq![']', ']'] + t, 0)) == seq![trim(x)]
            + segment_names(segments_from(t, 0)),
        assemble(segments_from(seq!['[', '['] + x + seq![']', ']'] + t, 0), seq![o] + outs) == o
            + assemble(segments_from(t, 0), outs),
{
    let w = seq!['[', '['] + x + seq![']', ']'];
    let s = w + t;
    let j: int = x.len() as int + 2;
    assert forall|k: int| 2 <= k < j implies #[trigger] s[k] != ']' by {
        assert(s[k] == x[k - 2]);
    }
    assert(s[j] == ']');
    crate::text::lemma_first_of_at(s, ']', 2, j);
    assert(s[j + 1] == ']');
    assert(s[0] == '[' && s[1] == '[');
    assert(link_close(s, 0) == Some(j));
    assert(s.subrange(2, j) =~= x);
    lemma_segments_shift(w, t, 0);
    assert(w.len() == j + 2);
    let one = seq![Segment::Link(trim(x))];
    assert(segments_from(s, 0) == one + segments_from(t, 0));
    lemma_segment_names_concat(one, segments_from(t, 0));
    lemma_single_segment(Segment::Link(trim(x)), o);
    lemma_assemble_concat(one, segments_from(t, 0), seq![o], outs);
}

/// A character that starts no page link is kept as it is, followed by the
/// rendering of the rest.
pub proof fn law_render_plain_char_then_rest(c: char, t: Seq<char>, outs: Seq<Seq<char>>)
    requires
        link_close(seq![c] + t, 0) is None,
        outs.len() == segment_names(segments_from(t, 0)).len(),
    ensures
        segment_names(segments_from(seq![c] + t, 0)) == segment_names(segments_from(t, 0)),
        assemble(segments_from(seq![c] + t, 0), outs) == seq![c] + assemble(segments_from(t, 0), outs),
{
    let s = seq![c] + t;
    lemma_segments_shift(seq![c], t, 0);
    let one = seq![Segment::Plain(seq![c])];
    assert(s.subrange(0, 1) =~= seq![c]);
    assert(segments_from(s, 0) == one + segments_from(t, 0));
    lemma_segment_names_concat(one, segments_from(t, 0));
    lemma_single_segment(Segment::Plain(seq![c]), seq![]);
    assert(Seq::<Seq<char>>::empty() + segment_names(segments_from(t, 0)) =~= segment_names(
        segments_from(t, 0),
    ));
    lemma_assemble_concat(one, segments_from(t, 0), Seq::empty(), outs);
    assert(Seq::<Seq<char>>::empty() + outs =~= outs);
}

proof fn lemma_render_without_links_from(s: Seq<char>, i: int)
    requires
        0 <= i <= s.len(),
        forall|k: int| 0 <= k < s.len() ==> #[trigger] link_close(s, k) is None,
    ensures
        segment_names(segments_from(s, i)).len() == 0,
        assemble(segments_from(s, i), Seq::empty()) == s.subrange(i, s.len() as int),
    decreases s.len() - i,
{
    if i < s.len() {
        assert(link_close(s, i) is None);
        lemma_render_without_links_from(s, i + 1);
        let one = seq![Segment::Plain(s.subrange(i, i + 1))];
        let rest = segments_from(s, i + 1);
        assert(segments_from(s, i) == one + rest);
        lemma_segment_names_concat(one, rest);
        lemma_single_segment(Segment::Plain(s.subrange(i, i + 1)), seq![]);
        lemma_assemble_concat(one, rest, Seq::empty(), Seq::empty());
        assert(Seq::<Seq<char>>::empty() + Seq::<Seq<char>>::empty() =~= Seq::<Seq<char>>::empty());
        assert(s.subrange(i, s.len() as int) =~= s.subrange(i, i + 1) + s.subrange(i + 1, s.len() as int));
    }
}

/// A content without page links has nothing to render and comes out
/// exactly as it went in.
pub proof fn law_render_without_links_unchanged(s: Seq<char>)
    requires
        forall|k: int| 0 <= k < s.len() ==> #[trigger] link_close(s, k) is None,
    ensures
        segment_names(segments_from(s, 0)).len() == 0,
        assemble(segments_from(s, 0), Seq::empty()) == s,
{
    lemma_render_without_links_from(s, 0);
    assert(s.subrange(0, s.len() as int) =~= s);
}

/// `out` is what the renderer may return for a link named `name`.
pub open spec fn renders<F: Fn(&str) -> String>(f: F, name: Seq<char>, out: Seq<char>) -> bool {
    exists|x: &str, r: String| x@ == name && r@ == out && #[trigger] call_ensures(f, (x,), r)
}

/// Replace each page link with what the renderer returns for its trimmed
/// name; all other text is kept.
pub fn render_page_links<F: Fn(&str) -> String>(content: &str, link_renderer: F) -> (res: String)
    requires
        forall|x: &str| #[trigger] call_requires(link_renderer, (x,)),
    ensures
        exists|outs: Seq<Seq<char>>|
            {
                &&& outs.len() == segment_names(segments_from(content@, 0)).len()
                &&& forall|k: int|
                    0 <= k < outs.len() ==> renders(
                        link_renderer,
                        segment_names(segments_from(content@, 0))[k],
                        #[trigger] outs[k],
                    )
                &&& res@ == assemble(segments_from(content@, 0), outs)
            },
{
    let s = chars_of(content);
    let mut out: Vec<char> = Vec::new();
    let ghost mut segs: Seq<Segment> = Seq::empty();
    let ghost mut outs: Seq<Seq<char>> = Seq::empty();
    let mut i: usize = 0;
    while i < s.len()
        invariant
            forall|x: &str| #[trigger] call_requires(link_renderer, (x,)),
            segs + segments_from(s@, i as int) == segments_from(s@, 0),
            outs.len() == segment_names(segs).len(),
            forall|k: int|
                0 <= k < outs.len() ==> renders(
                    link_renderer,
                    segment_names(segs)[k],
                    #[trigger] outs[k],
                ),
            out@ == assemble(segs, outs),
        decreases s@.len() - i,
    {
        match link_close_exec(s.as_slice(), i) {
            Some(j) => {
                proof {
                    lemma_link_close(s@, i as int);
                }
                let inner = slice_chars(s.as_slice(), i + 2, j);
                let name = trim_chars(inner.as_slice());
                let name_str = string_from(name.as_slice());
                let name_ref: &str = name_str.as_str();
                let r = link_renderer(name_ref);
                extend_chars(&mut out, chars_of(r.as_str()).as_slice());
                proof {
                    let seg = Segment::Link(name@);
                    assert(segs.push(seg) + segments_from(s@, j + 2) =~= segs + segments_from(
                        s@,
                        i as int,
                    ));
                    let nsegs = segs.push(seg);
                    let nouts = outs.push(r@);
                    assert(nsegs.drop_last() =~= segs);
                    assert(nouts.drop_last() =~= outs);
                    assert(segment_names(nsegs) == segment_names(segs).push(name@));
                    assert(assemble(nsegs, nouts) == assemble(segs, outs) + r@);
                    assert(renders(link_renderer, name@, r@)) by {
                        assert(name_ref@ == name@);
                    }
                    assert forall|k: int| 0 <= k < nouts.len() implies renders(
                        link_renderer,
                        segment_names(nsegs)[k],
                        #[trigger] nouts[k],
                    ) by {
                        if k < outs.len() {
                            assert(nouts[k] == outs[k]);
                            assert(segment_names(nsegs)[k] == segment_names(segs)[k]);
                        }
                    }
                    segs = nsegs;
                    outs = nouts;
                }
                i = j + 2;
            },
            None => {
                let ch = s[i];
                out.push(ch);
                proof {
                    let seg = Segment::Plain(s@.subrange(i as int, i + 1));
                    assert(s@.subrange(i as int, i + 1) =~= seq![ch]);
                    assert(segs.push(seg) + segments_from(s@, i + 1) =~= segs + segments_from(
                        s@,
                        i as int,
                    ));
                    let nsegs = segs.push(seg);
                    assert(nsegs.drop_last() =~= segs);
                    assert(segment_names(nsegs) == segment_names(segs));
                    assert(assemble(nsegs, outs) =~= assemble(segs, outs).push(ch));
                    segs = nsegs;
                }
                i = i + 1;
            },
        }
    }
    assert(segments_from(s@, i as int) =~= Seq::<Segment>::empty());
    assert(segs =~= segments_from(s@, 0));
    string_from(out.as_slice())
}

} // verus!

verus! {

/// A character that an ASCII page path holds: a lowercase ASCII letter,
/// an ASCII digit, `-`, `_` or `/`.
pub open spec fn lower_path_char(c: char) -> bool {
    ('a' <= c && c <= 'z') || ('0' <= c && c <= '9') || c == '-' || c == '_' || c == '/'
}

proof fn lemma_ascii_slug_chars_lower(l: Seq<char>)
    requires
        forall|k: int| 0 <= k < l.len() ==> !('A' <= #[trigger] l[k] && l[k] <= 'Z'),
    ensures
        forall|k: int| 0 <= k < ascii_slug_chars(l).len() ==> lower_path_char(#[trigger] ascii_slug_chars(l)[k]),
    decreases l.len(),
{
    if l.len() > 0 {
        let d = l.drop_last();
        assert forall|k: int| 0 <= k < d.len() implies !('A' <= #[trigger] d[k] && d[k] <= 'Z') by {
            assert(d[k] == l[k]);
        }
        lemma_ascii_slug_chars_lower(d);
        let a = ascii_slug_chars(d);
        let b = ascii_slug_piece(l.last());
        assert(!('A' <= l[l.len() - 1] && l[l.len() - 1] <= 'Z'));
        assert forall|k: int| 0 <= k < ascii_slug_chars(l).len() implies lower_path_char(
            #[trigger] ascii_slug_chars(l)[k],
        ) by {
            if k >= a.len() {
                assert(ascii_slug_chars(l)[k] == b[k - a.len()]);
            } else {
                assert(ascii_slug_chars(l)[k] == a[k]);
            }
        }
    }
}

proof fn lemma_ascii_slug_chars_fixed(y: Seq<char>)
    requires
        forall|k: int| 0 <= k < y.len() ==> lower_path_char(#[trigger] y[k]),
    ensures
        ascii_slug_chars(y) == y,
    decreases y.len(),
{
    if y.len() > 0 {
        let d = y.drop_last();
        assert forall|k: int| 0 <= k < d.len() implies lower_path_char(#[trigger] d[k]) by {
            assert(d[k] == y[k]);
        }
        lemma_ascii_slug_chars_fixed(d);
        assert(lower_path_char(y[y.len() - 1]));
        assert(ascii_slug_piece(y.last()) =~= seq![y.last()]);
        assert(d + seq![y.last()] =~= y);
    }
}

/// The path of an ASCII page name is ASCII and is its own path: turning a
/// page name into a path a second time changes nothing.
pub proof fn law_ascii_page_path_idempotent(name: Seq<char>)
    requires
        crate::text::all_ascii(name),
    ensures
        crate::text::all_ascii(ascii_page_path(name)),
        ascii_page_path(ascii_page_path(name)) == ascii_page_path(name),
{
    let low = trim(name).map_values(|c: char| crate::text::ascii_lower_char(c));
    assert forall|k: int| 0 <= k < low.len() implies !('A' <= #[trigger] low[k] && low[k] <= 'Z') by {
        let c = trim(name)[k];
        assert(low[k] == crate::text::ascii_lower_char(c));
        if 'A' <= c && c <= 'Z' {
            assert(((c as u32) + 32) as char == low[k]);
            assert((low[k] as u32) == (c as u32) + 32);
        }
    }
    lemma_ascii_slug_chars_lower(low);
    let sc = ascii_slug_chars(low);
    let y = trim_matches(sc, '-');
    lemma_trim_matches_ends(sc, '-');
    lemma_skip_c_bounds(sc, '-', 0);
    lemma_back_c_bounds(sc, '-', skip_c(sc, '-', 0), sc.len() as int);
    assert forall|k: int| 0 <= k < y.len() implies lower_path_char(#[trigger] y[k]) by {
        let idx = skip_c(sc, '-', 0) + k;
        assert(0 <= idx < sc.len());
        assert(y[k] == sc[idx]);
        assert(lower_path_char(ascii_slug_chars(low)[idx]));
    }
    assert(crate::text::all_ascii(y)) by {
        assert forall|k: int| 0 <= k < y.len() implies (#[trigger] y[k] as u32) < 128 by {
            assert(lower_path_char(y[k]));
        }
    }
    // trimming whitespace leaves y as it is
    assert(forall|k: int| 0 <= k < y.len() ==> !is_ws(#[trigger] y[k])) by {
        assert forall|k: int| 0 <= k < y.len() implies !is_ws(#[trigger] y[k]) by {
            assert(lower_path_char(y[k]));
        }
    }
    if y.len() > 0 {
        assert(!is_ws(y[0]));
        assert(skip_ws(y, 0) == 0);
        assert(!is_ws(y[y.len() - 1]));
        assert(back_ws(y, 0, y.len() as int) == y.len());
    }
    assert(trim(y) =~= y);
    // lowercasing leaves y as it is
    let ylow = trim(y).map_values(|c: char| crate::text::ascii_lower_char(c));
    assert(ylow =~= y) by {
        assert forall|k: int| 0 <= k < y.len() implies ylow[k] == y[k] by {
            assert(lower_path_char(y[k]));
        }
    }
    lemma_ascii_slug_chars_fixed(y);
    // and so does trimming dashes
    if y.len() > 0 {
        assert(y[0] != '-' && y.last() != '-');
        assert(skip_c(y, '-', 0) == 0);
        assert(crate::text::back_c(y, '-', 0, y.len() as int) == y.len());
    }
    assert(trim_matches(y, '-') =~= y);
}


/// The characters of a path: each is a letter, digit, `-`, `_` or `/`,
/// none is a space, and no dash stands at either end.
proof fn lemma_path_slug_facts(lower: Seq<char>)
    ensures
        forall|k: int| 0 <= k < path_slug(lower).len() ==> path_char(#[trigger] path_slug(lower)[k])
            && path_slug(lower)[k] != ' ',
        path_slug(lower).len() > 0 ==> path_slug(lower)[0] != '-' && path_slug(lower).last() != '-',
{
    let sc = slug_chars(lower);
    lemma_slug_chars(lower);
    lemma_trim_matches_ends(sc, '-');
    lemma_skip_c_bounds(sc, '-', 0);
    lemma_back_c_bounds(sc, '-', skip_c(sc, '-', 0), sc.len() as int);
    let p = path_slug(lower);
    assert forall|k: int| 0 <= k < p.len() implies path_char(#[trigger] p[k]) && p[k] != ' ' by {
        let idx = skip_c(sc, '-', 0) + k;
        assert(0 <= idx < sc.len());
        assert(p[k] == sc[idx]);
    }
}

/// A text of path characters without spaces maps to itself.
proof fn lemma_slug_chars_fixed(p: Seq<char>)
    requires
        forall|k: int| 0 <= k < p.len() ==> path_char(#[trigger] p[k]) && p[k] != ' ',
    ensures
        slug_chars(p) == p,
    decreases p.len(),
{
    if p.len() > 0 {
        let q = p.drop_last();
        assert forall|k: int| 0 <= k < q.len() implies path_char(#[trigger] q[k]) && q[k] != ' ' by {
            assert(q[k] == p[k]);
        }
        lemma_slug_chars_fixed(q);
        assert(path_char(p[p.len() - 1]) && p[p.len() - 1] != ' ');
        assert(slug_piece(p.last()) =~= seq![p.last()]);
        assert(q + seq![p.last()] =~= p);
    }
}

/// Turning a page's path into a path again gives the same path, for every
/// page name, whenever lowercasing the trimmed path leaves it as it is
/// (the ASCII case is `law_ascii_page_path_idempotent`).
pub proof fn law_page_path_idempotent(name: Seq<char>)
    ensures
        ({
            let p = path_slug(lowercase_of(trim(name)));
            lowercase_of(trim(p)) == p ==> path_slug(lowercase_of(trim(p))) == p
        }),
{
    let p = path_slug(lowercase_of(trim(name)));
    if lowercase_of(trim(p)) == p {
        lemma_path_slug_facts(lowercase_of(trim(name)));
        lemma_slug_chars_fixed(p);
        if p.len() > 0 {
            assert(p[0] != '-' && p.last() != '-');
            assert(skip_c(p, '-', 0) == 0);
            assert(crate::text::back_c(p, '-', 0, p.len() as int) == p.len());
        }
        assert(trim_matches(p, '-') =~= p);
    }
}

} // verus!
