//! General helpers: identifiers, time, page titles and paths, hashing and
//! text utilities.
use vstd::prelude::*;
use vstd::std_specs::hash::DefaultHasherAdditionalSpecFns;
use vstd::string::StringSliceAdditionalSpecFns;
use vstd::utf8::{decode_utf8, encode_utf8, is_char_boundary};
use std::collections::hash_map::DefaultHasher;
use std::hash::Hasher;
use chrono::Datelike;
use crate::text::{
    blen, chars_of, contains, contains_char, contains_exec, decimal, decimal_chars, ends_with,
    ends_with_exec, extend_chars, is_ascii_alnum, is_ascii_digit, is_ascii_digit_exec, is_ws,
    last_of, last_of_exec, lemma_last_of, lowercase_of, slice_chars, starts_with,
    starts_with_exec, str_byte_len, string_from, string_views, to_lowercase, trim, trim_chars,
};
use crate::links::prefix_bytes;

verus! {

broadcast use vstd::string::group_string_axioms;

// ------------------------------------------------------------------
// Identifiers and time
// ------------------------------------------------------------------

/// A lowercase hexadecimal digit.
pub open spec fn lower_hex(c: char) -> bool {
    ('0' <= c && c <= '9') || ('a' <= c && c <= 'f')
}

/// The text of a version 4 UUID: 36 characters, hyphens at 8, 13, 18 and
/// 23, lowercase hexadecimal digits elsewhere, version digit `4` and a
/// variant digit among `8`, `9`, `a`, `b`.
pub open spec fn uuid_v4_text(s: Seq<char>) -> bool {
    &&& s.len() == 36
    &&& forall|i: int|
        0 <= i < 36 ==> if i == 8 || i == 13 || i == 18 || i == 23 {
            #[trigger] s[i] == '-'
        } else {
            lower_hex(s[i])
        }
    &&& s[14] == '4'
    &&& (s[19] == '8' || s[19] == '9' || s[19] == 'a' || s[19] == 'b')
}

/// `uuid::Uuid::new_v4().to_string()`: a random UUID in its hyphenated
/// lowercase form.  Which UUID comes is left open.
#[verifier::external_body]
fn new_uuid_v4_text() -> (r: String)
    ensures
        uuid_v4_text(r@),
{
    uuid::Uuid::new_v4().to_string()
}

/// Generate a random UUID v4 string.
pub fn generate_uuid() -> (res: String)
    ensures
        uuid_v4_text(res@),
{
    new_uuid_v4_text()
}

/// `chrono::Utc::now().timestamp_micros()`: the current time, in
/// microseconds since the Unix epoch.  Which time comes is left open.
#[verifier::external_body]
fn utc_now_micros() -> (r: i64) {
    chrono::Utc::now().timestamp_micros()
}

/// The current time, in microseconds since the Unix epoch (UTC).
pub fn now() -> (res: i64) {
    utc_now_micros()
}

/// What `chrono` writes as `%Y-%m-%d` for the UTC date of a time given in
/// microseconds since the epoch, when it can represent that time.
pub uninterp spec fn utc_date_text(micros: i64) -> Option<Seq<char>>;

/// `chrono::DateTime::from_timestamp_micros` then `format("%Y-%m-%d")`.
/// The text is a function of the time alone; it is not stated which text,
/// nor for which times `chrono` has a date.
#[verifier::external_body]
fn utc_date_of_micros(micros: i64) -> (r: Option<String>)
    ensures
        match r {
            Some(s) => utc_date_text(micros) == Some(s@),
            None => utc_date_text(micros) is None,
        },
{
    match chrono::DateTime::from_timestamp_micros(micros) {
        Some(d) => Some(d.format("%Y-%m-%d").to_string()),
        None => None,
    }
}

/// Format the UTC date of a time (microseconds since the epoch) as
/// `YYYY-MM-DD`; `None` for a time that has no calendar date.
pub fn format_date_path(micros: i64) -> (res: Option<String>)
    ensures
        match res {
            Some(s) => utc_date_text(micros) == Some(s@),
            None => utc_date_text(micros) is None,
        },
{
    utc_date_of_micros(micros)
}

// ------------------------------------------------------------------
// Calendar months
// ------------------------------------------------------------------

/// The first year of the calendar that `chrono` represents.
pub const MIN_CALENDAR_YEAR: i32 = -262143;

/// The last year of the calendar that `chrono` represents.
pub const MAX_CALENDAR_YEAR: i32 = 262142;

/// Whether a year of the proleptic Gregorian calendar is a leap year.
pub open spec fn is_leap_year(y: int) -> bool {
    (y % 4 == 0 && y % 100 != 0) || y % 400 == 0
}

/// The number of days of month `m` (1 to 12) of year `y` in the proleptic
/// Gregorian calendar.
pub open spec fn month_length(y: int, m: int) -> int {
    if m == 2 {
        if is_leap_year(y) {
            29
        } else {
            28
        }
    } else if m == 4 || m == 6 || m == 9 || m == 11 {
        30
    } else {
        31
    }
}

/// `NaiveDate::from_ymd_opt(year, month, 1)`, less one day, then its day of
/// the month: the length of the month before `month` of `year` (December
/// of the year before for January), as the proleptic Gregorian calendar
/// that `chrono` documents has it.
#[verifier::external_body]
fn last_day_before(year: i32, month: u32) -> (r: u32)
    requires
        1 <= month <= 12,
        MIN_CALENDAR_YEAR <= year <= MAX_CALENDAR_YEAR,
        !(year == MIN_CALENDAR_YEAR && month == 1),
    ensures
        r == if month == 1 {
            month_length(year - 1, 12)
        } else {
            month_length(year as int, month - 1)
        },
{
    let first = chrono::NaiveDate::from_ymd_opt(year, month, 1).unwrap();
    (first - chrono::Duration::days(1)).day()
}

/// The number of days in `month` of `year`: the day before the first of
/// the next month (so month 0 counts as the December before). The year of
/// that next month must be one that `chrono` represents, and not its first
/// January.
pub fn days_in_month(year: i32, month: u32) -> (res: u32)
    requires
        month <= 12,
        MIN_CALENDAR_YEAR <= year,
        month < 12 ==> year <= MAX_CALENDAR_YEAR,
        month == 12 ==> year < MAX_CALENDAR_YEAR,
        month == 0 ==> year > MIN_CALENDAR_YEAR,
    ensures
        res == if month == 0 {
            31
        } else {
            month_length(year as int, month as int)
        },
{
    let (ny, nm) = if month == 12 {
        (year + 1, 1)
    } else {
        (year, month + 1)
    };
    last_day_before(ny, nm)
}

/// The day shown in cell `col` of row `row` of a month grid whose first
/// day falls on weekday `first` (0 for Monday) and which has `days` days.
pub open spec fn calendar_cell(first: int, days: int, row: int, col: int) -> Option<u32> {
    let idx = row * 7 + col;
    if idx >= first && idx - first + 1 <= days {
        Some((idx - first + 1) as u32)
    } else {
        None
    }
}

/// The number of rows of a month grid: as many weeks as the month
/// reaches into, at least one and at most six.
pub open spec fn calendar_row_count(first: int, days: int) -> int {
    if first + days <= 7 {
        1
    } else if first + days <= 14 {
        2
    } else if first + days <= 21 {
        3
    } else if first + days <= 28 {
        4
    } else if first + days <= 35 {
        5
    } else {
        6
    }
}

/// The grid of a calendar month, Monday first: rows of seven cells, each
/// the day shown there or none, until the last day is shown (six rows at
/// most).
pub fn calendar_rows(first_weekday: u32, days: u32) -> (res: Vec<Vec<Option<u32>>>)
    requires
        first_weekday < 7,
        days <= 31,
    ensures
        res@.len() == calendar_row_count(first_weekday as int, days as int),
        forall|r: int|
            0 <= r < res@.len() ==> (#[trigger] res@[r])@.len() == 7 && forall|c: int|
                0 <= c < 7 ==> res@[r]@[c] == calendar_cell(
                    first_weekday as int,
                    days as int,
                    r,
                    c,
                ),
{
    let mut rows: Vec<Vec<Option<u32>>> = Vec::new();
    let mut day: u32 = 1;
    let mut row: u32 = 0;
    while row < 6
        invariant_except_break
            day == (if 7 * row >= first_weekday {
                if 7 * row - first_weekday <= days {
                    7 * row - first_weekday + 1
                } else {
                    days + 1
                }
            } else {
                1
            }),
            row == 0 || first_weekday + days > 7 * row,
        invariant
            first_weekday < 7,
            days <= 31,
            row <= 6,
            rows@.len() == row,
            forall|r: int|
                0 <= r < rows@.len() ==> (#[trigger] rows@[r])@.len() == 7 && forall|c: int|
                    0 <= c < 7 ==> rows@[r]@[c] == calendar_cell(
                        first_weekday as int,
                        days as int,
                        r,
                        c,
                    ),
        ensures
            rows@.len() == calendar_row_count(first_weekday as int, days as int),
        decreases 6 - row,
    {
        let mut cells: Vec<Option<u32>> = Vec::new();
        let mut col: u32 = 0;
        while col < 7
            invariant
                first_weekday < 7,
                days <= 31,
                row < 6,
                col <= 7,
                cells@.len() == col,
                day == (if 7 * row + col >= first_weekday {
                    if 7 * row + col - first_weekday <= days {
                        7 * row + col - first_weekday + 1
                    } else {
                        days + 1
                    }
                } else {
                    1
                }),
                forall|c: int|
                    0 <= c < col ==> cells@[c] == calendar_cell(
                        first_weekday as int,
                        days as int,
                        row as int,
                        c,
                    ),
            decreases 7 - col,
        {
            let cell_index = row * 7 + col;
            if cell_index >= first_weekday && day <= days {
                cells.push(Some(day));
                day = day + 1;
            } else {
                cells.push(None);
            }
            col = col + 1;
        }
        rows.push(cells);
        row = row + 1;
        if day > days {
            break;
        }
    }
    rows
}

// ------------------------------------------------------------------
// Dates, titles and paths
// ------------------------------------------------------------------

/// The text is a date `YYYY-MM-DD`: ten characters, `-` at 4 and 7, ASCII
/// digits elsewhere.
pub open spec fn date_text(s: Seq<char>) -> bool {
    &&& s.len() == 10
    &&& forall|i: int|
        0 <= i < 10 ==> if i == 4 || i == 7 {
            #[trigger] s[i] == '-'
        } else {
            is_ascii_digit(s[i])
        }
}

/// Whether the text is a date `YYYY-MM-DD`.
pub fn is_date_text(s: &[char]) -> (res: bool)
    ensures
        res == date_text(s@),
{
    if s.len() != 10 {
        return false;
    }
    let mut i: usize = 0;
    while i < 10
        invariant
            s@.len() == 10,
            i <= 10,
            forall|k: int|
                0 <= k < i ==> if k == 4 || k == 7 {
                    #[trigger] s@[k] == '-'
                } else {
                    is_ascii_digit(s@[k])
                },
        decreases 10 - i,
    {
        let ok = if i == 4 || i == 7 {
            s[i] == '-'
        } else {
            is_ascii_digit_exec(s[i])
        };
        if !ok {
            return false;
        }
        i = i + 1;
    }
    true
}

/// Check if a string is a date path (`YYYY-MM-DD`): ten bytes, two
/// hyphens, and parts of four, two and two ASCII digits.
pub fn is_date_path(path: &str) -> (res: bool)
    ensures
        res == date_text(path@),
{
    let s = chars_of(path);
    is_date_text(s.as_slice())
}

/// A page title is acceptable: not empty, at most 255 bytes, on one line.
pub open spec fn valid_page_title(t: Seq<char>) -> bool {
    t.len() > 0 && blen(t) <= 255 && !t.contains('\n') && !t.contains('\r')
}

/// Validate that a page title is acceptable.
pub fn is_valid_page_title(title: &str) -> (res: bool)
    ensures
        res == valid_page_title(title@),
{
    let s = chars_of(title);
    s.len() > 0 && str_byte_len(title) <= 255 && !contains_char(s.as_slice(), '\n')
        && !contains_char(s.as_slice(), '\r')
}

/// A page path is acceptable: not empty, at most 500 bytes, on one line,
/// no `/` at either end and no `//`.
pub open spec fn valid_page_path(p: Seq<char>) -> bool {
    &&& p.len() > 0
    &&& blen(p) <= 500
    &&& !p.contains('\n')
    &&& !p.contains('\r')
    &&& !starts_with(p, seq!['/'])
    &&& !ends_with(p, seq!['/'])
    &&& !contains(p, seq!['/', '/'])
}

/// Validate that a page path is acceptable.
pub fn is_valid_page_path(path: &str) -> (res: bool)
    ensures
        res == valid_page_path(path@),
{
    let s = chars_of(path);
    let sl: [char; 1] = ['/'];
    let dsl: [char; 2] = ['/', '/'];
    let sl: &[char] = &sl;
    let dsl: &[char] = &dsl;
    assert(sl@ =~= seq!['/']);
    assert(dsl@ =~= seq!['/', '/']);
    s.len() > 0 && str_byte_len(path) <= 500 && !contains_char(s.as_slice(), '\n')
        && !contains_char(s.as_slice(), '\r') && !starts_with_exec(s.as_slice(), sl)
        && !ends_with_exec(s.as_slice(), sl) && !contains_exec(s.as_slice(), dsl)
}

/// The text without NUL characters and byte-order marks.
pub open spec fn without_nul_bom(s: Seq<char>) -> Seq<char>
    decreases s.len(),
{
    if s.len() == 0 {
        s
    } else if s.last() == '\0' || s.last() == '\u{FEFF}' {
        without_nul_bom(s.drop_last())
    } else {
        without_nul_bom(s.drop_last()).push(s.last())
    }
}

/// Sanitize user input for storage: drop NUL characters and byte-order
/// marks, then trim whitespace.
pub fn sanitize_string(input: &str) -> (res: String)
    ensures
        res@ == trim(without_nul_bom(input@)),
{
    let s = chars_of(input);
    let mut kept: Vec<char> = Vec::new();
    let mut i: usize = 0;
    while i < s.len()
        invariant
            i <= s@.len(),
            kept@ == without_nul_bom(s@.take(i as int)),
        decreases s@.len() - i,
    {
        proof {
            assert(s@.take(i + 1).drop_last() =~= s@.take(i as int));
        }
        let c = s[i];
        if c != '\0' && c != '\u{FEFF}' {
            kept.push(c);
        }
        i = i + 1;
    }
    assert(s@.take(s@.len() as int) =~= s@);
    string_from(trim_chars(kept.as_slice()).as_slice())
}

/// The parent of a slash-separated path: the text before its last `/`.
pub open spec fn parent_of(p: Seq<char>) -> Option<Seq<char>> {
    match last_of(p, '/', 0, p.len() as int) {
        Some(k) => Some(p.take(k)),
        None => None,
    }
}

/// The parent of a slash-separated path, as a character vector.
pub fn parent_chars(p: &[char]) -> (res: Option<Vec<char>>)
    ensures
        match res {
            Some(v) => parent_of(p@) == Some(v@),
            None => parent_of(p@) is None,
        },
{
    match last_of_exec(p, '/', 0, p.len()) {
        Some(k) => {
            proof {
                lemma_last_of(p@, '/', 0, p@.len() as int);
            }
            Some(slice_chars(p, 0, k))
        },
        None => None,
    }
}

/// Get the parent directory of a path: the text before its last `/`.
pub fn get_parent_dir(path: &str) -> (res: Option<String>)
    ensures
        match res {
            Some(v) => parent_of(path@) == Some(v@),
            None => parent_of(path@) is None,
        },
{
    let s = chars_of(path);
    match parent_chars(s.as_slice()) {
        Some(v) => Some(string_from(v.as_slice())),
        None => None,
    }
}

// ------------------------------------------------------------------
// Hashing
// ------------------------------------------------------------------

/// The hash of a string: `str::hash` writes the string's bytes and then a
/// `0xFF` byte to the hasher.
pub open spec fn content_hash(s: Seq<char>) -> u64 {
    DefaultHasher::spec_finish(seq![encode_utf8(s), seq![0xFFu8]])
}

/// Calculate a hash of the content (for change detection), as
/// `content.hash(&mut DefaultHasher::new())` then `finish()` computes it.
pub fn simple_hash(content: &str) -> (res: u64)
    ensures
        res == content_hash(content@),
{
    let mut hasher = DefaultHasher::new();
    let bytes = content.as_bytes();
    hasher.write(bytes);
    let end: [u8; 1] = [0xFFu8];
    let e: &[u8] = &end;
    hasher.write(e);
    proof {
        vstd::utf8::encode_utf8_decode_utf8(content@);
        assert(e@ =~= seq![0xFFu8]);
        assert(hasher@ =~= seq![encode_utf8(content@), seq![0xFFu8]]);
    }
    hasher.finish()
}

/// Equal contents hash equally, so an unchanged content is never reported
/// as changed.
pub proof fn law_hash_deterministic(a: Seq<char>, b: Seq<char>)
    requires
        a == b,
    ensures
        content_hash(a) == content_hash(b),
{
}

// ------------------------------------------------------------------
// Text helpers
// ------------------------------------------------------------------

/// The text cut to `max_len` bytes: the text itself when it fits, else its
/// first `max_len - 3` bytes followed by `...`; when `max_len < 3` there is
/// room for the dots alone, and the result is the first `max_len` of them.
pub open spec fn truncated(s: Seq<char>, max_len: int) -> Seq<char> {
    if blen(s) <= max_len {
        s
    } else if max_len >= 3 {
        prefix_bytes(s, max_len - 3) + "..."@
    } else {
        "..."@.take(max_len)
    }
}

/// Each of the first `k` dots of `...` takes one byte.
proof fn lemma_dots_blen(k: int)
    requires
        0 <= k <= 3,
    ensures
        "..."@.len() == 3,
        blen("..."@.take(k)) == k,
{
    reveal_strlit("...");
    crate::text::lemma_blen_single('.');
    assert(blen(seq!['.']) == 1) by {
        vstd::utf8::char_u32_cast('.', 46u32);
    }
    let d = "..."@;
    assert(d.take(0) =~= Seq::<char>::empty());
    assert(d.take(1) =~= seq!['.']);
    assert(d.take(2) =~= seq!['.'] + seq!['.']);
    assert(d.take(3) =~= seq!['.'] + seq!['.'] + seq!['.']);
    crate::text::lemma_blen_concat(seq!['.'], seq!['.']);
    crate::text::lemma_blen_concat(seq!['.'] + seq!['.'], seq!['.']);
}

/// Truncate text to `max_len` bytes with an ellipsis: the result is never
/// longer than `max_len` bytes.  The cut must fall on a character boundary.
pub fn truncate_text(text: &str, max_len: usize) -> (res: String)
    requires
        blen(text@) <= max_len || is_char_boundary(
            text.spec_bytes(),
            if max_len >= 3 {
                max_len - 3
            } else {
                0
            },
        ),
    ensures
        res@ == truncated(text@, max_len as int),
        blen(res@) <= max_len,
{
    let n = str_byte_len(text);
    if n <= max_len {
        return string_from(chars_of(text).as_slice());
    }
    let dots = chars_of("...");
    proof {
        lemma_dots_blen(3);
    }
    if max_len < 3 {
        proof {
            lemma_dots_blen(max_len as int);
        }
        return string_from(slice_chars(dots.as_slice(), 0, max_len).as_slice());
    }
    let cut = max_len - 3;
    proof {
        vstd::utf8::encode_utf8_decode_utf8(text@);
        assert(text.spec_bytes() == encode_utf8(text@));
        assert(blen(text@) == encode_utf8(text@).len());
    }
    let (head, _tail) = text.split_at(cut);
    proof {
        vstd::utf8::encode_utf8_decode_utf8(head@);
        assert(head@ == prefix_bytes(text@, cut as int));
        assert(blen(head@) == cut);
        assert(dots@.take(3) =~= dots@);
    }
    let mut out = chars_of(head);
    extend_chars(&mut out, dots.as_slice());
    proof {
        crate::text::lemma_blen_concat(head@, dots@);
    }
    string_from(out.as_slice())
}

/// The label of a time `ts` seen at `now` (both in microseconds): under a
/// minute `just now`, then whole minutes, hours or days ago, from a week on
/// the date.
pub open spec fn relative_label(ts: i64, now: i64) -> Option<Seq<char>> {
    let d = now - ts;
    if d < 60_000_000 {
        Some("just now"@)
    } else if d < 3_600_000_000 {
        Some(decimal((d / 60_000_000) as nat) + "m ago"@)
    } else if d < 86_400_000_000 {
        Some(decimal((d / 3_600_000_000) as nat) + "h ago"@)
    } else if d < 604_800_000_000 {
        Some(decimal((d / 86_400_000_000) as nat) + "d ago"@)
    } else {
        utc_date_text(ts)
    }
}

fn count_ago(d: i128, unit: i128, suffix: &str) -> (r: String)
    requires
        unit > 0,
        0 <= d < 604_800_000_000,
    ensures
        r@ == decimal((d / unit) as nat) + suffix@,
{
    let q = (d / unit) as u64;
    let mut out = decimal_chars(q);
    extend_chars(&mut out, chars_of(suffix).as_slice());
    string_from(out.as_slice())
}

/// The label of a time seen at another: `None` only for a time a week or
/// more back that has no calendar date.
pub fn relative_time_label(timestamp: i64, now: i64) -> (res: Option<String>)
    ensures
        match res {
            Some(s) => relative_label(timestamp, now) == Some(s@),
            None => relative_label(timestamp, now) is None,
        },
{
    let d: i128 = now as i128 - timestamp as i128;
    if d < 60_000_000 {
        Some(string_from(chars_of("just now").as_slice()))
    } else if d < 3_600_000_000 {
        Some(count_ago(d, 60_000_000, "m ago"))
    } else if d < 86_400_000_000 {
        Some(count_ago(d, 3_600_000_000, "h ago"))
    } else if d < 604_800_000_000 {
        Some(count_ago(d, 86_400_000_000, "d ago"))
    } else {
        format_date_path(timestamp)
    }
}

/// Convert a time (microseconds since the epoch) to a human-readable label
/// relative to now.
pub fn format_relative_time(timestamp: i64) -> (res: Option<String>)
    ensures
        exists|now: i64|
            match res {
                Some(s) => relative_label(timestamp, now) == Some(s@),
                None => relative_label(timestamp, now) is None,
            },
{
    let now = utc_now_micros();
    relative_time_label(timestamp, now)
}

} // verus!

verus! {

// ------------------------------------------------------------------
// Words for search indexing
// ------------------------------------------------------------------

/// The first index at or after `i` holding whitespace, or the length.
pub open spec fn next_ws(s: Seq<char>, i: int) -> int
    decreases s.len() - i,
{
    if 0 <= i < s.len() && !is_ws(s[i]) {
        next_ws(s, i + 1)
    } else {
        i
    }
}

pub proof fn lemma_next_ws(s: Seq<char>, i: int)
    requires
        0 <= i <= s.len(),
    ensures
        i <= next_ws(s, i) <= s.len(),
    decreases s.len() - i,
{
    if i < s.len() && !is_ws(s[i]) {
        lemma_next_ws(s, i + 1);
    }
}

/// The whitespace-separated words of `s` from index `i` on
/// (`str::split_whitespace`).
pub open spec fn words_from(s: Seq<char>, i: int) -> Seq<Seq<char>>
    decreases s.len() - i,
{
    let b = crate::text::skip_ws(s, i);
    if i < 0 || b >= s.len() || b < i {
        Seq::empty()
    } else {
        let e = next_ws(s, b);
        proof {
            lemma_next_ws(s, b);
        }
        if e <= b {
            Seq::empty()
        } else {
            seq![s.subrange(b, e)] + words_from(s, e)
        }
    }
}

/// The first index at or after `i` holding an alphanumeric character.
pub open spec fn skip_non_alnum(w: Seq<char>, i: int) -> int
    decreases w.len() - i,
{
    if 0 <= i < w.len() && !crate::text::char_alphanumeric(w[i]) {
        skip_non_alnum(w, i + 1)
    } else {
        i
    }
}

/// Walking back from `j` (not below `lo`), the index past the last
/// alphanumeric character.
pub open spec fn back_non_alnum(w: Seq<char>, lo: int, j: int) -> int
    decreases j - lo,
{
    if lo < j && j <= w.len() && !crate::text::char_alphanumeric(w[j - 1]) {
        back_non_alnum(w, lo, j - 1)
    } else {
        j
    }
}

/// A word without the characters that are not alphanumeric at either end.
pub open spec fn alnum_core(w: Seq<char>) -> Seq<char> {
    let a = skip_non_alnum(w, 0);
    w.subrange(a, back_non_alnum(w, a, w.len() as int))
}

/// The indexed form of each word (the alphanumeric core, lowercased),
/// keeping those longer than two bytes (and so not empty).
pub open spec fn index_words(ws: Seq<Seq<char>>) -> Seq<Seq<char>>
    decreases ws.len(),
{
    if ws.len() == 0 {
        Seq::empty()
    } else {
        let w = lowercase_of(alnum_core(ws.last()));
        if blen(w) > 2 {
            index_words(ws.drop_last()).push(w)
        } else {
            index_words(ws.drop_last())
        }
    }
}

proof fn lemma_skip_non_alnum(w: Seq<char>, i: int)
    requires
        0 <= i <= w.len(),
    ensures
        i <= skip_non_alnum(w, i) <= w.len(),
    decreases w.len() - i,
{
    if i < w.len() && !crate::text::char_alphanumeric(w[i]) {
        lemma_skip_non_alnum(w, i + 1);
    }
}

proof fn lemma_back_non_alnum(w: Seq<char>, lo: int, j: int)
    requires
        0 <= lo <= j <= w.len(),
    ensures
        lo <= back_non_alnum(w, lo, j) <= j,
    decreases j - lo,
{
    if lo < j && !crate::text::char_alphanumeric(w[j - 1]) {
        lemma_back_non_alnum(w, lo, j - 1);
    }
}

fn alnum_core_exec(w: &[char]) -> (r: Vec<char>)
    ensures
        r@ == alnum_core(w@),
{
    proof {
        lemma_skip_non_alnum(w@, 0);
    }
    let mut a: usize = 0;
    while a < w.len() && !crate::text::is_alphanumeric(w[a])
        invariant
            a <= w@.len(),
            skip_non_alnum(w@, a as int) == skip_non_alnum(w@, 0),
        decreases w@.len() - a,
    {
        a = a + 1;
    }
    proof {
        lemma_back_non_alnum(w@, a as int, w@.len() as int);
    }
    let mut b: usize = w.len();
    while b > a && !crate::text::is_alphanumeric(w[b - 1])
        invariant
            a <= b <= w@.len(),
            back_non_alnum(w@, a as int, b as int) == back_non_alnum(
                w@,
                a as int,
                w@.len() as int,
            ),
        decreases b - a,
    {
        b = b - 1;
    }
    slice_chars(w, a, b)
}

/// Extract words from text for search indexing: the whitespace-separated
/// words, stripped of non-alphanumeric characters at either end and
/// lowercased, keeping those longer than two bytes.
pub fn extract_words(text: &str) -> (res: Vec<String>)
    ensures
        string_views(res@) == index_words(words_from(text@, 0)),
{
    let s = chars_of(text);
    let mut res: Vec<String> = Vec::new();
    let ghost mut seen: Seq<Seq<char>> = Seq::empty();
    let mut i: usize = 0;
    assert(string_views(res@) =~= Seq::<Seq<char>>::empty());
    while i < s.len()
        invariant
            i <= s@.len(),
            s@ == text@,
            seen + words_from(s@, i as int) == words_from(s@, 0),
            string_views(res@) == index_words(seen),
        decreases s@.len() - i,
    {
        let b = crate::text::skip_ws_exec(s.as_slice(), i);
        proof {
            crate::text::lemma_skip_ws_bounds(s@, i as int);
        }
        if b >= s.len() {
            proof {
                assert(words_from(s@, i as int) =~= Seq::<Seq<char>>::empty());
                assert(seen + words_from(s@, i as int) =~= seen);
            }
            i = s.len();
            assert(words_from(s@, i as int) =~= Seq::<Seq<char>>::empty());
            assert(seen + words_from(s@, i as int) =~= seen);
        } else {
            proof {
                lemma_next_ws(s@, b as int);
                lemma_next_ws(s@, b + 1);
            }
            let mut e = b;
            while e < s.len() && !crate::text::is_whitespace(s[e])
                invariant
                    b <= e <= s@.len(),
                    next_ws(s@, e as int) == next_ws(s@, b as int),
                decreases s@.len() - e,
            {
                e = e + 1;
            }
            let word = slice_chars(s.as_slice(), b, e);
            let core = alnum_core_exec(word.as_slice());
            let low = to_lowercase(string_from(core.as_slice()).as_str());
            proof {
                assert(words_from(s@, i as int) == seq![s@.subrange(b as int, e as int)]
                    + words_from(s@, e as int));
                assert(seen.push(word@) + words_from(s@, e as int) =~= seen + words_from(
                    s@,
                    i as int,
                ));
                assert(seen.push(word@).drop_last() =~= seen);
            }
            if str_byte_len(low.as_str()) > 2 {
                let ghost prev = res@;
                res.push(low);
                proof {
                    crate::text::lemma_string_views_push(prev, low);
                }
            }
            proof {
                seen = seen.push(word@);
            }
            i = e;
        }
    }
    assert(seen + words_from(s@, i as int) =~= seen);
    res
}

} // verus!
