//! Tasks: status markers, priorities, due dates, tags and validation.
use vstd::prelude::*;
use crate::text::{
    blen, char_alphanumeric, chars_of, count_from, count_matches, extend_chars,
    is_alphanumeric, is_ascii_digit, is_ascii_digit_exec, is_blank, is_whitespace,
    is_ws, back_ws, str_byte_len, is_regex_word, regex_word, is_regex_digit, regex_digit, lemma_skip_ws_bounds, lemma_string_views_push, lowercase_of,
    matches_at, matches_at_exec, skip_ws, skip_ws_exec, slice_chars, starts_with,
    starts_with_exec, string_from, string_views, to_lowercase, to_uppercase, trim, trim_chars,
    uppercase_of,
};
use crate::properties::{get_property_value, properties, property_value};

verus! {

broadcast use vstd::string::group_string_axioms;

// ------------------------------------------------------------------
// Status
// ------------------------------------------------------------------

/// The status of a task.
#[derive(Debug, Clone, Copy, PartialEq, Eq, Structural)]
pub enum TaskStatus {
    Todo,
    Doing,
    Done,
    Waiting,
    Cancelled,
}

/// The marker word of a status.
pub open spec fn status_keyword(st: TaskStatus) -> Seq<char> {
    match st {
        TaskStatus::Todo => seq!['T', 'O', 'D', 'O'],
        TaskStatus::Doing => seq!['D', 'O', 'I', 'N', 'G'],
        TaskStatus::Done => seq!['D', 'O', 'N', 'E'],
        TaskStatus::Waiting => seq!['W', 'A', 'I', 'T', 'I', 'N', 'G'],
        TaskStatus::Cancelled => seq!['C', 'A', 'N', 'C', 'E', 'L', 'L', 'E', 'D'],
    }
}

/// The status whose marker word is exactly `u`.
pub open spec fn status_of_keyword(u: Seq<char>) -> Option<TaskStatus> {
    if u == status_keyword(TaskStatus::Todo) {
        Some(TaskStatus::Todo)
    } else if u == status_keyword(TaskStatus::Doing) {
        Some(TaskStatus::Doing)
    } else if u == status_keyword(TaskStatus::Done) {
        Some(TaskStatus::Done)
    } else if u == status_keyword(TaskStatus::Waiting) {
        Some(TaskStatus::Waiting)
    } else if u == status_keyword(TaskStatus::Cancelled) {
        Some(TaskStatus::Cancelled)
    } else {
        None
    }
}

fn keyword_chars(st: TaskStatus) -> (r: Vec<char>)
    ensures
        r@ == status_keyword(st),
{
    let r = match st {
        TaskStatus::Todo => vec!['T', 'O', 'D', 'O'],
        TaskStatus::Doing => vec!['D', 'O', 'I', 'N', 'G'],
        TaskStatus::Done => vec!['D', 'O', 'N', 'E'],
        TaskStatus::Waiting => vec!['W', 'A', 'I', 'T', 'I', 'N', 'G'],
        TaskStatus::Cancelled => vec!['C', 'A', 'N', 'C', 'E', 'L', 'L', 'E', 'D'],
    };
    assert(r@ =~= status_keyword(st));
    r
}

impl TaskStatus {
    /// The status named by an uppercased word.
    pub fn from_uppercase(u: &str) -> (res: Option<TaskStatus>)
        ensures
            res == status_of_keyword(u@),
    {
        let c = chars_of(u);
        if crate::text::chars_eq(c.as_slice(), keyword_chars(TaskStatus::Todo).as_slice()) {
            Some(TaskStatus::Todo)
        } else if crate::text::chars_eq(c.as_slice(), keyword_chars(TaskStatus::Doing).as_slice()) {
            Some(TaskStatus::Doing)
        } else if crate::text::chars_eq(c.as_slice(), keyword_chars(TaskStatus::Done).as_slice()) {
            Some(TaskStatus::Done)
        } else if crate::text::chars_eq(
            c.as_slice(),
            keyword_chars(TaskStatus::Waiting).as_slice(),
        ) {
            Some(TaskStatus::Waiting)
        } else if crate::text::chars_eq(
            c.as_slice(),
            keyword_chars(TaskStatus::Cancelled).as_slice(),
        ) {
            Some(TaskStatus::Cancelled)
        } else {
            None
        }
    }

    /// The status named by a word, in any letter case.
    pub fn from_str(s: &str) -> (res: Option<TaskStatus>)
        ensures
            res == status_of_keyword(uppercase_of(s@)),
    {
        let u = to_uppercase(s);
        TaskStatus::from_uppercase(u.as_str())
    }

    /// The marker word of the status.
    pub fn as_str(&self) -> (res: &'static str)
        ensures
            res@ == status_keyword(*self),
    {
        proof {
            reveal_strlit("TODO");
            reveal_strlit("DOING");
            reveal_strlit("DONE");
            reveal_strlit("WAITING");
            reveal_strlit("CANCELLED");
        }
        match self {
            TaskStatus::Todo => "TODO",
            TaskStatus::Doing => "DOING",
            TaskStatus::Done => "DONE",
            TaskStatus::Waiting => "WAITING",
            TaskStatus::Cancelled => "CANCELLED",
        }
    }

    /// Done and cancelled tasks are completed.
    pub fn is_completed(&self) -> (res: bool)
        ensures
            res == (*self == TaskStatus::Done || *self == TaskStatus::Cancelled),
    {
        matches!(self, TaskStatus::Done | TaskStatus::Cancelled)
    }

    /// To-do, doing and waiting tasks are active.
    pub fn is_active(&self) -> (res: bool)
        ensures
            res == (*self == TaskStatus::Todo || *self == TaskStatus::Doing || *self
                == TaskStatus::Waiting),
    {
        matches!(self, TaskStatus::Todo | TaskStatus::Doing | TaskStatus::Waiting)
    }
}

/// Every status is completed or active, not both.
pub proof fn law_status_completed_xor_active(st: TaskStatus)
    ensures
        (st == TaskStatus::Done || st == TaskStatus::Cancelled) != (st == TaskStatus::Todo || st
            == TaskStatus::Doing || st == TaskStatus::Waiting),
{
}

/// Reading back a status's marker word gives the status.
pub proof fn law_status_keyword_roundtrip(st: TaskStatus)
    ensures
        status_of_keyword(status_keyword(st)) == Some(st),
{
    assert(status_keyword(TaskStatus::Todo) != status_keyword(TaskStatus::Doing));
    assert(status_keyword(TaskStatus::Todo) != status_keyword(TaskStatus::Done));
    assert(status_keyword(TaskStatus::Todo) != status_keyword(TaskStatus::Waiting));
    assert(status_keyword(TaskStatus::Todo) != status_keyword(TaskStatus::Cancelled));
    assert(status_keyword(TaskStatus::Doing) != status_keyword(TaskStatus::Done));
    assert(status_keyword(TaskStatus::Doing) != status_keyword(TaskStatus::Waiting));
    assert(status_keyword(TaskStatus::Doing) != status_keyword(TaskStatus::Cancelled));
    assert(status_keyword(TaskStatus::Done) != status_keyword(TaskStatus::Waiting));
    assert(status_keyword(TaskStatus::Done) != status_keyword(TaskStatus::Cancelled));
    assert(status_keyword(TaskStatus::Waiting) != status_keyword(TaskStatus::Cancelled));
}

/// The trimmed text starts with the marker word of `st` and whitespace.
pub open spec fn marker_at(t: Seq<char>, st: TaskStatus) -> bool {
    let kw = status_keyword(st);
    starts_with(t, kw) && kw.len() < t.len() && is_ws(t[kw.len() as int])
}

/// The status whose marker starts the (trimmed) text.
pub open spec fn status_prefix(t: Seq<char>) -> Option<TaskStatus> {
    if marker_at(t, TaskStatus::Todo) {
        Some(TaskStatus::Todo)
    } else if marker_at(t, TaskStatus::Doing) {
        Some(TaskStatus::Doing)
    } else if marker_at(t, TaskStatus::Done) {
        Some(TaskStatus::Done)
    } else if marker_at(t, TaskStatus::Waiting) {
        Some(TaskStatus::Waiting)
    } else if marker_at(t, TaskStatus::Cancelled) {
        Some(TaskStatus::Cancelled)
    } else {
        None
    }
}

/// The status of a block's content, if it is a task.
pub open spec fn task_status_of(content: Seq<char>) -> Option<TaskStatus> {
    status_prefix(trim(content))
}

fn marker_at_exec(t: &[char], st: TaskStatus) -> (b: bool)
    ensures
        b == marker_at(t@, st),
{
    let kw = keyword_chars(st);
    starts_with_exec(t, kw.as_slice()) && kw.len() < t.len() && is_whitespace(t[kw.len()])
}

pub(crate) fn status_prefix_exec(t: &[char]) -> (r: Option<TaskStatus>)
    ensures
        r == status_prefix(t@),
{
    if marker_at_exec(t, TaskStatus::Todo) {
        Some(TaskStatus::Todo)
    } else if marker_at_exec(t, TaskStatus::Doing) {
        Some(TaskStatus::Doing)
    } else if marker_at_exec(t, TaskStatus::Done) {
        Some(TaskStatus::Done)
    } else if marker_at_exec(t, TaskStatus::Waiting) {
        Some(TaskStatus::Waiting)
    } else if marker_at_exec(t, TaskStatus::Cancelled) {
        Some(TaskStatus::Cancelled)
    } else {
        None
    }
}

/// Extract the task status: the trimmed content starts with `TODO`,
/// `DOING`, `DONE`, `WAITING` or `CANCELLED` followed by whitespace.
pub fn extract_task_status(content: &str) -> (res: Option<TaskStatus>)
    ensures
        res == task_status_of(content@),
{
    let c = chars_of(content);
    let t = trim_chars(c.as_slice());
    status_prefix_exec(t.as_slice())
}

/// Check if content has a task marker.
pub fn has_task_markers(content: &str) -> (res: bool)
    ensures
        res == (task_status_of(content@) is Some),
{
    extract_task_status(content).is_some()
}

/// The task text after the marker: everything of the trimmed content after
/// the whitespace that follows the marker, later lines included; content
/// that is no task is kept whole.
pub open spec fn task_content_of(content: Seq<char>) -> Seq<char> {
    let t = trim(content);
    match status_prefix(t) {
        Some(st) => {
            let q = skip_ws(t, status_keyword(st).len() as int);
            t.subrange(q, t.len() as int)
        },
        None => content,
    }
}

/// Extract the task content without the status prefix.
pub fn extract_task_content(content: &str) -> (res: String)
    ensures
        res@ == task_content_of(content@),
{
    let c = chars_of(content);
    let t = trim_chars(c.as_slice());
    match status_prefix_exec(t.as_slice()) {
        Some(st) => {
            let kw = keyword_chars(st);
            let q = skip_ws_exec(t.as_slice(), kw.len());
            string_from(slice_chars(t.as_slice(), q, t.len()).as_slice())
        },
        None => string_from(c.as_slice()),
    }
}

/// Convert a task to another status: the new marker, a space, then the
/// task text.
pub fn change_task_status(content: &str, new_status: TaskStatus) -> (res: String)
    ensures
        res@ == status_keyword(new_status) + seq![' '] + task_content_of(content@),
{
    let mut out = chars_of(new_status.as_str());
    out.push(' ');
    let tc = extract_task_content(content);
    extend_chars(&mut out, chars_of(tc.as_str()).as_slice());
    string_from(out.as_slice())
}

} // verus!

verus! {

// ------------------------------------------------------------------
// Priority
// ------------------------------------------------------------------

/// The priority of a task.
#[derive(Debug, Clone, Copy, PartialEq, Eq, Structural)]
pub enum TaskPriority {
    High,
    Medium,
    Low,
}

/// The word of a priority.
pub open spec fn priority_word(p: TaskPriority) -> Seq<char> {
    match p {
        TaskPriority::High => "high"@,
        TaskPriority::Medium => "medium"@,
        TaskPriority::Low => "low"@,
    }
}

/// The priority named by a lowercased word: `high`, `urgent` or
/// `critical`; `medium` or `normal`; `low` or `minor`.
pub open spec fn priority_of_word(w: Seq<char>) -> Option<TaskPriority> {
    if w == "high"@ || w == "urgent"@ || w == "critical"@ {
        Some(TaskPriority::High)
    } else if w == "medium"@ || w == "normal"@ {
        Some(TaskPriority::Medium)
    } else if w == "low"@ || w == "minor"@ {
        Some(TaskPriority::Low)
    } else {
        None
    }
}

fn word_is(w: &[char], lit: &str) -> (b: bool)
    ensures
        b == (w@ == lit@),
{
    let l = chars_of(lit);
    crate::text::chars_eq(w, l.as_slice())
}

impl TaskPriority {
    /// The priority named by a lowercased word.
    pub fn from_lowercase(u: &str) -> (res: Option<TaskPriority>)
        ensures
            res == priority_of_word(u@),
    {
        let c = chars_of(u);
        let w = c.as_slice();
        if word_is(w, "high") || word_is(w, "urgent") || word_is(w, "critical") {
            Some(TaskPriority::High)
        } else if word_is(w, "medium") || word_is(w, "normal") {
            Some(TaskPriority::Medium)
        } else if word_is(w, "low") || word_is(w, "minor") {
            Some(TaskPriority::Low)
        } else {
            None
        }
    }

    /// The priority named by a word, in any letter case.
    pub fn from_str(s: &str) -> (res: Option<TaskPriority>)
        ensures
            res == priority_of_word(lowercase_of(s@)),
    {
        let u = to_lowercase(s);
        TaskPriority::from_lowercase(u.as_str())
    }

    /// The word of the priority.
    pub fn as_str(&self) -> (res: &'static str)
        ensures
            res@ == priority_word(*self),
    {
        match self {
            TaskPriority::High => "high",
            TaskPriority::Medium => "medium",
            TaskPriority::Low => "low",
        }
    }
}

/// Reading back a priority's word gives the priority.
pub proof fn law_priority_word_roundtrip(p: TaskPriority)
    ensures
        priority_of_word(priority_word(p)) == Some(p),
{
    reveal_strlit("high");
    reveal_strlit("urgent");
    reveal_strlit("critical");
    reveal_strlit("medium");
    reveal_strlit("normal");
    reveal_strlit("low");
    reveal_strlit("minor");
    assert("medium"@ != "high"@ && "medium"@ != "urgent"@ && "medium"@ != "critical"@) by {
        assert("medium"@[0] != "high"@[0]);
        assert("medium"@[0] != "urgent"@[0]);
        assert("medium"@[0] != "critical"@[0]);
    }
    assert("low"@ != "high"@ && "low"@ != "urgent"@ && "low"@ != "critical"@ && "low"@
        != "medium"@ && "low"@ != "normal"@) by {
        assert("low"@[0] != "high"@[0]);
        assert("low"@[0] != "urgent"@[0]);
        assert("low"@[0] != "critical"@[0]);
        assert("low"@[0] != "medium"@[0]);
        assert("low"@[0] != "normal"@[0]);
    }
}

/// The priority word of a `#high`, `#medium` or `#low` tag whose word
/// starts at `k`.
pub open spec fn priority_tag_word(s: Seq<char>, k: int) -> Option<Seq<char>> {
    if matches_at(s, "high"@, k) {
        Some("high"@)
    } else if matches_at(s, "medium"@, k) {
        Some("medium"@)
    } else if matches_at(s, "low"@, k) {
        Some("low"@)
    } else {
        None
    }
}

/// A priority tag `#high`, `#medium` or `#low` ending at a word boundary
/// starts at `i`: its word.
pub open spec fn priority_tag_at(s: Seq<char>, i: int) -> Option<Seq<char>> {
    if 0 <= i < s.len() && s[i] == '#' {
        match priority_tag_word(s, i + 1) {
            Some(w) => {
                let e = i + 1 + w.len();
                if e == s.len() || !regex_word(s[e]) {
                    Some(w)
                } else {
                    None
                }
            },
            None => None,
        }
    } else {
        None
    }
}

/// Scanning positions `i`, `i + 1`, .. below `n`, the first result that
/// `f` gives.
pub open spec fn first_hit(n: int, f: spec_fn(int) -> Option<Seq<char>>, i: int) -> Option<
    Seq<char>,
>
    decreases n - i,
{
    if i >= n {
        None
    } else if f(i) is Some {
        f(i)
    } else {
        first_hit(n, f, i + 1)
    }
}

/// The word of the first priority tag in the text.
pub open spec fn first_priority_tag(s: Seq<char>) -> Option<Seq<char>> {
    first_hit(s.len() as int, |i: int| priority_tag_at(s, i), 0)
}

/// The priority of a task: that of its `priority::` property if it has
/// one (any letter case), else that of its first priority tag.
pub open spec fn task_priority_of(content: Seq<char>) -> Option<TaskPriority> {
    match property_value(properties(content), "priority"@) {
        Some(v) => priority_of_word(lowercase_of(v)),
        None => match first_priority_tag(content) {
            Some(w) => priority_of_word(w),
            None => None,
        },
    }
}

fn priority_tag_at_exec(s: &[char], i: usize) -> (r: Option<TaskPriority>)
    requires
        i < s@.len(),
    ensures
        match r {
            Some(p) => priority_tag_at(s@, i as int) == Some(priority_word(p)),
            None => priority_tag_at(s@, i as int) is None,
        },
{
    if s[i] != '#' {
        return None;
    }
    let hi = chars_of("high");
    let me = chars_of("medium");
    let lo = chars_of("low");
    let (p, w) = if matches_at_exec(s, hi.as_slice(), i + 1) {
        (TaskPriority::High, hi)
    } else if matches_at_exec(s, me.as_slice(), i + 1) {
        (TaskPriority::Medium, me)
    } else if matches_at_exec(s, lo.as_slice(), i + 1) {
        (TaskPriority::Low, lo)
    } else {
        return None;
    };
    assert(priority_tag_word(s@, i + 1) == Some(w@));
    assert(w@ == priority_word(p));
    let e = i + 1 + w.len();
    if e == s.len() || !is_regex_word(s[e]) {
        Some(p)
    } else {
        None
    }
}

/// Extract the task priority: from the `priority::` property when there
/// is one, else from the first `#high`, `#medium` or `#low` tag.
pub fn extract_task_priority(content: &str) -> (res: Option<TaskPriority>)
    ensures
        res == task_priority_of(content@),
{
    match get_property_value(content, "priority") {
        Some(v) => {
            return TaskPriority::from_str(v.as_str());
        },
        None => {},
    }
    let s = chars_of(content);
    let ghost f = |i: int| priority_tag_at(s@, i);
    let mut i: usize = 0;
    while i < s.len()
        invariant
            i <= s@.len(),
            s@ == content@,
            property_value(properties(content@), "priority"@) is None,
            f == (|i: int| priority_tag_at(s@, i)),
            first_hit(s@.len() as int, f, i as int) == first_hit(s@.len() as int, f, 0),
        decreases s@.len() - i,
    {
        match priority_tag_at_exec(s.as_slice(), i) {
            Some(p) => {
                proof {
                    law_priority_word_roundtrip(p);
                    assert(f(i as int) == Some(priority_word(p)));
                    assert(first_priority_tag(content@) == first_hit(s@.len() as int, f, 0));
                }
                return Some(p);
            },
            None => {},
        }
        i = i + 1;
    }
    None
}

} // verus!

verus! {

// ------------------------------------------------------------------
// Due dates
// ------------------------------------------------------------------

/// A date `dddd-dd-dd` (each `d` a Unicode decimal digit) starts at `k`.
pub open spec fn date_at(s: Seq<char>, k: int) -> bool {
    &&& 0 <= k
    &&& k + 10 <= s.len()
    &&& regex_digit(s[k]) && regex_digit(s[k + 1]) && regex_digit(s[k + 2]) && regex_digit(
        s[k + 3],
    )
    &&& s[k + 4] == '-'
    &&& regex_digit(s[k + 5]) && regex_digit(s[k + 6])
    &&& s[k + 7] == '-'
    &&& regex_digit(s[k + 8]) && regex_digit(s[k + 9])
}

/// A relative day word (`today`, `tomorrow` or `yesterday`) starts at `k`.
pub open spec fn relative_day_at(s: Seq<char>, k: int) -> Option<Seq<char>> {
    if matches_at(s, "today"@, k) {
        Some("today"@)
    } else if matches_at(s, "tomorrow"@, k) {
        Some("tomorrow"@)
    } else if matches_at(s, "yesterday"@, k) {
        Some("yesterday"@)
    } else {
        None
    }
}

/// The ways a due date is written in a task's text, in the order they are
/// tried.
#[derive(Clone, Copy)]
pub enum DuePattern {
    /// `due` or `due:`, whitespace, then a date.
    DueDate,
    /// `@` then a date.
    AtDate,
    /// `due`, whitespace, then a relative day.
    DueDay,
    /// `@` then a relative day.
    AtDay,
}

/// The due date written at `i` in the way `p`, if any.
pub open spec fn due_capture_at(p: DuePattern, s: Seq<char>, i: int) -> Option<Seq<char>> {
    match p {
        DuePattern::DueDate => if matches_at(s, "due"@, i) {
            let j = if i + 3 < s.len() && s[i + 3] == ':' {
                i + 4
            } else {
                i + 3
            };
            let k = skip_ws(s, j);
            if k > j && date_at(s, k) {
                Some(s.subrange(k, k + 10))
            } else {
                None
            }
        } else {
            None
        },
        DuePattern::AtDate => if 0 <= i < s.len() && s[i] == '@' && date_at(s, i + 1) {
            Some(s.subrange(i + 1, i + 11))
        } else {
            None
        },
        DuePattern::DueDay => if matches_at(s, "due"@, i) {
            let k = skip_ws(s, i + 3);
            if k > i + 3 {
                relative_day_at(s, k)
            } else {
                None
            }
        } else {
            None
        },
        DuePattern::AtDay => if 0 <= i < s.len() && s[i] == '@' {
            relative_day_at(s, i + 1)
        } else {
            None
        },
    }
}

/// The first due date written in the way `p`.
pub open spec fn first_due(p: DuePattern, s: Seq<char>) -> Option<Seq<char>> {
    first_hit(s.len() as int, |i: int| due_capture_at(p, s, i), 0)
}

/// The due date written in the text: the first found by the first way
/// that finds one.
pub open spec fn due_in_text(s: Seq<char>) -> Option<Seq<char>> {
    if first_due(DuePattern::DueDate, s) is Some {
        first_due(DuePattern::DueDate, s)
    } else if first_due(DuePattern::AtDate, s) is Some {
        first_due(DuePattern::AtDate, s)
    } else if first_due(DuePattern::DueDay, s) is Some {
        first_due(DuePattern::DueDay, s)
    } else {
        first_due(DuePattern::AtDay, s)
    }
}

/// The due date of a task: its `due::` property if it has one, else the
/// date written in its text.
pub open spec fn due_date_of(content: Seq<char>) -> Option<Seq<char>> {
    match property_value(properties(content), "due"@) {
        Some(v) => Some(v),
        None => due_in_text(content),
    }
}

fn date_at_exec(s: &[char], k: usize) -> (b: bool)
    ensures
        b == date_at(s@, k as int),
{
    if s.len() < 10 || k > s.len() - 10 {
        return false;
    }
    is_regex_digit(s[k]) && is_regex_digit(s[k + 1]) && is_regex_digit(s[k + 2])
        && is_regex_digit(s[k + 3]) && s[k + 4] == '-' && is_regex_digit(s[k + 5])
        && is_regex_digit(s[k + 6]) && s[k + 7] == '-' && is_regex_digit(s[k + 8])
        && is_regex_digit(s[k + 9])
}

fn relative_day_at_exec(s: &[char], k: usize) -> (r: Option<Vec<char>>)
    ensures
        match r {
            Some(w) => relative_day_at(s@, k as int) == Some(w@),
            None => relative_day_at(s@, k as int) is None,
        },
{
    let a = chars_of("today");
    let b = chars_of("tomorrow");
    let c = chars_of("yesterday");
    if matches_at_exec(s, a.as_slice(), k) {
        Some(a)
    } else if matches_at_exec(s, b.as_slice(), k) {
        Some(b)
    } else if matches_at_exec(s, c.as_slice(), k) {
        Some(c)
    } else {
        None
    }
}

fn due_capture_at_exec(p: DuePattern, s: &[char], i: usize) -> (r: Option<Vec<char>>)
    requires
        i < s@.len(),
    ensures
        match r {
            Some(w) => due_capture_at(p, s@, i as int) == Some(w@),
            None => due_capture_at(p, s@, i as int) is None,
        },
{
    let n = s.len();
    let due = chars_of("due");
    proof {
        reveal_strlit("due");
    }
    assert(due@.len() == 3);
    match p {
        DuePattern::DueDate => {
            if !matches_at_exec(s, due.as_slice(), i) {
                return None;
            }
            let j = if i + 3 < s.len() && s[i + 3] == ':' {
                i + 4
            } else {
                i + 3
            };
            let k = skip_ws_exec(s, j);
            if k > j && date_at_exec(s, k) {
                Some(slice_chars(s, k, k + 10))
            } else {
                None
            }
        },
        DuePattern::AtDate => {
            if s[i] == '@' && date_at_exec(s, i + 1) {
                Some(slice_chars(s, i + 1, i + 11))
            } else {
                None
            }
        },
        DuePattern::DueDay => {
            if !matches_at_exec(s, due.as_slice(), i) {
                return None;
            }
            let k = skip_ws_exec(s, i + 3);
            if k > i + 3 {
                relative_day_at_exec(s, k)
            } else {
                None
            }
        },
        DuePattern::AtDay => {
            if s[i] == '@' {
                relative_day_at_exec(s, i + 1)
            } else {
                None
            }
        },
    }
}

fn first_due_exec(p: DuePattern, s: &[char]) -> (r: Option<Vec<char>>)
    ensures
        match r {
            Some(w) => first_due(p, s@) == Some(w@),
            None => first_due(p, s@) is None,
        },
{
    let ghost f = |i: int| due_capture_at(p, s@, i);
    let mut i: usize = 0;
    while i < s.len()
        invariant
            i <= s@.len(),
            f == (|i: int| due_capture_at(p, s@, i)),
            first_hit(s@.len() as int, f, i as int) == first_hit(s@.len() as int, f, 0),
        decreases s@.len() - i,
    {
        match due_capture_at_exec(p, s, i) {
            Some(w) => {
                assert(f(i as int) == Some(w@));
                return Some(w);
            },
            None => {},
        }
        i = i + 1;
    }
    None
}

/// Extract the due date of a task: its `due::` property, else the first
/// `due: 2024-01-15` (colon optional), else `@2024-01-15`, else `due
/// tomorrow` (or `today`, `yesterday`), else `@tomorrow`.
pub fn extract_due_date(content: &str) -> (res: Option<String>)
    ensures
        match res {
            Some(d) => due_date_of(content@) == Some(d@),
            None => due_date_of(content@) is None,
        },
{
    match get_property_value(content, "due") {
        Some(v) => {
            return Some(v);
        },
        None => {},
    }
    let s = chars_of(content);
    let r = match first_due_exec(DuePattern::DueDate, s.as_slice()) {
        Some(w) => Some(w),
        None => match first_due_exec(DuePattern::AtDate, s.as_slice()) {
            Some(w) => Some(w),
            None => match first_due_exec(DuePattern::DueDay, s.as_slice()) {
                Some(w) => Some(w),
                None => first_due_exec(DuePattern::AtDay, s.as_slice()),
            },
        },
    };
    match r {
        Some(w) => Some(string_from(w.as_slice())),
        None => None,
    }
}

} // verus!

verus! {

// ------------------------------------------------------------------
// Tags
// ------------------------------------------------------------------

/// A character a tag name can hold: an ASCII letter or digit, or `_`.
pub open spec fn tag_char(c: char) -> bool {
    crate::text::is_ascii_alnum(c) || c == '_'
}

/// The end of the run of tag characters that starts at `j`.
pub open spec fn tag_end(s: Seq<char>, j: int) -> int
    decreases s.len() - j,
{
    if 0 <= j < s.len() && tag_char(s[j]) {
        tag_end(s, j + 1)
    } else {
        j
    }
}

pub proof fn lemma_tag_end(s: Seq<char>, j: int)
    requires
        0 <= j <= s.len(),
    ensures
        j <= tag_end(s, j) <= s.len(),
    decreases s.len() - j,
{
    if j < s.len() && tag_char(s[j]) {
        lemma_tag_end(s, j + 1);
    }
}

/// The tags `#name` from index `i` on, in order, each name the longest
/// run of tag characters after its `#`; the search goes on after each tag.
pub open spec fn tags_from(s: Seq<char>, i: int) -> Seq<Seq<char>>
    decreases s.len() - i,
{
    if i < 0 || i >= s.len() {
        Seq::empty()
    } else if s[i] == '#' && i + 1 < s.len() && tag_char(s[i + 1]) {
        let e = tag_end(s, i + 1);
        proof {
            lemma_tag_end(s, i + 1);
        }
        seq![s.subrange(i + 1, e)] + tags_from(s, e)
    } else {
        tags_from(s, i + 1)
    }
}

/// The tags of a task's text.
pub open spec fn task_tags(content: Seq<char>) -> Seq<Seq<char>> {
    tags_from(content, 0)
}

fn tag_end_exec(s: &[char], j: usize) -> (r: usize)
    requires
        j <= s@.len(),
    ensures
        r == tag_end(s@, j as int),
        j <= r <= s@.len(),
{
    proof {
        lemma_tag_end(s@, j as int);
    }
    let mut k = j;
    while k < s.len() && (crate::text::is_ascii_alnum_exec(s[k]) || s[k] == '_')
        invariant
            j <= k <= s@.len(),
            tag_end(s@, k as int) == tag_end(s@, j as int),
        decreases s@.len() - k,
    {
        k = k + 1;
    }
    k
}

/// Extract the tags `#name` of a task's text, in order (a name is made of
/// ASCII letters, digits and `_`).
pub fn extract_task_tags(content: &str) -> (res: Vec<String>)
    ensures
        string_views(res@) == task_tags(content@),
{
    let s = chars_of(content);
    let mut res: Vec<String> = Vec::new();
    let mut i: usize = 0;
    assert(string_views(res@) =~= Seq::<Seq<char>>::empty());
    while i < s.len()
        invariant
            i <= s@.len(),
            s@ == content@,
            string_views(res@) + tags_from(s@, i as int) == tags_from(s@, 0),
        decreases s@.len() - i,
    {
        if s[i] == '#' && i + 1 < s.len() && (crate::text::is_ascii_alnum_exec(s[i + 1]) || s[i
            + 1] == '_') {
            let e = tag_end_exec(s.as_slice(), i + 1);
            let t = crate::text::substring(s.as_slice(), i + 1, e);
            let ghost prev = res@;
            res.push(t);
            proof {
                lemma_string_views_push(prev, t);
                assert(string_views(res@) + tags_from(s@, e as int) =~= string_views(prev)
                    + tags_from(s@, i as int));
            }
            i = e;
        } else {
            i = i + 1;
        }
    }
    assert(string_views(res@) + tags_from(s@, i as int) =~= string_views(res@));
    res
}

} // verus!

verus! {

// ------------------------------------------------------------------
// Task metadata
// ------------------------------------------------------------------

/// What a task block says about itself.
#[derive(Debug, Clone)]
pub struct TaskMetadata {
    pub status: TaskStatus,
    pub content: String,
    pub priority: Option<TaskPriority>,
    pub due_date: Option<String>,
    pub tags: Vec<String>,
}

/// The view of an optional string.
pub open spec fn opt_view(o: Option<String>) -> Option<Seq<char>> {
    match o {
        Some(s) => Some(s@),
        None => None,
    }
}

/// The metadata `m` is what the block content `c` says of its task.
pub open spec fn metadata_of(m: TaskMetadata, c: Seq<char>) -> bool {
    &&& task_status_of(c) == Some(m.status)
    &&& m.content@ == task_content_of(c)
    &&& m.priority == task_priority_of(c)
    &&& opt_view(m.due_date) == due_date_of(c)
    &&& string_views(m.tags@) == task_tags(c)
}

/// Parse the metadata of a task block: `None` when the content is no task.
pub fn parse_task_metadata(content: &str) -> (res: Option<TaskMetadata>)
    ensures
        match res {
            Some(m) => metadata_of(m, content@),
            None => task_status_of(content@) is None,
        },
{
    match extract_task_status(content) {
        Some(status) => {
            let c = extract_task_content(content);
            let priority = extract_task_priority(content);
            let due_date = extract_due_date(content);
            let tags = extract_task_tags(content);
            Some(TaskMetadata { status, content: c, priority, due_date, tags })
        },
        None => None,
    }
}

// ------------------------------------------------------------------
// Overdue tasks
// ------------------------------------------------------------------

/// `a` comes before `b` in code point order (the byte order of their
/// UTF-8 encodings, which `<` on strings uses).
pub open spec fn text_less(a: Seq<char>, b: Seq<char>) -> bool
    decreases a.len(),
{
    if b.len() == 0 {
        false
    } else if a.len() == 0 {
        true
    } else if a[0] != b[0] {
        (a[0] as u32) < (b[0] as u32)
    } else {
        text_less(a.drop_first(), b.drop_first())
    }
}

/// A due date is overdue on the day `today` (written `YYYY-MM-DD`): it
/// reads `overdue` or `yesterday`, or it is ten bytes long and comes
/// before `today`.
pub open spec fn overdue_on(due: Seq<char>, today: Seq<char>) -> bool {
    due == "overdue"@ || due == "yesterday"@ || (blen(due) == 10 && text_less(due, today))
}

fn text_less_exec(a: &[char], b: &[char]) -> (r: bool)
    ensures
        r == text_less(a@, b@),
{
    let mut i: usize = 0;
    assert(a@.skip(0) =~= a@);
    assert(b@.skip(0) =~= b@);
    while i < a.len() && i < b.len() && a[i] == b[i]
        invariant
            i <= a@.len(),
            i <= b@.len(),
            a@.take(i as int) == b@.take(i as int),
            text_less(a@.skip(i as int), b@.skip(i as int)) == text_less(a@, b@),
        decreases a@.len() - i,
    {
        proof {
            assert(a@.skip(i as int).drop_first() =~= a@.skip(i + 1));
            assert(b@.skip(i as int).drop_first() =~= b@.skip(i + 1));
            assert(a@.take(i + 1) =~= a@.take(i as int).push(a@[i as int]));
            assert(b@.take(i + 1) =~= b@.take(i as int).push(b@[i as int]));
        }
        i = i + 1;
    }
    if i == b.len() {
        false
    } else if i == a.len() {
        true
    } else {
        (a[i] as u32) < (b[i] as u32)
    }
}

/// Whether a due date is overdue on the day `today`.
pub fn is_task_overdue_on(due_date: &str, today: &str) -> (res: bool)
    ensures
        res == overdue_on(due_date@, today@),
{
    let d = chars_of(due_date);
    if crate::text::chars_eq(d.as_slice(), chars_of("overdue").as_slice())
        || crate::text::chars_eq(d.as_slice(), chars_of("yesterday").as_slice()) {
        return true;
    }
    if str_byte_len(due_date) == 10 {
        let t = chars_of(today);
        text_less_exec(d.as_slice(), t.as_slice())
    } else {
        false
    }
}

/// Today's date in UTC, as `chrono` writes a date.
#[verifier::external_body]
fn today_utc() -> (r: String) {
    chrono::Utc::now().naive_utc().date().to_string()
}

/// Whether a due date is overdue today (UTC).
pub fn is_task_overdue(due_date: &str) -> (res: bool)
    ensures
        (due_date@ == "overdue"@ || due_date@ == "yesterday"@) ==> res,
        (blen(due_date@) != 10 && due_date@ != "overdue"@ && due_date@ != "yesterday"@) ==> !res,
        exists|today: Seq<char>| res == overdue_on(due_date@, today),
{
    let today = today_utc();
    is_task_overdue_on(due_date, today.as_str())
}

} // verus!

verus! {

// ------------------------------------------------------------------
// Summary
// ------------------------------------------------------------------

/// How many tasks there are, by status, and how many are overdue.  (The
/// completion rate, a ratio, is `done` over `total`.)
#[derive(Debug, Clone, Copy, PartialEq, Eq, Structural)]
pub struct TaskSummary {
    pub total: usize,
    pub todo: usize,
    pub doing: usize,
    pub done: usize,
    pub waiting: usize,
    pub cancelled: usize,
    pub overdue: usize,
}

/// The number of tasks with status `st`.
pub open spec fn count_status(ts: Seq<TaskMetadata>, st: TaskStatus) -> nat
    decreases ts.len(),
{
    if ts.len() == 0 {
        0
    } else {
        count_status(ts.drop_last(), st) + if ts.last().status == st {
            1nat
        } else {
            0nat
        }
    }
}

/// Whether a task has a due date that is overdue on `today`.
pub open spec fn task_overdue_on(t: TaskMetadata, today: Seq<char>) -> bool {
    match t.due_date {
        Some(d) => overdue_on(d@, today),
        None => false,
    }
}

/// The number of tasks overdue on `today`.
pub open spec fn count_overdue(ts: Seq<TaskMetadata>, today: Seq<char>) -> nat
    decreases ts.len(),
{
    if ts.len() == 0 {
        0
    } else {
        count_overdue(ts.drop_last(), today) + if task_overdue_on(ts.last(), today) {
            1nat
        } else {
            0nat
        }
    }
}

/// The summary of `ts` on the day `today`.
pub open spec fn summary_of(ts: Seq<TaskMetadata>, today: Seq<char>) -> TaskSummary {
    TaskSummary {
        total: ts.len() as usize,
        todo: count_status(ts, TaskStatus::Todo) as usize,
        doing: count_status(ts, TaskStatus::Doing) as usize,
        done: count_status(ts, TaskStatus::Done) as usize,
        waiting: count_status(ts, TaskStatus::Waiting) as usize,
        cancelled: count_status(ts, TaskStatus::Cancelled) as usize,
        overdue: count_overdue(ts, today) as usize,
    }
}

proof fn lemma_counts_bounded(ts: Seq<TaskMetadata>, today: Seq<char>)
    ensures
        count_status(ts, TaskStatus::Todo) <= ts.len(),
        count_status(ts, TaskStatus::Doing) <= ts.len(),
        count_status(ts, TaskStatus::Done) <= ts.len(),
        count_status(ts, TaskStatus::Waiting) <= ts.len(),
        count_status(ts, TaskStatus::Cancelled) <= ts.len(),
        count_overdue(ts, today) <= ts.len(),
    decreases ts.len(),
{
    if ts.len() > 0 {
        lemma_counts_bounded(ts.drop_last(), today);
    }
}

/// Every task has exactly one status: the counts by status add up to the
/// total.
pub proof fn law_status_counts_sum(ts: Seq<TaskMetadata>)
    ensures
        count_status(ts, TaskStatus::Todo) + count_status(ts, TaskStatus::Doing) + count_status(
            ts,
            TaskStatus::Done,
        ) + count_status(ts, TaskStatus::Waiting) + count_status(ts, TaskStatus::Cancelled)
            == ts.len(),
    decreases ts.len(),
{
    if ts.len() > 0 {
        law_status_counts_sum(ts.drop_last());
    }
}

/// The number of overdue tasks in a summary is the number of tasks that
/// have a due date overdue on `today`: `overdue`, `yesterday`, or a
/// ten-byte date that sorts before `today`.
pub proof fn law_summary_counts_overdue_dates(ts: Seq<TaskMetadata>, today: Seq<char>)
    ensures
        count_overdue(ts, today) == ts.filter(
            |t: TaskMetadata| t.due_date is Some && overdue_on(t.due_date->0@, today),
        ).len(),
    decreases ts.len(),
{
    let p = |t: TaskMetadata| t.due_date is Some && overdue_on(t.due_date->0@, today);
    if ts.len() == 0 {
        assert(ts.filter(p) =~= Seq::<TaskMetadata>::empty());
    } else {
        law_summary_counts_overdue_dates(ts.drop_last(), today);
        assert(ts =~= ts.drop_last().push(ts.last()));
        ts.drop_last().lemma_filter_push(ts.last(), p);
        assert(ts.filter(p) == if p(ts.last()) {
            ts.drop_last().filter(p).push(ts.last())
        } else {
            ts.drop_last().filter(p)
        });
    }
}

/// A task due on a ten-byte date before `today` counts as overdue, and one
/// due on `today` or later does not: adding such a task to a list adds one
/// to the overdue count, or nothing.
pub proof fn law_summary_overdue_grows_by_dated_task(
    ts: Seq<TaskMetadata>,
    t: TaskMetadata,
    d: Seq<char>,
    today: Seq<char>,
)
    requires
        t.due_date matches Some(x) && x@ == d,
        blen(d) == 10,
        d != "overdue"@,
        d != "yesterday"@,
    ensures
        text_less(d, today) ==> count_overdue(ts.push(t), today) == count_overdue(ts, today) + 1,
        !text_less(d, today) ==> count_overdue(ts.push(t), today) == count_overdue(ts, today),
{
    assert(ts.push(t).drop_last() =~= ts);
    assert(ts.push(t).last() == t);
}

/// Summarise tasks on the day `today`: the counts by status and the number
/// of overdue tasks.
pub fn generate_task_summary_on(tasks: &[TaskMetadata], today: &str) -> (res: TaskSummary)
    ensures
        res == summary_of(tasks@, today@),
{
    let mut sum = TaskSummary {
        total: 0,
        todo: 0,
        doing: 0,
        done: 0,
        waiting: 0,
        cancelled: 0,
        overdue: 0,
    };
    let mut i: usize = 0;
    while i < tasks.len()
        invariant
            i <= tasks@.len(),
            sum == summary_of(tasks@.take(i as int), today@),
        decreases tasks@.len() - i,
    {
        let t = &tasks[i];
        proof {
            assert(tasks@.take(i + 1).drop_last() =~= tasks@.take(i as int));
            assert(tasks@.take(i + 1).last() == tasks@[i as int]);
            lemma_counts_bounded(tasks@.take(i as int), today@);
        }
        sum.total = sum.total + 1;
        match t.status {
            TaskStatus::Todo => {
                sum.todo = sum.todo + 1;
            },
            TaskStatus::Doing => {
                sum.doing = sum.doing + 1;
            },
            TaskStatus::Done => {
                sum.done = sum.done + 1;
            },
            TaskStatus::Waiting => {
                sum.waiting = sum.waiting + 1;
            },
            TaskStatus::Cancelled => {
                sum.cancelled = sum.cancelled + 1;
            },
        }
        let late = match &t.due_date {
            Some(d) => is_task_overdue_on(d.as_str(), today),
            None => false,
        };
        if late {
            sum.overdue = sum.overdue + 1;
        }
        i = i + 1;
    }
    assert(tasks@.take(tasks@.len() as int) =~= tasks@);
    sum
}

/// Summarise tasks today (UTC).
pub fn generate_task_summary(tasks: &[TaskMetadata]) -> (res: TaskSummary)
    ensures
        exists|today: Seq<char>| res == summary_of(tasks@, today),
        res.total == tasks@.len(),
        res.todo == count_status(tasks@, TaskStatus::Todo),
        res.doing == count_status(tasks@, TaskStatus::Doing),
        res.done == count_status(tasks@, TaskStatus::Done),
        res.waiting == count_status(tasks@, TaskStatus::Waiting),
        res.cancelled == count_status(tasks@, TaskStatus::Cancelled),
{
    let _n = tasks.len();
    let today = today_utc();
    let r = generate_task_summary_on(tasks, today.as_str());
    proof {
        lemma_counts_bounded(tasks@, today@);
    }
    r
}

} // verus!

verus! {

// ------------------------------------------------------------------
// Validation
// ------------------------------------------------------------------

/// The outcome of checking a task's format.
#[derive(Debug, Clone)]
pub struct TaskValidation {
    pub is_valid: bool,
    pub warnings: Vec<String>,
    pub errors: Vec<String>,
}

/// A due date is valid: a relative day, or exactly a date `dddd-dd-dd`.
pub open spec fn valid_due_date(d: Seq<char>) -> bool {
    d == "today"@ || d == "tomorrow"@ || d == "yesterday"@ || (d.len() == 10 && date_at(d, 0))
}

/// Whether a due date is valid.
pub fn is_valid_due_date(due_date: &str) -> (res: bool)
    ensures
        res == valid_due_date(due_date@),
{
    let d = chars_of(due_date);
    if crate::text::chars_eq(d.as_slice(), chars_of("today").as_slice())
        || crate::text::chars_eq(d.as_slice(), chars_of("tomorrow").as_slice())
        || crate::text::chars_eq(d.as_slice(), chars_of("yesterday").as_slice()) {
        return true;
    }
    d.len() == 10 && date_at_exec(d.as_slice(), 0)
}

/// The text, trimmed and uppercased, starts like a task marker.
pub open spec fn looks_like_task(c: Seq<char>) -> bool {
    let u = uppercase_of(trim(c));
    starts_with(u, "TODO"@) || starts_with(u, "DONE"@) || starts_with(u, "DOING"@)
}

/// The warnings on a block's content: for a task, an empty description, a
/// description over 500 bytes, a due date that is not valid; for a bare
/// status marker, an empty description.
pub open spec fn task_warnings(c: Seq<char>) -> Seq<Seq<char>> {
    match task_status_of(c) {
        Some(st) => {
            let tc = task_content_of(c);
            (if is_blank(tc) {
                seq!["Task has no description"@]
            } else {
                Seq::empty()
            }) + (if blen(tc) > 500 {
                seq!["Task description is very long"@]
            } else {
                Seq::empty()
            }) + (match due_date_of(c) {
                Some(d) => if !valid_due_date(d) {
                    seq!["Potentially invalid due date: "@ + d]
                } else {
                    Seq::empty()
                },
                None => Seq::empty(),
            })
        },
        None => if status_of_keyword(trim(c)) is Some {
            seq!["Task has no description"@]
        } else {
            Seq::empty()
        },
    }
}

/// The errors on a block's content: for a task, its marker (followed by a
/// space) found more than once; for text that starts like a marker but is
/// no task, a malformed status.
pub open spec fn task_errors(c: Seq<char>) -> Seq<Seq<char>> {
    match task_status_of(c) {
        Some(st) => if count_from(c, status_keyword(st) + seq![' '], 0) > 1 {
            seq!["Multiple status markers found"@]
        } else {
            Seq::empty()
        },
        None => if looks_like_task(c) {
            seq!["Malformed task status - missing space after status?"@]
        } else {
            Seq::empty()
        },
    }
}

fn one_message(msg: &str) -> (r: Vec<String>)
    ensures
        string_views(r@) == seq![msg@],
{
    let mut r: Vec<String> = Vec::new();
    let m = string_from(chars_of(msg).as_slice());
    r.push(m);
    assert(string_views(r@) =~= seq![msg@]);
    r
}

fn push_message(v: &mut Vec<String>, m: String)
    ensures
        string_views(final(v)@) == string_views(old(v)@).push(m@),
{
    let ghost prev = v@;
    v.push(m);
    proof {
        lemma_string_views_push(prev, m);
    }
}

/// Check a task's format: warnings for an empty or very long description
/// and for a doubtful due date, errors for a repeated marker or a
/// malformed one; the task is valid when there is no error.
pub fn validate_task_format(content: &str) -> (res: TaskValidation)
    ensures
        string_views(res.warnings@) == task_warnings(content@),
        string_views(res.errors@) == task_errors(content@),
        res.is_valid == (task_errors(content@).len() == 0),
{
    let mut warnings: Vec<String> = Vec::new();
    let mut errors: Vec<String> = Vec::new();
    let c = chars_of(content);
    match extract_task_status(content) {
        Some(st) => {
            let tc = extract_task_content(content);
            let tcc = chars_of(tc.as_str());
            let ghost w0: Seq<Seq<char>> = Seq::empty();
            assert(string_views(warnings@) =~= w0);
            let blank = trim_chars(tcc.as_slice()).len() == 0;
            if blank {
                push_message(&mut warnings, string_from(chars_of("Task has no description").as_slice()));
            }
            let ghost w1 = string_views(warnings@);
            if str_byte_len(tc.as_str()) > 500 {
                push_message(
                    &mut warnings,
                    string_from(chars_of("Task description is very long").as_slice()),
                );
            }
            let ghost w2 = string_views(warnings@);
            let due = extract_due_date(content);
            match due {
                Some(d) => {
                    if !is_valid_due_date(d.as_str()) {
                        let mut m = chars_of("Potentially invalid due date: ");
                        extend_chars(&mut m, chars_of(d.as_str()).as_slice());
                        push_message(&mut warnings, string_from(m.as_slice()));
                    }
                },
                None => {},
            }
            proof {
                let a: Seq<Seq<char>> = if is_blank(tc@) {
                    seq!["Task has no description"@]
                } else {
                    Seq::empty()
                };
                let b: Seq<Seq<char>> = if blen(tc@) > 500 {
                    seq!["Task description is very long"@]
                } else {
                    Seq::empty()
                };
                let e: Seq<Seq<char>> = match due_date_of(content@) {
                    Some(d) => if !valid_due_date(d) {
                        seq!["Potentially invalid due date: "@ + d]
                    } else {
                        Seq::empty()
                    },
                    None => Seq::empty(),
                };
                assert(w1 =~= a);
                assert(w2 =~= a + b);
                assert(string_views(warnings@) =~= a + b + e);
            }
            let mut marker = chars_of(st.as_str());
            marker.push(' ');
            assert(marker@ =~= status_keyword(st) + seq![' ']);
            if count_matches(c.as_slice(), marker.as_slice()) > 1 {
                push_message(
                    &mut errors,
                    string_from(chars_of("Multiple status markers found").as_slice()),
                );
            } else {
                assert(string_views(errors@) =~= Seq::<Seq<char>>::empty());
            }
        },
        None => {
            let t = trim_chars(c.as_slice());
            if TaskStatus::from_uppercase(string_from(t.as_slice()).as_str()).is_some() {
                warnings = one_message("Task has no description");
            } else {
                assert(string_views(warnings@) =~= Seq::<Seq<char>>::empty());
            }
            let u = to_uppercase(string_from(t.as_slice()).as_str());
            let uc = chars_of(u.as_str());
            if starts_with_exec(uc.as_slice(), chars_of("TODO").as_slice())
                || starts_with_exec(uc.as_slice(), chars_of("DONE").as_slice())
                || starts_with_exec(uc.as_slice(), chars_of("DOING").as_slice()) {
                errors = one_message("Malformed task status - missing space after status?");
            } else {
                assert(string_views(errors@) =~= Seq::<Seq<char>>::empty());
            }
        },
    }
    let is_valid = errors.len() == 0;
    assert(string_views(errors@).len() == errors@.len());
    TaskValidation { is_valid, warnings, errors }
}

} // verus!

verus! {

// ------------------------------------------------------------------
// Laws
// ------------------------------------------------------------------

proof fn lemma_keyword_facts(st: TaskStatus)
    ensures
        4 <= status_keyword(st).len() <= 9,
        !is_ws(status_keyword(st)[0]),
        forall|k: int| 0 <= k < status_keyword(st).len() ==> !is_ws(#[trigger] status_keyword(st)[k]),
{
}

/// A marker word followed by a space cannot start with another marker
/// word followed by whitespace.
proof fn lemma_marker_unique(r: Seq<char>, st: TaskStatus, other: TaskStatus)
    requires
        starts_with(r, status_keyword(st)),
        status_keyword(st).len() < r.len(),
        r[status_keyword(st).len() as int] == ' ',
        other != st,
    ensures
        !marker_at(r, other),
{
    lemma_keyword_facts(other);
    lemma_keyword_facts(st);
    let a = status_keyword(st);
    let b = status_keyword(other);
    if marker_at(r, other) {
        assert(r.subrange(0, a.len() as int) == a);
        assert(r.subrange(0, b.len() as int) == b);
        assert forall|k: int| 0 <= k < a.len() && k < b.len() implies a[k] == b[k] by {
            assert(r.subrange(0, a.len() as int)[k] == r[k]);
            assert(r.subrange(0, b.len() as int)[k] == r[k]);
        }
        if b.len() > a.len() {
            assert(r.subrange(0, b.len() as int)[a.len() as int] == r[a.len() as int]);
            assert(!is_ws(b[a.len() as int]));
        } else if b.len() < a.len() {
            assert(r.subrange(0, a.len() as int)[b.len() as int] == r[b.len() as int]);
            assert(!is_ws(a[b.len() as int]));
        } else {
            assert(a =~= b);
        }
        match st {
            TaskStatus::Todo => {},
            TaskStatus::Doing => {},
            TaskStatus::Done => {},
            TaskStatus::Waiting => {},
            TaskStatus::Cancelled => {},
        }
        match other {
            TaskStatus::Todo => {},
            TaskStatus::Doing => {},
            TaskStatus::Done => {},
            TaskStatus::Waiting => {},
            TaskStatus::Cancelled => {},
        }
    }
}

/// Changing a task's status to `st` gives text whose status is `st`,
/// whenever the task has a description (`change_task_status` writes the
/// marker of `st`, a space and the description).
pub proof fn law_change_status_sets_status(t: Seq<char>, st: TaskStatus)
    requires
        !is_blank(t),
    ensures
        task_status_of(status_keyword(st) + seq![' '] + t) == Some(st),
{
    let kw = status_keyword(st);
    let r = kw + seq![' '] + t;
    lemma_keyword_facts(st);
    crate::text::lemma_blank_iff_all_ws(t);
    let k = choose|k: int| 0 <= k < t.len() && !is_ws(t[k]);
    assert(r[kw.len() + 1 + k] == t[k]);
    crate::text::lemma_skip_ws_bounds(r, 0);
    assert(skip_ws(r, 0) == 0);
    crate::text::lemma_back_ws_bounds(r, 0, r.len() as int);
    let b = back_ws(r, 0, r.len() as int);
    assert(b > kw.len() + 1 + k);
    let tr = trim(r);
    assert(tr =~= r.subrange(0, b));
    assert(tr.subrange(0, kw.len() as int) =~= kw);
    assert(tr[kw.len() as int] == ' ');
    assert(marker_at(tr, st));
    if st != TaskStatus::Todo {
        lemma_marker_unique(tr, st, TaskStatus::Todo);
    }
    if st != TaskStatus::Doing {
        lemma_marker_unique(tr, st, TaskStatus::Doing);
    }
    if st != TaskStatus::Done {
        lemma_marker_unique(tr, st, TaskStatus::Done);
    }
    if st != TaskStatus::Waiting {
        lemma_marker_unique(tr, st, TaskStatus::Waiting);
    }
}

/// The description of a task is never blank: the marker is followed by
/// whitespace and then by the rest of the trimmed text.
pub proof fn lemma_task_content_not_blank(c: Seq<char>)
    requires
        task_status_of(c) is Some,
    ensures
        !is_blank(task_content_of(c)),
{
    let t = trim(c);
    let st = task_status_of(c)->0;
    let kw = status_keyword(st);
    crate::text::lemma_trim_facts(c);
    lemma_keyword_facts(st);
    lemma_skip_ws_bounds(t, kw.len() as int);
    let q = skip_ws(t, kw.len() as int);
    assert(q < t.len()) by {
        if q == t.len() {
            assert(is_ws(t[t.len() - 1]));
        }
    }
    let tc = t.subrange(q, t.len() as int);
    assert(tc == task_content_of(c));
    crate::text::lemma_blank_iff_all_ws(tc);
    assert(!is_ws(tc[0]));
}

/// Changing the status of a task to `st` gives a task with status `st`.
pub proof fn law_change_task_status(c: Seq<char>, st: TaskStatus)
    requires
        task_status_of(c) is Some,
    ensures
        task_status_of(status_keyword(st) + seq![' '] + task_content_of(c)) == Some(st),
{
    lemma_task_content_not_blank(c);
    law_change_status_sets_status(task_content_of(c), st);
}

} // verus!
