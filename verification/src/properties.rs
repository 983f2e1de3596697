//! Block properties written as `key:: value` lines.
use vstd::prelude::*;
use crate::text::{
    blen, byte_len_wide, chars_of, contains, contains_exec, first_of, first_of_exec,
    is_ascii_alnum, is_ascii_alpha, is_blank, is_whitespace, lemma_first_of, lemma_skip_ws_bounds,
    lemma_string_views_push, lines, lines_exec, matches_at, matches_at_exec, skip_ws, skip_ws_exec,
    slice_chars, string_from, trim, trim_chars, trim_start, trim_start_chars,
};

verus! {

broadcast use vstd::string::group_string_axioms;

// ------------------------------------------------------------------
// The `key:: value` grammar
// ------------------------------------------------------------------

/// Index `i` starts a line of `s`.
pub open spec fn is_line_start(s: Seq<char>, i: int) -> bool {
    i == 0 || (0 < i <= s.len() && s[i - 1] == '\n')
}

/// A character that may start a property key.
pub open spec fn key_start_char(c: char) -> bool {
    is_ascii_alpha(c) || c == '_'
}

/// A character that may continue a property key.
pub open spec fn key_char(c: char) -> bool {
    is_ascii_alnum(c) || c == '_'
}

/// The first index at or after `i` that does not hold a key character.
pub open spec fn key_end(s: Seq<char>, i: int) -> int
    decreases s.len() - i,
{
    if 0 <= i < s.len() && key_char(s[i]) {
        key_end(s, i + 1)
    } else {
        i
    }
}

/// Where the parts of a property line lie: the line's start, the key's
/// start and end, and the value's start and end.
pub struct PropMatch {
    pub start: int,
    pub key_start: int,
    pub key_end: int,
    pub value_start: int,
    pub value_end: int,
}

/// The first index at or after `i` that holds no whitespace of the line
/// (a newline ends the skip).
pub open spec fn skip_hws(s: Seq<char>, i: int) -> int
    decreases s.len() - i,
{
    if 0 <= i < s.len() && crate::text::is_ws(s[i]) && s[i] != '\n' {
        skip_hws(s, i + 1)
    } else {
        i
    }
}

proof fn lemma_skip_hws_bounds(s: Seq<char>, i: int)
    requires
        0 <= i <= s.len(),
    ensures
        i <= skip_hws(s, i) <= s.len(),
    decreases s.len() - i,
{
    if i < s.len() && crate::text::is_ws(s[i]) && s[i] != '\n' {
        lemma_skip_hws_bounds(s, i + 1);
    }
}

fn skip_hws_exec(s: &[char], i: usize) -> (r: usize)
    requires
        i <= s@.len(),
    ensures
        r == skip_hws(s@, i as int),
        i <= r <= s@.len(),
{
    proof {
        lemma_skip_hws_bounds(s@, i as int);
    }
    let mut k = i;
    while k < s.len() && is_whitespace(s[k]) && s[k] != '\n'
        invariant
            i <= k <= s@.len(),
            skip_hws(s@, k as int) == skip_hws(s@, i as int),
        decreases s.len() - k,
    {
        k = k + 1;
    }
    k
}

/// A property line starts at line start `i`: whitespace, a key of ASCII
/// letters, digits and `_` not starting with a digit, `::`, whitespace of
/// the same line, then the value up to the end of that line.
pub open spec fn prop_match_at(s: Seq<char>, i: int) -> Option<PropMatch> {
    if 0 <= i < s.len() && is_line_start(s, i) {
        let ks = skip_ws(s, i);
        if ks < s.len() && key_start_char(s[ks]) {
            let ke = key_end(s, ks + 1);
            if matches_at(s, seq![':', ':'], ke) {
                let vs = skip_hws(s, ke + 2);
                let ve = first_of(s, '\n', vs);
                Some(
                    PropMatch {
                        start: i,
                        key_start: ks,
                        key_end: ke,
                        value_start: vs,
                        value_end: ve,
                    },
                )
            } else {
                None
            }
        } else {
            None
        }
    } else {
        None
    }
}

/// The property lines from `i` on, leftmost first and not overlapping.
pub open spec fn prop_matches_from(s: Seq<char>, i: int) -> Seq<PropMatch>
    decreases s.len() - i,
{
    if i < 0 || i >= s.len() {
        Seq::empty()
    } else {
        match prop_match_at(s, i) {
            Some(m) => if i < m.value_end <= s.len() {
                seq![m] + prop_matches_from(s, m.value_end)
            } else {
                Seq::empty()
            },
            None => prop_matches_from(s, i + 1),
        }
    }
}

/// The byte width of the leading whitespace of a line.
pub open spec fn indent_bytes(l: Seq<char>) -> nat {
    blen(l.take(skip_ws(l, 0)))
}

/// The index of the first line that contains `p`.
pub open spec fn first_line_with(ls: Seq<Seq<char>>, p: Seq<char>, idx: int) -> Option<int>
    decreases ls.len() - idx,
{
    if idx < 0 || idx >= ls.len() {
        None
    } else if contains(ls[idx], p) {
        Some(idx)
    } else {
        first_line_with(ls, p, idx + 1)
    }
}

/// A value continued by the following lines: blank lines are skipped; a
/// line indented by more bytes than `base` and without `::` adds its
/// trimmed text on a new line; any other line ends the value.
pub open spec fn continue_value(ls: Seq<Seq<char>>, idx: int, base: nat, v: Seq<char>) -> Seq<
    char,
>
    decreases ls.len() - idx,
{
    if idx < 0 || idx >= ls.len() {
        v
    } else {
        let l = ls[idx];
        if is_blank(l) {
            continue_value(ls, idx + 1, base, v)
        } else if indent_bytes(l) > base && !contains(trim_start(l), seq![':', ':']) {
            let v2 = if v.len() == 0 {
                v
            } else {
                v.push('\n')
            };
            continue_value(ls, idx + 1, base, v2 + trim(l))
        } else {
            v
        }
    }
}

/// A value ends at the first non-blank line that is not indented deeper
/// than the property line: such a line, and everything after it, adds
/// nothing to the value.
pub proof fn law_value_ends_at_shallower_line(ls: Seq<Seq<char>>, idx: int, k: int, base: nat, v: Seq<char>)
    requires
        0 <= idx <= k < ls.len(),
        forall|m: int| idx <= m < k ==> is_blank(#[trigger] ls[m]),
        !is_blank(ls[k]),
        indent_bytes(ls[k]) <= base,
    ensures
        continue_value(ls, idx, base, v) == v,
    decreases k - idx,
{
    if idx < k {
        assert(is_blank(ls[idx]));
        law_value_ends_at_shallower_line(ls, idx + 1, k, base, v);
    }
}

/// Following lines only ever add to a value: what the property line gave
/// comes first, unchanged.
pub proof fn law_value_only_grows(ls: Seq<Seq<char>>, idx: int, base: nat, v: Seq<char>)
    ensures
        continue_value(ls, idx, base, v).len() >= v.len(),
        continue_value(ls, idx, base, v).take(v.len() as int) == v,
    decreases ls.len() - idx,
{
    if 0 <= idx < ls.len() {
        let l = ls[idx];
        if is_blank(l) {
            law_value_only_grows(ls, idx + 1, base, v);
        } else if indent_bytes(l) > base && !contains(trim_start(l), seq![':', ':']) {
            let v2 = if v.len() == 0 {
                v
            } else {
                v.push('\n')
            };
            law_value_only_grows(ls, idx + 1, base, v2 + trim(l));
            let r = continue_value(ls, idx + 1, base, v2 + trim(l));
            assert(r.take(v.len() as int) =~= (v2 + trim(l)).take(v.len() as int)) by {
                assert(r.take((v2 + trim(l)).len() as int) == v2 + trim(l));
            }
            assert((v2 + trim(l)).take(v.len() as int) =~= v);
        } else {
            assert(v.take(v.len() as int) =~= v);
        }
    } else {
        assert(v.take(v.len() as int) =~= v);
    }
}

/// A last line indented deeper than the property line and without `::`
/// is added to the value, trimmed, on a line of its own.
pub proof fn law_value_takes_deeper_last_line(ls: Seq<Seq<char>>, base: nat, v: Seq<char>)
    requires
        ls.len() > 0,
        !is_blank(ls.last()),
        indent_bytes(ls.last()) > base,
        !contains(trim_start(ls.last()), seq![':', ':']),
    ensures
        continue_value(ls, ls.len() - 1, base, v) == if v.len() == 0 {
            trim(ls.last())
        } else {
            v.push('\n') + trim(ls.last())
        },
{
    let l = ls[ls.len() - 1];
    assert(l == ls.last());
    let v2 = if v.len() == 0 {
        v
    } else {
        v.push('\n')
    };
    assert(continue_value(ls, ls.len() as int, base, v2 + trim(l)) == v2 + trim(l));
    assert(v.len() == 0 ==> v + trim(l) =~= trim(l));
}

proof fn lemma_first_line_with_bounds(ls: Seq<Seq<char>>, p: Seq<char>, idx: int)
    ensures
        first_line_with(ls, p, idx) matches Some(j) ==> idx <= j < ls.len(),
    decreases ls.len() - idx,
{
    if 0 <= idx < ls.len() && !contains(ls[idx], p) {
        lemma_first_line_with_bounds(ls, p, idx + 1);
    }
}

/// A property whose line is followed by a non-blank line indented no
/// deeper has just the trimmed text after its `::` as its value.
pub proof fn law_property_value_stops_at_shallower_line(s: Seq<char>, m: PropMatch)
    requires
        first_line_with(lines(s), s.subrange(m.key_start, m.key_end) + seq![':', ':'], 0) matches Some(li)
            && li + 1 < lines(s).len() && !is_blank(lines(s)[li + 1]) && indent_bytes(lines(s)[li + 1])
            <= blen(s.subrange(m.start, m.key_start)),
    ensures
        property_of(s, m).1 == trim(s.subrange(m.value_start, m.value_end)),
{
    let ls = lines(s);
    let li = first_line_with(ls, s.subrange(m.key_start, m.key_end) + seq![':', ':'], 0)->0;
    lemma_first_line_with_bounds(ls, s.subrange(m.key_start, m.key_end) + seq![':', ':'], 0);
    law_value_ends_at_shallower_line(
        ls,
        li + 1,
        li + 1,
        blen(s.subrange(m.start, m.key_start)),
        trim(s.subrange(m.value_start, m.value_end)),
    );
}

/// The key and value of one property line of `s`.
pub open spec fn property_of(s: Seq<char>, m: PropMatch) -> (Seq<char>, Seq<char>) {
    let key = s.subrange(m.key_start, m.key_end);
    let v0 = trim(s.subrange(m.value_start, m.value_end));
    let base = blen(s.subrange(m.start, m.key_start));
    let ls = lines(s);
    let value = match first_line_with(ls, key + seq![':', ':'], 0) {
        Some(li) => continue_value(ls, li + 1, base, v0),
        None => v0,
    };
    (key, value)
}

/// The properties of `s`, in order.
pub open spec fn properties(s: Seq<char>) -> Seq<(Seq<char>, Seq<char>)> {
    prop_matches_from(s, 0).map_values(|m: PropMatch| property_of(s, m))
}

/// The views of key-value pairs of strings.
pub open spec fn pair_views(v: Seq<(String, String)>) -> Seq<(Seq<char>, Seq<char>)> {
    v.map_values(|p: (String, String)| (p.0@, p.1@))
}

pub proof fn lemma_key_end(s: Seq<char>, i: int)
    requires
        0 <= i <= s.len(),
    ensures
        i <= key_end(s, i) <= s.len(),
    decreases s.len() - i,
{
    if i < s.len() && key_char(s[i]) {
        lemma_key_end(s, i + 1);
    }
}

pub proof fn lemma_prop_match(s: Seq<char>, i: int)
    requires
        prop_match_at(s, i) is Some,
    ensures
        ({
            let m = prop_match_at(s, i)->0;
            &&& m.start == i
            &&& i <= m.key_start < m.key_end
            &&& m.key_end + 2 <= m.value_start <= m.value_end <= s.len()
            &&& i < m.value_end
        }),
{
    let ks = skip_ws(s, i);
    lemma_skip_ws_bounds(s, i);
    lemma_key_end(s, ks + 1);
    let ke = key_end(s, ks + 1);
    lemma_skip_hws_bounds(s, ke + 2);
    lemma_first_of(s, '\n', skip_hws(s, ke + 2));
}

fn key_end_exec(s: &[char], i: usize) -> (r: usize)
    requires
        i <= s@.len(),
    ensures
        r == key_end(s@, i as int),
{
    let mut k = i;
    while k < s.len() && (crate::text::is_ascii_alnum_exec(s[k]) || s[k] == '_')
        invariant
            i <= k <= s@.len(),
            key_end(s@, k as int) == key_end(s@, i as int),
        decreases s.len() - k,
    {
        k = k + 1;
    }
    k
}

/// The exec form of a property match: line start, key start and end, value
/// start and end.
fn prop_match_exec(s: &[char], i: usize) -> (r: Option<(usize, usize, usize, usize, usize)>)
    ensures
        r matches Some(t) ==> prop_match_at(s@, i as int) == Some(
            PropMatch {
                start: t.0 as int,
                key_start: t.1 as int,
                key_end: t.2 as int,
                value_start: t.3 as int,
                value_end: t.4 as int,
            },
        ),
        r is None ==> prop_match_at(s@, i as int) is None,
{
    if i >= s.len() {
        return None;
    }
    if !(i == 0 || s[i - 1] == '\n') {
        return None;
    }
    let ks = skip_ws_exec(s, i);
    if ks < s.len() && (('a' <= s[ks] && s[ks] <= 'z') || ('A' <= s[ks] && s[ks] <= 'Z') || s[ks]
        == '_') {
        let ke = key_end_exec(s, ks + 1);
        proof {
            lemma_key_end(s@, ks + 1);
        }
        let dc: [char; 2] = [':', ':'];
        let d: &[char] = &dc;
        assert(d@ =~= seq![':', ':']);
        if matches_at_exec(s, d, ke) {
            let vs = skip_hws_exec(s, ke + 2);
            let ve = first_of_exec(s, '\n', vs);
            return Some((i, ks, ke, vs, ve));
        }
    }
    None
}

/// The first index of a line that contains `p`.
fn first_line_with_exec(ls: &Vec<Vec<char>>, p: &[char]) -> (r: Option<usize>)
    ensures
        r matches Some(k) ==> first_line_with(ls@.map_values(|v: Vec<char>| v@), p@, 0) == Some(
            k as int,
        ),
        r is None ==> first_line_with(ls@.map_values(|v: Vec<char>| v@), p@, 0) is None,
        r matches Some(k) ==> k < ls@.len(),
{
    let ghost views = ls@.map_values(|v: Vec<char>| v@);
    let mut k: usize = 0;
    while k < ls.len()
        invariant
            k <= ls@.len(),
            views == ls@.map_values(|v: Vec<char>| v@),
            first_line_with(views, p@, k as int) == first_line_with(views, p@, 0),
        decreases ls@.len() - k,
    {
        if contains_exec(ls[k].as_slice(), p) {
            assert(views[k as int] == ls@[k as int]@);
            return Some(k);
        }
        k = k + 1;
    }
    None
}

/// Extends a value with the continuation lines that follow line `from`.
fn continue_value_exec(ls: &Vec<Vec<char>>, from: usize, base: u128, v: Vec<char>) -> (r: Vec<
    char,
>)
    ensures
        r@ == continue_value(ls@.map_values(|x: Vec<char>| x@), from as int, base as nat, v@),
{
    let ghost views = ls@.map_values(|x: Vec<char>| x@);
    let mut value = v;
    let mut idx = from;
    let dc: [char; 2] = [':', ':'];
    let d: &[char] = &dc;
    assert(d@ =~= seq![':', ':']);
    while idx < ls.len()
        invariant
            views == ls@.map_values(|x: Vec<char>| x@),
            d@ == seq![':', ':'],
            continue_value(views, idx as int, base as nat, value@) == continue_value(
                views,
                from as int,
                base as nat,
                v@,
            ),
        decreases ls@.len() - idx,
    {
        let line = &ls[idx];
        assert(views[idx as int] == line@);
        let t = trim_chars(line.as_slice());
        if t.len() == 0 {
            idx = idx + 1;
        } else {
            let ws = skip_ws_exec(line.as_slice(), 0);
            let lead = slice_chars(line.as_slice(), 0, ws);
            let indent = byte_len_wide(lead.as_slice());
            assert(lead@ =~= line@.take(ws as int));
            let ts = trim_start_chars(line.as_slice());
            if indent > base && !contains_exec(ts.as_slice(), d) {
                if value.len() > 0 {
                    value.push('\n');
                }
                crate::text::extend_chars(&mut value, t.as_slice());
                idx = idx + 1;
            } else {
                return value;
            }
        }
    }
    value
}

/// Extract properties from block content: each `key:: value` line gives
/// its key and trimmed value; a value goes on over the following lines
/// that are indented deeper than the property line and hold no `::`.
pub fn extract_properties(content: &str) -> (res: Vec<(String, String)>)
    ensures
        pair_views(res@) == properties(content@),
{
    let s = chars_of(content);
    let ls = lines_exec(s.as_slice());
    let _nls = ls.len();
    proof {
        assert(ls@.map_values(|v: Vec<char>| v@) =~= lines(s@));
    }
    let mut res: Vec<(String, String)> = Vec::new();
    let ghost mut acc: Seq<PropMatch> = Seq::empty();
    let mut i: usize = 0;
    while i < s.len()
        invariant
            ls@.map_values(|v: Vec<char>| v@) == lines(s@),
            _nls == ls@.len(),
            acc + prop_matches_from(s@, i as int) == prop_matches_from(s@, 0),
            pair_views(res@) == acc.map_values(|m: PropMatch| property_of(s@, m)),
        decreases s@.len() - i,
    {
        match prop_match_exec(s.as_slice(), i) {
            Some((st, ks, ke, vs, ve)) => {
                proof {
                    lemma_prop_match(s@, i as int);
                }
                let key = slice_chars(s.as_slice(), ks, ke);
                let raw = slice_chars(s.as_slice(), vs, ve);
                let v0 = trim_chars(raw.as_slice());
                let lead = slice_chars(s.as_slice(), st, ks);
                let base = byte_len_wide(lead.as_slice());
                let mut pat = key.clone();
                pat.push(':');
                pat.push(':');
                assert(pat@ =~= key@ + seq![':', ':']);
                let value = match first_line_with_exec(&ls, pat.as_slice()) {
                    Some(li) => continue_value_exec(&ls, li + 1, base, v0),
                    None => v0,
                };
                let ghost m = PropMatch {
                    start: st as int,
                    key_start: ks as int,
                    key_end: ke as int,
                    value_start: vs as int,
                    value_end: ve as int,
                };
                let k = string_from(key.as_slice());
                let v = string_from(value.as_slice());
                let ghost prev = res@;
                res.push((k, v));
                proof {
                    assert(property_of(s@, m) == (k@, v@));
                    assert(pair_views(res@) =~= pair_views(prev).push((k@, v@)));
                    assert(acc.push(m).map_values(|m: PropMatch| property_of(s@, m)) =~= acc.map_values(
                        |m: PropMatch| property_of(s@, m),
                    ).push(property_of(s@, m)));
                    assert(acc.push(m) + prop_matches_from(s@, ve as int) =~= acc
                        + prop_matches_from(s@, i as int));
                    assert(pair_views(res@) =~= acc.push(m).map_values(
                        |m: PropMatch| property_of(s@, m),
                    ));
                    acc = acc.push(m);
                }
                i = ve;
            },
            None => {
                i = i + 1;
            },
        }
    }
    assert(prop_matches_from(s@, i as int) =~= Seq::<PropMatch>::empty());
    assert(acc =~= prop_matches_from(s@, 0));
    res
}

} // verus!

verus! {

// ------------------------------------------------------------------
// Queries over extracted properties
// ------------------------------------------------------------------

/// The value of the first property with the given key.
pub open spec fn property_value(props: Seq<(Seq<char>, Seq<char>)>, key: Seq<char>) -> Option<
    Seq<char>,
>
    decreases props.len(),
{
    if props.len() == 0 {
        None
    } else if props[0].0 == key {
        Some(props[0].1)
    } else {
        property_value(props.drop_first(), key)
    }
}

/// Extract a specific property value: that of the first property with
/// this key.
pub fn get_property_value(content: &str, key: &str) -> (res: Option<String>)
    ensures
        match res {
            Some(v) => property_value(properties(content@), key@) == Some(v@),
            None => property_value(properties(content@), key@) is None,
        },
{
    let props = extract_properties(content);
    let ghost views = pair_views(props@);
    let k = chars_of(key);
    let mut i: usize = 0;
    assert(views.skip(0) =~= views);
    while i < props.len()
        invariant
            i <= props@.len(),
            views == pair_views(props@),
            views == properties(content@),
            k@ == key@,
            property_value(views.skip(i as int), key@) == property_value(views, key@),
        decreases props@.len() - i,
    {
        let pk = chars_of(props[i].0.as_str());
        assert(views.skip(i as int)[0] == views[i as int]);
        if crate::text::chars_eq(pk.as_slice(), k.as_slice()) {
            return Some(props[i].1.clone());
        }
        assert(views.skip(i as int).drop_first() =~= views.skip(i + 1));
        i = i + 1;
    }
    None
}

/// Check if content has properties: it contains `::`.
pub fn has_properties(content: &str) -> (res: bool)
    ensures
        res == contains(content@, seq![':', ':']),
{
    let s = chars_of(content);
    let dc: [char; 2] = [':', ':'];
    let d: &[char] = &dc;
    assert(d@ =~= seq![':', ':']);
    contains_exec(s.as_slice(), d)
}

/// The validity rule for property keys.
pub open spec fn valid_property_key(k: Seq<char>) -> bool {
    &&& k.len() > 0
    &&& blen(k) <= 100
    &&& forall|i: int|
        0 <= i < k.len() ==> crate::text::char_alphanumeric(#[trigger] k[i]) || k[i] == '_'
    &&& (crate::text::char_alphabetic(k[0]) || k[0] == '_')
}

/// Validate a property key: non-empty, at most 100 bytes, only letters,
/// digits and `_`, starting with a letter or `_`.
pub fn is_valid_property_key(key: &str) -> (res: bool)
    ensures
        res == valid_property_key(key@),
{
    let n = crate::text::str_byte_len(key);
    let k = chars_of(key);
    if k.len() == 0 || n > 100 {
        return false;
    }
    let mut i: usize = 0;
    while i < k.len()
        invariant
            k@ == key@,
            i <= k@.len(),
            forall|j: int|
                0 <= j < i ==> crate::text::char_alphanumeric(#[trigger] k@[j]) || k@[j] == '_',
        decreases k@.len() - i,
    {
        if !(crate::text::is_alphanumeric(k[i]) || k[i] == '_') {
            return false;
        }
        i = i + 1;
    }
    crate::text::is_alphabetic(k[0]) || k[0] == '_'
}

/// The trimmed pieces that are not empty.
pub open spec fn nonempty_trimmed(pieces: Seq<Seq<char>>) -> Seq<Seq<char>>
    decreases pieces.len(),
{
    if pieces.len() == 0 {
        Seq::empty()
    } else {
        let t = trim(pieces.last());
        if t.len() > 0 {
            nonempty_trimmed(pieces.drop_last()).push(t)
        } else {
            nonempty_trimmed(pieces.drop_last())
        }
    }
}

/// Parse a property value as a comma-separated list: the trimmed items,
/// leaving out empty ones.
pub fn parse_list_property(value: &str) -> (res: Vec<String>)
    ensures
        crate::text::string_views(res@) == nonempty_trimmed(
            crate::text::split_char(value@, ','),
        ),
        forall|k: int|
            0 <= k < res@.len() ==> (#[trigger] res@[k])@.len() > 0 && res@[k]@ == trim(
                res@[k]@,
            ),
{
    let s = chars_of(value);
    let pieces = crate::text::split_char_exec(s.as_slice(), ',');
    let ghost views = crate::text::split_char(value@, ',');
    let mut res: Vec<String> = Vec::new();
    let mut i: usize = 0;
    while i < pieces.len()
        invariant
            i <= pieces@.len(),
            pieces@.len() == views.len(),
            forall|k: int| 0 <= k < pieces@.len() ==> (#[trigger] pieces@[k])@ == views[k],
            crate::text::string_views(res@) == nonempty_trimmed(views.take(i as int)),
            forall|k: int|
                0 <= k < res@.len() ==> (#[trigger] res@[k])@.len() > 0 && res@[k]@ == trim(
                    res@[k]@,
                ),
        decreases pieces@.len() - i,
    {
        let t = trim_chars(pieces[i].as_slice());
        proof {
            assert(views.take(i + 1).drop_last() =~= views.take(i as int));
            assert(views.take(i + 1).last() == views[i as int]);
        }
        if t.len() > 0 {
            let ts = string_from(t.as_slice());
            let ghost prev = res@;
            res.push(ts);
            proof {
                lemma_string_views_push(prev, ts);
                lemma_trim_idempotent(pieces@[i as int]@);
            }
        }
        i = i + 1;
    }
    assert(views.take(pieces@.len() as int) =~= views);
    res
}

/// Trimming twice is trimming once.
pub proof fn lemma_trim_idempotent(s: Seq<char>)
    ensures
        trim(trim(s)) == trim(s),
{
    let t = trim(s);
    crate::text::lemma_trim_facts(s);
    if t.len() > 0 {
        assert(skip_ws(t, 0) == 0);
        assert(crate::text::back_ws(t, 0, t.len() as int) == t.len());
    } else {
        crate::text::lemma_skip_ws_bounds(t, 0);
    }
    assert(trim(t) =~= t);
}

/// One property as `key: value`.
pub open spec fn property_text(p: (Seq<char>, Seq<char>)) -> Seq<char> {
    p.0 + seq![':', ' '] + p.1
}

/// Format properties for display: `key: value` pairs joined by `, `.
pub fn format_properties(properties: &[(String, String)]) -> (res: String)
    ensures
        res@ == crate::text::join(
            properties@.map_values(|p: (String, String)| property_text((p.0@, p.1@))),
            seq![',', ' '],
        ),
{
    let mut pieces: Vec<Vec<char>> = Vec::new();
    let mut i: usize = 0;
    while i < properties.len()
        invariant
            i <= properties@.len(),
            pieces@.len() == i,
            forall|k: int|
                0 <= k < i ==> (#[trigger] pieces@[k])@ == property_text(
                    (properties@[k].0@, properties@[k].1@),
                ),
        decreases properties@.len() - i,
    {
        let mut p = chars_of(properties[i].0.as_str());
        p.push(':');
        p.push(' ');
        crate::text::extend_chars(&mut p, chars_of(properties[i].1.as_str()).as_slice());
        assert(p@ =~= property_text((properties@[i as int].0@, properties@[i as int].1@)));
        pieces.push(p);
        i = i + 1;
    }
    let sep: [char; 2] = [',', ' '];
    let sp: &[char] = &sep;
    assert(sp@ =~= seq![',', ' ']);
    let out = crate::text::join_exec(&pieces, sp);
    assert(pieces@.map_values(|v: Vec<char>| v@) =~= properties@.map_values(
        |p: (String, String)| property_text((p.0@, p.1@)),
    ));
    string_from(out.as_slice())
}

/// The map from keys to values; a later pair replaces an earlier one with
/// the same key.
pub open spec fn pairs_to_map(props: Seq<(String, String)>) -> Map<String, String>
    decreases props.len(),
{
    if props.len() == 0 {
        Map::empty()
    } else {
        pairs_to_map(props.drop_last()).insert(props.last().0, props.last().1)
    }
}

/// Get properties as a key-value map.  Where `String` keys follow the
/// hashing model that vstd describes, the map is the pairs' map.
pub fn properties_to_map(properties: &[(String, String)]) -> (res: std::collections::HashMap<
    String,
    String,
>)
    ensures
        vstd::std_specs::hash::obeys_key_model::<String>() ==> res@ == pairs_to_map(properties@),
{
    let mut map: std::collections::HashMap<String, String> = std::collections::HashMap::new();
    let mut i: usize = 0;
    while i < properties.len()
        invariant
            i <= properties@.len(),
            vstd::std_specs::hash::obeys_key_model::<String>() ==> map@ == pairs_to_map(
                properties@.take(i as int),
            ),
        decreases properties@.len() - i,
    {
        let k = properties[i].0.clone();
        let v = properties[i].1.clone();
        map.insert(k, v);
        proof {
            assert(properties@.take(i + 1).drop_last() =~= properties@.take(i as int));
        }
        i = i + 1;
    }
    assert(properties@.take(properties@.len() as int) =~= properties@);
    map
}

} // verus!

verus! {

// ------------------------------------------------------------------
// Malformed properties
// ------------------------------------------------------------------

/// Whether a key character is one the key grammar cannot hold and is no
/// space (spaces have a report of their own).
pub open spec fn key_char_invalid(c: char) -> bool {
    !(crate::text::char_alphanumeric(c) || c == '_' || c == ' ')
}

/// The reports on the key before `::` in a trimmed line: an empty key, a
/// key with spaces, a key with other invalid characters (the last two
/// independently).
pub open spec fn key_reports(t: Seq<char>, key: Seq<char>) -> Seq<Seq<char>> {
    if key.len() == 0 {
        seq!["Empty property key: "@ + t]
    } else {
        (if key.contains(' ') {
            seq!["Property key contains spaces: "@ + t]
        } else {
            Seq::empty()
        }) + (if exists|i: int| 0 <= i < key.len() && #[trigger] key_char_invalid(key[i]) {
            seq!["Property key contains invalid characters: "@ + t]
        } else {
            Seq::empty()
        })
    }
}

/// The reports for one trimmed line.
pub open spec fn line_reports(t: Seq<char>) -> Seq<Seq<char>> {
    if t.len() == 0 || !t.contains(':') {
        Seq::empty()
    } else if contains(t, seq![':', ':']) {
        key_reports(t, trim(t.take(crate::text::find(t, seq![':', ':'])->0)))
    } else if !contains(t, "http"@) && !crate::text::starts_with(t, seq!['-'])
        && !crate::text::starts_with(t, seq!['#']) {
        seq!["Possible malformed property (single colon): "@ + t]
    } else {
        Seq::empty()
    }
}

/// The reports for a sequence of lines.
pub open spec fn malformed_reports(ls: Seq<Seq<char>>) -> Seq<Seq<char>>
    decreases ls.len(),
{
    if ls.len() == 0 {
        Seq::empty()
    } else {
        malformed_reports(ls.drop_last()) + line_reports(trim(ls.last()))
    }
}

/// A report: the message followed by the line.
fn report(msg: &str, t: &[char]) -> (r: String)
    ensures
        r@ == msg@ + t@,
{
    let mut m = chars_of(msg);
    crate::text::extend_chars(&mut m, t);
    string_from(m.as_slice())
}

fn has_invalid_key_char(key: &[char]) -> (b: bool)
    ensures
        b == exists|i: int| 0 <= i < key@.len() && #[trigger] key_char_invalid(key@[i]),
{
    let mut i: usize = 0;
    while i < key.len()
        invariant
            i <= key@.len(),
            forall|j: int| 0 <= j < i ==> !#[trigger] key_char_invalid(key@[j]),
        decreases key@.len() - i,
    {
        let c = key[i];
        if !(crate::text::is_alphanumeric(c) || c == '_' || c == ' ') {
            assert(key_char_invalid(key@[i as int]));
            return true;
        }
        i = i + 1;
    }
    false
}

/// Append the reports for one trimmed line.
fn push_line_reports(res: &mut Vec<String>, t: &[char])
    ensures
        crate::text::string_views(final(res)@) == crate::text::string_views(old(res)@)
            + line_reports(t@),
{
    let ghost before = crate::text::string_views(res@);
    if t.len() == 0 || !crate::text::contains_char(t, ':') {
        assert(line_reports(t@) =~= Seq::<Seq<char>>::empty());
        assert(before + line_reports(t@) =~= before);
        return;
    }
    let dc: [char; 2] = [':', ':'];
    let d: &[char] = &dc;
    assert(d@ =~= seq![':', ':']);
    match crate::text::find_from_exec(t, d, 0) {
        Some(p) => {
            proof {
                crate::text::lemma_find_from_facts(t@, d@, 0);
            }
            let head = slice_chars(t, 0, p);
            let key = trim_chars(head.as_slice());
            assert(key@ == trim(t@.take(crate::text::find(t@, seq![':', ':'])->0)));
            if key.len() == 0 {
                let r = report("Empty property key: ", t);
                res.push(r);
                proof {
                    lemma_string_views_push(old(res)@, r);
                }
            } else {
                let sp = crate::text::contains_char(key.as_slice(), ' ');
                if sp {
                    let r = report("Property key contains spaces: ", t);
                    let ghost prev = res@;
                    res.push(r);
                    proof {
                        lemma_string_views_push(prev, r);
                    }
                }
                let ghost mid = crate::text::string_views(res@);
                let bad = has_invalid_key_char(key.as_slice());
                if bad {
                    let r = report("Property key contains invalid characters: ", t);
                    let ghost prev = res@;
                    res.push(r);
                    proof {
                        lemma_string_views_push(prev, r);
                    }
                }
                proof {
                    let a: Seq<Seq<char>> = if key@.contains(' ') {
                        seq!["Property key contains spaces: "@ + t@]
                    } else {
                        Seq::empty()
                    };
                    let b: Seq<Seq<char>> = if bad {
                        seq!["Property key contains invalid characters: "@ + t@]
                    } else {
                        Seq::empty()
                    };
                    assert(mid =~= before + a);
                    assert(crate::text::string_views(res@) =~= mid + b);
                    assert(line_reports(t@) == a + b);
                    assert(before + (a + b) =~= before + a + b);
                }
            }
        },
        None => {
            let http = chars_of("http");
            let dash: [char; 1] = ['-'];
            let hash: [char; 1] = ['#'];
            let ds: &[char] = &dash;
            let hs: &[char] = &hash;
            assert(ds@ =~= seq!['-']);
            assert(hs@ =~= seq!['#']);
            if !contains_exec(t, http.as_slice()) && !crate::text::starts_with_exec(t, ds)
                && !crate::text::starts_with_exec(t, hs) {
                let r = report("Possible malformed property (single colon): ", t);
                res.push(r);
                proof {
                    lemma_string_views_push(old(res)@, r);
                }
            } else {
                assert(before + line_reports(t@) =~= before);
            }
        },
    }
}

/// Find malformed properties: for each line that has a colon, a report
/// for an empty key, for a key with spaces and for a key with other
/// invalid characters before `::`, or for a single colon that does not
/// look like a URL, list item or heading.
pub fn find_malformed_properties(content: &str) -> (res: Vec<String>)
    ensures
        crate::text::string_views(res@) == malformed_reports(lines(content@)),
{
    let s = chars_of(content);
    let ls = lines_exec(s.as_slice());
    let ghost views = ls@.map_values(|v: Vec<char>| v@);
    assert(views =~= lines(s@));
    let mut res: Vec<String> = Vec::new();
    let mut i: usize = 0;
    assert(crate::text::string_views(res@) =~= Seq::<Seq<char>>::empty());
    while i < ls.len()
        invariant
            i <= ls@.len(),
            views == ls@.map_values(|v: Vec<char>| v@),
            crate::text::string_views(res@) == malformed_reports(views.take(i as int)),
        decreases ls@.len() - i,
    {
        let t = trim_chars(ls[i].as_slice());
        proof {
            assert(views.take(i + 1).drop_last() =~= views.take(i as int));
            assert(views.take(i + 1).last() == ls@[i as int]@);
        }
        push_line_reports(&mut res, t.as_slice());
        i = i + 1;
    }
    assert(views.take(ls@.len() as int) =~= views);
    res
}

} // verus!

verus! {

// ------------------------------------------------------------------
// Property context at a cursor
// ------------------------------------------------------------------

/// Where the cursor is in a property line: in the key (`"key"`) or in the
/// value (`"value"`), the text typed so far, and for a value the key.
#[derive(Debug, Clone)]
pub struct PropertyContext {
    pub context_type: String,
    pub partial_text: String,
    pub property_key: Option<String>,
}

/// The abstract value of a property context.
pub struct PropertyContextView {
    pub context_type: Seq<char>,
    pub partial_text: Seq<char>,
    pub property_key: Option<Seq<char>>,
}

impl View for PropertyContext {
    type V = PropertyContextView;

    open spec fn view(&self) -> PropertyContextView {
        PropertyContextView {
            context_type: self.context_type@,
            partial_text: self.partial_text@,
            property_key: match self.property_key {
                Some(k) => Some(k@),
                None => None,
            },
        }
    }
}

/// The property context at character index `k` of `s`: the line holding
/// the cursor must contain `::`; before it the cursor is in the key, after
/// it in the value.
pub open spec fn property_context_of(s: Seq<char>, k: int) -> Option<PropertyContextView> {
    let line_start = match crate::text::last_of(s, '\n', 0, k) {
        Some(p) => p + 1,
        None => 0,
    };
    let line_end = first_of(s, '\n', k);
    let line = s.subrange(line_start, line_end);
    let cil = k - line_start;
    match crate::text::find(line, seq![':', ':']) {
        Some(dc) => if cil <= dc {
            Some(
                PropertyContextView {
                    context_type: "key"@,
                    partial_text: trim_start(line.take(cil)),
                    property_key: None,
                },
            )
        } else {
            let value_start = dc + 2;
            let partial = if cil > value_start {
                trim_start(line.subrange(value_start, cil))
            } else {
                Seq::empty()
            };
            Some(
                PropertyContextView {
                    context_type: "value"@,
                    partial_text: partial,
                    property_key: Some(trim(line.take(dc))),
                },
            )
        },
        None => None,
    }
}

/// Get the property context at a cursor position (a byte offset), for
/// autocomplete.
pub fn get_property_context(content: &str, cursor_position: usize) -> (res: Option<
    PropertyContext,
>)
    requires
        cursor_position > blen(content@) || vstd::utf8::is_char_boundary(
            vstd::string::StringSliceAdditionalSpecFns::spec_bytes(content),
            cursor_position as int,
        ),
    ensures
        cursor_position > blen(content@) ==> res is None,
        cursor_position <= blen(content@) ==> match res {
            Some(c) => property_context_of(
                content@,
                crate::links::prefix_bytes(content@, cursor_position as int).len() as int,
            ) == Some(c@),
            None => property_context_of(
                content@,
                crate::links::prefix_bytes(content@, cursor_position as int).len() as int,
            ) is None,
        },
{
    let total = crate::text::str_byte_len(content);
    if cursor_position > total {
        return None;
    }
    let (before_str, after_str) = content.split_at(cursor_position);
    proof {
        let bytes = vstd::string::StringSliceAdditionalSpecFns::spec_bytes(content);
        vstd::utf8::encode_utf8_valid_utf8(content@);
        vstd::utf8::decode_utf8_split(bytes, cursor_position as int);
        vstd::utf8::encode_utf8_decode_utf8(content@);
        vstd::utf8::encode_utf8_decode_utf8(before_str@);
        vstd::utf8::encode_utf8_decode_utf8(after_str@);
        assert(content@ =~= before_str@ + after_str@);
        assert(before_str@ == crate::links::prefix_bytes(content@, cursor_position as int));
    }
    let s = chars_of(content);
    let before = chars_of(before_str);
    let k = before.len();
    assert(s@.take(k as int) =~= before@);
    proof {
        crate::text::lemma_last_of(s@, '\n', 0, k as int);
    }
    let line_start = match crate::text::last_of_exec(s.as_slice(), '\n', 0, k) {
        Some(p) => p + 1,
        None => 0,
    };
    proof {
        crate::text::lemma_last_of(s@, '\n', 0, k as int);
        lemma_first_of(s@, '\n', k as int);
    }
    let line_end = first_of_exec(s.as_slice(), '\n', k);
    let line = slice_chars(s.as_slice(), line_start, line_end);
    let cil = k - line_start;
    let dc: [char; 2] = [':', ':'];
    let d: &[char] = &dc;
    assert(d@ =~= seq![':', ':']);
    match crate::text::find_from_exec(line.as_slice(), d, 0) {
        Some(dcp) => {
            proof {
                crate::text::lemma_find_from_facts(line@, d@, 0);
            }
            if cil <= dcp {
                let head = slice_chars(line.as_slice(), 0, cil);
                let partial = trim_start_chars(head.as_slice());
                Some(
                    PropertyContext {
                        context_type: string_from(chars_of("key").as_slice()),
                        partial_text: string_from(partial.as_slice()),
                        property_key: None,
                    },
                )
            } else {
                let head = slice_chars(line.as_slice(), 0, dcp);
                let key = trim_chars(head.as_slice());
                let value_start = dcp + 2;
                let partial = if cil > value_start {
                    let mid = slice_chars(line.as_slice(), value_start, cil);
                    trim_start_chars(mid.as_slice())
                } else {
                    Vec::new()
                };
                assert(cil <= value_start ==> partial@ =~= Seq::<char>::empty());
                Some(
                    PropertyContext {
                        context_type: string_from(chars_of("value").as_slice()),
                        partial_text: string_from(partial.as_slice()),
                        property_key: Some(string_from(key.as_slice())),
                    },
                )
            }
        },
        None => None,
    }
}

// ------------------------------------------------------------------
// Removing properties
// ------------------------------------------------------------------

/// The text from `i` on with every property line's match removed.
pub open spec fn strip_props_from(s: Seq<char>, i: int) -> Seq<char>
    decreases s.len() - i,
{
    if i < 0 || i >= s.len() {
        Seq::empty()
    } else {
        match prop_match_at(s, i) {
            Some(m) => if i < m.value_end <= s.len() {
                strip_props_from(s, m.value_end)
            } else {
                Seq::empty()
            },
            None => seq![s[i]] + strip_props_from(s, i + 1),
        }
    }
}

/// At line start `p`, a run of whitespace holding a newline: the index of
/// the last newline in the run.
pub open spec fn blank_run_newline(t: Seq<char>, p: int) -> Option<int> {
    if 0 <= p < t.len() && is_line_start(t, p) {
        crate::text::last_of(t, '\n', p, skip_ws(t, p))
    } else {
        None
    }
}

/// The text from `p` on with its blank lines removed.
pub open spec fn drop_blank_lines_from(t: Seq<char>, p: int) -> Seq<char>
    decreases t.len() - p,
{
    if p < 0 || p >= t.len() {
        Seq::empty()
    } else {
        match blank_run_newline(t, p) {
            Some(m) => if p < m + 1 <= t.len() {
                drop_blank_lines_from(t, m + 1)
            } else {
                Seq::empty()
            },
            None => seq![t[p]] + drop_blank_lines_from(t, p + 1),
        }
    }
}

/// Content without its properties: property lines removed, then blank
/// lines removed, then trimmed.
pub open spec fn stripped(s: Seq<char>) -> Seq<char> {
    trim(drop_blank_lines_from(strip_props_from(s, 0), 0))
}

/// Remove properties from content, for clean text extraction.
pub fn strip_properties(content: &str) -> (res: String)
    ensures
        res@ == stripped(content@),
{
    let s = chars_of(content);
    let mut t: Vec<char> = Vec::new();
    let mut i: usize = 0;
    while i < s.len()
        invariant
            t@ + strip_props_from(s@, i as int) == strip_props_from(s@, 0),
        decreases s@.len() - i,
    {
        let ghost before = t@;
        match prop_match_exec(s.as_slice(), i) {
            Some((_st, _ks, _ke, _vs, ve)) => {
                proof {
                    lemma_prop_match(s@, i as int);
                }
                assert(t@ + strip_props_from(s@, ve as int) =~= before + strip_props_from(
                    s@,
                    i as int,
                ));
                i = ve;
            },
            None => {
                t.push(s[i]);
                assert(t@ + strip_props_from(s@, i + 1) =~= before + strip_props_from(
                    s@,
                    i as int,
                ));
                i = i + 1;
            },
        }
    }
    assert(strip_props_from(s@, i as int) =~= Seq::<char>::empty());
    assert(t@ =~= strip_props_from(s@, 0));
    let mut u: Vec<char> = Vec::new();
    let mut p: usize = 0;
    while p < t.len()
        invariant
            u@ + drop_blank_lines_from(t@, p as int) == drop_blank_lines_from(t@, 0),
        decreases t@.len() - p,
    {
        let ghost before = u@;
        let mut found: Option<usize> = None;
        if p == 0 || t[p - 1] == '\n' {
            let q = skip_ws_exec(t.as_slice(), p);
            found = crate::text::last_of_exec(t.as_slice(), '\n', p, q);
            proof {
                crate::text::lemma_last_of(t@, '\n', p as int, q as int);
            }
        }
        assert(found matches Some(m) ==> blank_run_newline(t@, p as int) == Some(m as int));
        assert(found is None ==> blank_run_newline(t@, p as int) is None);
        match found {
            Some(m) => {
                assert(u@ + drop_blank_lines_from(t@, m + 1) =~= before + drop_blank_lines_from(
                    t@,
                    p as int,
                ));
                p = m + 1;
            },
            None => {
                u.push(t[p]);
                assert(u@ + drop_blank_lines_from(t@, p + 1) =~= before + drop_blank_lines_from(
                    t@,
                    p as int,
                ));
                p = p + 1;
            },
        }
    }
    assert(drop_blank_lines_from(t@, p as int) =~= Seq::<char>::empty());
    assert(u@ =~= drop_blank_lines_from(t@, 0));
    let r = trim_chars(u.as_slice());
    string_from(r.as_slice())
}

} // verus!

verus! {

// ------------------------------------------------------------------
// HTML rendering
// ------------------------------------------------------------------

/// The HTML escape of one character.
pub open spec fn escape_char(c: char) -> Seq<char> {
    if c == '&' {
        "&amp;"@
    } else if c == '<' {
        "&lt;"@
    } else if c == '>' {
        "&gt;"@
    } else if c == '"' {
        "&quot;"@
    } else if c == '\'' {
        "&#39;"@
    } else {
        seq![c]
    }
}

/// The HTML escape of a text, character by character.
pub open spec fn html_escaped(s: Seq<char>) -> Seq<char>
    decreases s.len(),
{
    if s.len() == 0 {
        Seq::empty()
    } else {
        html_escaped(s.drop_last()) + escape_char(s.last())
    }
}

/// Characters that HTML escaping removes.
pub open spec fn html_special(c: char) -> bool {
    c == '<' || c == '>' || c == '"' || c == '\''
}

proof fn lemma_escaped_clean(s: Seq<char>)
    ensures
        forall|k: int| 0 <= k < html_escaped(s).len() ==> !html_special(#[trigger] html_escaped(s)[k]),
    decreases s.len(),
{
    reveal_strlit("&amp;");
    reveal_strlit("&lt;");
    reveal_strlit("&gt;");
    reveal_strlit("&quot;");
    reveal_strlit("&#39;");
    if s.len() > 0 {
        lemma_escaped_clean(s.drop_last());
        let a = html_escaped(s.drop_last());
        let b = escape_char(s.last());
        assert forall|k: int| 0 <= k < html_escaped(s).len() implies !html_special(
            #[trigger] html_escaped(s)[k],
        ) by {
            if k < a.len() {
                assert(html_escaped(s)[k] == a[k]);
            } else {
                assert(html_escaped(s)[k] == b[k - a.len()]);
            }
        }
    }
}

/// Simple HTML escaping of `&`, `<`, `>`, `"` and `'`.
pub fn html_escape(text: &str) -> (res: String)
    ensures
        res@ == html_escaped(text@),
        forall|k: int| 0 <= k < res@.len() ==> !html_special(#[trigger] res@[k]),
{
    let s = chars_of(text);
    let amp = chars_of("&amp;");
    let lt = chars_of("&lt;");
    let gt = chars_of("&gt;");
    let quot = chars_of("&quot;");
    let apos = chars_of("&#39;");
    let mut out: Vec<char> = Vec::new();
    let mut i: usize = 0;
    while i < s.len()
        invariant
            i <= s@.len(),
            amp@ == "&amp;"@,
            lt@ == "&lt;"@,
            gt@ == "&gt;"@,
            quot@ == "&quot;"@,
            apos@ == "&#39;"@,
            out@ == html_escaped(s@.take(i as int)),
        decreases s@.len() - i,
    {
        let c = s[i];
        proof {
            assert(s@.take(i + 1).drop_last() =~= s@.take(i as int));
            assert(s@.take(i + 1).last() == c);
        }
        if c == '&' {
            crate::text::extend_chars(&mut out, amp.as_slice());
        } else if c == '<' {
            crate::text::extend_chars(&mut out, lt.as_slice());
        } else if c == '>' {
            crate::text::extend_chars(&mut out, gt.as_slice());
        } else if c == '"' {
            crate::text::extend_chars(&mut out, quot.as_slice());
        } else if c == '\'' {
            crate::text::extend_chars(&mut out, apos.as_slice());
        } else {
            out.push(c);
            assert(out@ =~= html_escaped(s@.take(i as int)) + seq![c]);
        }
        i = i + 1;
    }
    assert(s@.take(s@.len() as int) =~= s@);
    proof {
        lemma_escaped_clean(s@);
    }
    string_from(out.as_slice())
}

/// The HTML of one property.
pub open spec fn property_html(p: (Seq<char>, Seq<char>)) -> Seq<char> {
    "<div class=\"property\"><span class=\"property-key\">"@ + html_escaped(p.0)
        + "</span>: <span class=\"property-value\">"@ + html_escaped(p.1) + "</span></div>"@
}

/// The HTML of the properties, in order.
pub open spec fn properties_html(props: Seq<(Seq<char>, Seq<char>)>) -> Seq<char>
    decreases props.len(),
{
    if props.len() == 0 {
        Seq::empty()
    } else {
        properties_html(props.drop_last()) + property_html(props.last())
    }
}

/// Render properties as HTML: nothing for no properties, else a
/// `block-properties` div holding one escaped `property` div per pair.
pub fn render_properties_html(properties: &[(String, String)]) -> (res: String)
    ensures
        properties@.len() == 0 ==> res@.len() == 0,
        properties@.len() > 0 ==> res@ == "<div class=\"block-properties\">"@ + properties_html(
            pair_views(properties@),
        ) + "</div>"@,
{
    if properties.len() == 0 {
        return String::new();
    }
    let mut html = chars_of("<div class=\"block-properties\">");
    let open_key = chars_of("<div class=\"property\"><span class=\"property-key\">");
    let mid = chars_of("</span>: <span class=\"property-value\">");
    let close = chars_of("</span></div>");
    let ghost views = pair_views(properties@);
    let mut i: usize = 0;
    while i < properties.len()
        invariant
            i <= properties@.len(),
            views == pair_views(properties@),
            open_key@ == "<div class=\"property\"><span class=\"property-key\">"@,
            mid@ == "</span>: <span class=\"property-value\">"@,
            close@ == "</span></div>"@,
            html@ == "<div class=\"block-properties\">"@ + properties_html(views.take(i as int)),
        decreases properties@.len() - i,
    {
        let k = html_escape(properties[i].0.as_str());
        let v = html_escape(properties[i].1.as_str());
        let ghost before = html@;
        crate::text::extend_chars(&mut html, open_key.as_slice());
        crate::text::extend_chars(&mut html, chars_of(k.as_str()).as_slice());
        crate::text::extend_chars(&mut html, mid.as_slice());
        crate::text::extend_chars(&mut html, chars_of(v.as_str()).as_slice());
        crate::text::extend_chars(&mut html, close.as_slice());
        proof {
            assert(views.take(i + 1).drop_last() =~= views.take(i as int));
            assert(views.take(i + 1).last() == views[i as int]);
            assert(html@ =~= before + property_html(views[i as int]));
        }
        i = i + 1;
    }
    assert(views.take(properties@.len() as int) =~= views);
    crate::text::extend_chars(&mut html, chars_of("</div>").as_slice());
    string_from(html.as_slice())
}

// ------------------------------------------------------------------
// Property values
// ------------------------------------------------------------------

/// A property with its line number; a value holding a comma is a list.
#[derive(Debug, Clone)]
pub struct Property {
    pub key: String,
    pub value: String,
    pub line_number: usize,
    pub is_list: bool,
}

impl Property {
    /// A property; it is a list when its value contains a comma.
    pub fn new(key: String, value: String, line_number: usize) -> (p: Self)
        ensures
            p.key@ == key@,
            p.value@ == value@,
            p.line_number == line_number,
            p.is_list == value@.contains(','),
    {
        let v = chars_of(value.as_str());
        let is_list = crate::text::contains_char(v.as_slice(), ',');
        Property { key, value, line_number, is_list }
    }

    /// The value's items: the parsed list for a list, else the whole value.
    pub fn as_list(&self) -> (res: Vec<String>)
        ensures
            self.is_list ==> crate::text::string_views(res@) == nonempty_trimmed(
                crate::text::split_char(self.value@, ','),
            ),
            !self.is_list ==> crate::text::string_views(res@) == seq![self.value@],
    {
        if self.is_list {
            parse_list_property(self.value.as_str())
        } else {
            let mut v: Vec<String> = Vec::new();
            v.push(self.value.clone());
            assert(crate::text::string_views(v@) =~= seq![self.value@]);
            v
        }
    }
}

} // verus!

verus! {

proof fn lemma_split_no_sep(s: Seq<char>, c: char, start: int, i: int)
    requires
        0 <= start <= i <= s.len(),
        forall|k: int| i <= k < s.len() ==> s[k] != c,
    ensures
        crate::text::split_from(s, c, start, i) == seq![s.subrange(start, s.len() as int)],
    decreases s.len() - i,
{
    if i < s.len() {
        lemma_split_no_sep(s, c, start, i + 1);
    }
}

proof fn lemma_split_append(a: Seq<char>, b: Seq<char>, c: char, start: int, i: int)
    requires
        0 <= start <= i <= a.len(),
        !b.contains(c),
    ensures
        crate::text::split_from(a + seq![c] + b, c, start, i) == crate::text::split_from(a, c, start, i)
            + seq![b],
    decreases a.len() - i,
{
    let s = a + seq![c] + b;
    if i == a.len() {
        assert(s[i] == c);
        assert forall|k: int| i + 1 <= k < s.len() implies s[k] != c by {
            assert(s[k] == b[k - a.len() - 1]);
        }
        lemma_split_no_sep(s, c, i + 1, i + 1);
        assert(s.subrange(i + 1, s.len() as int) =~= b);
        assert(s.subrange(start, i) =~= a.subrange(start, a.len() as int));
        assert(crate::text::split_from(a, c, start, i) == seq![a.subrange(start, a.len() as int)]);
    } else {
        assert(s[i] == a[i]);
        if a[i] == c {
            lemma_split_append(a, b, c, i + 1, i + 1);
            assert(s.subrange(start, i) =~= a.subrange(start, i));
        } else {
            lemma_split_append(a, b, c, start, i + 1);
        }
    }
}

/// The pieces of the list text of `items`: the first item, then a space
/// before each further item.
proof fn lemma_split_joined(items: Seq<Seq<char>>)
    requires
        items.len() > 0,
        forall|k: int| 0 <= k < items.len() ==> !(#[trigger] items[k]).contains(','),
    ensures
        crate::text::split_char(crate::text::join(items, ", "@), ',').len() == items.len(),
        crate::text::split_char(crate::text::join(items, ", "@), ',')[0] == items[0],
        forall|k: int|
            0 < k < items.len() ==> #[trigger] crate::text::split_char(
                crate::text::join(items, ", "@),
                ',',
            )[k] == seq![' '] + items[k],
    decreases items.len(),
{
    reveal_strlit(", ");
    if items.len() == 1 {
        lemma_split_no_sep(items[0], ',', 0, 0);
        assert(items[0].subrange(0, items[0].len() as int) =~= items[0]);
    } else {
        let dl = items.drop_last();
        lemma_split_joined(dl);
        let a = crate::text::join(dl, ", "@);
        let b = seq![' '] + items.last();
        assert(!b.contains(',')) by {
            if b.contains(',') {
                let k = choose|k: int| 0 <= k < b.len() && b[k] == ',';
                assert(items.last()[k - 1] == ',');
                assert(items[items.len() - 1].contains(','));
            }
        }
        assert(crate::text::join(items, ", "@) =~= a + seq![','] + b);
        lemma_split_append(a, b, ',', 0, 0);
    }
}

proof fn lemma_trim_spaced(x: Seq<char>)
    requires
        x.len() > 0,
        trim(x) == x,
    ensures
        trim(seq![' '] + x) == x,
        trim(x) == x,
{
    crate::text::lemma_trim_facts(x);
    let s = seq![' '] + x;
    assert(!crate::text::is_ws(x[0]));
    assert(!crate::text::is_ws(x.last()));
    assert(crate::text::is_ws(' '));
    assert(s[1] == x[0]);
    assert(skip_ws(s, 1) == 1);
    assert(skip_ws(s, 0) == 1);
    assert(s[s.len() - 1] == x.last());
    assert(crate::text::back_ws(s, 1, s.len() as int) == s.len());
    assert(s.subrange(1, s.len() as int) =~= x);
}

/// Parsing the list text that joins non-empty, trimmed items without
/// commas by `", "` gives back the items.
pub proof fn law_list_property_roundtrip(items: Seq<Seq<char>>)
    requires
        forall|k: int|
            0 <= k < items.len() ==> {
                &&& (#[trigger] items[k]).len() > 0
                &&& trim(items[k]) == items[k]
                &&& !items[k].contains(',')
            },
    ensures
        nonempty_trimmed(crate::text::split_char(crate::text::join(items, ", "@), ',')) == items,
{
    if items.len() == 0 {
        assert(crate::text::join(items, ", "@) =~= Seq::<char>::empty());
        lemma_split_no_sep(Seq::<char>::empty(), ',', 0, 0);
        let p = crate::text::split_char(Seq::<char>::empty(), ',');
        assert(Seq::<char>::empty().subrange(0, 0) =~= Seq::<char>::empty());
        assert(p =~= seq![Seq::<char>::empty()]);
        crate::text::lemma_trim_facts(Seq::<char>::empty());
        assert(p.drop_last() =~= Seq::<Seq<char>>::empty());
        assert(nonempty_trimmed(p.drop_last()) =~= Seq::<Seq<char>>::empty());
        assert(nonempty_trimmed(p) =~= items);
    } else {
        lemma_split_joined(items);
        let p = crate::text::split_char(crate::text::join(items, ", "@), ',');
        lemma_nonempty_trimmed_prefix(p, items, items.len() as int);
        assert(p.take(p.len() as int) =~= p);
        assert(items.take(items.len() as int) =~= items);
    }
}

proof fn lemma_nonempty_trimmed_prefix(p: Seq<Seq<char>>, items: Seq<Seq<char>>, n: int)
    requires
        0 < n <= items.len(),
        p.len() == items.len(),
        p[0] == items[0],
        forall|k: int| 0 < k < items.len() ==> #[trigger] p[k] == seq![' '] + items[k],
        forall|k: int|
            0 <= k < items.len() ==> {
                &&& (#[trigger] items[k]).len() > 0
                &&& trim(items[k]) == items[k]
            },
    ensures
        nonempty_trimmed(p.take(n)) == items.take(n),
    decreases n,
{
    let last = p[n - 1];
    assert(items[n - 1].len() > 0 && trim(items[n - 1]) == items[n - 1]);
    if n - 1 > 0 {
        lemma_trim_spaced(items[n - 1]);
        assert(last == seq![' '] + items[n - 1]);
    }
    assert(trim(last) == items[n - 1]);
    assert(p.take(n).drop_last() =~= p.take(n - 1));
    assert(p.take(n).last() == last);
    if n > 1 {
        lemma_nonempty_trimmed_prefix(p, items, n - 1);
    } else {
        assert(p.take(0) =~= Seq::<Seq<char>>::empty());
        assert(nonempty_trimmed(p.take(0)) =~= Seq::<Seq<char>>::empty());
        assert(items.take(0) =~= Seq::<Seq<char>>::empty());
    }
    assert(trim(p.take(n).last()).len() > 0);
    assert(nonempty_trimmed(p.take(n)) == nonempty_trimmed(p.take(n - 1)).push(items[n - 1]));
    assert(items.take(n) =~= items.take(n - 1).push(items[n - 1]));
}

/// No character of `p` is `c`.
pub open spec fn free_of(p: Seq<char>, c: char) -> bool {
    forall|k: int| 0 <= k < p.len() ==> p[k] != c
}

/// The items that parsing a list gives hold no comma.
pub proof fn law_list_items_have_no_comma(value: Seq<char>)
    ensures
        forall|k: int|
            0 <= k < nonempty_trimmed(crate::text::split_char(value, ',')).len() ==> free_of(
                #[trigger] nonempty_trimmed(crate::text::split_char(value, ','))[k],
                ',',
            ),
{
    lemma_split_pieces_no_sep(value, ',', 0, 0);
    lemma_nonempty_trimmed_no_sep(crate::text::split_char(value, ','));
}

proof fn lemma_split_pieces_no_sep(s: Seq<char>, c: char, start: int, i: int)
    requires
        0 <= start <= i <= s.len(),
        forall|k: int| start <= k < i ==> s[k] != c,
    ensures
        forall|j: int|
            0 <= j < crate::text::split_from(s, c, start, i).len() ==> free_of(
                #[trigger] crate::text::split_from(s, c, start, i)[j],
                c,
            ),
    decreases s.len() - i,
{
    let r = crate::text::split_from(s, c, start, i);
    if i >= s.len() {
        let piece = s.subrange(start, s.len() as int);
        assert(r == seq![piece]);
        assert(free_of(piece, c)) by {
            assert forall|k: int| 0 <= k < piece.len() implies piece[k] != c by {
                assert(piece[k] == s[start + k]);
            }
        }
        assert forall|j: int| 0 <= j < r.len() implies free_of(#[trigger] r[j], c) by {
            assert(j == 0);
        }
    } else if s[i] == c {
        lemma_split_pieces_no_sep(s, c, i + 1, i + 1);
        let rest = crate::text::split_from(s, c, i + 1, i + 1);
        let piece = s.subrange(start, i);
        assert(r == seq![piece] + rest);
        assert(free_of(piece, c)) by {
            assert forall|k: int| 0 <= k < piece.len() implies piece[k] != c by {
                assert(piece[k] == s[start + k]);
            }
        }
        assert forall|j: int| 0 <= j < r.len() implies free_of(#[trigger] r[j], c) by {
            if j == 0 {
                assert(r[0] == piece);
            } else {
                assert(r[j] == rest[j - 1]);
                assert(free_of(rest[j - 1], c));
            }
        }
    } else {
        lemma_split_pieces_no_sep(s, c, start, i + 1);
        assert(r == crate::text::split_from(s, c, start, i + 1));
    }
}

proof fn lemma_nonempty_trimmed_no_sep(pieces: Seq<Seq<char>>)
    requires
        forall|j: int| 0 <= j < pieces.len() ==> free_of(#[trigger] pieces[j], ','),
    ensures
        forall|k: int|
            0 <= k < nonempty_trimmed(pieces).len() ==> free_of(#[trigger] nonempty_trimmed(pieces)[k], ','),
    decreases pieces.len(),
{
    if pieces.len() > 0 {
        let l = pieces.last();
        let d = pieces.drop_last();
        assert(free_of(pieces[pieces.len() - 1], ','));
        assert forall|j: int| 0 <= j < d.len() implies free_of(#[trigger] d[j], ',') by {
            assert(d[j] == pieces[j]);
        }
        lemma_nonempty_trimmed_no_sep(d);
        crate::text::lemma_trim_facts(l);
        let t = trim(l);
        assert(free_of(t, ',')) by {
            assert forall|k: int| 0 <= k < t.len() implies t[k] != ',' by {
                assert(t[k] == l[skip_ws(l, 0) + k]);
            }
        }
        let prev = nonempty_trimmed(d);
        if t.len() > 0 {
            assert(nonempty_trimmed(pieces) == prev.push(t));
            assert forall|k: int| 0 <= k < prev.push(t).len() implies free_of(#[trigger] prev.push(t)[k], ',') by {
                if k < prev.len() {
                    assert(prev.push(t)[k] == prev[k]);
                }
            }
        } else {
            assert(nonempty_trimmed(pieces) == prev);
        }
    }
}

} // verus!
