//! Reading the split-tunnel routes out of a tunnel configuration: the
//! `AllowedIPs` line names the network/prefix pairs that should be routed
//! through the adapter.  The rules mirror how the configuration is
//! consumed: the first line beginning (after leading whitespace) with the
//! tag counts, its value runs from the first `=` to the next `=` or the
//! line's end, entries are comma-separated and trimmed, and an entry is
//! kept when it has exactly one slash and a numeric prefix.

use vstd::prelude::*;
use crate::addr::{dec_val, is_digit_char};

verus! {

/// Whitespace as it occurs around configuration tokens.
pub open spec fn is_config_ws(c: char) -> bool {
    c == ' ' || c == '\t' || c == '\r'
}

/// The first position at or after `i` that is not whitespace.
pub open spec fn skip_ws(s: Seq<char>, i: int) -> int
    decreases s.len() - i,
{
    if i < 0 || i >= s.len() || !is_config_ws(s[i]) {
        i
    } else {
        skip_ws(s, i + 1)
    }
}

/// The end of the text once trailing whitespace before `j` is dropped.
pub open spec fn trim_end_idx(s: Seq<char>, j: int) -> int
    decreases j,
{
    if j <= 0 || j > s.len() || !is_config_ws(s[j - 1]) {
        j
    } else {
        trim_end_idx(s, j - 1)
    }
}

/// The text without leading and trailing whitespace.
pub open spec fn trimmed(s: Seq<char>) -> Seq<char> {
    let a = skip_ws(s, 0);
    let b = trim_end_idx(s, s.len() as int);
    if a <= b {
        s.subrange(a, b)
    } else {
        Seq::empty()
    }
}

/// The first position at or after `i` holding `c`, or the length.
pub open spec fn find_char(s: Seq<char>, i: int, c: char) -> int
    decreases s.len() - i,
{
    if i < 0 || i >= s.len() {
        s.len() as int
    } else if s[i] == c {
        i
    } else {
        find_char(s, i + 1, c)
    }
}

/// Whether a line carries the routed networks: after leading whitespace
/// it begins with the tag.
pub open spec fn is_allowed_ips_line(l: Seq<char>) -> bool {
    let i = skip_ws(l, 0);
    let tag = "AllowedIPs"@;
    i + tag.len() <= l.len() && l.subrange(i, i + tag.len() as int) == tag
}

/// The value of a `key = value` line: from just after the first `=` up
/// to the second `=` or the end; a line without `=` has no value.
pub open spec fn equals_value(l: Seq<char>) -> Seq<char> {
    let e1 = find_char(l, 0, '=');
    if e1 == l.len() {
        Seq::empty()
    } else {
        l.subrange(e1 + 1, find_char(l, e1 + 1, '='))
    }
}

/// A whole piece of text read as a number: one or more digits whose
/// value fits.
pub open spec fn parse_u32_chars(s: Seq<char>) -> Option<u32> {
    if s.len() >= 1 && (forall|i: int| 0 <= i < s.len() ==> is_digit_char(s[i])) && dec_val(s)
        <= u32::MAX {
        Some(dec_val(s) as u32)
    } else {
        None
    }
}

/// The route one trimmed entry denotes: the network text before the only
/// slash, and the numeric prefix after it.  An empty entry, one without
/// a slash or with more than one, or one whose prefix is not a number
/// denotes no route.
pub open spec fn route_of_trimmed(t: Seq<char>) -> Option<(Seq<char>, u32)> {
    if t.len() == 0 {
        None
    } else {
        let sl = find_char(t, 0, '/');
        if sl == t.len() {
            None
        } else if find_char(t, sl + 1, '/') != t.len() {
            None
        } else {
            match parse_u32_chars(t.subrange(sl + 1, t.len() as int)) {
                Some(p) => Some((t.subrange(0, sl), p)),
                None => None,
            }
        }
    }
}

/// The route one comma-separated entry denotes, whitespace ignored.
pub open spec fn route_of_piece(p: Seq<char>) -> Option<(Seq<char>, u32)> {
    route_of_trimmed(trimmed(p))
}

/// The routes of a value, its entries separated by commas; `start` is
/// where the current entry began and `i` the scan position.
pub open spec fn routes_scan(v: Seq<char>, start: int, i: int) -> Seq<(Seq<char>, u32)>
    decreases v.len() - i,
{
    if i < 0 || i >= v.len() {
        match route_of_piece(v.subrange(start, v.len() as int)) {
            Some(r) => seq![r],
            None => Seq::empty(),
        }
    } else if v[i] == ',' {
        (match route_of_piece(v.subrange(start, i)) {
            Some(r) => seq![r],
            None => Seq::empty(),
        }) + routes_scan(v, i + 1, i + 1)
    } else {
        routes_scan(v, start, i + 1)
    }
}

/// The first `AllowedIPs` line of the configuration; `start` is where
/// the current line began and `i` the scan position.
pub open spec fn allowed_line_scan(s: Seq<char>, start: int, i: int) -> Option<Seq<char>>
    decreases s.len() - i,
{
    if i < 0 || i >= s.len() {
        if is_allowed_ips_line(s.subrange(start, s.len() as int)) {
            Some(s.subrange(start, s.len() as int))
        } else {
            None
        }
    } else if s[i] == '\n' {
        if is_allowed_ips_line(s.subrange(start, i)) {
            Some(s.subrange(start, i))
        } else {
            allowed_line_scan(s, i + 1, i + 1)
        }
    } else {
        allowed_line_scan(s, start, i + 1)
    }
}

/// Every split-tunnel route the configuration asks for: the routes of
/// the first `AllowedIPs` line's value, in order.  A configuration
/// without such a line asks for none.
pub open spec fn config_routes_spec(s: Seq<char>) -> Seq<(Seq<char>, u32)> {
    match allowed_line_scan(s, 0, 0) {
        Some(l) => routes_scan(equals_value(l), 0, 0),
        None => Seq::empty(),
    }
}

/// Whether the extracted routes carry the same networks and prefixes as
/// the specification's.
pub open spec fn routes_match(r: Seq<(String, u32)>, m: Seq<(Seq<char>, u32)>) -> bool {
    r.len() == m.len() && forall|i: int|
        0 <= i < r.len() ==> (#[trigger] r[i]).0@ == m[i].0 && r[i].1 == m[i].1
}

proof fn lemma_find_char_bounds(s: Seq<char>, i: int, c: char)
    requires
        0 <= i <= s.len(),
    ensures
        i <= find_char(s, i, c) <= s.len(),
        find_char(s, i, c) < s.len() ==> s[find_char(s, i, c)] == c,
        forall|j: int| i <= j < find_char(s, i, c) ==> s[j] != c,
    decreases s.len() - i,
{
    if i < s.len() && s[i] != c {
        lemma_find_char_bounds(s, i + 1, c);
    }
}

proof fn lemma_skip_ws_bounds(s: Seq<char>, i: int)
    requires
        0 <= i <= s.len(),
    ensures
        i <= skip_ws(s, i) <= s.len(),
        skip_ws(s, i) < s.len() ==> !is_config_ws(s[skip_ws(s, i)]),
        forall|j: int| i <= j < skip_ws(s, i) ==> is_config_ws(s[j]),
    decreases s.len() - i,
{
    if i < s.len() && is_config_ws(s[i]) {
        lemma_skip_ws_bounds(s, i + 1);
    }
}

proof fn lemma_trim_end_bounds(s: Seq<char>, j: int)
    requires
        0 <= j <= s.len(),
    ensures
        0 <= trim_end_idx(s, j) <= j,
        trim_end_idx(s, j) > 0 ==> !is_config_ws(s[trim_end_idx(s, j) - 1]),
        forall|m: int| trim_end_idx(s, j) <= m < j ==> is_config_ws(s[m]),
    decreases j,
{
    if j > 0 && is_config_ws(s[j - 1]) {
        lemma_trim_end_bounds(s, j - 1);
    }
}

fn find_char_exec(s: &str, n: usize, i: usize, c: char) -> (r: usize)
    requires
        n == s@.len(),
        i <= n,
    ensures
        r == find_char(s@, i as int, c),
        i <= r <= n,
{
    proof {
        lemma_find_char_bounds(s@, i as int, c);
    }
    let mut j = i;
    while j < n
        invariant
            i <= j <= n,
            n == s@.len(),
            forall|m: int| i <= m < j ==> s@[m] != c,
            find_char(s@, i as int, c) == find_char(s@, j as int, c),
        decreases n - j,
    {
        if s.get_char(j) == c {
            return j;
        }
        j = j + 1;
    }
    n
}

fn skip_ws_exec(s: &str, n: usize, i: usize) -> (r: usize)
    requires
        n == s@.len(),
        i <= n,
    ensures
        r == skip_ws(s@, i as int),
        i <= r <= n,
{
    proof {
        lemma_skip_ws_bounds(s@, i as int);
    }
    let mut j = i;
    while j < n
        invariant
            i <= j <= n,
            n == s@.len(),
            forall|m: int| i <= m < j ==> is_config_ws(s@[m]),
            skip_ws(s@, i as int) == skip_ws(s@, j as int),
        decreases n - j,
    {
        let c = s.get_char(j);
        if !(c == ' ' || c == '\t' || c == '\r') {
            return j;
        }
        j = j + 1;
    }
    n
}

fn trim_end_exec(s: &str, n: usize, j: usize) -> (r: usize)
    requires
        n == s@.len(),
        j <= n,
    ensures
        r == trim_end_idx(s@, j as int),
        r <= j,
{
    proof {
        lemma_trim_end_bounds(s@, j as int);
    }
    let mut k = j;
    while k > 0
        invariant
            k <= j <= n,
            n == s@.len(),
            forall|m: int| k <= m < j ==> is_config_ws(s@[m]),
            trim_end_idx(s@, j as int) == trim_end_idx(s@, k as int),
        decreases k,
    {
        let c = s.get_char(k - 1);
        if !(c == ' ' || c == '\t' || c == '\r') {
            return k;
        }
        k = k - 1;
    }
    0
}

/// Read a whole digit field as a number.
fn parse_u32_chars_exec(s: &str, n: usize, lo: usize, hi: usize) -> (r: Option<u32>)
    requires
        n == s@.len(),
        lo <= hi <= n,
    ensures
        r == parse_u32_chars(s@.subrange(lo as int, hi as int)),
{
    let ghost t = s@.subrange(lo as int, hi as int);
    if lo == hi {
        return None;
    }
    let mut v: u64 = 0;
    let mut i: usize = lo;
    while i < hi
        invariant
            lo <= i <= hi <= n,
            n == s@.len(),
            t == s@.subrange(lo as int, hi as int),
            forall|j: int| lo <= j < i ==> is_digit_char(s@[j]),
            v == dec_val(t.subrange(0, i as int - lo as int)),
            v <= u32::MAX,
        decreases hi - i,
    {
        let c = s.get_char(i);
        let u = c as u32;
        if u < 48 || u > 57 {
            proof {
                assert(t[i as int - lo as int] == s@[i as int]);
                assert(!is_digit_char(t[i as int - lo as int]));
            }
            return None;
        }
        proof {
            assert(t.subrange(0, i as int - lo as int + 1).drop_last() =~= t.subrange(
                0,
                i as int - lo as int,
            ));
            assert(t.subrange(0, i as int - lo as int + 1).last() == s@[i as int]);
        }
        let next = v * 10 + (u - 48) as u64;
        if next > 0xFFFF_FFFF {
            proof {
                if forall|j: int| 0 <= j < t.len() ==> is_digit_char(t[j]) {
                    lemma_dec_val_grows(t, i as int - lo as int + 1);
                }
            }
            return None;
        }
        v = next;
        i = i + 1;
    }
    proof {
        assert(t.subrange(0, hi as int - lo as int) =~= t);
    }
    Some(v as u32)
}

proof fn lemma_dec_val_nonneg(s: Seq<char>)
    requires
        forall|j: int| 0 <= j < s.len() ==> is_digit_char(s[j]),
    ensures
        dec_val(s) >= 0,
    decreases s.len(),
{
    if s.len() > 0 {
        assert(forall|j: int| 0 <= j < s.drop_last().len() ==> is_digit_char(s.drop_last()[j]));
        lemma_dec_val_nonneg(s.drop_last());
    }
}

proof fn lemma_dec_val_grows(s: Seq<char>, i: int)
    requires
        0 <= i <= s.len(),
        forall|j: int| 0 <= j < s.len() ==> is_digit_char(s[j]),
    ensures
        dec_val(s.subrange(0, i)) <= dec_val(s),
    decreases s.len() - i,
{
    if i == s.len() {
        assert(s.subrange(0, i) =~= s);
    } else {
        lemma_dec_val_grows(s, i + 1);
        let p = s.subrange(0, i);
        let q = s.subrange(0, i + 1);
        assert(q.drop_last() =~= p);
        assert(is_digit_char(q.last()));
        assert(forall|j: int| 0 <= j < p.len() ==> is_digit_char(p[j]));
        lemma_dec_val_nonneg(p);
        assert(dec_val(q) == dec_val(p) * 10 + (q.last() as int - 48));
    }
}

/// The route one entry of the value denotes, the entry given by its ends
/// within the value.
fn route_of_range(v: &str, n: usize, ps: usize, pe: usize) -> (r: Option<(String, u32)>)
    requires
        n == v@.len(),
        ps <= pe <= n,
    ensures
        match r {
            Some(t) => route_of_piece(v@.subrange(ps as int, pe as int)) == Some((t.0@, t.1)),
            None => route_of_piece(v@.subrange(ps as int, pe as int)) is None,
        },
{
    let ghost piece = v@.subrange(ps as int, pe as int);
    let a = skip_ws_exec(v, n, ps);
    let a2 = if a > pe {
        pe
    } else {
        a
    };
    let b = trim_end_exec(v, n, pe);
    let b2 = if b < a2 {
        a2
    } else {
        b
    };
    proof {
        lemma_skip_ws_offset(v@, ps as int, pe as int);
        lemma_trim_end_offset(v@, ps as int, pe as int);
        lemma_skip_ws_bounds(v@, ps as int);
        lemma_trim_end_bounds(v@, pe as int);
        assert(v@.subrange(a2 as int, b2 as int) =~= trimmed(piece));
    }
    let ghost t = trimmed(piece);
    if a2 == b2 {
        return None;
    }
    let sl = find_char_exec(v, n, a2, '/');
    proof {
        lemma_find_char_offset(v@, a2 as int, b2 as int, 0, '/');
    }
    if sl >= b2 {
        return None;
    }
    let sl2 = find_char_exec(v, n, sl + 1, '/');
    proof {
        lemma_find_char_offset(v@, a2 as int, b2 as int, sl as int + 1 - a2 as int, '/');
    }
    if sl2 < b2 {
        return None;
    }
    let prefix = parse_u32_chars_exec(v, n, sl + 1, b2);
    proof {
        assert(v@.subrange(sl as int + 1, b2 as int) =~= t.subrange(
            sl as int + 1 - a2 as int,
            t.len() as int,
        ));
    }
    match prefix {
        Some(p) => {
            let network = v.substring_char(a2, sl).to_owned();
            proof {
                assert(network@ =~= t.subrange(0, sl as int - a2 as int));
            }
            Some((network, p))
        },
        None => None,
    }
}

/// Searching a piece of the text finds the same first occurrence as
/// searching the whole, as long as it lies inside the piece.
proof fn lemma_find_char_offset(s: Seq<char>, ls: int, end: int, i: int, c: char)
    requires
        0 <= ls <= end <= s.len(),
        0 <= i <= end - ls,
    ensures
        ({
            let l = s.subrange(ls, end);
            let f = find_char(s, ls + i, c);
            let g = find_char(l, i, c);
            &&& (f >= end ==> g == l.len())
            &&& (f < end ==> g == f - ls)
        }),
    decreases end - ls - i,
{
    let l = s.subrange(ls, end);
    lemma_find_char_bounds(s, ls + i, c);
    lemma_find_char_bounds(l, i, c);
    if i < end - ls {
        if s[ls + i] != c {
            lemma_find_char_offset(s, ls, end, i + 1, c);
        }
    }
}

/// Skipping whitespace inside a piece agrees with skipping it in the
/// whole text, clamped to the piece's end.
proof fn lemma_skip_ws_offset(s: Seq<char>, ls: int, end: int)
    requires
        0 <= ls <= end <= s.len(),
    ensures
        ({
            let l = s.subrange(ls, end);
            let f = skip_ws(s, ls);
            let g = skip_ws(l, 0);
            &&& (f >= end ==> g == l.len())
            &&& (f < end ==> g == f - ls)
        }),
{
    lemma_skip_ws_offset_at(s, ls, end, 0);
}

proof fn lemma_skip_ws_offset_at(s: Seq<char>, ls: int, end: int, i: int)
    requires
        0 <= ls <= end <= s.len(),
        0 <= i <= end - ls,
    ensures
        ({
            let l = s.subrange(ls, end);
            let f = skip_ws(s, ls + i);
            let g = skip_ws(l, i);
            &&& (f >= end ==> g == l.len())
            &&& (f < end ==> g == f - ls)
        }),
    decreases end - ls - i,
{
    let l = s.subrange(ls, end);
    lemma_skip_ws_bounds(s, ls + i);
    lemma_skip_ws_bounds(l, i);
    if i < end - ls && is_config_ws(s[ls + i]) {
        lemma_skip_ws_offset_at(s, ls, end, i + 1);
    }
}

/// Trimming the end inside a piece agrees with trimming it in the whole
/// text, clamped to the piece's start.
proof fn lemma_trim_end_offset(s: Seq<char>, ls: int, end: int)
    requires
        0 <= ls <= end <= s.len(),
    ensures
        ({
            let l = s.subrange(ls, end);
            let f = trim_end_idx(s, end);
            let g = trim_end_idx(l, l.len() as int);
            &&& (f <= ls ==> g == 0)
            &&& (f > ls ==> g == f - ls)
        }),
{
    lemma_trim_end_offset_at(s, ls, end, end - ls);
}

proof fn lemma_trim_end_offset_at(s: Seq<char>, ls: int, end: int, j: int)
    requires
        0 <= ls <= end <= s.len(),
        0 <= j <= end - ls,
    ensures
        ({
            let l = s.subrange(ls, end);
            let f = trim_end_idx(s, ls + j);
            let g = trim_end_idx(l, j);
            &&& (f <= ls ==> g == 0)
            &&& (f > ls ==> g == f - ls)
        }),
    decreases j,
{
    let l = s.subrange(ls, end);
    lemma_trim_end_bounds(s, ls + j);
    lemma_trim_end_bounds(l, j);
    if j > 0 {
        if is_config_ws(s[ls + j - 1]) {
            lemma_trim_end_offset_at(s, ls, end, j - 1);
        }
    }
}

/// Collect the routes named by an `AllowedIPs` value.
fn routes_of_value(v: &str) -> (r: Vec<(String, u32)>)
    ensures
        routes_match(r@, routes_scan(v@, 0, 0)),
{
    let n = v.unicode_len();
    let mut r: Vec<(String, u32)> = Vec::new();
    let ghost mut done: Seq<(Seq<char>, u32)> = Seq::empty();
    let mut start: usize = 0;
    let mut i: usize = 0;
    while i < n
        invariant
            start <= i <= n,
            n == v@.len(),
            routes_match(r@, done),
            done + routes_scan(v@, start as int, i as int) == routes_scan(v@, 0, 0),
        decreases n - i,
    {
        if v.get_char(i) == ',' {
            let piece = route_of_range(v, n, start, i);
            if let Some(t) = piece {
                proof {
                    done = done.push((t.0@, t.1));
                    assert(routes_match(r@.push(t), done));
                }
                r.push(t);
            }
            proof {
                assert(done + routes_scan(v@, i as int + 1, i as int + 1) =~= routes_scan(
                    v@,
                    0,
                    0,
                ));
            }
            start = i + 1;
        }
        i = i + 1;
    }
    let piece = route_of_range(v, n, start, n);
    if let Some(t) = piece {
        proof {
            done = done.push((t.0@, t.1));
            assert(routes_match(r@.push(t), done));
        }
        r.push(t);
    }
    proof {
        assert(done =~= routes_scan(v@, 0, 0));
    }
    r
}

/// Extract every split-tunnel route the configuration asks for: the
/// network texts and numeric prefixes of the first `AllowedIPs` line.
pub fn routes_from_config(s: &str) -> (r: Vec<(String, u32)>)
    ensures
        routes_match(r@, config_routes_spec(s@)),
{
    let n = s.unicode_len();
    let mut start: usize = 0;
    let mut i: usize = 0;
    while i < n
        invariant
            start <= i <= n,
            n == s@.len(),
            allowed_line_scan(s@, 0, 0) == allowed_line_scan(s@, start as int, i as int),
        decreases n - i,
    {
        if s.get_char(i) == '\n' {
            let hit = line_has_tag(s, n, start, i);
            if hit {
                return routes_of_line(s, n, start, i);
            }
            start = i + 1;
        }
        i = i + 1;
    }
    let hit = line_has_tag(s, n, start, n);
    if hit {
        return routes_of_line(s, n, start, n);
    }
    Vec::new()
}

/// Whether the line `[ls, le)` begins, after whitespace, with the tag.
fn line_has_tag(s: &str, n: usize, ls: usize, le: usize) -> (r: bool)
    requires
        n == s@.len(),
        ls <= le <= n,
    ensures
        r == is_allowed_ips_line(s@.subrange(ls as int, le as int)),
{
    let ghost l = s@.subrange(ls as int, le as int);
    let a = skip_ws_exec(s, n, ls);
    proof {
        lemma_skip_ws_offset(s@, ls as int, le as int);
        lemma_skip_ws_bounds(s@, ls as int);
        reveal_strlit("AllowedIPs");
    }
    if a >= le {
        proof {
            assert(skip_ws(l, 0) == l.len());
        }
        return false;
    }
    if le - a < 10 {
        return false;
    }
    let tag = "AllowedIPs";
    let mut k: usize = 0;
    while k < 10
        invariant
            k <= 10,
            n == s@.len(),
            ls <= a,
            a + 10 <= le <= n,
            l == s@.subrange(ls as int, le as int),
            a as int - ls as int == skip_ws(l, 0),
            tag@ == "AllowedIPs"@,
            tag@.len() == 10,
            forall|m: int| 0 <= m < k ==> s@[a + m] == tag@[m],
        decreases 10 - k,
    {
        if s.get_char(a + k) != tag.get_char(k) {
            proof {
                assert(l[a as int - ls as int + k as int] == s@[a + k]);
                assert(!is_allowed_ips_line(l)) by {
                    if is_allowed_ips_line(l) {
                        assert(l.subrange(
                            skip_ws(l, 0),
                            skip_ws(l, 0) + 10,
                        )[k as int] == tag@[k as int]);
                    }
                };
            }
            return false;
        }
        k = k + 1;
    }
    proof {
        assert(l.subrange(skip_ws(l, 0), skip_ws(l, 0) + 10) =~= tag@);
    }
    true
}

/// The routes of one `AllowedIPs` line, its ends given as positions.
fn routes_of_line(s: &str, n: usize, ls: usize, le: usize) -> (r: Vec<(String, u32)>)
    requires
        n == s@.len(),
        ls <= le <= n,
    ensures
        routes_match(r@, routes_scan(equals_value(s@.subrange(ls as int, le as int)), 0, 0)),
{
    let ghost l = s@.subrange(ls as int, le as int);
    let e1 = find_char_exec(s, n, ls, '=');
    proof {
        lemma_find_char_offset(s@, ls as int, le as int, 0, '=');
    }
    if e1 >= le {
        proof {
            assert(equals_value(l) =~= Seq::<char>::empty());
            assert(routes_scan(Seq::<char>::empty(), 0, 0) =~= match route_of_piece(
                Seq::<char>::empty().subrange(0, 0),
            ) {
                Some(t) => seq![t],
                None => Seq::<(Seq<char>, u32)>::empty(),
            });
            assert(route_of_piece(Seq::<char>::empty()) is None);
        }
        return Vec::new();
    }
    let e2 = find_char_exec(s, n, e1 + 1, '=');
    proof {
        lemma_find_char_offset(s@, ls as int, le as int, e1 as int + 1 - ls as int, '=');
    }
    let e2c = if e2 > le {
        le
    } else {
        e2
    };
    let value = s.substring_char(e1 + 1, e2c);
    proof {
        assert(value@ =~= equals_value(l));
    }
    routes_of_value(value)
}

} // verus!
