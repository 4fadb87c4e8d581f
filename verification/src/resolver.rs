//! Process resolution: turn the CSV output of the OS process listing
//! into candidate process IDs, and pick the candidate most likely to be
//! the live game process — the one with the greatest connection count,
//! ties going to the first enumerated, and the first enumerated again
//! when no candidate has a connection yet.

use vstd::prelude::*;

verus! {

/// A decimal digit byte.
pub open spec fn is_digit_byte(c: u8) -> bool {
    48 <= c <= 57
}

/// The value of a sequence of decimal digit bytes.
pub open spec fn dec_val_bytes(s: Seq<u8>) -> int
    decreases s.len(),
{
    if s.len() == 0 {
        0
    } else {
        dec_val_bytes(s.drop_last()) * 10 + (s.last() - 48)
    }
}

/// A whole piece of text read as a number: one or more digits whose
/// value fits.
pub open spec fn parse_u32_bytes(s: Seq<u8>) -> Option<u32> {
    if s.len() >= 1 && (forall|i: int| 0 <= i < s.len() ==> is_digit_byte(s[i])) && dec_val_bytes(s)
        <= u32::MAX {
        Some(dec_val_bytes(s) as u32)
    } else {
        None
    }
}

/// The text with every leading and trailing quote removed.
pub open spec fn trim_quotes(s: Seq<u8>) -> Seq<u8>
    decreases s.len(),
{
    if s.len() > 0 && s[0] == 34 {
        trim_quotes(s.drop_first())
    } else if s.len() > 0 && s.last() == 34 {
        trim_quotes(s.drop_last())
    } else {
        s
    }
}

/// The first position at or after `i` holding `v`, or the length.
pub open spec fn find_byte(b: Seq<u8>, i: int, v: u8) -> int
    decreases b.len() - i,
{
    if i < 0 || i >= b.len() {
        b.len() as int
    } else if b[i] == v {
        i
    } else {
        find_byte(b, i + 1, v)
    }
}

/// The process ID one CSV line yields: the second comma-separated field,
/// unquoted and read as a number.  A line without two fields, or whose
/// second field is not a number, yields nothing.
pub open spec fn line_pids(line: Seq<u8>) -> Seq<u32> {
    let l = if line.len() > 0 && line.last() == 13 {
        line.drop_last()
    } else {
        line
    };
    let c1 = find_byte(l, 0, 44);
    if c1 == l.len() {
        Seq::empty()
    } else {
        let c2 = find_byte(l, c1 + 1, 44);
        match parse_u32_bytes(trim_quotes(l.subrange(c1 + 1, c2))) {
            Some(pid) => seq![pid],
            None => Seq::empty(),
        }
    }
}

/// The process IDs of the listing, line by line; `start` is where the
/// current line began and `i` the scan position.
pub open spec fn pids_scan(b: Seq<u8>, start: int, i: int) -> Seq<u32>
    decreases b.len() - i,
{
    if i < 0 || i >= b.len() {
        line_pids(b.subrange(start, b.len() as int))
    } else if b[i] == 10 {
        line_pids(b.subrange(start, i)) + pids_scan(b, i + 1, i + 1)
    } else {
        pids_scan(b, start, i + 1)
    }
}

/// The process IDs named in a CSV process listing.
pub open spec fn tasklist_pids_spec(b: Seq<u8>) -> Seq<u32> {
    pids_scan(b, 0, 0)
}

proof fn lemma_find_byte_bounds(b: Seq<u8>, i: int, v: u8)
    requires
        0 <= i <= b.len(),
    ensures
        i <= find_byte(b, i, v) <= b.len(),
        find_byte(b, i, v) < b.len() ==> b[find_byte(b, i, v)] == v,
        forall|j: int| i <= j < find_byte(b, i, v) ==> b[j] != v,
    decreases b.len() - i,
{
    if i < b.len() && b[i] != v {
        lemma_find_byte_bounds(b, i + 1, v);
    }
}

fn find_byte_exec(b: &[u8], i: usize, v: u8) -> (r: usize)
    requires
        i <= b@.len(),
    ensures
        r == find_byte(b@, i as int, v),
        i <= r <= b@.len(),
        r < b@.len() ==> b@[r as int] == v,
{
    proof {
        lemma_find_byte_bounds(b@, i as int, v);
    }
    let n = b.len();
    let mut j = i;
    while j < n
        invariant
            i <= j <= n,
            n == b@.len(),
            forall|m: int| i <= m < j ==> b@[m] != v,
            find_byte(b@, i as int, v) == find_byte(b@, j as int, v),
        decreases n - j,
    {
        if b[j] == v {
            return j;
        }
        j = j + 1;
    }
    n
}

/// Read a whole digit field as a number.
fn parse_u32_field(b: &[u8]) -> (r: Option<u32>)
    ensures
        r == parse_u32_bytes(b@),
{
    let n = b.len();
    if n == 0 {
        return None;
    }
    let mut v: u64 = 0;
    let mut i: usize = 0;
    while i < n
        invariant
            i <= n,
            n == b@.len(),
            forall|j: int| 0 <= j < i ==> is_digit_byte(b@[j]),
            v == dec_val_bytes(b@.subrange(0, i as int)),
            v <= u32::MAX,
        decreases n - i,
    {
        let c = b[i];
        if c < 48 || c > 57 {
            return None;
        }
        proof {
            assert(b@.subrange(0, i as int + 1).drop_last() =~= b@.subrange(0, i as int));
            assert(b@.subrange(0, i as int + 1).last() == b@[i as int]);
        }
        let next = v * 10 + (c - 48) as u64;
        if next > 0xFFFF_FFFF {
            proof {
                if forall|j: int| 0 <= j < b@.len() ==> is_digit_byte(b@[j]) {
                    lemma_dec_val_bytes_grows(b@, i as int + 1);
                }
            }
            return None;
        }
        v = next;
        i = i + 1;
    }
    proof {
        assert(b@.subrange(0, n as int) =~= b@);
    }
    Some(v as u32)
}

proof fn lemma_dec_val_bytes_nonneg(s: Seq<u8>)
    requires
        forall|j: int| 0 <= j < s.len() ==> is_digit_byte(s[j]),
    ensures
        dec_val_bytes(s) >= 0,
    decreases s.len(),
{
    if s.len() > 0 {
        assert(forall|j: int|
            0 <= j < s.drop_last().len() ==> is_digit_byte(s.drop_last()[j]));
        lemma_dec_val_bytes_nonneg(s.drop_last());
    }
}

/// A digit prefix never exceeds the whole digit field in value.
proof fn lemma_dec_val_bytes_grows(s: Seq<u8>, i: int)
    requires
        0 <= i <= s.len(),
        forall|j: int| 0 <= j < s.len() ==> is_digit_byte(s[j]),
    ensures
        dec_val_bytes(s.subrange(0, i)) <= dec_val_bytes(s),
    decreases s.len() - i,
{
    if i == s.len() {
        assert(s.subrange(0, i) =~= s);
    } else {
        lemma_dec_val_bytes_grows(s, i + 1);
        let p = s.subrange(0, i);
        let q = s.subrange(0, i + 1);
        assert(q.drop_last() =~= p);
        assert(is_digit_byte(q.last()));
        assert(forall|j: int| 0 <= j < p.len() ==> is_digit_byte(p[j]));
        lemma_dec_val_bytes_nonneg(p);
        assert(dec_val_bytes(q) == dec_val_bytes(p) * 10 + (q.last() - 48));
    }
}

/// Strip every leading and trailing quote of `b` and read what remains
/// as a number.
fn parse_unquoted(b: &[u8]) -> (r: Option<u32>)
    ensures
        r == parse_u32_bytes(trim_quotes(b@)),
{
    let mut lo: usize = 0;
    let mut hi: usize = b.len();
    proof {
        assert(b@.subrange(0, b@.len() as int) =~= b@);
    }
    while lo < hi && b[lo] == 34
        invariant
            lo <= hi <= b@.len(),
            trim_quotes(b@) == trim_quotes(b@.subrange(lo as int, hi as int)),
        decreases hi - lo,
    {
        proof {
            let cur = b@.subrange(lo as int, hi as int);
            assert(cur.drop_first() =~= b@.subrange(lo as int + 1, hi as int));
        }
        lo = lo + 1;
    }
    while hi > lo && b[hi - 1] == 34
        invariant
            lo <= hi <= b@.len(),
            trim_quotes(b@) == trim_quotes(b@.subrange(lo as int, hi as int)),
            lo < hi ==> b@[lo as int] != 34,
        decreases hi - lo,
    {
        proof {
            let cur = b@.subrange(lo as int, hi as int);
            assert(cur.drop_last() =~= b@.subrange(lo as int, hi as int - 1));
        }
        hi = hi - 1;
    }
    proof {
        let cur = b@.subrange(lo as int, hi as int);
        assert(trim_quotes(cur) == cur);
    }
    let field = &b[lo..hi];
    parse_u32_field(field)
}

/// The process ID of one CSV line, its ends given as positions in `b`.
fn line_pid(b: &[u8], ls: usize, le: usize) -> (r: Option<u32>)
    requires
        ls <= le <= b@.len(),
    ensures
        match r {
            Some(pid) => line_pids(b@.subrange(ls as int, le as int)) == seq![pid],
            None => line_pids(b@.subrange(ls as int, le as int)) == Seq::<u32>::empty(),
        },
{
    let ghost line = b@.subrange(ls as int, le as int);
    let mut end = le;
    if le > ls && b[le - 1] == 13 {
        end = le - 1;
    }
    let ghost l = b@.subrange(ls as int, end as int);
    proof {
        if le > ls && b@[le as int - 1] == 13 {
            assert(line.last() == 13);
            assert(line.drop_last() =~= l);
        } else {
            assert(l =~= line);
        }
    }
    let c1 = find_byte_exec(b, ls, 44);
    proof {
        lemma_find_byte_offset(b@, ls as int, end as int, 0, 44);
    }
    if c1 >= end {
        return None;
    }
    let c2 = find_byte_exec(b, c1 + 1, 44);
    proof {
        lemma_find_byte_offset(b@, ls as int, end as int, c1 as int + 1 - ls as int, 44);
    }
    let c2c = if c2 > end {
        end
    } else {
        c2
    };
    let field = &b[c1 + 1..c2c];
    proof {
        let lc1 = find_byte(l, 0, 44);
        assert(lc1 == c1 - ls);
        let lc2 = find_byte(l, lc1 + 1, 44);
        lemma_find_byte_bounds(l, lc1 + 1, 44);
        assert(field@ =~= l.subrange(lc1 + 1, lc2));
    }
    parse_unquoted(field)
}

/// Extract the process IDs out of a CSV process listing, line by line.
pub fn parse_tasklist_pids(buf: &[u8]) -> (r: Vec<u32>)
    ensures
        r@ == tasklist_pids_spec(buf@),
{
    let n = buf.len();
    let mut r: Vec<u32> = Vec::new();
    let mut start: usize = 0;
    let mut i: usize = 0;
    while i < n
        invariant
            start <= i <= n,
            n == buf@.len(),
            r@ + pids_scan(buf@, start as int, i as int) == tasklist_pids_spec(buf@),
        decreases n - i,
    {
        if buf[i] == 10 {
            let p = line_pid(buf, start, i);
            if let Some(pid) = p {
                r.push(pid);
            }
            proof {
                assert(r@ + pids_scan(buf@, i as int + 1, i as int + 1) =~= tasklist_pids_spec(
                    buf@,
                ));
            }
            start = i + 1;
        }
        i = i + 1;
    }
    let p = line_pid(buf, start, n);
    if let Some(pid) = p {
        r.push(pid);
    }
    proof {
        assert(r@ =~= tasklist_pids_spec(buf@));
    }
    r
}

/// The best candidate seen among the first `k` counts: the index of the
/// first greatest non-zero count, or none when every count so far is
/// zero, together with that greatest count.
pub open spec fn running_best(counts: Seq<usize>, k: int) -> (int, int)
    decreases k,
{
    if k <= 0 {
        (-1, 0)
    } else {
        let (bi, m) = running_best(counts, k - 1);
        if counts[k - 1] > m {
            (k - 1, counts[k - 1] as int)
        } else {
            (bi, m)
        }
    }
}

/// Which candidate the resolver picks: none when there is no candidate,
/// the only one when there is one, and otherwise the first with the
/// greatest connection count — or the first enumerated when no candidate
/// has a connection yet.
pub open spec fn select_pid_spec(pids: Seq<u32>, counts: Seq<usize>) -> Option<u32> {
    if pids.len() == 0 {
        None
    } else if pids.len() == 1 {
        Some(pids[0])
    } else {
        let (bi, m) = running_best(counts, pids.len() as int);
        if m > 0 {
            Some(pids[bi])
        } else {
            Some(pids[0])
        }
    }
}

proof fn lemma_running_best(counts: Seq<usize>, k: int)
    requires
        0 <= k <= counts.len(),
    ensures
        ({
            let (bi, m) = running_best(counts, k);
            &&& m >= 0
            &&& (m > 0 ==> 0 <= bi < k && counts[bi] == m && (forall|i: int|
                0 <= i < k ==> counts[i] <= m) && (forall|i: int| 0 <= i < bi ==> counts[i] < m))
            &&& (m == 0 ==> bi == -1 && (forall|i: int| 0 <= i < k ==> counts[i] == 0))
        }),
    decreases k,
{
    if k > 0 {
        lemma_running_best(counts, k - 1);
    }
}

/// Law: the resolver always picks one of at least one candidate; when no
/// candidate has a connection it picks the first enumerated, and
/// otherwise a candidate whose count no other exceeds and that no
/// earlier candidate matches.
pub proof fn lemma_select_pid(pids: Seq<u32>, counts: Seq<usize>)
    requires
        pids.len() == counts.len(),
        pids.len() >= 1,
    ensures
        select_pid_spec(pids, counts) is Some,
        (forall|i: int| 0 <= i < counts.len() ==> counts[i] == 0) ==> select_pid_spec(pids, counts)
            == Some(pids[0]),
        (exists|i: int| 0 <= i < counts.len() && counts[i] > 0) ==> exists|b: int|
            {
                &&& 0 <= b < pids.len()
                &&& select_pid_spec(pids, counts) == Some(pids[b])
                &&& (forall|i: int| 0 <= i < counts.len() ==> counts[i] <= counts[b])
                &&& (forall|i: int| 0 <= i < b ==> counts[i] < counts[b])
            },
{
    lemma_running_best(counts, counts.len() as int);
    if exists|i: int| 0 <= i < counts.len() && counts[i] > 0 {
        let (bi, m) = running_best(counts, counts.len() as int);
        if pids.len() == 1 {
            assert(counts[0] > 0);
            assert(select_pid_spec(pids, counts) == Some(pids[0]));
            assert(forall|i: int| 0 <= i < counts.len() ==> #[trigger] counts[i] <= counts[0]);
            assert(forall|i: int| 0 <= i < 0 ==> #[trigger] counts[i] < counts[0]);
        } else {
            assert(m > 0);
            assert(select_pid_spec(pids, counts) == Some(pids[bi]));
        }
    }
}

/// Pick the candidate process: the first with the greatest connection
/// count, the first enumerated when none has a connection, none when
/// there is no candidate.
pub fn select_pid(pids: &Vec<u32>, counts: &Vec<usize>) -> (r: Option<u32>)
    requires
        pids@.len() == counts@.len(),
    ensures
        r == select_pid_spec(pids@, counts@),
{
    let n = pids.len();
    if n == 0 {
        return None;
    }
    if n == 1 {
        return Some(pids[0]);
    }
    let mut best: usize = 0;
    let mut max: usize = 0;
    let mut has_best = false;
    let mut k: usize = 0;
    while k < n
        invariant
            k <= n,
            n == pids@.len(),
            n == counts@.len(),
            if has_best {
                running_best(counts@, k as int) == (best as int, max as int)
            } else {
                running_best(counts@, k as int) == (-1int, 0int) && max == 0
            },
            has_best ==> best < n && max > 0,
        decreases n - k,
    {
        if counts[k] > max {
            max = counts[k];
            best = k;
            has_best = true;
        }
        k = k + 1;
    }
    if has_best {
        Some(pids[best])
    } else {
        Some(pids[0])
    }
}

/// Searching a piece of the text finds the same first occurrence as
/// searching the whole, as long as it lies inside the piece.
proof fn lemma_find_byte_offset(b: Seq<u8>, ls: int, end: int, i: int, v: u8)
    requires
        0 <= ls <= end <= b.len(),
        0 <= i <= end - ls,
    ensures
        ({
            let l = b.subrange(ls, end);
            let f = find_byte(b, ls + i, v);
            let g = find_byte(l, i, v);
            &&& (f >= end ==> g == l.len())
            &&& (f < end ==> g == f - ls)
        }),
    decreases end - ls - i,
{
    let l = b.subrange(ls, end);
    lemma_find_byte_bounds(b, ls + i, v);
    lemma_find_byte_bounds(l, i, v);
    if i < end - ls {
        if b[ls + i] != v {
            lemma_find_byte_offset(b, ls, end, i + 1, v);
        }
    }
}

} // verus!
