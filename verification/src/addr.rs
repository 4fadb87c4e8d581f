//! IPv4 address model: classification of globally routable addresses,
//! dotted-decimal rendering and parsing, and the byte-order helpers used
//! when reading addresses and ports out of OS tables.

use vstd::prelude::*;

verus! {

/// An IPv4 address held as its four octets, `oct0` being the leftmost
/// octet of the dotted-decimal form.
#[derive(Clone, Copy, Debug, PartialEq, Eq, Structural, Hash)]
pub struct Ipv4Address {
    pub oct0: u8,
    pub oct1: u8,
    pub oct2: u8,
    pub oct3: u8,
}

/// An address is public when it lies in none of the reserved ranges:
/// private `10.0.0.0/8`, `172.16.0.0/12`, `192.168.0.0/16`, loopback
/// `127.0.0.0/8`, link-local `169.254.0.0/16`, multicast `224.0.0.0/4`.
pub open spec fn is_public_spec(ip: Ipv4Address) -> bool {
    !(ip.oct0 == 10
        || (ip.oct0 == 172 && 16 <= ip.oct1 <= 31)
        || (ip.oct0 == 192 && ip.oct1 == 168)
        || ip.oct0 == 127
        || (ip.oct0 == 169 && ip.oct1 == 254)
        || (224 <= ip.oct0 <= 239))
}

impl Ipv4Address {
    /// Decide whether the address is globally routable.
    pub fn is_public(&self) -> (r: bool)
        ensures
            r == is_public_spec(*self),
    {
        !(self.oct0 == 10
            || (self.oct0 == 172 && 16 <= self.oct1 && self.oct1 <= 31)
            || (self.oct0 == 192 && self.oct1 == 168)
            || self.oct0 == 127
            || (self.oct0 == 169 && self.oct1 == 254)
            || (224 <= self.oct0 && self.oct0 <= 239))
    }
}

/// Law: every address in the private, loopback, link-local and multicast
/// ranges is classified as non-public.
pub proof fn lemma_reserved_ranges_not_public(ip: Ipv4Address)
    requires
        ip.oct0 == 10
            || (ip.oct0 == 172 && 16 <= ip.oct1 <= 31)
            || (ip.oct0 == 192 && ip.oct1 == 168)
            || ip.oct0 == 127
            || (ip.oct0 == 169 && ip.oct1 == 254)
            || 224 <= ip.oct0 <= 239,
    ensures
        !is_public_spec(ip),
{
}

/// The character for one decimal digit.
pub open spec fn dec_digit(d: int) -> char
    recommends
        0 <= d <= 9,
{
    if d == 0 {
        '0'
    } else if d == 1 {
        '1'
    } else if d == 2 {
        '2'
    } else if d == 3 {
        '3'
    } else if d == 4 {
        '4'
    } else if d == 5 {
        '5'
    } else if d == 6 {
        '6'
    } else if d == 7 {
        '7'
    } else if d == 8 {
        '8'
    } else {
        '9'
    }
}

/// The decimal rendering of a non-negative integer, without leading zeros.
pub open spec fn dec_chars(n: int) -> Seq<char>
    recommends
        n >= 0,
    decreases n,
{
    if n <= 9 {
        seq![dec_digit(n)]
    } else {
        dec_chars(n / 10).push(dec_digit(n % 10))
    }
}

fn dec_digit_str(d: u8) -> (r: &'static str)
    requires
        d <= 9,
    ensures
        r@ == seq![dec_digit(d as int)],
{
    let r: &'static str = match d {
        0 => "0",
        1 => "1",
        2 => "2",
        3 => "3",
        4 => "4",
        5 => "5",
        6 => "6",
        7 => "7",
        8 => "8",
        _ => "9",
    };
    proof {
        reveal_strlit("0");
        reveal_strlit("1");
        reveal_strlit("2");
        reveal_strlit("3");
        reveal_strlit("4");
        reveal_strlit("5");
        reveal_strlit("6");
        reveal_strlit("7");
        reveal_strlit("8");
        reveal_strlit("9");
        assert(r@ =~= seq![dec_digit(d as int)]);
    }
    r
}

/// Append the decimal rendering of `n` to `s`.
pub fn append_dec_u32(s: &mut String, n: u32)
    ensures
        final(s)@ == old(s)@ + dec_chars(n as int),
    decreases n,
{
    if n <= 9 {
        let d = dec_digit_str(n as u8);
        s.append(d);
        proof {
            assert(s@ =~= old(s)@ + dec_chars(n as int));
        }
    } else {
        append_dec_u32(s, n / 10);
        let d = dec_digit_str((n % 10) as u8);
        s.append(d);
        proof {
            assert(s@ =~= old(s)@ + dec_chars(n as int));
        }
    }
}

/// The dotted-decimal text of an address.
pub open spec fn ipv4_text(ip: Ipv4Address) -> Seq<char> {
    dec_chars(ip.oct0 as int) + seq!['.'] + dec_chars(ip.oct1 as int) + seq!['.'] + dec_chars(
        ip.oct2 as int,
    ) + seq!['.'] + dec_chars(ip.oct3 as int)
}

impl Ipv4Address {
    /// Render the address in dotted-decimal form.
    pub fn to_text(&self) -> (r: String)
        ensures
            r@ == ipv4_text(*self),
    {
        let mut s = String::new();
        append_dec_u32(&mut s, self.oct0 as u32);
        s.append(".");
        append_dec_u32(&mut s, self.oct1 as u32);
        s.append(".");
        append_dec_u32(&mut s, self.oct2 as u32);
        s.append(".");
        append_dec_u32(&mut s, self.oct3 as u32);
        proof {
            reveal_strlit(".");
            assert(s@ =~= ipv4_text(*self));
        }
        s
    }
}

/// The address stored in a table dword, whose bytes hold the octets in
/// dotted-decimal order from the least significant byte up.
pub open spec fn ipv4_from_dword(ip: u32) -> Ipv4Address {
    Ipv4Address {
        oct0: (ip % 256) as u8,
        oct1: ((ip / 256) % 256) as u8,
        oct2: ((ip / 65536) % 256) as u8,
        oct3: ((ip / 16777216) % 256) as u8,
    }
}

/// Split a table dword into the address it stores.
pub fn dword_to_ipv4(ip: u32) -> (r: Ipv4Address)
    ensures
        r == ipv4_from_dword(ip),
{
    Ipv4Address {
        oct0: (ip % 256) as u8,
        oct1: ((ip / 256) % 256) as u8,
        oct2: ((ip / 65536) % 256) as u8,
        oct3: ((ip / 16777216) % 256) as u8,
    }
}

/// Render the address stored in a table dword in dotted-decimal form.
pub fn ip_to_string(ip: u32) -> (r: String)
    ensures
        r@ == ipv4_text(ipv4_from_dword(ip)),
{
    let addr = dword_to_ipv4(ip);
    addr.to_text()
}

/// The port stored in a table dword: the low two bytes hold the port in
/// network byte order, so the low byte is the more significant one.
pub open spec fn port_from_dword(port: u32) -> u16 {
    ((port % 256) * 256 + (port / 256) % 256) as u16
}

/// Convert a port dword from a connection table to host byte order.
pub fn port_to_host(port: u32) -> (r: u16)
    ensures
        r == port_from_dword(port),
{
    let lo = port % 256;
    let hi = (port / 256) % 256;
    (lo * 256 + hi) as u16
}

/// A decimal digit character.
pub open spec fn is_digit_char(c: char) -> bool {
    48 <= c as int <= 57
}

/// The value of one decimal digit character.
pub open spec fn digit_val(c: char) -> int {
    c as int - 48
}

/// The number of consecutive digit characters starting at `i`.
pub open spec fn digit_run_len(s: Seq<char>, i: int) -> int
    decreases s.len() - i,
{
    if i < 0 || i >= s.len() || !is_digit_char(s[i]) {
        0
    } else {
        1 + digit_run_len(s, i + 1)
    }
}

/// The value of a sequence of decimal digit characters.
pub open spec fn dec_val(s: Seq<char>) -> int
    decreases s.len(),
{
    if s.len() == 0 {
        0
    } else {
        dec_val(s.drop_last()) * 10 + digit_val(s.last())
    }
}

/// One octet read at position `i`: its value and the position just past
/// it.  An octet is one to three digits, without a leading zero, and at
/// most 255.
pub open spec fn parse_octet_at(s: Seq<char>, i: int) -> Option<(int, int)> {
    let k = digit_run_len(s, i);
    let t = s.subrange(i, i + k);
    if 1 <= k <= 3 && (k > 1 ==> s[i] != '0') && dec_val(t) <= 255 {
        Some((dec_val(t), i + k))
    } else {
        None
    }
}

/// The address a piece of text denotes: four octets separated by dots,
/// spanning the whole text.  Exactly the dotted-decimal renderings are
/// accepted; anything else denotes no address.
pub open spec fn parse_ipv4_spec(s: Seq<char>) -> Option<Ipv4Address> {
    match parse_octet_at(s, 0) {
        None => None,
        Some((v0, p0)) => if !(p0 < s.len() && s[p0] == '.') {
            None
        } else {
            match parse_octet_at(s, p0 + 1) {
                None => None,
                Some((v1, p1)) => if !(p1 < s.len() && s[p1] == '.') {
                    None
                } else {
                    match parse_octet_at(s, p1 + 1) {
                        None => None,
                        Some((v2, p2)) => if !(p2 < s.len() && s[p2] == '.') {
                            None
                        } else {
                            match parse_octet_at(s, p2 + 1) {
                                None => None,
                                Some((v3, p3)) => if p3 == s.len() {
                                    Some(
                                        Ipv4Address {
                                            oct0: v0 as u8,
                                            oct1: v1 as u8,
                                            oct2: v2 as u8,
                                            oct3: v3 as u8,
                                        },
                                    )
                                } else {
                                    None
                                },
                            }
                        },
                    }
                },
            }
        },
    }
}

proof fn lemma_digit_run_len_exact(s: Seq<char>, i: int, k: int)
    requires
        0 <= i,
        0 <= k,
        i + k <= s.len(),
        forall|j: int| i <= j < i + k ==> is_digit_char(s[j]),
        i + k == s.len() || !is_digit_char(s[i + k]),
    ensures
        digit_run_len(s, i) == k,
    decreases k,
{
    if k == 0 {
    } else {
        lemma_digit_run_len_exact(s, i + 1, k - 1);
    }
}

proof fn lemma_digit_run_len_at_least(s: Seq<char>, i: int, k: int)
    requires
        0 <= i,
        0 <= k,
        i + k <= s.len(),
        forall|j: int| i <= j < i + k ==> is_digit_char(s[j]),
    ensures
        digit_run_len(s, i) >= k,
    decreases k,
{
    if k == 0 {
        lemma_digit_run_len_nonneg(s, i);
    } else {
        assert(is_digit_char(s[i]));
        lemma_digit_run_len_at_least(s, i + 1, k - 1);
        assert(digit_run_len(s, i) == 1 + digit_run_len(s, i + 1));
    }
}

proof fn lemma_digit_run_len_nonneg(s: Seq<char>, i: int)
    ensures
        digit_run_len(s, i) >= 0,
    decreases s.len() - i,
{
    if i < 0 || i >= s.len() || !is_digit_char(s[i]) {
    } else {
        lemma_digit_run_len_nonneg(s, i + 1);
    }
}

/// Scan one octet of `s` starting at `i`; `n` is the length of `s`.
fn scan_octet(s: &str, n: usize, i: usize) -> (r: Option<(u8, usize)>)
    requires
        n == s@.len(),
        i <= n,
    ensures
        match r {
            Some((v, p)) => parse_octet_at(s@, i as int) == Some((v as int, p as int)),
            None => parse_octet_at(s@, i as int) is None,
        },
{
    let mut k: usize = 0;
    loop
        invariant
            i + k <= n,
            k <= 4,
            n == s@.len(),
            forall|j: int| i <= j < i + k ==> is_digit_char(s@[j]),
        ensures
            i + k <= n,
            k <= 4,
            k == 4 || i + k == n || !is_digit_char(s@[i + k]),
        decreases 4 - k,
    {
        if k >= 4 || i + k >= n {
            break;
        }
        let u = s.get_char(i + k) as u32;
        if !(48 <= u && u <= 57) {
            break;
        }
        k = k + 1;
    }
    if k == 0 || k == 4 {
        proof {
            if k == 4 {
                lemma_digit_run_len_at_least(s@, i as int, 4);
            } else {
                lemma_digit_run_len_exact(s@, i as int, 0);
            }
        }
        return None;
    }
    proof {
        lemma_digit_run_len_exact(s@, i as int, k as int);
    }
    let ghost t = s@.subrange(i as int, i as int + k as int);
    let first = s.get_char(i);
    if k > 1 && first == '0' {
        return None;
    }
    let mut v: u32 = 0;
    let mut j: usize = 0;
    while j < k
        invariant
            j <= k,
            k <= 3,
            i + k <= n,
            n == s@.len(),
            t == s@.subrange(i as int, i as int + k as int),
            forall|m: int| i <= m < i + k ==> is_digit_char(s@[m]),
            v == dec_val(t.subrange(0, j as int)),
            v <= 999,
        decreases k - j,
    {
        let c = s.get_char(i + j);
        let d = c as u32 - 48;
        proof {
            assert(t.subrange(0, j as int + 1).drop_last() =~= t.subrange(0, j as int));
            assert(t.subrange(0, j as int + 1).last() == s@[i + j]);
            assert(is_digit_char(s@[i + j]));
            assert(dec_val(t.subrange(0, j as int)) <= 99) by {
                lemma_dec_val_bound(t.subrange(0, j as int));
            }
        }
        v = v * 10 + d;
        j = j + 1;
    }
    proof {
        assert(t.subrange(0, k as int) =~= t);
    }
    if v > 255 {
        return None;
    }
    Some((v as u8, i + k))
}

proof fn lemma_dec_val_bound(s: Seq<char>)
    requires
        forall|j: int| 0 <= j < s.len() ==> is_digit_char(s[j]),
    ensures
        dec_val(s) >= 0,
        s.len() <= 1 ==> dec_val(s) <= 9,
        s.len() <= 2 ==> dec_val(s) <= 99,
        s.len() <= 3 ==> dec_val(s) <= 999,
    decreases s.len(),
{
    if s.len() == 0 {
    } else {
        assert(forall|j: int| 0 <= j < s.drop_last().len() ==> is_digit_char(s.drop_last()[j]));
        lemma_dec_val_bound(s.drop_last());
    }
}

/// Parse a piece of text as a dotted-decimal IPv4 address.
pub fn parse_ipv4(s: &str) -> (r: Option<Ipv4Address>)
    ensures
        r == parse_ipv4_spec(s@),
{
    let n = s.unicode_len();
    let r0 = scan_octet(s, n, 0);
    let (v0, p0) = match r0 {
        None => { return None; },
        Some(x) => x,
    };
    if !(p0 < n && s.get_char(p0) == '.') {
        return None;
    }
    let r1 = scan_octet(s, n, p0 + 1);
    let (v1, p1) = match r1 {
        None => { return None; },
        Some(x) => x,
    };
    if !(p1 < n && s.get_char(p1) == '.') {
        return None;
    }
    let r2 = scan_octet(s, n, p1 + 1);
    let (v2, p2) = match r2 {
        None => { return None; },
        Some(x) => x,
    };
    if !(p2 < n && s.get_char(p2) == '.') {
        return None;
    }
    let r3 = scan_octet(s, n, p2 + 1);
    let (v3, p3) = match r3 {
        None => { return None; },
        Some(x) => x,
    };
    if p3 != n {
        return None;
    }
    Some(Ipv4Address { oct0: v0, oct1: v1, oct2: v2, oct3: v3 })
}

proof fn lemma_dec_chars_props(n: int)
    requires
        0 <= n,
    ensures
        1 <= dec_chars(n).len(),
        forall|j: int| 0 <= j < dec_chars(n).len() ==> is_digit_char(#[trigger] dec_chars(n)[j]),
        dec_val(dec_chars(n)) == n,
        n >= 1 ==> dec_chars(n)[0] != '0',
        dec_chars(n).len() > 1 ==> dec_chars(n)[0] != '0',
        n <= 9 ==> dec_chars(n).len() == 1,
        n <= 99 ==> dec_chars(n).len() <= 2,
        n <= 255 ==> dec_chars(n).len() <= 3,
    decreases n,
{
    if n <= 9 {
        let t = dec_chars(n);
        assert(t.drop_last() =~= Seq::<char>::empty());
        assert(dec_val(Seq::<char>::empty()) == 0);
        assert(t.last() == dec_digit(n));
        assert(dec_val(t) == digit_val(dec_digit(n)));
    } else {
        lemma_dec_chars_props(n / 10);
        let p = dec_chars(n / 10);
        let c = dec_chars(n);
        assert(c == p.push(dec_digit(n % 10)));
        assert(c.drop_last() =~= p);
        assert(c.last() == dec_digit(n % 10));
        assert(dec_val(c) == dec_val(p) * 10 + digit_val(dec_digit(n % 10)));
        assert(c[0] == p[0]);
        assert(n / 10 >= 1);
        assert(forall|j: int| 0 <= j < c.len() ==> is_digit_char(#[trigger] c[j])) by {
            assert(forall|j: int| 0 <= j < p.len() ==> c[j] == p[j]);
        };
    }
}

proof fn lemma_octet_text_canonical(t: Seq<char>)
    requires
        1 <= t.len(),
        forall|j: int| 0 <= j < t.len() ==> is_digit_char(#[trigger] t[j]),
        t.len() > 1 ==> t[0] != '0',
    ensures
        dec_val(t) >= 0,
        t[0] != '0' ==> dec_val(t) >= 1,
        dec_chars(dec_val(t)) == t,
    decreases t.len(),
{
    if t.len() == 1 {
        let c = t[0];
        assert(t.drop_last() =~= Seq::<char>::empty());
        assert(dec_val(Seq::<char>::empty()) == 0);
        assert(t.last() == c);
        assert(dec_val(t) == digit_val(c));
        assert(dec_digit(digit_val(c)) == c);
        assert(dec_chars(dec_val(t)) =~= t);
    } else {
        let p = t.drop_last();
        assert(p[0] == t[0]);
        assert(forall|j: int| 0 <= j < p.len() ==> is_digit_char(#[trigger] p[j])) by {
            assert(forall|j: int| 0 <= j < p.len() ==> p[j] == t[j]);
        };
        lemma_octet_text_canonical(p);
        let dv = dec_val(t);
        let dp = dec_val(p);
        let dl = digit_val(t.last());
        assert(dv == dp * 10 + dl);
        assert(is_digit_char(t.last()));
        assert(dv / 10 == dp && dv % 10 == dl) by (nonlinear_arith)
            requires
                dv == dp * 10 + dl,
                0 <= dl <= 9,
                dp >= 0,
        ;
        assert(dec_digit(dv % 10) == t.last());
        assert(dec_chars(dv) == dec_chars(dp).push(dec_digit(dv % 10)));
        assert(dec_chars(dv) =~= t);
    }
}

proof fn lemma_parse_octet_at_text(s: Seq<char>, i: int, v: int)
    requires
        0 <= i,
        0 <= v <= 255,
        i + dec_chars(v).len() <= s.len(),
        s.subrange(i, i + dec_chars(v).len() as int) == dec_chars(v),
        i + dec_chars(v).len() == s.len() || !is_digit_char(s[i + dec_chars(v).len()]),
    ensures
        parse_octet_at(s, i) == Some((v, i + dec_chars(v).len() as int)),
{
    lemma_dec_chars_props(v);
    let k = dec_chars(v).len() as int;
    assert(forall|j: int| i <= j < i + k ==> is_digit_char(#[trigger] s[j])) by {
        assert(forall|j: int| i <= j < i + k ==> s[j] == s.subrange(i, i + k)[j - i]);
    };
    lemma_digit_run_len_exact(s, i, k);
    assert(dec_val(s.subrange(i, i + k)) == v);
    if k > 1 {
        assert(s[i] == dec_chars(v)[0]);
    }
}

/// Law: the dotted-decimal rendering of any address parses back to that
/// address.
pub proof fn lemma_parse_canonical(ip: Ipv4Address)
    ensures
        parse_ipv4_spec(ipv4_text(ip)) == Some(ip),
{
    let s = ipv4_text(ip);
    let c0 = dec_chars(ip.oct0 as int);
    let c1 = dec_chars(ip.oct1 as int);
    let c2 = dec_chars(ip.oct2 as int);
    let c3 = dec_chars(ip.oct3 as int);
    lemma_dec_chars_props(ip.oct0 as int);
    lemma_dec_chars_props(ip.oct1 as int);
    lemma_dec_chars_props(ip.oct2 as int);
    lemma_dec_chars_props(ip.oct3 as int);
    let k0 = c0.len() as int;
    let k1 = c1.len() as int;
    let k2 = c2.len() as int;
    let k3 = c3.len() as int;
    assert(s.len() == k0 + 1 + k1 + 1 + k2 + 1 + k3);
    assert(s.subrange(0, k0) =~= c0);
    assert(s[k0] == '.');
    assert(s.subrange(k0 + 1, k0 + 1 + k1) =~= c1);
    assert(s[k0 + 1 + k1] == '.');
    assert(s.subrange(k0 + 1 + k1 + 1, k0 + 1 + k1 + 1 + k2) =~= c2);
    assert(s[k0 + 1 + k1 + 1 + k2] == '.');
    assert(s.subrange(k0 + 1 + k1 + 1 + k2 + 1, s.len() as int) =~= c3);
    assert(!is_digit_char('.'));
    lemma_parse_octet_at_text(s, 0, ip.oct0 as int);
    lemma_parse_octet_at_text(s, k0 + 1, ip.oct1 as int);
    lemma_parse_octet_at_text(s, k0 + 1 + k1 + 1, ip.oct2 as int);
    lemma_parse_octet_at_text(s, k0 + 1 + k1 + 1 + k2 + 1, ip.oct3 as int);
}

/// Law: a piece of text parses to at most the one address whose
/// dotted-decimal rendering it is.
pub proof fn lemma_parse_sound(s: Seq<char>, ip: Ipv4Address)
    requires
        parse_ipv4_spec(s) == Some(ip),
    ensures
        s == ipv4_text(ip),
{
    let r0 = parse_octet_at(s, 0);
    let (v0, p0) = r0->Some_0;
    let r1 = parse_octet_at(s, p0 + 1);
    let (v1, p1) = r1->Some_0;
    let r2 = parse_octet_at(s, p1 + 1);
    let (v2, p2) = r2->Some_0;
    let r3 = parse_octet_at(s, p2 + 1);
    let (v3, p3) = r3->Some_0;
    lemma_digit_run_len_nonneg(s, 0);
    lemma_digit_run_len_nonneg(s, p0 + 1);
    lemma_digit_run_len_nonneg(s, p1 + 1);
    lemma_digit_run_len_nonneg(s, p2 + 1);
    let t0 = s.subrange(0, p0);
    let t1 = s.subrange(p0 + 1, p1);
    let t2 = s.subrange(p1 + 1, p2);
    let t3 = s.subrange(p2 + 1, p3);
    assert(forall|j: int| 0 <= j < t0.len() ==> is_digit_char(#[trigger] t0[j])) by {
        lemma_run_digits(s, 0);
    };
    assert(forall|j: int| 0 <= j < t1.len() ==> is_digit_char(#[trigger] t1[j])) by {
        lemma_run_digits(s, p0 + 1);
    };
    assert(forall|j: int| 0 <= j < t2.len() ==> is_digit_char(#[trigger] t2[j])) by {
        lemma_run_digits(s, p1 + 1);
    };
    assert(forall|j: int| 0 <= j < t3.len() ==> is_digit_char(#[trigger] t3[j])) by {
        lemma_run_digits(s, p2 + 1);
    };
    lemma_octet_text_canonical(t0);
    lemma_octet_text_canonical(t1);
    lemma_octet_text_canonical(t2);
    lemma_octet_text_canonical(t3);
    assert(dec_chars(ip.oct0 as int) == t0);
    assert(dec_chars(ip.oct1 as int) == t1);
    assert(dec_chars(ip.oct2 as int) == t2);
    assert(dec_chars(ip.oct3 as int) == t3);
    assert(s =~= ipv4_text(ip));
}

proof fn lemma_run_digits(s: Seq<char>, i: int)
    requires
        0 <= i <= s.len(),
    ensures
        i + digit_run_len(s, i) <= s.len(),
        forall|j: int| i <= j < i + digit_run_len(s, i) ==> is_digit_char(#[trigger] s[j]),
    decreases s.len() - i,
{
    if i < s.len() && is_digit_char(s[i]) {
        lemma_run_digits(s, i + 1);
    }
}

/// Decide whether a piece of text denotes a public IPv4 address.
/// Text that denotes no address at all counts as non-public.
pub fn is_public_ip(s: &str) -> (r: bool)
    ensures
        r == match parse_ipv4_spec(s@) {
            Some(ip) => is_public_spec(ip),
            None => false,
        },
        r == exists|ip: Ipv4Address| s@ == ipv4_text(ip) && is_public_spec(ip),
{
    let p = parse_ipv4(s);
    match p {
        Some(ip) => {
            let pb = ip.is_public();
            proof {
                lemma_parse_sound(s@, ip);
                if !is_public_spec(ip) {
                    assert forall|ip2: Ipv4Address| s@ == ipv4_text(ip2) implies !is_public_spec(
                        ip2,
                    ) by {
                        lemma_parse_canonical(ip2);
                    };
                }
            }
            pb
        },
        None => {
            proof {
                assert forall|ip2: Ipv4Address| s@ != ipv4_text(ip2) by {
                    lemma_parse_canonical(ip2);
                };
            }
            false
        },
    }
}

/// The netmask of a routing prefix: the high `prefix` bits set.  A prefix
/// over 32 is clamped to a full mask.
pub open spec fn netmask_value(prefix: u32) -> u32 {
    if prefix == 0 {
        0u32
    } else if prefix >= 32 {
        0xFFFF_FFFFu32
    } else {
        0xFFFF_FFFFu32 << (32 - prefix)
    }
}

/// The netmask read as an address, most significant byte first.
pub open spec fn netmask_addr(prefix: u32) -> Ipv4Address {
    let m = netmask_value(prefix);
    Ipv4Address {
        oct0: (m >> 24) as u8,
        oct1: ((m >> 16) & 0xFF) as u8,
        oct2: ((m >> 8) & 0xFF) as u8,
        oct3: (m & 0xFF) as u8,
    }
}

/// Render the netmask of a routing prefix in dotted-decimal form.
pub fn prefix_to_netmask(prefix: u32) -> (r: String)
    ensures
        r@ == ipv4_text(netmask_addr(prefix)),
{
    let m: u32 = if prefix == 0 {
        0
    } else if prefix >= 32 {
        0xFFFF_FFFF
    } else {
        0xFFFF_FFFFu32 << (32 - prefix)
    };
    proof {
        assert(m == netmask_value(prefix));
        assert((m >> 24) < 256 && ((m >> 16) & 0xFF) < 256 && ((m >> 8) & 0xFF) < 256 && (m & 0xFF)
            < 256) by (bit_vector);
    }
    let addr = Ipv4Address {
        oct0: (m >> 24) as u8,
        oct1: ((m >> 16) & 0xFF) as u8,
        oct2: ((m >> 8) & 0xFF) as u8,
        oct3: (m & 0xFF) as u8,
    };
    addr.to_text()
}

} // verus!
