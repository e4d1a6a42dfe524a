//! Reading IPv4 and IPv6 addresses in the grammar of the standard
//! library's address parser: dotted quads of 1-3 digit octets without
//! leading zeros, and colon-separated hexadecimal groups with at most one
//! `::` and an optional trailing dotted quad.

use vstd::prelude::*;
use crate::text::{all_digits, digits_value, is_digit};

verus! {

/// A hexadecimal digit (either case).
pub open spec fn is_hex_digit(c: char) -> bool {
    ('0' <= c && c <= '9') || ('a' <= c && c <= 'f') || ('A' <= c && c <= 'F')
}

/// The value of one hexadecimal digit.
pub open spec fn hex_digit_value(c: char) -> nat {
    if '0' <= c && c <= '9' {
        ((c as nat) - ('0' as nat)) as nat
    } else if 'a' <= c && c <= 'f' {
        ((c as nat) - ('a' as nat) + 10) as nat
    } else {
        ((c as nat) - ('A' as nat) + 10) as nat
    }
}

/// The value of a string of hexadecimal digits.
pub open spec fn hex_value(s: Seq<char>) -> nat
    decreases s.len(),
{
    if s.len() == 0 {
        0
    } else {
        hex_value(s.drop_last()) * 16 + hex_digit_value(s.last())
    }
}

/// End of the run of decimal digits starting at `p`.
pub open spec fn dec_run_end(s: Seq<char>, p: int) -> int
    decreases s.len() - p,
{
    if p < 0 || p >= s.len() || !is_digit(s[p]) {
        p
    } else {
        dec_run_end(s, p + 1)
    }
}

/// End of the run of hexadecimal digits starting at `p`.
pub open spec fn hex_run_end(s: Seq<char>, p: int) -> int
    decreases s.len() - p,
{
    if p < 0 || p >= s.len() || !is_hex_digit(s[p]) {
        p
    } else {
        hex_run_end(s, p + 1)
    }
}

/// An IPv4 octet: one to three digits, no leading zero unless it is "0",
/// at most 255.
pub open spec fn octet_ok(d: Seq<char>) -> bool {
    &&& 1 <= d.len() <= 3
    &&& all_digits(d)
    &&& (d.len() > 1 ==> d[0] != '0')
    &&& digits_value(d) <= 255
}

/// The octet read at `p` and the position after it.
pub open spec fn read_octet(s: Seq<char>, p: int) -> Option<(u8, int)> {
    let e = dec_run_end(s, p);
    let d = s.subrange(p, e);
    if 0 <= p && octet_ok(d) {
        Some((digits_value(d) as u8, e))
    } else {
        None
    }
}

/// `c` stands at position `p`.
pub open spec fn char_at(s: Seq<char>, p: int, c: char) -> bool {
    0 <= p < s.len() && s[p] == c
}

/// A dotted quad read at `p`: its four octets and the position after it.
pub open spec fn read_ipv4_at(s: Seq<char>, p: int) -> Option<(Seq<u8>, int)> {
    match read_octet(s, p) {
        None => None,
        Some((a, e1)) => if !char_at(s, e1, '.') { None } else {
            match read_octet(s, e1 + 1) {
                None => None,
                Some((b, e2)) => if !char_at(s, e2, '.') { None } else {
                    match read_octet(s, e2 + 1) {
                        None => None,
                        Some((c, e3)) => if !char_at(s, e3, '.') { None } else {
                            match read_octet(s, e3 + 1) {
                                None => None,
                                Some((d, e4)) => Some((seq![a, b, c, d], e4)),
                            }
                        },
                    }
                },
            }
        },
    }
}

/// The whole text is a dotted quad.
pub open spec fn ipv4_parse_spec(s: Seq<char>) -> Option<Seq<u8>> {
    match read_ipv4_at(s, 0) {
        Some((o, e)) => if e == s.len() { Some(o) } else { None },
        None => None,
    }
}

/// A hexadecimal group of one to four digits read at `p`.
pub open spec fn read_hex_group(s: Seq<char>, p: int) -> Option<(u16, int)> {
    let e = hex_run_end(s, p);
    if 0 <= p < e && e - p <= 4 {
        Some((hex_value(s.subrange(p, e)) as u16, e))
    } else {
        None
    }
}

/// Reads up to `limit - i` more colon-separated groups from `p` (a colon
/// before every group but the first of the run); a dotted quad may stand
/// for the last two groups. Returns the groups, whether a dotted quad
/// ended them, and the position after the last group read.
pub open spec fn read_groups_from(s: Seq<char>, p: int, i: nat, limit: nat, acc: Seq<u16>) -> (Seq<u16>, bool, int)
    decreases limit - i,
{
    if i >= limit {
        (acc, false, p)
    } else {
        let q = if i > 0 { if char_at(s, p, ':') { Some(p + 1) } else { None } } else { Some(p) };
        let v4 = if i + 1 < limit {
            match q { Some(q) => read_ipv4_at(s, q), None => None }
        } else {
            None
        };
        match v4 {
            Some((o, e)) => (acc + seq![((o[0] as int) * 256 + o[1] as int) as u16, ((o[2] as int) * 256 + o[3] as int) as u16], true, e),
            None => match q {
                None => (acc, false, p),
                Some(q) => match read_hex_group(s, q) {
                    None => (acc, false, p),
                    Some((g, e)) => read_groups_from(s, e, i + 1, limit, acc.push(g)),
                },
            },
        }
    }
}

/// `n` zero groups.
pub open spec fn zero_groups(n: nat) -> Seq<u16> {
    Seq::new(n, |i: int| 0u16)
}

/// The eight groups of an IPv6 address written in `s`.
pub open spec fn ipv6_parse_spec(s: Seq<char>) -> Option<Seq<u16>> {
    let (head, hv4, p) = read_groups_from(s, 0, 0, 8, Seq::empty());
    if head.len() == 8 {
        if p == s.len() { Some(head) } else { None }
    } else if hv4 {
        None
    } else if char_at(s, p, ':') && char_at(s, p + 1, ':') {
        let limit = (8 - (head.len() + 1)) as nat;
        let (tail, t4, q) = read_groups_from(s, p + 2, 0, limit, Seq::empty());
        if q == s.len() {
            Some(head + zero_groups((8 - head.len() - tail.len()) as nat) + tail)
        } else {
            None
        }
    } else {
        None
    }
}

proof fn lemma_dec_run_end(s: Seq<char>, p: int)
    requires
        0 <= p <= s.len(),
    ensures
        p <= dec_run_end(s, p) <= s.len(),
        all_digits(s.subrange(p, dec_run_end(s, p))),
        dec_run_end(s, p) < s.len() ==> !is_digit(s[dec_run_end(s, p)]),
    decreases s.len() - p,
{
    if p < s.len() && is_digit(s[p]) {
        lemma_dec_run_end(s, p + 1);
        let e = dec_run_end(s, p);
        assert forall|k: int| 0 <= k < e - p implies is_digit(#[trigger] s.subrange(p, e)[k]) by {
            if k > 0 {
                assert(s.subrange(p, e)[k] == s.subrange(p + 1, e)[k - 1]);
            }
        }
    }
}

proof fn lemma_hex_run_end(s: Seq<char>, p: int)
    requires
        0 <= p <= s.len(),
    ensures
        p <= hex_run_end(s, p) <= s.len(),
        forall|k: int| p <= k < hex_run_end(s, p) ==> is_hex_digit(#[trigger] s[k]),
        hex_run_end(s, p) < s.len() ==> !is_hex_digit(s[hex_run_end(s, p)]),
    decreases s.len() - p,
{
    if p < s.len() && is_hex_digit(s[p]) {
        lemma_hex_run_end(s, p + 1);
    }
}

/// End of the decimal run at `p`.
fn dec_run(v: &Vec<char>, p: usize) -> (e: usize)
    requires
        p <= v@.len(),
    ensures
        e == dec_run_end(v@, p as int),
        e <= v@.len(),
{
    let mut e = p;
    while e < v.len() && '0' <= v[e] && v[e] <= '9'
        invariant
            p <= e <= v@.len(),
            dec_run_end(v@, e as int) == dec_run_end(v@, p as int),
        decreases v@.len() - e,
    {
        e = e + 1;
    }
    e
}

/// End of the hexadecimal run at `p`.
fn hex_run(v: &Vec<char>, p: usize) -> (e: usize)
    requires
        p <= v@.len(),
    ensures
        e == hex_run_end(v@, p as int),
        e <= v@.len(),
{
    let mut e = p;
    while e < v.len() && (('0' <= v[e] && v[e] <= '9') || ('a' <= v[e] && v[e] <= 'f') || ('A' <= v[e] && v[e] <= 'F'))
        invariant
            p <= e <= v@.len(),
            hex_run_end(v@, e as int) == hex_run_end(v@, p as int),
        decreases v@.len() - e,
    {
        e = e + 1;
    }
    e
}

fn read_octet_exec(v: &Vec<char>, p: usize) -> (r: Option<(u8, usize)>)
    requires
        p <= v@.len(),
    ensures
        match r {
            Some((o, e)) => read_octet(v@, p as int) == Some((o, e as int)) && e <= v@.len(),
            None => read_octet(v@, p as int) is None,
        },
{
    let e = dec_run(v, p);
    proof { lemma_dec_run_end(v@, p as int); }
    let ghost d = v@.subrange(p as int, e as int);
    if e == p || e - p > 3 {
        return None;
    }
    if e - p > 1 && v[p] == '0' {
        assert(d[0] == v@[p as int]);
        return None;
    }
    let mut val: u32 = 0;
    let mut k = p;
    while k < e
        invariant
            p <= k <= e <= v@.len(),
            e - p <= 3,
            d == v@.subrange(p as int, e as int),
            all_digits(d),
            val == digits_value(v@.subrange(p as int, k as int)),
            k == p ==> val == 0,
            k - p <= 1 ==> val < 10,
            k - p <= 2 ==> val < 100,
            val < 1000,
        decreases e - k,
    {
        let ghost pre = v@.subrange(p as int, k as int);
        let ghost nxt = v@.subrange(p as int, k + 1);
        assert(nxt.drop_last() =~= pre);
        assert(is_digit(d[k - p]));
        assert(d[k - p] == v@[k as int]);
        let c = v[k];
        val = val * 10 + (c as u32 - '0' as u32);
        k = k + 1;
    }
    assert(v@.subrange(p as int, e as int) =~= d);
    if val > 255 {
        return None;
    }
    Some((val as u8, e))
}

/// The dotted quad at `p` in the grammar of the standard parser.
fn read_ipv4_exec(v: &Vec<char>, p: usize) -> (r: Option<(Vec<u8>, usize)>)
    requires
        p <= v@.len(),
    ensures
        match r {
            Some((o, e)) => read_ipv4_at(v@, p as int) == Some((o@, e as int)) && e <= v@.len(),
            None => read_ipv4_at(v@, p as int) is None,
        },
{
    let (a, e1) = match read_octet_exec(v, p) { Some(x) => x, None => { return None; } };
    if !(e1 < v.len() && v[e1] == '.') { return None; }
    let (b, e2) = match read_octet_exec(v, e1 + 1) { Some(x) => x, None => { return None; } };
    if !(e2 < v.len() && v[e2] == '.') { return None; }
    let (c, e3) = match read_octet_exec(v, e2 + 1) { Some(x) => x, None => { return None; } };
    if !(e3 < v.len() && v[e3] == '.') { return None; }
    let (d, e4) = match read_octet_exec(v, e3 + 1) { Some(x) => x, None => { return None; } };
    let mut o: Vec<u8> = Vec::new();
    o.push(a);
    o.push(b);
    o.push(c);
    o.push(d);
    assert(o@ =~= seq![a, b, c, d]);
    Some((o, e4))
}

/// Parses a whole dotted quad.
pub fn parse_ipv4(v: &Vec<char>) -> (r: Option<Vec<u8>>)
    ensures
        match r {
            Some(o) => ipv4_parse_spec(v@) == Some(o@),
            None => ipv4_parse_spec(v@) is None,
        },
{
    match read_ipv4_exec(v, 0) {
        Some((o, e)) => if e == v.len() { Some(o) } else { None },
        None => None,
    }
}

fn hex_digit_val(c: char) -> (d: u32)
    requires
        is_hex_digit(c),
    ensures
        d == hex_digit_value(c),
        d < 16,
{
    if '0' <= c && c <= '9' {
        c as u32 - '0' as u32
    } else if 'a' <= c && c <= 'f' {
        c as u32 - 'a' as u32 + 10
    } else {
        c as u32 - 'A' as u32 + 10
    }
}

fn read_hex_group_exec(v: &Vec<char>, p: usize) -> (r: Option<(u16, usize)>)
    requires
        p <= v@.len(),
    ensures
        match r {
            Some((g, e)) => read_hex_group(v@, p as int) == Some((g, e as int)) && e <= v@.len(),
            None => read_hex_group(v@, p as int) is None,
        },
{
    let e = hex_run(v, p);
    proof { lemma_hex_run_end(v@, p as int); }
    if e == p || e - p > 4 {
        return None;
    }
    let mut val: u32 = 0;
    let mut k = p;
    while k < e
        invariant
            p <= k <= e <= v@.len(),
            e - p <= 4,
            forall|j: int| p <= j < e ==> is_hex_digit(#[trigger] v@[j]),
            val == hex_value(v@.subrange(p as int, k as int)),
            val < 0x10000,
            k - p <= 3 ==> val < 0x1000,
            k - p <= 2 ==> val < 0x100,
            k - p <= 1 ==> val < 0x10,
            k == p ==> val == 0,
        decreases e - k,
    {
        let ghost pre = v@.subrange(p as int, k as int);
        let ghost nxt = v@.subrange(p as int, k + 1);
        assert(nxt.drop_last() =~= pre);
        assert(nxt.last() == v@[k as int]);
        let d = hex_digit_val(v[k]);
        val = val * 16 + d;
        k = k + 1;
    }
    Some((val as u16, e))
}

/// The groups read from `p` with at most `limit` groups.
#[verifier::spinoff_prover]
#[verifier::rlimit(40)]
fn read_groups_exec(v: &Vec<char>, p0: usize, limit: usize) -> (r: (Vec<u16>, bool, usize))
    requires
        p0 <= v@.len(),
        limit <= 8,
    ensures
        read_groups_from(v@, p0 as int, 0, limit as nat, Seq::empty()) == (r.0@, r.1, r.2 as int),
        r.2 <= v@.len(),
        r.0@.len() <= limit,
{
    let mut acc: Vec<u16> = Vec::new();
    let mut p = p0;
    let mut i: usize = 0;
    while i < limit
        invariant
            i <= limit <= 8,
            p <= v@.len(),
            acc@.len() == i,
            read_groups_from(v@, p0 as int, 0, limit as nat, Seq::empty())
                == read_groups_from(v@, p as int, i as nat, limit as nat, acc@),
        decreases limit - i,
    {
        let ghost acc0 = acc@;
        let ghost p_before = p;
        let q: Option<usize> = if i > 0 {
            if p < v.len() && v[p] == ':' { Some(p + 1) } else { None }
        } else {
            Some(p)
        };
        if i + 1 < limit {
            if let Some(q) = q {
                if let Some((o, e)) = read_ipv4_exec(v, q) {
                    let g0: u16 = (o[0] as u16) * 256 + o[1] as u16;
                    let g1: u16 = (o[2] as u16) * 256 + o[3] as u16;
                    let ghost acc0 = acc@;
                    acc.push(g0);
                    acc.push(g1);
                    assert(acc@ =~= acc0 + seq![((o@[0] as int) * 256 + o@[1] as int) as u16, ((o@[2] as int) * 256 + o@[3] as int) as u16]);
                    return (acc, true, e);
                }
            }
        }
        match q {
            None => { return (acc, false, p); },
            Some(q) => {
                match read_hex_group_exec(v, q) {
                    None => { return (acc, false, p); },
                    Some((g, e)) => {
                        assert(read_groups_from(v@, p as int, i as nat, limit as nat, acc0)
                            == read_groups_from(v@, e as int, (i + 1) as nat, limit as nat, acc0.push(g)));
                        acc.push(g);
                        p = e;
                        i = i + 1;
                    },
                }
            },
        }
    }
    assert(read_groups_from(v@, p as int, i as nat, limit as nat, acc@) == (acc@, false, p as int));
    (acc, false, p)
}

/// Parses a whole IPv6 address into its eight groups.
pub fn parse_ipv6(v: &Vec<char>) -> (r: Option<Vec<u16>>)
    ensures
        match r {
            Some(g) => ipv6_parse_spec(v@) == Some(g@) && g@.len() == 8,
            None => ipv6_parse_spec(v@) is None,
        },
{
    let (head, hv4, p) = read_groups_exec(v, 0, 8);
    if head.len() == 8 {
        if p == v.len() {
            return Some(head);
        }
        return None;
    }
    if hv4 {
        return None;
    }
    if p < v.len() && p + 1 < v.len() && v[p] == ':' && v[p + 1] == ':' {
        let limit = 8 - (head.len() + 1);
        let (tail, _t4, q) = read_groups_exec(v, p + 2, limit);
        if q == v.len() {
            let mut out = head;
            let ghost h = out@;
            let zeros: usize = 8 - out.len() - tail.len();
            let mut k: usize = 0;
            while k < zeros
                invariant
                    k <= zeros,
                    zeros == 8 - h.len() - tail@.len(),
                    out@ == h + zero_groups(k as nat),
                decreases zeros - k,
            {
                out.push(0u16);
                k = k + 1;
                assert(out@ =~= h + zero_groups(k as nat));
            }
            let ghost mid = out@;
            let mut t: usize = 0;
            while t < tail.len()
                invariant
                    t <= tail@.len(),
                    out@ == mid + tail@.subrange(0, t as int),
                decreases tail@.len() - t,
            {
                out.push(tail[t]);
                t = t + 1;
                assert(out@ =~= mid + tail@.subrange(0, t as int));
            }
            assert(tail@.subrange(0, tail@.len() as int) =~= tail@);
            return Some(out);
        }
        None
    } else {
        None
    }
}

} // verus!
