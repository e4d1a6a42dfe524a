//! Text form of IPv6 addresses: lower-case hexadecimal groups, the first
//! longest run of two or more zero groups written as `::`, and IPv4-mapped
//! addresses written as `::ffff:a.b.c.d` (the form of RFC 5952).

use vstd::prelude::*;
use crate::text::{dec, push_char, push_str, push_u32};

verus! {

pub open spec fn hex_digit_spec(d: nat) -> char {
    if d < 10 { crate::text::digit_char_spec(d) }
    else if d == 10 { 'a' }
    else if d == 11 { 'b' }
    else if d == 12 { 'c' }
    else if d == 13 { 'd' }
    else if d == 14 { 'e' }
    else { 'f' }
}

/// Lower-case hexadecimal text without leading zeros ("0" for zero).
pub open spec fn hex(n: nat) -> Seq<char>
    decreases n,
{
    if n < 16 { seq![hex_digit_spec(n)] } else { hex(n / 16).push(hex_digit_spec(n % 16)) }
}

pub fn hex_digit(d: u64) -> (c: char)
    requires
        d < 16,
    ensures
        c == hex_digit_spec(d as nat),
{
    if d < 10 {
        crate::text::digit_char(d)
    } else {
        match d {
            10 => 'a',
            11 => 'b',
            12 => 'c',
            13 => 'd',
            14 => 'e',
            _ => 'f',
        }
    }
}

/// Appends the lower-case hexadecimal text of `n`.
pub fn push_hex(out: &mut String, n: u64)
    ensures
        final(out)@ == old(out)@ + hex(n as nat),
    decreases n,
{
    if n >= 16 {
        push_hex(out, n / 16);
    }
    let c = hex_digit(n % 16);
    push_char(out, c);
}

/// The 16-bit group `i` (big-endian) of a 16-byte address.
pub open spec fn segment(a: Seq<u8>, i: int) -> nat {
    a[2 * i] as nat * 256 + a[2 * i + 1] as nat
}

/// Groups `from..to` in hexadecimal, separated by colons.
pub open spec fn join_segments(a: Seq<u8>, from: int, to: int) -> Seq<char>
    decreases to - from,
{
    if from >= to {
        Seq::empty()
    } else if from + 1 == to {
        hex(segment(a, from))
    } else {
        join_segments(a, from, to - 1) + seq![':'] + hex(segment(a, to - 1))
    }
}

/// Scans the groups from `i` on and yields `(start, len)` of the first
/// longest run of zero groups, given the run in progress and the best so far.
pub open spec fn zero_run_scan(a: Seq<u8>, i: int, cur_start: int, cur_len: int, best_start: int, best_len: int) -> (int, int)
    decreases 8 - i,
{
    if i >= 8 {
        (best_start, best_len)
    } else if segment(a, i) == 0 {
        let cs = if cur_len == 0 { i } else { cur_start };
        let cl = cur_len + 1;
        if cl > best_len {
            zero_run_scan(a, i + 1, cs, cl, cs, cl)
        } else {
            zero_run_scan(a, i + 1, cs, cl, best_start, best_len)
        }
    } else {
        zero_run_scan(a, i + 1, 0, 0, best_start, best_len)
    }
}

/// `(start, len)` of the first longest run of zero groups.
pub open spec fn zero_run(a: Seq<u8>) -> (int, int) {
    zero_run_scan(a, 0, 0, 0, 0, 0)
}

/// An IPv4-mapped address: `::ffff:0:0/96`.
pub open spec fn is_ipv4_mapped(a: Seq<u8>) -> bool {
    &&& forall|k: int| 0 <= k < 10 ==> a[k] == 0u8
    &&& a[10] == 0xffu8
    &&& a[11] == 0xffu8
}

/// The text of a 16-byte IPv6 address.
pub open spec fn ipv6_text(a: Seq<u8>) -> Seq<char> {
    if is_ipv4_mapped(a) {
        seq![':', ':', 'f', 'f', 'f', 'f', ':'] + dec(a[12] as nat) + seq!['.'] + dec(a[13] as nat)
            + seq!['.'] + dec(a[14] as nat) + seq!['.'] + dec(a[15] as nat)
    } else {
        let (s, l) = zero_run(a);
        if l > 1 {
            join_segments(a, 0, s) + seq![':', ':'] + join_segments(a, s + l, 8)
        } else {
            join_segments(a, 0, 8)
        }
    }
}

pub(crate) fn push_segments(out: &mut String, a: &[u8; 16], from: usize, to: usize)
    requires
        from <= to <= 8,
    ensures
        final(out)@ == old(out)@ + join_segments(a@, from as int, to as int),
{
    if from >= to {
        return;
    }
    let ghost start = out@;
    let s0 = a[2 * from] as u64 * 256 + a[2 * from + 1] as u64;
    push_hex(out, s0);
    let mut i: usize = from + 1;
    while i < to
        invariant
            from < i <= to <= 8,
            out@ == start + join_segments(a@, from as int, i as int),
        decreases to - i,
    {
        push_char(out, ':');
        let s = a[2 * i] as u64 * 256 + a[2 * i + 1] as u64;
        push_hex(out, s);
        i += 1;
        assert(out@ =~= start + join_segments(a@, from as int, i as int));
    }
}

/// The text of an IPv6 address (see `ipv6_text`).
pub fn ipv6_to_string(a: [u8; 16]) -> (s: String)
    ensures
        s@ == ipv6_text(a@),
{
    let mut out = String::new();
    let mut mapped = a[10] == 0xff && a[11] == 0xff;
    let mut k: usize = 0;
    while k < 10
        invariant
            k <= 10,
            mapped == (a@[10] == 0xffu8 && a@[11] == 0xffu8 && forall|j: int| 0 <= j < k ==> a@[j] == 0u8),
        decreases 10 - k,
    {
        if a[k] != 0 {
            mapped = false;
        }
        k += 1;
    }
    if mapped {
        push_str(&mut out, "::ffff:");
        proof { reveal_strlit("::ffff:"); }
        push_u32(&mut out, a[12] as u32);
        push_char(&mut out, '.');
        push_u32(&mut out, a[13] as u32);
        push_char(&mut out, '.');
        push_u32(&mut out, a[14] as u32);
        push_char(&mut out, '.');
        push_u32(&mut out, a[15] as u32);
        assert(out@ =~= ipv6_text(a@));
        return out;
    }
    let mut cur_start: usize = 0;
    let mut cur_len: usize = 0;
    let mut best_start: usize = 0;
    let mut best_len: usize = 0;
    let mut i: usize = 0;
    while i < 8
        invariant
            i <= 8,
            cur_len <= i,
            cur_start + cur_len <= i,
            best_start + best_len <= 8,
            best_len <= i,
            zero_run(a@) == zero_run_scan(a@, i as int, cur_start as int, cur_len as int, best_start as int, best_len as int),
        decreases 8 - i,
    {
        let seg = a[2 * i] as u64 * 256 + a[2 * i + 1] as u64;
        if seg == 0 {
            if cur_len == 0 {
                cur_start = i;
            }
            cur_len += 1;
            if cur_len > best_len {
                best_start = cur_start;
                best_len = cur_len;
            }
        } else {
            cur_start = 0;
            cur_len = 0;
        }
        i += 1;
    }
    if best_len > 1 {
        push_segments(&mut out, &a, 0, best_start);
        push_char(&mut out, ':');
        push_char(&mut out, ':');
        push_segments(&mut out, &a, best_start + best_len, 8);
    } else {
        push_segments(&mut out, &a, 0, 8);
    }
    assert(out@ =~= ipv6_text(a@));
    out
}

} // verus!
