//! The address range of a scan and the round-trip time in a ping report.

use vstd::prelude::*;
use vstd::string::*;
use crate::text::{chars_of, dec, find_char, find_char_from, parse_u32_range, parse_u32_spec, push_str, push_u32};
use crate::inet::{ipv4_parse_spec, parse_ipv4};
use crate::text::{lossy_text, utf8_lossy};
use vstd::utf8::encode_utf8;

verus! {

/// The outcome of pinging one address (the address as a 32-bit value).
pub struct PingResult {
    pub ip: u32,
    pub alive: bool,
    pub latency_ms: Option<u32>,
}

/// The 32-bit value of a dotted quad (first octet most significant).
pub open spec fn ipv4_value(o: Seq<u8>) -> u32 {
    (o[0] as int * 0x100_0000 + o[1] as int * 0x1_0000 + o[2] as int * 0x100 + o[3] as int) as u32
}

/// The network mask of a prefix length (0 for /0).
pub open spec fn cidr_mask(prefix: u32) -> u32 {
    if prefix == 0 { 0u32 } else { (!0u32) << ((32 - prefix) as u32) }
}

/// The addresses of a CIDR block "a.b.c.d/len" (the host bits of the
/// address cleared), or the message of the first error found.
pub open spec fn cidr_parse(s: Seq<char>) -> Result<(u32, u32), Seq<char>> {
    let slash = find_char_from(s, '/', 0);
    if slash >= s.len() {
        Err("invalid CIDR: "@ + s)
    } else {
        let a = s.subrange(0, slash);
        let p = s.subrange(slash + 1, s.len() as int);
        match parse_u32_spec(p) {
            None => Err("invalid prefix length: "@ + p),
            Some(prefix) => if prefix > 32 {
                Err("prefix length "@ + dec(prefix as nat) + " out of range"@)
            } else {
                match ipv4_parse_spec(a) {
                    None => Err("invalid address: "@ + a),
                    Some(o) => Ok((ipv4_value(o) & cidr_mask(prefix), prefix)),
                }
            },
        }
    }
}

/// Adding an offset below the block size to a network address stays in
/// the 32-bit range.
proof fn lemma_block_fits(base: u32, prefix: u32, i: u64)
    requires
        prefix <= 32,
        i < (1u64 << ((32 - prefix) as u64)),
    ensures
        (base & cidr_mask(prefix)) as u64 + i <= 0xffff_ffffu64,
{
    let k: u64 = (32 - prefix) as u64;
    let m: u32 = cidr_mask(prefix);
    if prefix == 0 {
        assert(m == 0u32);
        assert((base & 0u32) == 0u32) by (bit_vector);
        assert(k == 32);
        assert((1u64 << 32u64) == 0x1_0000_0000u64) by (bit_vector);
    } else {
        let sh: u32 = (32 - prefix) as u32;
        assert(m == (!0u32) << sh);
        assert(((base & ((!0u32) << sh)) as u64) + i <= 0xffff_ffffu64) by (bit_vector)
            requires
                sh < 32,
                i < (1u64 << (sh as u64));
    }
}

fn take_chars(v: &Vec<char>, lo: usize, hi: usize) -> (a: Vec<char>)
    requires
        lo <= hi <= v@.len(),
    ensures
        a@ == v@.subrange(lo as int, hi as int),
{
    let mut a: Vec<char> = Vec::new();
    let mut i: usize = lo;
    while i < hi
        invariant
            lo <= i <= hi <= v@.len(),
            a@ == v@.subrange(lo as int, i as int),
        decreases hi - i,
    {
        a.push(v[i]);
        i = i + 1;
        assert(a@ =~= v@.subrange(lo as int, i as int));
    }
    a
}

fn push_chars_of(out: &mut String, v: &Vec<char>)
    ensures
        final(out)@ == old(out)@ + v@,
{
    crate::text::push_chars(out, v.as_slice());
}

/// Every address of a CIDR block, in increasing order.
pub fn parse_cidr(cidr: &str) -> (r: Result<Vec<u32>, String>)
    ensures
        match (r, cidr_parse(cidr@)) {
            (Ok(v), Ok((network, prefix))) => v@ == Seq::new(
                (1u64 << ((32 - prefix) as u64)) as nat,
                |i: int| (network + i) as u32,
            ),
            (Err(e), Err(m)) => e@ == m,
            _ => false,
        },
{
    let v = chars_of(cidr);
    let n = v.len();
    let slash = find_char(&v, '/', 0);
    if slash >= n {
        let mut e = String::new();
        push_str(&mut e, "invalid CIDR: ");
        push_str(&mut e, cidr);
        return Err(e);
    }
    let a = take_chars(&v, 0, slash);
    let p = take_chars(&v, slash + 1, n);
    let prefix: u32 = match parse_u32_range(&v, slash + 1, n) {
        Some(x) => x,
        None => {
            let mut e = String::new();
            push_str(&mut e, "invalid prefix length: ");
            push_chars_of(&mut e, &p);
            return Err(e);
        },
    };
    if prefix > 32 {
        let mut e = String::new();
        push_str(&mut e, "prefix length ");
        push_u32(&mut e, prefix);
        push_str(&mut e, " out of range");
        return Err(e);
    }
    let o = match parse_ipv4(&a) {
        Some(o) => o,
        None => {
            let mut e = String::new();
            push_str(&mut e, "invalid address: ");
            push_chars_of(&mut e, &a);
            return Err(e);
        },
    };
    let base: u32 = (o[0] as u32) * 0x100_0000 + (o[1] as u32) * 0x1_0000 + (o[2] as u32) * 0x100 + (o[3] as u32);
    let mask: u32 = if prefix == 0 { 0u32 } else { !0u32 << (32 - prefix) };
    let network = base & mask;
    let count: u64 = 1u64 << (32 - prefix) as u64;
    let mut out: Vec<u32> = Vec::new();
    let mut i: u64 = 0;
    while i < count
        invariant
            i <= count,
            count == (1u64 << ((32 - prefix) as u64)),
            prefix <= 32,
            network == base & cidr_mask(prefix),
            out@ == Seq::new(i as nat, |j: int| (network + j) as u32),
        decreases count - i,
    {
        proof { lemma_block_fits(base, prefix, i); }
        out.push(network + i as u32);
        i = i + 1;
        assert(out@ =~= Seq::new(i as nat, |j: int| (network + j) as u32));
    }
    Ok(out)
}

/// Position after the run of ASCII digits starting at `p`.
pub open spec fn byte_digits_end(b: Seq<u8>, p: int) -> int
    decreases b.len() - p,
{
    if p < 0 || p >= b.len() || !(0x30 <= b[p] && b[p] <= 0x39) { p } else { byte_digits_end(b, p + 1) }
}

/// Position after the run of spaces starting at `p`.
pub open spec fn byte_spaces_end(b: Seq<u8>, p: int) -> int
    decreases b.len() - p,
{
    if p < 0 || p >= b.len() || b[p] != 0x20 { p } else { byte_spaces_end(b, p + 1) }
}

/// The value of ASCII decimal digits.
pub open spec fn byte_digits_value(b: Seq<u8>) -> nat
    decreases b.len(),
{
    if b.len() == 0 { 0 } else { byte_digits_value(b.drop_last()) * 10 + (b.last() - 0x30) as nat }
}

/// "ms", "Ms" or "MS" at `j`.
pub open spec fn ms_at(b: Seq<u8>, j: int) -> bool {
    &&& 0 <= j && j + 2 <= b.len()
    &&& ((b[j] == 0x6d && b[j + 1] == 0x73) || (b[j] == 0x4d && b[j + 1] == 0x73) || (b[j] == 0x4d && b[j + 1] == 0x53))
}

/// The first round-trip time in a ping report from byte `i`: '=' or '<'
/// followed by a number, optional spaces and "ms"; '<' without a number
/// counts as 0.
pub open spec fn latency_from(b: Seq<u8>, i: int) -> Option<u32>
    decreases b.len() - i,
{
    if i < 0 || i >= b.len() {
        None
    } else if b[i] == 0x3d || b[i] == 0x3c {
        let start = i + 1;
        let end = byte_digits_end(b, start);
        if end > start {
            let j = byte_spaces_end(b, end);
            if ms_at(b, j) && byte_digits_value(b.subrange(start, end)) <= u32::MAX {
                Some(byte_digits_value(b.subrange(start, end)) as u32)
            } else {
                latency_from(b, i + 1)
            }
        } else if b[i] == 0x3c {
            Some(0)
        } else {
            latency_from(b, i + 1)
        }
    } else {
        latency_from(b, i + 1)
    }
}

proof fn lemma_byte_digits_end(b: Seq<u8>, p: int)
    requires
        0 <= p <= b.len(),
    ensures
        p <= byte_digits_end(b, p) <= b.len(),
        forall|k: int| p <= k < byte_digits_end(b, p) ==> 0x30 <= #[trigger] b[k] <= 0x39,
    decreases b.len() - p,
{
    if p < b.len() && 0x30 <= b[p] && b[p] <= 0x39 {
        lemma_byte_digits_end(b, p + 1);
    }
}

proof fn lemma_byte_spaces_end(b: Seq<u8>, p: int)
    requires
        0 <= p <= b.len(),
    ensures
        p <= byte_spaces_end(b, p) <= b.len(),
    decreases b.len() - p,
{
    if p < b.len() && b[p] == 0x20 {
        lemma_byte_spaces_end(b, p + 1);
    }
}

/// The value of the digits `b[lo..hi]`, or `None` above `u32::MAX`.
fn byte_digits_u32(b: &[u8], lo: usize, hi: usize) -> (r: Option<u32>)
    requires
        lo <= hi <= b@.len(),
        forall|k: int| lo <= k < hi ==> 0x30 <= #[trigger] b@[k] <= 0x39,
    ensures
        r == (if byte_digits_value(b@.subrange(lo as int, hi as int)) <= u32::MAX {
            Some(byte_digits_value(b@.subrange(lo as int, hi as int)) as u32)
        } else {
            None
        }),
{
    let mut acc: u64 = 0;
    let mut k = lo;
    while k < hi
        invariant
            lo <= k <= hi <= b@.len(),
            forall|j: int| lo <= j < hi ==> 0x30 <= #[trigger] b@[j] <= 0x39,
            acc == (if byte_digits_value(b@.subrange(lo as int, k as int)) <= u32::MAX {
                byte_digits_value(b@.subrange(lo as int, k as int))
            } else {
                0x1_0000_0000nat
            }),
        decreases hi - k,
    {
        assert(b@.subrange(lo as int, k + 1).drop_last() =~= b@.subrange(lo as int, k as int));
        let d = (b[k] - 0x30) as u64;
        let t = acc * 10 + d;
        acc = if t > 0xffff_ffff { 0x1_0000_0000 } else { t };
        k = k + 1;
    }
    if acc > 0xffff_ffff { None } else { Some(acc as u32) }
}

/// The round-trip time in a ping report (see `latency_from`).
pub fn parse_latency(output: &str) -> (r: Option<u32>)
    ensures
        r == latency_from(output.spec_bytes(), 0),
{
    let bytes = output.as_bytes();
    let n = bytes.len();
    let mut i: usize = 0;
    while i < n
        invariant
            i <= n,
            n == bytes@.len(),
            bytes@ == output.spec_bytes(),
            latency_from(bytes@, i as int) == latency_from(bytes@, 0),
        decreases n - i,
    {
        if bytes[i] == 0x3d || bytes[i] == 0x3c {
            let start = i + 1;
            let mut end = start;
            while end < n && 0x30 <= bytes[end] && bytes[end] <= 0x39
                invariant
                    start <= end <= n,
                    n == bytes@.len(),
                    byte_digits_end(bytes@, end as int) == byte_digits_end(bytes@, start as int),
                decreases n - end,
            {
                end = end + 1;
            }
            proof { lemma_byte_digits_end(bytes@, start as int); }
            if end > start {
                let mut j = end;
                while j < n && bytes[j] == 0x20
                    invariant
                        end <= j <= n,
                        n == bytes@.len(),
                        byte_spaces_end(bytes@, j as int) == byte_spaces_end(bytes@, end as int),
                    decreases n - j,
                {
                    j = j + 1;
                }
                proof { lemma_byte_spaces_end(bytes@, end as int); }
                let ms = j < n && j + 1 < n && ((bytes[j] == 0x6d && bytes[j + 1] == 0x73)
                    || (bytes[j] == 0x4d && bytes[j + 1] == 0x73) || (bytes[j] == 0x4d && bytes[j + 1] == 0x53));
                if ms {
                    if let Some(v) = byte_digits_u32(bytes, start, end) {
                        return Some(v);
                    }
                }
            } else if bytes[i] == 0x3c {
                return Some(0);
            }
        }
        i = i + 1;
    }
    None
}

/// A 32-bit address as a dotted quad.
pub open spec fn ip_text(ip: u32) -> Seq<char> {
    dec((ip / 0x100_0000) as nat) + "."@ + dec(((ip / 0x1_0000) % 256) as nat) + "."@ + dec(((ip / 0x100) % 256) as nat)
        + "."@ + dec((ip % 256) as nat)
}

/// The arguments of `ping` for one address: on Windows the count and the
/// timeout in milliseconds; elsewhere the count and the timeout in whole
/// seconds, rounded up and at least one.
pub open spec fn ping_args_spec(ip: u32, timeout_ms: u32, count: u32, windows: bool) -> Seq<Seq<char>> {
    if windows {
        seq!["-n"@, dec(count as nat), "-w"@, dec(timeout_ms as nat), ip_text(ip)]
    } else {
        let up = (timeout_ms as nat + 999) / 1000;
        let secs: nat = if up < 1 { 1 } else { up };
        seq!["-c"@, dec(count as nat), "-W"@, dec(secs), ip_text(ip)]
    }
}

fn ip_string(ip: u32) -> (s: String)
    ensures
        s@ == ip_text(ip),
{
    let mut s = String::new();
    push_u32(&mut s, ip / 0x100_0000);
    push_str(&mut s, ".");
    push_u32(&mut s, (ip / 0x1_0000) % 256);
    push_str(&mut s, ".");
    push_u32(&mut s, (ip / 0x100) % 256);
    push_str(&mut s, ".");
    push_u32(&mut s, ip % 256);
    assert(s@ =~= ip_text(ip));
    s
}

fn number_string(n: u32) -> (s: String)
    ensures
        s@ == dec(n as nat),
{
    let mut s = String::new();
    push_u32(&mut s, n);
    s
}

/// The arguments of the `ping` command that probes one address.
pub fn ping_args(ip: u32, timeout_ms: u32, count: u32, windows: bool) -> (v: Vec<String>)
    ensures
        v@.map_values(|s: String| s@) == ping_args_spec(ip, timeout_ms, count, windows),
{
    let mut v: Vec<String> = Vec::new();
    if windows {
        v.push(String::from_str("-n"));
        v.push(number_string(count));
        v.push(String::from_str("-w"));
        v.push(number_string(timeout_ms));
    } else {
        let up: u32 = timeout_ms / 1000 + if timeout_ms % 1000 == 0 { 0 } else { 1 };
        let secs: u32 = if up < 1 { 1 } else { up };
        v.push(String::from_str("-c"));
        v.push(number_string(count));
        v.push(String::from_str("-W"));
        v.push(number_string(secs));
    }
    v.push(ip_string(ip));
    assert(v@.map_values(|s: String| s@) =~= ping_args_spec(ip, timeout_ms, count, windows));
    v
}

/// The result of one probe: the address answered when `ping` ran and
/// exited successfully; then its round-trip time is read from the report
/// (the output read as UTF-8, invalid sequences replaced).
pub fn ping_outcome(ip: u32, ran: bool, success: bool, stdout: &[u8]) -> (r: PingResult)
    ensures
        r.ip == ip,
        r.alive == (ran && success),
        r.latency_ms == (if ran && success {
            latency_from(encode_utf8(utf8_lossy(stdout@)), 0)
        } else {
            None
        }),
{
    if !ran || !success {
        return PingResult { ip, alive: false, latency_ms: None };
    }
    let text = lossy_text(stdout);
    let latency = parse_latency(text.as_str());
    PingResult { ip, alive: true, latency_ms: latency }
}

} // verus!
