//! IP prefixes (`SxPrefix`) and the radix tree that stores them.

use vstd::prelude::*;
use vstd::string::*;
use crate::text::{
    all_digits, chars_of, count_char, count_char_exec, dec, find_char, find_char_from, is_digit,
    lemma_contains_find, parse_i32_range, parse_i32_spec, parse_u32_range, parse_u32_spec, push_char,
    push_str, push_u32, string_from_chars, trim_end_at, trimmed_len,
};
use crate::inet::{ipv4_parse_spec, ipv6_parse_spec, parse_ipv4, parse_ipv6};
use crate::ipv6::{ipv6_text, ipv6_to_string};

verus! {

pub const ADDR_BYTES: usize = 16;

/// Number of address bits of a family (2 = IPv4, anything else = IPv6).
pub open spec fn max_bits(family: u8) -> nat {
    if family == 2 { 32 } else { 128 }
}

/// Bit `n` (1-based, most significant first) of an address.
pub open spec fn bit_at(a: Seq<u8>, n: int) -> bool {
    (a[(n - 1) / 8] & (0x80u8 >> (((n - 1) % 8) as u8))) != 0u8
}

/// The byte mask keeping the `r` most significant bits (r < 8).
pub open spec fn top_bits(r: u32) -> u8 {
    if r == 0 { 0u8 } else { 0xffu8 << ((8 - r) as u32) }
}

/// The address after the tail past the mask length has been cleared,
/// as `adjust_masklen` does it: the bytes wholly past the mask are zeroed,
/// and the byte the mask ends inside keeps its top `masklen % 8` bits.
pub open spec fn adjusted_addrs(a: Seq<u8>, family: u8, masklen: u32) -> Seq<u8> {
    let nbytes: int = if family == 2 { 4 } else { 16 };
    if masklen as int == nbytes * 8 {
        a
    } else {
        Seq::new(16, |i: int|
            if ((masklen + 7) / 8) as int <= i < nbytes {
                0u8
            } else if i == (masklen / 8) as int && masklen % 8 != 0 {
                a[i] & top_bits(masklen % 8)
            } else {
                a[i]
            })
    }
}

/// Byte `i` of the network mask of length `ml`.
pub open spec fn mask_byte(ml: u32, i: int) -> u8 {
    if i < (ml / 8) as int { 0xffu8 }
    else if i == (ml / 8) as int { top_bits(ml % 8) }
    else { 0u8 }
}

/// Byte `i` of the inverse (wildcard) mask of length `ml`.
pub open spec fn imask_byte(ml: u32, i: int) -> u8 {
    if i < (ml / 8) as int { 0u8 }
    else if i == (ml / 8) as int { !top_bits(ml % 8) }
    else { 0xffu8 }
}

/// Dotted-quad text of the first four bytes.
pub open spec fn ipv4_text(a: Seq<u8>) -> Seq<char> {
    dec(a[0] as nat) + seq!['.'] + dec(a[1] as nat) + seq!['.'] + dec(a[2] as nat)
        + seq!['.'] + dec(a[3] as nat)
}

/// Address text of a prefix of the given family.
pub open spec fn addr_text(family: u8, a: Seq<u8>) -> Seq<char> {
    if family == 2 { ipv4_text(a) } else { ipv6_text(a) }
}

/// The sixteen address bytes of eight IPv6 groups (big-endian).
pub open spec fn groups_bytes(g: Seq<u16>) -> Seq<u8> {
    Seq::new(16, |i: int| if i % 2 == 0 { (g[i / 2] / 256) as u8 } else { (g[i / 2] % 256) as u8 })
}

/// Sixteen zero bytes.
pub open spec fn zero_addr() -> Seq<u8> {
    Seq::new(16, |i: int| 0u8)
}

/// The address part of a prefix text: what stands before the first '/'.
pub open spec fn addr_part(s: Seq<char>) -> Seq<char> {
    s.subrange(0, find_char_from(s, '/', 0))
}

/// The mask length written after the first '/' (trailing white space
/// ignored), -1 when there is no '/', `None` when it is not a number.
pub open spec fn mask_part(s: Seq<char>) -> Option<int> {
    let k = find_char_from(s, '/', 0);
    if k < s.len() {
        let r = s.subrange(k + 1, s.len() as int);
        parse_i32_spec(r.subrange(0, trimmed_len(r) as int))
    } else {
        Some(-1)
    }
}

/// The family a prefix text is read in: the one asked for, or, when none
/// is (0), IPv6 (10) for an address with a ':' and IPv4 (2) otherwise.
pub open spec fn effective_family(af: u8, s: Seq<char>) -> u8 {
    if af == 0 {
        if addr_part(s).contains(':') { 10 } else { 2 }
    } else {
        af
    }
}

/// The inputs on which prefix parsing panics: a valid mask, an address
/// part that is neither address form, read as IPv4, with exactly three
/// dots (its octets are then read with an invalid radix).
pub open spec fn parse_panics(af: u8, s: Seq<char>) -> bool {
    &&& mask_part(s) is Some
    &&& ipv4_parse_spec(addr_part(s)) is None
    &&& ipv6_parse_spec(addr_part(s)) is None
    &&& effective_family(af, s) == 2
    &&& count_char(addr_part(s), '.') == 3
}

/// The prefix read from a text (family, mask length, address with the
/// tail past the mask cleared). An address of the other family than the
/// one read in gives the zero address; a mask that is negative, missing
/// or longer than the family allows is the full length.
pub open spec fn prefix_parse(af: u8, s: Seq<char>) -> Option<(u8, u32, Seq<u8>)> {
    match mask_part(s) {
        None => None,
        Some(m) => {
            let a = addr_part(s);
            let eff = effective_family(af, s);
            let base: Option<Seq<u8>> = match ipv4_parse_spec(a) {
                Some(o) => Some(if eff == 2 { o + Seq::new(12, |i: int| 0u8) } else { zero_addr() }),
                None => match ipv6_parse_spec(a) {
                    Some(g) => Some(if eff == 10 { groups_bytes(g) } else { zero_addr() }),
                    None => None,
                },
            };
            match base {
                None => None,
                Some(b) => {
                    let mb = max_bits(eff) as int;
                    let ml: int = if m < 0 || m > mb { mb } else { m };
                    Some((eff, ml as u32, adjusted_addrs(b, eff, ml as u32)))
                },
            }
        },
    }
}

/// The longest mask a range may reach: the configured maximum, or the
/// full length of the family asked for.
pub open spec fn range_default_max(af: u8, maxlen: u32) -> u32 {
    if maxlen > 0 { maxlen } else if af == 2 { 32 } else { 128 }
}

/// The mask-length bounds written after the '^' of a prefix range, given
/// the prefix's mask length: "-" (strictly longer), "+" (the prefix and
/// longer), "n" (from n), or "n-m" (a number that is not valid reads as 0).
pub open spec fn range_bounds(r: Seq<char>, ml: u32, af: u8, maxlen: u32) -> Option<(u32, u32)> {
    if r.len() == 0 {
        None
    } else if r[0] == '-' {
        Some(((ml + 1) as u32, range_default_max(af, maxlen)))
    } else if r[0] == '+' {
        Some((ml, range_default_max(af, maxlen)))
    } else if is_digit(r[0]) {
        let d = find_char_from(r, '-', 0);
        if !all_digits(r.subrange(0, d)) {
            None
        } else if d < r.len() {
            let lo = match parse_u32_spec(r.subrange(0, d)) { Some(x) => x, None => 0 };
            let hi = if d + 1 < r.len() {
                match parse_u32_spec(r.subrange(d + 1, r.len() as int)) { Some(x) => x, None => 0 }
            } else {
                0
            };
            Some((lo, hi))
        } else {
            let lo = match parse_u32_spec(r) { Some(x) => x, None => 0 };
            Some((lo, range_default_max(af, maxlen)))
        }
    } else {
        None
    }
}

/// The text before the first '^' of a prefix range.
pub open spec fn range_prefix_part(s: Seq<char>) -> Seq<char> {
    s.subrange(0, find_char_from(s, '^', 0))
}

/// What a prefix range `prefix^range` describes: the prefix (family, mask
/// length, address) and the mask lengths from and to which its
/// more-specifics are taken (the upper one capped by `maxlen`), or `None`
/// when the text is refused.
pub open spec fn range_parse(af: u8, maxlen: u32, s: Seq<char>) -> Option<(u8, u32, Seq<u8>, u32, u32)> {
    let caret = find_char_from(s, '^', 0);
    if caret >= s.len() {
        None
    } else {
        match prefix_parse(af, s.subrange(0, caret)) {
            None => None,
            Some((fam, ml, addrs)) => {
                if af != 0 && fam != af {
                    None
                } else if maxlen > 0 && ml > maxlen {
                    None
                } else {
                    match range_bounds(s.subrange(caret + 1, s.len() as int), ml, af, maxlen) {
                        None => None,
                        Some((lo, hi)) => {
                            let abs_max: u32 = if af == 2 || fam == 2 { 32 } else { 128 };
                            if lo < ml || hi > abs_max {
                                None
                            } else {
                                let eff_max: u32 = if hi > maxlen && maxlen > 0 { maxlen } else { hi };
                                Some((fam, ml, addrs, lo, eff_max))
                            }
                        },
                    }
                }
            },
        }
    }
}

/// Text of a custom format: "%r"/"%n" the address, "%l" the mask length,
/// "%a"/"%A" the low and high aggregate bounds, "%%" a percent sign, "%N"
/// the name, "%m"/"%i" the mask and its inverse; "\n", "\t", "\\" and "\c"
/// escapes; any other byte as the character of that code. An unknown "%"
/// directive ends the text.
pub open spec fn fmt_text(b: Seq<u8>, i: int, p: SxPrefix, name: Seq<char>, lo: u32, hi: u32) -> Seq<char>
    decreases b.len() - i,
{
    if i < 0 || i >= b.len() {
        Seq::empty()
    } else if b[i] == 0x25u8 && i + 1 < b.len() {
        let c = b[i + 1];
        if c == 0x72u8 || c == 0x6eu8 {
            addr_text(p.family, p.addrs@) + fmt_text(b, i + 2, p, name, lo, hi)
        } else if c == 0x6cu8 {
            dec(p.masklen as nat) + fmt_text(b, i + 2, p, name, lo, hi)
        } else if c == 0x61u8 {
            dec(lo as nat) + fmt_text(b, i + 2, p, name, lo, hi)
        } else if c == 0x41u8 {
            dec(hi as nat) + fmt_text(b, i + 2, p, name, lo, hi)
        } else if c == 0x25u8 {
            seq!['%'] + fmt_text(b, i + 2, p, name, lo, hi)
        } else if c == 0x4eu8 {
            name + fmt_text(b, i + 2, p, name, lo, hi)
        } else if c == 0x6du8 {
            addr_text(p.family, Seq::new(16, |k: int| mask_byte(p.masklen, k))) + fmt_text(b, i + 2, p, name, lo, hi)
        } else if c == 0x69u8 {
            addr_text(p.family, Seq::new(16, |k: int| imask_byte(p.masklen, k))) + fmt_text(b, i + 2, p, name, lo, hi)
        } else {
            Seq::empty()
        }
    } else if b[i] == 0x5cu8 && i + 1 < b.len() {
        let c = b[i + 1];
        let e = if c == 0x6eu8 { '\n' } else if c == 0x74u8 { '\t' } else { c as char };
        seq![e] + fmt_text(b, i + 2, p, name, lo, hi)
    } else {
        seq![b[i] as char] + fmt_text(b, i + 1, p, name, lo, hi)
    }
}

/// Whether the text of a custom format (read as `fmt_text` reads it from
/// `i`) reaches a "%m" or "%i" directive, which print the mask.
pub open spec fn fmt_needs_mask(b: Seq<u8>, i: int) -> bool
    decreases b.len() - i,
{
    if i < 0 || i >= b.len() {
        false
    } else if b[i] == 0x25u8 && i + 1 < b.len() {
        let c = b[i + 1];
        if c == 0x6du8 || c == 0x69u8 {
            true
        } else if c == 0x72u8 || c == 0x6eu8 || c == 0x6cu8 || c == 0x61u8 || c == 0x41u8 || c == 0x25u8 || c == 0x4eu8 {
            fmt_needs_mask(b, i + 2)
        } else {
            false
        }
    } else if b[i] == 0x5cu8 && i + 1 < b.len() {
        fmt_needs_mask(b, i + 2)
    } else {
        fmt_needs_mask(b, i + 1)
    }
}

#[derive(Clone, Copy)]
pub struct SxPrefix {
    pub family: u8,
    pub masklen: u32,
    pub addrs: [u8; ADDR_BYTES],
}

impl SxPrefix {
    /// A prefix fits its family: the mask is no longer than the address.
    pub open spec fn well_formed(&self) -> bool {
        self.masklen <= max_bits(self.family)
    }

    /// `addr/len` text.
    pub open spec fn text(&self) -> Seq<char> {
        addr_text(self.family, self.addrs@) + seq!['/'] + dec(self.masklen as nat)
    }

    pub fn new() -> (p: SxPrefix)
        ensures
            p.family == 0,
            p.masklen == 0,
            p.addrs@ == Seq::new(16, |i: int| 0u8),
    {
        let p = SxPrefix { family: 0, masklen: 0, addrs: [0u8; ADDR_BYTES] };
        assert(p.addrs@ =~= Seq::new(16, |i: int| 0u8));
        p
    }

    /// Clears the address bits past the mask length (see `adjusted_addrs`).
    pub fn adjust_masklen(&mut self)
        requires
            old(self).masklen <= 128,
        ensures
            final(self).family == old(self).family,
            final(self).masklen == old(self).masklen,
            final(self).addrs@ == adjusted_addrs(old(self).addrs@, old(self).family, old(self).masklen),
    {
        let nbytes: usize = if self.family == 2 { 4 } else { 16 };
        if self.masklen == (nbytes * 8) as u32 {
            return;
        }
        let ghost orig = self.addrs@;
        let mut i: usize = nbytes;
        let lim: usize = ((self.masklen + 7) / 8) as usize;
        while i > lim
            invariant
                lim == ((self.masklen + 7) / 8) as int,
                self.family == old(self).family,
                self.masklen == old(self).masklen,
                i <= nbytes <= 16,
                lim <= i || i == nbytes,
                nbytes == (if self.family == 2 { 4int } else { 16int }),
                self.masklen <= 128,
                self.addrs@.len() == 16,
                forall|k: int| 0 <= k < 16 ==> self.addrs@[k] == (if i <= k < nbytes { 0u8 } else { orig[k] }),
            decreases i,
        {
            i -= 1;
            self.addrs[i] = 0;
        }
        let bit_off: u32 = self.masklen % 8;
        if bit_off != 0 {
            let idx: usize = (self.masklen / 8) as usize;
            let ghost b0 = self.addrs@[idx as int];
            let mut j: u32 = 1;
            proof { lemma_mask_zero(b0); }
            while j <= 8 - bit_off
                invariant
                    1 <= bit_off < 8,
                    bit_off == self.masklen % 8,
                    self.family == old(self).family,
                    self.masklen == old(self).masklen,
                    nbytes == (if self.family == 2 { 4int } else { 16int }),
                    1 <= j <= 9 - bit_off,
                    idx < 16,
                    idx == (self.masklen / 8) as int,
                    self.addrs@.len() == 16,
                    self.addrs@[idx as int] == b0 & (0xffu8 << ((j - 1) as u32)),
                    forall|k: int| 0 <= k < 16 && k != idx ==> self.addrs@[k] == (if i <= k < nbytes { 0u8 } else { orig[k] }),
                decreases 9 - bit_off - j,
            {
                let cur = self.addrs[idx];
                self.addrs[idx] = cur & (0xffu8 << j);
                proof { lemma_mask_step(b0, j); }
                j += 1;
            }
        }
        proof {
            assert(self.addrs@ =~= adjusted_addrs(orig, self.family, self.masklen));
        }
    }

    /// Whether `parse(af, text)` would panic (see `parse_panics`).
    pub fn parse_panics_at(af: u8, text: &str) -> (b: bool)
        ensures
            b == parse_panics(af, text@),
    {
        let v = chars_of(text);
        let n = v.len();
        let k = find_char(&v, '/', 0);
        if k < n {
            let e = trim_end_at(&v, k + 1, n);
            proof { Self::lemma_mask_text(v@, k as int, e as int); }
            if parse_i32_range(&v, k + 1, e).is_none() {
                return false;
            }
        }
        let a = Self::take_chars(&v, k);
        proof { lemma_contains_find(a@, ':'); }
        let has_colon = find_char(&a, ':', 0) < a.len();
        let eff: u8 = if af == 0 { if has_colon { 10 } else { 2 } } else { af };
        parse_ipv4(&a).is_none() && parse_ipv6(&a).is_none() && eff == 2 && count_char_exec(&a, '.') == 3
    }

    fn take_chars(v: &Vec<char>, k: usize) -> (a: Vec<char>)
        requires
            k <= v@.len(),
        ensures
            a@ == v@.subrange(0, k as int),
    {
        let mut a: Vec<char> = Vec::new();
        let mut i: usize = 0;
        while i < k
            invariant
                i <= k <= v@.len(),
                a@ == v@.subrange(0, i as int),
            decreases k - i,
        {
            a.push(v[i]);
            i = i + 1;
            assert(a@ =~= v@.subrange(0, i as int));
        }
        a
    }

    proof fn lemma_mask_text(s: Seq<char>, k: int, e: int)
        requires
            0 <= k < s.len(),
            k + 1 <= e <= s.len(),
            e - (k + 1) == trimmed_len(s.subrange(k + 1, s.len() as int)),
        ensures
            s.subrange(k + 1, e) == s.subrange(k + 1, s.len() as int).subrange(0, trimmed_len(s.subrange(k + 1, s.len() as int)) as int),
    {
        assert(s.subrange(k + 1, e) =~= s.subrange(k + 1, s.len() as int).subrange(0, e - (k + 1)));
    }

    /// Reads `text` as a prefix (`addr` or `addr/len`) in family `af` (0:
    /// decided by the text). On success the prefix is `prefix_parse(af,
    /// text)`; on failure the address is cleared when the mask was valid.
    pub fn parse(&mut self, af: u8, text: &str) -> (ok: bool)
        requires
            !parse_panics(af, text@),
        ensures
            ok == prefix_parse(af, text@) is Some,
            match prefix_parse(af, text@) {
                Some((f, ml, a)) => final(self).family == f && final(self).masklen == ml && final(self).addrs@ == a,
                None => final(self).family == old(self).family && final(self).masklen == old(self).masklen
                    && final(self).addrs@ == (if mask_part(text@) is Some { zero_addr() } else { old(self).addrs@ }),
            },
    {
        let v = chars_of(text);
        let n = v.len();
        let k = find_char(&v, '/', 0);
        let masklen: i32 = if k < n {
            let e = trim_end_at(&v, k + 1, n);
            proof { Self::lemma_mask_text(v@, k as int, e as int); }
            match parse_i32_range(&v, k + 1, e) {
                Some(m) => m,
                None => {
                    return false;
                },
            }
        } else {
            -1
        };
        let a = Self::take_chars(&v, k);
        proof { lemma_contains_find(a@, ':'); }
        let has_colon = find_char(&a, ':', 0) < a.len();
        let eff: u8 = if af == 0 { if has_colon { 10 } else { 2 } } else { af };
        let max_bits: u32 = if eff == 2 { 32 } else { 128 };
        self.addrs = [0u8; ADDR_BYTES];
        let ghost base: Seq<u8>;
        if let Some(o) = parse_ipv4(&a) {
            if eff == 2 {
                self.addrs[0] = o[0];
                self.addrs[1] = o[1];
                self.addrs[2] = o[2];
                self.addrs[3] = o[3];
            }
            proof {
                base = if eff == 2 { o@ + Seq::new(12, |i: int| 0u8) } else { zero_addr() };
                assert(self.addrs@ =~= base);
            }
        } else if let Some(g) = parse_ipv6(&a) {
            if eff == 10 {
                let mut i: usize = 0;
                while i < 8
                    invariant
                        i <= 8,
                        g@.len() == 8,
                        self.addrs@.len() == 16,
                        forall|j: int| 0 <= j < 16 ==> #[trigger] self.addrs@[j] == (if j < 2 * i { groups_bytes(g@)[j] } else { 0u8 }),
                    decreases 8 - i,
                {
                    self.addrs[2 * i] = (g[i] / 256) as u8;
                    self.addrs[2 * i + 1] = (g[i] % 256) as u8;
                    i = i + 1;
                }
            }
            proof {
                base = if eff == 10 { groups_bytes(g@) } else { zero_addr() };
                assert(self.addrs@ =~= base);
            }
        } else {
            assert(self.addrs@ =~= zero_addr());
            return false;
        }
        self.family = eff;
        self.masklen = if masklen < 0 || masklen as u32 > max_bits { max_bits } else { masklen as u32 };
        self.adjust_masklen();
        true
    }

    pub fn is_bit_set(&self, n: u32) -> (b: bool)
        ensures
            b == (1 <= n <= max_bits(self.family) && bit_at(self.addrs@, n as int)),
    {
        let max: u32 = if self.family == 2 { 32 } else { 128 };
        if n == 0 || n > max {
            return false;
        }
        let idx: usize = ((n - 1) / 8) as usize;
        let bit: u32 = (n - 1) % 8;
        (self.addrs[idx] & (0x80u8 >> bit)) != 0
    }

    /// Sets bit `n` (1-based); does nothing outside `1..=max_bits`.
    pub fn set_bit(&mut self, n: u32)
        ensures
            final(self).family == old(self).family,
            final(self).masklen == old(self).masklen,
            final(self).addrs@ == (if 1 <= n <= max_bits(old(self).family) {
                old(self).addrs@.update(((n - 1) / 8) as int,
                    old(self).addrs@[((n - 1) / 8) as int] | (0x80u8 >> (((n - 1) % 8) as u8)))
            } else {
                old(self).addrs@
            }),
    {
        let max: u32 = if self.family == 2 { 32 } else { 128 };
        if n == 0 || n > max {
            return;
        }
        let idx: usize = ((n - 1) / 8) as usize;
        let bit: u32 = (n - 1) % 8;
        let cur = self.addrs[idx];
        self.addrs[idx] = cur | (0x80u8 >> bit);
        assert(self.addrs@ =~= old(self).addrs@.update(idx as int, cur | (0x80u8 >> (bit as u8))));
    }

    /// The network mask of this prefix (same family and length).
    pub fn compute_mask(&self) -> (q: SxPrefix)
        requires
            self.masklen <= 128,
        ensures
            q.family == self.family,
            q.masklen == self.masklen,
            q.addrs@ == Seq::new(16, |i: int| mask_byte(self.masklen, i)),
    {
        let mut q = SxPrefix::new();
        q.family = self.family;
        q.masklen = self.masklen;
        let full: usize = (self.masklen / 8) as usize;
        for i in 0..full
            invariant
                full == (self.masklen / 8) as int,
                full <= 16,
                q.family == self.family,
                q.masklen == self.masklen,
                q.addrs@.len() == 16,
                forall|k: int| 0 <= k < 16 ==> q.addrs@[k] == (if k < i { 0xffu8 } else { 0u8 }),
        {
            q.addrs[i] = 0xff;
        }
        let r: u32 = self.masklen % 8;
        let ghost before = q.addrs@;
        if r != 0 {
            for i in 1..r + 1
                invariant
                    1 <= r < 8,
                    r == self.masklen % 8,
                    full < 16,
                    full == (self.masklen / 8) as int,
                    q.family == self.family,
                    q.masklen == self.masklen,
                    q.addrs@.len() == 16,
                    q.addrs@[full as int] == top_bits((i - 1) as u32),
                    forall|k: int| 0 <= k < 16 && k != full ==> q.addrs@[k] == before[k],
            {
                let cur = q.addrs[full];
                let sh: u32 = 8 - i;
                q.addrs[full] = cur | (1u8 << sh);
                proof { lemma_top_bits_grow(sh, cur); }
            }
        }
        assert forall|k: int| 0 <= k < 16 implies q.addrs@[k] == mask_byte(self.masklen, k) by {
            if k != full {
                assert(q.addrs@[k] == before[k]);
            }
        }
        assert(q.addrs@ =~= Seq::new(16, |i: int| mask_byte(self.masklen, i)));
        q
    }

    /// The inverse (wildcard) mask of this prefix (same family and length).
    pub fn compute_imask(&self) -> (q: SxPrefix)
        requires
            self.masklen <= 128,
        ensures
            q.family == self.family,
            q.masklen == self.masklen,
            q.addrs@ == Seq::new(16, |i: int| imask_byte(self.masklen, i)),
    {
        let mut q = SxPrefix::new();
        q.family = self.family;
        q.masklen = self.masklen;
        for i in 0..ADDR_BYTES
            invariant
                q.family == self.family,
                q.masklen == self.masklen,
                q.addrs@.len() == 16,
                forall|k: int| 0 <= k < 16 ==> q.addrs@[k] == (if k < i { 0xffu8 } else { 0u8 }),
        {
            q.addrs[i] = 0xff;
        }
        let full: usize = (self.masklen / 8) as usize;
        for i in 0..full
            invariant
                full == (self.masklen / 8) as int,
                full <= 16,
                q.family == self.family,
                q.masklen == self.masklen,
                q.addrs@.len() == 16,
                forall|k: int| 0 <= k < 16 ==> q.addrs@[k] == (if k < i { 0u8 } else { 0xffu8 }),
        {
            q.addrs[i] = 0;
        }
        let r: u32 = self.masklen % 8;
        assert(!0u8 == 0xffu8) by (bit_vector);
        let ghost before = q.addrs@;
        if r != 0 {
            for i in 1..r + 1
                invariant
                    1 <= r < 8,
                    r == self.masklen % 8,
                    full < 16,
                    full == (self.masklen / 8) as int,
                    q.family == self.family,
                    q.masklen == self.masklen,
                    q.addrs@.len() == 16,
                    q.addrs@[full as int] == !top_bits((i - 1) as u32),
                    forall|k: int| 0 <= k < 16 && k != full ==> q.addrs@[k] == before[k],
            {
                let cur = q.addrs[full];
                let sh: u32 = 8 - i;
                q.addrs[full] = cur & !(1u8 << sh);
                proof { lemma_top_bits_shrink(sh, cur); }
            }
        }
        assert forall|k: int| 0 <= k < 16 implies q.addrs@[k] == imask_byte(self.masklen, k) by {
            if k != full {
                assert(q.addrs@[k] == before[k]);
            }
        }
        assert(q.addrs@ =~= Seq::new(16, |i: int| imask_byte(self.masklen, i)));
        q
    }

    /// The address in text form.
    pub fn format_addr(&self) -> (s: String)
        ensures
            s@ == addr_text(self.family, self.addrs@),
    {
        if self.family == 2 {
            let mut s = String::new();
            push_u32(&mut s, self.addrs[0] as u32);
            push_char(&mut s, '.');
            push_u32(&mut s, self.addrs[1] as u32);
            push_char(&mut s, '.');
            push_u32(&mut s, self.addrs[2] as u32);
            push_char(&mut s, '.');
            push_u32(&mut s, self.addrs[3] as u32);
            assert(s@ =~= ipv4_text(self.addrs@));
            s
        } else {
            ipv6_to_string(self.addrs)
        }
    }

    /// `addr/len`.
    pub fn format_str(&self) -> (s: String)
        ensures
            s@ == self.text(),
    {
        let mut s = self.format_addr();
        push_char(&mut s, '/');
        push_u32(&mut s, self.masklen);
        s
    }

    /// `addr<sep>len`.
    pub fn format_sep(&self, sep: &str) -> (s: String)
        ensures
            s@ == addr_text(self.family, self.addrs@) + sep@ + dec(self.masklen as nat),
    {
        let mut s = self.format_addr();
        push_str(&mut s, sep);
        push_u32(&mut s, self.masklen);
        s
    }

    /// `addr\/len`, the slash escaped as JSON allows.
    pub fn format_json(&self) -> (s: String)
        ensures
            s@ == addr_text(self.family, self.addrs@) + seq!['\\', '/'] + dec(self.masklen as nat),
    {
        let mut s = self.format_addr();
        push_char(&mut s, '\\');
        push_char(&mut s, '/');
        push_u32(&mut s, self.masklen);
        assert(s@ =~= addr_text(self.family, self.addrs@) + seq!['\\', '/'] + dec(self.masklen as nat));
        s
    }
}

proof fn lemma_mask_zero(b0: u8)
    by (bit_vector)
    ensures
        b0 & (0xffu8 << 0u32) == b0,
{
}

proof fn lemma_mask_step(b0: u8, j: u32)
    by (bit_vector)
    requires
        1 <= j <= 7,
    ensures
        (b0 & (0xffu8 << ((j - 1) as u32))) & (0xffu8 << j) == b0 & (0xffu8 << j),
{
}

proof fn lemma_top_bits_grow(sh: u32, cur: u8)
    by (bit_vector)
    requires
        1 <= sh <= 7,
        cur == top_bits((7 - sh) as u32),
    ensures
        cur | (1u8 << sh) == top_bits((8 - sh) as u32),
{
}

proof fn lemma_top_bits_shrink(sh: u32, cur: u8)
    by (bit_vector)
    requires
        1 <= sh <= 7,
        cur == !top_bits((7 - sh) as u32),
    ensures
        cur & !(1u8 << sh) == !top_bits((8 - sh) as u32),
{
}

/// The mask and the inverse mask of the same length are complements.
pub proof fn lemma_mask_imask_complement(ml: u32, i: int)
    requires
        ml <= 128,
        0 <= i < 16,
    ensures
        mask_byte(ml, i) ^ imask_byte(ml, i) == 0xffu8,
        mask_byte(ml, i) & imask_byte(ml, i) == 0u8,
{
    let t = top_bits(ml % 8);
    assert(t ^ !t == 0xffu8 && t & !t == 0u8) by (bit_vector);
    assert(0xffu8 ^ 0u8 == 0xffu8 && 0xffu8 & 0u8 == 0u8) by (bit_vector);
    assert(0u8 ^ 0xffu8 == 0xffu8 && 0u8 & 0xffu8 == 0u8) by (bit_vector);
}


/// `a` and `b` agree on their first `k` bits.
#[verifier::opaque]
pub open spec fn agree(a: Seq<u8>, b: Seq<u8>, k: int) -> bool {
    forall|n: int| 1 <= n <= k ==> #[trigger] bit_at(a, n) == bit_at(b, n)
}

proof fn lemma_byte_from_bits(x: u8, y: u8)
    by (bit_vector)
    requires
        x & (0x80u8 >> 0u8) == y & (0x80u8 >> 0u8),
        x & (0x80u8 >> 1u8) == y & (0x80u8 >> 1u8),
        x & (0x80u8 >> 2u8) == y & (0x80u8 >> 2u8),
        x & (0x80u8 >> 3u8) == y & (0x80u8 >> 3u8),
        x & (0x80u8 >> 4u8) == y & (0x80u8 >> 4u8),
        x & (0x80u8 >> 5u8) == y & (0x80u8 >> 5u8),
        x & (0x80u8 >> 6u8) == y & (0x80u8 >> 6u8),
        x & (0x80u8 >> 7u8) == y & (0x80u8 >> 7u8),
    ensures
        x == y,
{
}

proof fn lemma_single_bit(x: u8, j: u8)
    by (bit_vector)
    requires
        j < 8,
    ensures
        (x & (0x80u8 >> j)) == 0u8 || (x & (0x80u8 >> j)) == (0x80u8 >> j),
{
}

/// The number of leading bits on which two prefixes agree, at most the
/// shorter of the two mask lengths.
pub fn eq_bits(a: &SxPrefix, b: &SxPrefix) -> (e: u32)
    requires
        a.masklen <= max_bits(a.family),
        b.masklen <= max_bits(a.family),
    ensures
        e <= a.masklen,
        e <= b.masklen,
        agree(a.addrs@, b.addrs@, e as int),
        e < a.masklen && e < b.masklen ==> bit_at(a.addrs@, e + 1) != bit_at(b.addrs@, e + 1),
{
    reveal(agree);
    let nbytes: usize = if a.family == 2 { 4 } else { 16 };
    let min: u32 = if a.masklen < b.masklen { a.masklen } else { b.masklen };
    let mut i: usize = 0;
    while i < nbytes
        invariant
            i <= nbytes,
            nbytes * 8 == max_bits(a.family),
            min <= a.masklen,
            min <= b.masklen,
            min == a.masklen || min == b.masklen,
            a.masklen <= max_bits(a.family),
            b.masklen <= max_bits(a.family),
            forall|k: int| 0 <= k < i ==> a.addrs@[k] == b.addrs@[k],
        decreases nbytes - i,
    {
        if a.addrs[i] == b.addrs[i] {
            i += 1;
            continue;
        }
        let pos_base: u32 = (i * 8) as u32;
        let mut j: u32 = 0;
        while j < 8
            invariant
                i < nbytes,
                nbytes * 8 == max_bits(a.family),
                pos_base == i * 8,
                j <= 8,
                min <= a.masklen,
                min <= b.masklen,
                min == a.masklen || min == b.masklen,
                a.addrs@[i as int] != b.addrs@[i as int],
                forall|k: int| 0 <= k < i ==> a.addrs@[k] == b.addrs@[k],
                forall|m: u8| m < j ==> (a.addrs@[i as int] & (0x80u8 >> m)) == (b.addrs@[i as int] & (0x80u8 >> m)),
            decreases 8 - j,
        {
            let pos: u32 = pos_base + j;
            if pos > a.masklen || pos > b.masklen {
                proof {
                    reveal(agree);
                    assert forall|n: int| 1 <= n <= min as int implies #[trigger] bit_at(a.addrs@, n) == bit_at(b.addrs@, n) by {
                        if (n - 1) / 8 < i {
                        } else {
                            assert((n - 1) / 8 == i as int);
                            assert(((n - 1) % 8) < j);
                            let m = ((n - 1) % 8) as u8;
                            assert((a.addrs@[i as int] & (0x80u8 >> m)) == (b.addrs@[i as int] & (0x80u8 >> m)));
                        }
                    }
                }
                return min;
            }
            let ma = a.addrs[i] & (0x80u8 >> j);
            let mb = b.addrs[i] & (0x80u8 >> j);
            if ma != mb {
                proof {
                    reveal(agree);
                    lemma_single_bit(a.addrs@[i as int], j as u8);
                    lemma_single_bit(b.addrs@[i as int], j as u8);
                    assert forall|n: int| 1 <= n <= pos as int implies #[trigger] bit_at(a.addrs@, n) == bit_at(b.addrs@, n) by {
                        if (n - 1) / 8 < i {
                        } else {
                            assert((n - 1) / 8 == i as int);
                            let m = ((n - 1) % 8) as u8;
                            assert(m < j);
                            assert((a.addrs@[i as int] & (0x80u8 >> m)) == (b.addrs@[i as int] & (0x80u8 >> m)));
                        }
                    }
                    assert((pos as int) / 8 == i as int);
                    assert((pos as int) % 8 == j as int);
                }
                return pos;
            }
            j += 1;
        }
        proof {
            let x = a.addrs@[i as int];
            let y = b.addrs@[i as int];
            assert((x & (0x80u8 >> 0u8)) == (y & (0x80u8 >> 0u8)));
            assert((x & (0x80u8 >> 1u8)) == (y & (0x80u8 >> 1u8)));
            assert((x & (0x80u8 >> 2u8)) == (y & (0x80u8 >> 2u8)));
            assert((x & (0x80u8 >> 3u8)) == (y & (0x80u8 >> 3u8)));
            assert((x & (0x80u8 >> 4u8)) == (y & (0x80u8 >> 4u8)));
            assert((x & (0x80u8 >> 5u8)) == (y & (0x80u8 >> 5u8)));
            assert((x & (0x80u8 >> 6u8)) == (y & (0x80u8 >> 6u8)));
            assert((x & (0x80u8 >> 7u8)) == (y & (0x80u8 >> 7u8)));
            lemma_byte_from_bits(x, y);
        }
        return min;
    }
    proof {
        assert forall|n: int| 1 <= n <= min as int implies #[trigger] bit_at(a.addrs@, n) == bit_at(b.addrs@, n) by {
            assert((n - 1) / 8 < i);
        }
    }
    min
}


proof fn lemma_keep_bit(x: u8, r: u32, b: u32)
    by (bit_vector)
    requires
        b < r,
        r < 8,
    ensures
        ((x & (0xffu8 << ((8 - r) as u32))) & (0x80u8 >> b)) == (x & (0x80u8 >> b)),
{
}

/// Clearing the tail past the mask keeps the bits within the mask.
pub proof fn lemma_adjust_agree(a: Seq<u8>, family: u8, ml: u32)
    requires
        a.len() == 16,
        ml <= max_bits(family),
    ensures
        agree(adjusted_addrs(a, family, ml), a, ml as int),
        adjusted_addrs(a, family, ml).len() == 16,
{
    reveal(agree);
    let b = adjusted_addrs(a, family, ml);
    assert forall|n: int| 1 <= n <= ml as int implies #[trigger] bit_at(b, n) == bit_at(a, n) by {
        let nbytes: int = if family == 2 { 4 } else { 16 };
        if ml as int != nbytes * 8 {
            let k = (n - 1) / 8;
            if k == (ml / 8) as int && ml % 8 != 0 {
                let r = ml % 8;
                let bb = ((n - 1) % 8) as u32;
                assert(bb < r);
                lemma_keep_bit(a[k], r, bb);
                assert(((n - 1) % 8) as u8 == bb as u8);
            }
        }
    }
}

/// `a` agrees with `b` and `b` with `c` on `k` bits: so do `a` and `c`.
pub proof fn lemma_agree_trans(a: Seq<u8>, b: Seq<u8>, c: Seq<u8>, k: int)
    requires
        agree(a, b, k),
        agree(b, c, k),
    ensures
        agree(a, c, k),
{
    reveal(agree);
    assert forall|n: int| 1 <= n <= k implies #[trigger] bit_at(a, n) == bit_at(c, n) by {
        assert(bit_at(a, n) == bit_at(b, n));
    }
}

/// Two agreeing addresses have the same bit at each position within.
pub proof fn lemma_agree_bit(a: Seq<u8>, b: Seq<u8>, k: int, n: int)
    requires
        agree(a, b, k),
        1 <= n <= k,
    ensures
        bit_at(a, n) == bit_at(b, n),
{
    reveal(agree);
}

/// Agreement is symmetric.
pub proof fn lemma_agree_sym(a: Seq<u8>, b: Seq<u8>, k: int)
    requires
        agree(a, b, k),
    ensures
        agree(b, a, k),
{
    reveal(agree);
}

/// Agreement on `k` bits implies agreement on fewer.
pub proof fn lemma_agree_shorter(a: Seq<u8>, b: Seq<u8>, k: int, j: int)
    requires
        agree(a, b, k),
        j <= k,
    ensures
        agree(a, b, j),
{
    reveal(agree);
}

#[derive(Clone, Copy)]
pub struct RadixNode {
    pub prefix: SxPrefix,
    pub parent: Option<usize>,
    pub left: Option<usize>,
    pub right: Option<usize>,
    pub son: Option<usize>,
    pub is_glue: bool,
    pub is_aggregate: bool,
    pub aggregate_low: u32,
    pub aggregate_hi: u32,
}

impl RadixNode {
    /// A detached, non-glue, non-aggregate node holding `prefix`.
    pub open spec fn fresh(prefix: SxPrefix) -> RadixNode {
        RadixNode {
            prefix,
            parent: None,
            left: None,
            right: None,
            son: None,
            is_glue: false,
            is_aggregate: false,
            aggregate_low: 0,
            aggregate_hi: 0,
        }
    }

    pub fn new(prefix: &SxPrefix) -> (n: RadixNode)
        ensures
            n == RadixNode::fresh(*prefix),
    {
        RadixNode {
            prefix: *prefix,
            parent: None,
            left: None,
            right: None,
            son: None,
            is_glue: false,
            is_aggregate: false,
            aggregate_low: 0,
            aggregate_hi: 0,
        }
    }
}

/// An optional node index is in range.
pub open spec fn idx_ok(nodes: Seq<RadixNode>, o: Option<usize>) -> bool {
    match o {
        Some(i) => (i as int) < nodes.len(),
        None => true,
    }
}

/// `c` (if any) is a proper child of node `i` on the given side: it points
/// back to `i`, has a longer mask, agrees with `i` on `i`'s mask and its
/// next bit selects the side (clear = left, set = right).
pub open spec fn child_ok(nodes: Seq<RadixNode>, i: int, c: Option<usize>, right: bool) -> bool {
    match c {
        None => true,
        Some(c) => {
            &&& (c as int) < nodes.len()
            &&& nodes[c as int].parent == Some(i as usize)
            &&& nodes[c as int].prefix.masklen > nodes[i].prefix.masklen
            &&& agree(nodes[c as int].prefix.addrs@, nodes[i].prefix.addrs@, nodes[i].prefix.masklen as int)
            &&& bit_at(nodes[c as int].prefix.addrs@, nodes[i].prefix.masklen + 1) == right
        }
    }
}

/// Node `i` is consistent with its neighbours.
pub open spec fn node_ok(nodes: Seq<RadixNode>, family: u8, i: int) -> bool {
    let n = nodes[i];
    &&& n.prefix.family == family
    &&& n.prefix.masklen <= max_bits(family)
    &&& n.prefix.addrs@.len() == 16
    &&& idx_ok(nodes, n.son)
    &&& child_ok(nodes, i, n.left, false)
    &&& child_ok(nodes, i, n.right, true)
    &&& match n.parent {
        None => true,
        Some(p) => (p as int) < nodes.len() && (nodes[p as int].left == Some(i as usize) || nodes[p as int].right == Some(i as usize)),
    }
}

/// The arena forms a radix tree rooted at `head`.
pub open spec fn tree_wf(nodes: Seq<RadixNode>, family: u8, head: Option<usize>) -> bool {
    &&& idx_ok(nodes, head)
    &&& (head matches Some(h) ==> nodes[h as int].parent is None)
    &&& forall|i: int| 0 <= i < nodes.len() ==> #[trigger] node_ok(nodes, family, i)
}

/// Pre-order walk (node, left subtree, right subtree) from node `i`.
pub open spec fn preorder(nodes: Seq<RadixNode>, i: usize) -> Seq<usize>
    decreases 129 - nodes[i as int].prefix.masklen,
{
    if (i as int) < nodes.len() && nodes[i as int].prefix.masklen <= 128 {
        let ml = nodes[i as int].prefix.masklen;
        let ls = match nodes[i as int].left {
            Some(l) => if (l as int) < nodes.len() && ml < nodes[l as int].prefix.masklen <= 128 {
                preorder(nodes, l)
            } else {
                Seq::empty()
            },
            None => Seq::empty(),
        };
        let rs = match nodes[i as int].right {
            Some(r) => if (r as int) < nodes.len() && ml < nodes[r as int].prefix.masklen <= 128 {
                preorder(nodes, r)
            } else {
                Seq::empty()
            },
            None => Seq::empty(),
        };
        seq![i] + ls + rs
    } else {
        Seq::empty()
    }
}

/// Node `x` hangs below `head`: following parent links (each parent listing
/// the node as a child) reaches the head.
pub open spec fn rooted(nodes: Seq<RadixNode>, head: Option<usize>, x: usize) -> bool
    decreases nodes[x as int].prefix.masklen,
{
    &&& (x as int) < nodes.len()
    &&& (head == Some(x) || match nodes[x as int].parent {
        Some(p) => {
            &&& (p as int) < nodes.len()
            &&& nodes[p as int].prefix.masklen < nodes[x as int].prefix.masklen
            &&& (nodes[p as int].left == Some(x) || nodes[p as int].right == Some(x))
            &&& rooted(nodes, head, p)
        },
        None => false,
    })
}

/// The nodes reached by the walk from the head.
pub open spec fn walk(nodes: Seq<RadixNode>, head: Option<usize>) -> Seq<usize> {
    match head {
        Some(h) => preorder(nodes, h),
        None => Seq::empty(),
    }
}

/// Every element of a child's walk is in the parent's walk.
proof fn lemma_child_walk(nodes: Seq<RadixNode>, family: u8, head: Option<usize>, p: usize, c: usize)
    requires
        tree_wf(nodes, family, head),
        (p as int) < nodes.len(),
        nodes[p as int].left == Some(c) || nodes[p as int].right == Some(c),
    ensures
        forall|y: usize| preorder(nodes, c).contains(y) ==> preorder(nodes, p).contains(y),
{
    assert(node_ok(nodes, family, p as int));
    assert(node_ok(nodes, family, c as int));
    let pre = preorder(nodes, p);
    let ml = nodes[p as int].prefix.masklen;
    let ls = match nodes[p as int].left {
        Some(l) => if (l as int) < nodes.len() && ml < nodes[l as int].prefix.masklen <= 128 {
            preorder(nodes, l)
        } else {
            Seq::empty()
        },
        None => Seq::empty(),
    };
    let rs = match nodes[p as int].right {
        Some(r) => if (r as int) < nodes.len() && ml < nodes[r as int].prefix.masklen <= 128 {
            preorder(nodes, r)
        } else {
            Seq::empty()
        },
        None => Seq::empty(),
    };
    assert(pre == seq![p] + ls + rs);
    assert forall|y: usize| preorder(nodes, c).contains(y) implies pre.contains(y) by {
        if nodes[p as int].left == Some(c) {
            let k = choose|k: int| 0 <= k < ls.len() && ls[k] == y;
            assert(pre[1 + k] == y);
        } else {
            let k = choose|k: int| 0 <= k < rs.len() && rs[k] == y;
            assert(pre[1 + ls.len() + k] == y);
        }
    }
}

/// A node is in its own walk, first.
proof fn lemma_self_in_walk(nodes: Seq<RadixNode>, family: u8, head: Option<usize>, x: usize)
    requires
        tree_wf(nodes, family, head),
        (x as int) < nodes.len(),
    ensures
        preorder(nodes, x).len() > 0,
        preorder(nodes, x)[0] == x,
        preorder(nodes, x).contains(x),
{
    assert(node_ok(nodes, family, x as int));
    assert(preorder(nodes, x)[0] == x);
}

/// A rooted node's walk lies within the walk from the head.
proof fn lemma_rooted_in_walk(nodes: Seq<RadixNode>, family: u8, head: Option<usize>, x: usize)
    requires
        tree_wf(nodes, family, head),
        rooted(nodes, head, x),
    ensures
        forall|y: usize| preorder(nodes, x).contains(y) ==> walk(nodes, head).contains(y),
        walk(nodes, head).contains(x),
    decreases nodes[x as int].prefix.masklen,
{
    lemma_self_in_walk(nodes, family, head, x);
    if head == Some(x) {
    } else {
        let p = nodes[x as int].parent->0;
        lemma_rooted_in_walk(nodes, family, head, p);
        lemma_child_walk(nodes, family, head, p, x);
    }
}

/// Every node of the walk from a rooted node is rooted.
proof fn lemma_walk_rooted(nodes: Seq<RadixNode>, fam: u8, head: Option<usize>, i: usize)
    requires
        tree_wf(nodes, fam, head),
        rooted(nodes, head, i),
    ensures
        forall|j: usize| #[trigger] preorder(nodes, i).contains(j) ==> rooted(nodes, head, j),
    decreases 129 - nodes[i as int].prefix.masklen,
{
    lemma_preorder_members(nodes, fam, i);
    assert(node_ok(nodes, fam, i as int));
    if let Some(l) = nodes[i as int].left {
        assert(node_ok(nodes, fam, l as int));
        assert(rooted(nodes, head, l));
        lemma_walk_rooted(nodes, fam, head, l);
    }
    if let Some(r) = nodes[i as int].right {
        assert(node_ok(nodes, fam, r as int));
        assert(rooted(nodes, head, r));
        lemma_walk_rooted(nodes, fam, head, r);
    }
}

/// Every node of the walk from the head is rooted.
proof fn lemma_walk_all_rooted(nodes: Seq<RadixNode>, fam: u8, head: Option<usize>)
    requires
        tree_wf(nodes, fam, head),
    ensures
        forall|j: usize| #[trigger] walk(nodes, head).contains(j) ==> rooted(nodes, head, j),
{
    if let Some(h) = head {
        assert(rooted(nodes, head, h));
        lemma_walk_rooted(nodes, fam, head, h);
    }
}

/// How node `y`, rooted before a change, hangs afterwards: it is still the
/// head, or keeps its parent which still points to it, or hangs below a
/// rooted node with a shorter mask.
pub open spec fn link_kept(n0: Seq<RadixNode>, h0: Option<usize>, n1: Seq<RadixNode>, h1: Option<usize>, y: usize) -> bool {
    &&& (y as int) < n1.len()
    &&& n1[y as int].prefix.masklen == n0[y as int].prefix.masklen
    &&& {
        ||| (h0 == Some(y) && h1 == Some(y))
        ||| (h0 != Some(y) && n1[y as int].parent == n0[y as int].parent && (n0[y as int].parent matches Some(p)
            ==> ((p as int) < n1.len() && n1[p as int].prefix.masklen == n0[p as int].prefix.masklen
                && (n1[p as int].left == Some(y) || n1[p as int].right == Some(y)))))
        ||| (n1[y as int].parent matches Some(g) && (g as int) < n1.len() && rooted(n1, h1, g)
            && n1[g as int].prefix.masklen < n1[y as int].prefix.masklen
            && (n1[g as int].left == Some(y) || n1[g as int].right == Some(y)))
    }
}

/// A node rooted before a change stays rooted when every rooted node's
/// link is kept.
proof fn lemma_rooted_keep(n0: Seq<RadixNode>, h0: Option<usize>, n1: Seq<RadixNode>, h1: Option<usize>, x: usize)
    requires
        rooted(n0, h0, x),
        forall|y: usize| #[trigger] rooted(n0, h0, y) ==> link_kept(n0, h0, n1, h1, y),
    ensures
        rooted(n1, h1, x),
    decreases n0[x as int].prefix.masklen,
{
    assert(link_kept(n0, h0, n1, h1, x));
    if h0 == Some(x) && h1 == Some(x) {
    } else if h0 != Some(x) && n1[x as int].parent == n0[x as int].parent {
        let p = n0[x as int].parent->0;
        lemma_rooted_keep(n0, h0, n1, h1, p);
    }
}

/// The walk keeps every node when every rooted node stays rooted.
proof fn lemma_walk_kept(n0: Seq<RadixNode>, h0: Option<usize>, n1: Seq<RadixNode>, h1: Option<usize>, fam: u8)
    requires
        tree_wf(n0, fam, h0),
        tree_wf(n1, fam, h1),
        forall|x: usize| #[trigger] rooted(n0, h0, x) ==> rooted(n1, h1, x),
    ensures
        forall|x: usize| #[trigger] walk(n0, h0).contains(x) ==> walk(n1, h1).contains(x),
{
    lemma_walk_all_rooted(n0, fam, h0);
    assert forall|x: usize| #[trigger] walk(n0, h0).contains(x) implies walk(n1, h1).contains(x) by {
        assert(rooted(n0, h0, x));
        lemma_rooted_in_walk(n1, fam, h1, x);
    }
}

/// A node of `n0` rooted after a change was rooted before, when every such
/// node either was rooted before or kept its parent and is not the head.
proof fn lemma_rooted_back(n0: Seq<RadixNode>, h0: Option<usize>, n1: Seq<RadixNode>, h1: Option<usize>, fam: u8, x: usize)
    requires
        tree_wf(n0, fam, h0),
        rooted(n1, h1, x),
        (x as int) < n0.len(),
        forall|y: usize| (y as int) < n0.len() && #[trigger] rooted(n1, h1, y) ==> rooted(n0, h0, y) || (h1 != Some(y)
            && n1[y as int].parent == n0[y as int].parent),
    ensures
        rooted(n0, h0, x),
    decreases n1[x as int].prefix.masklen,
{
    if !rooted(n0, h0, x) {
        assert(node_ok(n0, fam, x as int));
        let p = n1[x as int].parent->0;
        assert(node_ok(n0, fam, p as int));
        lemma_rooted_back(n0, h0, n1, h1, fam, p);
    }
}

/// The listed set after a change that keeps every node of the walk (with
/// its prefix, a glue node only possibly turning into a listed node with
/// key `k`), adds only nodes that list `k` or are glue, and lists `k`.
proof fn lemma_listed_step(n0: Seq<RadixNode>, h0: Option<usize>, n2: Seq<RadixNode>, h2: Option<usize>, added: Set<usize>, k: (u8, u32, Seq<u8>))
    requires
        forall|x: usize| #[trigger] walk(n2, h2).contains(x) ==> walk(n0, h0).contains(x) || added.contains(x),
        forall|x: usize| #[trigger] walk(n0, h0).contains(x) ==> {
            &&& walk(n2, h2).contains(x)
            &&& (x as int) < n0.len()
            &&& (x as int) < n2.len()
            &&& n2[x as int].prefix == n0[x as int].prefix
            &&& (n2[x as int].is_glue ==> n0[x as int].is_glue)
            &&& (!n2[x as int].is_glue && n0[x as int].is_glue ==> key_of(n2[x as int].prefix) == k)
        },
        forall|x: usize| #[trigger] added.contains(x) && !n2[x as int].is_glue ==> key_of(n2[x as int].prefix) == k,
        exists|x: usize| #[trigger] walk(n2, h2).contains(x) && !n2[x as int].is_glue && key_of(n2[x as int].prefix) == k,
    ensures
        listed_set(n2, h2) == listed_set(n0, h0).insert(k),
{
    let l0 = listed_set(n0, h0);
    let l2 = listed_set(n2, h2);
    assert forall|q: (u8, u32, Seq<u8>)| l2.contains(q) implies l0.insert(k).contains(q) by {
        let x = choose|x: usize| #[trigger] walk(n2, h2).contains(x) && !n2[x as int].is_glue && q == key_of(n2[x as int].prefix);
        if walk(n0, h0).contains(x) {
            if !n0[x as int].is_glue {
                assert(l0.contains(q));
            }
        }
    }
    assert forall|q: (u8, u32, Seq<u8>)| l0.insert(k).contains(q) implies l2.contains(q) by {
        if q != k {
            let x = choose|x: usize| #[trigger] walk(n0, h0).contains(x) && !n0[x as int].is_glue && q == key_of(n0[x as int].prefix);
            assert(walk(n2, h2).contains(x) && !n2[x as int].is_glue && q == key_of(n2[x as int].prefix));
        }
    }
    assert(l2 =~= l0.insert(k));
}

/// Nothing hangs below an absent head.
proof fn lemma_not_rooted_none(n: Seq<RadixNode>, x: usize)
    ensures
        !rooted(n, None, x),
    decreases n[x as int].prefix.masklen,
{
    if let Some(p) = n[x as int].parent {
        if (p as int) < n.len() && n[p as int].prefix.masklen < n[x as int].prefix.masklen {
            lemma_not_rooted_none(n, p);
        }
    }
}

/// After an insertion of `p` that hung at most two new nodes (each glue or
/// holding `p`) and changed no old node's place or glue flag but possibly
/// `chead`'s (whose key is then `p`'s), with node `r` listing `p`: the
/// tree lists what it listed before plus `p`, and clean addresses stay
/// clean.
proof fn lemma_insert_exact(
    n0: Seq<RadixNode>,
    h0: Option<usize>,
    n2: Seq<RadixNode>,
    h2: Option<usize>,
    fam: u8,
    p: SxPrefix,
    chead: usize,
    r: usize,
)
    requires
        tree_wf(n0, fam, h0),
        tree_wf(n2, fam, h2),
        keeps_nodes(n0, n2),
        forall|x: usize| #[trigger] rooted(n0, h0, x) ==> rooted(n2, h2, x),
        forall|y: int| n0.len() <= y < n2.len() ==> (#[trigger] n2[y]).is_glue || n2[y].prefix == p,
        forall|y: int| 0 <= y < n0.len() && y != chead as int ==> #[trigger] n2[y].is_glue == n0[y].is_glue,
        n2[chead as int].is_glue == n0[chead as int].is_glue || key_of(n2[chead as int].prefix) == key_of(p),
        forall|y: usize| (y as int) < n0.len() && #[trigger] rooted(n2, h2, y) ==> rooted(n0, h0, y) || (h2 != Some(y)
            && n2[y as int].parent == n0[y as int].parent),
        rooted(n2, h2, r),
        !n2[r as int].is_glue,
        key_of(n2[r as int].prefix) == key_of(p),
    ensures
        listed_set(n2, h2) == listed_set(n0, h0).insert(key_of(p)),
{
    let added = Set::new(|y: usize| n0.len() <= y < n2.len());
    lemma_walk_all_rooted(n2, fam, h2);
    lemma_walk_all_rooted(n0, fam, h0);
    lemma_walk_kept(n0, h0, n2, h2, fam);
    assert forall|x: usize| #[trigger] walk(n2, h2).contains(x) implies walk(n0, h0).contains(x) || added.contains(x) by {
        if (x as int) < n0.len() {
            lemma_rooted_back(n0, h0, n2, h2, fam, x);
            lemma_rooted_in_walk(n0, fam, h0, x);
        }
    }
    assert forall|x: usize| #[trigger] added.contains(x) && !n2[x as int].is_glue implies key_of(n2[x as int].prefix) == key_of(p) by {
        assert(n2[x as int].prefix == p);
    }
    assert forall|x: usize| #[trigger] walk(n0, h0).contains(x) implies {
        &&& walk(n2, h2).contains(x)
        &&& (x as int) < n0.len()
        &&& (x as int) < n2.len()
        &&& n2[x as int].prefix == n0[x as int].prefix
        &&& (n2[x as int].is_glue ==> n0[x as int].is_glue)
        &&& (!n2[x as int].is_glue && n0[x as int].is_glue ==> key_of(n2[x as int].prefix) == key_of(p))
    } by {
        assert(rooted(n0, h0, x));
        if x != chead {
            assert(n2[x as int].is_glue == n0[x as int].is_glue);
        }
    }
    lemma_rooted_in_walk(n2, fam, h2, r);
    lemma_listed_step(n0, h0, n2, h2, added, key_of(p));
}

/// Rootedness only depends on the nodes with masks no longer than the
/// node's own: their parent links and masks, and (for strictly shorter
/// masks) their child links.
proof fn lemma_rooted_frame(n1: Seq<RadixNode>, n2: Seq<RadixNode>, head: Option<usize>, x: usize)
    requires
        rooted(n1, head, x),
        n1.len() <= n2.len(),
        forall|y: int| 0 <= y < n1.len() && n1[y].prefix.masklen <= n1[x as int].prefix.masklen ==> {
            &&& #[trigger] n2[y].parent == n1[y].parent
            &&& n2[y].prefix.masklen == n1[y].prefix.masklen
            &&& (n1[y].prefix.masklen < n1[x as int].prefix.masklen ==> n2[y].left == n1[y].left && n2[y].right == n1[y].right)
        },
    ensures
        rooted(n2, head, x),
    decreases n1[x as int].prefix.masklen,
{
    if head == Some(x) {
    } else {
        let p = n1[x as int].parent->0;
        assert(n2[x as int].parent == n1[x as int].parent);
        assert(n2[p as int].parent == n1[p as int].parent);
        lemma_rooted_frame(n1, n2, head, p);
    }
}

/// The nodes of `old` keep their prefix, son link and aggregate data in
/// `new`, and a node that is not glue in `old` is not glue in `new`.
pub open spec fn keeps_nodes(old: Seq<RadixNode>, new: Seq<RadixNode>) -> bool {
    &&& old.len() <= new.len()
    &&& forall|i: int| 0 <= i < old.len() ==> {
        &&& #[trigger] new[i].prefix == old[i].prefix
        &&& new[i].son == old[i].son
        &&& new[i].is_aggregate == old[i].is_aggregate
        &&& new[i].aggregate_low == old[i].aggregate_low
        &&& new[i].aggregate_hi == old[i].aggregate_hi
        &&& (new[i].is_glue ==> old[i].is_glue)
    }
}

/// While inserting `p`, the walk stands at `chead`: it hangs below the
/// head, and `p` matches the path to it (it agrees with `chead`'s parent on
/// the parent's mask, is longer, and its next bit picks `chead`'s side).
pub open spec fn descent_ok(nodes: Seq<RadixNode>, head: Option<usize>, p: SxPrefix, chead: usize) -> bool {
    &&& rooted(nodes, head, chead)
    &&& match nodes[chead as int].parent {
        None => head == Some(chead),
        Some(q) => {
            &&& agree(p.addrs@, nodes[q as int].prefix.addrs@, nodes[q as int].prefix.masklen as int)
            &&& p.masklen > nodes[q as int].prefix.masklen
            &&& (bit_at(p.addrs@, nodes[q as int].prefix.masklen + 1) <==> nodes[q as int].right == Some(chead))
        },
    }
}

/// Node `x` of `nodes` holds a copy of `p`: same family and mask length,
/// the same bits within the mask, and it is not glue.
pub open spec fn holds_prefix(nodes: Seq<RadixNode>, x: usize, p: SxPrefix) -> bool {
    &&& (x as int) < nodes.len()
    &&& nodes[x as int].prefix.family == p.family
    &&& nodes[x as int].prefix.masklen == p.masklen
    &&& agree(nodes[x as int].prefix.addrs@, p.addrs@, p.masklen as int)
    &&& !nodes[x as int].is_glue
}

/// Node `x` holds the prefix given by family, mask length and address.
pub open spec fn holds_parsed(nodes: Seq<RadixNode>, x: usize, f: u8, ml: u32, a: Seq<u8>) -> bool {
    &&& (x as int) < nodes.len()
    &&& nodes[x as int].prefix.family == f
    &&& nodes[x as int].prefix.masklen == ml
    &&& agree(nodes[x as int].prefix.addrs@, a, ml as int)
    &&& !nodes[x as int].is_glue
}

/// No bit of `a` past the first `ml` is set (in all 16 bytes).
pub open spec fn clean(a: Seq<u8>, ml: int) -> bool {
    &&& a.len() == 16
    &&& forall|n: int| ml < n <= 128 ==> !#[trigger] bit_at(a, n)
}

/// Every node of the arena holds a clean address.
pub open spec fn all_clean(nodes: Seq<RadixNode>) -> bool {
    forall|i: int| 0 <= i < nodes.len() ==> clean(#[trigger] nodes[i].prefix.addrs@, nodes[i].prefix.masklen as int)
}

/// What a node lists: its family, mask length and address bytes.
pub open spec fn key_of(p: SxPrefix) -> (u8, u32, Seq<u8>) {
    (p.family, p.masklen, p.addrs@)
}

/// The prefixes listed from the head: those of the non-glue nodes the walk
/// reaches.
pub open spec fn listed_set(nodes: Seq<RadixNode>, head: Option<usize>) -> Set<(u8, u32, Seq<u8>)> {
    Set::new(|q: (u8, u32, Seq<u8>)| exists|x: usize|
        #[trigger] walk(nodes, head).contains(x) && !nodes[x as int].is_glue && q == key_of(nodes[x as int].prefix))
}

proof fn lemma_top_clear(x: u8, r: u32, j: u8)
    by (bit_vector)
    requires
        1 <= r < 8,
        r <= j < 8,
    ensures
        ((x & (0xffu8 << ((8 - r) as u32))) & (0x80u8 >> j)) == 0u8,
{
}

proof fn lemma_zero_bit(j: u8)
    by (bit_vector)
    requires
        j < 8,
    ensures
        (0u8 & (0x80u8 >> j)) == 0u8,
{
}

/// Two clean addresses that agree within the mask are equal.
pub proof fn lemma_clean_eq(a: Seq<u8>, b: Seq<u8>, ml: int)
    requires
        clean(a, ml),
        clean(b, ml),
        agree(a, b, ml),
        0 <= ml <= 128,
    ensures
        a == b,
{
    reveal(agree);
    assert forall|i: int| 0 <= i < 16 implies a[i] == b[i] by {
        assert forall|j: int| 0 <= j < 8 implies #[trigger] (a[i] & (0x80u8 >> (j as u8))) == b[i] & (0x80u8 >> (j as u8)) by {
            let n = 8 * i + j + 1;
            assert((n - 1) / 8 == i);
            assert((n - 1) % 8 == j);
            assert(bit_at(a, n) == bit_at(b, n));
            lemma_single_bit(a[i], j as u8);
            lemma_single_bit(b[i], j as u8);
        }
        assert((a[i] & (0x80u8 >> 0u8)) == b[i] & (0x80u8 >> 0u8)) by { assert(0u8 == (0int as u8)); }
        assert((a[i] & (0x80u8 >> 1u8)) == b[i] & (0x80u8 >> 1u8)) by { assert(1u8 == (1int as u8)); }
        assert((a[i] & (0x80u8 >> 2u8)) == b[i] & (0x80u8 >> 2u8)) by { assert(2u8 == (2int as u8)); }
        assert((a[i] & (0x80u8 >> 3u8)) == b[i] & (0x80u8 >> 3u8)) by { assert(3u8 == (3int as u8)); }
        assert((a[i] & (0x80u8 >> 4u8)) == b[i] & (0x80u8 >> 4u8)) by { assert(4u8 == (4int as u8)); }
        assert((a[i] & (0x80u8 >> 5u8)) == b[i] & (0x80u8 >> 5u8)) by { assert(5u8 == (5int as u8)); }
        assert((a[i] & (0x80u8 >> 6u8)) == b[i] & (0x80u8 >> 6u8)) by { assert(6u8 == (6int as u8)); }
        assert((a[i] & (0x80u8 >> 7u8)) == b[i] & (0x80u8 >> 7u8)) by { assert(7u8 == (7int as u8)); }
        lemma_byte_from_bits(a[i], b[i]);
    }
    assert(a =~= b);
}

/// Clearing the tail of a clean address past a shorter mask gives a clean
/// address for that mask.
pub proof fn lemma_adjusted_clean(a: Seq<u8>, family: u8, eb: u32, ml: int)
    requires
        clean(a, ml),
        eb <= ml <= max_bits(family),
    ensures
        clean(adjusted_addrs(a, family, eb), eb as int),
{
    let c = adjusted_addrs(a, family, eb);
    let nbytes: int = if family == 2 { 4 } else { 16 };
    assert forall|n: int| eb < n <= 128 implies !#[trigger] bit_at(c, n) by {
        let k = (n - 1) / 8;
        let j = ((n - 1) % 8) as u8;
        assert(8 * k <= n - 1 < 8 * k + 8);
        assert(8 * ((eb / 8) as int) <= eb < 8 * ((eb / 8) as int) + 8);
        if eb as int == nbytes * 8 {
            assert(!bit_at(a, n));
        } else if ((eb + 7) / 8) as int <= k < nbytes {
            assert(c[k] == 0u8);
            lemma_zero_bit(j);
        } else if k == (eb / 8) as int && eb % 8 != 0 {
            assert(j as u32 >= eb % 8);
            assert(c[k] == a[k] & top_bits(eb % 8));
            lemma_top_clear(a[k], eb % 8, j);
        } else {
            assert(k >= nbytes);
            assert(c[k] == a[k]);
            assert(n > ml);
            assert(!bit_at(a, n));
        }
    }
}

/// A parsed prefix has a clean address.
pub proof fn lemma_parsed_clean(af: u8, s: Seq<char>)
    requires
        prefix_parse(af, s) is Some,
    ensures
        prefix_parse(af, s) matches Some((f, ml, a)) ==> clean(a, ml as int) && ml <= max_bits(f),
{
    let a = addr_part(s);
    let eff = effective_family(af, s);
    let b: Seq<u8> = match ipv4_parse_spec(a) {
        Some(o) => if eff == 2 { o + Seq::new(12, |i: int| 0u8) } else { zero_addr() },
        None => match ipv6_parse_spec(a) {
            Some(g) => if eff == 10 { groups_bytes(g) } else { zero_addr() },
            None => zero_addr(),
        },
    };
    assert(b.len() == 16);
    let mb = max_bits(eff);
    assert(clean(b, mb as int)) by {
        assert forall|n: int| mb < n <= 128 implies !#[trigger] bit_at(b, n) by {
            let k = (n - 1) / 8;
            assert(8 * k <= n - 1 < 8 * k + 8);
            assert(eff == 2);
            assert(k >= 4);
            assert(b[k] == 0u8);
            lemma_zero_bit(((n - 1) % 8) as u8);
        }
    }
    if let Some((f, ml, addrs)) = prefix_parse(af, s) {
        lemma_adjusted_clean(b, eff, ml, mb as int);
    }
}

/// Address `a` with bit `n` (1-based, most significant first) set.
pub open spec fn with_bit(a: Seq<u8>, n: int) -> Seq<u8> {
    a.update((n - 1) / 8, a[(n - 1) / 8] | (0x80u8 >> (((n - 1) % 8) as u8)))
}

/// `b/l` is a more specific prefix of `a/ml` as the range expansion makes
/// them: `l` is at least `ml`, `b` keeps the first `ml` bits of `a`, and
/// each bit of `a` past `ml`, up to `l`, that is set is set in `b` too
/// (the others may be either).
pub open spec fn specific_of(a: Seq<u8>, ml: int, l: int, b: Seq<u8>) -> bool {
    &&& ml <= l
    &&& agree(a, b, ml)
    &&& forall|n: int| ml < n <= l && #[trigger] bit_at(a, n) ==> bit_at(b, n)
}

proof fn lemma_or_bit(x: u8, j: u8, k: u8)
    by (bit_vector)
    requires
        j < 8,
        k < 8,
    ensures
        j == k ==> ((x | (0x80u8 >> j)) & (0x80u8 >> k)) != 0u8,
        j != k ==> (((x | (0x80u8 >> j)) & (0x80u8 >> k)) != 0u8) == ((x & (0x80u8 >> k)) != 0u8),
{
}

/// Setting bit `n` sets it and leaves every other bit as it was.
pub proof fn lemma_with_bit_at(a: Seq<u8>, n: int, m: int)
    requires
        a.len() == 16,
        1 <= n <= 128,
        1 <= m <= 128,
    ensures
        bit_at(with_bit(a, n), m) == (m == n || bit_at(a, m)),
{
    let i = (n - 1) / 8;
    let k = (m - 1) / 8;
    if k == i {
        lemma_or_bit(a[i], ((n - 1) % 8) as u8, ((m - 1) % 8) as u8);
    }
}

/// The prefixes that inserting the more specifics of a clean `a/ml` of
/// family `f` from `min` to `max` lists: each clean address that keeps the
/// first `ml` bits of `a`, with a mask length from `max(ml, min)` to `max`,
/// and `a/ml` itself where `ml >= min` (also when `ml` is past `max`).
pub open spec fn specifics_set(f: u8, a: Seq<u8>, ml: u32, min: u32, max: u32) -> Set<(u8, u32, Seq<u8>)> {
    Set::new(|q: (u8, u32, Seq<u8>)| {
        &&& q.0 == f
        &&& ml <= q.1
        &&& min <= q.1
        &&& (q.1 <= max || q.1 == ml)
        &&& clean(q.2, q.1 as int)
        &&& agree(a, q.2, ml as int)
    })
}

/// The prefix `a/ml` itself, where `ml >= min`.
pub open spec fn own_set(f: u8, a: Seq<u8>, ml: u32, min: u32) -> Set<(u8, u32, Seq<u8>)> {
    if ml >= min { set![(f, ml, a)] } else { Set::empty() }
}

/// Setting the bit just past the mask of a clean address gives a clean
/// address one bit longer, which keeps the first `ml` bits.
proof fn lemma_with_bit_clean(a: Seq<u8>, ml: int)
    requires
        clean(a, ml),
        0 <= ml < 128,
    ensures
        clean(with_bit(a, ml + 1), ml + 1),
        agree(a, with_bit(a, ml + 1), ml),
        bit_at(with_bit(a, ml + 1), ml + 1),
{
    reveal(agree);
    let w = with_bit(a, ml + 1);
    assert forall|n: int| ml + 1 < n <= 128 implies !#[trigger] bit_at(w, n) by {
        lemma_with_bit_at(a, ml + 1, n);
    }
    assert forall|n: int| 1 <= n <= ml implies #[trigger] bit_at(a, n) == bit_at(w, n) by {
        lemma_with_bit_at(a, ml + 1, n);
    }
    lemma_with_bit_at(a, ml + 1, ml + 1);
}

/// The more specifics of `a/ml` up to a `max` not past `ml`: `a/ml` only.
proof fn lemma_specifics_last(f: u8, a: Seq<u8>, ml: u32, min: u32, max: u32)
    requires
        clean(a, ml as int),
        ml <= 128,
        max <= ml,
    ensures
        specifics_set(f, a, ml, min, max) == own_set(f, a, ml, min),
{
    reveal(agree);
    let s = specifics_set(f, a, ml, min, max);
    assert forall|q: (u8, u32, Seq<u8>)| s.contains(q) implies own_set(f, a, ml, min).contains(q) by {
        lemma_clean_eq(a, q.2, ml as int);
    }
    assert forall|q: (u8, u32, Seq<u8>)| own_set(f, a, ml, min).contains(q) implies s.contains(q) by {}
    assert(s =~= own_set(f, a, ml, min));
}

/// The more specifics of `a/ml` are `a/ml` itself, those of `a` one bit
/// longer, and those of `a` with the next bit set.
proof fn lemma_specifics_split(f: u8, a: Seq<u8>, ml: u32, min: u32, max: u32)
    requires
        clean(a, ml as int),
        ml < max <= 128,
    ensures
        specifics_set(f, a, ml, min, max) == own_set(f, a, ml, min).union(specifics_set(f, a, (ml + 1) as u32, min, max)).union(
            specifics_set(f, with_bit(a, ml + 1), (ml + 1) as u32, min, max)),
{
    reveal(agree);
    let w = with_bit(a, ml + 1);
    lemma_with_bit_clean(a, ml as int);
    let s = specifics_set(f, a, ml, min, max);
    let s1 = specifics_set(f, a, (ml + 1) as u32, min, max);
    let s2 = specifics_set(f, w, (ml + 1) as u32, min, max);
    let o = own_set(f, a, ml, min);
    assert forall|q: (u8, u32, Seq<u8>)| s.contains(q) implies o.union(s1).union(s2).contains(q) by {
        if q.1 == ml {
            lemma_clean_eq(a, q.2, ml as int);
        } else if bit_at(q.2, ml + 1) {
            assert forall|n: int| 1 <= n <= ml + 1 implies #[trigger] bit_at(w, n) == bit_at(q.2, n) by {
                if n <= ml { assert(bit_at(a, n) == bit_at(w, n)); }
            }
            assert(s2.contains(q));
        } else {
            assert(!bit_at(a, ml + 1));
            assert(s1.contains(q));
        }
    }
    assert forall|q: (u8, u32, Seq<u8>)| o.union(s1).union(s2).contains(q) implies s.contains(q) by {
        if s2.contains(q) {
            assert forall|n: int| 1 <= n <= ml implies #[trigger] bit_at(a, n) == bit_at(q.2, n) by {
                assert(bit_at(a, n) == bit_at(w, n));
                assert(bit_at(w, n) == bit_at(q.2, n));
            }
        }
    }
    assert(s =~= o.union(s1).union(s2));
}

/// A more specific prefix one bit longer than `a/ml` either keeps bit
/// `ml + 1` of `a` clear or is one of the more specifics of `a` with that
/// bit set.
proof fn lemma_specific_split(a: Seq<u8>, ml: int, l: int, b: Seq<u8>)
    requires
        a.len() == 16,
        specific_of(a, ml, l, b),
        0 <= ml < l <= 128,
    ensures
        bit_at(b, ml + 1) ==> specific_of(with_bit(a, ml + 1), ml + 1, l, b),
        !bit_at(b, ml + 1) ==> specific_of(a, ml + 1, l, b),
{
    reveal(agree);
    let c = with_bit(a, ml + 1);
    if bit_at(b, ml + 1) {
        assert forall|n: int| 1 <= n <= ml + 1 implies #[trigger] bit_at(c, n) == bit_at(b, n) by {
            lemma_with_bit_at(a, ml + 1, n);
        }
        assert forall|n: int| ml + 1 < n <= l && #[trigger] bit_at(c, n) implies bit_at(b, n) by {
            lemma_with_bit_at(a, ml + 1, n);
        }
    } else {
        assert(!bit_at(a, ml + 1));
        assert forall|n: int| 1 <= n <= ml + 1 implies #[trigger] bit_at(a, n) == bit_at(b, n) by {
        }
    }
}

#[verifier::spinoff_prover]
#[verifier::rlimit(40)]
/// Node `i` is consistent after a glue node `g` was put between `chead`
/// and its parent, with the detached node `new` as the glue's other child.
proof fn lemma_splice_glue_node(
    n0: Seq<RadixNode>,
    n1: Seq<RadixNode>,
    fam: u8,
    head0: Option<usize>,
    chead: usize,
    new: usize,
    g: usize,
    orig_parent: Option<usize>,
    prefix: SxPrefix,
    neo: SxPrefix,
    right_is_new: bool,
    eb: u32,
    i: int,
)
    requires
        tree_wf(n0, fam, head0),
        (chead as int) < n0.len(),
        (new as int) < n0.len(),
        new != chead,
        n0[new as int] == RadixNode::fresh(prefix),
        head0 != Some(new),
        g as int == n0.len(),
        n1.len() == n0.len() + 1,
        orig_parent == n0[chead as int].parent,
        orig_parent is None ==> head0 == Some(chead),
        prefix.family == fam,
        prefix.well_formed(),
        neo.family == fam,
        neo.masklen == eb,
        neo.addrs@.len() == 16,
        eb < prefix.masklen,
        eb < n0[chead as int].prefix.masklen,
        agree(neo.addrs@, prefix.addrs@, eb as int),
        agree(prefix.addrs@, n0[chead as int].prefix.addrs@, eb as int),
        bit_at(prefix.addrs@, eb + 1) == right_is_new,
        bit_at(n0[chead as int].prefix.addrs@, eb + 1) == !right_is_new,
        orig_parent matches Some(q) ==> {
            &&& agree(prefix.addrs@, n0[q as int].prefix.addrs@, n0[q as int].prefix.masklen as int)
            &&& eb > n0[q as int].prefix.masklen
            &&& (bit_at(prefix.addrs@, n0[q as int].prefix.masklen + 1) <==> n0[q as int].right == Some(chead))
        },
        n1[g as int] == (RadixNode {
            prefix: neo,
            parent: orig_parent,
            left: if right_is_new { Some(chead) } else { Some(new) },
            right: if right_is_new { Some(new) } else { Some(chead) },
            son: None,
            is_glue: true,
            is_aggregate: false,
            aggregate_low: 0,
            aggregate_hi: 0,
        }),
        n1[chead as int] == (RadixNode { parent: Some(g), ..n0[chead as int] }),
        n1[new as int] == (RadixNode { parent: Some(g), ..n0[new as int] }),
        orig_parent matches Some(q) ==> n1[q as int] == (if n0[q as int].left == Some(chead) {
            RadixNode { left: Some(g), ..n0[q as int] }
        } else {
            RadixNode { right: Some(g), ..n0[q as int] }
        }),
        forall|j: int| 0 <= j < n0.len() && j != chead as int && j != new as int
            && orig_parent != Some(j as usize) ==> #[trigger] n1[j] == n0[j],
        0 <= i < n1.len(),
    ensures
        node_ok(n1, fam, i),
{
    assert(node_ok(n0, fam, chead as int));
    assert(node_ok(n0, fam, new as int));
    lemma_agree_sym(prefix.addrs@, n0[chead as int].prefix.addrs@, eb as int);
    lemma_agree_sym(neo.addrs@, prefix.addrs@, eb as int);
    if i == g as int {
        lemma_agree_trans(n0[chead as int].prefix.addrs@, prefix.addrs@, neo.addrs@, eb as int);
        assert(child_ok(n1, i, n1[i].left, false));
        assert(child_ok(n1, i, n1[i].right, true));
        if let Some(q) = orig_parent {
            assert(node_ok(n0, fam, q as int));
            let qml = n0[q as int].prefix.masklen;
            lemma_agree_shorter(neo.addrs@, prefix.addrs@, eb as int, qml as int);
            lemma_agree_trans(neo.addrs@, prefix.addrs@, n0[q as int].prefix.addrs@, qml as int);
        }
    } else if i == chead as int {
        if let Some(l) = n0[i].left { assert(node_ok(n0, fam, l as int)); }
        if let Some(r) = n0[i].right { assert(node_ok(n0, fam, r as int)); }
    } else if i == new as int {
    } else if orig_parent == Some(i as usize) {
        assert(node_ok(n0, fam, i));
        if let Some(l) = n0[i].left { assert(node_ok(n0, fam, l as int)); }
        if let Some(r) = n0[i].right { assert(node_ok(n0, fam, r as int)); }
        if let Some(pp) = n0[i].parent { assert(node_ok(n0, fam, pp as int)); }
        lemma_agree_shorter(neo.addrs@, prefix.addrs@, eb as int, n0[i].prefix.masklen as int);
        lemma_agree_trans(neo.addrs@, prefix.addrs@, n0[i].prefix.addrs@, n0[i].prefix.masklen as int);
        lemma_agree_bit(neo.addrs@, prefix.addrs@, eb as int, n0[i].prefix.masklen + 1);
    } else {
        assert(node_ok(n0, fam, i));
        assert(n1[i] == n0[i]);
        if let Some(l) = n0[i].left { assert(node_ok(n0, fam, l as int)); }
        if let Some(r) = n0[i].right { assert(node_ok(n0, fam, r as int)); }
        if let Some(pp) = n0[i].parent { assert(node_ok(n0, fam, pp as int)); }
    }
}

/// Node `i` is consistent after the detached node `new` was put between
/// `chead` and its parent.
#[verifier::spinoff_prover]
#[verifier::rlimit(40)]
proof fn lemma_splice_above_node(
    n0: Seq<RadixNode>,
    n1: Seq<RadixNode>,
    fam: u8,
    head0: Option<usize>,
    chead: usize,
    new: usize,
    orig_parent: Option<usize>,
    prefix: SxPrefix,
    right_is_chead: bool,
    i: int,
)
    requires
        tree_wf(n0, fam, head0),
        (chead as int) < n0.len(),
        (new as int) < n0.len(),
        new != chead,
        n0[new as int] == RadixNode::fresh(prefix),
        head0 != Some(new),
        n1.len() == n0.len(),
        n1.len() <= usize::MAX,
        orig_parent == n0[chead as int].parent,
        orig_parent is None ==> head0 == Some(chead),
        prefix.family == fam,
        prefix.well_formed(),
        prefix.masklen < n0[chead as int].prefix.masklen,
        agree(prefix.addrs@, n0[chead as int].prefix.addrs@, prefix.masklen as int),
        bit_at(n0[chead as int].prefix.addrs@, prefix.masklen + 1) == right_is_chead,
        orig_parent matches Some(q) ==> {
            &&& agree(prefix.addrs@, n0[q as int].prefix.addrs@, n0[q as int].prefix.masklen as int)
            &&& prefix.masklen > n0[q as int].prefix.masklen
            &&& (bit_at(prefix.addrs@, n0[q as int].prefix.masklen + 1) <==> n0[q as int].right == Some(chead))
        },
        n1[new as int] == (RadixNode {
            parent: orig_parent,
            left: if right_is_chead { None } else { Some(chead) },
            right: if right_is_chead { Some(chead) } else { None },
            ..RadixNode::fresh(prefix)
        }),
        n1[chead as int] == (RadixNode { parent: Some(new), ..n0[chead as int] }),
        orig_parent matches Some(q) ==> n1[q as int] == (if n0[q as int].left == Some(chead) {
            RadixNode { left: Some(new), ..n0[q as int] }
        } else {
            RadixNode { right: Some(new), ..n0[q as int] }
        }),
        forall|j: int| 0 <= j < n0.len() && j != chead as int && j != new as int
            && orig_parent != Some(j as usize) ==> #[trigger] n1[j] == n0[j],
        0 <= i < n1.len(),
    ensures
        node_ok(n1, fam, i),
{
    assert(node_ok(n0, fam, chead as int));
    assert(node_ok(n0, fam, new as int));
    lemma_agree_sym(prefix.addrs@, n0[chead as int].prefix.addrs@, prefix.masklen as int);
    if let Some(q) = orig_parent {
        assert(node_ok(n0, fam, q as int));
    }
    if i == new as int {
        assert(n1[i].prefix == prefix);
        assert(child_ok(n1, i, n1[i].left, false));
        assert(child_ok(n1, i, n1[i].right, true));
        assert(node_ok(n1, fam, i));
    } else if i == chead as int {
        if let Some(l) = n0[i].left { assert(node_ok(n0, fam, l as int)); }
        if let Some(r) = n0[i].right { assert(node_ok(n0, fam, r as int)); }
        assert(node_ok(n1, fam, i));
    } else if orig_parent == Some(i as usize) {
        let q = orig_parent->0;
        assert(q as int == i);
        assert(node_ok(n0, fam, i));
        assert(n1[i].prefix == n0[i].prefix);
        assert(n1[i].parent == n0[i].parent);
        if let Some(l) = n0[i].left { assert(node_ok(n0, fam, l as int)); }
        if let Some(r) = n0[i].right { assert(node_ok(n0, fam, r as int)); }
        if let Some(pp) = n0[i].parent { assert(node_ok(n0, fam, pp as int)); }
    } else {
        assert(node_ok(n0, fam, i));
        assert(n1[i] == n0[i]);
        if let Some(l) = n0[i].left { assert(node_ok(n0, fam, l as int)); }
        if let Some(r) = n0[i].right { assert(node_ok(n0, fam, r as int)); }
        if let Some(pp) = n0[i].parent { assert(node_ok(n0, fam, pp as int)); }
    }
}

#[verifier::spinoff_prover]
#[verifier::rlimit(40)]
/// Node `i` is consistent after a new leaf `c` holding `prefix` was hung
/// below `chead` on the side its next bit selects.
proof fn lemma_attach_node(
    n0: Seq<RadixNode>,
    n1: Seq<RadixNode>,
    fam: u8,
    head0: Option<usize>,
    chead: usize,
    c: usize,
    prefix: SxPrefix,
    right: bool,
    i: int,
)
    requires
        tree_wf(n0, fam, head0),
        (chead as int) < n0.len(),
        c as int == n0.len(),
        n1.len() == n0.len() + 1,
        prefix.family == fam,
        prefix.well_formed(),
        prefix.masklen > n0[chead as int].prefix.masklen,
        agree(prefix.addrs@, n0[chead as int].prefix.addrs@, n0[chead as int].prefix.masklen as int),
        bit_at(prefix.addrs@, n0[chead as int].prefix.masklen + 1) == right,
        right ==> n0[chead as int].right is None,
        !right ==> n0[chead as int].left is None,
        n1[c as int] == (RadixNode { parent: Some(chead), ..RadixNode::fresh(prefix) }),
        n1[chead as int] == (if right {
            RadixNode { right: Some(c), ..n0[chead as int] }
        } else {
            RadixNode { left: Some(c), ..n0[chead as int] }
        }),
        forall|j: int| 0 <= j < n0.len() && j != chead as int ==> #[trigger] n1[j] == n0[j],
        0 <= i < n1.len(),
    ensures
        node_ok(n1, fam, i),
{
    assert(node_ok(n0, fam, chead as int));
    if i == c as int {
    } else if i == chead as int {
        if let Some(l) = n0[i].left { assert(node_ok(n0, fam, l as int)); }
        if let Some(r) = n0[i].right { assert(node_ok(n0, fam, r as int)); }
        if let Some(pp) = n0[i].parent { assert(node_ok(n0, fam, pp as int)); }
    } else {
        assert(node_ok(n0, fam, i));
        assert(n1[i] == n0[i]);
        if let Some(l) = n0[i].left { assert(node_ok(n0, fam, l as int)); }
        if let Some(r) = n0[i].right { assert(node_ok(n0, fam, r as int)); }
        if let Some(pp) = n0[i].parent { assert(node_ok(n0, fam, pp as int)); }
    }
}

pub proof fn lemma_keeps_trans(a: Seq<RadixNode>, b: Seq<RadixNode>, c: Seq<RadixNode>)
    requires
        keeps_nodes(a, b),
        keeps_nodes(b, c),
    ensures
        keeps_nodes(a, c),
{
    assert forall|i: int| 0 <= i < a.len() implies {
        &&& #[trigger] c[i].prefix == a[i].prefix
        &&& c[i].son == a[i].son
        &&& c[i].is_aggregate == a[i].is_aggregate
        &&& c[i].aggregate_low == a[i].aggregate_low
        &&& c[i].aggregate_hi == a[i].aggregate_hi
        &&& (c[i].is_glue ==> a[i].is_glue)
    } by {
        assert(b[i].prefix == a[i].prefix);
        assert(c[i].prefix == b[i].prefix);
    }
}

/// The nodes of `old` keep their prefix and tree links in `new`.
pub open spec fn same_shape(old: Seq<RadixNode>, new: Seq<RadixNode>) -> bool {
    &&& old.len() <= new.len()
    &&& forall|j: int| 0 <= j < old.len() ==> {
        &&& #[trigger] new[j].prefix == old[j].prefix
        &&& new[j].parent == old[j].parent
        &&& new[j].left == old[j].left
        &&& new[j].right == old[j].right
    }
}

/// Nodes appended after `from` are detached nodes of the family.
pub open spec fn detached_from(nodes: Seq<RadixNode>, family: u8, from: int) -> bool {
    forall|j: int| from <= j < nodes.len() ==> {
        &&& (#[trigger] nodes[j]).parent is None
        &&& nodes[j].left is None
        &&& nodes[j].right is None
        &&& nodes[j].prefix.family == family
        &&& nodes[j].prefix.masklen <= max_bits(family)
        &&& nodes[j].prefix.addrs@.len() == 16
    }
}

proof fn lemma_shape_preorder(n0: Seq<RadixNode>, n1: Seq<RadixNode>, fam: u8, x: usize)
    requires
        forall|j: int| 0 <= j < n0.len() ==> #[trigger] node_ok(n0, fam, j),
        same_shape(n0, n1),
        (x as int) < n0.len(),
    ensures
        preorder(n1, x) == preorder(n0, x),
    decreases 129 - n0[x as int].prefix.masklen,
{
    assert(node_ok(n0, fam, x as int));
    assert(n1[x as int].prefix == n0[x as int].prefix);
    let ml = n0[x as int].prefix.masklen;
    let ls0 = match n0[x as int].left {
        Some(l) => if (l as int) < n0.len() && ml < n0[l as int].prefix.masklen <= 128 { preorder(n0, l) } else { Seq::empty() },
        None => Seq::empty(),
    };
    let ls1 = match n1[x as int].left {
        Some(l) => if (l as int) < n1.len() && ml < n1[l as int].prefix.masklen <= 128 { preorder(n1, l) } else { Seq::empty() },
        None => Seq::empty(),
    };
    let rs0 = match n0[x as int].right {
        Some(r) => if (r as int) < n0.len() && ml < n0[r as int].prefix.masklen <= 128 { preorder(n0, r) } else { Seq::empty() },
        None => Seq::empty(),
    };
    let rs1 = match n1[x as int].right {
        Some(r) => if (r as int) < n1.len() && ml < n1[r as int].prefix.masklen <= 128 { preorder(n1, r) } else { Seq::empty() },
        None => Seq::empty(),
    };
    if let Some(l) = n0[x as int].left {
        assert(node_ok(n0, fam, l as int));
        assert(n1[l as int].prefix == n0[l as int].prefix);
        lemma_shape_preorder(n0, n1, fam, l);
    }
    if let Some(r) = n0[x as int].right {
        assert(node_ok(n0, fam, r as int));
        assert(n1[r as int].prefix == n0[r as int].prefix);
        lemma_shape_preorder(n0, n1, fam, r);
    }
    assert(ls0 == ls1);
    assert(rs0 == rs1);
}

proof fn lemma_shape_trans(a: Seq<RadixNode>, b: Seq<RadixNode>, c: Seq<RadixNode>)
    requires
        same_shape(a, b),
        same_shape(b, c),
    ensures
        same_shape(a, c),
{
    assert forall|j: int| 0 <= j < a.len() implies #[trigger] c[j].prefix == a[j].prefix
        && c[j].parent == a[j].parent && c[j].left == a[j].left && c[j].right == a[j].right by {
        assert(b[j].prefix == a[j].prefix);
        assert(c[j].prefix == b[j].prefix);
    }
}

/// What a refine pass may do to one node: turn glue on for a node no
/// longer than `refine`, or make a visible node shorter than `refine` an
/// aggregate from its own length to `refine`; nothing else changes.
pub open spec fn refine_step(x: RadixNode, y: RadixNode, refine: u32) -> bool {
    &&& y.prefix == x.prefix
    &&& y.parent == x.parent
    &&& y.left == x.left
    &&& y.right == x.right
    &&& y.son == x.son
    &&& (y.is_glue == x.is_glue || (!x.is_glue && y.is_glue && x.prefix.masklen <= refine))
    &&& ((y.is_aggregate == x.is_aggregate && y.aggregate_low == x.aggregate_low && y.aggregate_hi == x.aggregate_hi)
        || (!x.is_glue && x.prefix.masklen < refine && y.is_aggregate && y.aggregate_low == x.prefix.masklen
            && y.aggregate_hi == refine))
}

/// Node `c` turned into glue when its mask is at most `r`.
pub open spec fn glue_upto(n: Seq<RadixNode>, c: usize, r: u32) -> Seq<RadixNode> {
    if n[c as int].prefix.masklen <= r { n.update(c as int, glued(n[c as int])) } else { n }
}

/// Child `c` of a node of mask length `ml` is a proper child in `n`.
pub open spec fn child_fits(n: Seq<RadixNode>, c: Option<usize>, ml: u32) -> bool {
    match c {
        Some(k) => (k as int) < n.len() && ml < n[k as int].prefix.masklen <= 128,
        None => false,
    }
}

/// The arena after the refine pass from node `idx` (of mask length `ml`):
/// a non-glue node shorter than `refine` becomes an aggregate from its
/// length to `refine`, its children no longer than `refine` turn glue and
/// are visited (left, then right); below a non-glue node of length
/// `refine` and below a glue node the pass goes on (right first below
/// glue); a node longer than `refine` stops it.
pub open spec fn refine_nodes(n: Seq<RadixNode>, idx: usize, ml: u32, refine: u32) -> Seq<RadixNode>
    decreases 129 - ml,
{
    if (idx as int) < n.len() && ml <= 128 {
        let nd = n[idx as int];
        let lok = child_fits(n, nd.left, ml);
        let rok = child_fits(n, nd.right, ml);
        let l = nd.left->0;
        let r = nd.right->0;
        if !nd.is_glue && ml < refine {
            let n1 = n.update(idx as int, RadixNode { is_aggregate: true, aggregate_low: ml, aggregate_hi: refine, ..nd });
            let n2 = if lok { refine_nodes(glue_upto(n1, l, refine), l, n[l as int].prefix.masklen, refine) } else { n1 };
            if rok { refine_nodes(glue_upto(n2, r, refine), r, n[r as int].prefix.masklen, refine) } else { n2 }
        } else if !nd.is_glue && ml == refine {
            let n2 = if lok { refine_nodes(n, l, n[l as int].prefix.masklen, refine) } else { n };
            if rok { refine_nodes(n2, r, n[r as int].prefix.masklen, refine) } else { n2 }
        } else if nd.is_glue {
            let n2 = if rok { refine_nodes(n, r, n[r as int].prefix.masklen, refine) } else { n };
            if lok { refine_nodes(n2, l, n[l as int].prefix.masklen, refine) } else { n2 }
        } else {
            n
        }
    } else {
        n
    }
}

/// The arena after the low refine pass from node `idx` (of mask length
/// `ml`): a non-glue node no longer than `low` becomes an aggregate from
/// `low` (up to the full length, or keeping the upper bound of an existing
/// aggregate), its children no longer than `low` turn glue and are visited
/// (left, then right); below a glue node the pass goes on (right first); a
/// node longer than `low` stops it.
pub open spec fn low_nodes(n: Seq<RadixNode>, idx: usize, ml: u32, low: u32) -> Seq<RadixNode>
    decreases 129 - ml,
{
    if (idx as int) < n.len() && ml <= 128 {
        let nd = n[idx as int];
        let lok = child_fits(n, nd.left, ml);
        let rok = child_fits(n, nd.right, ml);
        let l = nd.left->0;
        let r = nd.right->0;
        if !nd.is_glue && ml <= low {
            let n1 = if !nd.is_aggregate {
                n.update(idx as int, RadixNode {
                    is_aggregate: true,
                    aggregate_low: low,
                    aggregate_hi: if nd.prefix.family == 2 { 32 } else { 128 },
                    ..nd
                })
            } else {
                n.update(idx as int, RadixNode { aggregate_low: low, ..nd })
            };
            let n2 = if lok { low_nodes(glue_upto(n1, l, low), l, n[l as int].prefix.masklen, low) } else { n1 };
            if rok { low_nodes(glue_upto(n2, r, low), r, n[r as int].prefix.masklen, low) } else { n2 }
        } else if nd.is_glue {
            let n2 = if rok { low_nodes(n, r, n[r as int].prefix.masklen, low) } else { n };
            if lok { low_nodes(n2, l, n[l as int].prefix.masklen, low) } else { n2 }
        } else {
            n
        }
    } else {
        n
    }
}

/// What a refine pass asks of the parent `p` of a node it turned glue: a
/// visible aggregate whose range covers the node's length `ml`.
pub open spec fn refine_cover() -> spec_fn(RadixNode, u32) -> bool {
    |p: RadixNode, ml: u32| !p.is_glue && p.is_aggregate && p.aggregate_low <= ml <= p.aggregate_hi
}

/// What a low refine pass asks of the parent `p` of a node of length `ml`
/// it turned glue: `ml` is at most `low` and `p` is a visible aggregate
/// from `low`.
pub open spec fn low_cover(low: u32) -> spec_fn(RadixNode, u32) -> bool {
    |p: RadixNode, ml: u32| ml <= low && !p.is_glue && p.is_aggregate && p.aggregate_low == low
}

/// Node `j`, visible in `a` and glue in `b`, hangs below a parent that `b`
/// shows as a visible aggregate whose range covers `j`'s length.
pub open spec fn glue_covered(a: Seq<RadixNode>, b: Seq<RadixNode>, j: int) -> bool {
    !a[j].is_glue && b[j].is_glue ==> match b[j].parent {
        Some(p) => {
            &&& (p as int) < b.len()
            &&& !b[p as int].is_glue
            &&& b[p as int].is_aggregate
            &&& b[p as int].aggregate_low <= b[j].prefix.masklen <= b[p as int].aggregate_hi
        },
        None => false,
    }
}

/// Node `j`, visible in `a` and glue in `b`, is no longer than `low` and
/// hangs below a parent that `b` shows as a visible aggregate from `low`.
pub open spec fn glue_below_low(a: Seq<RadixNode>, b: Seq<RadixNode>, j: int, low: u32) -> bool {
    !a[j].is_glue && b[j].is_glue ==> b[j].prefix.masklen <= low && match b[j].parent {
        Some(p) => {
            &&& (p as int) < b.len()
            &&& !b[p as int].is_glue
            &&& b[p as int].is_aggregate
            &&& b[p as int].aggregate_low == low
        },
        None => false,
    }
}

/// `m` came from `n` by changing flags of the nodes in `w` alone, and each
/// node that turned glue hangs below a parent in `q` which `m` shows as
/// `cov` asks.
spec fn pass_ok(n: Seq<RadixNode>, m: Seq<RadixNode>, w: Set<usize>, q: Set<usize>, cov: spec_fn(RadixNode, u32) -> bool) -> bool {
    &&& same_links(n, m)
    &&& forall|j: usize| (j as int) < n.len() && !w.contains(j) ==> #[trigger] m[j as int] == n[j as int]
    &&& forall|j: int| 0 <= j < n.len() && !n[j].is_glue && #[trigger] m[j].is_glue ==>
        match m[j].parent {
            Some(p) => q.contains(p) && (p as int) < m.len() && cov(m[p as int], m[j].prefix.masklen),
            None => false,
        }
}

proof fn lemma_pass_refl(a: Seq<RadixNode>, cov: spec_fn(RadixNode, u32) -> bool)
    ensures
        pass_ok(a, a, Set::empty(), Set::empty(), cov),
{
}

proof fn lemma_pass_weaken(a: Seq<RadixNode>, b: Seq<RadixNode>, w: Set<usize>, q: Set<usize>, w2: Set<usize>, q2: Set<usize>, cov: spec_fn(RadixNode, u32) -> bool)
    requires
        pass_ok(a, b, w, q, cov),
        w.subset_of(w2),
        q.subset_of(q2),
    ensures
        pass_ok(a, b, w2, q2, cov),
{
    assert forall|j: int| 0 <= j < a.len() && !a[j].is_glue && #[trigger] b[j].is_glue implies
        match b[j].parent {
            Some(p) => q2.contains(p) && (p as int) < b.len() && cov(b[p as int], b[j].prefix.masklen),
            None => false,
        } by {
        if let Some(p) = b[j].parent {
            assert(q.contains(p));
        }
    }
}

/// Two passes in a row, the second leaving alone the parents the first
/// relied on, make one pass.
proof fn lemma_pass_compose(a: Seq<RadixNode>, b: Seq<RadixNode>, c: Seq<RadixNode>, w1: Set<usize>, q1: Set<usize>,
    w2: Set<usize>, q2: Set<usize>, cov: spec_fn(RadixNode, u32) -> bool)
    requires
        pass_ok(a, b, w1, q1, cov),
        pass_ok(b, c, w2, q2, cov),
        forall|y: usize| #[trigger] q1.contains(y) ==> !w2.contains(y),
    ensures
        pass_ok(a, c, w1 + w2, q1 + q2, cov),
{
    lemma_links_trans(a, b, c);
    assert forall|j: usize| (j as int) < a.len() && !(w1 + w2).contains(j) implies #[trigger] c[j as int] == a[j as int] by {
        assert(b[j as int] == a[j as int]);
        assert(c[j as int] == b[j as int]);
    }
    assert forall|j: int| 0 <= j < a.len() && !a[j].is_glue && #[trigger] c[j].is_glue implies
        match c[j].parent {
            Some(p) => (q1 + q2).contains(p) && (p as int) < c.len() && cov(c[p as int], c[j].prefix.masklen),
            None => false,
        } by {
        assert(c[j].prefix == b[j].prefix);
        assert(c[j].parent == b[j].parent);
        if b[j].is_glue {
            let p = b[j].parent->0;
            assert(q1.contains(p));
            assert(!w2.contains(p));
            assert(c[p as int] == b[p as int]);
        } else {
            assert(c[j].is_glue);
        }
    }
}

/// Changing the flags of node `i` but not its glue flag is a pass over `i`.
proof fn lemma_set_step(a: Seq<RadixNode>, i: usize, x: RadixNode, cov: spec_fn(RadixNode, u32) -> bool)
    requires
        (i as int) < a.len(),
        x.prefix == a[i as int].prefix,
        x.parent == a[i as int].parent,
        x.left == a[i as int].left,
        x.right == a[i as int].right,
        x.son == a[i as int].son,
        x.is_glue == a[i as int].is_glue,
    ensures
        pass_ok(a, a.update(i as int, x), set![i], Set::empty(), cov),
{
    let b = a.update(i as int, x);
    assert forall|j: int| 0 <= j < a.len() && !a[j].is_glue && #[trigger] b[j].is_glue implies
        match b[j].parent {
            Some(p) => Set::<usize>::empty().contains(p) && (p as int) < b.len() && cov(b[p as int], b[j].prefix.masklen),
            None => false,
        } by {
        assert(j != i as int);
    }
}

/// Turning child `c` of `p` into glue (when asked and no longer than `r`)
/// is a pass over `c` relying on `p`.
proof fn lemma_glue_step(a: Seq<RadixNode>, c: usize, r: u32, p: usize, glue: bool, cov: spec_fn(RadixNode, u32) -> bool)
    requires
        (c as int) < a.len(),
        (p as int) < a.len(),
        p != c,
        a[c as int].parent == Some(p),
        glue && a[c as int].prefix.masklen <= r ==> cov(a[p as int], a[c as int].prefix.masklen),
    ensures
        pass_ok(a, if glue { glue_upto(a, c, r) } else { a }, set![c], set![p], cov),
{
    let b = if glue { glue_upto(a, c, r) } else { a };
    assert forall|j: int| 0 <= j < a.len() && !a[j].is_glue && #[trigger] b[j].is_glue implies
        match b[j].parent {
            Some(q) => set![p].contains(q) && (q as int) < b.len() && cov(b[q as int], b[j].prefix.masklen),
            None => false,
        } by {
        assert(j == c as int);
        assert(b[p as int] == a[p as int]);
    }
}

/// A change that keeps every prefix and link keeps every node consistent.
proof fn lemma_links_node_ok(n: Seq<RadixNode>, m: Seq<RadixNode>, fam: u8)
    requires
        forall|i: int| 0 <= i < n.len() ==> #[trigger] node_ok(n, fam, i),
        same_links(n, m),
    ensures
        forall|i: int| 0 <= i < m.len() ==> #[trigger] node_ok(m, fam, i),
{
    assert forall|i: int| 0 <= i < m.len() implies #[trigger] node_ok(m, fam, i) by {
        assert(node_ok(n, fam, i));
        assert(m[i].prefix == n[i].prefix);
        assert(m[i].son == n[i].son);
        if let Some(l) = n[i].left { assert(m[l as int].prefix == n[l as int].prefix); }
        if let Some(r) = n[i].right { assert(m[r as int].prefix == n[r as int].prefix); }
        if let Some(q) = n[i].parent { assert(m[q as int].prefix == n[q as int].prefix); }
    }
}

/// The walk from `i` holds `i` and the walks from its children.
proof fn lemma_preorder_sub(n: Seq<RadixNode>, fam: u8, i: usize)
    requires
        forall|k: int| 0 <= k < n.len() ==> #[trigger] node_ok(n, fam, k),
        (i as int) < n.len(),
    ensures
        preorder(n, i).contains(i),
        n[i as int].left matches Some(l) ==> forall|y: usize| #[trigger] preorder(n, l).contains(y) ==> preorder(n, i).contains(y),
        n[i as int].right matches Some(r) ==> forall|y: usize| #[trigger] preorder(n, r).contains(y) ==> preorder(n, i).contains(y),
{
    assert(node_ok(n, fam, i as int));
    let ml = n[i as int].prefix.masklen;
    let ls = match n[i as int].left {
        Some(l) => if (l as int) < n.len() && ml < n[l as int].prefix.masklen <= 128 { preorder(n, l) } else { Seq::empty() },
        None => Seq::empty(),
    };
    let rs = match n[i as int].right {
        Some(r) => if (r as int) < n.len() && ml < n[r as int].prefix.masklen <= 128 { preorder(n, r) } else { Seq::empty() },
        None => Seq::empty(),
    };
    let s = preorder(n, i);
    assert(s == seq![i] + ls + rs);
    assert(s[0] == i);
    if let Some(l) = n[i as int].left {
        assert(node_ok(n, fam, l as int));
        assert(ls == preorder(n, l));
        assert forall|y: usize| #[trigger] preorder(n, l).contains(y) implies s.contains(y) by {
            let k = choose|k: int| 0 <= k < ls.len() && ls[k] == y;
            assert(s[1 + k] == y);
        }
    }
    if let Some(r) = n[i as int].right {
        assert(node_ok(n, fam, r as int));
        assert(rs == preorder(n, r));
        assert forall|y: usize| #[trigger] preorder(n, r).contains(y) implies s.contains(y) by {
            let k = choose|k: int| 0 <= k < rs.len() && rs[k] == y;
            assert(s[1 + ls.len() + k] == y);
        }
    }
}

/// Every node of a subtree agrees with the subtree's root on the root's mask.
proof fn lemma_subtree_agree(n: Seq<RadixNode>, fam: u8, c: usize, y: usize)
    requires
        forall|i: int| 0 <= i < n.len() ==> #[trigger] node_ok(n, fam, i),
        (c as int) < n.len(),
        preorder(n, c).contains(y),
    ensures
        agree(n[y as int].prefix.addrs@, n[c as int].prefix.addrs@, n[c as int].prefix.masklen as int),
    decreases 129 - n[c as int].prefix.masklen,
{
    lemma_preorder_members(n, fam, c);
    assert(node_ok(n, fam, c as int));
    let cml = n[c as int].prefix.masklen as int;
    let in_left = match n[c as int].left {
        Some(l) => preorder(n, l).contains(y),
        None => false,
    };
    if y == c {
        reveal(agree);
    } else if in_left {
        let l = n[c as int].left->0;
        assert(node_ok(n, fam, l as int));
        lemma_subtree_agree(n, fam, l, y);
        lemma_agree_shorter(n[y as int].prefix.addrs@, n[l as int].prefix.addrs@, n[l as int].prefix.masklen as int, cml);
        lemma_agree_trans(n[y as int].prefix.addrs@, n[l as int].prefix.addrs@, n[c as int].prefix.addrs@, cml);
    } else {
        let r = n[c as int].right->0;
        assert(node_ok(n, fam, r as int));
        lemma_subtree_agree(n, fam, r, y);
        lemma_agree_shorter(n[y as int].prefix.addrs@, n[r as int].prefix.addrs@, n[r as int].prefix.masklen as int, cml);
        lemma_agree_trans(n[y as int].prefix.addrs@, n[r as int].prefix.addrs@, n[c as int].prefix.addrs@, cml);
    }
}

/// The two subtrees of a node share no node, and neither holds the node.
proof fn lemma_subtrees_apart(n: Seq<RadixNode>, fam: u8, i: usize)
    requires
        forall|k: int| 0 <= k < n.len() ==> #[trigger] node_ok(n, fam, k),
        (i as int) < n.len(),
    ensures
        n[i as int].left matches Some(l) ==> !preorder(n, l).contains(i),
        n[i as int].right matches Some(r) ==> !preorder(n, r).contains(i),
        n[i as int].left matches Some(l) ==> (n[i as int].right matches Some(r) ==> forall|y: usize|
            !(#[trigger] preorder(n, l).contains(y) && preorder(n, r).contains(y))),
{
    assert(node_ok(n, fam, i as int));
    let iml = n[i as int].prefix.masklen as int;
    if let Some(l) = n[i as int].left {
        lemma_preorder_members(n, fam, l);
        assert(node_ok(n, fam, l as int));
    }
    if let Some(r) = n[i as int].right {
        lemma_preorder_members(n, fam, r);
        assert(node_ok(n, fam, r as int));
    }
    if let Some(l) = n[i as int].left {
        if let Some(r) = n[i as int].right {
            assert forall|y: usize| !(#[trigger] preorder(n, l).contains(y) && preorder(n, r).contains(y)) by {
                if preorder(n, l).contains(y) && preorder(n, r).contains(y) {
                    lemma_subtree_agree(n, fam, l, y);
                    lemma_subtree_agree(n, fam, r, y);
                    lemma_agree_bit(n[y as int].prefix.addrs@, n[l as int].prefix.addrs@, n[l as int].prefix.masklen as int, iml + 1);
                    lemma_agree_bit(n[y as int].prefix.addrs@, n[r as int].prefix.addrs@, n[r as int].prefix.masklen as int, iml + 1);
                }
            }
        }
    }
}

/// The refine pass from `idx` changes flags on the walk from `idx` alone,
/// and every node it turns glue hangs below a parent on that walk which
/// it leaves a visible aggregate covering the node's length.
proof fn lemma_refine_pass(n: Seq<RadixNode>, fam: u8, idx: usize, refine: u32)
    requires
        forall|i: int| 0 <= i < n.len() ==> #[trigger] node_ok(n, fam, i),
        (idx as int) < n.len(),
    ensures
        pass_ok(n, refine_nodes(n, idx, n[idx as int].prefix.masklen, refine), preorder(n, idx).to_set(),
            preorder(n, idx).to_set(), refine_cover()),
    decreases 129 - n[idx as int].prefix.masklen, 1int,
{
    let cov = refine_cover();
    let s = preorder(n, idx).to_set();
    let nd = n[idx as int];
    let ml = nd.prefix.masklen;
    assert(node_ok(n, fam, idx as int));
    lemma_preorder_sub(n, fam, idx);
    lemma_subtrees_apart(n, fam, idx);
    if let Some(l) = nd.left { assert(node_ok(n, fam, l as int)); lemma_preorder_sub(n, fam, l); }
    if let Some(r) = nd.right { assert(node_ok(n, fam, r as int)); lemma_preorder_sub(n, fam, r); }
    let lok = nd.left is Some;
    let rok = nd.right is Some;
    let l = nd.left->0;
    let r = nd.right->0;
    let pl = if lok { preorder(n, l).to_set() } else { Set::<usize>::empty() };
    let pr = if rok { preorder(n, r).to_set() } else { Set::<usize>::empty() };
    let m = refine_nodes(n, idx, ml, refine);
    if !nd.is_glue && ml < refine {
        let x = RadixNode { is_aggregate: true, aggregate_low: ml, aggregate_hi: refine, ..nd };
        let n1 = n.update(idx as int, x);
        lemma_set_step(n, idx, x, cov);
        let w1 = set![idx];
        let q1 = Set::<usize>::empty();
        let n2 = if lok { refine_nodes(glue_upto(n1, l, refine), l, n[l as int].prefix.masklen, refine) } else { n1 };
        let w2 = if lok { w1 + set![l] + pl } else { w1 };
        let q2 = if lok { q1 + set![idx] + pl } else { q1 };
        if lok {
            lemma_refine_child(n, fam, n1, w1, q1, idx, l, true, refine);
        }
        assert(pass_ok(n, n2, w2, q2, cov));
        assert(n2[idx as int] == x);
        if rok {
            lemma_refine_child(n, fam, n2, w2, q2, idx, r, true, refine);
            lemma_pass_weaken(n, m, w2 + set![r] + pr, q2 + set![idx] + pr, s, s, cov);
        } else {
            lemma_pass_weaken(n, m, w2, q2, s, s, cov);
        }
    } else if !nd.is_glue && ml == refine {
        lemma_pass_refl(n, cov);
        let n2 = if lok { refine_nodes(n, l, n[l as int].prefix.masklen, refine) } else { n };
        let w2 = if lok { Set::<usize>::empty() + set![l] + pl } else { Set::<usize>::empty() };
        let q2 = if lok { Set::<usize>::empty() + set![idx] + pl } else { Set::<usize>::empty() };
        if lok {
            lemma_refine_child(n, fam, n, Set::empty(), Set::empty(), idx, l, false, refine);
        }
        if rok {
            lemma_refine_child(n, fam, n2, w2, q2, idx, r, false, refine);
            lemma_pass_weaken(n, m, w2 + set![r] + pr, q2 + set![idx] + pr, s, s, cov);
        } else {
            lemma_pass_weaken(n, m, w2, q2, s, s, cov);
        }
    } else if nd.is_glue {
        lemma_pass_refl(n, cov);
        let n2 = if rok { refine_nodes(n, r, n[r as int].prefix.masklen, refine) } else { n };
        let w2 = if rok { Set::<usize>::empty() + set![r] + pr } else { Set::<usize>::empty() };
        let q2 = if rok { Set::<usize>::empty() + set![idx] + pr } else { Set::<usize>::empty() };
        if rok {
            lemma_refine_child(n, fam, n, Set::empty(), Set::empty(), idx, r, false, refine);
        }
        if lok {
            lemma_refine_child(n, fam, n2, w2, q2, idx, l, false, refine);
            lemma_pass_weaken(n, m, w2 + set![l] + pl, q2 + set![idx] + pl, s, s, cov);
        } else {
            lemma_pass_weaken(n, m, w2, q2, s, s, cov);
        }
    } else {
        lemma_pass_refl(n, cov);
        lemma_pass_weaken(n, m, Set::empty(), Set::empty(), s, s, cov);
    }
}

/// One child step of the refine pass from `idx`: optionally turn child `c`
/// glue, then run the pass from `c`.
proof fn lemma_refine_child(n: Seq<RadixNode>, fam: u8, a: Seq<RadixNode>, w: Set<usize>, q: Set<usize>, idx: usize,
    c: usize, glue: bool, refine: u32)
    requires
        forall|i: int| 0 <= i < n.len() ==> #[trigger] node_ok(n, fam, i),
        (idx as int) < n.len(),
        n[idx as int].left == Some(c) || n[idx as int].right == Some(c),
        pass_ok(n, a, w, q, refine_cover()),
        forall|y: usize| #[trigger] q.contains(y) ==> !preorder(n, c).contains(y),
        glue && n[c as int].prefix.masklen <= refine ==> refine_cover()(a[idx as int], n[c as int].prefix.masklen),
    ensures
        pass_ok(n, refine_nodes(if glue { glue_upto(a, c, refine) } else { a }, c, n[c as int].prefix.masklen, refine),
            w + set![c] + preorder(n, c).to_set(), q + set![idx] + preorder(n, c).to_set(), refine_cover()),
        refine_nodes(if glue { glue_upto(a, c, refine) } else { a }, c, n[c as int].prefix.masklen, refine)[idx as int]
            == a[idx as int],
    decreases 129 - n[idx as int].prefix.masklen, 0int,
{
    let cov = refine_cover();
    assert(node_ok(n, fam, idx as int));
    assert(node_ok(n, fam, c as int));
    lemma_preorder_members(n, fam, c);
    lemma_preorder_sub(n, fam, c);
    let a2 = if glue { glue_upto(a, c, refine) } else { a };
    assert(a[c as int].prefix == n[c as int].prefix);
    assert(a[c as int].parent == n[c as int].parent);
    lemma_glue_step(a, c, refine, idx, glue, cov);
    lemma_pass_compose(n, a, a2, w, q, set![c], set![idx], cov);
    lemma_links_node_ok(n, a2, fam);
    lemma_shape_preorder(n, a2, fam, c);
    assert(a2[c as int].prefix == n[c as int].prefix);
    lemma_refine_pass(a2, fam, c, refine);
    let b = refine_nodes(a2, c, n[c as int].prefix.masklen, refine);
    assert(!preorder(n, c).contains(idx));
    lemma_pass_compose(n, a2, b, w + set![c], q + set![idx], preorder(n, c).to_set(), preorder(n, c).to_set(), cov);
    assert(b[idx as int] == a2[idx as int]);
}

/// The low refine pass from `idx` changes flags on the walk from `idx`
/// alone, and every node it turns glue is no longer than `low` and hangs
/// below a parent on that walk which it leaves a visible aggregate from
/// `low`.
proof fn lemma_low_pass(n: Seq<RadixNode>, fam: u8, idx: usize, low: u32)
    requires
        forall|i: int| 0 <= i < n.len() ==> #[trigger] node_ok(n, fam, i),
        (idx as int) < n.len(),
    ensures
        pass_ok(n, low_nodes(n, idx, n[idx as int].prefix.masklen, low), preorder(n, idx).to_set(),
            preorder(n, idx).to_set(), low_cover(low)),
    decreases 129 - n[idx as int].prefix.masklen, 1int,
{
    let cov = low_cover(low);
    let s = preorder(n, idx).to_set();
    let nd = n[idx as int];
    let ml = nd.prefix.masklen;
    assert(node_ok(n, fam, idx as int));
    lemma_preorder_sub(n, fam, idx);
    lemma_subtrees_apart(n, fam, idx);
    if let Some(l) = nd.left { assert(node_ok(n, fam, l as int)); lemma_preorder_sub(n, fam, l); }
    if let Some(r) = nd.right { assert(node_ok(n, fam, r as int)); lemma_preorder_sub(n, fam, r); }
    let lok = nd.left is Some;
    let rok = nd.right is Some;
    let l = nd.left->0;
    let r = nd.right->0;
    let pl = if lok { preorder(n, l).to_set() } else { Set::<usize>::empty() };
    let pr = if rok { preorder(n, r).to_set() } else { Set::<usize>::empty() };
    let m = low_nodes(n, idx, ml, low);
    if !nd.is_glue && ml <= low {
        let x = if !nd.is_aggregate {
            RadixNode {
                is_aggregate: true,
                aggregate_low: low,
                aggregate_hi: if nd.prefix.family == 2 { 32 } else { 128 },
                ..nd
            }
        } else {
            RadixNode { aggregate_low: low, ..nd }
        };
        let n1 = n.update(idx as int, x);
        lemma_set_step(n, idx, x, cov);
        let w1 = set![idx];
        let q1 = Set::<usize>::empty();
        let n2 = if lok { low_nodes(glue_upto(n1, l, low), l, n[l as int].prefix.masklen, low) } else { n1 };
        let w2 = if lok { w1 + set![l] + pl } else { w1 };
        let q2 = if lok { q1 + set![idx] + pl } else { q1 };
        if lok {
            lemma_low_child(n, fam, n1, w1, q1, idx, l, true, low);
        }
        assert(pass_ok(n, n2, w2, q2, cov));
        assert(n2[idx as int] == x);
        if rok {
            lemma_low_child(n, fam, n2, w2, q2, idx, r, true, low);
            lemma_pass_weaken(n, m, w2 + set![r] + pr, q2 + set![idx] + pr, s, s, cov);
        } else {
            lemma_pass_weaken(n, m, w2, q2, s, s, cov);
        }
    } else if nd.is_glue {
        lemma_pass_refl(n, cov);
        let n2 = if rok { low_nodes(n, r, n[r as int].prefix.masklen, low) } else { n };
        let w2 = if rok { Set::<usize>::empty() + set![r] + pr } else { Set::<usize>::empty() };
        let q2 = if rok { Set::<usize>::empty() + set![idx] + pr } else { Set::<usize>::empty() };
        if rok {
            lemma_low_child(n, fam, n, Set::empty(), Set::empty(), idx, r, false, low);
        }
        if lok {
            lemma_low_child(n, fam, n2, w2, q2, idx, l, false, low);
            lemma_pass_weaken(n, m, w2 + set![l] + pl, q2 + set![idx] + pl, s, s, cov);
        } else {
            lemma_pass_weaken(n, m, w2, q2, s, s, cov);
        }
    } else {
        lemma_pass_refl(n, cov);
        lemma_pass_weaken(n, m, Set::empty(), Set::empty(), s, s, cov);
    }
}

/// One child step of the low refine pass from `idx`: optionally turn child
/// `c` glue, then run the pass from `c`.
proof fn lemma_low_child(n: Seq<RadixNode>, fam: u8, a: Seq<RadixNode>, w: Set<usize>, q: Set<usize>, idx: usize,
    c: usize, glue: bool, low: u32)
    requires
        forall|i: int| 0 <= i < n.len() ==> #[trigger] node_ok(n, fam, i),
        (idx as int) < n.len(),
        n[idx as int].left == Some(c) || n[idx as int].right == Some(c),
        pass_ok(n, a, w, q, low_cover(low)),
        forall|y: usize| #[trigger] q.contains(y) ==> !preorder(n, c).contains(y),
        glue && n[c as int].prefix.masklen <= low ==> low_cover(low)(a[idx as int], n[c as int].prefix.masklen),
    ensures
        pass_ok(n, low_nodes(if glue { glue_upto(a, c, low) } else { a }, c, n[c as int].prefix.masklen, low),
            w + set![c] + preorder(n, c).to_set(), q + set![idx] + preorder(n, c).to_set(), low_cover(low)),
        low_nodes(if glue { glue_upto(a, c, low) } else { a }, c, n[c as int].prefix.masklen, low)[idx as int]
            == a[idx as int],
    decreases 129 - n[idx as int].prefix.masklen, 0int,
{
    let cov = low_cover(low);
    assert(node_ok(n, fam, idx as int));
    assert(node_ok(n, fam, c as int));
    lemma_preorder_members(n, fam, c);
    lemma_preorder_sub(n, fam, c);
    let a2 = if glue { glue_upto(a, c, low) } else { a };
    assert(a[c as int].prefix == n[c as int].prefix);
    assert(a[c as int].parent == n[c as int].parent);
    lemma_glue_step(a, c, low, idx, glue, cov);
    lemma_pass_compose(n, a, a2, w, q, set![c], set![idx], cov);
    lemma_links_node_ok(n, a2, fam);
    lemma_shape_preorder(n, a2, fam, c);
    assert(a2[c as int].prefix == n[c as int].prefix);
    lemma_low_pass(a2, fam, c, low);
    let b = low_nodes(a2, c, n[c as int].prefix.masklen, low);
    assert(!preorder(n, c).contains(idx));
    lemma_pass_compose(n, a2, b, w + set![c], q + set![idx], preorder(n, c).to_set(), preorder(n, c).to_set(), cov);
    assert(b[idx as int] == a2[idx as int]);
}

/// Every node changed as `refine_step` allows.
pub open spec fn refine_steps(a: Seq<RadixNode>, b: Seq<RadixNode>, refine: u32) -> bool {
    &&& a.len() == b.len()
    &&& forall|j: int| 0 <= j < a.len() ==> refine_step(#[trigger] a[j], b[j], refine)
}

/// After refining: node `p`, when visible and shorter than `refine`, is an
/// aggregate from its length to `refine`, and its children no longer than
/// `refine` are glue.
pub open spec fn refined_at(nodes: Seq<RadixNode>, p: int, refine: u32) -> bool {
    let n = nodes[p];
    !n.is_glue && n.prefix.masklen < refine ==> {
        &&& n.is_aggregate
        &&& n.aggregate_low == n.prefix.masklen
        &&& n.aggregate_hi == refine
        &&& (n.left matches Some(l) ==> ((l as int) < nodes.len() && nodes[l as int].prefix.masklen <= refine
            ==> nodes[l as int].is_glue))
        &&& (n.right matches Some(r) ==> ((r as int) < nodes.len() && nodes[r as int].prefix.masklen <= refine
            ==> nodes[r as int].is_glue))
    }
}

proof fn lemma_refine_steps_trans(a: Seq<RadixNode>, b: Seq<RadixNode>, c: Seq<RadixNode>, refine: u32)
    requires
        refine_steps(a, b, refine),
        refine_steps(b, c, refine),
    ensures
        refine_steps(a, c, refine),
{
    assert forall|j: int| 0 <= j < a.len() implies refine_step(#[trigger] a[j], c[j], refine) by {
        assert(refine_step(a[j], b[j], refine));
        assert(refine_step(b[j], c[j], refine));
    }
}

proof fn lemma_refine_steps_refl(a: Seq<RadixNode>, refine: u32)
    ensures
        refine_steps(a, a, refine),
{
    assert forall|j: int| 0 <= j < a.len() implies refine_step(#[trigger] a[j], a[j], refine) by {}
}

/// What refining established at a node survives further refine steps.
proof fn lemma_refined_stable(a: Seq<RadixNode>, b: Seq<RadixNode>, p: int, refine: u32)
    requires
        refine_steps(a, b, refine),
        0 <= p < a.len(),
        refined_at(a, p, refine),
    ensures
        refined_at(b, p, refine),
{
    assert(refine_step(a[p], b[p], refine));
    if let Some(l) = a[p].left {
        if (l as int) < a.len() {
            assert(refine_step(a[l as int], b[l as int], refine));
        }
    }
    if let Some(r) = a[p].right {
        if (r as int) < a.len() {
            assert(refine_step(a[r as int], b[r as int], refine));
        }
    }
}

/// What a low-refine pass may do to one node: turn glue on for a node no
/// longer than `low`, or make a visible node no longer than `low` an
/// aggregate from `low` (keeping the upper bound of an aggregate, else up
/// to the full length); nothing else changes.
pub open spec fn low_step(x: RadixNode, y: RadixNode, low: u32) -> bool {
    &&& y.prefix == x.prefix
    &&& y.parent == x.parent
    &&& y.left == x.left
    &&& y.right == x.right
    &&& y.son == x.son
    &&& (y.is_glue == x.is_glue || (!x.is_glue && y.is_glue && x.prefix.masklen <= low))
    &&& ((y.is_aggregate == x.is_aggregate && y.aggregate_low == x.aggregate_low && y.aggregate_hi == x.aggregate_hi)
        || (!x.is_glue && x.prefix.masklen <= low && y.is_aggregate && y.aggregate_low == low
            && y.aggregate_hi == (if x.is_aggregate { x.aggregate_hi as nat } else { max_bits(x.prefix.family) })))
}

/// Every node changed as `low_step` allows.
pub open spec fn low_steps(a: Seq<RadixNode>, b: Seq<RadixNode>, low: u32) -> bool {
    &&& a.len() == b.len()
    &&& forall|j: int| 0 <= j < a.len() ==> low_step(#[trigger] a[j], b[j], low)
}

/// After a low refine: node `p`, when visible and no longer than `low`, is
/// an aggregate from `low`, and its children no longer than `low` are glue.
pub open spec fn low_refined_at(nodes: Seq<RadixNode>, p: int, low: u32) -> bool {
    let n = nodes[p];
    !n.is_glue && n.prefix.masklen <= low ==> {
        &&& n.is_aggregate
        &&& n.aggregate_low == low
        &&& (n.left matches Some(l) ==> ((l as int) < nodes.len() && nodes[l as int].prefix.masklen <= low
            ==> nodes[l as int].is_glue))
        &&& (n.right matches Some(r) ==> ((r as int) < nodes.len() && nodes[r as int].prefix.masklen <= low
            ==> nodes[r as int].is_glue))
    }
}

proof fn lemma_low_steps_trans(a: Seq<RadixNode>, b: Seq<RadixNode>, c: Seq<RadixNode>, low: u32)
    requires
        low_steps(a, b, low),
        low_steps(b, c, low),
    ensures
        low_steps(a, c, low),
{
    assert forall|j: int| 0 <= j < a.len() implies low_step(#[trigger] a[j], c[j], low) by {
        assert(low_step(a[j], b[j], low));
        assert(low_step(b[j], c[j], low));
    }
}

proof fn lemma_low_steps_refl(a: Seq<RadixNode>, low: u32)
    ensures
        low_steps(a, a, low),
{
    assert forall|j: int| 0 <= j < a.len() implies low_step(#[trigger] a[j], a[j], low) by {}
}

proof fn lemma_low_refined_all_stable(a: Seq<RadixNode>, b: Seq<RadixNode>, s: Seq<usize>, low: u32)
    requires
        low_steps(a, b, low),
        forall|j: usize| #[trigger] s.contains(j) ==> (j as int) < a.len() && low_refined_at(a, j as int, low),
    ensures
        forall|j: usize| #[trigger] s.contains(j) ==> low_refined_at(b, j as int, low),
{
    assert forall|j: usize| #[trigger] s.contains(j) implies low_refined_at(b, j as int, low) by {
        let p = j as int;
        assert(low_step(a[p], b[p], low));
        if let Some(l) = a[p].left {
            if (l as int) < a.len() {
                assert(low_step(a[l as int], b[l as int], low));
            }
        }
        if let Some(r) = a[p].right {
            if (r as int) < a.len() {
                assert(low_step(a[r as int], b[r as int], low));
            }
        }
    }
}

/// What refining established along a list of nodes survives further
/// refine steps.
proof fn lemma_refined_all_stable(a: Seq<RadixNode>, b: Seq<RadixNode>, s: Seq<usize>, refine: u32)
    requires
        refine_steps(a, b, refine),
        forall|j: usize| #[trigger] s.contains(j) ==> (j as int) < a.len() && refined_at(a, j as int, refine),
    ensures
        forall|j: usize| #[trigger] s.contains(j) ==> refined_at(b, j as int, refine),
{
    assert forall|j: usize| #[trigger] s.contains(j) implies refined_at(b, j as int, refine) by {
        lemma_refined_stable(a, b, j as int, refine);
    }
}

/// Every node of the walk from `i` is in range and no shorter than `i`;
/// it is `i` or in the walk from one of `i`'s children.
proof fn lemma_preorder_members(nodes: Seq<RadixNode>, fam: u8, i: usize)
    requires
        forall|j: int| 0 <= j < nodes.len() ==> #[trigger] node_ok(nodes, fam, j),
        (i as int) < nodes.len(),
    ensures
        forall|j: usize| #[trigger] preorder(nodes, i).contains(j) ==> {
            &&& (j as int) < nodes.len()
            &&& nodes[j as int].prefix.masklen >= nodes[i as int].prefix.masklen
            &&& (j == i
                || (nodes[i as int].left matches Some(l) && preorder(nodes, l).contains(j))
                || (nodes[i as int].right matches Some(r) && preorder(nodes, r).contains(j)))
        },
    decreases 129 - nodes[i as int].prefix.masklen,
{
    assert(node_ok(nodes, fam, i as int));
    let ml = nodes[i as int].prefix.masklen;
    let ls = match nodes[i as int].left {
        Some(l) => if (l as int) < nodes.len() && ml < nodes[l as int].prefix.masklen <= 128 { preorder(nodes, l) } else { Seq::empty() },
        None => Seq::empty(),
    };
    let rs = match nodes[i as int].right {
        Some(r) => if (r as int) < nodes.len() && ml < nodes[r as int].prefix.masklen <= 128 { preorder(nodes, r) } else { Seq::empty() },
        None => Seq::empty(),
    };
    assert(max_bits(fam) <= 128);
    assert(preorder(nodes, i) == seq![i] + ls + rs);
    if let Some(l) = nodes[i as int].left {
        assert(node_ok(nodes, fam, l as int));
        lemma_preorder_members(nodes, fam, l);
    }
    if let Some(r) = nodes[i as int].right {
        assert(node_ok(nodes, fam, r as int));
        lemma_preorder_members(nodes, fam, r);
    }
    assert forall|j: usize| #[trigger] preorder(nodes, i).contains(j) implies {
        &&& (j as int) < nodes.len()
        &&& nodes[j as int].prefix.masklen >= nodes[i as int].prefix.masklen
        &&& (j == i
            || (nodes[i as int].left matches Some(l) && preorder(nodes, l).contains(j))
            || (nodes[i as int].right matches Some(r) && preorder(nodes, r).contains(j)))
    } by {
        let k = choose|k: int| 0 <= k < preorder(nodes, i).len() && preorder(nodes, i)[k] == j;
        if k == 0 {
        } else if k < 1 + ls.len() {
            assert(ls[k - 1] == j);
            assert(ls.contains(j));
        } else {
            assert(rs[k - 1 - ls.len()] == j);
            assert(rs.contains(j));
        }
    }
}

/// The arena keeps its length, every prefix, tree link and son link:
/// only the flags may differ.
pub open spec fn same_links(old: Seq<RadixNode>, new: Seq<RadixNode>) -> bool {
    &&& old.len() == new.len()
    &&& same_shape(old, new)
    &&& forall|j: int| 0 <= j < old.len() ==> #[trigger] new[j].son == old[j].son
}

proof fn lemma_links_trans(a: Seq<RadixNode>, b: Seq<RadixNode>, c: Seq<RadixNode>)
    requires
        same_links(a, b),
        same_links(b, c),
    ensures
        same_links(a, c),
{
    lemma_shape_trans(a, b, c);
    assert forall|j: int| 0 <= j < a.len() implies #[trigger] c[j].son == a[j].son by {
        assert(b[j].son == a[j].son);
        assert(c[j].son == b[j].son);
    }
}

/// Changing flags and son links and appending detached nodes keeps the
/// tree well formed and its walk unchanged.
proof fn lemma_shape_wf(n0: Seq<RadixNode>, n1: Seq<RadixNode>, fam: u8, head: Option<usize>)
    requires
        tree_wf(n0, fam, head),
        same_shape(n0, n1),
        forall|j: int| 0 <= j < n1.len() ==> idx_ok(n1, #[trigger] n1[j].son),
        detached_from(n1, fam, n0.len() as int),
    ensures
        tree_wf(n1, fam, head),
        walk(n1, head) == walk(n0, head),
{
    assert forall|i: int| 0 <= i < n1.len() implies #[trigger] node_ok(n1, fam, i) by {
        assert(idx_ok(n1, n1[i].son));
        if i < n0.len() {
            assert(node_ok(n0, fam, i));
            assert(n1[i].prefix == n0[i].prefix);
            if let Some(l) = n0[i].left { assert(n1[l as int].prefix == n0[l as int].prefix); }
            if let Some(r) = n0[i].right { assert(n1[r as int].prefix == n0[r as int].prefix); }
            if let Some(q) = n0[i].parent { assert(n1[q as int].prefix == n0[q as int].prefix); }
        }
    }
    if let Some(h) = head {
        assert(n1[h as int].prefix == n0[h as int].prefix);
        lemma_shape_preorder(n0, n1, fam, h);
    }
}

/// Node `n` turned into glue.
pub open spec fn glued(n: RadixNode) -> RadixNode {
    RadixNode { is_glue: true, ..n }
}

/// A detached, non-glue node of `prefix` that is an aggregate `lo..hi`.
pub open spec fn agg_node(prefix: SxPrefix, lo: u32, hi: u32) -> RadixNode {
    RadixNode { is_aggregate: true, aggregate_low: lo, aggregate_hi: hi, ..RadixNode::fresh(prefix) }
}

/// The merge step at node `idx` with children `l` and `r`:
/// - two plain (neither glue nor aggregate) children of equal length: when
///   they are one bit longer than `idx`, `idx` becomes a non-glue aggregate
///   from its own length (from theirs where it was glue) up to theirs and
///   both children turn into glue; if moreover their sons are aggregates
///   with the same range, a new son with that range is appended and
///   shared by both;
/// - two aggregate children one bit longer than `idx` with the same range:
///   both turn into glue and `idx` takes the range over (as a non-glue
///   node where it was glue; from its own length where the range starts at
///   the children's length), or else gets a new son with that range;
/// - anything else changes nothing.
pub open spec fn pair_result(n: Seq<RadixNode>, idx: int, l: int, r: int) -> Seq<RadixNode> {
    let nd = n[idx];
    let ln = n[l];
    let rn = n[r];
    let ml = nd.prefix.masklen;
    let lml = ln.prefix.masklen;
    let rml = rn.prefix.masklen;
    if !rn.is_aggregate && !ln.is_aggregate && !rn.is_glue && !ln.is_glue && rml == lml {
        let n1 = if rml == ml + 1 {
            n.update(idx, RadixNode {
                is_aggregate: true,
                is_glue: false,
                aggregate_hi: rml,
                aggregate_low: if nd.is_glue { rml } else { ml },
                ..nd
            }).update(r, glued(rn)).update(l, glued(ln))
        } else {
            n
        };
        match (ln.son, rn.son) {
            (Some(ls), Some(rs)) => if n1[ls as int].is_aggregate && n1[rs as int].is_aggregate
                && n1[ls as int].aggregate_hi == n1[rs as int].aggregate_hi
                && n1[ls as int].aggregate_low == n1[rs as int].aggregate_low
                && rml == ml + 1 {
                let s = n1.len() as usize;
                n1.push(agg_node(nd.prefix, n1[rs as int].aggregate_low, n1[rs as int].aggregate_hi))
                    .update(r, RadixNode { son: Some(s), is_glue: true, ..n1[r] })
                    .update(l, RadixNode { son: Some(s), is_glue: true, ..n1[l] })
            } else {
                n1
            },
            _ => n1,
        }
    } else if rn.is_aggregate && ln.is_aggregate && rn.aggregate_hi == ln.aggregate_hi
        && rn.aggregate_low == ln.aggregate_low && rml == ml + 1 && lml == ml + 1 {
        let n1 = n.update(r, glued(rn)).update(l, glued(ln));
        if nd.is_glue {
            n1.update(idx, RadixNode {
                is_aggregate: true,
                is_glue: false,
                aggregate_hi: rn.aggregate_hi,
                aggregate_low: rn.aggregate_low,
                ..nd
            })
        } else if rml == rn.aggregate_low {
            n1.update(idx, RadixNode { is_aggregate: true, aggregate_hi: rn.aggregate_hi, aggregate_low: ml, ..nd })
        } else {
            n1.push(agg_node(nd.prefix, rn.aggregate_low, rn.aggregate_hi))
                .update(idx, RadixNode { son: Some(n.len() as usize), ..nd })
        }
    } else {
        n
    }
}

/// Whether visible node `x` lets prefixes of length `len` under it
/// through: an aggregate every length of its range from its own length
/// on, a plain node its own length alone.
pub open spec fn lets_through(x: RadixNode, len: int) -> bool {
    &&& !x.is_glue
    &&& if x.is_aggregate {
        x.prefix.masklen <= len && x.aggregate_low <= len && len <= x.aggregate_hi
    } else {
        len == x.prefix.masklen
    }
}

/// A merge step loses nothing: every length that a node of the step (the
/// parent, not yet an aggregate, and its two children, whose aggregates
/// have a low bound no higher than their high bound) let through is let
/// through afterwards by a visible node of that node's prefix or of the
/// parent's prefix; every other node stays as it was.
pub proof fn lemma_pair_keeps_permitted(n: Seq<RadixNode>, idx: int, l: int, r: int)
    requires
        0 <= idx < n.len(),
        0 <= l < n.len(),
        0 <= r < n.len(),
        idx != l,
        idx != r,
        l != r,
        !n[idx].is_aggregate,
        n[l].is_aggregate ==> n[l].aggregate_low <= n[l].aggregate_hi,
        n[r].is_aggregate ==> n[r].aggregate_low <= n[r].aggregate_hi,
    ensures
        n.len() <= pair_result(n, idx, l, r).len(),
        forall|j: int| 0 <= j < n.len() && j != idx && j != l && j != r ==> #[trigger] pair_result(n, idx, l, r)[j] == n[j],
        forall|j: int, len: int| (j == idx || j == l || j == r) && #[trigger] lets_through(n[j], len) ==> exists|k: int|
            0 <= k < pair_result(n, idx, l, r).len() && #[trigger] lets_through(pair_result(n, idx, l, r)[k], len)
                && (pair_result(n, idx, l, r)[k].prefix == n[j].prefix || pair_result(n, idx, l, r)[k].prefix == n[idx].prefix),
{
    let m = pair_result(n, idx, l, r);
    let nd = n[idx];
    let ln = n[l];
    let rn = n[r];
    let ml = nd.prefix.masklen;
    let rml = rn.prefix.masklen;
    let lml = ln.prefix.masklen;
    let plain = !rn.is_aggregate && !ln.is_aggregate && !rn.is_glue && !ln.is_glue && rml == lml;
    let both = rn.is_aggregate && ln.is_aggregate && rn.aggregate_hi == ln.aggregate_hi
        && rn.aggregate_low == ln.aggregate_low && rml == ml + 1 && lml == ml + 1;
    assert forall|j: int, len: int| (j == idx || j == l || j == r) && #[trigger] lets_through(n[j], len) implies exists|k: int|
        0 <= k < m.len() && #[trigger] lets_through(m[k], len) && (m[k].prefix == n[j].prefix || m[k].prefix == n[idx].prefix) by {
        if plain && rml == ml + 1 {
            assert(m[idx].prefix == nd.prefix);
            assert(lets_through(m[idx], len));
        } else if plain {
            assert(m[j] == n[j]);
        } else if both {
            if j == idx {
                if nd.is_glue {
                    assert(false);
                } else if rml == rn.aggregate_low {
                    assert(lets_through(m[idx], len));
                } else {
                    assert(m[idx].is_glue == nd.is_glue && m[idx].is_aggregate == nd.is_aggregate);
                    assert(lets_through(m[idx], len));
                }
            } else if nd.is_glue || rml == rn.aggregate_low {
                assert(m[idx].prefix == nd.prefix);
                assert(lets_through(m[idx], len));
            } else {
                let s = n.len() as int;
                assert(m[s] == agg_node(nd.prefix, rn.aggregate_low, rn.aggregate_hi));
                assert(lets_through(m[s], len));
            }
        } else {
            assert(m[j] == n[j]);
        }
    }
}

/// The arena after the merge step (`pair_result`) has been applied to
/// every node with two children in the subtree of `idx` (whose mask length
/// is `ml`), children before their parent and the left subtree first.
pub open spec fn agg_nodes(n: Seq<RadixNode>, idx: usize, ml: u32) -> Seq<RadixNode>
    decreases 129 - ml,
{
    if (idx as int) < n.len() && ml <= 128 {
        let left = n[idx as int].left;
        let right = n[idx as int].right;
        let n1 = match left {
            Some(l) => if (l as int) < n.len() && ml < n[l as int].prefix.masklen <= 128 {
                agg_nodes(n, l, n[l as int].prefix.masklen)
            } else {
                n
            },
            None => n,
        };
        let n2 = match right {
            Some(r) => if (r as int) < n.len() && ml < n[r as int].prefix.masklen <= 128 {
                agg_nodes(n1, r, n[r as int].prefix.masklen)
            } else {
                n1
            },
            None => n1,
        };
        match (left, right) {
            (Some(l), Some(r)) => pair_result(n2, idx as int, l as int, r as int),
            _ => n2,
        }
    } else {
        n
    }
}

/// `new` extends `old`: every old node keeps its prefix and tree links and
/// the nodes appended after it are detached nodes of the family.
pub open spec fn grown(old: Seq<RadixNode>, new: Seq<RadixNode>, family: u8) -> bool {
    &&& same_shape(old, new)
    &&& detached_from(new, family, old.len() as int)
}

proof fn lemma_grown_trans(a: Seq<RadixNode>, b: Seq<RadixNode>, c: Seq<RadixNode>, fam: u8)
    requires
        grown(a, b, fam),
        grown(b, c, fam),
    ensures
        grown(a, c, fam),
{
    lemma_shape_trans(a, b, c);
    assert forall|j: int| a.len() <= j < c.len() implies {
        &&& (#[trigger] c[j]).parent is None
        &&& c[j].left is None
        &&& c[j].right is None
        &&& c[j].prefix.family == fam
        &&& c[j].prefix.masklen <= max_bits(fam)
        &&& c[j].prefix.addrs@.len() == 16
    } by {
        if j < b.len() {
            assert(c[j].prefix == b[j].prefix);
        }
    }
}

/// The sons of a well-formed arena are in range.
proof fn lemma_wf_sons(n: Seq<RadixNode>, fam: u8, head: Option<usize>)
    requires
        tree_wf(n, fam, head),
    ensures
        forall|j: int| 0 <= j < n.len() ==> idx_ok(n, #[trigger] n[j].son),
{
    assert forall|j: int| 0 <= j < n.len() implies idx_ok(n, #[trigger] n[j].son) by {
        assert(node_ok(n, fam, j));
    }
}

/// Every index of a pre-order walk is a node of the arena.
proof fn lemma_preorder_in_range(nodes: Seq<RadixNode>, i: usize)
    ensures
        forall|k: int| 0 <= k < preorder(nodes, i).len() ==> (#[trigger] preorder(nodes, i)[k] as int) < nodes.len(),
    decreases 129 - nodes[i as int].prefix.masklen,
{
    if (i as int) < nodes.len() && nodes[i as int].prefix.masklen <= 128 {
        let ml = nodes[i as int].prefix.masklen;
        let ls = match nodes[i as int].left {
            Some(l) => if (l as int) < nodes.len() && ml < nodes[l as int].prefix.masklen <= 128 {
                preorder(nodes, l)
            } else {
                Seq::empty()
            },
            None => Seq::empty(),
        };
        let rs = match nodes[i as int].right {
            Some(r) => if (r as int) < nodes.len() && ml < nodes[r as int].prefix.masklen <= 128 {
                preorder(nodes, r)
            } else {
                Seq::empty()
            },
            None => Seq::empty(),
        };
        if let Some(l) = nodes[i as int].left {
            if (l as int) < nodes.len() && ml < nodes[l as int].prefix.masklen <= 128 {
                lemma_preorder_in_range(nodes, l);
            }
        }
        if let Some(r) = nodes[i as int].right {
            if (r as int) < nodes.len() && ml < nodes[r as int].prefix.masklen <= 128 {
                lemma_preorder_in_range(nodes, r);
            }
        }
        let p = preorder(nodes, i);
        assert(p == seq![i] + ls + rs);
        assert forall|k: int| 0 <= k < p.len() implies (#[trigger] p[k] as int) < nodes.len() by {
            if k == 0 {
            } else if k < 1 + ls.len() {
                assert(p[k] == ls[k - 1]);
            } else {
                assert(p[k] == rs[k - 1 - ls.len()]);
            }
        }
    }
}

pub struct RadixTree {
    pub family: u8,
    pub head: Option<usize>,
    nodes: Vec<RadixNode>,
}

impl RadixTree {
    /// The node arena.
    pub closed spec fn nodes_view(&self) -> Seq<RadixNode> {
        self.nodes@
    }

    /// The arena forms a radix tree of this family.
    pub closed spec fn wf(&self) -> bool {
        tree_wf(self.nodes_view(), self.family, self.head)
    }

    /// The nodes visited from the head, in pre-order.
    pub closed spec fn walk_view(&self) -> Seq<usize> {
        walk(self.nodes_view(), self.head)
    }

    /// The head index.
    pub closed spec fn head_view(&self) -> Option<usize> {
        self.head
    }

    /// The address family.
    pub closed spec fn family_view(&self) -> u8 {
        self.family
    }

    /// The prefixes the tree lists: (family, mask length, address) of the
    /// non-glue nodes reached from the head.
    pub open spec fn listed(&self) -> Set<(u8, u32, Seq<u8>)> {
        listed_set(self.nodes_view(), self.head_view())
    }

    /// Every node's address has no bit set past its mask.
    pub open spec fn clean_nodes(&self) -> bool {
        all_clean(self.nodes_view())
    }

    /// The walk from the head reaches a non-glue node of family `f` and
    /// mask length `l` that agrees with `b` within the mask.
    pub open spec fn holds(&self, f: u8, l: u32, b: Seq<u8>) -> bool {
        exists|x: usize| #[trigger] self.walk_view().contains(x) && holds_parsed(self.nodes_view(), x, f, l, b)
    }

    /// A new tree lists nothing and is empty.
    pub proof fn lemma_new_lists_nothing(t: RadixTree)
        requires
            t.head_view() is None,
        ensures
            t.listed() == Set::<(u8, u32, Seq<u8>)>::empty(),
    {
        assert(t.listed() =~= Set::<(u8, u32, Seq<u8>)>::empty());
    }

    /// Holding `a/l` is holding every address that agrees with `a` on `l`
    /// bits.
    pub proof fn lemma_holds_agree(t: RadixTree, f: u8, l: u32, a: Seq<u8>, b: Seq<u8>)
        requires
            t.holds(f, l, a),
            agree(a, b, l as int),
        ensures
            t.holds(f, l, b),
    {
        let x = choose|x: usize| #[trigger] t.walk_view().contains(x) && holds_parsed(t.nodes_view(), x, f, l, a);
        lemma_agree_trans(t.nodes_view()[x as int].prefix.addrs@, a, b, l as int);
        assert(holds_parsed(t.nodes_view(), x, f, l, b));
    }

    /// A prefix the tree holds stays held when the nodes keep their data
    /// and the walk keeps its nodes.
    pub proof fn lemma_holds_kept(t0: RadixTree, t1: RadixTree, f: u8, l: u32, b: Seq<u8>)
        requires
            t0.holds(f, l, b),
            keeps_nodes(t0.nodes_view(), t1.nodes_view()),
            forall|x: usize| #[trigger] t0.walk_view().contains(x) ==> t1.walk_view().contains(x),
        ensures
            t1.holds(f, l, b),
    {
        let x = choose|x: usize| #[trigger] t0.walk_view().contains(x) && holds_parsed(t0.nodes_view(), x, f, l, b);
        assert(t1.walk_view().contains(x));
        assert(t1.nodes_view()[x as int].prefix == t0.nodes_view()[x as int].prefix);
    }

    pub fn new(family: u8) -> (t: RadixTree)
        ensures
            t.family_view() == family,
            t.head_view() is None,
            t.nodes_view() == Seq::<RadixNode>::empty(),
            t.wf(),
            t.clean_nodes(),
    {
        let t = RadixTree { family, head: None, nodes: Vec::new() };
        assert(t.nodes@ =~= Seq::<RadixNode>::empty());
        t
    }

    /// Number of nodes in the arena (visible or not).
    pub fn len(&self) -> (n: usize)
        ensures
            n == self.nodes_view().len(),
    {
        self.nodes.len()
    }

    /// A node of a well-formed tree has a mask within its family.
    pub proof fn lemma_wf_node(&self, idx: usize)
        requires
            self.wf(),
            (idx as int) < self.nodes_view().len(),
        ensures
            self.nodes_view()[idx as int].prefix.masklen <= max_bits(self.family_view()),
            self.nodes_view()[idx as int].prefix.family == self.family_view(),
    {
        assert(node_ok(self.nodes@, self.family, idx as int));
    }

    /// The node stored at index `i`.
    pub fn node(&self, i: usize) -> (n: &RadixNode)
        requires
            (i as int) < self.nodes_view().len(),
        ensures
            *n == self.nodes_view()[i as int],
    {
        &self.nodes[i]
    }

    fn alloc_node(&mut self, prefix: &SxPrefix) -> (idx: usize)
        ensures
            idx == old(self).nodes_view().len(),
            final(self).nodes_view() == old(self).nodes_view().push(RadixNode::fresh(*prefix)),
            final(self).family_view() == old(self).family_view(),
            final(self).head_view() == old(self).head_view(),
    {
        let idx = self.nodes.len();
        self.nodes.push(RadixNode::new(prefix));
        idx
    }

    pub fn is_empty(&self) -> (b: bool)
        ensures
            b == self.head_view() is None,
    {
        self.head.is_none()
    }

    /// The indices of the nodes in walk order: each node, then its left
    /// subtree, then its right subtree (glue nodes included).
    pub fn foreach(&self) -> (v: Vec<usize>)
        requires
            self.wf(),
        ensures
            v@ == self.walk_view(),
            forall|k: int| 0 <= k < v@.len() ==> (#[trigger] v@[k] as int) < self.nodes_view().len(),
    {
        proof {
            if let Some(h) = self.head {
                lemma_preorder_in_range(self.nodes@, h);
            }
        }
        let mut v: Vec<usize> = Vec::new();
        if let Some(h) = self.head {
            self.foreach_inner(h, &mut v);
        }
        assert(v@ =~= self.walk_view());
        v
    }

    #[verifier::spinoff_prover]
    #[verifier::rlimit(40)]
    /// Puts a new glue node, holding the first `eb` bits, above `chead`,
    /// with `chead` and the detached node `new_idx` as its children.
    fn splice_glue(&mut self, chead: usize, new_idx: usize, prefix: &SxPrefix, eb: u32)
        requires
            old(self).wf(),
            old(self).head_view() is Some,
            descent_ok(old(self).nodes_view(), old(self).head_view(), *prefix, chead),
            (new_idx as int) < old(self).nodes_view().len(),
            new_idx != chead,
            old(self).nodes_view()[new_idx as int] == RadixNode::fresh(*prefix),
            old(self).head_view() != Some(new_idx),
            prefix.family == old(self).family_view(),
            prefix.well_formed(),
            eb < prefix.masklen,
            eb < old(self).nodes_view()[chead as int].prefix.masklen,
            agree(prefix.addrs@, old(self).nodes_view()[chead as int].prefix.addrs@, eb as int),
            bit_at(prefix.addrs@, eb + 1) != bit_at(old(self).nodes_view()[chead as int].prefix.addrs@, eb + 1),
        ensures
            final(self).wf(),
            final(self).family_view() == old(self).family_view(),
            final(self).head_view() is Some,
            keeps_nodes(old(self).nodes_view(), final(self).nodes_view()),
            rooted(final(self).nodes_view(), final(self).head_view(), new_idx),
            final(self).nodes_view()[new_idx as int].prefix == *prefix,
            !final(self).nodes_view()[new_idx as int].is_glue,
            forall|x: usize| #[trigger] rooted(old(self).nodes_view(), old(self).head_view(), x)
                ==> rooted(final(self).nodes_view(), final(self).head_view(), x),
            final(self).nodes_view().len() == old(self).nodes_view().len() + 1,
            final(self).nodes_view().last().is_glue,
            !final(self).nodes_view().last().is_aggregate,
            final(self).nodes_view().last().son is None,
            final(self).nodes_view().last().aggregate_low == 0,
            final(self).nodes_view().last().aggregate_hi == 0,
            final(self).nodes_view().last().prefix.family == prefix.family,
            final(self).nodes_view().last().prefix.masklen == eb,
            final(self).nodes_view().last().prefix.addrs@ == adjusted_addrs(prefix.addrs@, prefix.family, eb),
            forall|y: int| 0 <= y < old(self).nodes_view().len()
                ==> #[trigger] final(self).nodes_view()[y].is_glue == old(self).nodes_view()[y].is_glue,
            forall|y: int| 0 <= y < old(self).nodes_view().len() && y != chead as int && y != new_idx as int
                ==> #[trigger] final(self).nodes_view()[y].parent == old(self).nodes_view()[y].parent,
            match final(self).head_view() {
                Some(h) => (h as int) < old(self).nodes_view().len() && h != new_idx ==> old(self).head_view() == Some(h),
                None => true,
            },
    {
        let ghost n0 = self.nodes@;
        let ghost fam = self.family;
        proof {
            assert(node_ok(n0, fam, chead as int));
            assert(node_ok(n0, fam, new_idx as int));
            if let Some(q) = n0[chead as int].parent {
                assert(node_ok(n0, fam, q as int));
                let qml = n0[q as int].prefix.masklen;
                lemma_agree_sym(n0[chead as int].prefix.addrs@, n0[q as int].prefix.addrs@, qml as int);
                lemma_agree_trans(prefix.addrs@, n0[q as int].prefix.addrs@, n0[chead as int].prefix.addrs@, qml as int);
                if eb < qml {
                    lemma_agree_bit(prefix.addrs@, n0[chead as int].prefix.addrs@, qml as int, eb + 1);
                }
                assert(eb > qml);
            }
        }
        let mut neo = *prefix;
        neo.masklen = eb;
        neo.adjust_masklen();
        proof { lemma_adjust_agree(prefix.addrs@, prefix.family, eb); }
        let glue = self.alloc_node(&neo);
        self.nodes[glue].is_glue = true;
        let right_is_new = prefix.is_bit_set(eb + 1);
        if right_is_new {
            self.nodes[glue].left = Some(chead);
            self.nodes[glue].right = Some(new_idx);
        } else {
            self.nodes[glue].left = Some(new_idx);
            self.nodes[glue].right = Some(chead);
        }
        let orig_parent = self.nodes[chead].parent;
        self.nodes[glue].parent = orig_parent;
        self.nodes[chead].parent = Some(glue);
        self.nodes[new_idx].parent = Some(glue);
        if let Some(p) = orig_parent {
            if self.nodes[p].left == Some(chead) {
                self.nodes[p].left = Some(glue);
            } else if self.nodes[p].right == Some(chead) {
                self.nodes[p].right = Some(glue);
            }
        } else {
            self.head = Some(glue);
        }
        proof {
            let n1 = self.nodes@;
            let g = glue as int;
            assert(bit_at(n0[chead as int].prefix.addrs@, eb + 1) == !right_is_new);
            assert forall|j: int| 0 <= j < n0.len() && j != chead as int && j != new_idx as int
                && orig_parent != Some(j as usize) implies #[trigger] n1[j] == n0[j] by {}
            assert forall|i: int| 0 <= i < n1.len() implies #[trigger] node_ok(n1, fam, i) by {
                lemma_splice_glue_node(n0, n1, fam, old(self).head, chead, new_idx, glue, orig_parent, *prefix, neo, right_is_new, eb, i);
            }
            assert(keeps_nodes(n0, n1));
            if let Some(q) = orig_parent {
                assert(node_ok(n0, fam, q as int));
                lemma_rooted_frame(n0, n1, self.head, q);
            }
            assert(rooted(n1, self.head, glue));
            assert(rooted(n1, self.head, new_idx));
            let h0 = old(self).head;
            assert forall|y: usize| #[trigger] rooted(n0, h0, y) implies link_kept(n0, h0, n1, self.head, y) by {
                if y != chead {
                    if h0 == Some(y) {
                        assert(orig_parent is Some);
                    } else {
                        let p = n0[y as int].parent->0;
                        assert(node_ok(n0, fam, p as int));
                        assert(y != new_idx);
                    }
                }
            }
            assert forall|x: usize| #[trigger] rooted(n0, h0, x) implies rooted(n1, self.head, x) by {
                lemma_rooted_keep(n0, h0, n1, self.head, x);
            }
            assert forall|y: int| 0 <= y < n0.len() implies #[trigger] n1[y].is_glue == n0[y].is_glue by {}
            assert forall|y: int| 0 <= y < n0.len() && y != chead as int && y != new_idx as int
                implies #[trigger] n1[y].parent == n0[y].parent by {}
            assert(n1.last() == n1[g]);
        }
    }

    #[verifier::spinoff_prover]
    #[verifier::rlimit(40)]
    /// Puts the detached node `new_idx` (whose prefix is a prefix of
    /// `chead`'s) between `chead` and its parent.
    fn splice_above(&mut self, chead: usize, new_idx: usize, prefix: &SxPrefix)
        requires
            old(self).wf(),
            old(self).head_view() is Some,
            descent_ok(old(self).nodes_view(), old(self).head_view(), *prefix, chead),
            (new_idx as int) < old(self).nodes_view().len(),
            new_idx != chead,
            old(self).nodes_view()[new_idx as int] == RadixNode::fresh(*prefix),
            old(self).head_view() != Some(new_idx),
            prefix.family == old(self).family_view(),
            prefix.well_formed(),
            prefix.masklen < old(self).nodes_view()[chead as int].prefix.masklen,
            agree(prefix.addrs@, old(self).nodes_view()[chead as int].prefix.addrs@, prefix.masklen as int),
        ensures
            final(self).wf(),
            final(self).family_view() == old(self).family_view(),
            final(self).head_view() is Some,
            keeps_nodes(old(self).nodes_view(), final(self).nodes_view()),
            rooted(final(self).nodes_view(), final(self).head_view(), new_idx),
            final(self).nodes_view()[new_idx as int].prefix == *prefix,
            !final(self).nodes_view()[new_idx as int].is_glue,
            forall|x: usize| #[trigger] rooted(old(self).nodes_view(), old(self).head_view(), x)
                ==> rooted(final(self).nodes_view(), final(self).head_view(), x),
            final(self).nodes_view().len() == old(self).nodes_view().len(),
            forall|y: int| 0 <= y < old(self).nodes_view().len()
                ==> #[trigger] final(self).nodes_view()[y].is_glue == old(self).nodes_view()[y].is_glue,
            forall|y: int| 0 <= y < old(self).nodes_view().len() && y != chead as int && y != new_idx as int
                ==> #[trigger] final(self).nodes_view()[y].parent == old(self).nodes_view()[y].parent,
            match final(self).head_view() {
                Some(h) => (h as int) < old(self).nodes_view().len() && h != new_idx ==> old(self).head_view() == Some(h),
                None => true,
            },
    {
        let ghost n0 = self.nodes@;
        let ghost fam = self.family;
        let eb = prefix.masklen;
        let right_is_chead = self.nodes[chead].prefix.is_bit_set(eb + 1);
        proof {
            assert(node_ok(n0, fam, chead as int));
        }
        if right_is_chead {
            self.nodes[new_idx].right = Some(chead);
        } else {
            self.nodes[new_idx].left = Some(chead);
        }
        let orig_parent = self.nodes[chead].parent;
        self.nodes[new_idx].parent = orig_parent;
        self.nodes[chead].parent = Some(new_idx);
        if let Some(p) = orig_parent {
            if self.nodes[p].left == Some(chead) {
                self.nodes[p].left = Some(new_idx);
            } else if self.nodes[p].right == Some(chead) {
                self.nodes[p].right = Some(new_idx);
            }
        } else {
            self.head = Some(new_idx);
        }
        let _total = self.nodes.len();
        proof {
            let n1 = self.nodes@;
            assert forall|j: int| 0 <= j < n0.len() && j != chead as int && j != new_idx as int
                && orig_parent != Some(j as usize) implies #[trigger] n1[j] == n0[j] by {}
            assert forall|i: int| 0 <= i < n1.len() implies #[trigger] node_ok(n1, fam, i) by {
                lemma_splice_above_node(n0, n1, fam, old(self).head, chead, new_idx, orig_parent, *prefix, right_is_chead, i);
            }
            assert(keeps_nodes(n0, n1));
            if let Some(q) = orig_parent {
                assert(node_ok(n0, fam, q as int));
                lemma_rooted_frame(n0, n1, self.head, q);
            }
            assert(rooted(n1, self.head, new_idx));
            let h0 = old(self).head;
            assert forall|y: usize| #[trigger] rooted(n0, h0, y) implies link_kept(n0, h0, n1, self.head, y) by {
                if y != chead {
                    if h0 == Some(y) {
                        assert(orig_parent is Some);
                    } else {
                        let p = n0[y as int].parent->0;
                        assert(node_ok(n0, fam, p as int));
                        assert(y != new_idx);
                    }
                }
            }
            assert forall|x: usize| #[trigger] rooted(n0, h0, x) implies rooted(n1, self.head, x) by {
                lemma_rooted_keep(n0, h0, n1, self.head, x);
            }
            assert forall|y: int| 0 <= y < n0.len() implies #[trigger] n1[y].is_glue == n0[y].is_glue by {}
            assert forall|y: int| 0 <= y < n0.len() && y != chead as int && y != new_idx as int
                implies #[trigger] n1[y].parent == n0[y].parent by {}
        }
    }

    #[verifier::spinoff_prover]
    #[verifier::rlimit(40)]
    /// Hangs a new leaf holding `prefix` below `chead` on the given side,
    /// which is empty.
    fn attach_child(&mut self, chead: usize, prefix: &SxPrefix, right: bool) -> (c: usize)
        requires
            old(self).wf(),
            rooted(old(self).nodes_view(), old(self).head_view(), chead),
            prefix.family == old(self).family_view(),
            prefix.well_formed(),
            prefix.masklen > old(self).nodes_view()[chead as int].prefix.masklen,
            agree(prefix.addrs@, old(self).nodes_view()[chead as int].prefix.addrs@,
                old(self).nodes_view()[chead as int].prefix.masklen as int),
            bit_at(prefix.addrs@, old(self).nodes_view()[chead as int].prefix.masklen + 1) == right,
            right ==> old(self).nodes_view()[chead as int].right is None,
            !right ==> old(self).nodes_view()[chead as int].left is None,
        ensures
            final(self).wf(),
            final(self).family_view() == old(self).family_view(),
            final(self).head_view() == old(self).head_view(),
            keeps_nodes(old(self).nodes_view(), final(self).nodes_view()),
            rooted(final(self).nodes_view(), final(self).head_view(), c),
            (c as int) < final(self).nodes_view().len(),
            final(self).nodes_view()[c as int].prefix == *prefix,
            !final(self).nodes_view()[c as int].is_glue,
            forall|x: usize| #[trigger] rooted(old(self).nodes_view(), old(self).head_view(), x)
                ==> rooted(final(self).nodes_view(), final(self).head_view(), x),
            c as int == old(self).nodes_view().len(),
            !final(self).nodes_view()[c as int].is_aggregate,
            final(self).nodes_view()[c as int].son is None,
            final(self).nodes_view()[c as int].aggregate_low == 0,
            final(self).nodes_view()[c as int].aggregate_hi == 0,
            final(self).nodes_view().len() == old(self).nodes_view().len() + 1,
            forall|y: int| 0 <= y < old(self).nodes_view().len()
                ==> #[trigger] final(self).nodes_view()[y].is_glue == old(self).nodes_view()[y].is_glue,
            forall|y: int| 0 <= y < old(self).nodes_view().len()
                ==> #[trigger] final(self).nodes_view()[y].parent == old(self).nodes_view()[y].parent,
    {
        let ghost n0 = self.nodes@;
        let ghost fam = self.family;
        let c = self.alloc_node(prefix);
        if right {
            self.nodes[chead].right = Some(c);
        } else {
            self.nodes[chead].left = Some(c);
        }
        self.nodes[c].parent = Some(chead);
        proof {
            let n1 = self.nodes@;
            assert forall|j: int| 0 <= j < n0.len() && j != chead as int implies #[trigger] n1[j] == n0[j] by {}
            assert forall|i: int| 0 <= i < n1.len() implies #[trigger] node_ok(n1, fam, i) by {
                lemma_attach_node(n0, n1, fam, self.head, chead, c, *prefix, right, i);
            }
            assert(keeps_nodes(n0, n1));
            lemma_rooted_frame(n0, n1, self.head, chead);
            assert(rooted(n1, self.head, c));
            let h0 = self.head;
            assert forall|y: usize| #[trigger] rooted(n0, h0, y) implies link_kept(n0, h0, n1, h0, y) by {
                if h0 != Some(y) {
                    let p = n0[y as int].parent->0;
                    assert(node_ok(n0, fam, p as int));
                }
            }
            assert forall|x: usize| #[trigger] rooted(n0, h0, x) implies rooted(n1, h0, x) by {
                lemma_rooted_keep(n0, h0, n1, h0, x);
            }
        }
        c
    }

    #[verifier::spinoff_prover]
    #[verifier::rlimit(40)]
    /// Inserts a prefix of the tree's family. The result is the node that
    /// now holds it: a node with the same family and mask length that
    /// agrees with the prefix within the mask, is not glue and is reached
    /// from the head. Existing nodes keep their prefix and aggregate data
    /// and stay non-glue. A prefix of another family is refused (`None`).
    pub fn insert(&mut self, prefix: &SxPrefix) -> (res: Option<usize>)
        requires
            old(self).wf(),
            prefix.well_formed(),
        ensures
            final(self).wf(),
            final(self).family_view() == old(self).family_view(),
            keeps_nodes(old(self).nodes_view(), final(self).nodes_view()),
            res is None <==> prefix.family != old(self).family_view(),
            res is None ==> *final(self) == *old(self),
            res matches Some(idx) ==> {
                &&& holds_prefix(final(self).nodes_view(), idx, *prefix)
                &&& rooted(final(self).nodes_view(), final(self).head_view(), idx)
                &&& final(self).walk_view().contains(idx)
            },
            forall|x: usize| #[trigger] old(self).walk_view().contains(x) ==> final(self).walk_view().contains(x),
            old(self).clean_nodes() && clean(prefix.addrs@, prefix.masklen as int) ==> final(self).clean_nodes(),
            prefix.family == old(self).family_view() && old(self).clean_nodes() && clean(prefix.addrs@, prefix.masklen as int)
                ==> final(self).listed() == old(self).listed().insert(key_of(*prefix)),
            res is Some || old(self).head_view() is Some ==> final(self).head_view() is Some,
            forall|j: int| old(self).nodes_view().len() <= j < final(self).nodes_view().len() ==> {
                &&& !(#[trigger] final(self).nodes_view()[j]).is_aggregate
                &&& final(self).nodes_view()[j].son is None
                &&& final(self).nodes_view()[j].aggregate_low == 0
                &&& final(self).nodes_view()[j].aggregate_hi == 0
                &&& (final(self).nodes_view()[j].is_glue || final(self).nodes_view()[j].prefix == *prefix)
            },
            forall|j: int| 0 <= j < old(self).nodes_view().len() ==> (#[trigger] final(self).nodes_view()[j]).is_glue
                == old(self).nodes_view()[j].is_glue || res == Some(j as usize),
    {
        if prefix.family != self.family {
            return None;
        }
        let ghost n_start = self.nodes@;
        let ghost h_start = self.head;
        let ghost fam = self.family;
        proof { reveal(agree); }
        if self.head.is_none() {
            let idx = self.alloc_node(prefix);
            self.head = Some(idx);
            proof {
                let n1 = self.nodes@;
                assert forall|i: int| 0 <= i < n1.len() implies #[trigger] node_ok(n1, self.family, i) by {
                    if i != idx as int {
                        assert(node_ok(n_start, self.family, i));
                        if let Some(l) = n1[i].left { assert(node_ok(n_start, self.family, l as int)); }
                        if let Some(r) = n1[i].right { assert(node_ok(n_start, self.family, r as int)); }
                        if let Some(pp) = n1[i].parent { assert(node_ok(n_start, self.family, pp as int)); }
                    }
                }
                assert(keeps_nodes(n_start, n1));
                lemma_rooted_in_walk(n1, self.family, self.head, idx);
                assert(n1[idx as int].prefix == *prefix);
                if all_clean(n_start) && clean(prefix.addrs@, prefix.masklen as int) {
                    assert(all_clean(n1)) by {
                        assert forall|i: int| 0 <= i < n1.len() implies clean(#[trigger] n1[i].prefix.addrs@, n1[i].prefix.masklen as int) by {
                            if i < n_start.len() { assert(n1[i] == n_start[i]); }
                        }
                    }
                    assert forall|x: usize| #[trigger] rooted(n_start, h_start, x) implies rooted(n1, self.head, x) by {
                        lemma_not_rooted_none(n_start, x);
                    }
                    lemma_insert_exact(n_start, h_start, n1, self.head, fam, *prefix, idx, idx);
                }
            }
            return Some(idx);
        }
        let new_idx = self.alloc_node(prefix);
        let mut chead: usize = match self.head { Some(h) => h, None => 0 };
        proof {
            let n1 = self.nodes@;
            assert forall|i: int| 0 <= i < n1.len() implies #[trigger] node_ok(n1, self.family, i) by {
                if i != new_idx as int {
                    assert(node_ok(n_start, self.family, i));
                    if let Some(l) = n1[i].left { assert(node_ok(n_start, self.family, l as int)); }
                    if let Some(r) = n1[i].right { assert(node_ok(n_start, self.family, r as int)); }
                    if let Some(pp) = n1[i].parent { assert(node_ok(n_start, self.family, pp as int)); }
                }
            }
            assert(node_ok(n1, self.family, chead as int));
            assert(descent_ok(n1, self.head, *prefix, chead));
            assert forall|x: usize| #[trigger] rooted(n_start, h_start, x) implies rooted(n1, self.head, x) by {
                lemma_rooted_frame(n_start, n1, h_start, x);
            }
            assert(rooted(n_start, h_start, chead));
            assert(n1 =~= n_start.push(RadixNode::fresh(*prefix)));
        }
        loop
            invariant
                forall|x: usize| #[trigger] rooted(n_start, h_start, x) ==> rooted(self.nodes@, self.head, x),
                h_start == old(self).head_view(),
                fam == self.family,
                tree_wf(n_start, fam, h_start),
                self.wf(),
                self.family == prefix.family,
                self.head is Some,
                prefix.well_formed(),
                (new_idx as int) < self.nodes@.len(),
                self.nodes@[new_idx as int] == RadixNode::fresh(*prefix),
                self.head != Some(new_idx),
                new_idx != chead,
                descent_ok(self.nodes@, self.head, *prefix, chead),
                keeps_nodes(n_start, self.nodes@),
                n_start.len() == new_idx,
                n_start == old(self).nodes_view(),
                self.family == old(self).family_view(),
                self.nodes@ == n_start.push(RadixNode::fresh(*prefix)),
                self.head == h_start,
                rooted(n_start, h_start, chead),
            decreases 129 - self.nodes@[chead as int].prefix.masklen,
        {
            proof { assert(node_ok(self.nodes@, self.family, chead as int)); }
            let eb = eq_bits(prefix, &self.nodes[chead].prefix);
            let head_ml = self.nodes[chead].prefix.masklen;
            let new_ml = prefix.masklen;
            if eb < new_ml && eb < head_ml {
                let ghost n0 = self.nodes@;
                let ghost h0 = self.head;
                self.splice_glue(chead, new_idx, prefix, eb);
                proof {
                    assert forall|x: usize| #[trigger] rooted(n_start, h_start, x) implies rooted(self.nodes@, self.head, x) by {
                        assert(rooted(n0, h0, x));
                    }
                    lemma_walk_kept(n_start, h_start, self.nodes@, self.head, fam);
                    lemma_keeps_trans(n_start, n0, self.nodes@);
                    lemma_rooted_in_walk(self.nodes@, self.family, self.head, new_idx);
                    reveal(agree);
                    if all_clean(n_start) && clean(prefix.addrs@, prefix.masklen as int) {
                        let n2 = self.nodes@;
                        assert forall|y: usize| (y as int) < n_start.len() && #[trigger] rooted(n2, self.head, y)
                            implies rooted(n_start, h_start, y) || (self.head != Some(y) && n2[y as int].parent == n_start[y as int].parent) by {
                            if y != chead {
                                assert(n0[y as int] == n_start[y as int]);
                                if self.head == Some(y) {
                                    assert(h0 == Some(y));
                                }
                            }
                        }
                        assert forall|y: int| 0 <= y < n_start.len() && y != chead as int implies #[trigger] n2[y].is_glue == n_start[y].is_glue by {
                            assert(n0[y] == n_start[y]);
                        }
                        assert forall|i: int| 0 <= i < n2.len() implies clean(#[trigger] n2[i].prefix.addrs@, n2[i].prefix.masklen as int) by {
                            if i < n_start.len() {
                                assert(n0[i] == n_start[i]);
                            } else if i == n2.len() - 1 {
                                assert(n2[i] == n2.last());
                                lemma_adjusted_clean(prefix.addrs@, prefix.family, eb, prefix.masklen as int);
                            }
                        }
                        assert forall|y: int| n_start.len() <= y < n2.len() implies (#[trigger] n2[y]).is_glue || n2[y].prefix == *prefix by {
                            if y == n2.len() - 1 { assert(n2[y] == n2.last()); }
                        }
                        lemma_insert_exact(n_start, h_start, n2, self.head, fam, *prefix, chead, new_idx);
                    }
                }
                return Some(new_idx);
            } else if eb == new_ml && eb < head_ml {
                let ghost n0 = self.nodes@;
                let ghost h0 = self.head;
                self.splice_above(chead, new_idx, prefix);
                proof {
                    assert forall|x: usize| #[trigger] rooted(n_start, h_start, x) implies rooted(self.nodes@, self.head, x) by {
                        assert(rooted(n0, h0, x));
                    }
                    lemma_walk_kept(n_start, h_start, self.nodes@, self.head, fam);
                    lemma_keeps_trans(n_start, n0, self.nodes@);
                    lemma_rooted_in_walk(self.nodes@, self.family, self.head, new_idx);
                    reveal(agree);
                    if all_clean(n_start) && clean(prefix.addrs@, prefix.masklen as int) {
                        let n2 = self.nodes@;
                        assert forall|y: usize| (y as int) < n_start.len() && #[trigger] rooted(n2, self.head, y)
                            implies rooted(n_start, h_start, y) || (self.head != Some(y) && n2[y as int].parent == n_start[y as int].parent) by {
                            if y != chead {
                                assert(n0[y as int] == n_start[y as int]);
                                if self.head == Some(y) {
                                    assert(h0 == Some(y));
                                }
                            }
                        }
                        assert forall|y: int| 0 <= y < n_start.len() && y != chead as int implies #[trigger] n2[y].is_glue == n_start[y].is_glue by {
                            assert(n0[y] == n_start[y]);
                        }
                        assert forall|i: int| 0 <= i < n2.len() implies clean(#[trigger] n2[i].prefix.addrs@, n2[i].prefix.masklen as int) by {
                            if i < n_start.len() {
                                assert(n0[i] == n_start[i]);
                            }
                        }
                        lemma_insert_exact(n_start, h_start, n2, self.head, fam, *prefix, chead, new_idx);
                    }
                }
                return Some(new_idx);
            } else if eb == head_ml && eb < new_ml {
                let right = prefix.is_bit_set(eb + 1);
                let next = if right { self.nodes[chead].right } else { self.nodes[chead].left };
                match next {
                    Some(nx) => {
                        proof {
                            let nn = self.nodes@;
                            assert(node_ok(nn, self.family, nx as int));
                            assert(nx != new_idx);
                            assert(rooted(nn, self.head, nx));
                        }
                        chead = nx;
                    },
                    None => {
                        let ghost n0 = self.nodes@;
                        let ghost h0 = self.head;
                        let c = self.attach_child(chead, prefix, right);
                        proof {
                            assert forall|x: usize| #[trigger] rooted(n_start, h_start, x) implies rooted(self.nodes@, self.head, x) by {
                                assert(rooted(n0, h0, x));
                            }
                            lemma_walk_kept(n_start, h_start, self.nodes@, self.head, fam);
                            lemma_keeps_trans(n_start, n0, self.nodes@);
                            lemma_rooted_in_walk(self.nodes@, self.family, self.head, c);
                            reveal(agree);
                            assert forall|j: int| n_start.len() <= j < self.nodes@.len() implies {
                                &&& !(#[trigger] self.nodes@[j]).is_aggregate
                                &&& self.nodes@[j].son is None
                                &&& self.nodes@[j].aggregate_low == 0
                                &&& self.nodes@[j].aggregate_hi == 0
                                &&& (self.nodes@[j].is_glue || self.nodes@[j].prefix == *prefix)
                            } by {
                                if j == new_idx as int {
                                    assert(self.nodes@[j].prefix == n0[j].prefix);
                                }
                            }
                            if all_clean(n_start) && clean(prefix.addrs@, prefix.masklen as int) {
                                let n2 = self.nodes@;
                                assert forall|y: usize| (y as int) < n_start.len() && #[trigger] rooted(n2, self.head, y)
                                    implies rooted(n_start, h_start, y) || (self.head != Some(y) && n2[y as int].parent == n_start[y as int].parent) by {
                                    assert(n0[y as int] == n_start[y as int]);
                                }
                                assert forall|y: int| 0 <= y < n_start.len() implies #[trigger] n2[y].is_glue == n_start[y].is_glue by {
                                    assert(n0[y] == n_start[y]);
                                }
                                assert forall|i: int| 0 <= i < n2.len() implies clean(#[trigger] n2[i].prefix.addrs@, n2[i].prefix.masklen as int) by {
                                    if i < n_start.len() {
                                        assert(n0[i] == n_start[i]);
                                    } else if i == new_idx as int {
                                        assert(n2[i].prefix == n0[i].prefix);
                                    }
                                }
                                assert forall|y: int| n_start.len() <= y < n2.len() implies (#[trigger] n2[y]).is_glue || n2[y].prefix == *prefix by {
                                    if y == new_idx as int { assert(n2[y].prefix == n0[y].prefix); }
                                }
                                lemma_insert_exact(n_start, h_start, n2, self.head, fam, *prefix, chead, c);
                            }
                        }
                        return Some(c);
                    },
                }
            } else if eb == head_ml && eb == new_ml {
                let ghost n0 = self.nodes@;
                if self.nodes[chead].is_glue {
                    self.nodes[chead].is_glue = false;
                }
                proof {
                    let n1 = self.nodes@;
                    assert forall|i: int| 0 <= i < n1.len() implies #[trigger] node_ok(n1, self.family, i) by {
                        assert(node_ok(n0, self.family, i));
                        if let Some(l) = n1[i].left { assert(node_ok(n0, self.family, l as int)); }
                        if let Some(r) = n1[i].right { assert(node_ok(n0, self.family, r as int)); }
                        if let Some(pp) = n1[i].parent { assert(node_ok(n0, self.family, pp as int)); }
                    }
                    assert(keeps_nodes(n0, n1));
                    lemma_keeps_trans(n_start, n0, n1);
                    lemma_rooted_frame(n0, n1, self.head, chead);
                    lemma_rooted_in_walk(n1, self.family, self.head, chead);
                    lemma_agree_sym(prefix.addrs@, n0[chead as int].prefix.addrs@, eb as int);
                    assert forall|x: usize| #[trigger] rooted(n_start, h_start, x) implies rooted(n1, self.head, x) by {
                        assert(rooted(n0, self.head, x));
                        lemma_rooted_frame(n0, n1, self.head, x);
                    }
                    lemma_walk_kept(n_start, h_start, n1, self.head, fam);
                    if all_clean(n_start) && clean(prefix.addrs@, prefix.masklen as int) {
                        assert(chead < n_start.len());
                        assert(node_ok(n_start, fam, chead as int));
                        lemma_agree_sym(prefix.addrs@, n0[chead as int].prefix.addrs@, eb as int);
                        lemma_clean_eq(n0[chead as int].prefix.addrs@, prefix.addrs@, eb as int);
                        assert(key_of(n1[chead as int].prefix) == key_of(*prefix));
                        assert forall|y: usize| (y as int) < n_start.len() && #[trigger] rooted(n1, self.head, y)
                            implies rooted(n_start, h_start, y) || (self.head != Some(y) && n1[y as int].parent == n_start[y as int].parent) by {
                            assert(n0[y as int] == n_start[y as int]);
                        }
                        assert forall|y: int| 0 <= y < n_start.len() && y != chead as int implies #[trigger] n1[y].is_glue == n_start[y].is_glue by {
                            assert(n0[y] == n_start[y]);
                        }
                        assert forall|i: int| 0 <= i < n1.len() implies clean(#[trigger] n1[i].prefix.addrs@, n1[i].prefix.masklen as int) by {
                            if i < n_start.len() {
                                assert(n0[i].prefix == n_start[i].prefix);
                            }
                        }
                        assert forall|y: int| n_start.len() <= y < n1.len() implies (#[trigger] n1[y]).is_glue || n1[y].prefix == *prefix by {
                        }
                        lemma_insert_exact(n_start, h_start, n1, self.head, fam, *prefix, chead, chead);
                    }
                }
                return Some(chead);
            } else {
                proof { assert(false); }
                return None;
            }
        }
    }

    /// Inserts `p` (when its mask is at least `min`) and every more
    /// specific prefix of it up to mask length `max`: afterwards the tree
    /// holds each `b/l` with `min <= l <= max` that is `specific_of` `p`.
    /// A prefix of another family leaves the tree as it is.
    pub fn insert_specifics(&mut self, p: SxPrefix, min: u32, max: u32)
        requires
            old(self).wf(),
            p.well_formed(),
            max <= max_bits(p.family),
        ensures
            final(self).wf(),
            final(self).family_view() == old(self).family_view(),
            keeps_nodes(old(self).nodes_view(), final(self).nodes_view()),
            forall|x: usize| #[trigger] old(self).walk_view().contains(x) ==> final(self).walk_view().contains(x),
            p.family != old(self).family_view() ==> *final(self) == *old(self),
            p.family == old(self).family_view() && p.masklen >= min ==> final(self).holds(p.family, p.masklen, p.addrs@),
            p.family == old(self).family_view() ==> forall|l: u32, b: Seq<u8>|
                min <= l <= max && #[trigger] specific_of(p.addrs@, p.masklen as int, l as int, b)
                    ==> final(self).holds(p.family, l, b),
            old(self).clean_nodes() && clean(p.addrs@, p.masklen as int) ==> final(self).clean_nodes(),
            p.family == old(self).family_view() && old(self).clean_nodes() && clean(p.addrs@, p.masklen as int)
                ==> final(self).listed() == old(self).listed().union(specifics_set(p.family, p.addrs@, p.masklen, min, max)),
            old(self).head_view() is Some ==> final(self).head_view() is Some,
            p.family == old(self).family_view() && (p.masklen >= min || (p.masklen < max && min <= max))
                ==> final(self).head_view() is Some,
            !(p.masklen >= min || (p.masklen < max && min <= max)) ==> *final(self) == *old(self),
            forall|j: int| old(self).nodes_view().len() <= j < final(self).nodes_view().len() ==> {
                &&& !(#[trigger] final(self).nodes_view()[j]).is_aggregate
                &&& final(self).nodes_view()[j].son is None
                &&& final(self).nodes_view()[j].aggregate_low == 0
                &&& final(self).nodes_view()[j].aggregate_hi == 0
            },
        decreases max - p.masklen,
    {
        let ghost t0 = *self;
        let ghost fam = self.family;
        let ghost a = p.addrs@;
        let ghost ml = p.masklen;
        let ghost exact = fam == p.family && t0.clean_nodes() && clean(a, ml as int);
        if p.masklen >= min {
            let res = self.insert(&p);
            proof {
                if let Some(idx) = res {
                    assert(holds_parsed(self.nodes_view(), idx, p.family, p.masklen, a));
                    assert(self.holds(p.family, p.masklen, a));
                }
            }
        }
        let ghost t1 = *self;
        proof {
            if exact {
                assert(t1.listed() == t0.listed().union(own_set(fam, a, ml, min))) by {
                    if ml >= min {
                        assert(t0.listed().insert((fam, ml, a)) =~= t0.listed().union(set![(fam, ml, a)]));
                    } else {
                        assert(t0.listed() =~= t0.listed().union(Set::empty()));
                    }
                }
            }
        }
        if p.masklen + 1 > max {
            proof {
                if exact {
                    lemma_specifics_last(fam, a, ml, min, max);
                }
                if fam == p.family {
                    assert forall|l: u32, b: Seq<u8>|
                        min <= l <= max && #[trigger] specific_of(a, ml as int, l as int, b) implies t1.holds(fam, l, b) by {
                        RadixTree::lemma_holds_agree(t1, fam, ml, a, b);
                    }
                }
            }
            return;
        }
        let mut p = p;
        p.masklen = p.masklen + 1;
        proof {
            if exact {
                lemma_with_bit_clean(a, ml as int);
            }
        }
        self.insert_specifics(p, min, max);
        let ghost t2 = *self;
        proof { lemma_keeps_trans(t0.nodes_view(), t1.nodes_view(), t2.nodes_view()); }
        let ml1 = p.masklen;
        p.set_bit(ml1);
        proof { assert(p.addrs@ == with_bit(a, ml1 as int)); }
        self.insert_specifics(p, min, max);
        proof {
            let t3 = *self;
            lemma_keeps_trans(t0.nodes_view(), t2.nodes_view(), t3.nodes_view());
            lemma_keeps_trans(t1.nodes_view(), t2.nodes_view(), t3.nodes_view());
            if fam == p.family {
                if ml >= min {
                    RadixTree::lemma_holds_kept(t1, t3, fam, ml, a);
                }
                assert forall|l: u32, b: Seq<u8>|
                    min <= l <= max && #[trigger] specific_of(a, ml as int, l as int, b) implies t3.holds(fam, l, b) by {
                    if l == ml {
                        RadixTree::lemma_holds_agree(t3, fam, ml, a, b);
                    } else {
                        lemma_specific_split(a, ml as int, l as int, b);
                        if !bit_at(b, ml + 1) {
                            assert(specific_of(a, ml1 as int, l as int, b));
                            RadixTree::lemma_holds_kept(t2, t3, fam, l, b);
                        } else {
                            assert(specific_of(with_bit(a, ml1 as int), ml1 as int, l as int, b));
                        }
                    }
                }
            }
            if exact {
                lemma_specifics_split(fam, a, ml, min, max);
                let s1 = specifics_set(fam, a, ml1, min, max);
                let s2 = specifics_set(fam, with_bit(a, ml + 1), ml1, min, max);
                assert(t3.listed() =~= t0.listed().union(own_set(fam, a, ml, min).union(s1).union(s2)));
            }
            assert forall|j: int| t0.nodes_view().len() <= j < t3.nodes_view().len() implies {
                &&& !(#[trigger] t3.nodes_view()[j]).is_aggregate
                &&& t3.nodes_view()[j].son is None
                &&& t3.nodes_view()[j].aggregate_low == 0
                &&& t3.nodes_view()[j].aggregate_hi == 0
            } by {
                if j < t1.nodes_view().len() {
                    assert(t2.nodes_view()[j].prefix == t1.nodes_view()[j].prefix);
                    assert(t3.nodes_view()[j].prefix == t2.nodes_view()[j].prefix);
                    assert(t1.nodes_view()[j].son is None);
                } else if j < t2.nodes_view().len() {
                    assert(t3.nodes_view()[j].prefix == t2.nodes_view()[j].prefix);
                    assert(t2.nodes_view()[j].son is None);
                }
            }
        }
    }

    /// Inserts `prefix` when it is of the tree's family and not longer than
    /// `maxlen` (0: any length).
    pub fn insert_prefix(&mut self, prefix: &SxPrefix, maxlen: u32) -> (r: bool)
        requires
            old(self).wf(),
            prefix.well_formed(),
        ensures
            final(self).wf(),
            final(self).family_view() == old(self).family_view(),
            r == (prefix.family == old(self).family_view() && !(maxlen > 0 && prefix.masklen > maxlen)),
            !r ==> *final(self) == *old(self),
            r ==> keeps_nodes(old(self).nodes_view(), final(self).nodes_view()),
            r ==> exists|idx: usize| holds_prefix(final(self).nodes_view(), idx, *prefix)
                && #[trigger] final(self).walk_view().contains(idx),
            r && old(self).clean_nodes() && clean(prefix.addrs@, prefix.masklen as int) ==> final(self).clean_nodes()
                && final(self).listed() == old(self).listed().insert(key_of(*prefix)),
            r || old(self).head_view() is Some ==> final(self).head_view() is Some,
            forall|j: int| old(self).nodes_view().len() <= j < final(self).nodes_view().len() ==> {
                &&& !(#[trigger] final(self).nodes_view()[j]).is_aggregate
                &&& final(self).nodes_view()[j].son is None
                &&& final(self).nodes_view()[j].aggregate_low == 0
                &&& final(self).nodes_view()[j].aggregate_hi == 0
                &&& (final(self).nodes_view()[j].is_glue || final(self).nodes_view()[j].prefix == *prefix)
            },
    {
        if prefix.family != self.family {
            return false;
        }
        if maxlen > 0 && prefix.masklen > maxlen {
            return false;
        }
        let res = self.insert(prefix);
        proof {
            if let Some(idx) = res {
                assert(holds_prefix(self.nodes@, idx, *prefix) && self.walk_view().contains(idx));
            }
        }
        true
    }

    /// The prefix and mask bounds of a prefix range `prefix^range` (see
    /// `range_parse`).
    pub fn parse_range_bounds(af: u8, maxlen: u32, text: &str) -> (r: Option<(SxPrefix, u32, u32)>)
        requires
            !parse_panics(af, range_prefix_part(text@)),
        ensures
            match r {
                Some((p, lo, hi)) => range_parse(af, maxlen, text@) == Some((p.family, p.masklen, p.addrs@, lo, hi)),
                None => range_parse(af, maxlen, text@) is None,
            },
    {
        let v = chars_of(text);
        let n = v.len();
        let caret = find_char(&v, '^', 0);
        if caret >= n {
            return None;
        }
        let head = string_from_chars(Self::take_slice(&v, 0, caret).as_slice());
        assert(head@ == text@.subrange(0, caret as int));
        let mut p = SxPrefix::new();
        if !p.parse(af, head.as_str()) {
            return None;
        }
        if af != 0 && p.family != af {
            return None;
        }
        if maxlen > 0 && p.masklen > maxlen {
            return None;
        }
        let r = Self::take_slice(&v, caret + 1, n);
        assert(r@ == text@.subrange(caret + 1, n as int));
        if r.len() == 0 {
            return None;
        }
        let ml = p.masklen;
        let (min, max): (u32, u32) = match Self::range_bounds_exec(&r, ml, af, maxlen) {
            Some(b) => b,
            None => {
                return None;
            },
        };
        if min < ml {
            return None;
        }
        let abs_max: u32 = if af == 2 || p.family == 2 { 32 } else { 128 };
        if max > abs_max {
            return None;
        }
        let eff_max: u32 = if max > maxlen && maxlen > 0 { maxlen } else { max };
        Some((p, min, eff_max))
    }

    fn range_bounds_exec(r: &Vec<char>, ml: u32, af: u8, maxlen: u32) -> (b: Option<(u32, u32)>)
        requires
            ml <= 128,
        ensures
            b == range_bounds(r@, ml, af, maxlen),
    {
        if r.len() == 0 {
            return None;
        }
        let dmax: u32 = if maxlen > 0 { maxlen } else if af == 2 { 32 } else { 128 };
        if r[0] == '-' {
            Some((ml + 1, dmax))
        } else if r[0] == '+' {
            Some((ml, dmax))
        } else if '0' <= r[0] && r[0] <= '9' {
            let d = find_char(r, '-', 0);
            let mut k: usize = 0;
            while k < d
                invariant
                    k <= d <= r@.len(),
                    r@.len() > 0,
                    r@[0] != '-' && r@[0] != '+' && is_digit(r@[0]),
                    d == find_char_from(r@, '-', 0),
                    all_digits(r@.subrange(0, k as int)),
                decreases d - k,
            {
                if !('0' <= r[k] && r[k] <= '9') {
                    assert(r@.subrange(0, d as int)[k as int] == r@[k as int]);
                    assert(!is_digit(r@.subrange(0, d as int)[k as int]));
                    return None;
                }
                k = k + 1;
                assert(all_digits(r@.subrange(0, k as int))) by {
                    assert forall|j: int| 0 <= j < k implies is_digit(#[trigger] r@.subrange(0, k as int)[j]) by {
                        if j < k - 1 {
                            assert(r@.subrange(0, k as int)[j] == r@.subrange(0, k - 1)[j]);
                        }
                    }
                }
            }
            if d < r.len() {
                let lo: u32 = match parse_u32_range(r, 0, d) { Some(x) => x, None => 0 };
                let hi: u32 = if d + 1 < r.len() {
                    match parse_u32_range(r, d + 1, r.len()) { Some(x) => x, None => 0 }
                } else {
                    0
                };
                Some((lo, hi))
            } else {
                assert(r@.subrange(0, r@.len() as int) =~= r@);
                let lo: u32 = match parse_u32_range(r, 0, r.len()) { Some(x) => x, None => 0 };
                Some((lo, dmax))
            }
        } else {
            None
        }
    }

    fn take_slice(v: &Vec<char>, lo: usize, hi: usize) -> (a: Vec<char>)
        requires
            lo <= hi <= v@.len(),
        ensures
            a@ == v@.subrange(lo as int, hi as int),
    {
        let mut a: Vec<char> = Vec::new();
        let mut i: usize = lo;
        while i < hi
            invariant
                lo <= i <= hi <= v@.len(),
                a@ == v@.subrange(lo as int, i as int),
            decreases hi - i,
        {
            a.push(v[i]);
            i = i + 1;
            assert(a@ =~= v@.subrange(lo as int, i as int));
        }
        a
    }

    /// Inserts the more-specifics of a prefix range `prefix^range` (see
    /// `range_parse`); returns whether the range was accepted.
    pub fn parse_range(&mut self, af: u8, maxlen: u32, text: &str) -> (ok: bool)
        requires
            old(self).wf(),
            !parse_panics(af, range_prefix_part(text@)),
        ensures
            final(self).wf(),
            final(self).family_view() == old(self).family_view(),
            ok == range_parse(af, maxlen, text@) is Some,
            !ok ==> *final(self) == *old(self),
            old(self).head_view() is Some ==> final(self).head_view() is Some,
            ok ==> keeps_nodes(old(self).nodes_view(), final(self).nodes_view()),
            forall|x: usize| #[trigger] old(self).walk_view().contains(x) ==> final(self).walk_view().contains(x),
            range_parse(af, maxlen, text@) matches Some((f, ml, a, lo, hi)) ==> {
                &&& f != old(self).family_view() ==> *final(self) == *old(self)
                &&& f == old(self).family_view() && ml >= lo ==> final(self).holds(f, ml, a)
                &&& f == old(self).family_view() ==> forall|l: u32, b: Seq<u8>|
                    lo <= l <= hi && #[trigger] specific_of(a, ml as int, l as int, b) ==> final(self).holds(f, l, b)
                &&& f == old(self).family_view() && old(self).clean_nodes() ==> final(self).clean_nodes()
                    && final(self).listed() == old(self).listed().union(specifics_set(f, a, ml, lo, hi))
                &&& f == old(self).family_view() && (ml >= lo || (ml < hi && lo <= hi)) ==> final(self).head_view() is Some
                &&& !(ml >= lo || (ml < hi && lo <= hi)) ==> *final(self) == *old(self)
            },
            forall|j: int| old(self).nodes_view().len() <= j < final(self).nodes_view().len() ==> {
                &&& !(#[trigger] final(self).nodes_view()[j]).is_aggregate
                &&& final(self).nodes_view()[j].son is None
                &&& final(self).nodes_view()[j].aggregate_low == 0
                &&& final(self).nodes_view()[j].aggregate_hi == 0
            },
    {
        match Self::parse_range_bounds(af, maxlen, text) {
            Some((p, min, max)) => {
                proof {
                    assert(p.masklen <= max_bits(p.family));
                    let caret = find_char_from(text@, '^', 0);
                    lemma_parsed_clean(af, text@.subrange(0, caret));
                }
                self.insert_specifics(p, min, max);
                true
            },
            None => false,
        }
    }

    /// The text of one prefix in a custom format (see `fmt_text`).
    pub fn format_prefix_fmt(&self, prefix: &SxPrefix, name: &str, fmt: &str, agg_low: u32, agg_hi: u32) -> (out: String)
        requires
            prefix.masklen <= 128 || !fmt_needs_mask(fmt.spec_bytes(), 0),
        ensures
            out@ == fmt_text(fmt.spec_bytes(), 0, *prefix, name@, agg_low, agg_hi),
    {
        let mut out = String::new();
        let bytes = fmt.as_bytes();
        let ghost b = bytes@;
        let n = bytes.len();
        let mut i: usize = 0;
        while i < n
            invariant
                b == bytes@,
                b == fmt.spec_bytes(),
                n == b.len(),
                i <= n,
                out@ + fmt_text(b, i as int, *prefix, name@, agg_low, agg_hi) == fmt_text(b, 0, *prefix, name@, agg_low, agg_hi),
                prefix.masklen <= 128 || !fmt_needs_mask(b, i as int),
            decreases n - i,
        {
            let ghost before = out@;
            if bytes[i] == 0x25u8 && i + 1 < n {
                let c = bytes[i + 1];
                if c == 0x72u8 || c == 0x6eu8 {
                    let s = prefix.format_addr();
                    push_str(&mut out, s.as_str());
                } else if c == 0x6cu8 {
                    push_u32(&mut out, prefix.masklen);
                } else if c == 0x61u8 {
                    push_u32(&mut out, agg_low);
                } else if c == 0x41u8 {
                    push_u32(&mut out, agg_hi);
                } else if c == 0x25u8 {
                    push_char(&mut out, '%');
                } else if c == 0x4eu8 {
                    push_str(&mut out, name);
                } else if c == 0x6du8 {
                    let s = prefix.compute_mask().format_addr();
                    push_str(&mut out, s.as_str());
                } else if c == 0x69u8 {
                    let s = prefix.compute_imask().format_addr();
                    push_str(&mut out, s.as_str());
                } else {
                    assert(fmt_text(b, i as int, *prefix, name@, agg_low, agg_hi) =~= Seq::<char>::empty());
                    assert(out@ =~= out@ + fmt_text(b, i as int, *prefix, name@, agg_low, agg_hi));
                    return out;
                }
                assert(out@ + fmt_text(b, i + 2, *prefix, name@, agg_low, agg_hi)
                    =~= before + fmt_text(b, i as int, *prefix, name@, agg_low, agg_hi));
                i = i + 2;
            } else if bytes[i] == 0x5cu8 && i + 1 < n {
                let c = bytes[i + 1];
                if c == 0x6eu8 {
                    push_char(&mut out, '\n');
                } else if c == 0x74u8 {
                    push_char(&mut out, '\t');
                } else {
                    push_char(&mut out, c as char);
                }
                assert(out@ + fmt_text(b, i + 2, *prefix, name@, agg_low, agg_hi)
                    =~= before + fmt_text(b, i as int, *prefix, name@, agg_low, agg_hi));
                i = i + 2;
            } else {
                push_char(&mut out, bytes[i] as char);
                assert(out@ + fmt_text(b, i + 1, *prefix, name@, agg_low, agg_hi)
                    =~= before + fmt_text(b, i as int, *prefix, name@, agg_low, agg_hi));
                i = i + 1;
            }
        }
        assert(out@ =~= fmt_text(b, 0, *prefix, name@, agg_low, agg_hi));
        out
    }

    /// Merges sibling prefixes that together cover their parent into
    /// aggregates of the parent (marking the siblings as glue), and records
    /// common aggregates of both siblings in a shared son node: the merge
    /// step `pair_result` applied bottom-up over the tree (`agg_nodes`).
    /// Prefixes and tree links are kept and the walk is unchanged; son
    /// nodes are appended detached.
    pub fn aggregate(&mut self)
        requires
            old(self).wf(),
        ensures
            final(self).wf(),
            final(self).family_view() == old(self).family_view(),
            final(self).head_view() == old(self).head_view(),
            grown(old(self).nodes_view(), final(self).nodes_view(), old(self).family_view()),
            final(self).walk_view() == old(self).walk_view(),
            final(self).nodes_view() == match old(self).head_view() {
                Some(h) => agg_nodes(old(self).nodes_view(), h, old(self).nodes_view()[h as int].prefix.masklen),
                None => old(self).nodes_view(),
            },
            old(self).clean_nodes() ==> final(self).clean_nodes(),
    {
        if let Some(h) = self.head {
            self.aggregate_node(h);
        }
        proof {
            lemma_wf_sons(self.nodes@, self.family, self.head);
            lemma_shape_wf(old(self).nodes@, self.nodes@, self.family, self.head);
        }
    }

    fn aggregate_node(&mut self, idx: usize)
        requires
            old(self).wf(),
            (idx as int) < old(self).nodes_view().len(),
        ensures
            final(self).wf(),
            final(self).family == old(self).family,
            final(self).head == old(self).head,
            grown(old(self).nodes@, final(self).nodes@, old(self).family),
            final(self).nodes@ == agg_nodes(old(self).nodes@, idx, old(self).nodes@[idx as int].prefix.masklen),
            all_clean(old(self).nodes@) ==> all_clean(final(self).nodes@),
        decreases 129 - old(self).nodes@[idx as int].prefix.masklen,
    {
        let ghost n0 = self.nodes@;
        proof { assert(node_ok(n0, self.family, idx as int)); }
        let left = self.nodes[idx].left;
        let right = self.nodes[idx].right;
        if let Some(l) = left {
            proof { assert(node_ok(n0, self.family, l as int)); }
            self.aggregate_node(l);
        } else {
            proof { assert(grown(n0, self.nodes@, self.family)); }
        }
        let ghost n1 = self.nodes@;
        if let Some(r) = right {
            proof {
                assert(node_ok(n0, self.family, r as int));
                assert(self.nodes@[r as int].prefix == n0[r as int].prefix);
            }
            self.aggregate_node(r);
            proof { lemma_grown_trans(n0, n1, self.nodes@, self.family); }
        }
        let ghost n2 = self.nodes@;
        proof {
            let ml = n0[idx as int].prefix.masklen;
            let m1 = match left {
                Some(l) => if (l as int) < n0.len() && ml < n0[l as int].prefix.masklen <= 128 {
                    agg_nodes(n0, l, n0[l as int].prefix.masklen)
                } else {
                    n0
                },
                None => n0,
            };
            assert(n1 == m1);
            let m2 = match right {
                Some(r) => if (r as int) < n0.len() && ml < n0[r as int].prefix.masklen <= 128 {
                    agg_nodes(m1, r, n0[r as int].prefix.masklen)
                } else {
                    m1
                },
                None => m1,
            };
            assert(n2 == m2);
            assert(agg_nodes(n0, idx, ml) == match (left, right) {
                (Some(l), Some(r)) => pair_result(m2, idx as int, l as int, r as int),
                _ => m2,
            });
        }
        if let Some(l) = left {
            if let Some(r) = right {
                proof {
                    assert(self.nodes@[idx as int].prefix == n0[idx as int].prefix);
                    assert(self.nodes@[l as int].prefix == n0[l as int].prefix);
                    assert(self.nodes@[r as int].prefix == n0[r as int].prefix);
                }
                self.aggregate_pair(idx, l, r);
                proof { lemma_grown_trans(n0, n2, self.nodes@, self.family); }
            }
        }
    }

    /// The merge step at node `idx` whose children `l` and `r` are done.
    #[verifier::spinoff_prover]
    #[verifier::rlimit(40)]
    fn aggregate_pair(&mut self, idx: usize, l: usize, r: usize)
        requires
            old(self).wf(),
            (idx as int) < old(self).nodes_view().len(),
            (l as int) < old(self).nodes_view().len(),
            (r as int) < old(self).nodes_view().len(),
            idx != l,
            idx != r,
            l != r,
        ensures
            final(self).wf(),
            final(self).family == old(self).family,
            final(self).head == old(self).head,
            grown(old(self).nodes@, final(self).nodes@, old(self).family),
            final(self).nodes@ == pair_result(old(self).nodes@, idx as int, l as int, r as int),
            all_clean(old(self).nodes@) ==> all_clean(final(self).nodes@),
    {
        let ghost n0 = self.nodes@;
        proof {
            assert(node_ok(n0, self.family, idx as int));
            lemma_wf_sons(n0, self.family, self.head);
        }
        let node_ml = self.nodes[idx].prefix.masklen;
        let node_is_glue = self.nodes[idx].is_glue;
        let l_glue = self.nodes[l].is_glue;
        let r_glue = self.nodes[r].is_glue;
        let l_agg = self.nodes[l].is_aggregate;
        let r_agg = self.nodes[r].is_aggregate;
        let l_ml = self.nodes[l].prefix.masklen;
        let r_ml = self.nodes[r].prefix.masklen;
        let l_hi = self.nodes[l].aggregate_hi;
        let l_lo = self.nodes[l].aggregate_low;
        let r_hi = self.nodes[r].aggregate_hi;
        let r_lo = self.nodes[r].aggregate_low;

        let ghost target = pair_result(n0, idx as int, l as int, r as int);
        if !r_agg && !l_agg && !r_glue && !l_glue && r_ml == l_ml {
            if r_ml == node_ml + 1 {
                self.nodes[idx].is_aggregate = true;
                self.nodes[r].is_glue = true;
                self.nodes[l].is_glue = true;
                self.nodes[idx].aggregate_hi = r_ml;
                if node_is_glue {
                    self.nodes[idx].is_glue = false;
                    self.nodes[idx].aggregate_low = r_ml;
                } else {
                    self.nodes[idx].aggregate_low = node_ml;
                }
            }
            let ghost n1 = self.nodes@;
            proof {
                let nd = n0[idx as int];
                if r_ml == node_ml + 1 {
                    assert(n1 =~= n0.update(idx as int, RadixNode {
                        is_aggregate: true,
                        is_glue: false,
                        aggregate_hi: r_ml,
                        aggregate_low: if nd.is_glue { r_ml } else { node_ml },
                        ..nd
                    }).update(r as int, glued(n0[r as int])).update(l as int, glued(n0[l as int])));
                } else {
                    assert(n1 =~= n0);
                }
            }
            let l_son = self.nodes[l].son;
            let r_son = self.nodes[r].son;
            if let Some(ls) = l_son {
                if let Some(rs) = r_son {
                    if self.nodes[ls].is_aggregate
                        && self.nodes[rs].is_aggregate
                        && self.nodes[ls].aggregate_hi == self.nodes[rs].aggregate_hi
                        && self.nodes[ls].aggregate_low == self.nodes[rs].aggregate_low
                        && r_ml == node_ml + 1
                        && l_ml == node_ml + 1
                    {
                        let prefix = self.nodes[idx].prefix;
                        let son = self.alloc_node(&prefix);
                        self.nodes[son].is_glue = false;
                        self.nodes[son].is_aggregate = true;
                        self.nodes[son].aggregate_hi = self.nodes[rs].aggregate_hi;
                        self.nodes[son].aggregate_low = self.nodes[rs].aggregate_low;
                        self.nodes[r].son = Some(son);
                        self.nodes[l].son = Some(son);
                        self.nodes[r].is_glue = true;
                        self.nodes[l].is_glue = true;
                        proof {
                            assert(son as int == n1.len());
                            assert(self.nodes@ =~= n1.push(agg_node(n0[idx as int].prefix, n1[rs as int].aggregate_low, n1[rs as int].aggregate_hi))
                                .update(r as int, RadixNode { son: Some(son), is_glue: true, ..n1[r as int] })
                                .update(l as int, RadixNode { son: Some(son), is_glue: true, ..n1[l as int] }));
                            assert(self.nodes@ =~= target);
                        }
                    } else {
                        proof { assert(self.nodes@ =~= target); }
                    }
                } else {
                    proof { assert(self.nodes@ =~= target); }
                }
            } else {
                proof { assert(self.nodes@ =~= target); }
            }
        } else if r_agg && l_agg && r_hi == l_hi && r_lo == l_lo {
            if r_ml == node_ml + 1 && l_ml == node_ml + 1 {
                let ghost nd = n0[idx as int];
                let ghost m1 = n0.update(r as int, glued(n0[r as int])).update(l as int, glued(n0[l as int]));
                if node_is_glue {
                    self.nodes[r].is_glue = true;
                    self.nodes[l].is_glue = true;
                    self.nodes[idx].is_aggregate = true;
                    self.nodes[idx].is_glue = false;
                    self.nodes[idx].aggregate_hi = r_hi;
                    self.nodes[idx].aggregate_low = r_lo;
                    proof {
                        assert(self.nodes@ =~= m1.update(idx as int, RadixNode {
                            is_aggregate: true,
                            is_glue: false,
                            aggregate_hi: r_hi,
                            aggregate_low: r_lo,
                            ..nd
                        }));
                    }
                } else if r_ml == r_lo {
                    self.nodes[r].is_glue = true;
                    self.nodes[l].is_glue = true;
                    self.nodes[idx].is_aggregate = true;
                    self.nodes[idx].aggregate_hi = r_hi;
                    self.nodes[idx].aggregate_low = node_ml;
                    proof {
                        assert(self.nodes@ =~= m1.update(idx as int, RadixNode {
                            is_aggregate: true,
                            aggregate_hi: r_hi,
                            aggregate_low: node_ml,
                            ..nd
                        }));
                    }
                } else {
                    let prefix = self.nodes[idx].prefix;
                    let son = self.alloc_node(&prefix);
                    self.nodes[son].is_glue = false;
                    self.nodes[son].is_aggregate = true;
                    self.nodes[son].aggregate_hi = r_hi;
                    self.nodes[son].aggregate_low = r_lo;
                    self.nodes[idx].son = Some(son);
                    self.nodes[r].is_glue = true;
                    self.nodes[l].is_glue = true;
                    proof {
                        assert(son as int == n0.len());
                        assert(self.nodes@ =~= m1.push(agg_node(nd.prefix, r_lo, r_hi))
                            .update(idx as int, RadixNode { son: Some(son), ..nd }));
                    }
                }
                proof { assert(self.nodes@ =~= target); }
            } else {
                proof { assert(self.nodes@ =~= target); }
            }
        } else {
            proof { assert(self.nodes@ =~= target); }
        }
        proof {
            let nf = self.nodes@;
            assert(n0.len() <= nf.len() <= n0.len() + 1);
            if all_clean(n0) {
                assert forall|i: int| 0 <= i < nf.len() implies clean(#[trigger] nf[i].prefix.addrs@, nf[i].prefix.masklen as int) by {
                    if i < n0.len() {
                        assert(nf[i].prefix == n0[i].prefix);
                    } else {
                        assert(nf[i].prefix == n0[idx as int].prefix);
                    }
                }
            }
            assert forall|j: int| 0 <= j < n0.len() implies {
                &&& #[trigger] nf[j].prefix == n0[j].prefix
                &&& nf[j].parent == n0[j].parent
                &&& nf[j].left == n0[j].left
                &&& nf[j].right == n0[j].right
            } by {}
            assert forall|j: int| 0 <= j < nf.len() implies idx_ok(nf, #[trigger] nf[j].son) by {
                if j < n0.len() && nf[j].son == n0[j].son {
                    assert(idx_ok(n0, n0[j].son));
                }
            }
            assert(grown(n0, nf, self.family));
            lemma_shape_wf(n0, nf, self.family, self.head);
        }
    }

    /// Marks every non-glue node shorter than `refine` as an aggregate
    /// `ml..refine` and turns its children up to `refine` into glue (the
    /// walk goes on through glue nodes and nodes of length `refine`).
    /// Prefixes and tree links are kept; every node changes only as
    /// `refine_step` allows, every node of the walk ends up as
    /// `refined_at` describes, and a visible node turns glue only below a
    /// parent left a visible aggregate whose range covers it.
    pub fn refine(&mut self, refine: u32)
        requires
            old(self).wf(),
        ensures
            final(self).wf(),
            final(self).family_view() == old(self).family_view(),
            final(self).head_view() == old(self).head_view(),
            same_links(old(self).nodes_view(), final(self).nodes_view()),
            final(self).walk_view() == old(self).walk_view(),
            refine_steps(old(self).nodes_view(), final(self).nodes_view(), refine),
            forall|j: usize| #[trigger] old(self).walk_view().contains(j) ==> refined_at(final(self).nodes_view(), j as int, refine),
            old(self).clean_nodes() ==> final(self).clean_nodes(),
            forall|j: int| 0 <= j < old(self).nodes_view().len() ==> #[trigger] glue_covered(old(self).nodes_view(), final(self).nodes_view(), j),
            final(self).nodes_view() == match old(self).head_view() {
                Some(h) => refine_nodes(old(self).nodes_view(), h, old(self).nodes_view()[h as int].prefix.masklen, refine),
                None => old(self).nodes_view(),
            },
    {
        proof { lemma_refine_steps_refl(self.nodes@, refine); }
        if let Some(h) = self.head {
            self.refine_node(h, refine);
        }
        proof {
            let a = old(self).nodes@;
            let b = self.nodes@;
            if let Some(h) = old(self).head {
                lemma_refine_pass(a, old(self).family, h, refine);
            }
            assert(forall|j: int| 0 <= j < a.len() ==> #[trigger] glue_covered(a, b, j));
            self.lemma_flags_only(old(self).nodes@);
            if all_clean(old(self).nodes@) {
                assert forall|i: int| 0 <= i < self.nodes@.len() implies clean(#[trigger] self.nodes@[i].prefix.addrs@, self.nodes@[i].prefix.masklen as int) by {
                    assert(self.nodes@[i].prefix == old(self).nodes@[i].prefix);
                }
            }
        }
    }

    #[verifier::spinoff_prover]
    #[verifier::rlimit(60)]
    fn refine_node(&mut self, idx: usize, refine: u32)
        requires
            old(self).wf(),
            (idx as int) < old(self).nodes_view().len(),
        ensures
            final(self).wf(),
            final(self).family == old(self).family,
            final(self).head == old(self).head,
            same_links(old(self).nodes@, final(self).nodes@),
            refine_steps(old(self).nodes@, final(self).nodes@, refine),
            forall|j: usize| #[trigger] preorder(old(self).nodes@, idx).contains(j) ==> refined_at(final(self).nodes@, j as int, refine),
            final(self).nodes@ == refine_nodes(old(self).nodes@, idx, old(self).nodes@[idx as int].prefix.masklen, refine),
        decreases 129 - old(self).nodes@[idx as int].prefix.masklen,
    {
        let ghost n0 = self.nodes@;
        let ghost fam = self.family;
        proof {
            assert(node_ok(n0, self.family, idx as int));
            lemma_preorder_members(n0, self.family, idx);
            lemma_refine_steps_refl(n0, refine);
        }
        let ml = self.nodes[idx].prefix.masklen;
        let is_glue = self.nodes[idx].is_glue;
        let left = self.nodes[idx].left;
        let right = self.nodes[idx].right;
        if !is_glue && ml < refine {
            self.nodes[idx].is_aggregate = true;
            self.nodes[idx].aggregate_low = ml;
            self.nodes[idx].aggregate_hi = refine;
            let ghost m1 = self.nodes@;
            proof {
                assert(m1 =~= n0.update(idx as int, RadixNode { is_aggregate: true, aggregate_low: ml, aggregate_hi: refine, ..n0[idx as int] }));
                self.lemma_flags_only(n0);
                assert forall|j: int| 0 <= j < n0.len() implies refine_step(#[trigger] n0[j], self.nodes@[j], refine) by {}
            }
            if let Some(l) = left {
                let ghost n1 = self.nodes@;
                self.set_glue_up_to(l, refine);
                proof { lemma_links_trans(n0, n1, self.nodes@); lemma_refine_steps_trans(n0, n1, self.nodes@, refine); }
                let ghost n2 = self.nodes@;
                proof { assert(self.nodes@[l as int].prefix == n0[l as int].prefix); assert(node_ok(n0, self.family, l as int)); }
                self.refine_node(l, refine);
                proof {
                    lemma_links_trans(n0, n2, self.nodes@);
                    lemma_refine_steps_trans(n0, n2, self.nodes@, refine);
                    lemma_shape_preorder(n0, n2, fam, l);
                    assert(refine_step(n2[l as int], self.nodes@[l as int], refine));
                    assert(refine_step(n2[idx as int], self.nodes@[idx as int], refine));
                }
            }
            let ghost m2 = self.nodes@;
            proof {
                if let Some(l) = left {
                    assert(node_ok(n0, fam, l as int));
                    assert(child_fits(n0, left, ml));
                    assert(m1[l as int] == n0[l as int]);
                    assert(m2 == refine_nodes(glue_upto(m1, l, refine), l, n0[l as int].prefix.masklen, refine));
                } else {
                    assert(m2 == m1);
                }
            }
            if let Some(r) = right {
                let ghost n1 = self.nodes@;
                self.set_glue_up_to(r, refine);
                proof { lemma_links_trans(n0, n1, self.nodes@); lemma_refine_steps_trans(n0, n1, self.nodes@, refine); }
                let ghost n2 = self.nodes@;
                proof { assert(self.nodes@[r as int].prefix == n0[r as int].prefix); assert(node_ok(n0, self.family, r as int)); }
                self.refine_node(r, refine);
                proof {
                    lemma_links_trans(n0, n2, self.nodes@);
                    lemma_refine_steps_trans(n0, n2, self.nodes@, refine);
                    lemma_shape_preorder(n0, n2, fam, r);
                    lemma_refine_steps_trans(n1, n2, self.nodes@, refine);
                    assert(refine_step(n2[r as int], self.nodes@[r as int], refine));
                    assert(refine_step(n1[idx as int], self.nodes@[idx as int], refine));
                    if let Some(l) = left {
                        assert(refine_step(n1[l as int], self.nodes@[l as int], refine));
                        lemma_preorder_members(n0, fam, l);
                        lemma_refined_all_stable(n1, self.nodes@, preorder(n0, l), refine);
                    }
                }
            }
            proof {
                if let Some(r) = right {
                    assert(node_ok(n0, fam, r as int));
                    assert(child_fits(n0, right, ml));
                    assert(m2[r as int].prefix == n0[r as int].prefix);
                    assert(self.nodes@ == refine_nodes(glue_upto(m2, r, refine), r, n0[r as int].prefix.masklen, refine));
                } else {
                    assert(self.nodes@ == m2);
                }
                assert(self.nodes@ == refine_nodes(n0, idx, ml, refine));
            }
        } else if !is_glue && ml == refine {
            if let Some(l) = left {
                proof { assert(node_ok(n0, self.family, l as int)); }
                self.refine_node(l, refine);
            }
            let ghost m2 = self.nodes@;
            proof {
                if let Some(l) = left {
                    assert(node_ok(n0, fam, l as int));
                    assert(child_fits(n0, left, ml));
                } else {
                    assert(m2 == n0);
                }
            }
            if let Some(r) = right {
                let ghost n2 = self.nodes@;
                proof { assert(self.nodes@[r as int].prefix == n0[r as int].prefix); assert(node_ok(n0, self.family, r as int)); }
                self.refine_node(r, refine);
                proof {
                    lemma_links_trans(n0, n2, self.nodes@);
                    lemma_refine_steps_trans(n0, n2, self.nodes@, refine);
                    lemma_shape_preorder(n0, n2, fam, r);
                    if let Some(l) = left {
                        lemma_preorder_members(n0, fam, l);
                        lemma_refined_all_stable(n2, self.nodes@, preorder(n0, l), refine);
                    }
                }
            }
            proof {
                if let Some(r) = right {
                    assert(node_ok(n0, fam, r as int));
                    assert(child_fits(n0, right, ml));
                    assert(m2[r as int].prefix == n0[r as int].prefix);
                } else {
                    assert(self.nodes@ == m2);
                }
                assert(self.nodes@ == refine_nodes(n0, idx, ml, refine));
            }
        } else if is_glue {
            if let Some(r) = right {
                proof { assert(node_ok(n0, self.family, r as int)); }
                self.refine_node(r, refine);
            }
            let ghost m2 = self.nodes@;
            proof {
                if let Some(r) = right {
                    assert(node_ok(n0, fam, r as int));
                    assert(child_fits(n0, right, ml));
                } else {
                    assert(m2 == n0);
                }
            }
            if let Some(l) = left {
                let ghost n2 = self.nodes@;
                proof { assert(self.nodes@[l as int].prefix == n0[l as int].prefix); assert(node_ok(n0, self.family, l as int)); }
                self.refine_node(l, refine);
                proof {
                    lemma_links_trans(n0, n2, self.nodes@);
                    lemma_refine_steps_trans(n0, n2, self.nodes@, refine);
                    lemma_shape_preorder(n0, n2, fam, l);
                    if let Some(r) = right {
                        lemma_preorder_members(n0, fam, r);
                        lemma_refined_all_stable(n2, self.nodes@, preorder(n0, r), refine);
                    }
                }
            }
            proof {
                if let Some(l) = left {
                    assert(node_ok(n0, fam, l as int));
                    assert(child_fits(n0, left, ml));
                    assert(m2[l as int].prefix == n0[l as int].prefix);
                } else {
                    assert(self.nodes@ == m2);
                }
                assert(self.nodes@ == refine_nodes(n0, idx, ml, refine));
            }
        } else {
            proof { assert(self.nodes@ == refine_nodes(n0, idx, ml, refine)); }
        }
        proof {
            let nf = self.nodes@;
            assert(refine_step(n0[idx as int], nf[idx as int], refine));
            assert forall|j: usize| #[trigger] preorder(n0, idx).contains(j) implies refined_at(nf, j as int, refine) by {
                if j == idx {
                } else if !is_glue && ml > refine {
                    assert(n0[j as int].prefix.masklen >= ml);
                    assert(refine_step(n0[j as int], nf[j as int], refine));
                }
            }
        }
    }

    /// Node `idx` becomes glue when its mask is at most `refine`.
    fn set_glue_up_to(&mut self, idx: usize, refine: u32)
        requires
            old(self).wf(),
            (idx as int) < old(self).nodes_view().len(),
        ensures
            refine_steps(old(self).nodes@, final(self).nodes@, refine),
            final(self).wf(),
            final(self).family == old(self).family,
            final(self).head == old(self).head,
            same_links(old(self).nodes@, final(self).nodes@),
            final(self).nodes@ == (if old(self).nodes@[idx as int].prefix.masklen <= refine {
                old(self).nodes@.update(idx as int, RadixNode { is_glue: true, ..old(self).nodes@[idx as int] })
            } else {
                old(self).nodes@
            }),
    {
        if self.nodes[idx].prefix.masklen <= refine {
            self.nodes[idx].is_glue = true;
            proof { self.lemma_flags_only(old(self).nodes@); }
        }
        proof {
            let a = old(self).nodes@;
            let b = self.nodes@;
            assert forall|j: int| 0 <= j < a.len() implies refine_step(#[trigger] a[j], b[j], refine) by {}
        }
    }

    /// Marks every non-glue node of length at most `refine_low` as an
    /// aggregate from `refine_low` (up to the full length, or keeping the
    /// upper bound of an existing aggregate) and turns its children up to
    /// `refine_low` into glue. Prefixes and tree links are kept; every node
    /// changes only as `low_step` allows, every node of the walk ends up as
    /// `low_refined_at` describes, and a visible node turns glue only when
    /// it is no longer than `refine_low` and its parent is left a visible
    /// aggregate from `refine_low`.
    pub fn refine_low(&mut self, refine_low: u32)
        requires
            old(self).wf(),
        ensures
            final(self).wf(),
            final(self).family_view() == old(self).family_view(),
            final(self).head_view() == old(self).head_view(),
            same_links(old(self).nodes_view(), final(self).nodes_view()),
            final(self).walk_view() == old(self).walk_view(),
            low_steps(old(self).nodes_view(), final(self).nodes_view(), refine_low),
            forall|j: usize| #[trigger] old(self).walk_view().contains(j) ==> low_refined_at(final(self).nodes_view(), j as int, refine_low),
            old(self).clean_nodes() ==> final(self).clean_nodes(),
            forall|j: int| 0 <= j < old(self).nodes_view().len() ==> #[trigger] glue_below_low(old(self).nodes_view(), final(self).nodes_view(), j, refine_low),
            final(self).nodes_view() == match old(self).head_view() {
                Some(h) => low_nodes(old(self).nodes_view(), h, old(self).nodes_view()[h as int].prefix.masklen, refine_low),
                None => old(self).nodes_view(),
            },
    {
        proof { lemma_low_steps_refl(self.nodes@, refine_low); }
        if let Some(h) = self.head {
            self.refine_low_node(h, refine_low);
        }
        proof {
            let a = old(self).nodes@;
            let b = self.nodes@;
            if let Some(h) = old(self).head {
                lemma_low_pass(a, old(self).family, h, refine_low);
            }
            assert(forall|j: int| 0 <= j < a.len() ==> #[trigger] glue_below_low(a, b, j, refine_low));
            self.lemma_flags_only(old(self).nodes@);
            if all_clean(old(self).nodes@) {
                assert forall|i: int| 0 <= i < self.nodes@.len() implies clean(#[trigger] self.nodes@[i].prefix.addrs@, self.nodes@[i].prefix.masklen as int) by {
                    assert(self.nodes@[i].prefix == old(self).nodes@[i].prefix);
                }
            }
        }
    }

    #[verifier::spinoff_prover]
    #[verifier::rlimit(60)]
    fn refine_low_node(&mut self, idx: usize, refine_low: u32)
        requires
            old(self).wf(),
            (idx as int) < old(self).nodes_view().len(),
        ensures
            final(self).wf(),
            final(self).family == old(self).family,
            final(self).head == old(self).head,
            same_links(old(self).nodes@, final(self).nodes@),
            low_steps(old(self).nodes@, final(self).nodes@, refine_low),
            forall|j: usize| #[trigger] preorder(old(self).nodes@, idx).contains(j) ==> low_refined_at(final(self).nodes@, j as int, refine_low),
            final(self).nodes@ == low_nodes(old(self).nodes@, idx, old(self).nodes@[idx as int].prefix.masklen, refine_low),
        decreases 129 - old(self).nodes@[idx as int].prefix.masklen,
    {
        let ghost n0 = self.nodes@;
        let ghost fam = self.family;
        proof {
            assert(node_ok(n0, self.family, idx as int));
            lemma_preorder_members(n0, self.family, idx);
            lemma_low_steps_refl(n0, refine_low);
        }
        let ml = self.nodes[idx].prefix.masklen;
        let is_glue = self.nodes[idx].is_glue;
        let left = self.nodes[idx].left;
        let right = self.nodes[idx].right;
        if !is_glue && ml <= refine_low {
            if !self.nodes[idx].is_aggregate {
                let hi: u32 = if self.nodes[idx].prefix.family == 2 { 32 } else { 128 };
                self.nodes[idx].is_aggregate = true;
                self.nodes[idx].aggregate_low = refine_low;
                self.nodes[idx].aggregate_hi = hi;
            } else {
                self.nodes[idx].aggregate_low = refine_low;
            }
            let ghost m1 = self.nodes@;
            proof {
                let nd = n0[idx as int];
                if !nd.is_aggregate {
                    assert(m1 =~= n0.update(idx as int, RadixNode {
                        is_aggregate: true,
                        aggregate_low: refine_low,
                        aggregate_hi: if nd.prefix.family == 2 { 32 } else { 128 },
                        ..nd
                    }));
                } else {
                    assert(m1 =~= n0.update(idx as int, RadixNode { aggregate_low: refine_low, ..nd }));
                }
                self.lemma_flags_only(n0);
                assert forall|j: int| 0 <= j < n0.len() implies low_step(#[trigger] n0[j], self.nodes@[j], refine_low) by {}
            }
            if let Some(l) = left {
                let ghost n1 = self.nodes@;
                self.set_glue_from(l, refine_low);
                proof { lemma_links_trans(n0, n1, self.nodes@); lemma_low_steps_trans(n0, n1, self.nodes@, refine_low); }
                let ghost n2 = self.nodes@;
                proof { assert(self.nodes@[l as int].prefix == n0[l as int].prefix); assert(node_ok(n0, self.family, l as int)); }
                self.refine_low_node(l, refine_low);
                proof {
                    lemma_links_trans(n0, n2, self.nodes@);
                    lemma_low_steps_trans(n0, n2, self.nodes@, refine_low);
                    lemma_shape_preorder(n0, n2, fam, l);
                    assert(low_step(n2[l as int], self.nodes@[l as int], refine_low));
                    assert(low_step(n2[idx as int], self.nodes@[idx as int], refine_low));
                }
            }
            let ghost m2 = self.nodes@;
            proof {
                if let Some(l) = left {
                    assert(node_ok(n0, fam, l as int));
                    assert(child_fits(n0, left, ml));
                    assert(m1[l as int] == n0[l as int]);
                    assert(m2 == low_nodes(glue_upto(m1, l, refine_low), l, n0[l as int].prefix.masklen, refine_low));
                } else {
                    assert(m2 == m1);
                }
            }
            if let Some(r) = right {
                let ghost n1 = self.nodes@;
                self.set_glue_from(r, refine_low);
                proof { lemma_links_trans(n0, n1, self.nodes@); lemma_low_steps_trans(n0, n1, self.nodes@, refine_low); }
                let ghost n2 = self.nodes@;
                proof { assert(self.nodes@[r as int].prefix == n0[r as int].prefix); assert(node_ok(n0, self.family, r as int)); }
                self.refine_low_node(r, refine_low);
                proof {
                    lemma_links_trans(n0, n2, self.nodes@);
                    lemma_low_steps_trans(n0, n2, self.nodes@, refine_low);
                    lemma_shape_preorder(n0, n2, fam, r);
                    lemma_low_steps_trans(n1, n2, self.nodes@, refine_low);
                    assert(low_step(n2[r as int], self.nodes@[r as int], refine_low));
                    assert(low_step(n1[idx as int], self.nodes@[idx as int], refine_low));
                    if let Some(l) = left {
                        assert(low_step(n1[l as int], self.nodes@[l as int], refine_low));
                        lemma_preorder_members(n0, fam, l);
                        lemma_low_refined_all_stable(n1, self.nodes@, preorder(n0, l), refine_low);
                    }
                }
            }
            proof {
                if let Some(r) = right {
                    assert(node_ok(n0, fam, r as int));
                    assert(child_fits(n0, right, ml));
                    assert(m2[r as int].prefix == n0[r as int].prefix);
                    assert(self.nodes@ == low_nodes(glue_upto(m2, r, refine_low), r, n0[r as int].prefix.masklen, refine_low));
                } else {
                    assert(self.nodes@ == m2);
                }
                assert(self.nodes@ == low_nodes(n0, idx, ml, refine_low));
            }
        } else if !is_glue && ml == refine_low {
            if let Some(l) = left {
                proof { assert(node_ok(n0, self.family, l as int)); }
                self.refine_low_node(l, refine_low);
            }
            if let Some(r) = right {
                let ghost n2 = self.nodes@;
                proof { assert(self.nodes@[r as int].prefix == n0[r as int].prefix); assert(node_ok(n0, self.family, r as int)); }
                self.refine_low_node(r, refine_low);
                proof {
                    lemma_links_trans(n0, n2, self.nodes@);
                    lemma_low_steps_trans(n0, n2, self.nodes@, refine_low);
                    lemma_shape_preorder(n0, n2, fam, r);
                    if let Some(l) = left {
                        lemma_preorder_members(n0, fam, l);
                        lemma_low_refined_all_stable(n2, self.nodes@, preorder(n0, l), refine_low);
                    }
                }
            }
        } else if is_glue {
            if let Some(r) = right {
                proof { assert(node_ok(n0, self.family, r as int)); }
                self.refine_low_node(r, refine_low);
            }
            let ghost m2 = self.nodes@;
            proof {
                if let Some(r) = right {
                    assert(node_ok(n0, fam, r as int));
                    assert(child_fits(n0, right, ml));
                } else {
                    assert(m2 == n0);
                }
            }
            if let Some(l) = left {
                let ghost n2 = self.nodes@;
                proof { assert(self.nodes@[l as int].prefix == n0[l as int].prefix); assert(node_ok(n0, self.family, l as int)); }
                self.refine_low_node(l, refine_low);
                proof {
                    lemma_links_trans(n0, n2, self.nodes@);
                    lemma_low_steps_trans(n0, n2, self.nodes@, refine_low);
                    lemma_shape_preorder(n0, n2, fam, l);
                    if let Some(r) = right {
                        lemma_preorder_members(n0, fam, r);
                        lemma_low_refined_all_stable(n2, self.nodes@, preorder(n0, r), refine_low);
                    }
                }
            }
            proof {
                if let Some(l) = left {
                    assert(node_ok(n0, fam, l as int));
                    assert(child_fits(n0, left, ml));
                    assert(m2[l as int].prefix == n0[l as int].prefix);
                } else {
                    assert(self.nodes@ == m2);
                }
                assert(self.nodes@ == low_nodes(n0, idx, ml, refine_low));
            }
        } else {
            proof { assert(self.nodes@ == low_nodes(n0, idx, ml, refine_low)); }
        }
        proof {
            let nf = self.nodes@;
            assert(low_step(n0[idx as int], nf[idx as int], refine_low));
            assert forall|j: usize| #[trigger] preorder(n0, idx).contains(j) implies low_refined_at(nf, j as int, refine_low) by {
                if j == idx {
                } else if !is_glue && ml > refine_low {
                    assert(n0[j as int].prefix.masklen >= ml);
                    assert(low_step(n0[j as int], nf[j as int], refine_low));
                }
            }
        }
    }

    /// Node `idx` becomes glue when its mask is at most `refine_low`.
    fn set_glue_from(&mut self, idx: usize, refine_low: u32)
        requires
            old(self).wf(),
            (idx as int) < old(self).nodes_view().len(),
        ensures
            low_steps(old(self).nodes@, final(self).nodes@, refine_low),
            final(self).wf(),
            final(self).family == old(self).family,
            final(self).head == old(self).head,
            same_links(old(self).nodes@, final(self).nodes@),
            final(self).nodes@ == (if old(self).nodes@[idx as int].prefix.masklen <= refine_low {
                old(self).nodes@.update(idx as int, RadixNode { is_glue: true, ..old(self).nodes@[idx as int] })
            } else {
                old(self).nodes@
            }),
    {
        if self.nodes[idx].prefix.masklen <= refine_low {
            self.nodes[idx].is_glue = true;
            proof { self.lemma_flags_only(old(self).nodes@); }
        }
        proof {
            let a = old(self).nodes@;
            let b = self.nodes@;
            assert forall|j: int| 0 <= j < a.len() implies low_step(#[trigger] a[j], b[j], refine_low) by {}
        }
    }

    /// A change of flags alone keeps the tree well formed.
    proof fn lemma_flags_only(&self, n0: Seq<RadixNode>)
        requires
            tree_wf(n0, self.family, self.head),
            same_links(n0, self.nodes@),
        ensures
            self.wf(),
            self.walk_view() == walk(n0, self.head),
    {
        let n1 = self.nodes@;
        assert forall|j: int| 0 <= j < n1.len() implies idx_ok(n1, #[trigger] n1[j].son) by {
            assert(node_ok(n0, self.family, j));
            assert(n1[j].son == n0[j].son);
        }
        lemma_shape_wf(n0, n1, self.family, self.head);
    }

    fn foreach_inner(&self, idx: usize, out: &mut Vec<usize>)
        requires
            self.wf(),
            (idx as int) < self.nodes_view().len(),
        ensures
            final(out)@ == old(out)@ + preorder(self.nodes_view(), idx),
        decreases 129 - self.nodes_view()[idx as int].prefix.masklen,
    {
        proof { assert(node_ok(self.nodes@, self.family, idx as int)); }
        let ghost start = out@;
        out.push(idx);
        if let Some(l) = self.nodes[idx].left {
            proof { assert(node_ok(self.nodes@, self.family, l as int)); }
            self.foreach_inner(l, out);
        }
        let ghost mid = out@;
        if let Some(r) = self.nodes[idx].right {
            proof { assert(node_ok(self.nodes@, self.family, r as int)); }
            self.foreach_inner(r, out);
        }
        assert(out@ =~= start + preorder(self.nodes@, idx));
    }
}

} // verus!
