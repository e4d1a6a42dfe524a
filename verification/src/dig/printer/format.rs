//! Text forms of record data pieces: TTLs with units, class names, and the
//! base64 and base32hex encodings.

use vstd::prelude::*;
use vstd::string::*;
use crate::dig::dns::{record_type_of, Rdata, RdataView, RecordType};
use crate::dig::query::class_of;
use crate::ipv6::{join_segments, push_segments, segment};
use crate::text::{dec, digit_char, digit_char_spec, push_char, push_str, push_u32};

verus! {

pub struct FormatOpts {
    pub ttl_units: bool,
    pub unknown_format: bool,
    pub rrcomments: bool,
}

/// "N" and the unit letter when N is not zero.
pub open spec fn unit_part(v: nat, u: char) -> Seq<char> {
    if v > 0 { dec(v).push(u) } else { Seq::empty() }
}

/// A TTL in weeks, days, hours, minutes and seconds, leaving out zero
/// units ("0" for zero, and seconds when nothing else is written).
pub open spec fn ttl_units_text(ttl: u32) -> Seq<char> {
    if ttl == 0 {
        "0"@
    } else {
        let pre = unit_part((ttl / 604800) as nat, 'w') + unit_part(((ttl % 604800) / 86400) as nat, 'd')
            + unit_part(((ttl % 86400) / 3600) as nat, 'h') + unit_part(((ttl % 3600) / 60) as nat, 'm');
        let secs = (ttl % 60) as nat;
        pre + (if secs > 0 || pre.len() == 0 { dec(secs).push('s') } else { Seq::empty() })
    }
}

fn push_unit(out: &mut String, v: u32, u: char)
    ensures
        final(out)@ == old(out)@ + unit_part(v as nat, u),
{
    if v > 0 {
        push_u32(out, v);
        push_char(out, u);
        assert(final(out)@ =~= old(out)@ + unit_part(v as nat, u));
    } else {
        assert(final(out)@ =~= old(out)@ + unit_part(v as nat, u));
    }
}

pub fn format_ttl_units(ttl: u32) -> (s: String)
    ensures
        s@ == ttl_units_text(ttl),
{
    if ttl == 0 {
        return String::from_str("0");
    }
    let mut s = String::new();
    push_unit(&mut s, ttl / 604800, 'w');
    push_unit(&mut s, (ttl % 604800) / 86400, 'd');
    push_unit(&mut s, (ttl % 86400) / 3600, 'h');
    push_unit(&mut s, (ttl % 3600) / 60, 'm');
    let secs = ttl % 60;
    let ghost pre = s@;
    if secs > 0 || s.as_str().is_empty() {
        push_u32(&mut s, secs);
        push_char(&mut s, 's');
        assert(s@ =~= pre + dec(secs as nat).push('s'));
    } else {
        assert(s@ =~= pre + Seq::<char>::empty());
    }
    s
}

/// The mnemonic of a DNS class.
pub open spec fn class_text(class: u16) -> Seq<char> {
    if class == 1 {
        "IN"@
    } else if class == 3 {
        "CH"@
    } else if class == 4 {
        "HS"@
    } else if class == 255 {
        "ANY"@
    } else if class == 254 {
        "NONE"@
    } else {
        "CLASS?"@
    }
}

/// The mnemonic printed for a known class reads back as that class.
pub proof fn lemma_class_name_read_back(class: u16)
    requires
        class == 1 || class == 3 || class == 4 || class == 254 || class == 255,
    ensures
        class_of(class_text(class)) == Some(class),
{
    reveal_strlit("IN");
    reveal_strlit("CH");
    reveal_strlit("CHAOS");
    reveal_strlit("HS");
    reveal_strlit("HESIOD");
    reveal_strlit("NONE");
    reveal_strlit("ANY");
    let t = class_text(class);
    assert(t.len() == 2 && t[0] != 'I' ==> t != "IN"@);
    assert(t.len() == 2 && t[0] != 'C' ==> t != "CH"@);
}

pub fn class_name(class: u16) -> (r: &'static str)
    ensures
        r@ == class_text(class),
{
    match class {
        1 => "IN",
        3 => "CH",
        4 => "HS",
        255 => "ANY",
        254 => "NONE",
        _ => "CLASS?",
    }
}

/// The base64 digit of a 6-bit value.
pub open spec fn b64_digit(v: u8) -> char {
    if v < 26 {
        ((65 + v) as u8) as char
    } else if v < 52 {
        ((97 + v - 26) as u8) as char
    } else if v < 62 {
        ((48 + v - 52) as u8) as char
    } else if v == 62 {
        '+'
    } else {
        '/'
    }
}

fn b64_digit_exec(v: u8) -> (c: char)
    requires
        v < 64,
    ensures
        c == b64_digit(v),
{
    if v < 26 {
        (65u8 + v) as char
    } else if v < 52 {
        (97u8 + v - 26) as char
    } else if v < 62 {
        (48u8 + v - 52) as char
    } else if v == 62 {
        '+'
    } else {
        '/'
    }
}

/// Standard base64 with '=' padding, three bytes to four digits.
pub open spec fn base64_text(d: Seq<u8>) -> Seq<char>
    decreases d.len(),
{
    if d.len() == 0 {
        Seq::empty()
    } else if d.len() == 1 {
        seq![b64_digit(d[0] / 4), b64_digit(((d[0] % 4) * 16) as u8), '=', '=']
    } else if d.len() == 2 {
        seq![b64_digit(d[0] / 4), b64_digit(((d[0] % 4) * 16 + d[1] / 16) as u8), b64_digit(((d[1] % 16) * 4) as u8), '=']
    } else {
        seq![b64_digit(d[0] / 4), b64_digit(((d[0] % 4) * 16 + d[1] / 16) as u8),
            b64_digit(((d[1] % 16) * 4 + d[2] / 64) as u8), b64_digit(d[2] % 64)]
            + base64_text(d.subrange(3, d.len() as int))
    }
}

pub fn base64_encode(data: &[u8]) -> (s: String)
    ensures
        s@ == base64_text(data@),
{
    let mut s = String::new();
    let n = data.len();
    let mut i: usize = 0;
    assert(data@.subrange(0, n as int) =~= data@);
    assert(s@ + base64_text(data@) =~= base64_text(data@));
    while i < n
        invariant
            i <= n,
            n == data@.len(),
            s@ + base64_text(data@.subrange(i as int, n as int)) == base64_text(data@),
        decreases n - i,
    {
        let ghost before = s@;
        let ghost rest = data@.subrange(i as int, n as int);
        let b0 = data[i];
        if n - i == 1 {
            push_char(&mut s, b64_digit_exec(b0 / 4));
            push_char(&mut s, b64_digit_exec((b0 % 4) * 16));
            push_char(&mut s, '=');
            push_char(&mut s, '=');
            assert(s@ =~= before + base64_text(rest));
            i = n;
        } else if n - i == 2 {
            let b1 = data[i + 1];
            push_char(&mut s, b64_digit_exec(b0 / 4));
            push_char(&mut s, b64_digit_exec((b0 % 4) * 16 + b1 / 16));
            push_char(&mut s, b64_digit_exec((b1 % 16) * 4));
            push_char(&mut s, '=');
            assert(s@ =~= before + base64_text(rest));
            i = n;
        } else {
            let b1 = data[i + 1];
            let b2 = data[i + 2];
            push_char(&mut s, b64_digit_exec(b0 / 4));
            push_char(&mut s, b64_digit_exec((b0 % 4) * 16 + b1 / 16));
            push_char(&mut s, b64_digit_exec((b1 % 16) * 4 + b2 / 64));
            push_char(&mut s, b64_digit_exec(b2 % 64));
            assert(rest.subrange(3, rest.len() as int) =~= data@.subrange(i + 3, n as int));
            assert(s@ + base64_text(data@.subrange(i + 3, n as int)) =~= before + base64_text(rest));
            i = i + 3;
        }
        assert(data@.subrange(n as int, n as int).len() == 0);
    }
    assert(data@.subrange(0, n as int) =~= data@);
    s
}

/// The base32hex digit of a 5-bit value ("0"-"9", "A"-"V").
pub open spec fn b32_digit(v: u8) -> char {
    if v < 10 { ((48 + v) as u8) as char } else { ((65 + v - 10) as u8) as char }
}

fn b32_digit_exec(v: u8) -> (c: char)
    requires
        v < 32,
    ensures
        c == b32_digit(v),
{
    if v < 10 { (48u8 + v) as char } else { (65u8 + v - 10) as char }
}

/// The digits the first (up to five) bytes give: 2, 4, 5, 7 or 8 of them.
pub open spec fn b32_head(d: Seq<u8>) -> Seq<char> {
    let n = d.len();
    let b0 = d[0];
    let b1: u8 = if n > 1 { d[1] } else { 0 };
    let b2: u8 = if n > 2 { d[2] } else { 0 };
    let b3: u8 = if n > 3 { d[3] } else { 0 };
    let b4: u8 = if n > 4 { d[4] } else { 0 };
    let c = seq![
        b32_digit(b0 / 8),
        b32_digit(((b0 % 8) * 4 + b1 / 64) as u8),
        b32_digit((b1 / 2) % 32),
        b32_digit(((b1 % 2) * 16 + b2 / 16) as u8),
        b32_digit(((b2 % 16) * 2 + b3 / 128) as u8),
        b32_digit((b3 / 4) % 32),
        b32_digit(((b3 % 4) * 8 + b4 / 32) as u8),
        b32_digit(b4 % 32)
    ];
    if n == 1 {
        c.take(2)
    } else if n == 2 {
        c.take(4)
    } else if n == 3 {
        c.take(5)
    } else if n == 4 {
        c.take(7)
    } else {
        c
    }
}

/// Base32hex without padding: each five bytes give eight digits, a shorter
/// tail gives the digits its bits start.
pub open spec fn base32hex_text(d: Seq<u8>) -> Seq<char>
    decreases d.len(),
{
    if d.len() == 0 {
        Seq::empty()
    } else if d.len() <= 4 {
        b32_head(d)
    } else {
        b32_head(d) + base32hex_text(d.subrange(5, d.len() as int))
    }
}

#[verifier::spinoff_prover]
#[verifier::rlimit(60)]
fn push_b32_head(s: &mut String, data: &[u8], i: usize)
    requires
        i < data@.len(),
    ensures
        final(s)@ == old(s)@ + b32_head(data@.subrange(i as int, data@.len() as int)),
{
    let n = data.len();
    let ghost rest = data@.subrange(i as int, n as int);
    let left = n - i;
    let b0 = data[i];
    let b1: u8 = if left > 1 { data[i + 1] } else { 0 };
    let b2: u8 = if left > 2 { data[i + 2] } else { 0 };
    let b3: u8 = if left > 3 { data[i + 3] } else { 0 };
    let b4: u8 = if left > 4 { data[i + 4] } else { 0 };
    let ghost c = seq![
        b32_digit(b0 / 8),
        b32_digit(((b0 % 8) * 4 + b1 / 64) as u8),
        b32_digit((b1 / 2) % 32),
        b32_digit(((b1 % 2) * 16 + b2 / 16) as u8),
        b32_digit(((b2 % 16) * 2 + b3 / 128) as u8),
        b32_digit((b3 / 4) % 32),
        b32_digit(((b3 % 4) * 8 + b4 / 32) as u8),
        b32_digit(b4 % 32)
    ];
    assert(b32_head(rest) == (if left == 1 { c.take(2) } else if left == 2 { c.take(4) } else if left == 3 {
        c.take(5)
    } else if left == 4 {
        c.take(7)
    } else {
        c
    }));
    let ghost start = s@;
    push_char(s, b32_digit_exec(b0 / 8));
    push_char(s, b32_digit_exec((b0 % 8) * 4 + b1 / 64));
    if left > 1 {
        push_char(s, b32_digit_exec((b1 / 2) % 32));
        push_char(s, b32_digit_exec((b1 % 2) * 16 + b2 / 16));
    }
    if left > 2 {
        push_char(s, b32_digit_exec((b2 % 16) * 2 + b3 / 128));
    }
    if left > 3 {
        push_char(s, b32_digit_exec((b3 / 4) % 32));
        push_char(s, b32_digit_exec((b3 % 4) * 8 + b4 / 32));
    }
    if left > 4 {
        push_char(s, b32_digit_exec(b4 % 32));
    }
    assert(s@ =~= start + b32_head(rest));
}

pub fn base32hex_encode(data: &[u8]) -> (s: String)
    ensures
        s@ == base32hex_text(data@),
{
    let mut s = String::new();
    let n = data.len();
    let mut i: usize = 0;
    assert(data@.subrange(0, n as int) =~= data@);
    assert(s@ + base32hex_text(data@) =~= base32hex_text(data@));
    while i < n
        invariant
            i <= n,
            n == data@.len(),
            s@ + base32hex_text(data@.subrange(i as int, n as int)) == base32hex_text(data@),
        decreases n - i,
    {
        let ghost before = s@;
        let ghost rest = data@.subrange(i as int, n as int);
        push_b32_head(&mut s, data, i);
        if n - i > 4 {
            assert(rest.subrange(5, rest.len() as int) =~= data@.subrange(i + 5, n as int));
            assert(s@ + base32hex_text(data@.subrange(i + 5, n as int)) =~= before + base32hex_text(rest));
            i = i + 5;
        } else {
            assert(s@ =~= before + base32hex_text(rest));
            i = n;
            assert(data@.subrange(n as int, n as int).len() == 0);
        }
    }
    s
}

/// The presentation name of an SVCB parameter key ("key" and the number
/// for keys without a name).
pub open spec fn svc_key_text(key: u16) -> Seq<char> {
    let names: Seq<Seq<char>> = seq![
        "mandatory"@, "alpn"@, "no-default-alpn"@, "port"@, "ipv4hint"@, "ech"@, "ipv6hint"@, "dohpath"@,
    ];
    if key < 8 {
        names[key as int]
    } else {
        "key"@ + dec(key as nat)
    }
}

pub fn svcparam_key_name(key: u16) -> (s: String)
    ensures
        s@ == svc_key_text(key),
{
    let mut out = String::new();
    match key {
        0 => push_str(&mut out, "mandatory"),
        1 => push_str(&mut out, "alpn"),
        2 => push_str(&mut out, "no-default-alpn"),
        3 => push_str(&mut out, "port"),
        4 => push_str(&mut out, "ipv4hint"),
        5 => push_str(&mut out, "ech"),
        6 => push_str(&mut out, "ipv6hint"),
        7 => push_str(&mut out, "dohpath"),
        _ => {
            push_str(&mut out, "key");
            push_u32(&mut out, key as u32);
        },
    }
    out
}

/// Unicode general category Cc: U+0000 to U+001F and U+007F to U+009F.
pub open spec fn is_control_spec(c: char) -> bool {
    (c as u32) < 0x20 || (0x7f <= (c as u32) && (c as u32) <= 0x9f)
}

/// Whether the character's general category is Cc (as `char::is_control`
/// decides it): the two ranges of `is_control_spec`.
fn is_control(c: char) -> (b: bool)
    ensures
        b == is_control_spec(c),
{
    c <= '\u{1f}' || ('\u{7f}' <= c && c <= '\u{9f}')
}

/// Three octal digits of a value below 512.
pub open spec fn octal3(n: nat) -> Seq<char> {
    seq![digit_char_spec((n / 64) % 8), digit_char_spec((n / 8) % 8), digit_char_spec(n % 8)]
}

fn push_octal3(out: &mut String, n: u32)
    requires
        n < 512,
    ensures
        final(out)@ == old(out)@ + octal3(n as nat),
{
    push_char(out, digit_char(((n / 64) % 8) as u64));
    push_char(out, digit_char(((n / 8) % 8) as u64));
    push_char(out, digit_char((n % 8) as u64));
    assert(final(out)@ =~= old(out)@ + octal3(n as nat));
}

/// One character of a DoH path in presentation form.
pub open spec fn dohpath_char(c: char) -> Seq<char> {
    if c == '"' {
        "\\\""@
    } else if c == '\\' {
        "\\\\"@
    } else if c == '\n' {
        "\\n"@
    } else if c == '\r' {
        "\\r"@
    } else if c == '\t' {
        "\\t"@
    } else if is_control_spec(c) {
        seq!['\\'] + octal3((c as u32) as nat)
    } else {
        seq![c]
    }
}

/// A DoH path with quotes, backslashes and control characters escaped.
pub open spec fn dohpath_text(s: Seq<char>) -> Seq<char>
    decreases s.len(),
{
    if s.len() == 0 {
        Seq::empty()
    } else {
        dohpath_text(s.drop_last()) + dohpath_char(s.last())
    }
}

pub fn escape_dohpath(s: &str) -> (r: String)
    ensures
        r@ == dohpath_text(s@),
{
    let v = crate::text::chars_of(s);
    let mut out = String::new();
    let mut i: usize = 0;
    assert(v@.take(0) =~= Seq::<char>::empty());
    while i < v.len()
        invariant
            i <= v@.len(),
            v@ == s@,
            out@ == dohpath_text(v@.take(i as int)),
        decreases v@.len() - i,
    {
        assert(v@.take(i + 1).drop_last() =~= v@.take(i as int));
        let c = v[i];
        let ghost before = out@;
        if c == '"' {
            push_str(&mut out, "\\\"");
        } else if c == '\\' {
            push_str(&mut out, "\\\\");
        } else if c == '\n' {
            push_str(&mut out, "\\n");
        } else if c == '\r' {
            push_str(&mut out, "\\r");
        } else if c == '\t' {
            push_str(&mut out, "\\t");
        } else if is_control(c) {
            push_char(&mut out, '\\');
            push_octal3(&mut out, c as u32);
        } else {
            push_char(&mut out, c);
        }
        assert(out@ =~= before + dohpath_char(c));
        i = i + 1;
    }
    assert(v@.take(v@.len() as int) =~= v@);
    out
}

/// Start of the run of zero groups that ends at group `k` (`k` itself when
/// group `k - 1` is not zero).
pub open spec fn zero_tail_from(a: Seq<u8>, k: int) -> int
    decreases k,
{
    if k > 0 && segment(a, k - 1) == 0 {
        zero_tail_from(a, k - 1)
    } else {
        k
    }
}

/// An AAAA address as groups in hexadecimal separated by colons, where
/// only a run of two or more zero groups at the end is left out (the
/// groups before it, each followed by a colon).
pub open spec fn aaaa_text(a: Seq<u8>) -> Seq<char> {
    let t = zero_tail_from(a, 8);
    if 8 - t >= 2 {
        if t == 0 {
            Seq::empty()
        } else {
            join_segments(a, 0, t) + ":"@
        }
    } else {
        join_segments(a, 0, 8)
    }
}

proof fn lemma_zero_tail_bounds(a: Seq<u8>, k: int)
    requires
        0 <= k <= 8,
    ensures
        0 <= zero_tail_from(a, k) <= k,
    decreases k,
{
    if k > 0 && segment(a, k - 1) == 0 {
        lemma_zero_tail_bounds(a, k - 1);
    }
}

pub fn format_aaaa(addr: &[u8; 16]) -> (s: String)
    ensures
        s@ == aaaa_text(addr@),
{
    let mut t: usize = 8;
    while t > 0 && (addr[2 * t - 2] as u32) * 256 + addr[2 * t - 1] as u32 == 0
        invariant
            t <= 8,
            zero_tail_from(addr@, t as int) == zero_tail_from(addr@, 8),
        decreases t,
    {
        t = t - 1;
    }
    proof { lemma_zero_tail_bounds(addr@, 8); }
    let mut out = String::new();
    if 8 - t >= 2 {
        if t > 0 {
            push_segments(&mut out, addr, 0, t);
            push_str(&mut out, ":");
        }
    } else {
        push_segments(&mut out, addr, 0, 8);
    }
    assert(out@ =~= aaaa_text(addr@));
    out
}

/// One byte of a TXT string in presentation form.
pub open spec fn txt_byte(b: u8) -> Seq<char> {
    if b == 0x5c {
        "\\\\"@
    } else if b == 0x22 {
        "\\\""@
    } else if b == 0x0a {
        "\\n"@
    } else if b == 0x0d {
        "\\r"@
    } else if b == 0x09 {
        "\\t"@
    } else if b < 0x20 || b == 0x7f {
        seq!['\\'] + octal3(b as nat)
    } else {
        seq![b as char]
    }
}

/// A TXT string with quotes, backslashes and control bytes escaped; other
/// bytes become the character of the same number.
pub open spec fn txt_escaped(d: Seq<u8>) -> Seq<char>
    decreases d.len(),
{
    if d.len() == 0 {
        Seq::empty()
    } else {
        txt_escaped(d.drop_last()) + txt_byte(d.last())
    }
}

pub fn escape_txt_string(data: &[u8]) -> (s: String)
    ensures
        s@ == txt_escaped(data@),
{
    let mut out = String::new();
    let mut i: usize = 0;
    assert(data@.take(0) =~= Seq::<u8>::empty());
    while i < data.len()
        invariant
            i <= data@.len(),
            out@ == txt_escaped(data@.take(i as int)),
        decreases data@.len() - i,
    {
        assert(data@.take(i + 1).drop_last() =~= data@.take(i as int));
        let b = data[i];
        let ghost before = out@;
        if b == 0x5c {
            push_str(&mut out, "\\\\");
        } else if b == 0x22 {
            push_str(&mut out, "\\\"");
        } else if b == 0x0a {
            push_str(&mut out, "\\n");
        } else if b == 0x0d {
            push_str(&mut out, "\\r");
        } else if b == 0x09 {
            push_str(&mut out, "\\t");
        } else if b < 0x20 || b == 0x7f {
            push_char(&mut out, '\\');
            push_octal3(&mut out, b as u32);
        } else {
            push_char(&mut out, b as char);
        }
        assert(out@ =~= before + txt_byte(b));
        i = i + 1;
    }
    assert(data@.take(data@.len() as int) =~= data@);
    out
}

/// TXT strings, each escaped in double quotes, separated by spaces.
pub open spec fn txt_list_text(parts: Seq<Seq<u8>>) -> Seq<char>
    decreases parts.len(),
{
    if parts.len() == 0 {
        Seq::empty()
    } else {
        let q = "\""@ + txt_escaped(parts.last()) + "\""@;
        if parts.len() == 1 {
            q
        } else {
            txt_list_text(parts.drop_last()) + " "@ + q
        }
    }
}

pub fn format_txt(parts: &[Vec<u8>]) -> (s: String)
    ensures
        s@ == txt_list_text(parts@.map_values(|x: Vec<u8>| x@)),
{
    let ghost all = parts@.map_values(|x: Vec<u8>| x@);
    let mut out = String::new();
    let mut i: usize = 0;
    assert(all.take(0) =~= Seq::<Seq<u8>>::empty());
    while i < parts.len()
        invariant
            i <= parts@.len(),
            all == parts@.map_values(|x: Vec<u8>| x@),
            out@ == txt_list_text(all.take(i as int)),
        decreases parts@.len() - i,
    {
        assert(all.take(i + 1).drop_last() =~= all.take(i as int));
        assert(all.take(i + 1).last() == parts@[i as int]@);
        if i > 0 {
            push_str(&mut out, " ");
        }
        push_str(&mut out, "\"");
        let e = escape_txt_string(parts[i].as_slice());
        push_str(&mut out, e.as_str());
        push_str(&mut out, "\"");
        i = i + 1;
    }
    assert(all.take(parts@.len() as int) =~= all);
    out
}

/// The mnemonic of a DNSSEC algorithm number.
pub open spec fn secalg_text(alg: u8) -> Seq<char> {
    if alg == 1 {
        "RSAMD5"@
    } else if alg == 2 {
        "DH"@
    } else if alg == 3 {
        "DSA"@
    } else if alg == 5 {
        "RSASHA1"@
    } else if alg == 6 {
        "DSA-NSEC3-SHA1"@
    } else if alg == 7 {
        "RSASHA1-NSEC3-SHA1"@
    } else if alg == 8 {
        "RSASHA256"@
    } else if alg == 10 {
        "RSASHA512"@
    } else if alg == 12 {
        "ECC-GOST"@
    } else if alg == 13 {
        "ECDSAP256SHA256"@
    } else if alg == 14 {
        "ECDSAP384SHA384"@
    } else if alg == 15 {
        "ED25519"@
    } else if alg == 16 {
        "ED448"@
    } else {
        "UNKNOWN"@
    }
}

pub fn secalg_name(alg: u8) -> (r: &'static str)
    ensures
        r@ == secalg_text(alg),
{
    match alg {
        1 => "RSAMD5",
        2 => "DH",
        3 => "DSA",
        5 => "RSASHA1",
        6 => "DSA-NSEC3-SHA1",
        7 => "RSASHA1-NSEC3-SHA1",
        8 => "RSASHA256",
        10 => "RSASHA512",
        12 => "ECC-GOST",
        13 => "ECDSAP256SHA256",
        14 => "ECDSAP384SHA384",
        15 => "ED25519",
        16 => "ED448",
        _ => "UNKNOWN",
    }
}

/// The name of a DS digest type (its number when it has none).
pub open spec fn digest_type_text(dt: u8) -> Seq<char> {
    if dt == 1 {
        "SHA-1"@
    } else if dt == 2 {
        "SHA-256"@
    } else if dt == 4 {
        "SHA-384"@
    } else {
        dec(dt as nat)
    }
}

pub fn digest_type_name(dt: u8) -> (s: String)
    ensures
        s@ == digest_type_text(dt),
{
    let mut out = String::new();
    match dt {
        1 => push_str(&mut out, "SHA-1"),
        2 => push_str(&mut out, "SHA-256"),
        4 => push_str(&mut out, "SHA-384"),
        _ => push_u32(&mut out, dt as u32),
    }
    out
}

/// The sum of the big-endian 16-bit words of `d` (a last odd byte counts
/// as the high byte of a word).
pub open spec fn word_sum(d: Seq<u8>) -> nat
    decreases d.len(),
{
    if d.len() == 0 {
        0
    } else if d.len() == 1 {
        d[0] as nat * 256
    } else {
        d[0] as nat * 256 + d[1] as nat + word_sum(d.subrange(2, d.len() as int))
    }
}

/// The DNSKEY record data the key tag is computed over: flags, protocol,
/// algorithm and key.
pub open spec fn key_data(flags: u16, protocol: u8, algorithm: u8, key: Seq<u8>) -> Seq<u8> {
    seq![(flags / 256) as u8, (flags % 256) as u8, protocol, algorithm] + key
}

/// The key tag of RFC 4034 appendix B: the word sum with its carry folded
/// in once, modulo 2^16.
pub open spec fn key_tag_spec(flags: u16, protocol: u8, algorithm: u8, key: Seq<u8>) -> u16 {
    let s = word_sum(key_data(flags, protocol, algorithm, key));
    ((s + (s / 65536) % 65536) % 65536) as u16
}

proof fn lemma_word_sum_step(d: Seq<u8>, p: int)
    requires
        0 <= p,
        p + 2 <= d.len(),
    ensures
        word_sum(d.subrange(p, d.len() as int)) == d[p] as nat * 256 + d[p + 1] as nat + word_sum(
            d.subrange(p + 2, d.len() as int),
        ),
{
    let t = d.subrange(p, d.len() as int);
    assert(t.subrange(2, t.len() as int) =~= d.subrange(p + 2, d.len() as int));
}

/// The key tag of a DNSKEY. Keys whose word sum with its carry does not
/// fit 32 bits are left out.
pub fn compute_key_tag(flags: u16, protocol: u8, algorithm: u8, public_key: &[u8]) -> (t: u16)
    requires
        ({
            let s = word_sum(key_data(flags, protocol, algorithm, public_key@));
            s + (s / 65536) % 65536 <= u32::MAX
        }),
    ensures
        t == key_tag_spec(flags, protocol, algorithm, public_key@),
{
    let mut data: Vec<u8> = Vec::new();
    data.push((flags / 256) as u8);
    data.push((flags % 256) as u8);
    data.push(protocol);
    data.push(algorithm);
    let mut k: usize = 0;
    while k < public_key.len()
        invariant
            k <= public_key@.len(),
            data@ == seq![(flags / 256) as u8, (flags % 256) as u8, protocol, algorithm] + public_key@.take(k as int),
        decreases public_key@.len() - k,
    {
        data.push(public_key[k]);
        k = k + 1;
        assert(data@ =~= seq![(flags / 256) as u8, (flags % 256) as u8, protocol, algorithm] + public_key@.take(k as int));
    }
    assert(public_key@.take(public_key@.len() as int) =~= public_key@);
    let ghost d = data@;
    let ghost total = word_sum(d);
    assert(d.subrange(0, d.len() as int) =~= d);
    let mut ac: u32 = 0;
    let mut size = data.len();
    let mut p: usize = 0;
    while size > 1
        invariant
            p + size == d.len(),
            d == data@,
            ac + word_sum(d.subrange(p as int, d.len() as int)) == total,
            total + (total / 65536) % 65536 <= u32::MAX,
            d.len() <= usize::MAX,
        decreases size,
    {
        proof { lemma_word_sum_step(d, p as int); }
        let w: u32 = (data[p] as u32) * 256 + data[p + 1] as u32;
        assert(w == d[p as int] as nat * 256 + d[p + 1] as nat);
        assert(ac + w <= total);
        ac = ac + w;
        p = p + 2;
        size = size - 2;
    }
    if size > 0 {
        assert(d.subrange(p as int, d.len() as int) =~= seq![d[p as int]]);
        ac = ac + (data[p] as u32) * 256;
    } else {
        assert(d.subrange(p as int, d.len() as int) =~= Seq::<u8>::empty());
    }
    assert(ac == total);
    let carry: u32 = (ac >> 16) & 0xffff;
    assert(carry == (ac / 65536) % 65536) by (bit_vector)
        requires carry == (ac >> 16) & 0xffff;
    ac = ac + carry;
    let r: u32 = ac & 0xffff;
    assert(r == ac % 65536) by (bit_vector)
        requires r == ac & 0xffff;
    r as u16
}

/// The raw bytes of record data for the unknown-type form: addresses and
/// unknown data as they are, TXT strings each after its length (modulo
/// 256), nothing for other types.
pub open spec fn rdata_bytes(r: RdataView) -> Seq<u8> {
    match r {
        RdataView::A(a) => a,
        RdataView::Aaaa(a) => a,
        RdataView::Unknown(b) => b,
        RdataView::Txt(parts) => txt_wire(parts),
        _ => Seq::empty(),
    }
}

/// TXT strings on the wire: each after its length byte.
pub open spec fn txt_wire(parts: Seq<Seq<u8>>) -> Seq<u8>
    decreases parts.len(),
{
    if parts.len() == 0 {
        Seq::empty()
    } else {
        txt_wire(parts.drop_last()) + seq![(parts.last().len() % 256) as u8] + parts.last()
    }
}

pub fn rdata_to_bytes(rdata: &Rdata) -> (v: Vec<u8>)
    ensures
        v@ == rdata_bytes(rdata@),
{
    let mut v: Vec<u8> = Vec::new();
    match rdata {
        Rdata::A(a) => {
            let mut i: usize = 0;
            while i < 4
                invariant
                    i <= 4,
                    v@ == a@.take(i as int),
                decreases 4 - i,
            {
                v.push(a[i]);
                i = i + 1;
                assert(v@ =~= a@.take(i as int));
            }
            assert(a@.take(4) =~= a@);
        },
        Rdata::Aaaa(a) => {
            let mut i: usize = 0;
            while i < 16
                invariant
                    i <= 16,
                    v@ == a@.take(i as int),
                decreases 16 - i,
            {
                v.push(a[i]);
                i = i + 1;
                assert(v@ =~= a@.take(i as int));
            }
            assert(a@.take(16) =~= a@);
        },
        Rdata::Unknown(b) => {
            let mut i: usize = 0;
            while i < b.len()
                invariant
                    i <= b@.len(),
                    v@ == b@.take(i as int),
                decreases b@.len() - i,
            {
                v.push(b[i]);
                i = i + 1;
                assert(v@ =~= b@.take(i as int));
            }
            assert(b@.take(b@.len() as int) =~= b@);
        },
        Rdata::Txt(parts) => {
            let ghost all = parts@.map_values(|x: Vec<u8>| x@);
            let mut i: usize = 0;
            assert(all.take(0) =~= Seq::<Seq<u8>>::empty());
            while i < parts.len()
                invariant
                    i <= parts@.len(),
                    all == parts@.map_values(|x: Vec<u8>| x@),
                    v@ == txt_wire(all.take(i as int)),
                decreases parts@.len() - i,
            {
                assert(all.take(i + 1).drop_last() =~= all.take(i as int));
                let p = &parts[i];
                let ghost before = v@;
                v.push((p.len() % 256) as u8);
                let mut j: usize = 0;
                while j < p.len()
                    invariant
                        j <= p@.len(),
                        v@ == before.push((p@.len() % 256) as u8) + p@.take(j as int),
                    decreases p@.len() - j,
                {
                    v.push(p[j]);
                    j = j + 1;
                    assert(v@ =~= before.push((p@.len() % 256) as u8) + p@.take(j as int));
                }
                assert(p@.take(p@.len() as int) =~= p@);
                assert(v@ =~= before + seq![(all.take(i + 1).last().len() % 256) as u8] + all.take(i + 1).last());
                i = i + 1;
            }
            assert(all.take(parts@.len() as int) =~= all);
        },
        _ => {},
    }
    v
}

/// The type numbers whose bits are set in byte `k` of window `w`, from
/// bit `j` on (the highest bit is the lowest number).
pub open spec fn bits_from(w: u8, k: int, b: u8, j: int) -> Seq<int>
    decreases 8 - j,
{
    if j < 0 || j >= 8 {
        Seq::empty()
    } else {
        (if b & (1u8 << ((7 - j) as u8)) != 0 { seq![w as int * 256 + k * 8 + j] } else { Seq::empty() })
            + bits_from(w, k, b, j + 1)
    }
}

/// The type numbers of window `w` whose bits are set in `bytes[k..]`.
pub open spec fn window_types(w: u8, bytes: Seq<u8>, k: int) -> Seq<int>
    decreases bytes.len() - k,
{
    if k < 0 || k >= bytes.len() {
        Seq::empty()
    } else {
        bits_from(w, k, bytes[k], 0) + window_types(w, bytes, k + 1)
    }
}

/// The type numbers of an NSEC type bitmap from offset `i`: windows of a
/// number, a length and that many bytes; a window that runs past the end
/// ends the list.
pub open spec fn bitmap_types(bm: Seq<u8>, i: int) -> Seq<int>
    decreases bm.len() - i,
{
    if i < 0 || i + 2 > bm.len() {
        Seq::empty()
    } else {
        let n = bm[i + 1] as int;
        if i + 2 + n > bm.len() {
            Seq::empty()
        } else {
            window_types(bm[i], bm.subrange(i + 2, i + 2 + n), 0) + bitmap_types(bm, i + 2 + n)
        }
    }
}

fn push_byte_types(out: &mut Vec<u16>, w: u8, k: usize, b: u8)
    requires
        k < 256,
        forall|x: int| 0 <= x < bits_from(w, k as int, b, 0).len() ==> #[trigger] bits_from(w, k as int, b, 0)[x] < 65536,
    ensures
        final(out)@.map_values(|v: u16| v as int) == old(out)@.map_values(|v: u16| v as int) + bits_from(w, k as int, b, 0),
{
    let ghost start = old(out)@.map_values(|v: u16| v as int);
    let ghost all = bits_from(w, k as int, b, 0);
    let ghost mut taken: Seq<int> = Seq::empty();
    let mut j: u8 = 0;
    assert(all =~= taken + bits_from(w, k as int, b, 0));
    while j < 8
        invariant
            j <= 8,
            k < 256,
            all == bits_from(w, k as int, b, 0),
            forall|x: int| 0 <= x < all.len() ==> #[trigger] all[x] < 65536,
            out@.map_values(|v: u16| v as int) == start + taken,
            all == taken + bits_from(w, k as int, b, j as int),
        decreases 8 - j,
    {
        let ghost rest = bits_from(w, k as int, b, j as int + 1);
        if b & (1u8 << (7 - j)) != 0 {
            let ghost v: int = w as int * 256 + k as int * 8 + j as int;
            assert(bits_from(w, k as int, b, j as int) == seq![v] + rest);
            assert(all[taken.len() as int] == v);
            let x = (w as u16) * 256 + (k as u16) * 8 + (j as u16);
            assert(x as int == v);
            let ghost before = out@;
            out.push(x);
            assert(out@ == before.push(x));
            assert(out@.map_values(|v: u16| v as int) =~= before.map_values(|v: u16| v as int).push(v));
            proof {
                taken = taken.push(v);
            }
            assert(out@.map_values(|v: u16| v as int) =~= start + taken);
            assert(all =~= taken + rest);
        } else {
            assert(bits_from(w, k as int, b, j as int) =~= rest);
        }
        j = j + 1;
    }
    assert(bits_from(w, k as int, b, 8) =~= Seq::<int>::empty());
    assert(taken =~= all);
}

/// The type numbers of one window, appended.
fn push_window_types(out: &mut Vec<u16>, w: u8, bytes: &[u8])
    requires
        bytes@.len() < 256,
        forall|x: int| 0 <= x < window_types(w, bytes@, 0).len() ==> #[trigger] window_types(w, bytes@, 0)[x] < 65536,
    ensures
        final(out)@.map_values(|v: u16| v as int) == old(out)@.map_values(|v: u16| v as int) + window_types(w, bytes@, 0),
{
    let ghost start = old(out)@.map_values(|v: u16| v as int);
    let ghost all = window_types(w, bytes@, 0);
    let ghost mut taken: Seq<int> = Seq::empty();
    let n = bytes.len();
    let mut k: usize = 0;
    assert(all =~= taken + window_types(w, bytes@, 0));
    while k < n
        invariant
            k <= n,
            n == bytes@.len(),
            n < 256,
            all == window_types(w, bytes@, 0),
            forall|x: int| 0 <= x < all.len() ==> #[trigger] all[x] < 65536,
            out@.map_values(|v: u16| v as int) == start + taken,
            all == taken + window_types(w, bytes@, k as int),
        decreases n - k,
    {
        let ghost bf = bits_from(w, k as int, bytes@[k as int], 0);
        let ghost rest = window_types(w, bytes@, k + 1);
        assert(window_types(w, bytes@, k as int) == bf + rest);
        assert forall|x: int| 0 <= x < bf.len() implies #[trigger] bf[x] < 65536 by {
            assert(all == taken + (bf + rest));
            assert(all[taken.len() + x] == bf[x]);
        }
        push_byte_types(out, w, k, bytes[k]);
        proof {
            taken = taken + bf;
        }
        assert(out@.map_values(|v: u16| v as int) =~= start + taken);
        assert(all =~= taken + rest);
        k = k + 1;
    }
    assert(window_types(w, bytes@, n as int) =~= Seq::<int>::empty());
    assert(taken =~= all);
}

/// The type numbers set in an NSEC type bitmap (see `bitmap_types`), in
/// order. Naming them is left to the caller.
/// The name a type number is shown by: the mnemonic of a known type, else
/// "TYPE" and the number.
pub open spec fn type_display(n: u16) -> Seq<char> {
    match record_type_of(n) {
        Some(t) => t.mnemonic(),
        None => "TYPE"@ + dec(n as nat),
    }
}

/// The name a type number is shown by (see `type_display`).
pub fn type_display_str(n: u16) -> (s: String)
    ensures
        s@ == type_display(n),
{
    match RecordType::from_u16(n) {
        Some(t) => String::from_str(t.as_str()),
        None => {
            let mut s = String::from_str("TYPE");
            push_u32(&mut s, n as u32);
            s
        },
    }
}

/// The names of the types an NSEC-style type bitmap lists, in order (see
/// `bitmap_types` and `type_display`).
pub fn decode_type_bitmap(bitmap: &[u8]) -> (names: Vec<String>)
    requires
        forall|x: int| 0 <= x < bitmap_types(bitmap@, 0).len() ==> #[trigger] bitmap_types(bitmap@, 0)[x] < 65536,
    ensures
        names@.len() == bitmap_types(bitmap@, 0).len(),
        forall|x: int| 0 <= x < names@.len() ==> #[trigger] names@[x]@ == type_display(bitmap_types(bitmap@, 0)[x] as u16),
{
    let types = bitmap_type_numbers(bitmap);
    let mut names: Vec<String> = Vec::new();
    let mut i: usize = 0;
    while i < types.len()
        invariant
            i <= types@.len(),
            types@.map_values(|v: u16| v as int) == bitmap_types(bitmap@, 0),
            names@.len() == i,
            forall|x: int| 0 <= x < i ==> #[trigger] names@[x]@ == type_display(types@[x]),
        decreases types@.len() - i,
    {
        names.push(type_display_str(types[i]));
        i = i + 1;
    }
    proof {
        assert forall|x: int| 0 <= x < names@.len() implies #[trigger] names@[x]@ == type_display(bitmap_types(bitmap@, 0)[x] as u16) by {
            assert(types@.map_values(|v: u16| v as int)[x] == types@[x] as int);
        }
    }
    names
}

/// The type numbers an NSEC-style type bitmap lists, in order.
pub fn bitmap_type_numbers(bitmap: &[u8]) -> (types: Vec<u16>)
    requires
        forall|x: int| 0 <= x < bitmap_types(bitmap@, 0).len() ==> #[trigger] bitmap_types(bitmap@, 0)[x] < 65536,
    ensures
        types@.map_values(|v: u16| v as int) == bitmap_types(bitmap@, 0),
{
    let n = bitmap.len();
    let mut types: Vec<u16> = Vec::new();
    let ghost all = bitmap_types(bitmap@, 0);
    let ghost mut taken: Seq<int> = Seq::empty();
    let mut i: usize = 0;
    let mut done = false;
    assert(types@.map_values(|v: u16| v as int) =~= taken);
    assert(all =~= taken + bitmap_types(bitmap@, 0));
    while !done
        invariant
            i <= n,
            n == bitmap@.len(),
            all == bitmap_types(bitmap@, 0),
            forall|x: int| 0 <= x < all.len() ==> #[trigger] all[x] < 65536,
            types@.map_values(|v: u16| v as int) == taken,
            done ==> all == taken,
            !done ==> all == taken + bitmap_types(bitmap@, i as int),
        decreases n - i + (if done { 0int } else { 1int }),
    {
        if n - i < 2 {
            assert(bitmap_types(bitmap@, i as int) =~= Seq::<int>::empty());
            assert(all =~= taken);
            done = true;
        } else {
            let w = bitmap[i];
            let len = bitmap[i + 1] as usize;
            if len > n - i - 2 {
                assert(bitmap_types(bitmap@, i as int) =~= Seq::<int>::empty());
                assert(all =~= taken);
                done = true;
            } else {
                let start = i + 2;
                let ghost sub = bitmap@.subrange(start as int, (start + len) as int);
                let ghost wt = window_types(w, sub, 0);
                let ghost rest = bitmap_types(bitmap@, (start + len) as int);
                assert(bitmap_types(bitmap@, i as int) == wt + rest);
                let window = copy_slice(bitmap, start, start + len);
                assert(window@ == sub);
                assert forall|x: int| 0 <= x < wt.len() implies #[trigger] wt[x] < 65536 by {
                    assert(all == taken + (wt + rest));
                    assert(all[taken.len() + x] == wt[x]);
                }
                push_window_types(&mut types, w, window.as_slice());
                proof {
                    taken = taken + wt;
                }
                assert(all =~= taken + rest);
                i = start + len;
            }
        }
    }
    types
}

fn copy_slice(b: &[u8], lo: usize, hi: usize) -> (v: Vec<u8>)
    requires
        lo <= hi <= b@.len(),
    ensures
        v@ == b@.subrange(lo as int, hi as int),
{
    let mut v: Vec<u8> = Vec::new();
    let mut k = lo;
    while k < hi
        invariant
            lo <= k <= hi <= b@.len(),
            v@ == b@.subrange(lo as int, k as int),
        decreases hi - k,
    {
        v.push(b[k]);
        k = k + 1;
        assert(v@ =~= b@.subrange(lo as int, k as int));
    }
    v
}

} // verus!
