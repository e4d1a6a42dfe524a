//! Expander configuration: output vendor, what is generated, and the
//! AS-number helpers shared by the command line and the expander.

use vstd::prelude::*;
use vstd::string::*;
use std::collections::BTreeSet;
use crate::text::{all_digits, chars_of, digits_value, parse_u32_range, parse_u32_spec};

verus! {

/// Output dialect.
#[derive(Debug, Clone, Copy, PartialEq, Eq, Structural)]
pub enum Vendor {
    Cisco,
    Juniper,
    CiscoXr,
    Json,
    Bird,
    OpenBgpd,
    Format,
    Nokia,
    Huawei,
    HuaweiXpl,
    Mikrotik6,
    Mikrotik7,
    NokiaMd,
    Arista,
    NokiaSrl,
}

impl Vendor {
    pub fn is_cisco_like(self) -> (b: bool)
        ensures
            b == (self == Vendor::Cisco || self == Vendor::Arista),
    {
        match self {
            Vendor::Cisco | Vendor::Arista => true,
            _ => false,
        }
    }

    pub fn is_nokia_variant(self) -> (b: bool)
        ensures
            b == (self == Vendor::Nokia || self == Vendor::NokiaMd || self == Vendor::NokiaSrl),
    {
        match self {
            Vendor::Nokia | Vendor::NokiaMd | Vendor::NokiaSrl => true,
            _ => false,
        }
    }
}

/// What is generated, in increasing order of the work it asks of the
/// expander.
#[derive(Debug, Clone, Copy, PartialEq, Eq, Structural, PartialOrd, Ord)]
pub enum Generation {
    Nothing,
    AsPath,
    OasPath,
    AsList,
    Asset,
    PrefixList,
    Eacl,
    RouteFilterList,
}

impl Generation {
    /// Position of the variant in declaration order.
    pub open spec fn rank_spec(self) -> u8 {
        match self {
            Generation::Nothing => 0,
            Generation::AsPath => 1,
            Generation::OasPath => 2,
            Generation::AsList => 3,
            Generation::Asset => 4,
            Generation::PrefixList => 5,
            Generation::Eacl => 6,
            Generation::RouteFilterList => 7,
        }
    }

    /// Position of the variant in declaration order, by which generations
    /// are ordered.
    pub fn rank(self) -> (r: u8)
        ensures
            r == self.rank_spec(),
    {
        match self {
            Generation::Nothing => 0,
            Generation::AsPath => 1,
            Generation::OasPath => 2,
            Generation::AsList => 3,
            Generation::Asset => 4,
            Generation::PrefixList => 5,
            Generation::Eacl => 6,
            Generation::RouteFilterList => 7,
        }
    }
}

pub struct ExpanderConfig {
    pub family: u8,
    pub sources: String,
    pub defaultsources: String,
    pub usesource: bool,
    pub asnumber: u32,
    pub aswidth: i32,
    pub name: String,
    pub vendor: Vendor,
    pub generation: Generation,
    pub identify: bool,
    pub sequence: i32,
    pub maxdepth: u32,
    pub validate_asns: bool,
    pub match_expr: Option<String>,
    pub server: String,
    pub port: u16,
    pub format: Option<String>,
    pub maxlen: u32,
    pub pipelining: bool,
    pub expand_special_asn: bool,
    pub debug_expander: i32,
    pub debug_aggregation: i32,
}

impl Default for ExpanderConfig {
    fn default() -> (c: Self)
        ensures
            c.family == 2,
            c.sources@ == Seq::<char>::empty(),
            c.defaultsources@ == Seq::<char>::empty(),
            !c.usesource,
            c.asnumber == 0,
            c.aswidth == 8,
            c.name@ == "NN"@,
            c.vendor == Vendor::Cisco,
            c.generation == Generation::PrefixList,
            c.identify,
            c.sequence == 0,
            c.maxdepth == 0,
            !c.validate_asns,
            c.match_expr is None,
            c.server@ == "rr.ntt.net"@,
            c.port == 43,
            c.format is None,
            c.maxlen == 32,
            c.pipelining,
            !c.expand_special_asn,
            c.debug_expander == 0,
            c.debug_aggregation == 0,
    {
        ExpanderConfig {
            family: 2,
            sources: String::new(),
            defaultsources: String::new(),
            usesource: false,
            asnumber: 0,
            aswidth: 8,
            name: String::from_str("NN"),
            vendor: Vendor::Cisco,
            generation: Generation::PrefixList,
            identify: true,
            sequence: 0,
            maxdepth: 0,
            validate_asns: false,
            match_expr: None,
            server: String::from_str("rr.ntt.net"),
            port: 43,
            format: None,
            maxlen: 32,
            pipelining: true,
            expand_special_asn: false,
            debug_expander: 0,
            debug_aggregation: 0,
        }
    }
}

/// The name printed for a list: the configured one, or "NN" when empty.
pub open spec fn effective_name_spec(name: Seq<char>) -> Seq<char> {
    if name.len() == 0 {
        "NN"@
    } else {
        name
    }
}

impl ExpanderConfig {
    /// Selects the address family; the longest accepted mask follows it.
    pub fn init(&mut self, family: u8)
        ensures
            *final(self) == (ExpanderConfig {
                family,
                maxlen: if family == 10 { 128u32 } else { 32u32 },
                ..*old(self)
            }),
    {
        self.family = family;
        self.maxlen = if family == 10 { 128 } else { 32 };
    }

    pub fn effective_name(&self) -> (r: &str)
        ensures
            r@ == effective_name_spec(self.name@),
    {
        if self.name.as_str().is_empty() {
            "NN"
        } else {
            self.name.as_str()
        }
    }
}

#[derive(Debug, Clone, Copy)]
pub struct AsnEntry {
    pub asn: u32,
}

pub type AsnTree = BTreeSet<u32>;

/// The text after an optional leading "AS".
pub open spec fn strip_as(s: Seq<char>) -> Seq<char> {
    if s.len() >= 2 && s[0] == 'A' && s[1] == 'S' {
        s.subrange(2, s.len() as int)
    } else {
        s
    }
}

/// The AS number written in `s` ("AS" and decimal digits, or digits alone).
pub open spec fn asn_text_value(s: Seq<char>) -> Option<u32> {
    let d = strip_as(s);
    if d.len() > 0 && all_digits(d) && digits_value(d) <= u32::MAX {
        Some(digits_value(d) as u32)
    } else {
        None
    }
}

/// Reserved and private AS numbers, refused unless special numbers are
/// expanded.
pub open spec fn asn_is_special(asn: u32) -> bool {
    asn == 23456 || asn >= 4200000000 || (64496 <= asn && asn <= 65551)
}

/// The AS number that `asn_add` puts in the tree, if it accepts the text.
pub open spec fn asn_accepted(s: Seq<char>, expand_special: bool) -> Option<u32> {
    match asn_text_value(s) {
        Some(a) => if expand_special || !asn_is_special(a) { Some(a) } else { None },
        None => None,
    }
}

/// Adds the AS number written in `asn_str` to the tree. Returns whether
/// it was accepted and not already there.
pub fn asn_add(tree: &mut AsnTree, asn_str: &str, expand_special: bool) -> (r: bool)
    ensures
        match asn_accepted(asn_str@, expand_special) {
            Some(a) => final(tree)@ == old(tree)@.insert(a) && r == !old(tree)@.contains(a),
            None => final(tree)@ == old(tree)@ && !r,
        },
{
    let v = chars_of(asn_str);
    let n = v.len();
    let start: usize = if n >= 2 && v[0] == 'A' && v[1] == 'S' { 2 } else { 0 };
    assert(v@.subrange(start as int, n as int) =~= strip_as(asn_str@));
    let mut pos = start;
    while pos < n && '0' <= v[pos] && v[pos] <= '9'
        invariant
            start <= pos <= n,
            n == v@.len(),
            all_digits(v@.subrange(start as int, pos as int)),
        decreases n - pos,
    {
        pos = pos + 1;
        assert(all_digits(v@.subrange(start as int, pos as int))) by {
            let t = v@.subrange(start as int, pos as int);
            assert forall|k: int| 0 <= k < t.len() implies crate::text::is_digit(#[trigger] t[k]) by {
                if k < t.len() - 1 {
                    assert(t[k] == v@.subrange(start as int, pos - 1)[k]);
                }
            }
        }
    }
    let parsed = parse_u32_range(&v, start, pos);
    let ghost d = strip_as(asn_str@);
    proof {
        let num = v@.subrange(start as int, pos as int);
        if pos < n {
            assert(d[pos - start] == v@[pos as int]);
            assert(!all_digits(d)) by {
                assert(!crate::text::is_digit(d[pos - start]));
            }
        } else {
            assert(num =~= d);
        }
        if num.len() > 0 {
            assert(num[0] != '+') by {
                assert(crate::text::is_digit(num[0]));
            }
        }
    }
    let asn = match parsed {
        Some(a) => a,
        None => {
            return false;
        },
    };
    if pos < n {
        return false;
    }
    if !expand_special && (asn == 23456 || asn >= 4200000000 || (64496 <= asn && asn <= 65551)) {
        return false;
    }
    tree.insert(asn)
}

/// The AS number given on the command line: decimal ("64512") or
/// "asdot" (`hi.lo`, both 1..=65535), at least 1 and at most 65535 * 65535.
pub open spec fn parse_asnumber_spec(s: Seq<char>) -> Option<u32> {
    if s.contains('.') {
        let dot = choose|i: int| 0 <= i < s.len() && s[i] == '.' && forall|j: int| 0 <= j < i ==> s[j] != '.';
        let hi = match parse_u32_spec(s.subrange(0, dot)) { Some(x) => x as int, None => 0 };
        let lo = match parse_u32_spec(s.subrange(dot + 1, s.len() as int)) { Some(x) => x as int, None => 0 };
        if hi < 1 || hi > 65535 || lo < 1 || lo > 65535 {
            None
        } else {
            let asn = hi * 65536 + lo;
            if asn > 65535 * 65535 { None } else { Some(asn as u32) }
        }
    } else {
        match parse_u32_spec(s) {
            Some(asn) => if asn < 1 || asn > 65535 * 65535 { None } else { Some(asn) },
            None => None,
        }
    }
}

/// Reads an AS number; `None` where the number is invalid.
pub fn parse_asnumber(s: &str) -> (r: Option<u32>)
    ensures
        r == parse_asnumber_spec(s@),
{
    let v = chars_of(s);
    let n = v.len();
    let mut i: usize = 0;
    while i < n && v[i] != '.'
        invariant
            i <= n,
            n == v@.len(),
            forall|j: int| 0 <= j < i ==> v@[j] != '.',
        decreases n - i,
    {
        i = i + 1;
    }
    if i < n {
        proof {
            assert(s@.contains('.')) by { assert(s@[i as int] == '.'); }
            let dot = choose|k: int| 0 <= k < s@.len() && s@[k] == '.' && forall|j: int| 0 <= j < k ==> s@[j] != '.';
            assert(s@[i as int] == '.');
            if dot < i {
                assert(v@[dot] != '.');
            } else if dot > i {
                assert(s@[i as int] != '.');
            }
            assert(dot == i);
        }
        let hi: u32 = match parse_u32_range(&v, 0, i) { Some(x) => x, None => 0 };
        let lo: u32 = match parse_u32_range(&v, i + 1, n) { Some(x) => x, None => 0 };
        if hi < 1 || hi > 65535 || lo < 1 || lo > 65535 {
            return None;
        }
        assert((hi << 16u32) == hi * 65536) by (bit_vector)
            requires hi <= 65535;
        let asn: u32 = (hi << 16u32) + lo;
        if asn < 1 || asn > 65535 * 65535 {
            return None;
        }
        Some(asn)
    } else {
        proof {
            assert(v@ =~= s@);
            assert(!s@.contains('.')) by {
                if s@.contains('.') {
                    let k = choose|k: int| 0 <= k < s@.len() && s@[k] == '.';
                    assert(v@[k] != '.');
                }
            }
        }
        assert(v@.subrange(0, n as int) =~= s@);
        match parse_u32_range(&v, 0, n) {
            Some(asn) => {
                if asn < 1 || asn > 65535 * 65535 {
                    None
                } else {
                    Some(asn)
                }
            },
            None => None,
        }
    }
}

} // verus!
