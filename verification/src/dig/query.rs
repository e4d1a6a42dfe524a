//! What a lookup is aimed at: query classes by name, reverse-lookup names
//! of addresses, and the server to ask.

use vstd::prelude::*;
use vstd::string::*;
use crate::text::{chars_of, dec, lemma_contains_find, find_char, push_char, push_str, push_u32, str_eq};

verus! {

/// The class number of a (upper-case) class mnemonic.
pub open spec fn class_of(s: Seq<char>) -> Option<u16> {
    if s == "IN"@ {
        Some(1)
    } else if s == "CH"@ || s == "CHAOS"@ {
        Some(3)
    } else if s == "HS"@ || s == "HESIOD"@ {
        Some(4)
    } else if s == "NONE"@ {
        Some(254)
    } else if s == "ANY"@ {
        Some(255)
    } else {
        None
    }
}

pub fn parse_class(s: &str) -> (r: Option<u16>)
    ensures
        r == class_of(s@),
{
    if str_eq(s, "IN") {
        Some(1)
    } else if str_eq(s, "CH") || str_eq(s, "CHAOS") {
        Some(3)
    } else if str_eq(s, "HS") || str_eq(s, "HESIOD") {
        Some(4)
    } else if str_eq(s, "NONE") {
        Some(254)
    } else if str_eq(s, "ANY") {
        Some(255)
    } else {
        None
    }
}

/// The characters of `s` other than ':', last first.
pub open spec fn rev_without_colons(s: Seq<char>) -> Seq<char>
    decreases s.len(),
{
    if s.len() == 0 {
        Seq::empty()
    } else {
        (if s.last() == ':' { Seq::empty() } else { seq![s.last()] }) + rev_without_colons(s.drop_last())
    }
}

/// Characters separated by dots.
pub open spec fn dot_separated(r: Seq<char>) -> Seq<char>
    decreases r.len(),
{
    if r.len() == 0 {
        Seq::empty()
    } else if r.len() == 1 {
        r
    } else {
        dot_separated(r.drop_last()) + "."@ + seq![r.last()]
    }
}

/// The parts of `s` between the separators `c` (one part more than there
/// are separators).
pub open spec fn split_on(s: Seq<char>, c: char) -> Seq<Seq<char>>
    decreases s.len(),
{
    if s.len() == 0 {
        seq![Seq::empty()]
    } else {
        let prev = split_on(s.drop_last(), c);
        if s.last() == c {
            prev.push(Seq::empty())
        } else {
            prev.update(prev.len() - 1, prev.last().push(s.last()))
        }
    }
}

proof fn lemma_split_on_nonempty(s: Seq<char>, c: char)
    ensures
        split_on(s, c).len() >= 1,
    decreases s.len(),
{
    if s.len() > 0 {
        lemma_split_on_nonempty(s.drop_last(), c);
    }
}

/// The reverse-lookup name of an address: for one with a ':' its
/// hexadecimal digits one per label, last first, under "ip6.arpa"; for a
/// dotted quad its four parts reversed under "in-addr.arpa"; anything else
/// with "in-addr.arpa" appended.
pub open spec fn reverse_name(addr: Seq<char>) -> Seq<char> {
    if addr.contains(':') {
        dot_separated(rev_without_colons(addr)) + ".ip6.arpa"@
    } else {
        let parts = split_on(addr, '.');
        if parts.len() == 4 {
            parts[3] + "."@ + parts[2] + "."@ + parts[1] + "."@ + parts[0] + ".in-addr.arpa"@
        } else {
            addr + ".in-addr.arpa"@
        }
    }
}

fn split_chars(v: &Vec<char>, c: char) -> (parts: Vec<Vec<char>>)
    ensures
        parts@.map_values(|p: Vec<char>| p@) == split_on(v@, c),
{
    let mut parts: Vec<Vec<char>> = Vec::new();
    let mut cur: Vec<char> = Vec::new();
    let mut i: usize = 0;
    proof { lemma_split_on_nonempty(v@.take(0), c); }
    assert(v@.take(0) =~= Seq::<char>::empty());
    assert(parts@.map_values(|p: Vec<char>| p@).push(cur@) =~= split_on(v@.take(0), c));
    while i < v.len()
        invariant
            i <= v@.len(),
            parts@.map_values(|p: Vec<char>| p@).push(cur@) == split_on(v@.take(i as int), c),
        decreases v@.len() - i,
    {
        let ghost before = parts@.map_values(|p: Vec<char>| p@);
        assert(v@.take(i + 1).drop_last() =~= v@.take(i as int));
        if v[i] == c {
            parts.push(cur);
            cur = Vec::new();
            assert(parts@.map_values(|p: Vec<char>| p@) =~= split_on(v@.take(i as int), c));
            assert(parts@.map_values(|p: Vec<char>| p@).push(cur@) =~= split_on(v@.take(i + 1), c));
        } else {
            let ghost old_cur = cur@;
            cur.push(v[i]);
            assert(before.push(cur@) =~= before.push(old_cur).update(before.len() as int, old_cur.push(v@[i as int])));
        }
        i = i + 1;
    }
    assert(v@.take(v@.len() as int) =~= v@);
    parts.push(cur);
    parts
}

/// Builds the reverse-lookup name of an address (see `reverse_name`).
pub fn build_reverse_name(addr: &str) -> (r: String)
    ensures
        r@ == reverse_name(addr@),
{
    let v = chars_of(addr);
    proof { lemma_contains_find(v@, ':'); }
    let mut out = String::new();
    if find_char(&v, ':', 0) < v.len() {
        let mut i: usize = v.len();
        let mut first = true;
        let ghost mut r: Seq<char> = Seq::empty();
        assert(v@.take(i as int) =~= v@);
        assert(r + rev_without_colons(v@.take(i as int)) =~= rev_without_colons(v@));
        while i > 0
            invariant
                i <= v@.len(),
                out@ == dot_separated(r),
                first == (r.len() == 0),
                r + rev_without_colons(v@.take(i as int)) == rev_without_colons(v@),
            decreases i,
        {
            let c = v[i - 1];
            assert(v@.take(i as int).drop_last() =~= v@.take(i - 1));
            if c != ':' {
                if !first {
                    push_str(&mut out, ".");
                }
                push_char(&mut out, c);
                proof {
                    assert(r.push(c).drop_last() =~= r);
                    if r.len() == 0 {
                        assert(dot_separated(r.push(c)) =~= seq![c]);
                    }
                    assert(r.push(c) + rev_without_colons(v@.take(i - 1)) =~= r + (seq![c] + rev_without_colons(v@.take(i - 1))));
                    r = r.push(c);
                }
                first = false;
            } else {
                assert(r + rev_without_colons(v@.take(i - 1)) =~= r + (Seq::<char>::empty() + rev_without_colons(v@.take(i - 1))));
            }
            i = i - 1;
        }
        assert(v@.take(0) =~= Seq::<char>::empty());
        assert(r + Seq::<char>::empty() =~= r);
        push_str(&mut out, ".ip6.arpa");
    } else {
        let parts = split_chars(&v, '.');
        let ghost sp = parts@.map_values(|p: Vec<char>| p@);
        if parts.len() == 4 {
            assert(sp[3] == parts@[3]@ && sp[2] == parts@[2]@ && sp[1] == parts@[1]@ && sp[0] == parts@[0]@);
            let a = crate::text::string_from_chars(parts[3].as_slice());
            push_str(&mut out, a.as_str());
            push_str(&mut out, ".");
            let b = crate::text::string_from_chars(parts[2].as_slice());
            push_str(&mut out, b.as_str());
            push_str(&mut out, ".");
            let c = crate::text::string_from_chars(parts[1].as_slice());
            push_str(&mut out, c.as_str());
            push_str(&mut out, ".");
            let d = crate::text::string_from_chars(parts[0].as_slice());
            push_str(&mut out, d.as_str());
            push_str(&mut out, ".in-addr.arpa");
        } else {
            push_str(&mut out, addr);
            push_str(&mut out, ".in-addr.arpa");
        }
    }
    out
}

/// Where queries go, before the socket address is read: a DNS-over-HTTPS
/// URL, or the text of a socket address.
#[derive(Debug, PartialEq)]
pub enum ServerTarget {
    Doh(String),
    Socket(String),
}

/// `s` starts with `p`.
pub open spec fn has_prefix(s: Seq<char>, p: Seq<char>) -> bool {
    s.len() >= p.len() && s.subrange(0, p.len() as int) == p
}

/// The text handed to the socket-address parser: the server as written
/// when it holds a ':', else with the default port appended.
pub open spec fn server_text(s: Seq<char>, default_port: u16) -> Seq<char> {
    if s.contains(':') {
        s
    } else {
        s + ":"@ + dec(default_port as nat)
    }
}

/// A server is a DNS-over-HTTPS URL when it starts with "https://" or
/// "http://".
pub open spec fn is_doh(s: Seq<char>) -> bool {
    has_prefix(s, "https://"@) || has_prefix(s, "http://"@)
}

pub(crate) fn starts_with_str(s: &str, p: &str) -> (b: bool)
    ensures
        b == has_prefix(s@, p@),
{
    let v = chars_of(s);
    let w = chars_of(p);
    if v.len() < w.len() {
        return false;
    }
    let mut i: usize = 0;
    while i < w.len()
        invariant
            i <= w@.len() <= v@.len(),
            v@ == s@,
            w@ == p@,
            v@.subrange(0, i as int) == w@.subrange(0, i as int),
        decreases w@.len() - i,
    {
        if v[i] != w[i] {
            assert(v@.subrange(0, w@.len() as int)[i as int] != w@[i as int]);
            return false;
        }
        i = i + 1;
        assert(v@.subrange(0, i as int) =~= w@.subrange(0, i as int)) by {
            assert forall|k: int| 0 <= k < i implies v@.subrange(0, i as int)[k] == w@.subrange(0, i as int)[k] by {
                if k < i - 1 {
                    assert(v@.subrange(0, i - 1)[k] == w@.subrange(0, i - 1)[k]);
                }
            }
        }
    }
    assert(w@.subrange(0, w@.len() as int) =~= w@);
    true
}

/// Sorts out the server to query: a DNS-over-HTTPS URL as it is;
/// otherwise the socket address text, the default port added when the
/// server holds no ':'. Reading the socket address itself is left to the
/// caller.
pub fn server_target(s: &str, default_port: u16) -> (r: ServerTarget)
    ensures
        is_doh(s@) ==> (r matches ServerTarget::Doh(u) && u@ == s@),
        !is_doh(s@) ==> (r matches ServerTarget::Socket(t) && t@ == server_text(s@, default_port)),
{
    if starts_with_str(s, "https://") || starts_with_str(s, "http://") {
        return ServerTarget::Doh(String::from_str(s));
    }
    let v = chars_of(s);
    proof { lemma_contains_find(v@, ':'); }
    if find_char(&v, ':', 0) < v.len() {
        ServerTarget::Socket(String::from_str(s))
    } else {
        let mut t = String::from_str(s);
        push_str(&mut t, ":");
        push_u32(&mut t, default_port as u32);
        ServerTarget::Socket(t)
    }
}

/// How queries are sent.
pub struct ResolverConfig {
    pub use_tcp: bool,
    pub ignore_tc: bool,
    pub timeout_secs: u64,
    pub tries: u32,
    pub retry: u32,
    pub udp_bufsize: u16,
}

impl Default for ResolverConfig {
    fn default() -> (c: Self)
        ensures
            !c.use_tcp,
            !c.ignore_tc,
            c.timeout_secs == 5,
            c.tries == 3,
            c.retry == 0,
            c.udp_bufsize == 1232,
    {
        ResolverConfig { use_tcp: false, ignore_tc: false, timeout_secs: 5, tries: 3, retry: 0, udp_bufsize: 1232 }
    }
}

impl ResolverConfig {
    /// How many times a UDP query is sent before giving up: one more than
    /// the retries when retries are set, else the tries.
    pub fn total_tries(&self) -> (n: u32)
        requires
            self.retry < u32::MAX,
        ensures
            n == (if self.retry > 0 { self.retry + 1 } else { self.tries as int }),
    {
        if self.retry > 0 {
            self.retry + 1
        } else {
            self.tries
        }
    }

    /// A truncated UDP answer is asked again over TCP unless truncation is
    /// ignored.
    pub fn retry_over_tcp(&self, truncated: bool) -> (b: bool)
        ensures
            b == (truncated && !self.ignore_tc),
    {
        truncated && !self.ignore_tc
    }

    /// The size of the buffer an UDP answer is read into: the advertised
    /// size, at least 512 bytes.
    pub fn recv_size(&self) -> (n: usize)
        ensures
            n == (if self.udp_bufsize < 512 { 512 } else { self.udp_bufsize as int }),
    {
        if self.udp_bufsize < 512 {
            512
        } else {
            self.udp_bufsize as usize
        }
    }
}

} // verus!
