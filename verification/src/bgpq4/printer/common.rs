//! What every prefix printer shares: the walk over the visible (non-glue)
//! nodes of the tree and the text of one entry in each dialect.

use vstd::prelude::*;
use vstd::string::*;
use vstd::utf8::encode_utf8;
use crate::text::{dec, dec_int, push_char, push_i64, push_str, push_u32, push_u64};
use crate::bgpq4::prefix::{addr_text, fmt_text, max_bits, node_ok, RadixNode, RadixTree};
use crate::bgpq4::config::effective_name_spec;
use crate::bgpq4::expander::Expander;

verus! {

/// The name of the generated list.
pub open spec fn list_name(exp: &Expander) -> Seq<char> {
    effective_name_spec(exp.config.name@)
}

/// The catch-all prefix of an empty list.
pub open spec fn default_prefix(family: u8) -> Seq<char> {
    if family == 2 { "0.0.0.0/0"@ } else { "::/0"@ }
}

pub fn push_default_prefix(out: &mut String, family: u8)
    ensures
        final(out)@ == old(out)@ + default_prefix(family),
{
    if family == 2 {
        push_str(out, "0.0.0.0/0");
    } else {
        push_str(out, "::/0");
    }
}

/// "ip" for IPv4 (family 2), "ipv6" otherwise.
pub open spec fn ip_family_text(family: u8) -> Seq<char> {
    if family == 2 { "ip"@ } else { "ipv6"@ }
}

pub fn format_ip_family(family: u8) -> (r: &'static str)
    ensures
        r@ == ip_family_text(family),
{
    if family == 2 { "ip" } else { "ipv6" }
}

pub struct NodeWalkState {
    pub needs_comma: bool,
    pub seq: u32,
}

impl NodeWalkState {
    pub fn new() -> (s: NodeWalkState)
        ensures
            !s.needs_comma,
            s.seq == 0,
    {
        NodeWalkState { needs_comma: false, seq: 0 }
    }
}

pub struct FormatCtx {
    pub bname: String,
    pub seq: u32,
    pub needs_comma: bool,
    pub jrfilter_prefixed: bool,
}

impl FormatCtx {
    pub fn new(name: &str) -> (c: FormatCtx)
        ensures
            c.bname@ == (if name@.len() == 0 { "NN"@ } else { name@ }),
            c.seq == 0,
            !c.needs_comma,
            c.jrfilter_prefixed,
    {
        let bname = if name.is_empty() { String::from_str("NN") } else { String::from_str(name) };
        FormatCtx { bname, seq: 0, needs_comma: false, jrfilter_prefixed: true }
    }
}

/// Glue nodes only hold the tree together and are not printed.
pub fn is_output_node(node: &RadixNode) -> (b: bool)
    ensures
        b == !node.is_glue,
{
    !node.is_glue
}

/// Number of visible nodes among the given indices.
pub open spec fn visible_count(nodes: Seq<RadixNode>, order: Seq<usize>) -> nat
    decreases order.len(),
{
    if order.len() == 0 {
        0
    } else {
        visible_count(nodes, order.drop_last()) + if nodes[order.last() as int].is_glue { 0nat } else { 1nat }
    }
}

/// The concatenated entries of the visible nodes, in order; `entry` gets
/// the node and the number of visible nodes before it.
pub open spec fn walk_text(nodes: Seq<RadixNode>, order: Seq<usize>, entry: spec_fn(RadixNode, nat) -> Seq<char>) -> Seq<char>
    decreases order.len(),
{
    if order.len() == 0 {
        Seq::empty()
    } else {
        let prev = walk_text(nodes, order.drop_last(), entry);
        let n = nodes[order.last() as int];
        if n.is_glue { prev } else { prev + entry(n, visible_count(nodes, order.drop_last())) }
    }
}

pub proof fn lemma_walk_step(nodes: Seq<RadixNode>, order: Seq<usize>, i: int, entry: spec_fn(RadixNode, nat) -> Seq<char>)
    requires
        0 <= i < order.len(),
    ensures
        visible_count(nodes, order.take(i + 1)) == visible_count(nodes, order.take(i))
            + if nodes[order[i] as int].is_glue { 0nat } else { 1nat },
        walk_text(nodes, order.take(i + 1), entry) == if nodes[order[i] as int].is_glue {
            walk_text(nodes, order.take(i), entry)
        } else {
            walk_text(nodes, order.take(i), entry) + entry(nodes[order[i] as int], visible_count(nodes, order.take(i)))
        },
{
    assert(order.take(i + 1).drop_last() =~= order.take(i));
}

pub proof fn lemma_visible_count_prefix(nodes: Seq<RadixNode>, order: Seq<usize>, i: int)
    requires
        0 <= i <= order.len(),
    ensures
        visible_count(nodes, order.take(i)) <= visible_count(nodes, order),
        visible_count(nodes, order.take(i)) <= i,
    decreases order.len() - i,
{
    lemma_visible_count_bound(nodes, order.take(i));
    if i < order.len() {
        lemma_walk_step(nodes, order, i, |n: RadixNode, k: nat| Seq::<char>::empty());
        lemma_visible_count_prefix(nodes, order, i + 1);
    } else {
        assert(order.take(i) =~= order);
        lemma_visible_count_bound(nodes, order);
    }
}

proof fn lemma_visible_count_bound(nodes: Seq<RadixNode>, order: Seq<usize>)
    ensures
        visible_count(nodes, order) <= order.len(),
    decreases order.len(),
{
    if order.len() > 0 {
        lemma_visible_count_bound(nodes, order.drop_last());
    }
}

/// The dialect of one printed entry.
#[derive(Clone, Copy, PartialEq, Eq, Structural)]
pub enum EntryStyle {
    JuniperList,
    JuniperFilter,
    JuniperFilterList,
    Cisco,
    CiscoXr,
    Arista,
    Bird,
    Huawei,
    HuaweiXpl,
    Mikrotik,
    NokiaList,
    NokiaIpList,
    NokiaMdList,
    NokiaMdIpList,
    NokiaSrlSet,
    NokiaSrlAcl,
    OpenBgpd,
    Format,
    Json,
}

/// " ge LOW le HIGH" / " le HIGH" / "" by the aggregate of the node.
pub open spec fn ge_le(n: RadixNode) -> Seq<char> {
    if !n.is_aggregate {
        Seq::empty()
    } else if n.aggregate_low > n.prefix.masklen {
        " ge "@ + dec(n.aggregate_low as nat) + " le "@ + dec(n.aggregate_hi as nat)
    } else {
        " le "@ + dec(n.aggregate_hi as nat)
    }
}

/// The bounds printed for a node carry its whole permitted range: nothing
/// for a plain node; for an aggregate the text ends in " le " and its upper
/// bound, and begins with " ge " and its lower bound exactly when that
/// bound is longer than the prefix (so the printed entry lets through the
/// lengths from the larger of the two up to the upper bound).
pub proof fn lemma_ge_le_bounds(n: RadixNode)
    ensures
        !n.is_aggregate ==> ge_le(n).len() == 0,
        n.is_aggregate ==> ({
            let t = ge_le(n);
            let hi = " le "@ + dec(n.aggregate_hi as nat);
            &&& t.len() >= hi.len()
            &&& t.subrange(t.len() - hi.len(), t.len() as int) == hi
            &&& (t.len() > hi.len() <==> n.aggregate_low > n.prefix.masklen)
            &&& (n.aggregate_low > n.prefix.masklen ==> t == " ge "@ + dec(n.aggregate_low as nat) + hi)
        }),
{
    reveal_strlit(" le ");
    reveal_strlit(" ge ");
    if n.is_aggregate {
        let t = ge_le(n);
        let hi = " le "@ + dec(n.aggregate_hi as nat);
        if n.aggregate_low > n.prefix.masklen {
            let g = " ge "@ + dec(n.aggregate_low as nat);
            assert(t =~= g + hi);
            assert(t.subrange(t.len() - hi.len(), t.len() as int) =~= hi);
        } else {
            assert(t =~= hi);
            assert(t.subrange(t.len() - hi.len(), t.len() as int) =~= hi);
        }
    }
}

/// The lower bound a node's aggregate is printed with: its own low bound
/// when longer than the prefix, the prefix length otherwise.
pub open spec fn agg_low_or_len(n: RadixNode) -> u32 {
    if n.aggregate_low > n.prefix.masklen { n.aggregate_low } else { n.prefix.masklen }
}

/// `addr SEP len` of the node's prefix.
pub open spec fn prefix_sep(n: RadixNode, sep: Seq<char>) -> Seq<char> {
    addr_text(n.prefix.family, n.prefix.addrs@) + sep + dec(n.prefix.masklen as nat)
}

/// The text of the visible node `n`, the `k`-th one printed, in a dialect.
/// `name` is the list name, `ip` the family word, `base` the first
/// sequence number, `flag` a dialect switch (sequence numbers for Cisco,
/// RouterOS 7 for MikroTik) and `fmt` the user format.
pub open spec fn entry_text(style: EntryStyle, n: RadixNode, k: nat, name: Seq<char>, ip: Seq<char>, base: int, flag: bool, fmt: Seq<char>) -> Seq<char> {
    let p = n.prefix.text();
    let hi = dec(n.aggregate_hi as nat);
    let lo = dec(n.aggregate_low as nat);
    let ml = dec(n.prefix.masklen as nat);
    match style {
        EntryStyle::JuniperList => "    "@ + p + ";\n"@,
        EntryStyle::JuniperFilter => if !n.is_aggregate {
            "    "@ + "route-filter "@ + p + " exact;\n"@
        } else if n.aggregate_low > n.prefix.masklen {
            "    "@ + "route-filter "@ + p + " prefix-length-range /"@ + lo + "-/"@ + hi + ";\n"@
        } else {
            "    "@ + "route-filter "@ + p + " upto /"@ + hi + ";\n"@
        },
        EntryStyle::JuniperFilterList => if !n.is_aggregate {
            "    "@ + p + " exact;\n"@
        } else if n.aggregate_low > n.prefix.masklen {
            "    "@ + p + " prefix-length-range /"@ + lo + "-/"@ + hi + ";\n"@
        } else {
            "    "@ + p + " upto /"@ + hi + ";\n"@
        },
        EntryStyle::Cisco => ip_family_text(n.prefix.family) + " prefix-list "@ + name
            + (if flag { " seq "@ + dec(k + 1) } else { Seq::empty() }) + " permit "@ + p + ge_le(n) + "\n"@,
        EntryStyle::CiscoXr => (if k > 0 { ",\n "@ } else { " "@ }) + p + ge_le(n),
        EntryStyle::Arista => "   seq "@ + crate::text::dec_int(base + (k as int)) + " permit "@ + p + ge_le(n) + "\n"@,
        EntryStyle::Bird => (if k > 0 { ","@ } else { Seq::empty() }) + "\n    "@ + p + (if !n.is_aggregate {
            Seq::empty()
        } else {
            "{"@ + dec(agg_low_or_len(n) as nat) + ","@ + hi + "}"@
        }),
        EntryStyle::Huawei => "ip "@ + ip + "-prefix "@ + name + " permit "@ + prefix_sep(n, " "@) + (if !n.is_aggregate {
            Seq::empty()
        } else if n.aggregate_low > n.prefix.masklen {
            " greater-equal "@ + lo + " less-equal "@ + hi
        } else {
            " less-equal "@ + hi
        }) + "\n"@,
        EntryStyle::HuaweiXpl => (if k > 0 { ",\n  "@ } else { "  "@ }) + prefix_sep(n, " "@) + ge_le(n),
        EntryStyle::Mikrotik => {
            let v = if n.prefix.family == 2 { "V4"@ } else { "V6"@ };
            let ps = prefix_sep(n, "/"@);
            if n.is_aggregate {
                if flag {
                    "/routing filter rule add chain=\""@ + name + "-"@ + v + "\" rule=\"if (dst in "@ + ps
                        + " && dst-len in "@ + lo + "-"@ + hi + ") {accept}\"\n"@
                } else {
                    "/routing filter add action=accept chain=\""@ + name + "-"@ + v + "\" prefix="@ + ps
                        + " prefix-length="@ + lo + "-"@ + hi + "\n"@
                }
            } else {
                if flag {
                    "/routing filter rule add chain=\""@ + name + "-"@ + v + "\" rule=\"if (dst=="@ + ps + ") {accept}\"\n"@
                } else {
                    "/routing filter add action=accept chain=\""@ + name + "-"@ + v + "\" prefix="@ + ps + "\n"@
                }
            }
        },
        EntryStyle::NokiaList => if !n.is_aggregate {
            "    prefix "@ + p + " exact\n"@
        } else {
            "    prefix "@ + p + " prefix-length-range "@ + dec(agg_low_or_len(n) as nat) + "-"@ + hi + "\n"@
        },
        EntryStyle::NokiaIpList => "    prefix "@ + p + "\n"@,
        EntryStyle::NokiaMdList => "    prefix "@ + p + " { }\n"@,
        EntryStyle::NokiaMdIpList => if !n.is_aggregate {
            "    prefix "@ + p + " type exact {\n    }\n"@
        } else if n.aggregate_low > n.prefix.masklen {
            "    prefix "@ + p + " type range {\n        start-length "@ + lo + "\n        end-length "@ + hi + "\n    }\n"@
        } else {
            "    prefix "@ + p + " type through {\n        through-length "@ + hi + "\n    }\n"@
        },
        EntryStyle::NokiaSrlSet => if !n.is_aggregate {
            "    prefix "@ + p + " mask-length-range exact { }\n"@
        } else {
            "    prefix "@ + p + " mask-length-range "@ + dec(agg_low_or_len(n) as nat) + ".."@ + hi + " { }\n"@
        },
        EntryStyle::NokiaSrlAcl => " entry "@ + crate::text::dec_int(10 + 10 * (k as int)) + " {\n  action { accept { } }\n  match { source-ip { prefix "@ + p + " } } }\n"@,
        EntryStyle::OpenBgpd => "\n\t"@ + p + (if !n.is_aggregate {
            Seq::empty()
        } else if n.aggregate_low == n.aggregate_hi {
            " prefixlen = "@ + hi
        } else {
            " prefixlen "@ + dec(agg_low_or_len(n) as nat) + " - "@ + hi
        }),
        EntryStyle::Json => (if k > 0 { ","@ } else { Seq::empty() }) + "\n    { \"prefix\": \""@
            + addr_text(n.prefix.family, n.prefix.addrs@) + seq!['\\', '/'] + ml + "\", \"exact\": "@ + (if !n.is_aggregate {
            "true }"@
        } else if n.aggregate_low > n.prefix.masklen {
            "false,\n      \"greater-equal\": "@ + lo + ", \"less-equal\": "@ + hi + " }"@
        } else {
            "false, \"less-equal\": "@ + hi + " }"@
        }),
        EntryStyle::Format => fmt_text(encode_utf8(fmt), 0, n.prefix, name,
            if n.is_aggregate && n.aggregate_low > n.prefix.masklen { n.aggregate_low } else { n.prefix.masklen },
            if n.is_aggregate { n.aggregate_hi } else { n.prefix.masklen }),
    }
}

/// Appends " ge LOW le HIGH" / " le HIGH" / "".
fn push_ge_le(out: &mut String, n: &RadixNode)
    ensures
        final(out)@ == old(out)@ + ge_le(*n),
{
    if n.is_aggregate {
        if n.aggregate_low > n.prefix.masklen {
            push_str(out, " ge ");
            push_u32(out, n.aggregate_low);
            push_str(out, " le ");
            push_u32(out, n.aggregate_hi);
        } else {
            push_str(out, " le ");
            push_u32(out, n.aggregate_hi);
        }
    }
    assert(final(out)@ =~= old(out)@ + ge_le(*n));
}

/// Appends `addr SEP len`.
fn push_prefix_sep(out: &mut String, n: &RadixNode, sep: &str)
    ensures
        final(out)@ == old(out)@ + prefix_sep(*n, sep@),
{
    let s = n.prefix.format_sep(sep);
    push_str(out, s.as_str());
}

#[verifier::spinoff_prover]
fn write_juniper_list(out: &mut String, tree: &RadixTree, n: &RadixNode, k: usize, name: &str, ip: &str, base: i64, flag: bool, fmt: &str)
    requires
        n.prefix.masklen <= 128,
        -0x8000_0000 <= base <= 0x8000_0000,
        EntryStyle::JuniperList == EntryStyle::Arista ==> base + k + 1 <= i32::MAX,
        EntryStyle::JuniperList == EntryStyle::NokiaSrlAcl ==> 10 + 10 * (k + 1) <= i32::MAX,
        EntryStyle::JuniperList == EntryStyle::Cisco && flag ==> k + 2 <= u32::MAX,
    ensures
        final(out)@ == old(out)@ + entry_text(EntryStyle::JuniperList, *n, k as nat, name@, ip@, base as int, flag, fmt@),
{
    let ghost start = out@;
    let p = n.prefix.format_str();
        push_str(out, "    ");
        push_str(out, p.as_str());
        push_str(out, ";\n");
    assert(final(out)@ =~= start + entry_text(EntryStyle::JuniperList, *n, k as nat, name@, ip@, base as int, flag, fmt@));
}

#[verifier::spinoff_prover]
fn write_juniper_filter(out: &mut String, tree: &RadixTree, n: &RadixNode, k: usize, name: &str, ip: &str, base: i64, flag: bool, fmt: &str)
    requires
        n.prefix.masklen <= 128,
        -0x8000_0000 <= base <= 0x8000_0000,
        EntryStyle::JuniperFilter == EntryStyle::Arista ==> base + k + 1 <= i32::MAX,
        EntryStyle::JuniperFilter == EntryStyle::NokiaSrlAcl ==> 10 + 10 * (k + 1) <= i32::MAX,
        EntryStyle::JuniperFilter == EntryStyle::Cisco && flag ==> k + 2 <= u32::MAX,
    ensures
        final(out)@ == old(out)@ + entry_text(EntryStyle::JuniperFilter, *n, k as nat, name@, ip@, base as int, flag, fmt@),
{
    let ghost start = out@;
    let p = n.prefix.format_str();
        push_str(out, "    ");
        push_str(out, "route-filter ");
        push_str(out, p.as_str());
        if !n.is_aggregate {
            push_str(out, " exact;\n");
        } else if n.aggregate_low > n.prefix.masklen {
            push_str(out, " prefix-length-range /");
            push_u32(out, n.aggregate_low);
            push_str(out, "-/");
            push_u32(out, n.aggregate_hi);
            push_str(out, ";\n");
        } else {
            push_str(out, " upto /");
            push_u32(out, n.aggregate_hi);
            push_str(out, ";\n");
        }
    assert(final(out)@ =~= start + entry_text(EntryStyle::JuniperFilter, *n, k as nat, name@, ip@, base as int, flag, fmt@));
}

#[verifier::spinoff_prover]
fn write_juniper_filter_list(out: &mut String, tree: &RadixTree, n: &RadixNode, k: usize, name: &str, ip: &str, base: i64, flag: bool, fmt: &str)
    requires
        n.prefix.masklen <= 128,
        -0x8000_0000 <= base <= 0x8000_0000,
        EntryStyle::JuniperFilterList == EntryStyle::Arista ==> base + k + 1 <= i32::MAX,
        EntryStyle::JuniperFilterList == EntryStyle::NokiaSrlAcl ==> 10 + 10 * (k + 1) <= i32::MAX,
        EntryStyle::JuniperFilterList == EntryStyle::Cisco && flag ==> k + 2 <= u32::MAX,
    ensures
        final(out)@ == old(out)@ + entry_text(EntryStyle::JuniperFilterList, *n, k as nat, name@, ip@, base as int, flag, fmt@),
{
    let ghost start = out@;
    let p = n.prefix.format_str();
        push_str(out, "    ");
        push_str(out, p.as_str());
        if !n.is_aggregate {
            push_str(out, " exact;\n");
        } else if n.aggregate_low > n.prefix.masklen {
            push_str(out, " prefix-length-range /");
            push_u32(out, n.aggregate_low);
            push_str(out, "-/");
            push_u32(out, n.aggregate_hi);
            push_str(out, ";\n");
        } else {
            push_str(out, " upto /");
            push_u32(out, n.aggregate_hi);
            push_str(out, ";\n");
        }
    assert(final(out)@ =~= start + entry_text(EntryStyle::JuniperFilterList, *n, k as nat, name@, ip@, base as int, flag, fmt@));
}

#[verifier::spinoff_prover]
fn write_cisco(out: &mut String, tree: &RadixTree, n: &RadixNode, k: usize, name: &str, ip: &str, base: i64, flag: bool, fmt: &str)
    requires
        n.prefix.masklen <= 128,
        -0x8000_0000 <= base <= 0x8000_0000,
        EntryStyle::Cisco == EntryStyle::Arista ==> base + k + 1 <= i32::MAX,
        EntryStyle::Cisco == EntryStyle::NokiaSrlAcl ==> 10 + 10 * (k + 1) <= i32::MAX,
        EntryStyle::Cisco == EntryStyle::Cisco && flag ==> k + 2 <= u32::MAX,
    ensures
        final(out)@ == old(out)@ + entry_text(EntryStyle::Cisco, *n, k as nat, name@, ip@, base as int, flag, fmt@),
{
    let ghost start = out@;
    let p = n.prefix.format_str();
        push_str(out, format_ip_family(n.prefix.family));
        push_str(out, " prefix-list ");
        push_str(out, name);
        if flag {
            push_str(out, " seq ");
            push_u64(out, k as u64 + 1);
        }
        push_str(out, " permit ");
        push_str(out, p.as_str());
        push_ge_le(out, n);
        push_str(out, "\n");
    assert(final(out)@ =~= start + entry_text(EntryStyle::Cisco, *n, k as nat, name@, ip@, base as int, flag, fmt@));
}

#[verifier::spinoff_prover]
fn write_cisco_xr(out: &mut String, tree: &RadixTree, n: &RadixNode, k: usize, name: &str, ip: &str, base: i64, flag: bool, fmt: &str)
    requires
        n.prefix.masklen <= 128,
        -0x8000_0000 <= base <= 0x8000_0000,
        EntryStyle::CiscoXr == EntryStyle::Arista ==> base + k + 1 <= i32::MAX,
        EntryStyle::CiscoXr == EntryStyle::NokiaSrlAcl ==> 10 + 10 * (k + 1) <= i32::MAX,
        EntryStyle::CiscoXr == EntryStyle::Cisco && flag ==> k + 2 <= u32::MAX,
    ensures
        final(out)@ == old(out)@ + entry_text(EntryStyle::CiscoXr, *n, k as nat, name@, ip@, base as int, flag, fmt@),
{
    let ghost start = out@;
    let p = n.prefix.format_str();
        if k > 0 {
            push_str(out, ",\n ");
        } else {
            push_str(out, " ");
        }
        push_str(out, p.as_str());
        push_ge_le(out, n);
    assert(final(out)@ =~= start + entry_text(EntryStyle::CiscoXr, *n, k as nat, name@, ip@, base as int, flag, fmt@));
}

#[verifier::spinoff_prover]
fn write_arista(out: &mut String, tree: &RadixTree, n: &RadixNode, k: usize, name: &str, ip: &str, base: i64, flag: bool, fmt: &str)
    requires
        n.prefix.masklen <= 128,
        -0x8000_0000 <= base <= 0x8000_0000,
        EntryStyle::Arista == EntryStyle::Arista ==> base + k + 1 <= i32::MAX,
        EntryStyle::Arista == EntryStyle::NokiaSrlAcl ==> 10 + 10 * (k + 1) <= i32::MAX,
        EntryStyle::Arista == EntryStyle::Cisco && flag ==> k + 2 <= u32::MAX,
    ensures
        final(out)@ == old(out)@ + entry_text(EntryStyle::Arista, *n, k as nat, name@, ip@, base as int, flag, fmt@),
{
    let ghost start = out@;
    let p = n.prefix.format_str();
        push_str(out, "   seq ");
        push_i64(out, base + k as i64);
        push_str(out, " permit ");
        push_str(out, p.as_str());
        push_ge_le(out, n);
        push_str(out, "\n");
    assert(final(out)@ =~= start + entry_text(EntryStyle::Arista, *n, k as nat, name@, ip@, base as int, flag, fmt@));
}

#[verifier::spinoff_prover]
fn write_bird(out: &mut String, tree: &RadixTree, n: &RadixNode, k: usize, name: &str, ip: &str, base: i64, flag: bool, fmt: &str)
    requires
        n.prefix.masklen <= 128,
        -0x8000_0000 <= base <= 0x8000_0000,
        EntryStyle::Bird == EntryStyle::Arista ==> base + k + 1 <= i32::MAX,
        EntryStyle::Bird == EntryStyle::NokiaSrlAcl ==> 10 + 10 * (k + 1) <= i32::MAX,
        EntryStyle::Bird == EntryStyle::Cisco && flag ==> k + 2 <= u32::MAX,
    ensures
        final(out)@ == old(out)@ + entry_text(EntryStyle::Bird, *n, k as nat, name@, ip@, base as int, flag, fmt@),
{
    let ghost start = out@;
    let p = n.prefix.format_str();
        if k > 0 {
            push_str(out, ",");
        }
        push_str(out, "\n    ");
        push_str(out, p.as_str());
        if n.is_aggregate {
            push_str(out, "{");
            let low = if n.aggregate_low > n.prefix.masklen { n.aggregate_low } else { n.prefix.masklen };
            push_u32(out, low);
            push_str(out, ",");
            push_u32(out, n.aggregate_hi);
            push_str(out, "}");
        }
    assert(final(out)@ =~= start + entry_text(EntryStyle::Bird, *n, k as nat, name@, ip@, base as int, flag, fmt@));
}

#[verifier::spinoff_prover]
fn write_json(out: &mut String, tree: &RadixTree, n: &RadixNode, k: usize, name: &str, ip: &str, base: i64, flag: bool, fmt: &str)
    requires
        n.prefix.masklen <= 128,
    ensures
        final(out)@ == old(out)@ + entry_text(EntryStyle::Json, *n, k as nat, name@, ip@, base as int, flag, fmt@),
{
    let ghost start = out@;
    let ghost ml = dec(n.prefix.masklen as nat);
    let ghost lo = dec(n.aggregate_low as nat);
    let ghost hi = dec(n.aggregate_hi as nat);
    let p = n.prefix.format_json();
    if k > 0 {
        push_str(out, ",");
    }
    push_str(out, "\n    { \"prefix\": \"");
    push_str(out, p.as_str());
    push_str(out, "\", \"exact\": ");
    let ghost head = out@;
    assert(head =~= start + (if k > 0 { ","@ } else { Seq::empty() }) + "\n    { \"prefix\": \""@
        + addr_text(n.prefix.family, n.prefix.addrs@) + seq!['\\', '/'] + ml + "\", \"exact\": "@);
    let ghost tail: Seq<char>;
    if !n.is_aggregate {
        push_str(out, "true }");
        proof { tail = "true }"@; }
    } else if n.aggregate_low > n.prefix.masklen {
        push_str(out, "false,\n      \"greater-equal\": ");
        push_u32(out, n.aggregate_low);
        push_str(out, ", \"less-equal\": ");
        push_u32(out, n.aggregate_hi);
        push_str(out, " }");
        proof { tail = "false,\n      \"greater-equal\": "@ + lo + ", \"less-equal\": "@ + hi + " }"@; }
    } else {
        push_str(out, "false, \"less-equal\": ");
        push_u32(out, n.aggregate_hi);
        push_str(out, " }");
        proof { tail = "false, \"less-equal\": "@ + hi + " }"@; }
    }
    assert(out@ =~= head + tail);
    assert(final(out)@ =~= start + entry_text(EntryStyle::Json, *n, k as nat, name@, ip@, base as int, flag, fmt@));
}

#[verifier::spinoff_prover]
fn write_huawei(out: &mut String, tree: &RadixTree, n: &RadixNode, k: usize, name: &str, ip: &str, base: i64, flag: bool, fmt: &str)
    requires
        n.prefix.masklen <= 128,
        -0x8000_0000 <= base <= 0x8000_0000,
        EntryStyle::Huawei == EntryStyle::Arista ==> base + k + 1 <= i32::MAX,
        EntryStyle::Huawei == EntryStyle::NokiaSrlAcl ==> 10 + 10 * (k + 1) <= i32::MAX,
        EntryStyle::Huawei == EntryStyle::Cisco && flag ==> k + 2 <= u32::MAX,
    ensures
        final(out)@ == old(out)@ + entry_text(EntryStyle::Huawei, *n, k as nat, name@, ip@, base as int, flag, fmt@),
{
    let ghost start = out@;
    let p = n.prefix.format_str();
        push_str(out, "ip ");
        push_str(out, ip);
        push_str(out, "-prefix ");
        push_str(out, name);
        push_str(out, " permit ");
        push_prefix_sep(out, n, " ");
        if n.is_aggregate {
            if n.aggregate_low > n.prefix.masklen {
                push_str(out, " greater-equal ");
                push_u32(out, n.aggregate_low);
                push_str(out, " less-equal ");
                push_u32(out, n.aggregate_hi);
            } else {
                push_str(out, " less-equal ");
                push_u32(out, n.aggregate_hi);
            }
        }
        push_str(out, "\n");
    assert(final(out)@ =~= start + entry_text(EntryStyle::Huawei, *n, k as nat, name@, ip@, base as int, flag, fmt@));
}

#[verifier::spinoff_prover]
fn write_huawei_xpl(out: &mut String, tree: &RadixTree, n: &RadixNode, k: usize, name: &str, ip: &str, base: i64, flag: bool, fmt: &str)
    requires
        n.prefix.masklen <= 128,
        -0x8000_0000 <= base <= 0x8000_0000,
        EntryStyle::HuaweiXpl == EntryStyle::Arista ==> base + k + 1 <= i32::MAX,
        EntryStyle::HuaweiXpl == EntryStyle::NokiaSrlAcl ==> 10 + 10 * (k + 1) <= i32::MAX,
        EntryStyle::HuaweiXpl == EntryStyle::Cisco && flag ==> k + 2 <= u32::MAX,
    ensures
        final(out)@ == old(out)@ + entry_text(EntryStyle::HuaweiXpl, *n, k as nat, name@, ip@, base as int, flag, fmt@),
{
    let ghost start = out@;
    let p = n.prefix.format_str();
        if k > 0 {
            push_str(out, ",\n  ");
        } else {
            push_str(out, "  ");
        }
        push_prefix_sep(out, n, " ");
        push_ge_le(out, n);
    assert(final(out)@ =~= start + entry_text(EntryStyle::HuaweiXpl, *n, k as nat, name@, ip@, base as int, flag, fmt@));
}

#[verifier::spinoff_prover]
#[verifier::rlimit(80)]
fn write_mikrotik(out: &mut String, tree: &RadixTree, n: &RadixNode, k: usize, name: &str, ip: &str, base: i64, flag: bool, fmt: &str)
    requires
        n.prefix.masklen <= 128,
        -0x8000_0000 <= base <= 0x8000_0000,
        EntryStyle::Mikrotik == EntryStyle::Arista ==> base + k + 1 <= i32::MAX,
        EntryStyle::Mikrotik == EntryStyle::NokiaSrlAcl ==> 10 + 10 * (k + 1) <= i32::MAX,
        EntryStyle::Mikrotik == EntryStyle::Cisco && flag ==> k + 2 <= u32::MAX,
    ensures
        final(out)@ == old(out)@ + entry_text(EntryStyle::Mikrotik, *n, k as nat, name@, ip@, base as int, flag, fmt@),
{
    let ghost start = out@;
    let p = n.prefix.format_str();
        let v = if n.prefix.family == 2 { "V4" } else { "V6" };
        if n.is_aggregate {
            if flag {
                push_str(out, "/routing filter rule add chain=\"");
                push_str(out, name);
                push_str(out, "-");
                push_str(out, v);
                push_str(out, "\" rule=\"if (dst in ");
                push_prefix_sep(out, n, "/");
                push_str(out, " && dst-len in ");
                push_u32(out, n.aggregate_low);
                push_str(out, "-");
                push_u32(out, n.aggregate_hi);
                push_str(out, ") {accept}\"\n");
            } else {
                push_str(out, "/routing filter add action=accept chain=\"");
                push_str(out, name);
                push_str(out, "-");
                push_str(out, v);
                push_str(out, "\" prefix=");
                push_prefix_sep(out, n, "/");
                push_str(out, " prefix-length=");
                push_u32(out, n.aggregate_low);
                push_str(out, "-");
                push_u32(out, n.aggregate_hi);
                push_str(out, "\n");
            }
        } else {
            if flag {
                push_str(out, "/routing filter rule add chain=\"");
                push_str(out, name);
                push_str(out, "-");
                push_str(out, v);
                push_str(out, "\" rule=\"if (dst==");
                push_prefix_sep(out, n, "/");
                push_str(out, ") {accept}\"\n");
            } else {
                push_str(out, "/routing filter add action=accept chain=\"");
                push_str(out, name);
                push_str(out, "-");
                push_str(out, v);
                push_str(out, "\" prefix=");
                push_prefix_sep(out, n, "/");
                push_str(out, "\n");
            }
        }
    assert(final(out)@ =~= start + entry_text(EntryStyle::Mikrotik, *n, k as nat, name@, ip@, base as int, flag, fmt@));
}

#[verifier::spinoff_prover]
fn write_nokia_list(out: &mut String, tree: &RadixTree, n: &RadixNode, k: usize, name: &str, ip: &str, base: i64, flag: bool, fmt: &str)
    requires
        n.prefix.masklen <= 128,
        -0x8000_0000 <= base <= 0x8000_0000,
        EntryStyle::NokiaList == EntryStyle::Arista ==> base + k + 1 <= i32::MAX,
        EntryStyle::NokiaList == EntryStyle::NokiaSrlAcl ==> 10 + 10 * (k + 1) <= i32::MAX,
        EntryStyle::NokiaList == EntryStyle::Cisco && flag ==> k + 2 <= u32::MAX,
    ensures
        final(out)@ == old(out)@ + entry_text(EntryStyle::NokiaList, *n, k as nat, name@, ip@, base as int, flag, fmt@),
{
    let ghost start = out@;
    let p = n.prefix.format_str();
        push_str(out, "    prefix ");
        push_str(out, p.as_str());
        if !n.is_aggregate {
            push_str(out, " exact\n");
        } else {
            push_str(out, " prefix-length-range ");
            let low = if n.aggregate_low > n.prefix.masklen { n.aggregate_low } else { n.prefix.masklen };
            push_u32(out, low);
            push_str(out, "-");
            push_u32(out, n.aggregate_hi);
            push_str(out, "\n");
        }
    assert(final(out)@ =~= start + entry_text(EntryStyle::NokiaList, *n, k as nat, name@, ip@, base as int, flag, fmt@));
}

#[verifier::spinoff_prover]
fn write_nokia_ip_list(out: &mut String, tree: &RadixTree, n: &RadixNode, k: usize, name: &str, ip: &str, base: i64, flag: bool, fmt: &str)
    requires
        n.prefix.masklen <= 128,
        -0x8000_0000 <= base <= 0x8000_0000,
        EntryStyle::NokiaIpList == EntryStyle::Arista ==> base + k + 1 <= i32::MAX,
        EntryStyle::NokiaIpList == EntryStyle::NokiaSrlAcl ==> 10 + 10 * (k + 1) <= i32::MAX,
        EntryStyle::NokiaIpList == EntryStyle::Cisco && flag ==> k + 2 <= u32::MAX,
    ensures
        final(out)@ == old(out)@ + entry_text(EntryStyle::NokiaIpList, *n, k as nat, name@, ip@, base as int, flag, fmt@),
{
    let ghost start = out@;
    let p = n.prefix.format_str();
        push_str(out, "    prefix ");
        push_str(out, p.as_str());
        push_str(out, "\n");
    assert(final(out)@ =~= start + entry_text(EntryStyle::NokiaIpList, *n, k as nat, name@, ip@, base as int, flag, fmt@));
}

#[verifier::spinoff_prover]
fn write_nokia_md_list(out: &mut String, tree: &RadixTree, n: &RadixNode, k: usize, name: &str, ip: &str, base: i64, flag: bool, fmt: &str)
    requires
        n.prefix.masklen <= 128,
        -0x8000_0000 <= base <= 0x8000_0000,
        EntryStyle::NokiaMdList == EntryStyle::Arista ==> base + k + 1 <= i32::MAX,
        EntryStyle::NokiaMdList == EntryStyle::NokiaSrlAcl ==> 10 + 10 * (k + 1) <= i32::MAX,
        EntryStyle::NokiaMdList == EntryStyle::Cisco && flag ==> k + 2 <= u32::MAX,
    ensures
        final(out)@ == old(out)@ + entry_text(EntryStyle::NokiaMdList, *n, k as nat, name@, ip@, base as int, flag, fmt@),
{
    let ghost start = out@;
    let p = n.prefix.format_str();
        push_str(out, "    prefix ");
        push_str(out, p.as_str());
        push_str(out, " { }\n");
    assert(final(out)@ =~= start + entry_text(EntryStyle::NokiaMdList, *n, k as nat, name@, ip@, base as int, flag, fmt@));
}

#[verifier::spinoff_prover]
fn write_nokia_md_ip_list(out: &mut String, tree: &RadixTree, n: &RadixNode, k: usize, name: &str, ip: &str, base: i64, flag: bool, fmt: &str)
    requires
        n.prefix.masklen <= 128,
        -0x8000_0000 <= base <= 0x8000_0000,
        EntryStyle::NokiaMdIpList == EntryStyle::Arista ==> base + k + 1 <= i32::MAX,
        EntryStyle::NokiaMdIpList == EntryStyle::NokiaSrlAcl ==> 10 + 10 * (k + 1) <= i32::MAX,
        EntryStyle::NokiaMdIpList == EntryStyle::Cisco && flag ==> k + 2 <= u32::MAX,
    ensures
        final(out)@ == old(out)@ + entry_text(EntryStyle::NokiaMdIpList, *n, k as nat, name@, ip@, base as int, flag, fmt@),
{
    let ghost start = out@;
    let p = n.prefix.format_str();
        push_str(out, "    prefix ");
        push_str(out, p.as_str());
        if !n.is_aggregate {
            push_str(out, " type exact {\n    }\n");
        } else if n.aggregate_low > n.prefix.masklen {
            push_str(out, " type range {\n        start-length ");
            push_u32(out, n.aggregate_low);
            push_str(out, "\n        end-length ");
            push_u32(out, n.aggregate_hi);
            push_str(out, "\n    }\n");
        } else {
            push_str(out, " type through {\n        through-length ");
            push_u32(out, n.aggregate_hi);
            push_str(out, "\n    }\n");
        }
    assert(final(out)@ =~= start + entry_text(EntryStyle::NokiaMdIpList, *n, k as nat, name@, ip@, base as int, flag, fmt@));
}

#[verifier::spinoff_prover]
fn write_nokia_srl_set(out: &mut String, tree: &RadixTree, n: &RadixNode, k: usize, name: &str, ip: &str, base: i64, flag: bool, fmt: &str)
    requires
        n.prefix.masklen <= 128,
        -0x8000_0000 <= base <= 0x8000_0000,
        EntryStyle::NokiaSrlSet == EntryStyle::Arista ==> base + k + 1 <= i32::MAX,
        EntryStyle::NokiaSrlSet == EntryStyle::NokiaSrlAcl ==> 10 + 10 * (k + 1) <= i32::MAX,
        EntryStyle::NokiaSrlSet == EntryStyle::Cisco && flag ==> k + 2 <= u32::MAX,
    ensures
        final(out)@ == old(out)@ + entry_text(EntryStyle::NokiaSrlSet, *n, k as nat, name@, ip@, base as int, flag, fmt@),
{
    let ghost start = out@;
    let p = n.prefix.format_str();
        push_str(out, "    prefix ");
        push_str(out, p.as_str());
        if !n.is_aggregate {
            push_str(out, " mask-length-range exact { }\n");
        } else {
            push_str(out, " mask-length-range ");
            let low = if n.aggregate_low > n.prefix.masklen { n.aggregate_low } else { n.prefix.masklen };
            push_u32(out, low);
            push_str(out, "..");
            push_u32(out, n.aggregate_hi);
            push_str(out, " { }\n");
        }
    assert(final(out)@ =~= start + entry_text(EntryStyle::NokiaSrlSet, *n, k as nat, name@, ip@, base as int, flag, fmt@));
}

#[verifier::spinoff_prover]
fn write_nokia_srl_acl(out: &mut String, tree: &RadixTree, n: &RadixNode, k: usize, name: &str, ip: &str, base: i64, flag: bool, fmt: &str)
    requires
        n.prefix.masklen <= 128,
        -0x8000_0000 <= base <= 0x8000_0000,
        EntryStyle::NokiaSrlAcl == EntryStyle::Arista ==> base + k + 1 <= i32::MAX,
        EntryStyle::NokiaSrlAcl == EntryStyle::NokiaSrlAcl ==> 10 + 10 * (k + 1) <= i32::MAX,
        EntryStyle::NokiaSrlAcl == EntryStyle::Cisco && flag ==> k + 2 <= u32::MAX,
    ensures
        final(out)@ == old(out)@ + entry_text(EntryStyle::NokiaSrlAcl, *n, k as nat, name@, ip@, base as int, flag, fmt@),
{
    let ghost start = out@;
    let p = n.prefix.format_str();
        push_str(out, " entry ");
        push_i64(out, 10 + 10 * (k as i64));
        push_str(out, " {\n  action { accept { } }\n  match { source-ip { prefix ");
        push_str(out, p.as_str());
        push_str(out, " } } }\n");
    assert(final(out)@ =~= start + entry_text(EntryStyle::NokiaSrlAcl, *n, k as nat, name@, ip@, base as int, flag, fmt@));
}

#[verifier::spinoff_prover]
fn write_open_bgpd(out: &mut String, tree: &RadixTree, n: &RadixNode, k: usize, name: &str, ip: &str, base: i64, flag: bool, fmt: &str)
    requires
        n.prefix.masklen <= 128,
        -0x8000_0000 <= base <= 0x8000_0000,
        EntryStyle::OpenBgpd == EntryStyle::Arista ==> base + k + 1 <= i32::MAX,
        EntryStyle::OpenBgpd == EntryStyle::NokiaSrlAcl ==> 10 + 10 * (k + 1) <= i32::MAX,
        EntryStyle::OpenBgpd == EntryStyle::Cisco && flag ==> k + 2 <= u32::MAX,
    ensures
        final(out)@ == old(out)@ + entry_text(EntryStyle::OpenBgpd, *n, k as nat, name@, ip@, base as int, flag, fmt@),
{
    let ghost start = out@;
    let p = n.prefix.format_str();
        push_str(out, "\n\t");
        push_str(out, p.as_str());
        if n.is_aggregate {
            if n.aggregate_low == n.aggregate_hi {
                push_str(out, " prefixlen = ");
                push_u32(out, n.aggregate_hi);
            } else {
                push_str(out, " prefixlen ");
                let low = if n.aggregate_low > n.prefix.masklen { n.aggregate_low } else { n.prefix.masklen };
                push_u32(out, low);
                push_str(out, " - ");
                push_u32(out, n.aggregate_hi);
            }
        }
    assert(final(out)@ =~= start + entry_text(EntryStyle::OpenBgpd, *n, k as nat, name@, ip@, base as int, flag, fmt@));
}

#[verifier::spinoff_prover]
fn write_format(out: &mut String, tree: &RadixTree, n: &RadixNode, k: usize, name: &str, ip: &str, base: i64, flag: bool, fmt: &str)
    requires
        n.prefix.masklen <= 128,
        -0x8000_0000 <= base <= 0x8000_0000,
        EntryStyle::Format == EntryStyle::Arista ==> base + k + 1 <= i32::MAX,
        EntryStyle::Format == EntryStyle::NokiaSrlAcl ==> 10 + 10 * (k + 1) <= i32::MAX,
        EntryStyle::Format == EntryStyle::Cisco && flag ==> k + 2 <= u32::MAX,
    ensures
        final(out)@ == old(out)@ + entry_text(EntryStyle::Format, *n, k as nat, name@, ip@, base as int, flag, fmt@),
{
    let ghost start = out@;
    let p = n.prefix.format_str();
        let lo = if n.is_aggregate && n.aggregate_low > n.prefix.masklen { n.aggregate_low } else { n.prefix.masklen };
        let hi = if n.is_aggregate { n.aggregate_hi } else { n.prefix.masklen };
        let s = tree.format_prefix_fmt(&n.prefix, name, fmt, lo, hi);
        push_str(out, s.as_str());
    assert(final(out)@ =~= start + entry_text(EntryStyle::Format, *n, k as nat, name@, ip@, base as int, flag, fmt@));
}

/// Appends the text of one visible node in a dialect (see `entry_text`).
pub fn write_entry(
    out: &mut String,
    tree: &RadixTree,
    style: EntryStyle,
    n: &RadixNode,
    k: usize,
    name: &str,
    ip: &str,
    base: i64,
    flag: bool,
    fmt: &str,
)
    requires
        n.prefix.masklen <= 128,
        -0x8000_0000 <= base <= 0x8000_0000,
        style == EntryStyle::Arista ==> base + k + 1 <= i32::MAX,
        style == EntryStyle::NokiaSrlAcl ==> 10 + 10 * (k + 1) <= i32::MAX,
        style == EntryStyle::Cisco && flag ==> k + 2 <= u32::MAX,
    ensures
        final(out)@ == old(out)@ + entry_text(style, *n, k as nat, name@, ip@, base as int, flag, fmt@),
{
    match style {
        EntryStyle::JuniperList => write_juniper_list(out, tree, n, k, name, ip, base, flag, fmt),
        EntryStyle::JuniperFilter => write_juniper_filter(out, tree, n, k, name, ip, base, flag, fmt),
        EntryStyle::JuniperFilterList => write_juniper_filter_list(out, tree, n, k, name, ip, base, flag, fmt),
        EntryStyle::Cisco => write_cisco(out, tree, n, k, name, ip, base, flag, fmt),
        EntryStyle::CiscoXr => write_cisco_xr(out, tree, n, k, name, ip, base, flag, fmt),
        EntryStyle::Arista => write_arista(out, tree, n, k, name, ip, base, flag, fmt),
        EntryStyle::Bird => write_bird(out, tree, n, k, name, ip, base, flag, fmt),
        EntryStyle::Huawei => write_huawei(out, tree, n, k, name, ip, base, flag, fmt),
        EntryStyle::HuaweiXpl => write_huawei_xpl(out, tree, n, k, name, ip, base, flag, fmt),
        EntryStyle::Mikrotik => write_mikrotik(out, tree, n, k, name, ip, base, flag, fmt),
        EntryStyle::NokiaList => write_nokia_list(out, tree, n, k, name, ip, base, flag, fmt),
        EntryStyle::NokiaIpList => write_nokia_ip_list(out, tree, n, k, name, ip, base, flag, fmt),
        EntryStyle::NokiaMdList => write_nokia_md_list(out, tree, n, k, name, ip, base, flag, fmt),
        EntryStyle::NokiaMdIpList => write_nokia_md_ip_list(out, tree, n, k, name, ip, base, flag, fmt),
        EntryStyle::NokiaSrlSet => write_nokia_srl_set(out, tree, n, k, name, ip, base, flag, fmt),
        EntryStyle::NokiaSrlAcl => write_nokia_srl_acl(out, tree, n, k, name, ip, base, flag, fmt),
        EntryStyle::OpenBgpd => write_open_bgpd(out, tree, n, k, name, ip, base, flag, fmt),
        EntryStyle::Format => write_format(out, tree, n, k, name, ip, base, flag, fmt),
        EntryStyle::Json => write_json(out, tree, n, k, name, ip, base, flag, fmt),
    }
}

/// The entries of all visible nodes of the tree, in walk order.
pub open spec fn tree_text(tree: RadixTree, style: EntryStyle, name: Seq<char>, ip: Seq<char>, base: int, flag: bool, fmt: Seq<char>) -> Seq<char> {
    walk_text(tree.nodes_view(), tree.walk_view(),
        |n: RadixNode, k: nat| entry_text(style, n, k, name, ip, base, flag, fmt))
}

/// Number of visible nodes of the tree.
pub open spec fn tree_visible(tree: RadixTree) -> nat {
    visible_count(tree.nodes_view(), tree.walk_view())
}

/// Appends the entries of every visible node of the tree, in walk order.
pub fn emit_nodes(
    out: &mut String,
    tree: &RadixTree,
    style: EntryStyle,
    name: &str,
    ip: &str,
    base: i64,
    flag: bool,
    fmt: &str,
)
    requires
        tree.wf(),
        -0x8000_0000 <= base <= 0x8000_0000,
        style == EntryStyle::Arista ==> base + tree_visible(*tree) <= i32::MAX,
        style == EntryStyle::NokiaSrlAcl ==> 10 + 10 * tree_visible(*tree) <= i32::MAX,
        style == EntryStyle::Cisco && flag ==> 1 + tree_visible(*tree) <= u32::MAX,
    ensures
        final(out)@ == old(out)@ + tree_text(*tree, style, name@, ip@, base as int, flag, fmt@),
{
    let order = tree.foreach();
    let ghost nodes = tree.nodes_view();
    let ghost start = out@;
    let ghost f = |n: RadixNode, k: nat| entry_text(style, n, k, name@, ip@, base as int, flag, fmt@);
    let mut k: usize = 0;
    let mut i: usize = 0;
    while i < order.len()
        invariant
            i <= order@.len(),
            order@ == tree.walk_view(),
            nodes == tree.nodes_view(),
            tree.wf(),
            forall|j: int| 0 <= j < order@.len() ==> (#[trigger] order@[j] as int) < nodes.len(),
            -0x8000_0000 <= base <= 0x8000_0000,
            style == EntryStyle::Arista ==> base + visible_count(nodes, order@) <= i32::MAX,
            style == EntryStyle::NokiaSrlAcl ==> 10 + 10 * visible_count(nodes, order@) <= i32::MAX,
            style == EntryStyle::Cisco && flag ==> 1 + visible_count(nodes, order@) <= u32::MAX,
            k == visible_count(nodes, order@.take(i as int)),
            k <= i,
            f == (|n: RadixNode, k: nat| entry_text(style, n, k, name@, ip@, base as int, flag, fmt@)),
            out@ == start + walk_text(nodes, order@.take(i as int), f),
        decreases order@.len() - i,
    {
        let idx = order[i];
        let node = tree.node(idx);
        proof {
            lemma_walk_step(nodes, order@, i as int, f);
            lemma_visible_count_prefix(nodes, order@, i + 1);
            lemma_node_in_tree(*tree, idx);
        }
        if !node.is_glue {
            write_entry(out, tree, style, node, k, name, ip, base, flag, fmt);
            k = k + 1;
        }
        i = i + 1;
    }
    assert(order@.take(order@.len() as int) =~= order@);
}

/// A node of a well-formed tree has a mask no longer than 128 bits.
pub proof fn lemma_node_in_tree(tree: RadixTree, idx: usize)
    requires
        tree.wf(),
        (idx as int) < tree.nodes_view().len(),
    ensures
        tree.nodes_view()[idx as int].prefix.masklen <= 128,
{
    tree.lemma_wf_node(idx);
}

/// Counts the visible nodes of the tree (see `tree_visible`).
pub fn count_visible(tree: &RadixTree) -> (n: usize)
    requires
        tree.wf(),
    ensures
        n == tree_visible(*tree),
{
    let order = tree.foreach();
    let mut n: usize = 0;
    let mut k: usize = 0;
    while k < order.len()
        invariant
            k <= order@.len(),
            order@ == tree.walk_view(),
            tree.wf(),
            forall|j: int| 0 <= j < order@.len() ==> (#[trigger] order@[j] as int) < tree.nodes_view().len(),
            n == visible_count(tree.nodes_view(), order@.take(k as int)),
            n <= k,
        decreases order@.len() - k,
    {
        assert(order@.take(k + 1).drop_last() =~= order@.take(k as int));
        let node = tree.node(order[k]);
        if !node.is_glue {
            n = n + 1;
        }
        k = k + 1;
    }
    assert(order@.take(order@.len() as int) =~= order@);
    n
}

} // verus!
