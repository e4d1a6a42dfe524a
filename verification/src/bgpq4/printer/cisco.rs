//! Cisco IOS and IOS XR prefix lists and Arista prefix lists.

use vstd::prelude::*;
use crate::text::{dec, dec_int, push_i32, push_str, push_u32};
use crate::bgpq4::expander::Expander;
use crate::bgpq4::printer::common::{
    default_prefix, emit_nodes, format_ip_family, ip_family_text, lemma_node_in_tree,
    lemma_walk_step, list_name, push_default_prefix, tree_text, tree_visible, visible_count,
    walk_text, EntryStyle,
};
use crate::bgpq4::prefix::{addr_text, RadixNode, RadixTree};
use vstd::arithmetic::power2::{lemma2_to64, lemma_pow2_strictly_increases, lemma_pow2_unfold, pow2};

verus! {

/// The text `print_prefixlist` appends.
pub open spec fn print_prefixlist_text(exp: &Expander) -> Seq<char> {
    "no "@ + ip_family_text(exp.config.family) + " prefix-list "@ + list_name(exp) + "\n"@
    + (if exp.tree.head_view() is None {
        "! generated prefix-list "@ + list_name(exp) + " is empty\n"@
            + ip_family_text(exp.config.family) + " prefix-list "@ + list_name(exp)
            + (if exp.config.sequence > 0 { " seq 1"@ } else { ""@ }) + " deny "@
            + default_prefix(exp.config.family) + "\n"@
    } else {
        tree_text(exp.tree, EntryStyle::Cisco, list_name(exp), ""@, 0, exp.config.sequence > 0, ""@)
    })
}

#[verifier::spinoff_prover]
#[verifier::rlimit(60)]
pub fn print_prefixlist(out: &mut String, exp: &Expander)
    requires
        exp.wf(),
        exp.config.sequence > 0 ==> 1 + tree_visible(exp.tree) <= u32::MAX,
    ensures
        final(out)@ == old(out)@ + print_prefixlist_text(exp),
{
    let name = exp.config.effective_name();
    let ip_str = format_ip_family(exp.config.family);
    push_str(out, "no ");
    push_str(out, ip_str);
    push_str(out, " prefix-list ");
    push_str(out, name);
    push_str(out, "\n");
    let ghost mid = out@;
    if exp.tree.is_empty() {
        push_str(out, "! generated prefix-list ");
        push_str(out, name);
        push_str(out, " is empty\n");
        push_str(out, ip_str);
        push_str(out, " prefix-list ");
        push_str(out, name);
        let seq_str = if exp.config.sequence > 0 { " seq 1" } else { "" };
        push_str(out, seq_str);
        push_str(out, " deny ");
        push_default_prefix(out, exp.config.family);
        push_str(out, "\n");
    } else {
        emit_nodes(out, &exp.tree, EntryStyle::Cisco, name, "", 0, exp.config.sequence > 0, "");
    }
}

/// The text `print_xr_prefixlist` appends.
pub open spec fn print_xr_prefixlist_text(exp: &Expander) -> Seq<char> {
    "no prefix-set "@ + list_name(exp) + "\n"@ + "prefix-set "@ + list_name(exp) + "\n"@
    + tree_text(exp.tree, EntryStyle::CiscoXr, list_name(exp), ""@, 0, false, ""@) + "\nend-set\n"@
}

#[verifier::spinoff_prover]
#[verifier::rlimit(60)]
pub fn print_xr_prefixlist(out: &mut String, exp: &Expander)
    requires
        exp.wf(),
    ensures
        final(out)@ == old(out)@ + print_xr_prefixlist_text(exp),
{
    let name = exp.config.effective_name();
    push_str(out, "no prefix-set ");
    push_str(out, name);
    push_str(out, "\n");
    push_str(out, "prefix-set ");
    push_str(out, name);
    push_str(out, "\n");
    emit_nodes(out, &exp.tree, EntryStyle::CiscoXr, name, "", 0, false, "");
    push_str(out, "\nend-set\n");
}

/// The text `print_arista_prefixlist` appends.
pub open spec fn print_arista_prefixlist_text(exp: &Expander) -> Seq<char> {
    "no "@ + ip_family_text(exp.config.family) + " prefix-list "@ + list_name(exp) + "\n"@
    + (if exp.tree.head_view() is None {
        "! generated prefix-list "@ + list_name(exp) + " is empty\n"@
            + ip_family_text(exp.config.family) + " prefix-list "@ + list_name(exp) + "\n   seq "@
            + dec_int(exp.config.sequence as int) + " deny "@ + default_prefix(exp.config.family) + "\n"@
    } else {
        ip_family_text(exp.config.family) + " prefix-list "@ + list_name(exp) + "\n"@
            + tree_text(exp.tree, EntryStyle::Arista, list_name(exp), ""@, exp.config.sequence as int, false, ""@)
    })
}

#[verifier::spinoff_prover]
#[verifier::rlimit(60)]
pub fn print_arista_prefixlist(out: &mut String, exp: &Expander)
    requires
        exp.wf(),
        exp.config.sequence + tree_visible(exp.tree) <= i32::MAX,
    ensures
        final(out)@ == old(out)@ + print_arista_prefixlist_text(exp),
{
    let name = exp.config.effective_name();
    let ip_str = format_ip_family(exp.config.family);
    push_str(out, "no ");
    push_str(out, ip_str);
    push_str(out, " prefix-list ");
    push_str(out, name);
    push_str(out, "\n");
    let ghost mid = out@;
    if exp.tree.is_empty() {
        push_str(out, "! generated prefix-list ");
        push_str(out, name);
        push_str(out, " is empty\n");
        push_str(out, ip_str);
        push_str(out, " prefix-list ");
        push_str(out, name);
        push_str(out, "\n   seq ");
        push_i32(out, exp.config.sequence);
        push_str(out, " deny ");
        push_default_prefix(out, exp.config.family);
        push_str(out, "\n");
    } else {
        push_str(out, ip_str);
        push_str(out, " prefix-list ");
        push_str(out, name);
        push_str(out, "\n");
        emit_nodes(out, &exp.tree, EntryStyle::Arista, name, "", exp.config.sequence as i64, false, "");
    }
}

/// The bytes of `x` in reverse order, read as a number.
pub open spec fn byte_swap(x: u32) -> int {
    (x % 256) * 16777216 + ((x / 256) % 256) * 65536 + ((x / 65536) % 256) * 256 + x / 16777216
}

/// `u32::to_be`: as std documents it, the value unchanged on a big-endian
/// machine and its bytes reversed on a little-endian one. Which of the two
/// the machine does is not stated.
#[verifier::external_body]
fn u32_to_be(x: u32) -> (r: u32)
    ensures
        r == x || r == byte_swap(x),
{
    x.to_be()
}

/// Whether `to_be` reverses the bytes on this machine: whether it changes 1.
pub fn bytes_swapped() -> bool {
    let one = u32_to_be(1);
    one != 1
}

/// The dotted quad shown for an IPv4 address built from `to_be(v)`: the
/// bytes of `v` from the highest, or from the lowest where `to_be` reverses
/// them (`swapped`).
pub open spec fn quad_text(v: nat, swapped: bool) -> Seq<char> {
    let a = v / 16777216;
    let b = (v / 65536) % 256;
    let c = (v / 256) % 256;
    let d = v % 256;
    if swapped {
        dec(d) + seq!['.'] + dec(c) + seq!['.'] + dec(b) + seq!['.'] + dec(a)
    } else {
        dec(a) + seq!['.'] + dec(b) + seq!['.'] + dec(c) + seq!['.'] + dec(d)
    }
}

fn push_quad(out: &mut String, v: u32, swapped: bool)
    ensures
        final(out)@ == old(out)@ + quad_text(v as nat, swapped),
{
    let a = v / 16777216;
    let b = (v / 65536) % 256;
    let c = (v / 256) % 256;
    let d = v % 256;
    let ghost start = out@;
    let (w, x, y, z) = if swapped { (d, c, b, a) } else { (a, b, c, d) };
    push_u32(out, w);
    crate::text::push_char(out, '.');
    push_u32(out, x);
    crate::text::push_char(out, '.');
    push_u32(out, y);
    crate::text::push_char(out, '.');
    push_u32(out, z);
    assert(out@ =~= start + (dec(w as nat) + seq!['.'] + dec(x as nat) + seq!['.'] + dec(y as nat)
        + seq!['.'] + dec(z as nat)));
}

/// 2 to the `e`, for `e` up to 32.
fn pow2_u64(e: u32) -> (r: u64)
    requires
        e <= 32,
    ensures
        r == pow2(e as nat),
        1 <= r <= 0x1_0000_0000,
{
    proof {
        lemma2_to64();
    }
    let mut r: u64 = 1;
    let mut i: u32 = 0;
    while i < e
        invariant
            i <= e <= 32,
            r == pow2(i as nat),
            pow2(32) == 0x1_0000_0000,
        decreases e - i,
    {
        proof {
            lemma_pow2_unfold((i + 1) as nat);
            if i + 1 < 32 {
                lemma_pow2_strictly_increases((i + 1) as nat, 32);
            }
        }
        r = r * 2;
        i = i + 1;
    }
    proof {
        if e < 32 {
            lemma_pow2_strictly_increases(e as nat, 32);
        }
        vstd::arithmetic::power2::lemma_pow2_pos(e as nat);
    }
    r
}

/// `0xffffffff << (32 - len)`: the top `len` bits set (`len` in 1..=32).
pub open spec fn top_ones(len: u32) -> nat {
    (pow2(32) - pow2((32 - len) as nat)) as nat
}

/// `0xffffffff >> len`: the low `32 - len` bits set.
pub open spec fn low_ones(len: u32) -> nat {
    (pow2((32 - len) as nat) - 1) as nat
}

/// `(0xffffffff >> lo) & !(0xffffffff >> hi)`: the bits from `lo` to `hi`
/// counted from the top.
pub open spec fn mid_ones(lo: u32, hi: u32) -> nat {
    if hi > lo { (pow2((32 - lo) as nat) - pow2((32 - hi) as nat)) as nat } else { 0 }
}

/// The shifts of an access-list entry stay within 32 bits: a host entry
/// has a mask of 1 to 32 bits, an aggregate one a mask and bounds below 32
/// with a lower bound of at least 1.
pub open spec fn eacl_node_ok(n: RadixNode) -> bool {
    if n.is_aggregate {
        n.prefix.masklen < 32 && 1 <= n.aggregate_low < 32 && n.aggregate_hi < 32
    } else {
        1 <= n.prefix.masklen <= 32
    }
}

/// Every visible node can be written as an access-list entry.
pub open spec fn eacl_printable(tree: RadixTree) -> bool {
    forall|k: int| 0 <= k < tree.walk_view().len() ==> {
        let n = #[trigger] tree.nodes_view()[tree.walk_view()[k] as int];
        !n.is_glue ==> eacl_node_ok(n)
    }
}

/// The host entry of a prefix that is not an aggregate.
pub open spec fn host_entry(addr: Seq<char>, len: u32, swapped: bool) -> Seq<char> {
    " permit ip host "@ + addr + " host "@
        + quad_text(if len == 32 { 0 } else { top_ones(len) }, swapped) + "\n"@
}

/// The address part of an aggregate entry; `wa` is the wildcard of its mask.
pub open spec fn agg_head(addr: Seq<char>, wa: nat, swapped: bool) -> Seq<char> {
    if wa != 0 {
        " permit ip "@ + addr + " "@ + quad_text(wa, swapped) + " "@
    } else {
        " permit ip host "@ + addr + " "@
    }
}

/// The length part of an aggregate entry: the mask of the lower bound and
/// the wildcard between the bounds.
pub open spec fn agg_tail(mh: nat, wm: nat, swapped: bool) -> Seq<char> {
    if wm != 0 {
        quad_text(mh, swapped) + " "@ + quad_text(wm, swapped) + "\n"@
    } else {
        "host "@ + quad_text(mh, swapped) + "\n"@
    }
}

/// One access-list entry.
pub open spec fn eacl_entry(n: RadixNode, swapped: bool) -> Seq<char> {
    let addr = addr_text(n.prefix.family, n.prefix.addrs@);
    if !n.is_aggregate {
        host_entry(addr, n.prefix.masklen, swapped)
    } else {
        agg_head(addr, low_ones(n.prefix.masklen), swapped)
            + agg_tail(top_ones(n.aggregate_low), mid_ones(n.aggregate_low, n.aggregate_hi), swapped)
    }
}

fn top_ones_u32(len: u32) -> (r: u32)
    requires
        1 <= len <= 32,
    ensures
        r == top_ones(len),
{
    let p = pow2_u64(32 - len);
    proof {
        lemma2_to64();
    }
    (0x1_0000_0000u64 - p) as u32
}

fn low_ones_u32(len: u32) -> (r: u32)
    requires
        len <= 32,
    ensures
        r == low_ones(len),
{
    let p = pow2_u64(32 - len);
    (p - 1) as u32
}

fn mid_ones_u32(lo: u32, hi: u32) -> (r: u32)
    requires
        1 <= lo <= 32,
        hi <= 32,
    ensures
        r == mid_ones(lo, hi),
{
    if hi > lo {
        let pl = pow2_u64(32 - lo);
        let ph = pow2_u64(32 - hi);
        proof {
            lemma_pow2_strictly_increases((32 - hi) as nat, (32 - lo) as nat);
            lemma2_to64();
            if lo > 1 {
                lemma_pow2_strictly_increases((32 - lo) as nat, 32);
            }
        }
        (pl - ph) as u32
    } else {
        0
    }
}

fn write_host_entry(out: &mut String, addr: &str, len: u32, swapped: bool)
    requires
        1 <= len <= 32,
    ensures
        final(out)@ == old(out)@ + host_entry(addr@, len, swapped),
{
    let ghost start = out@;
    push_str(out, " permit ip host ");
    push_str(out, addr);
    push_str(out, " host ");
    if len == 32 {
        push_quad(out, 0, swapped);
    } else {
        let m = top_ones_u32(len);
        push_quad(out, m, swapped);
    }
    push_str(out, "\n");
    assert(out@ =~= start + host_entry(addr@, len, swapped));
}

fn write_agg_head(out: &mut String, addr: &str, wa: u32, swapped: bool)
    ensures
        final(out)@ == old(out)@ + agg_head(addr@, wa as nat, swapped),
{
    let ghost start = out@;
    if wa != 0 {
        push_str(out, " permit ip ");
        push_str(out, addr);
        push_str(out, " ");
        push_quad(out, wa, swapped);
        push_str(out, " ");
    } else {
        push_str(out, " permit ip host ");
        push_str(out, addr);
        push_str(out, " ");
    }
    assert(out@ =~= start + agg_head(addr@, wa as nat, swapped));
}

fn write_agg_tail(out: &mut String, mh: u32, wm: u32, swapped: bool)
    ensures
        final(out)@ == old(out)@ + agg_tail(mh as nat, wm as nat, swapped),
{
    let ghost start = out@;
    if wm != 0 {
        push_quad(out, mh, swapped);
        push_str(out, " ");
        push_quad(out, wm, swapped);
        push_str(out, "\n");
    } else {
        push_str(out, "host ");
        push_quad(out, mh, swapped);
        push_str(out, "\n");
    }
    assert(out@ =~= start + agg_tail(mh as nat, wm as nat, swapped));
}

fn write_eacl_entry(out: &mut String, n: &RadixNode, swapped: bool)
    requires
        eacl_node_ok(*n),
    ensures
        final(out)@ == old(out)@ + eacl_entry(*n, swapped),
{
    let ghost start = out@;
    let addr = n.prefix.format_addr();
    if !n.is_aggregate {
        write_host_entry(out, addr.as_str(), n.prefix.masklen, swapped);
    } else {
        let wa = low_ones_u32(n.prefix.masklen);
        let mh = top_ones_u32(n.aggregate_low);
        let wm = mid_ones_u32(n.aggregate_low, n.aggregate_hi);
        write_agg_head(out, addr.as_str(), wa, swapped);
        write_agg_tail(out, mh, wm, swapped);
        assert(out@ =~= start + eacl_entry(*n, swapped));
    }
}

/// The entries of every visible node, in walk order.
pub open spec fn eacl_entries(tree: RadixTree, swapped: bool) -> Seq<char> {
    walk_text(tree.nodes_view(), tree.walk_view(), |n: RadixNode, k: nat| eacl_entry(n, swapped))
}

/// The text of the extended access list (Cisco and Arista), for the byte
/// order given by `swapped` (see `quad_text`).
pub open spec fn print_eacl_text(exp: &Expander, swapped: bool) -> Seq<char> {
    "no ip access-list extended "@ + list_name(exp) + "\n"@
    + (if exp.tree.head_view() is None {
        "! generated access-list "@ + list_name(exp) + " is empty\n"@
            + "ip access-list extended "@ + list_name(exp) + " deny any any\n"@
    } else {
        "ip access-list extended "@ + list_name(exp) + "\n"@ + eacl_entries(exp.tree, swapped)
    })
}

/// Whether every visible node can be written as an access-list entry (see
/// `eacl_printable`).
pub fn eacl_acceptable(tree: &RadixTree) -> (b: bool)
    requires
        tree.wf(),
    ensures
        b == eacl_printable(*tree),
{
    let order = tree.foreach();
    let mut i: usize = 0;
    while i < order.len()
        invariant
            i <= order@.len(),
            order@ == tree.walk_view(),
            forall|j: int| 0 <= j < order@.len() ==> (#[trigger] order@[j] as int) < tree.nodes_view().len(),
            forall|k: int| 0 <= k < i ==> {
                let n = #[trigger] tree.nodes_view()[tree.walk_view()[k] as int];
                !n.is_glue ==> eacl_node_ok(n)
            },
        decreases order@.len() - i,
    {
        let n = tree.node(order[i]);
        if !n.is_glue {
            let ok = if n.is_aggregate {
                n.prefix.masklen < 32 && 1 <= n.aggregate_low && n.aggregate_low < 32 && n.aggregate_hi < 32
            } else {
                1 <= n.prefix.masklen && n.prefix.masklen <= 32
            };
            if !ok {
                assert(tree.nodes_view()[tree.walk_view()[i as int] as int] == *n);
                return false;
            }
        }
        i = i + 1;
    }
    true
}

/// Writes the extended access list with the mask bytes in the order given
/// by `swapped` (see `quad_text`).
#[verifier::spinoff_prover]
#[verifier::rlimit(40)]
pub fn write_eacl(out: &mut String, exp: &Expander, swapped: bool)
    requires
        exp.wf(),
        eacl_printable(exp.tree),
    ensures
        final(out)@ == old(out)@ + print_eacl_text(exp, swapped),
{
    let name = exp.config.effective_name();
    let ghost start = out@;
    push_str(out, "no ip access-list extended ");
    push_str(out, name);
    push_str(out, "\n");
    let ghost mid = out@;
    if exp.tree.is_empty() {
        push_str(out, "! generated access-list ");
        push_str(out, name);
        push_str(out, " is empty\n");
        push_str(out, "ip access-list extended ");
        push_str(out, name);
        push_str(out, " deny any any\n");
    } else {
        push_str(out, "ip access-list extended ");
        push_str(out, name);
        push_str(out, "\n");
        let tree = &exp.tree;
        let order = tree.foreach();
        let ghost nodes = tree.nodes_view();
        let ghost f = |n: RadixNode, k: nat| eacl_entry(n, swapped);
        let ghost head = out@;
        let mut i: usize = 0;
        while i < order.len()
            invariant
                i <= order@.len(),
                order@ == tree.walk_view(),
                nodes == tree.nodes_view(),
                tree.wf(),
                eacl_printable(*tree),
                forall|j: int| 0 <= j < order@.len() ==> (#[trigger] order@[j] as int) < nodes.len(),
                f == (|n: RadixNode, k: nat| eacl_entry(n, swapped)),
                out@ == head + walk_text(nodes, order@.take(i as int), f),
            decreases order@.len() - i,
        {
            let idx = order[i];
            let node = tree.node(idx);
            proof {
                lemma_walk_step(nodes, order@, i as int, f);
                assert(nodes[order@[i as int] as int] == *node);
            }
            if !node.is_glue {
                write_eacl_entry(out, node, swapped);
            }
            i = i + 1;
        }
        assert(order@.take(order@.len() as int) =~= order@);
    }
    assert(out@ =~= start + print_eacl_text(exp, swapped));
}

/// Writes the extended access list with the machine's byte order (see
/// `bytes_swapped`), which it returns.
pub fn print_eacl(out: &mut String, exp: &Expander) -> (swapped: bool)
    requires
        exp.wf(),
        eacl_printable(exp.tree),
    ensures
        final(out)@ == old(out)@ + print_eacl_text(exp, swapped),
{
    let swapped = bytes_swapped();
    write_eacl(out, exp, swapped);
    swapped
}

} // verus!
