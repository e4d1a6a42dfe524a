//! Vendor printers of prefix lists, AS-path filters and access lists.

pub mod common;
pub mod juniper;
pub mod cisco;
pub mod bird;
pub mod format;
pub mod huawei;
pub mod mikrotik;
pub mod nokia;
pub mod openbgpd;
pub mod aspath;

use vstd::prelude::*;
use crate::bgpq4::config::Vendor;
use crate::bgpq4::expander::Expander;
use crate::bgpq4::printer::common::{emit_nodes, list_name, tree_text, tree_visible, EntryStyle};
use crate::bgpq4::prefix::SxPrefix;
use crate::text::{push_str};

verus! {

/// The prefix list in the configured vendor's dialect.
pub open spec fn prefixlist_text(exp: &Expander) -> Seq<char> {
    match exp.config.vendor {
        Vendor::Juniper => juniper::print_prefixlist_text(exp),
        Vendor::Cisco => cisco::print_prefixlist_text(exp),
        Vendor::CiscoXr => cisco::print_xr_prefixlist_text(exp),
        Vendor::Json => json_prefixlist_text(exp),
        Vendor::Bird => bird::print_prefixlist_text(exp),
        Vendor::OpenBgpd => openbgpd::print_prefixlist_text(exp),
        Vendor::Format => format::print_prefixlist_text(exp),
        Vendor::Nokia => nokia::print_prefixlist_text(exp),
        Vendor::NokiaMd => nokia::print_md_ipprefixlist_text(exp),
        Vendor::NokiaSrl => nokia::print_srl_prefixset_text(exp),
        Vendor::Huawei => huawei::print_prefixlist_text(exp),
        Vendor::HuaweiXpl => huawei::print_xpl_prefixlist_text(exp),
        Vendor::Mikrotik6 | Vendor::Mikrotik7 => mikrotik::print_prefixlist_text(exp),
        Vendor::Arista => cisco::print_arista_prefixlist_text(exp),
    }
}

/// The JSON prefix list: an object naming the list of the listed
/// prefixes, each an object with the prefix (slash escaped) and whether it
/// is exact, an aggregate giving its length bounds.
pub open spec fn json_prefixlist_text(exp: &Expander) -> Seq<char> {
    "{ \""@ + list_name(exp) + "\": ["@ + tree_text(exp.tree, EntryStyle::Json, list_name(exp), ""@, 0, false, ""@) + "\n] }\n"@
}

/// Prints the JSON prefix list (see `json_prefixlist_text`).
pub fn print_json_prefixlist(out: &mut String, exp: &Expander)
    requires
        exp.wf(),
    ensures
        final(out)@ == old(out)@ + json_prefixlist_text(exp),
{
    let name = exp.config.effective_name();
    push_str(out, "{ \"");
    push_str(out, name);
    push_str(out, "\": [");
    emit_nodes(out, &exp.tree, EntryStyle::Json, name, "", 0, false, "");
    push_str(out, "\n] }\n");
}

/// Prints the prefix list in the configured vendor's dialect (always done:
/// the result is true).
pub fn print_prefixlist(out: &mut String, exp: &Expander) -> (ok: bool)
    requires
        exp.wf(),
        exp.config.vendor == Vendor::Cisco && exp.config.sequence > 0 ==> 1 + tree_visible(exp.tree) <= u32::MAX,
        exp.config.vendor == Vendor::Arista ==> exp.config.sequence + tree_visible(exp.tree) <= i32::MAX,
    ensures
        ok,
        final(out)@ == old(out)@ + prefixlist_text(exp),
{
    match exp.config.vendor {
        Vendor::Juniper => juniper::print_prefixlist(out, exp),
        Vendor::Cisco => cisco::print_prefixlist(out, exp),
        Vendor::CiscoXr => cisco::print_xr_prefixlist(out, exp),
        Vendor::Json => print_json_prefixlist(out, exp),
        Vendor::Bird => bird::print_prefixlist(out, exp),
        Vendor::OpenBgpd => openbgpd::print_prefixlist(out, exp),
        Vendor::Format => format::print_prefixlist(out, exp),
        Vendor::Nokia => nokia::print_prefixlist(out, exp),
        Vendor::NokiaMd => nokia::print_md_ipprefixlist(out, exp),
        Vendor::NokiaSrl => nokia::print_srl_prefixset(out, exp),
        Vendor::Huawei => huawei::print_prefixlist(out, exp),
        Vendor::HuaweiXpl => huawei::print_xpl_prefixlist(out, exp),
        Vendor::Mikrotik6 | Vendor::Mikrotik7 => mikrotik::print_prefixlist(out, exp),
        Vendor::Arista => cisco::print_arista_prefixlist(out, exp),
    }
    true
}

/// Vendors with an access-list printer.
pub open spec fn has_eacl(v: Vendor) -> bool {
    v == Vendor::Juniper || v == Vendor::Cisco || v == Vendor::Arista || v == Vendor::OpenBgpd
        || v == Vendor::Nokia || v == Vendor::NokiaMd || v == Vendor::NokiaSrl
}

/// The access list in the configured vendor's dialect; for Cisco and Arista
/// the mask bytes follow the byte order given by `swapped` (see
/// `cisco::quad_text`).
pub open spec fn eacl_text(exp: &Expander, swapped: bool) -> Seq<char> {
    match exp.config.vendor {
        Vendor::Juniper => juniper::print_routefilter_text(exp),
        Vendor::Cisco | Vendor::Arista => cisco::print_eacl_text(exp, swapped),
        Vendor::OpenBgpd => openbgpd::print_prefixset_text(exp),
        Vendor::Nokia => nokia::print_ipprefixlist_text(exp),
        Vendor::NokiaMd => nokia::print_md_prefixlist_text(exp),
        Vendor::NokiaSrl => nokia::print_srl_aclipfilter_text(exp),
        _ => Seq::empty(),
    }
}

/// Prints the access list in the configured vendor's dialect; false (and
/// nothing printed) for the other vendors. The Cisco and Arista lists
/// follow the machine's byte order: one of the two texts.
pub fn print_eacl(out: &mut String, exp: &Expander) -> (ok: bool)
    requires
        exp.wf(),
        exp.config.vendor == Vendor::NokiaSrl ==> 10 + 10 * tree_visible(exp.tree) <= i32::MAX,
        exp.config.vendor == Vendor::Cisco || exp.config.vendor == Vendor::Arista ==> cisco::eacl_printable(exp.tree),
    ensures
        ok == has_eacl(exp.config.vendor),
        final(out)@ == old(out)@ + eacl_text(exp, false) || final(out)@ == old(out)@ + eacl_text(exp, true),
{
    match exp.config.vendor {
        Vendor::Juniper => juniper::print_routefilter(out, exp),
        Vendor::Cisco | Vendor::Arista => {
            cisco::print_eacl(out, exp);
        },
        Vendor::OpenBgpd => openbgpd::print_prefixset(out, exp),
        Vendor::Nokia => nokia::print_ipprefixlist(out, exp),
        Vendor::NokiaMd => nokia::print_md_prefixlist(out, exp),
        Vendor::NokiaSrl => nokia::print_srl_aclipfilter(out, exp),
        _ => {
            assert(final(out)@ =~= old(out)@ + Seq::<char>::empty());
            return false;
        },
    }
    true
}

/// Vendors with an AS-path printer.
pub open spec fn has_aspath(v: Vendor) -> bool {
    v == Vendor::Juniper || v == Vendor::Cisco || v == Vendor::Arista || v == Vendor::CiscoXr || v == Vendor::Json
        || v == Vendor::Bird || v == Vendor::OpenBgpd || v == Vendor::Nokia || v == Vendor::NokiaMd
        || v == Vendor::Huawei || v == Vendor::HuaweiXpl
}

/// The AS-path filter in the configured vendor's dialect.
pub open spec fn aspath_text(exp: &Expander) -> Seq<char> {
    match exp.config.vendor {
        Vendor::Juniper => aspath::print_juniper_aspath_text(exp),
        Vendor::Cisco | Vendor::Arista => aspath::print_cisco_aspath_text(exp),
        Vendor::CiscoXr => aspath::print_cisco_xr_aspath_text(exp),
        Vendor::Json => aspath::print_json_aspath_text(exp),
        Vendor::Bird => aspath::print_bird_aspath_text(exp),
        Vendor::OpenBgpd => aspath::print_openbgpd_aspath_text(exp),
        Vendor::Nokia => aspath::print_nokia_aspath_text(exp),
        Vendor::NokiaMd => aspath::print_nokia_md_aspath_text(exp),
        Vendor::Huawei => aspath::print_huawei_aspath_text(exp),
        Vendor::HuaweiXpl => aspath::print_huawei_xpl_aspath_text(exp),
        _ => Seq::empty(),
    }
}

/// Prints the AS-path filter; false (and nothing printed) for a vendor
/// without one.
pub fn print_aspath(out: &mut String, exp: &Expander) -> (ok: bool)
    requires
        exp.asn_list@.len() < 0x7fff_ff00,
    ensures
        ok == has_aspath(exp.config.vendor),
        final(out)@ == old(out)@ + aspath_text(exp),
{
    match exp.config.vendor {
        Vendor::Juniper => aspath::print_juniper_aspath(out, exp),
        Vendor::Cisco | Vendor::Arista => aspath::print_cisco_aspath(out, exp),
        Vendor::CiscoXr => aspath::print_cisco_xr_aspath(out, exp),
        Vendor::Json => aspath::print_json_aspath(out, exp),
        Vendor::Bird => aspath::print_bird_aspath(out, exp),
        Vendor::OpenBgpd => aspath::print_openbgpd_aspath(out, exp),
        Vendor::Nokia => aspath::print_nokia_aspath(out, exp),
        Vendor::NokiaMd => aspath::print_nokia_md_aspath(out, exp),
        Vendor::Huawei => aspath::print_huawei_aspath(out, exp),
        Vendor::HuaweiXpl => aspath::print_huawei_xpl_aspath(out, exp),
        _ => {
            assert(final(out)@ =~= old(out)@ + Seq::<char>::empty());
            return false;
        },
    }
    true
}

/// Vendors with an origin AS-path printer.
pub open spec fn has_oaspath(v: Vendor) -> bool {
    v == Vendor::Juniper || v == Vendor::Cisco || v == Vendor::Arista || v == Vendor::CiscoXr
        || v == Vendor::OpenBgpd || v == Vendor::Nokia || v == Vendor::NokiaMd || v == Vendor::Huawei
        || v == Vendor::HuaweiXpl
}

/// The origin AS-path filter in the configured vendor's dialect.
pub open spec fn oaspath_text(exp: &Expander) -> Seq<char> {
    match exp.config.vendor {
        Vendor::Juniper => aspath::print_juniper_oaspath_text(exp),
        Vendor::Cisco | Vendor::Arista => aspath::print_cisco_oaspath_text(exp),
        Vendor::CiscoXr => aspath::print_cisco_xr_oaspath_text(exp),
        Vendor::OpenBgpd => aspath::print_openbgpd_oaspath_text(exp),
        Vendor::Nokia => aspath::print_nokia_oaspath_text(exp),
        Vendor::NokiaMd => aspath::print_nokia_md_oaspath_text(exp),
        Vendor::Huawei => aspath::print_huawei_oaspath_text(exp),
        Vendor::HuaweiXpl => aspath::print_huawei_xpl_oaspath_text(exp),
        _ => Seq::empty(),
    }
}

/// Prints the origin AS-path filter; false (and nothing printed) for a
/// vendor without one.
pub fn print_oaspath(out: &mut String, exp: &Expander) -> (ok: bool)
    requires
        exp.asn_list@.len() < 0x7fff_ff00,
    ensures
        ok == has_oaspath(exp.config.vendor),
        final(out)@ == old(out)@ + oaspath_text(exp),
{
    match exp.config.vendor {
        Vendor::Juniper => aspath::print_juniper_oaspath(out, exp),
        Vendor::Cisco | Vendor::Arista => aspath::print_cisco_oaspath(out, exp),
        Vendor::CiscoXr => aspath::print_cisco_xr_oaspath(out, exp),
        Vendor::OpenBgpd => aspath::print_openbgpd_oaspath(out, exp),
        Vendor::Nokia => aspath::print_nokia_oaspath(out, exp),
        Vendor::NokiaMd => aspath::print_nokia_md_oaspath(out, exp),
        Vendor::Huawei => aspath::print_huawei_oaspath(out, exp),
        Vendor::HuaweiXpl => aspath::print_huawei_xpl_oaspath(out, exp),
        _ => {
            assert(final(out)@ =~= old(out)@ + Seq::<char>::empty());
            return false;
        },
    }
    true
}

/// The AS list (Juniper's, for every vendor).
pub fn print_aslist(out: &mut String, exp: &Expander)
    requires
        exp.asn_list@.len() < 0x7fff_ff00,
    ensures
        final(out)@ == old(out)@ + aspath::print_juniper_aslist_text(exp),
{
    aspath::print_juniper_aslist(out, exp);
}

/// Vendors with an AS-set printer.
pub open spec fn has_asset(v: Vendor) -> bool {
    v == Vendor::Json || v == Vendor::OpenBgpd || v == Vendor::Bird
}

/// The AS set in the configured vendor's dialect.
pub open spec fn asset_text(exp: &Expander) -> Seq<char> {
    match exp.config.vendor {
        Vendor::Json => aspath::print_json_aspath_text(exp),
        Vendor::OpenBgpd => aspath::print_openbgpd_asset_text(exp),
        Vendor::Bird => aspath::print_bird_aspath_text(exp),
        _ => Seq::empty(),
    }
}

/// Prints the AS set (JSON, OpenBGPD and BIRD only); false (and nothing
/// printed) for the other vendors.
pub fn print_asset(out: &mut String, exp: &Expander) -> (ok: bool)
    requires
        exp.asn_list@.len() < 0x7fff_ff00,
    ensures
        ok == has_asset(exp.config.vendor),
        final(out)@ == old(out)@ + asset_text(exp),
{
    match exp.config.vendor {
        Vendor::Json => aspath::print_json_aspath(out, exp),
        Vendor::OpenBgpd => aspath::print_openbgpd_asset(out, exp),
        Vendor::Bird => aspath::print_bird_aspath(out, exp),
        _ => {
            assert(final(out)@ =~= old(out)@ + Seq::<char>::empty());
            return false;
        },
    }
    true
}

/// The route-filter list (Juniper's, for every vendor).
pub fn print_route_filter_list(out: &mut String, exp: &Expander)
    requires
        exp.wf(),
    ensures
        final(out)@ == old(out)@ + juniper::print_route_filter_list_text(exp),
{
    juniper::print_route_filter_list(out, exp);
}

/// The concatenated texts of a list of prefixes; `f` gets the position and
/// the prefix.
pub open spec fn list_text(ps: Seq<SxPrefix>, f: spec_fn(int, SxPrefix) -> Seq<char>) -> Seq<char>
    decreases ps.len(),
{
    if ps.len() == 0 {
        Seq::empty()
    } else {
        list_text(ps.drop_last(), f) + f(ps.len() - 1, ps.last())
    }
}

proof fn lemma_list_step(ps: Seq<SxPrefix>, i: int, f: spec_fn(int, SxPrefix) -> Seq<char>)
    requires
        0 <= i < ps.len(),
    ensures
        list_text(ps.take(i + 1), f) == list_text(ps.take(i), f) + f(i, ps[i]),
{
    assert(ps.take(i + 1).drop_last() =~= ps.take(i));
}

/// The dialect of a plain prefix list.
#[derive(Clone, Copy, PartialEq, Eq, Structural)]
pub enum PlainStyle {
    Cisco,
    Juniper,
    Json,
    Bird,
    OpenBgpd,
}

/// The line of prefix `p`, at position `i` of `n`, in a plain list.
pub open spec fn plain_entry(style: PlainStyle, name: Seq<char>, n: int, i: int, p: SxPrefix) -> Seq<char> {
    match style {
        PlainStyle::Cisco => "ip prefix-list "@ + name + " permit "@ + p.text() + "\n"@,
        PlainStyle::Juniper => "    "@ + p.text() + ";\n"@,
        PlainStyle::Json => (if i > 0 { ",\n"@ } else { Seq::empty() }) + "    { \"prefix\": \""@
            + crate::bgpq4::prefix::addr_text(p.family, p.addrs@) + seq!['\\', '/'] + crate::text::dec(p.masklen as nat)
            + "\", \"exact\": true }"@,
        PlainStyle::Bird => "    "@ + p.text() + (if i + 1 < n { ",\n"@ } else { "\n"@ }),
        PlainStyle::OpenBgpd => "\t"@ + p.text() + "\n"@,
    }
}

fn push_plain_entries(out: &mut String, style: PlainStyle, name: &str, prefixes: &[SxPrefix])
    ensures
        final(out)@ == old(out)@ + list_text(prefixes@, |i: int, p: SxPrefix| plain_entry(style, name@, prefixes@.len() as int, i, p)),
{
    let ghost start = out@;
    let ghost f = |i: int, p: SxPrefix| plain_entry(style, name@, prefixes@.len() as int, i, p);
    let n = prefixes.len();
    let mut i: usize = 0;
    while i < n
        invariant
            i <= n,
            n == prefixes@.len(),
            f == (|i: int, p: SxPrefix| plain_entry(style, name@, prefixes@.len() as int, i, p)),
            out@ == start + list_text(prefixes@.take(i as int), f),
        decreases n - i,
    {
        proof { lemma_list_step(prefixes@, i as int, f); }
        let p = &prefixes[i];
        let ghost before = out@;
        match style {
            PlainStyle::Cisco => {
                push_str(out, "ip prefix-list ");
                push_str(out, name);
                push_str(out, " permit ");
                let t = p.format_str();
                push_str(out, t.as_str());
                push_str(out, "\n");
            },
            PlainStyle::Juniper => {
                push_str(out, "    ");
                let t = p.format_str();
                push_str(out, t.as_str());
                push_str(out, ";\n");
            },
            PlainStyle::Json => {
                if i > 0 {
                    push_str(out, ",\n");
                }
                push_str(out, "    { \"prefix\": \"");
                let t = p.format_json();
                push_str(out, t.as_str());
                push_str(out, "\", \"exact\": true }");
            },
            PlainStyle::Bird => {
                push_str(out, "    ");
                let t = p.format_str();
                push_str(out, t.as_str());
                if i + 1 < n {
                    push_str(out, ",\n");
                } else {
                    push_str(out, "\n");
                }
            },
            PlainStyle::OpenBgpd => {
                push_str(out, "\t");
                let t = p.format_str();
                push_str(out, t.as_str());
                push_str(out, "\n");
            },
        }
        assert(out@ =~= before + plain_entry(style, name@, n as int, i as int, prefixes@[i as int]));
        i = i + 1;
    }
    assert(prefixes@.take(n as int) =~= prefixes@);
}

/// A Cisco prefix list of the given prefixes.
pub fn format_cisco(name: &str, prefixes: &[SxPrefix]) -> (out: String)
    ensures
        out@ == "no ip prefix-list "@ + name@ + "\n"@
            + list_text(prefixes@, |i: int, p: SxPrefix| plain_entry(PlainStyle::Cisco, name@, prefixes@.len() as int, i, p)),
{
    let mut out = String::new();
    push_str(&mut out, "no ip prefix-list ");
    push_str(&mut out, name);
    push_str(&mut out, "\n");
    push_plain_entries(&mut out, PlainStyle::Cisco, name, prefixes);
    out
}

/// A Juniper prefix list of the given prefixes.
pub fn format_juniper(name: &str, prefixes: &[SxPrefix]) -> (out: String)
    ensures
        out@ == "policy-options {\nreplace:\n prefix-list "@ + name@ + " {\n"@
            + list_text(prefixes@, |i: int, p: SxPrefix| plain_entry(PlainStyle::Juniper, name@, prefixes@.len() as int, i, p))
            + " }\n}\n"@,
{
    let mut out = String::new();
    push_str(&mut out, "policy-options {\nreplace:\n prefix-list ");
    push_str(&mut out, name);
    push_str(&mut out, " {\n");
    push_plain_entries(&mut out, PlainStyle::Juniper, name, prefixes);
    push_str(&mut out, " }\n}\n");
    out
}

/// A JSON object naming the list of the given prefixes, each exact.
pub fn format_json(name: &str, prefixes: &[SxPrefix]) -> (out: String)
    ensures
        out@ == "{ \""@ + name@ + "\": [\n"@
            + list_text(prefixes@, |i: int, p: SxPrefix| plain_entry(PlainStyle::Json, name@, prefixes@.len() as int, i, p))
            + "\n] }\n"@,
{
    let mut out = String::new();
    push_str(&mut out, "{ \"");
    push_str(&mut out, name);
    push_str(&mut out, "\": [\n");
    push_plain_entries(&mut out, PlainStyle::Json, name, prefixes);
    push_str(&mut out, "\n] }\n");
    out
}

/// A BIRD prefix set of the given prefixes.
pub fn format_bird(name: &str, prefixes: &[SxPrefix]) -> (out: String)
    ensures
        out@ == name@ + " = [\n"@
            + list_text(prefixes@, |i: int, p: SxPrefix| plain_entry(PlainStyle::Bird, name@, prefixes@.len() as int, i, p))
            + "];\n"@,
{
    let mut out = String::new();
    push_str(&mut out, name);
    push_str(&mut out, " = [\n");
    push_plain_entries(&mut out, PlainStyle::Bird, name, prefixes);
    push_str(&mut out, "];\n");
    out
}

/// An OpenBGPD prefix list of the given prefixes (the name is not used).
pub fn format_openbgpd(name: &str, prefixes: &[SxPrefix]) -> (out: String)
    ensures
        out@ == "prefix { \n"@
            + list_text(prefixes@, |i: int, p: SxPrefix| plain_entry(PlainStyle::OpenBgpd, name@, prefixes@.len() as int, i, p))
            + "\t}\n"@,
{
    let mut out = String::new();
    push_str(&mut out, "prefix { \n");
    push_plain_entries(&mut out, PlainStyle::OpenBgpd, name, prefixes);
    push_str(&mut out, "\t}\n");
    out
}

} // verus!
