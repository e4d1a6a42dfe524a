//! Nokia SR OS (classic and MD-CLI) prefix lists and match lists, and
//! Nokia SR Linux prefix sets and ACL filters.

use vstd::prelude::*;
use crate::text::{push_char, push_str};
use crate::bgpq4::expander::Expander;
use crate::bgpq4::printer::common::{
    emit_nodes, format_ip_family, ip_family_text, list_name, tree_text, tree_visible, EntryStyle,
};

verus! {

/// The text `print_prefixlist` appends.
pub open spec fn print_prefixlist_text(exp: &Expander) -> Seq<char> {
    "configure router policy-options\nbegin\nno prefix-list \""@ + list_name(exp) + "\"\n"@
    + "prefix-list \""@ + list_name(exp) + "\"\n"@
    + tree_text(exp.tree, EntryStyle::NokiaList, list_name(exp), ""@, 0, false, ""@) + "exit\ncommit\n"@
}

#[verifier::spinoff_prover]
#[verifier::rlimit(60)]
pub fn print_prefixlist(out: &mut String, exp: &Expander)
    requires
        exp.wf(),
    ensures
        final(out)@ == old(out)@ + print_prefixlist_text(exp),
{
    let name = exp.config.effective_name();
    push_str(out, "configure router policy-options\nbegin\nno prefix-list \"");
    push_str(out, name);
    push_str(out, "\"\n");
    push_str(out, "prefix-list \"");
    push_str(out, name);
    push_str(out, "\"\n");
    emit_nodes(out, &exp.tree, EntryStyle::NokiaList, name, "", 0, false, "");
    push_str(out, "exit\ncommit\n");
}

/// The text `print_ipprefixlist` appends.
pub open spec fn print_ipprefixlist_text(exp: &Expander) -> Seq<char> {
    "configure filter match-list\nno "@ + ip_family_text(exp.config.family) + "-prefix-list \""@
    + list_name(exp) + "\"\n"@ + ip_family_text(exp.config.family) + "-prefix-list \""@ + list_name(exp) + "\" create\n"@
    + (if exp.tree.head_view() is None {
        "# generated ip-prefix-list "@ + list_name(exp) + " is empty\n"@
    } else {
        tree_text(exp.tree, EntryStyle::NokiaIpList, list_name(exp), ""@, 0, false, ""@)
    }) + "exit\n"@
}

#[verifier::spinoff_prover]
#[verifier::rlimit(60)]
pub fn print_ipprefixlist(out: &mut String, exp: &Expander)
    requires
        exp.wf(),
    ensures
        final(out)@ == old(out)@ + print_ipprefixlist_text(exp),
{
    let name = exp.config.effective_name();
    let ip_str = format_ip_family(exp.config.family);
    push_str(out, "configure filter match-list\nno ");
    push_str(out, ip_str);
    push_str(out, "-prefix-list \"");
    push_str(out, name);
    push_str(out, "\"\n");
    push_str(out, ip_str);
    push_str(out, "-prefix-list \"");
    push_str(out, name);
    push_str(out, "\" create\n");
    let ghost mid = out@;
    if exp.tree.is_empty() {
        push_str(out, "# generated ip-prefix-list ");
        push_str(out, name);
        push_str(out, " is empty\n");
    } else {
        emit_nodes(out, &exp.tree, EntryStyle::NokiaIpList, name, "", 0, false, "");
    }
    push_str(out, "exit\n");
}

/// The text `print_md_prefixlist` appends.
pub open spec fn print_md_prefixlist_text(exp: &Expander) -> Seq<char> {
    "/configure filter match-list\ndelete "@ + ip_family_text(exp.config.family)
    + "-prefix-list \""@ + list_name(exp) + "\"\n"@ + ip_family_text(exp.config.family) + "-prefix-list \""@
    + list_name(exp) + "\" {\n"@
    + (if exp.tree.head_view() is None {
        "# generated "@ + ip_family_text(exp.config.family) + "-prefix-list "@ + list_name(exp) + " is empty\n"@
    } else {
        tree_text(exp.tree, EntryStyle::NokiaMdList, list_name(exp), ""@, 0, false, ""@)
    }) + "}\n"@
}

#[verifier::spinoff_prover]
#[verifier::rlimit(60)]
pub fn print_md_prefixlist(out: &mut String, exp: &Expander)
    requires
        exp.wf(),
    ensures
        final(out)@ == old(out)@ + print_md_prefixlist_text(exp),
{
    let name = exp.config.effective_name();
    let ip_str = format_ip_family(exp.config.family);
    push_str(out, "/configure filter match-list\ndelete ");
    push_str(out, ip_str);
    push_str(out, "-prefix-list \"");
    push_str(out, name);
    push_str(out, "\"\n");
    push_str(out, ip_str);
    push_str(out, "-prefix-list \"");
    push_str(out, name);
    push_str(out, "\" {\n");
    let ghost mid = out@;
    if exp.tree.is_empty() {
        push_str(out, "# generated ");
        push_str(out, ip_str);
        push_str(out, "-prefix-list ");
        push_str(out, name);
        push_str(out, " is empty\n");
    } else {
        emit_nodes(out, &exp.tree, EntryStyle::NokiaMdList, name, "", 0, false, "");
    }
    push_str(out, "}\n");
}

/// The text `print_md_ipprefixlist` appends.
pub open spec fn print_md_ipprefixlist_text(exp: &Expander) -> Seq<char> {
    "/configure policy-options\ndelete prefix-list \""@ + list_name(exp) + "\"\n"@
    + "prefix-list \""@ + list_name(exp) + "\" {\n"@
    + tree_text(exp.tree, EntryStyle::NokiaMdIpList, list_name(exp), ""@, 0, false, ""@) + "}\n"@
}

#[verifier::spinoff_prover]
#[verifier::rlimit(60)]
pub fn print_md_ipprefixlist(out: &mut String, exp: &Expander)
    requires
        exp.wf(),
    ensures
        final(out)@ == old(out)@ + print_md_ipprefixlist_text(exp),
{
    let name = exp.config.effective_name();
    push_str(out, "/configure policy-options\ndelete prefix-list \"");
    push_str(out, name);
    push_str(out, "\"\n");
    push_str(out, "prefix-list \"");
    push_str(out, name);
    push_str(out, "\" {\n");
    emit_nodes(out, &exp.tree, EntryStyle::NokiaMdIpList, name, "", 0, false, "");
    push_str(out, "}\n");
}

/// The text `print_srl_prefixset` appends.
pub open spec fn print_srl_prefixset_text(exp: &Expander) -> Seq<char> {
    "/routing-policy\ndelete prefix-set \""@ + list_name(exp) + "\"\n"@
    + "prefix-set \""@ + list_name(exp) + "\" {\n"@
    + tree_text(exp.tree, EntryStyle::NokiaSrlSet, list_name(exp), ""@, 0, false, ""@) + "}\n"@
}

#[verifier::spinoff_prover]
#[verifier::rlimit(60)]
pub fn print_srl_prefixset(out: &mut String, exp: &Expander)
    requires
        exp.wf(),
    ensures
        final(out)@ == old(out)@ + print_srl_prefixset_text(exp),
{
    let name = exp.config.effective_name();
    push_str(out, "/routing-policy\ndelete prefix-set \"");
    push_str(out, name);
    push_str(out, "\"\n");
    push_str(out, "prefix-set \"");
    push_str(out, name);
    push_str(out, "\" {\n");
    emit_nodes(out, &exp.tree, EntryStyle::NokiaSrlSet, name, "", 0, false, "");
    push_str(out, "}\n");
}

/// The text `print_srl_aclipfilter` appends.
pub open spec fn print_srl_aclipfilter_text(exp: &Expander) -> Seq<char> {
    "/acl \ndelete ipv"@ + seq![if exp.config.family == 2 { '4' } else { '6' }]
    + "-filter \""@ + list_name(exp) + "\"\n"@ + "ipv"@ + seq![if exp.config.family == 2 { '4' } else { '6' }]
    + "-filter \""@ + list_name(exp) + "\" {\n"@
    + (if exp.tree.head_view() is None {
        "# generated ipv"@ + seq![if exp.config.family == 2 { '4' } else { '6' }] + "-filter '"@ + list_name(exp)
            + "' is empty\n"@
    } else {
        tree_text(exp.tree, EntryStyle::NokiaSrlAcl, list_name(exp), ""@, 0, false, ""@)
    }) + "}\n"@
}

#[verifier::spinoff_prover]
#[verifier::rlimit(60)]
pub fn print_srl_aclipfilter(out: &mut String, exp: &Expander)
    requires
        exp.wf(),
        10 + 10 * tree_visible(exp.tree) <= i32::MAX,
    ensures
        final(out)@ == old(out)@ + print_srl_aclipfilter_text(exp),
{
    let name = exp.config.effective_name();
    let v = if exp.config.family == 2 { '4' } else { '6' };
    push_str(out, "/acl \ndelete ipv");
    push_char(out, v);
    push_str(out, "-filter \"");
    push_str(out, name);
    push_str(out, "\"\n");
    push_str(out, "ipv");
    push_char(out, v);
    push_str(out, "-filter \"");
    push_str(out, name);
    push_str(out, "\" {\n");
    let ghost mid = out@;
    if exp.tree.is_empty() {
        push_str(out, "# generated ipv");
        push_char(out, v);
        push_str(out, "-filter '");
        push_str(out, name);
        push_str(out, "' is empty\n");
        assert(out@ =~= mid + "# generated ipv"@ + seq![v] + "-filter '"@ + name@ + "' is empty\n"@);
    } else {
        emit_nodes(out, &exp.tree, EntryStyle::NokiaSrlAcl, name, "", 0, false, "");
    }
    push_str(out, "}\n");
}

} // verus!
