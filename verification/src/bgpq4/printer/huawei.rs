//! Huawei IP prefix lists and XPL prefix lists.

use vstd::prelude::*;
use crate::text::push_str;
use crate::bgpq4::expander::Expander;
use crate::bgpq4::printer::common::{
    default_prefix, emit_nodes, format_ip_family, ip_family_text, list_name, push_default_prefix,
    tree_text, EntryStyle,
};

verus! {

/// The text `print_prefixlist` appends.
pub open spec fn print_prefixlist_text(exp: &Expander) -> Seq<char> {
    "undo ip "@ + ip_family_text(exp.config.family) + "-prefix "@ + list_name(exp) + "\n"@
    + (if exp.tree.head_view() is None {
        "ip "@ + ip_family_text(exp.config.family) + "-prefix "@ + list_name(exp)
            + (if exp.config.sequence > 0 { " seq 1"@ } else { ""@ }) + " deny "@
            + default_prefix(exp.config.family) + "\n"@
    } else {
        tree_text(exp.tree, EntryStyle::Huawei, list_name(exp), ip_family_text(exp.config.family), 0, false, ""@)
    })
}

pub fn print_prefixlist(out: &mut String, exp: &Expander)
    requires
        exp.wf(),
    ensures
        final(out)@ == old(out)@ + print_prefixlist_text(exp),
{
    let name = exp.config.effective_name();
    let ip_str = format_ip_family(exp.config.family);
    push_str(out, "undo ip ");
    push_str(out, ip_str);
    push_str(out, "-prefix ");
    push_str(out, name);
    push_str(out, "\n");
    let ghost mid = out@;
    if exp.tree.is_empty() {
        push_str(out, "ip ");
        push_str(out, ip_str);
        push_str(out, "-prefix ");
        push_str(out, name);
        let seq_str = if exp.config.sequence > 0 { " seq 1" } else { "" };
        push_str(out, seq_str);
        push_str(out, " deny ");
        push_default_prefix(out, exp.config.family);
        push_str(out, "\n");
    } else {
        emit_nodes(out, &exp.tree, EntryStyle::Huawei, name, ip_str, 0, false, "");
    }
}

/// The text `print_xpl_prefixlist` appends.
pub open spec fn print_xpl_prefixlist_text(exp: &Expander) -> Seq<char> {
    "no xpl "@ + ip_family_text(exp.config.family) + "-prefix-list "@ + list_name(exp)
    + "\nxpl "@ + ip_family_text(exp.config.family) + "-prefix-list "@ + list_name(exp) + "\n"@
    + tree_text(exp.tree, EntryStyle::HuaweiXpl, list_name(exp), ""@, 0, false, ""@) + "\nend-list\n"@
}

pub fn print_xpl_prefixlist(out: &mut String, exp: &Expander)
    requires
        exp.wf(),
    ensures
        final(out)@ == old(out)@ + print_xpl_prefixlist_text(exp),
{
    let name = exp.config.effective_name();
    let ip_str = format_ip_family(exp.config.family);
    push_str(out, "no xpl ");
    push_str(out, ip_str);
    push_str(out, "-prefix-list ");
    push_str(out, name);
    push_str(out, "\nxpl ");
    push_str(out, ip_str);
    push_str(out, "-prefix-list ");
    push_str(out, name);
    push_str(out, "\n");
    emit_nodes(out, &exp.tree, EntryStyle::HuaweiXpl, name, "", 0, false, "");
    push_str(out, "\nend-list\n");
}

} // verus!
