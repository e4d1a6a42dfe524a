//! MikroTik RouterOS 6 and 7 routing filters.

use vstd::prelude::*;
use crate::text::push_str;
use crate::bgpq4::config::Vendor;
use crate::bgpq4::expander::Expander;
use crate::bgpq4::printer::common::{emit_nodes, list_name, tree_text, EntryStyle};

verus! {

/// The text `print_prefixlist` appends.
pub open spec fn print_prefixlist_text(exp: &Expander) -> Seq<char> {
    (if exp.tree.head_view() is None {
    "# generated prefix-list "@ + list_name(exp) + " is empty\n"@
} else {
    tree_text(exp.tree, EntryStyle::Mikrotik, list_name(exp), ""@, 0, exp.config.vendor == Vendor::Mikrotik7, ""@)
})
}

pub fn print_prefixlist(out: &mut String, exp: &Expander)
    requires
        exp.wf(),
    ensures
        final(out)@ == old(out)@ + print_prefixlist_text(exp),
{
    let name = exp.config.effective_name();
    if exp.tree.is_empty() {
        push_str(out, "# generated prefix-list ");
        push_str(out, name);
        push_str(out, " is empty\n");
        return;
    }
    let v7 = match exp.config.vendor {
        Vendor::Mikrotik7 => true,
        _ => false,
    };
    emit_nodes(out, &exp.tree, EntryStyle::Mikrotik, name, "", 0, v7, "");
}

} // verus!
