//! BIRD prefix sets.

use vstd::prelude::*;
use crate::text::push_str;
use crate::bgpq4::expander::Expander;
use crate::bgpq4::printer::common::{emit_nodes, list_name, tree_text, EntryStyle};

verus! {

/// The text `print_prefixlist` appends.
pub open spec fn print_prefixlist_text(exp: &Expander) -> Seq<char> {
    (if exp.tree.head_view() is None {
    Seq::empty()
} else {
    list_name(exp) + " = ["@ + tree_text(exp.tree, EntryStyle::Bird, list_name(exp), ""@, 0, false, ""@) + "\n];\n"@
})
}

pub fn print_prefixlist(out: &mut String, exp: &Expander)
    requires
        exp.wf(),
    ensures
        final(out)@ == old(out)@ + print_prefixlist_text(exp),
{
    let name = exp.config.effective_name();
    if exp.tree.is_empty() {
        assert(final(out)@ =~= old(out)@ + Seq::<char>::empty());
        return;
    }
    push_str(out, name);
    push_str(out, " = [");
    emit_nodes(out, &exp.tree, EntryStyle::Bird, name, "", 0, false, "");
    push_str(out, "\n];\n");
}

} // verus!
