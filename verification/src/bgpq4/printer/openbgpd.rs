//! OpenBGPD prefix lists and prefix sets.

use vstd::prelude::*;
use crate::text::{dec, push_char, push_str, push_u32, str_eq};
use crate::bgpq4::expander::Expander;
use crate::bgpq4::printer::common::{emit_nodes, list_name, tree_text, EntryStyle};

verus! {

/// The text `print_prefixlist` appends.
pub open spec fn print_prefixlist_text(exp: &Expander) -> Seq<char> {
    (if exp.tree.head_view() is None {
        "# generated prefix-list "@ + list_name(exp) + " (AS "@ + dec(exp.config.asnumber as nat) + ") is empty\n"@
            + (if exp.config.asnumber == 0 {
                "# use -a <asn> to generate \"deny from ASN <asn>\" instead of this list\n"@
            } else {
                Seq::empty()
            })
    } else {
        Seq::empty()
    })
    + (if exp.tree.head_view() is Some || exp.config.asnumber == 0 {
        (if list_name(exp) != "NN"@ { list_name(exp) + "=\""@ } else { Seq::empty() }) + "prefix { "@
            + tree_text(exp.tree, EntryStyle::OpenBgpd, list_name(exp), ""@, 0, false, ""@) + "\n\t}"@
            + (if list_name(exp) != "NN"@ { "\""@ } else { Seq::empty() }) + seq!['\n']
    } else {
        "deny from AS "@ + dec(exp.config.asnumber as nat) + "\n"@
    })
}

/// An empty list is replaced by "deny from AS n" when an AS number is set;
/// otherwise the entries are printed inside "prefix { ... }", named unless
/// the name is the default "NN".
pub fn print_prefixlist(out: &mut String, exp: &Expander)
    requires
        exp.wf(),
    ensures
        final(out)@ == old(out)@ + print_prefixlist_text(exp),
{
    let ghost start = out@;
    let name = exp.config.effective_name();
    let empty = exp.tree.is_empty();
    if empty {
        push_str(out, "# generated prefix-list ");
        push_str(out, name);
        push_str(out, " (AS ");
        push_u32(out, exp.config.asnumber);
        push_str(out, ") is empty\n");
        if exp.config.asnumber == 0 {
            push_str(out, "# use -a <asn> to generate \"deny from ASN <asn>\" instead of this list\n");
        }
    }
    let ghost mid = out@;
    assert(mid =~= start + (if exp.tree.head_view() is None {
        "# generated prefix-list "@ + list_name(exp) + " (AS "@ + dec(exp.config.asnumber as nat) + ") is empty\n"@
            + (if exp.config.asnumber == 0 {
                "# use -a <asn> to generate \"deny from ASN <asn>\" instead of this list\n"@
            } else {
                Seq::empty()
            })
    } else {
        Seq::empty()
    }));
    if !empty || exp.config.asnumber == 0 {
        let use_name = !str_eq(name, "NN");
        if use_name {
            push_str(out, name);
            push_str(out, "=\"");
        }
        push_str(out, "prefix { ");
        emit_nodes(out, &exp.tree, EntryStyle::OpenBgpd, name, "", 0, false, "");
        push_str(out, "\n\t}");
        if use_name {
            push_str(out, "\"");
        }
        push_char(out, '\n');
        assert(out@ =~= mid + ((if list_name(exp) != "NN"@ { list_name(exp) + "=\""@ } else { Seq::empty() }) + "prefix { "@
            + tree_text(exp.tree, EntryStyle::OpenBgpd, list_name(exp), ""@, 0, false, ""@) + "\n\t}"@
            + (if list_name(exp) != "NN"@ { "\""@ } else { Seq::empty() }) + seq!['\n']));
    } else {
        push_str(out, "deny from AS ");
        push_u32(out, exp.config.asnumber);
        push_str(out, "\n");
    }
}

/// The text `print_prefixset` appends.
pub open spec fn print_prefixset_text(exp: &Expander) -> Seq<char> {
    "prefix-set "@ + list_name(exp) + " {"@
    + tree_text(exp.tree, EntryStyle::OpenBgpd, list_name(exp), ""@, 0, false, ""@) + "\n}\n"@
}

pub fn print_prefixset(out: &mut String, exp: &Expander)
    requires
        exp.wf(),
    ensures
        final(out)@ == old(out)@ + print_prefixset_text(exp),
{
    let name = exp.config.effective_name();
    push_str(out, "prefix-set ");
    push_str(out, name);
    push_str(out, " {");
    emit_nodes(out, &exp.tree, EntryStyle::OpenBgpd, name, "", 0, false, "");
    push_str(out, "\n}\n");
}

} // verus!
