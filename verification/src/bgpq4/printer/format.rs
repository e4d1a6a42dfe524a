//! Prefix lists in a user-supplied format.

use vstd::prelude::*;
use vstd::string::*;
use vstd::utf8::encode_utf8;
use crate::text::{push_char, push_str};
use crate::bgpq4::expander::Expander;
use crate::bgpq4::printer::common::{emit_nodes, list_name, tree_text, EntryStyle};

verus! {

/// The format text ends with the escape "\n" (so each entry already ends
/// a line).
pub open spec fn ends_with_newline_escape(b: Seq<u8>) -> bool {
    b.len() >= 2 && b[b.len() - 2] == 0x5cu8 && b[b.len() - 1] == 0x6eu8
}

/// The text `print_prefixlist` appends.
pub open spec fn print_prefixlist_text(exp: &Expander) -> Seq<char> {
    match exp.config.format {
    None => Seq::empty(),
    Some(f) => tree_text(exp.tree, EntryStyle::Format, list_name(exp), ""@, 0, false, f@)
        + (if ends_with_newline_escape(encode_utf8(f@)) { Seq::empty() } else { seq!['\n'] }),
}
}

/// Each visible prefix in the configured format, then a line end unless
/// the format already ends with "\n"; nothing without a format.
pub fn print_prefixlist(out: &mut String, exp: &Expander)
    requires
        exp.wf(),
    ensures
        final(out)@ == old(out)@ + print_prefixlist_text(exp),
{
    let name = exp.config.effective_name();
    let fmt: &String = match &exp.config.format {
        Some(f) => f,
        None => {
            assert(final(out)@ =~= old(out)@ + Seq::<char>::empty());
            return;
        },
    };
    emit_nodes(out, &exp.tree, EntryStyle::Format, name, "", 0, false, fmt.as_str());
    let bytes = fmt.as_str().as_bytes();
    let len = bytes.len();
    if len < 2 || !(bytes[len - 2] == 0x5cu8 && bytes[len - 1] == 0x6eu8) {
        push_char(out, '\n');
    } else {
        assert(final(out)@ =~= out@ + Seq::<char>::empty());
    }
}

} // verus!
