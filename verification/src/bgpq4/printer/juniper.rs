//! Juniper prefix lists, policy route filters and route-filter lists.

use vstd::prelude::*;
use vstd::string::*;
use crate::text::{chars_of, find_char, find_char_from, push_str, string_from_chars};
use crate::bgpq4::expander::Expander;
use crate::bgpq4::printer::common::{emit_nodes, list_name, tree_text, EntryStyle};

verus! {

/// The text `print_prefixlist` appends.
pub open spec fn print_prefixlist_text(exp: &Expander) -> Seq<char> {
    "policy-options {\nreplace:\n prefix-list "@ + list_name(exp) + " {\n"@
    + tree_text(exp.tree, EntryStyle::JuniperList, list_name(exp), ""@, 0, false, ""@) + " }\n}\n"@
}

pub fn print_prefixlist(out: &mut String, exp: &Expander)
    requires
        exp.wf(),
    ensures
        final(out)@ == old(out)@ + print_prefixlist_text(exp),
{
    let name = exp.config.effective_name();
    push_str(out, "policy-options {\nreplace:\n prefix-list ");
    push_str(out, name);
    push_str(out, " {\n");
    emit_nodes(out, &exp.tree, EntryStyle::JuniperList, name, "", 0, false, "");
    push_str(out, " }\n}\n");
}

/// The "match" line of a route filter, if one is configured.
pub open spec fn match_line(exp: &Expander) -> Seq<char> {
    match exp.config.match_expr {
        Some(m) => "    "@ + m@ + ";\n"@,
        None => Seq::empty(),
    }
}

/// The catch-all entry of an empty filter.
pub open spec fn default_route(family: u8) -> Seq<char> {
    if family == 2 { "0.0.0.0"@ } else { "::"@ }
}

/// Head of a route filter: "policy-statement NAME" (or, for "NAME/TERM",
/// the statement NAME with its term TERM), then the match line.
pub open spec fn routefilter_head(exp: &Expander) -> Seq<char> {
    let name = list_name(exp);
    let slash = find_char_from(name, '/', 0);
    (if slash < name.len() {
        "policy-options {\n policy-statement "@ + name.subrange(0, slash) + " {\n  term "@
            + name.subrange(slash + 1, name.len() as int) + " {\nreplace:\n   from {\n"@
    } else {
        "policy-options {\n policy-statement "@ + name + " { \nreplace:\n  from {\n"@
    }) + match_line(exp)
}

fn push_match_line(out: &mut String, exp: &Expander)
    ensures
        final(out)@ == old(out)@ + match_line(exp),
{
    match &exp.config.match_expr {
        Some(m) => {
            push_str(out, "    ");
            push_str(out, m.as_str());
            push_str(out, ";\n");
        },
        None => {
            assert(final(out)@ =~= old(out)@ + match_line(exp));
        },
    }
}

fn push_default_route(out: &mut String, family: u8)
    ensures
        final(out)@ == old(out)@ + default_route(family),
{
    if family == 2 {
        push_str(out, "0.0.0.0");
    } else {
        push_str(out, "::");
    }
}

/// The text `print_routefilter` appends.
pub open spec fn print_routefilter_text(exp: &Expander) -> Seq<char> {
    routefilter_head(exp) + (if exp.tree.head_view() is None {
    "    route-filter "@ + default_route(exp.config.family) + "/0 orlonger reject;\n"@
} else {
    tree_text(exp.tree, EntryStyle::JuniperFilter, list_name(exp), ""@, 0, false, ""@)
}) + (if find_char_from(list_name(exp), '/', 0) < list_name(exp).len() {
    "   }\n  }\n }\n}\n"@
} else {
    "  }\n }\n}\n"@
})
}

pub fn print_routefilter(out: &mut String, exp: &Expander)
    requires
        exp.wf(),
    ensures
        final(out)@ == old(out)@ + print_routefilter_text(exp),
{
    let ghost start = out@;
    let name = exp.config.effective_name();
    let v = chars_of(name);
    let n = v.len();
    let slash = find_char(&v, '/', 0);
    if slash < n {
        let real_name = string_from_chars(take_chars(&v, 0, slash).as_slice());
        let term = string_from_chars(take_chars(&v, slash + 1, n).as_slice());
        push_str(out, "policy-options {\n policy-statement ");
        push_str(out, real_name.as_str());
        push_str(out, " {\n  term ");
        push_str(out, term.as_str());
        push_str(out, " {\nreplace:\n   from {\n");
    } else {
        push_str(out, "policy-options {\n policy-statement ");
        push_str(out, name);
        push_str(out, " { \nreplace:\n  from {\n");
    }
    push_match_line(out, exp);
    assert(out@ =~= start + routefilter_head(exp));
    let ghost mid = out@;
    if exp.tree.is_empty() {
        push_str(out, "    route-filter ");
        push_default_route(out, exp.config.family);
        push_str(out, "/0 orlonger reject;\n");
    } else {
        emit_nodes(out, &exp.tree, EntryStyle::JuniperFilter, name, "", 0, false, "");
    }
    let ghost mid2 = out@;
    if slash < n {
        push_str(out, "   }\n  }\n }\n}\n");
    } else {
        push_str(out, "  }\n }\n}\n");
    }
}

fn take_chars(v: &Vec<char>, lo: usize, hi: usize) -> (a: Vec<char>)
    requires
        lo <= hi <= v@.len(),
    ensures
        a@ == v@.subrange(lo as int, hi as int),
{
    let mut a: Vec<char> = Vec::new();
    let mut i: usize = lo;
    while i < hi
        invariant
            lo <= i <= hi <= v@.len(),
            a@ == v@.subrange(lo as int, i as int),
        decreases hi - i,
    {
        a.push(v[i]);
        i = i + 1;
        assert(a@ =~= v@.subrange(lo as int, i as int));
    }
    a
}

/// The text `print_route_filter_list` appends.
pub open spec fn print_route_filter_list_text(exp: &Expander) -> Seq<char> {
    "policy-options {\nreplace:\n  route-filter-list "@ + list_name(exp) + " {\n"@
    + (if exp.tree.head_view() is None {
        "    "@ + default_route(exp.config.family) + "/0 orlonger reject;\n"@
    } else {
        tree_text(exp.tree, EntryStyle::JuniperFilterList, list_name(exp), ""@, 0, false, ""@)
    }) + "  }\n}\n"@
}

pub fn print_route_filter_list(out: &mut String, exp: &Expander)
    requires
        exp.wf(),
    ensures
        final(out)@ == old(out)@ + print_route_filter_list_text(exp),
{
    let name = exp.config.effective_name();
    push_str(out, "policy-options {\nreplace:\n  route-filter-list ");
    push_str(out, name);
    push_str(out, " {\n");
    let ghost mid = out@;
    if exp.tree.is_empty() {
        push_str(out, "    ");
        push_default_route(out, exp.config.family);
        push_str(out, "/0 orlonger reject;\n");
    } else {
        emit_nodes(out, &exp.tree, EntryStyle::JuniperFilterList, name, "", 0, false, "");
    }
    push_str(out, "  }\n}\n");
}

} // verus!
