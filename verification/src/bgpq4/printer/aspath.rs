//! AS-path filters, AS lists and AS sets of the expanded AS numbers, one
//! dialect per function.

use vstd::prelude::*;
use std::collections::BTreeSet;
use vstd::std_specs::iter::IteratorSpec;
use vstd::std_specs::cmp::OrdSpec;
use crate::text::{dec, push_str, push_u32};
use crate::bgpq4::expander::Expander;
use crate::bgpq4::printer::common::list_name;

verus! {

/// `s` lists the elements of `set` in increasing order.
pub open spec fn sorted_elems(s: Seq<u32>, set: Set<u32>) -> bool {
    &&& s.to_set() == set
    &&& forall|i: int, j: int| 0 <= i < j < s.len() ==> s[i] < s[j]
}


/// The elements of a finite set of AS numbers in increasing order.
pub open spec fn sorted_of(set: Set<u32>) -> Seq<u32> {
    choose|s: Seq<u32>| sorted_elems(s, set)
}

/// Two increasing enumerations of the same set are equal.
pub proof fn lemma_sorted_unique(a: Seq<u32>, b: Seq<u32>)
    requires
        forall|i: int, j: int| 0 <= i < j < a.len() ==> a[i] < a[j],
        forall|i: int, j: int| 0 <= i < j < b.len() ==> b[i] < b[j],
        a.to_set() == b.to_set(),
    ensures
        a == b,
    decreases a.len(),
{
    if a.len() == 0 {
        if b.len() > 0 {
            assert(b.to_set().contains(b[0]));
        }
        assert(a =~= b);
    } else {
        assert(a.to_set().contains(a[0]));
        assert(b.len() > 0);
        assert(b.to_set().contains(b[0]));
        let j = choose|j: int| 0 <= j < b.len() && b[j] == a[0];
        let i = choose|i: int| 0 <= i < a.len() && a[i] == b[0];
        assert(a[0] <= a[i]);
        assert(b[0] <= b[j]);
        assert(a[0] == b[0]);
        let a1 = a.drop_first();
        let b1 = b.drop_first();
        assert forall|x: u32| a1.to_set().contains(x) <==> b1.to_set().contains(x) by {
            if a1.to_set().contains(x) {
                let k = choose|k: int| 0 <= k < a1.len() && a1[k] == x;
                assert(a[k + 1] == x);
                assert(a.to_set().contains(x));
                assert(b.to_set().contains(x));
                let m = choose|m: int| 0 <= m < b.len() && b[m] == x;
                assert(m != 0);
                assert(b1[m - 1] == x);
            }
            if b1.to_set().contains(x) {
                let k = choose|k: int| 0 <= k < b1.len() && b1[k] == x;
                assert(b[k + 1] == x);
                assert(b.to_set().contains(x));
                assert(a.to_set().contains(x));
                let m = choose|m: int| 0 <= m < a.len() && a[m] == x;
                assert(m != 0);
                assert(a1[m - 1] == x);
            }
        }
        assert(a1.to_set() =~= b1.to_set());
        lemma_sorted_unique(a1, b1);
        assert(a =~= seq![a[0]] + a1);
        assert(b =~= seq![b[0]] + b1);
    }
}

/// The AS numbers of the set in increasing order.
pub fn sorted_asns(set: &BTreeSet<u32>) -> (v: Vec<u32>)
    ensures
        sorted_elems(v@, set@),
        v@ == sorted_of(set@),
        v@.len() == set@.len(),
{
    broadcast use vstd::std_specs::btree::group_btree_axioms;
    let mut v: Vec<u32> = Vec::new();
    let ghost sq = IteratorSpec::remaining(&vstd::std_specs::btree::spec_btree_keys_iter(set));
    for x in it: set.iter()
        invariant
            it.seq() == sq,
            v@.len() == it.index(),
            forall|i: int| 0 <= i < it.index() ==> v@[i] == *sq[i],
    {
        v.push(*x);
    }
    assert(v@.len() == sq.len());
    assert(v@ =~= sq.unref());
    proof {
        vstd::std_specs::btree::axiom_spec_btree_keys_iter(set);
        assert(vstd::std_specs::btree::increasing_seq(sq));
        assert(vstd::laws_cmp::obeys_cmp::<&u32>());
        assert forall|i: int, j: int| 0 <= i < j < v@.len() implies v@[i] < v@[j] by {
            assert((&sq[i]).cmp_spec(&sq[j]) is Less);
        }
        assert(v@.no_duplicates()) by {
            assert forall|i: int, j: int| 0 <= i < v@.len() && 0 <= j < v@.len() && i != j implies v@[i] != v@[j] by {
                if i < j {
                    assert((&sq[i]).cmp_spec(&sq[j]) is Less);
                } else {
                    assert((&sq[j]).cmp_spec(&sq[i]) is Less);
                }
            }
        }
        v@.unique_seq_to_set();
        assert(sorted_elems(v@, set@));
        let c = sorted_of(set@);
        assert(sorted_elems(c, set@));
        lemma_sorted_unique(v@, c);
    }
    v
}

/// The state of an AS-number printer between two numbers: numbers in the
/// open group, the next line number, whether a separator is due, and
/// whether the own AS number has been printed.
pub type AsState = (int, int, bool, bool);

/// "," when a separator is due.
pub open spec fn comma_if(b: bool) -> Seq<char> {
    if b { ","@ } else { Seq::empty() }
}

/// Counts a number into the open group and closes the group (with
/// `close`, and the next line number when `bump`) once it holds `w`.
pub open spec fn close_group(st: AsState, w: int, t: Seq<char>, close: Seq<char>, bump: bool) -> (AsState, Seq<char>) {
    let nc1 = st.0 + 1;
    if nc1 == w {
        ((0, if bump { st.1 + 1 } else { st.1 }, st.2, st.3), t + close)
    } else {
        ((nc1, st.1, st.2, st.3), t)
    }
}

/// The number is the own AS number, not printed yet.
pub open spec fn is_self(st: AsState, asn: u32, me: u32) -> bool {
    !st.3 && asn == me && me > 0
}

/// The dialect of an AS-number printer.
#[derive(Clone, Copy, PartialEq, Eq, Structural)]
pub enum AsStyle {
    Cisco,
    CiscoXr,
    CiscoOrigin,
    CiscoXrOrigin,
    Juniper,
    JuniperOrigin,
    JuniperList,
    Bird,
    Json,
    OpenBgpdFrom,
    OpenBgpdTo,
    OpenBgpdSet,
    Nokia,
    NokiaOrigin,
    NokiaMd,
    NokiaMdOrigin,
    Huawei,
    HuaweiXpl,
    HuaweiOrigin,
    HuaweiXplOrigin,
}

/// What a printer writes for one AS number and its next state. `name` is
/// the list name, `me` the own AS number and `w` the numbers per group.
pub open spec fn as_step(style: AsStyle, st: AsState, asn: u32, name: Seq<char>, me: u32, w: int) -> (AsState, Seq<char>) {
    let a = dec(asn as nat);
    let m = dec(me as nat);
    let ln = dec(st.1 as nat);
    match style {
        AsStyle::Cisco => if is_self(st, asn, me) {
            ((st.0, st.1, st.2, true), "ip as-path access-list "@ + name + " permit ^"@ + a + "(_"@ + a + ")*$\n"@)
        } else if st.0 == 0 {
            close_group((st.0, st.1, st.2, st.3), w, "ip as-path access-list "@ + name + " permit ^"@ + m + "(_[0-9]+)*_("@ + a, ")$\n"@, false)
        } else {
            close_group((st.0, st.1, st.2, st.3), w, "|"@ + a, ")$\n"@, false)
        },
        AsStyle::CiscoXr => if is_self(st, asn, me) {
            ((st.0, st.1, true, true), "\n  ios-regex '^"@ + a + "(_"@ + a + ")*$'"@)
        } else if st.0 == 0 {
            close_group((st.0, st.1, true, st.3), w, comma_if(st.2) + "\n  ios-regex '^"@ + m + "(_[0-9]+)*_("@ + a, ")$'"@, false)
        } else {
            close_group((st.0, st.1, st.2, st.3), w, "|"@ + a, ")$'"@, false)
        },
        AsStyle::CiscoOrigin => if is_self(st, asn, me) {
            ((st.0, st.1, st.2, true), "ip as-path access-list "@ + name + " permit ^(_"@ + a + ")*$\n"@)
        } else if st.0 == 0 {
            close_group((st.0, st.1, st.2, st.3), w, "ip as-path access-list "@ + name + " permit ^(_[0-9]+)*_("@ + a, ")$\n"@, false)
        } else {
            close_group((st.0, st.1, st.2, st.3), w, "|"@ + a, ")$\n"@, false)
        },
        AsStyle::CiscoXrOrigin => if is_self(st, asn, me) {
            ((st.0, st.1, true, true), "\n  ios-regex '^(_"@ + a + ")*$'"@)
        } else if st.0 == 0 {
            close_group((st.0, st.1, true, st.3), w, comma_if(st.2) + "\n  ios-regex '^(_[0-9]+)*_("@ + a, ")$'"@, false)
        } else {
            close_group((st.0, st.1, st.2, st.3), w, "|"@ + a, ")$'"@, false)
        },
        AsStyle::Juniper => if is_self(st, asn, me) {
            ((st.0, st.1 + 1, st.2, true), "  as-path a"@ + ln + " \"^"@ + a + "("@ + a + ")*$\";\n"@)
        } else if st.0 == 0 {
            close_group((st.0, st.1, st.2, st.3), w, "  as-path a"@ + ln + " \"^"@ + m + "(.)*("@ + a, ")$\";\n"@, true)
        } else {
            close_group((st.0, st.1, st.2, st.3), w, "|"@ + a, ")$\";\n"@, true)
        },
        AsStyle::JuniperOrigin => if is_self(st, asn, me) {
            ((st.0, st.1 + 1, st.2, true), "  as-path a"@ + ln + " \"^"@ + a + "("@ + a + ")*$\";\n"@)
        } else if st.0 == 0 {
            close_group((st.0, st.1, st.2, st.3), w, "  as-path a"@ + ln + " \"^(.)*("@ + a, ")$\";\n"@, true)
        } else {
            close_group((st.0, st.1, st.2, st.3), w, "|"@ + a, ")$\";\n"@, true)
        },
        AsStyle::JuniperList => if is_self(st, asn, me) {
            ((st.0, st.1 + 1, st.2, true), "  as-list a"@ + ln + " members "@ + a + ";\n"@)
        } else if st.0 == 0 {
            close_group((st.0, st.1, st.2, st.3), w, "  as-list a"@ + ln + " members ["@ + (if asn != 0 { " "@ + a } else { Seq::empty() }), " ];\n"@, true)
        } else {
            close_group((st.0, st.1, st.2, st.3), w, (if asn != 0 { " "@ + a } else { Seq::empty() }), " ];\n"@, true)
        },
        AsStyle::Bird => if st.0 == 0 {
            close_group((st.0, st.1, true, st.3), w, comma_if(st.2) + "\n    "@ + a, ""@, false)
        } else {
            close_group((st.0, st.1, true, st.3), w, ", "@ + a, ""@, false)
        },
        AsStyle::Json => if st.0 == 0 {
            close_group((st.0, st.1, true, st.3), w, comma_if(st.2) + "\n  "@ + a, ""@, false)
        } else {
            close_group((st.0, st.1, true, st.3), w, comma_if(st.2) + a, ""@, false)
        },
        AsStyle::OpenBgpdFrom => (st, "allow from AS "@ + m + " AS "@ + a + "\n"@),
        AsStyle::OpenBgpdTo => (st, "allow to AS "@ + m + " AS "@ + a + "\n"@),
        AsStyle::OpenBgpdSet => if st.0 == 0 {
            close_group((st.0, st.1, st.2, st.3), w, "\n\t"@ + a, ""@, false)
        } else {
            close_group((st.0, st.1, st.2, st.3), w, " "@ + a, ""@, false)
        },
        AsStyle::Nokia => if is_self(st, asn, me) {
            ((st.0, st.1 + 1, st.2, true), "  entry "@ + ln + " expression \""@ + a + "+\"\n"@)
        } else if st.0 == 0 {
            close_group((st.0, st.1, st.2, st.3), w, "  entry "@ + ln + " expression \""@ + m + ".*["@ + a, "]\"\n"@, true)
        } else {
            close_group((st.0, st.1, st.2, st.3), w, " "@ + a, "]\"\n"@, true)
        },
        AsStyle::NokiaOrigin => if is_self(st, asn, me) {
            ((st.0, st.1 + 1, st.2, true), "  entry "@ + ln + " expression \""@ + m + "+\"\n"@)
        } else if st.0 == 0 {
            close_group((st.0, st.1, st.2, st.3), w, "  entry "@ + ln + " expression \".*["@ + a, "]\"\n"@, true)
        } else {
            close_group((st.0, st.1, st.2, st.3), w, " "@ + a, "]\"\n"@, true)
        },
        AsStyle::NokiaMd => if is_self(st, asn, me) {
            ((st.0, st.1 + 1, st.2, true), "  entry "@ + ln + " {\n    expression \""@ + a + "+\"\n  }\n"@)
        } else if st.0 == 0 {
            close_group((st.0, st.1, st.2, st.3), w, "  entry "@ + ln + " {\n    expression \""@ + m + ".*["@ + a + "\""@, "]\"\n  }}\n"@, true)
        } else {
            close_group((st.0, st.1, st.2, st.3), w, " "@ + a, "]\"\n  }}\n"@, true)
        },
        AsStyle::NokiaMdOrigin => if is_self(st, asn, me) {
            ((st.0, st.1 + 1, st.2, true), "  entry "@ + ln + " {\n    expression \""@ + a + "+\"\n  }\n"@)
        } else if st.0 == 0 {
            close_group((st.0, st.1, st.2, st.3), w, "  entry "@ + ln + " {\n    expression \".*["@ + a, "]\"\n  }}\n"@, true)
        } else {
            close_group((st.0, st.1, st.2, st.3), w, " "@ + a, "]\"\n  }}\n"@, true)
        },
        AsStyle::Huawei => if is_self(st, asn, me) {
            ((st.0, st.1, st.2, true), "ip as-path-filter "@ + name + " permit ^"@ + a + "(_"@ + a + ")*$\n"@)
        } else if st.0 == 0 {
            close_group((st.0, st.1, st.2, st.3), w, "ip as-path-filter "@ + name + " permit ^"@ + a + "(_[0-9]+)*_("@ + m, ")$\n"@, false)
        } else {
            close_group((st.0, st.1, st.2, st.3), w, "|"@ + a, ")$\n"@, false)
        },
        AsStyle::HuaweiXpl => if is_self(st, asn, me) {
            ((st.0, st.1, st.2, true), "\n  regular ^"@ + a + "(_"@ + a + ")*$"@)
        } else if st.0 == 0 {
            close_group((st.0, st.1, true, st.3), w, comma_if(st.2) + "\n  regular ^"@ + a + "(_[0-9]+)*_("@ + m, ")$"@, false)
        } else {
            close_group((st.0, st.1, st.2, st.3), w, "|"@ + a, ")$"@, false)
        },
        AsStyle::HuaweiOrigin => if me > 0 && asn == me {
            (st, Seq::empty())
        } else if st.0 == 0 {
            close_group((st.0, st.1, st.2, st.3), w, "ip as-path-filter "@ + name + " permit ^(_[0-9]+)*_("@ + a, ")$\n"@, false)
        } else {
            close_group((st.0, st.1, st.2, st.3), w, "|"@ + a, ")$\n"@, false)
        },
        AsStyle::HuaweiXplOrigin => if me > 0 && asn == me {
            (st, Seq::empty())
        } else if st.0 == 0 {
            close_group((st.0, st.1, true, st.3), w, comma_if(st.2) + "\n  regular ^(_[0-9]+)*_("@ + a, ")$"@, false)
        } else {
            close_group((st.0, st.1, st.2, st.3), w, "|"@ + a, ")$"@, false)
        },
    }
}

/// The text written for the numbers in order, and the state after them.
pub open spec fn as_fold(s: Seq<u32>, style: AsStyle, init: AsState, name: Seq<char>, me: u32, w: int) -> (AsState, Seq<char>)
    decreases s.len(),
{
    if s.len() == 0 {
        (init, Seq::empty())
    } else {
        let r = as_fold(s.drop_last(), style, init, name, me, w);
        let t = as_step(style, r.0, s.last(), name, me, w);
        (t.0, r.1 + t.1)
    }
}

/// The numbers of `s` in order, joined by '|'.
pub open spec fn joined_by_bar(s: Seq<u32>) -> Seq<char>
    decreases s.len(),
{
    if s.len() == 0 {
        Seq::empty()
    } else if s.len() == 1 {
        dec(s[0] as nat)
    } else {
        joined_by_bar(s.drop_last()) + "|"@ + dec(s.last() as nat)
    }
}

/// A Juniper as-path group: from a state with no group open, numbers that
/// are not the own AS number still to print (at most `w` of them, one or
/// more) make one line "  as-path aN \"^ME(.)*(A1|A2|...)": every number is
/// its own alternative, in order, and the line is closed with ")$\";" once
/// it holds `w` numbers.
pub proof fn lemma_juniper_group(s: Seq<u32>, ln: int, sep: bool, printed: bool, name: Seq<char>, me: u32, w: int)
    requires
        1 <= s.len() <= w,
        printed || me == 0 || !s.contains(me),
    ensures
        as_fold(s, AsStyle::Juniper, (0, ln, sep, printed), name, me, w).1
            == "  as-path a"@ + dec(ln as nat) + " \"^"@ + dec(me as nat) + "(.)*("@ + joined_by_bar(s)
                + (if s.len() == w { ")$\";\n"@ } else { Seq::empty() }),
        as_fold(s, AsStyle::Juniper, (0, ln, sep, printed), name, me, w).0
            == (if s.len() == w { (0, ln + 1, sep, printed) } else { (s.len() as int, ln, sep, printed) }),
    decreases s.len(),
{
    let init = (0int, ln, sep, printed);
    let head = "  as-path a"@ + dec(ln as nat) + " \"^"@ + dec(me as nat) + "(.)*("@;
    if s.len() == 1 {
        assert(s.drop_last().len() == 0);
        assert(s.last() == s[0]);
        assert(s.contains(s[0]));
        let t = as_step(AsStyle::Juniper, init, s[0], name, me, w);
        assert(as_fold(s.drop_last(), AsStyle::Juniper, init, name, me, w) == (init, Seq::<char>::empty()));
        assert(as_fold(s, AsStyle::Juniper, init, name, me, w) == (t.0, Seq::<char>::empty() + t.1));
        assert(Seq::<char>::empty() + t.1 =~= t.1);
        if w == 1 {
            assert(t.1 =~= head + dec(s[0] as nat) + ")$\";\n"@);
        } else {
            assert(t.1 =~= head + dec(s[0] as nat));
        }
    } else {
        let p = s.drop_last();
        assert forall|x: u32| p.contains(x) implies s.contains(x) by {
            let i = choose|i: int| 0 <= i < p.len() && p[i] == x;
            assert(s[i] == x);
        }
        assert(s.contains(s.last()));
        lemma_juniper_group(p, ln, sep, printed, name, me, w);
        let r = as_fold(p, AsStyle::Juniper, init, name, me, w);
        assert(r.0 == (p.len() as int, ln, sep, printed));
        let t = as_step(AsStyle::Juniper, r.0, s.last(), name, me, w);
        assert(as_fold(s, AsStyle::Juniper, init, name, me, w) == (t.0, r.1 + t.1));
        assert(joined_by_bar(s) == joined_by_bar(p) + "|"@ + dec(s.last() as nat));
        if s.len() == w {
            assert(r.1 + t.1 =~= head + joined_by_bar(s) + ")$\";\n"@);
        } else {
            assert(r.1 + t.1 =~= head + joined_by_bar(s));
        }
    }
}

pub proof fn lemma_as_fold_step(s: Seq<u32>, i: int, style: AsStyle, init: AsState, name: Seq<char>, me: u32, w: int)
    requires
        0 <= i < s.len(),
    ensures
        as_fold(s.take(i + 1), style, init, name, me, w) == ({
            let r = as_fold(s.take(i), style, init, name, me, w);
            let t = as_step(style, r.0, s[i], name, me, w);
            (t.0, r.1 + t.1)
        }),
{
    assert(s.take(i + 1).drop_last() =~= s.take(i));
}

/// Counts a number into the open group; closes the group with `close`
/// once it holds `w` numbers (see `close_group`).
fn close_exec(out: &mut String, st: (i32, u32, bool, bool), w: i32, close: &str, bump: bool) -> (r: (i32, u32, bool, bool))
    requires
        0 <= st.0 < 0x7fff_fff0,
        st.1 < 0xffff_fff0,
    ensures
        (r.0 as int, r.1 as int, r.2, r.3)
            == close_group((st.0 as int, st.1 as int, st.2, st.3), w as int, Seq::empty(), close@, bump).0,
        final(out)@ == old(out)@
            + close_group((st.0 as int, st.1 as int, st.2, st.3), w as int, Seq::empty(), close@, bump).1,
        0 <= r.0 <= st.0 + 1,
        r.1 <= st.1 + 1,
{
    let nc1 = st.0 + 1;
    if nc1 == w {
        push_str(out, close);
        assert(final(out)@ =~= old(out)@ + (Seq::<char>::empty() + close@));
        (0, if bump { st.1 + 1 } else { st.1 }, st.2, st.3)
    } else {
        assert(final(out)@ =~= old(out)@ + Seq::<char>::empty());
        (nc1, st.1, st.2, st.3)
    }
}

#[verifier::spinoff_prover]
#[verifier::rlimit(50)]
fn step_cisco(out: &mut String, st: (i32, u32, bool, bool), asn: u32, name: &str, me: u32, w: i32) -> (r: (i32, u32, bool, bool))
    requires
        0 <= st.0 < 0x7fff_fff0,
        st.1 < 0xffff_fff0,
    ensures
        (r.0 as int, r.1 as int, r.2, r.3) == as_step(AsStyle::Cisco, (st.0 as int, st.1 as int, st.2, st.3), asn, name@, me, w as int).0,
        final(out)@ == old(out)@ + as_step(AsStyle::Cisco, (st.0 as int, st.1 as int, st.2, st.3), asn, name@, me, w as int).1,
        0 <= r.0 <= st.0 + 1,
        r.1 <= st.1 + 1,
{
    let ghost start = out@;
    if !st.3 && asn == me && me > 0 {
        push_str(out, "ip as-path access-list ");
        push_str(out, name);
        push_str(out, " permit ^");
        push_u32(out, asn);
        push_str(out, "(_");
        push_u32(out, asn);
        push_str(out, ")*$\n");
        assert(out@ =~= start + as_step(AsStyle::Cisco, (st.0 as int, st.1 as int, st.2, st.3), asn, name@, me, w as int).1);
        return (st.0, st.1, st.2, true);
    }
    if st.0 == 0 {
        push_str(out, "ip as-path access-list ");
        push_str(out, name);
        push_str(out, " permit ^");
        push_u32(out, me);
        push_str(out, "(_[0-9]+)*_(");
        push_u32(out, asn);
        let r = close_exec(out, (st.0, st.1, st.2, st.3), w, ")$\n", false);
        assert(out@ =~= start + as_step(AsStyle::Cisco, (st.0 as int, st.1 as int, st.2, st.3), asn, name@, me, w as int).1);
        r
    } else {
        push_str(out, "|");
        push_u32(out, asn);
        let r = close_exec(out, (st.0, st.1, st.2, st.3), w, ")$\n", false);
        assert(out@ =~= start + as_step(AsStyle::Cisco, (st.0 as int, st.1 as int, st.2, st.3), asn, name@, me, w as int).1);
        r
    }
}

#[verifier::spinoff_prover]
#[verifier::rlimit(50)]
fn step_cisco_xr(out: &mut String, st: (i32, u32, bool, bool), asn: u32, name: &str, me: u32, w: i32) -> (r: (i32, u32, bool, bool))
    requires
        0 <= st.0 < 0x7fff_fff0,
        st.1 < 0xffff_fff0,
    ensures
        (r.0 as int, r.1 as int, r.2, r.3) == as_step(AsStyle::CiscoXr, (st.0 as int, st.1 as int, st.2, st.3), asn, name@, me, w as int).0,
        final(out)@ == old(out)@ + as_step(AsStyle::CiscoXr, (st.0 as int, st.1 as int, st.2, st.3), asn, name@, me, w as int).1,
        0 <= r.0 <= st.0 + 1,
        r.1 <= st.1 + 1,
{
    let ghost start = out@;
    if !st.3 && asn == me && me > 0 {
        push_str(out, "\n  ios-regex '^");
        push_u32(out, asn);
        push_str(out, "(_");
        push_u32(out, asn);
        push_str(out, ")*$'");
        assert(out@ =~= start + as_step(AsStyle::CiscoXr, (st.0 as int, st.1 as int, st.2, st.3), asn, name@, me, w as int).1);
        return (st.0, st.1, true, true);
    }
    if st.0 == 0 {
        if st.2 {
            push_str(out, ",");
        }
        push_str(out, "\n  ios-regex '^");
        push_u32(out, me);
        push_str(out, "(_[0-9]+)*_(");
        push_u32(out, asn);
        let r = close_exec(out, (st.0, st.1, true, st.3), w, ")$'", false);
        assert(out@ =~= start + as_step(AsStyle::CiscoXr, (st.0 as int, st.1 as int, st.2, st.3), asn, name@, me, w as int).1);
        r
    } else {
        push_str(out, "|");
        push_u32(out, asn);
        let r = close_exec(out, (st.0, st.1, st.2, st.3), w, ")$'", false);
        assert(out@ =~= start + as_step(AsStyle::CiscoXr, (st.0 as int, st.1 as int, st.2, st.3), asn, name@, me, w as int).1);
        r
    }
}

#[verifier::spinoff_prover]
#[verifier::rlimit(50)]
fn step_cisco_origin(out: &mut String, st: (i32, u32, bool, bool), asn: u32, name: &str, me: u32, w: i32) -> (r: (i32, u32, bool, bool))
    requires
        0 <= st.0 < 0x7fff_fff0,
        st.1 < 0xffff_fff0,
    ensures
        (r.0 as int, r.1 as int, r.2, r.3) == as_step(AsStyle::CiscoOrigin, (st.0 as int, st.1 as int, st.2, st.3), asn, name@, me, w as int).0,
        final(out)@ == old(out)@ + as_step(AsStyle::CiscoOrigin, (st.0 as int, st.1 as int, st.2, st.3), asn, name@, me, w as int).1,
        0 <= r.0 <= st.0 + 1,
        r.1 <= st.1 + 1,
{
    let ghost start = out@;
    if !st.3 && asn == me && me > 0 {
        push_str(out, "ip as-path access-list ");
        push_str(out, name);
        push_str(out, " permit ^(_");
        push_u32(out, asn);
        push_str(out, ")*$\n");
        assert(out@ =~= start + as_step(AsStyle::CiscoOrigin, (st.0 as int, st.1 as int, st.2, st.3), asn, name@, me, w as int).1);
        return (st.0, st.1, st.2, true);
    }
    if st.0 == 0 {
        push_str(out, "ip as-path access-list ");
        push_str(out, name);
        push_str(out, " permit ^(_[0-9]+)*_(");
        push_u32(out, asn);
        let r = close_exec(out, (st.0, st.1, st.2, st.3), w, ")$\n", false);
        assert(out@ =~= start + as_step(AsStyle::CiscoOrigin, (st.0 as int, st.1 as int, st.2, st.3), asn, name@, me, w as int).1);
        r
    } else {
        push_str(out, "|");
        push_u32(out, asn);
        let r = close_exec(out, (st.0, st.1, st.2, st.3), w, ")$\n", false);
        assert(out@ =~= start + as_step(AsStyle::CiscoOrigin, (st.0 as int, st.1 as int, st.2, st.3), asn, name@, me, w as int).1);
        r
    }
}

#[verifier::spinoff_prover]
#[verifier::rlimit(50)]
fn step_cisco_xr_origin(out: &mut String, st: (i32, u32, bool, bool), asn: u32, name: &str, me: u32, w: i32) -> (r: (i32, u32, bool, bool))
    requires
        0 <= st.0 < 0x7fff_fff0,
        st.1 < 0xffff_fff0,
    ensures
        (r.0 as int, r.1 as int, r.2, r.3) == as_step(AsStyle::CiscoXrOrigin, (st.0 as int, st.1 as int, st.2, st.3), asn, name@, me, w as int).0,
        final(out)@ == old(out)@ + as_step(AsStyle::CiscoXrOrigin, (st.0 as int, st.1 as int, st.2, st.3), asn, name@, me, w as int).1,
        0 <= r.0 <= st.0 + 1,
        r.1 <= st.1 + 1,
{
    let ghost start = out@;
    if !st.3 && asn == me && me > 0 {
        push_str(out, "\n  ios-regex '^(_");
        push_u32(out, asn);
        push_str(out, ")*$'");
        assert(out@ =~= start + as_step(AsStyle::CiscoXrOrigin, (st.0 as int, st.1 as int, st.2, st.3), asn, name@, me, w as int).1);
        return (st.0, st.1, true, true);
    }
    if st.0 == 0 {
        if st.2 {
            push_str(out, ",");
        }
        push_str(out, "\n  ios-regex '^(_[0-9]+)*_(");
        push_u32(out, asn);
        let r = close_exec(out, (st.0, st.1, true, st.3), w, ")$'", false);
        assert(out@ =~= start + as_step(AsStyle::CiscoXrOrigin, (st.0 as int, st.1 as int, st.2, st.3), asn, name@, me, w as int).1);
        r
    } else {
        push_str(out, "|");
        push_u32(out, asn);
        let r = close_exec(out, (st.0, st.1, st.2, st.3), w, ")$'", false);
        assert(out@ =~= start + as_step(AsStyle::CiscoXrOrigin, (st.0 as int, st.1 as int, st.2, st.3), asn, name@, me, w as int).1);
        r
    }
}

#[verifier::spinoff_prover]
#[verifier::rlimit(50)]
fn step_juniper(out: &mut String, st: (i32, u32, bool, bool), asn: u32, name: &str, me: u32, w: i32) -> (r: (i32, u32, bool, bool))
    requires
        0 <= st.0 < 0x7fff_fff0,
        st.1 < 0xffff_fff0,
    ensures
        (r.0 as int, r.1 as int, r.2, r.3) == as_step(AsStyle::Juniper, (st.0 as int, st.1 as int, st.2, st.3), asn, name@, me, w as int).0,
        final(out)@ == old(out)@ + as_step(AsStyle::Juniper, (st.0 as int, st.1 as int, st.2, st.3), asn, name@, me, w as int).1,
        0 <= r.0 <= st.0 + 1,
        r.1 <= st.1 + 1,
{
    let ghost start = out@;
    if !st.3 && asn == me && me > 0 {
        push_str(out, "  as-path a");
        push_u32(out, st.1);
        push_str(out, " \"^");
        push_u32(out, asn);
        push_str(out, "(");
        push_u32(out, asn);
        push_str(out, ")*$\";\n");
        assert(out@ =~= start + as_step(AsStyle::Juniper, (st.0 as int, st.1 as int, st.2, st.3), asn, name@, me, w as int).1);
        return (st.0, st.1 + 1, st.2, true);
    }
    if st.0 == 0 {
        push_str(out, "  as-path a");
        push_u32(out, st.1);
        push_str(out, " \"^");
        push_u32(out, me);
        push_str(out, "(.)*(");
        push_u32(out, asn);
        let r = close_exec(out, (st.0, st.1, st.2, st.3), w, ")$\";\n", true);
        assert(out@ =~= start + as_step(AsStyle::Juniper, (st.0 as int, st.1 as int, st.2, st.3), asn, name@, me, w as int).1);
        r
    } else {
        push_str(out, "|");
        push_u32(out, asn);
        let r = close_exec(out, (st.0, st.1, st.2, st.3), w, ")$\";\n", true);
        assert(out@ =~= start + as_step(AsStyle::Juniper, (st.0 as int, st.1 as int, st.2, st.3), asn, name@, me, w as int).1);
        r
    }
}

#[verifier::spinoff_prover]
#[verifier::rlimit(50)]
fn step_juniper_origin(out: &mut String, st: (i32, u32, bool, bool), asn: u32, name: &str, me: u32, w: i32) -> (r: (i32, u32, bool, bool))
    requires
        0 <= st.0 < 0x7fff_fff0,
        st.1 < 0xffff_fff0,
    ensures
        (r.0 as int, r.1 as int, r.2, r.3) == as_step(AsStyle::JuniperOrigin, (st.0 as int, st.1 as int, st.2, st.3), asn, name@, me, w as int).0,
        final(out)@ == old(out)@ + as_step(AsStyle::JuniperOrigin, (st.0 as int, st.1 as int, st.2, st.3), asn, name@, me, w as int).1,
        0 <= r.0 <= st.0 + 1,
        r.1 <= st.1 + 1,
{
    let ghost start = out@;
    if !st.3 && asn == me && me > 0 {
        push_str(out, "  as-path a");
        push_u32(out, st.1);
        push_str(out, " \"^");
        push_u32(out, asn);
        push_str(out, "(");
        push_u32(out, asn);
        push_str(out, ")*$\";\n");
        assert(out@ =~= start + as_step(AsStyle::JuniperOrigin, (st.0 as int, st.1 as int, st.2, st.3), asn, name@, me, w as int).1);
        return (st.0, st.1 + 1, st.2, true);
    }
    if st.0 == 0 {
        push_str(out, "  as-path a");
        push_u32(out, st.1);
        push_str(out, " \"^(.)*(");
        push_u32(out, asn);
        let r = close_exec(out, (st.0, st.1, st.2, st.3), w, ")$\";\n", true);
        assert(out@ =~= start + as_step(AsStyle::JuniperOrigin, (st.0 as int, st.1 as int, st.2, st.3), asn, name@, me, w as int).1);
        r
    } else {
        push_str(out, "|");
        push_u32(out, asn);
        let r = close_exec(out, (st.0, st.1, st.2, st.3), w, ")$\";\n", true);
        assert(out@ =~= start + as_step(AsStyle::JuniperOrigin, (st.0 as int, st.1 as int, st.2, st.3), asn, name@, me, w as int).1);
        r
    }
}

#[verifier::spinoff_prover]
#[verifier::rlimit(50)]
fn step_juniper_list(out: &mut String, st: (i32, u32, bool, bool), asn: u32, name: &str, me: u32, w: i32) -> (r: (i32, u32, bool, bool))
    requires
        0 <= st.0 < 0x7fff_fff0,
        st.1 < 0xffff_fff0,
    ensures
        (r.0 as int, r.1 as int, r.2, r.3) == as_step(AsStyle::JuniperList, (st.0 as int, st.1 as int, st.2, st.3), asn, name@, me, w as int).0,
        final(out)@ == old(out)@ + as_step(AsStyle::JuniperList, (st.0 as int, st.1 as int, st.2, st.3), asn, name@, me, w as int).1,
        0 <= r.0 <= st.0 + 1,
        r.1 <= st.1 + 1,
{
    let ghost start = out@;
    if !st.3 && asn == me && me > 0 {
        push_str(out, "  as-list a");
        push_u32(out, st.1);
        push_str(out, " members ");
        push_u32(out, asn);
        push_str(out, ";\n");
        assert(out@ =~= start + as_step(AsStyle::JuniperList, (st.0 as int, st.1 as int, st.2, st.3), asn, name@, me, w as int).1);
        return (st.0, st.1 + 1, st.2, true);
    }
    if st.0 == 0 {
        push_str(out, "  as-list a");
        push_u32(out, st.1);
        push_str(out, " members [");
        if asn != 0 {
            push_str(out, " ");
            push_u32(out, asn);
        }
        let r = close_exec(out, (st.0, st.1, st.2, st.3), w, " ];\n", true);
        assert(out@ =~= start + as_step(AsStyle::JuniperList, (st.0 as int, st.1 as int, st.2, st.3), asn, name@, me, w as int).1);
        r
    } else {
        if asn != 0 {
            push_str(out, " ");
            push_u32(out, asn);
        }
        let r = close_exec(out, (st.0, st.1, st.2, st.3), w, " ];\n", true);
        assert(out@ =~= start + as_step(AsStyle::JuniperList, (st.0 as int, st.1 as int, st.2, st.3), asn, name@, me, w as int).1);
        r
    }
}

#[verifier::spinoff_prover]
#[verifier::rlimit(50)]
fn step_bird(out: &mut String, st: (i32, u32, bool, bool), asn: u32, name: &str, me: u32, w: i32) -> (r: (i32, u32, bool, bool))
    requires
        0 <= st.0 < 0x7fff_fff0,
        st.1 < 0xffff_fff0,
    ensures
        (r.0 as int, r.1 as int, r.2, r.3) == as_step(AsStyle::Bird, (st.0 as int, st.1 as int, st.2, st.3), asn, name@, me, w as int).0,
        final(out)@ == old(out)@ + as_step(AsStyle::Bird, (st.0 as int, st.1 as int, st.2, st.3), asn, name@, me, w as int).1,
        0 <= r.0 <= st.0 + 1,
        r.1 <= st.1 + 1,
{
    let ghost start = out@;
    if st.0 == 0 {
        if st.2 {
            push_str(out, ",");
        }
        push_str(out, "\n    ");
        push_u32(out, asn);
        let r = close_exec(out, (st.0, st.1, true, st.3), w, "", false);
        assert(out@ =~= start + as_step(AsStyle::Bird, (st.0 as int, st.1 as int, st.2, st.3), asn, name@, me, w as int).1);
        r
    } else {
        push_str(out, ", ");
        push_u32(out, asn);
        let r = close_exec(out, (st.0, st.1, true, st.3), w, "", false);
        assert(out@ =~= start + as_step(AsStyle::Bird, (st.0 as int, st.1 as int, st.2, st.3), asn, name@, me, w as int).1);
        r
    }
}

#[verifier::spinoff_prover]
#[verifier::rlimit(50)]
fn step_json(out: &mut String, st: (i32, u32, bool, bool), asn: u32, name: &str, me: u32, w: i32) -> (r: (i32, u32, bool, bool))
    requires
        0 <= st.0 < 0x7fff_fff0,
        st.1 < 0xffff_fff0,
    ensures
        (r.0 as int, r.1 as int, r.2, r.3) == as_step(AsStyle::Json, (st.0 as int, st.1 as int, st.2, st.3), asn, name@, me, w as int).0,
        final(out)@ == old(out)@ + as_step(AsStyle::Json, (st.0 as int, st.1 as int, st.2, st.3), asn, name@, me, w as int).1,
        0 <= r.0 <= st.0 + 1,
        r.1 <= st.1 + 1,
{
    let ghost start = out@;
    if st.0 == 0 {
        if st.2 {
            push_str(out, ",");
        }
        push_str(out, "\n  ");
        push_u32(out, asn);
        let r = close_exec(out, (st.0, st.1, true, st.3), w, "", false);
        assert(out@ =~= start + as_step(AsStyle::Json, (st.0 as int, st.1 as int, st.2, st.3), asn, name@, me, w as int).1);
        r
    } else {
        if st.2 {
            push_str(out, ",");
        }
        push_u32(out, asn);
        let r = close_exec(out, (st.0, st.1, true, st.3), w, "", false);
        assert(out@ =~= start + as_step(AsStyle::Json, (st.0 as int, st.1 as int, st.2, st.3), asn, name@, me, w as int).1);
        r
    }
}

#[verifier::spinoff_prover]
#[verifier::rlimit(50)]
fn step_open_bgpd_from(out: &mut String, st: (i32, u32, bool, bool), asn: u32, name: &str, me: u32, w: i32) -> (r: (i32, u32, bool, bool))
    requires
        0 <= st.0 < 0x7fff_fff0,
        st.1 < 0xffff_fff0,
    ensures
        (r.0 as int, r.1 as int, r.2, r.3) == as_step(AsStyle::OpenBgpdFrom, (st.0 as int, st.1 as int, st.2, st.3), asn, name@, me, w as int).0,
        final(out)@ == old(out)@ + as_step(AsStyle::OpenBgpdFrom, (st.0 as int, st.1 as int, st.2, st.3), asn, name@, me, w as int).1,
        0 <= r.0 <= st.0 + 1,
        r.1 <= st.1 + 1,
{
    let ghost start = out@;
    push_str(out, "allow from AS ");
    push_u32(out, me);
    push_str(out, " AS ");
    push_u32(out, asn);
    push_str(out, "\n");
    assert(out@ =~= start + as_step(AsStyle::OpenBgpdFrom, (st.0 as int, st.1 as int, st.2, st.3), asn, name@, me, w as int).1);
    st
}

#[verifier::spinoff_prover]
#[verifier::rlimit(50)]
fn step_open_bgpd_to(out: &mut String, st: (i32, u32, bool, bool), asn: u32, name: &str, me: u32, w: i32) -> (r: (i32, u32, bool, bool))
    requires
        0 <= st.0 < 0x7fff_fff0,
        st.1 < 0xffff_fff0,
    ensures
        (r.0 as int, r.1 as int, r.2, r.3) == as_step(AsStyle::OpenBgpdTo, (st.0 as int, st.1 as int, st.2, st.3), asn, name@, me, w as int).0,
        final(out)@ == old(out)@ + as_step(AsStyle::OpenBgpdTo, (st.0 as int, st.1 as int, st.2, st.3), asn, name@, me, w as int).1,
        0 <= r.0 <= st.0 + 1,
        r.1 <= st.1 + 1,
{
    let ghost start = out@;
    push_str(out, "allow to AS ");
    push_u32(out, me);
    push_str(out, " AS ");
    push_u32(out, asn);
    push_str(out, "\n");
    assert(out@ =~= start + as_step(AsStyle::OpenBgpdTo, (st.0 as int, st.1 as int, st.2, st.3), asn, name@, me, w as int).1);
    st
}

#[verifier::spinoff_prover]
#[verifier::rlimit(50)]
fn step_open_bgpd_set(out: &mut String, st: (i32, u32, bool, bool), asn: u32, name: &str, me: u32, w: i32) -> (r: (i32, u32, bool, bool))
    requires
        0 <= st.0 < 0x7fff_fff0,
        st.1 < 0xffff_fff0,
    ensures
        (r.0 as int, r.1 as int, r.2, r.3) == as_step(AsStyle::OpenBgpdSet, (st.0 as int, st.1 as int, st.2, st.3), asn, name@, me, w as int).0,
        final(out)@ == old(out)@ + as_step(AsStyle::OpenBgpdSet, (st.0 as int, st.1 as int, st.2, st.3), asn, name@, me, w as int).1,
        0 <= r.0 <= st.0 + 1,
        r.1 <= st.1 + 1,
{
    let ghost start = out@;
    if st.0 == 0 {
        push_str(out, "\n\t");
        push_u32(out, asn);
        let r = close_exec(out, (st.0, st.1, st.2, st.3), w, "", false);
        assert(out@ =~= start + as_step(AsStyle::OpenBgpdSet, (st.0 as int, st.1 as int, st.2, st.3), asn, name@, me, w as int).1);
        r
    } else {
        push_str(out, " ");
        push_u32(out, asn);
        let r = close_exec(out, (st.0, st.1, st.2, st.3), w, "", false);
        assert(out@ =~= start + as_step(AsStyle::OpenBgpdSet, (st.0 as int, st.1 as int, st.2, st.3), asn, name@, me, w as int).1);
        r
    }
}

#[verifier::spinoff_prover]
#[verifier::rlimit(50)]
fn step_nokia(out: &mut String, st: (i32, u32, bool, bool), asn: u32, name: &str, me: u32, w: i32) -> (r: (i32, u32, bool, bool))
    requires
        0 <= st.0 < 0x7fff_fff0,
        st.1 < 0xffff_fff0,
    ensures
        (r.0 as int, r.1 as int, r.2, r.3) == as_step(AsStyle::Nokia, (st.0 as int, st.1 as int, st.2, st.3), asn, name@, me, w as int).0,
        final(out)@ == old(out)@ + as_step(AsStyle::Nokia, (st.0 as int, st.1 as int, st.2, st.3), asn, name@, me, w as int).1,
        0 <= r.0 <= st.0 + 1,
        r.1 <= st.1 + 1,
{
    let ghost start = out@;
    if !st.3 && asn == me && me > 0 {
        push_str(out, "  entry ");
        push_u32(out, st.1);
        push_str(out, " expression \"");
        push_u32(out, asn);
        push_str(out, "+\"\n");
        assert(out@ =~= start + as_step(AsStyle::Nokia, (st.0 as int, st.1 as int, st.2, st.3), asn, name@, me, w as int).1);
        return (st.0, st.1 + 1, st.2, true);
    }
    if st.0 == 0 {
        push_str(out, "  entry ");
        push_u32(out, st.1);
        push_str(out, " expression \"");
        push_u32(out, me);
        push_str(out, ".*[");
        push_u32(out, asn);
        let r = close_exec(out, (st.0, st.1, st.2, st.3), w, "]\"\n", true);
        assert(out@ =~= start + as_step(AsStyle::Nokia, (st.0 as int, st.1 as int, st.2, st.3), asn, name@, me, w as int).1);
        r
    } else {
        push_str(out, " ");
        push_u32(out, asn);
        let r = close_exec(out, (st.0, st.1, st.2, st.3), w, "]\"\n", true);
        assert(out@ =~= start + as_step(AsStyle::Nokia, (st.0 as int, st.1 as int, st.2, st.3), asn, name@, me, w as int).1);
        r
    }
}

#[verifier::spinoff_prover]
#[verifier::rlimit(50)]
fn step_nokia_origin(out: &mut String, st: (i32, u32, bool, bool), asn: u32, name: &str, me: u32, w: i32) -> (r: (i32, u32, bool, bool))
    requires
        0 <= st.0 < 0x7fff_fff0,
        st.1 < 0xffff_fff0,
    ensures
        (r.0 as int, r.1 as int, r.2, r.3) == as_step(AsStyle::NokiaOrigin, (st.0 as int, st.1 as int, st.2, st.3), asn, name@, me, w as int).0,
        final(out)@ == old(out)@ + as_step(AsStyle::NokiaOrigin, (st.0 as int, st.1 as int, st.2, st.3), asn, name@, me, w as int).1,
        0 <= r.0 <= st.0 + 1,
        r.1 <= st.1 + 1,
{
    let ghost start = out@;
    if !st.3 && asn == me && me > 0 {
        push_str(out, "  entry ");
        push_u32(out, st.1);
        push_str(out, " expression \"");
        push_u32(out, me);
        push_str(out, "+\"\n");
        assert(out@ =~= start + as_step(AsStyle::NokiaOrigin, (st.0 as int, st.1 as int, st.2, st.3), asn, name@, me, w as int).1);
        return (st.0, st.1 + 1, st.2, true);
    }
    if st.0 == 0 {
        push_str(out, "  entry ");
        push_u32(out, st.1);
        push_str(out, " expression \".*[");
        push_u32(out, asn);
        let r = close_exec(out, (st.0, st.1, st.2, st.3), w, "]\"\n", true);
        assert(out@ =~= start + as_step(AsStyle::NokiaOrigin, (st.0 as int, st.1 as int, st.2, st.3), asn, name@, me, w as int).1);
        r
    } else {
        push_str(out, " ");
        push_u32(out, asn);
        let r = close_exec(out, (st.0, st.1, st.2, st.3), w, "]\"\n", true);
        assert(out@ =~= start + as_step(AsStyle::NokiaOrigin, (st.0 as int, st.1 as int, st.2, st.3), asn, name@, me, w as int).1);
        r
    }
}

#[verifier::spinoff_prover]
#[verifier::rlimit(50)]
fn step_nokia_md(out: &mut String, st: (i32, u32, bool, bool), asn: u32, name: &str, me: u32, w: i32) -> (r: (i32, u32, bool, bool))
    requires
        0 <= st.0 < 0x7fff_fff0,
        st.1 < 0xffff_fff0,
    ensures
        (r.0 as int, r.1 as int, r.2, r.3) == as_step(AsStyle::NokiaMd, (st.0 as int, st.1 as int, st.2, st.3), asn, name@, me, w as int).0,
        final(out)@ == old(out)@ + as_step(AsStyle::NokiaMd, (st.0 as int, st.1 as int, st.2, st.3), asn, name@, me, w as int).1,
        0 <= r.0 <= st.0 + 1,
        r.1 <= st.1 + 1,
{
    let ghost start = out@;
    if !st.3 && asn == me && me > 0 {
        push_str(out, "  entry ");
        push_u32(out, st.1);
        push_str(out, " {\n    expression \"");
        push_u32(out, asn);
        push_str(out, "+\"\n  }\n");
        assert(out@ =~= start + as_step(AsStyle::NokiaMd, (st.0 as int, st.1 as int, st.2, st.3), asn, name@, me, w as int).1);
        return (st.0, st.1 + 1, st.2, true);
    }
    if st.0 == 0 {
        push_str(out, "  entry ");
        push_u32(out, st.1);
        push_str(out, " {\n    expression \"");
        push_u32(out, me);
        push_str(out, ".*[");
        push_u32(out, asn);
        push_str(out, "\"");
        let r = close_exec(out, (st.0, st.1, st.2, st.3), w, "]\"\n  }}\n", true);
        assert(out@ =~= start + as_step(AsStyle::NokiaMd, (st.0 as int, st.1 as int, st.2, st.3), asn, name@, me, w as int).1);
        r
    } else {
        push_str(out, " ");
        push_u32(out, asn);
        let r = close_exec(out, (st.0, st.1, st.2, st.3), w, "]\"\n  }}\n", true);
        assert(out@ =~= start + as_step(AsStyle::NokiaMd, (st.0 as int, st.1 as int, st.2, st.3), asn, name@, me, w as int).1);
        r
    }
}

#[verifier::spinoff_prover]
#[verifier::rlimit(50)]
fn step_nokia_md_origin(out: &mut String, st: (i32, u32, bool, bool), asn: u32, name: &str, me: u32, w: i32) -> (r: (i32, u32, bool, bool))
    requires
        0 <= st.0 < 0x7fff_fff0,
        st.1 < 0xffff_fff0,
    ensures
        (r.0 as int, r.1 as int, r.2, r.3) == as_step(AsStyle::NokiaMdOrigin, (st.0 as int, st.1 as int, st.2, st.3), asn, name@, me, w as int).0,
        final(out)@ == old(out)@ + as_step(AsStyle::NokiaMdOrigin, (st.0 as int, st.1 as int, st.2, st.3), asn, name@, me, w as int).1,
        0 <= r.0 <= st.0 + 1,
        r.1 <= st.1 + 1,
{
    let ghost start = out@;
    if !st.3 && asn == me && me > 0 {
        push_str(out, "  entry ");
        push_u32(out, st.1);
        push_str(out, " {\n    expression \"");
        push_u32(out, asn);
        push_str(out, "+\"\n  }\n");
        assert(out@ =~= start + as_step(AsStyle::NokiaMdOrigin, (st.0 as int, st.1 as int, st.2, st.3), asn, name@, me, w as int).1);
        return (st.0, st.1 + 1, st.2, true);
    }
    if st.0 == 0 {
        push_str(out, "  entry ");
        push_u32(out, st.1);
        push_str(out, " {\n    expression \".*[");
        push_u32(out, asn);
        let r = close_exec(out, (st.0, st.1, st.2, st.3), w, "]\"\n  }}\n", true);
        assert(out@ =~= start + as_step(AsStyle::NokiaMdOrigin, (st.0 as int, st.1 as int, st.2, st.3), asn, name@, me, w as int).1);
        r
    } else {
        push_str(out, " ");
        push_u32(out, asn);
        let r = close_exec(out, (st.0, st.1, st.2, st.3), w, "]\"\n  }}\n", true);
        assert(out@ =~= start + as_step(AsStyle::NokiaMdOrigin, (st.0 as int, st.1 as int, st.2, st.3), asn, name@, me, w as int).1);
        r
    }
}

#[verifier::spinoff_prover]
#[verifier::rlimit(50)]
fn step_huawei(out: &mut String, st: (i32, u32, bool, bool), asn: u32, name: &str, me: u32, w: i32) -> (r: (i32, u32, bool, bool))
    requires
        0 <= st.0 < 0x7fff_fff0,
        st.1 < 0xffff_fff0,
    ensures
        (r.0 as int, r.1 as int, r.2, r.3) == as_step(AsStyle::Huawei, (st.0 as int, st.1 as int, st.2, st.3), asn, name@, me, w as int).0,
        final(out)@ == old(out)@ + as_step(AsStyle::Huawei, (st.0 as int, st.1 as int, st.2, st.3), asn, name@, me, w as int).1,
        0 <= r.0 <= st.0 + 1,
        r.1 <= st.1 + 1,
{
    let ghost start = out@;
    if !st.3 && asn == me && me > 0 {
        push_str(out, "ip as-path-filter ");
        push_str(out, name);
        push_str(out, " permit ^");
        push_u32(out, asn);
        push_str(out, "(_");
        push_u32(out, asn);
        push_str(out, ")*$\n");
        assert(out@ =~= start + as_step(AsStyle::Huawei, (st.0 as int, st.1 as int, st.2, st.3), asn, name@, me, w as int).1);
        return (st.0, st.1, st.2, true);
    }
    if st.0 == 0 {
        push_str(out, "ip as-path-filter ");
        push_str(out, name);
        push_str(out, " permit ^");
        push_u32(out, asn);
        push_str(out, "(_[0-9]+)*_(");
        push_u32(out, me);
        let r = close_exec(out, (st.0, st.1, st.2, st.3), w, ")$\n", false);
        assert(out@ =~= start + as_step(AsStyle::Huawei, (st.0 as int, st.1 as int, st.2, st.3), asn, name@, me, w as int).1);
        r
    } else {
        push_str(out, "|");
        push_u32(out, asn);
        let r = close_exec(out, (st.0, st.1, st.2, st.3), w, ")$\n", false);
        assert(out@ =~= start + as_step(AsStyle::Huawei, (st.0 as int, st.1 as int, st.2, st.3), asn, name@, me, w as int).1);
        r
    }
}

#[verifier::spinoff_prover]
#[verifier::rlimit(50)]
fn step_huawei_xpl(out: &mut String, st: (i32, u32, bool, bool), asn: u32, name: &str, me: u32, w: i32) -> (r: (i32, u32, bool, bool))
    requires
        0 <= st.0 < 0x7fff_fff0,
        st.1 < 0xffff_fff0,
    ensures
        (r.0 as int, r.1 as int, r.2, r.3) == as_step(AsStyle::HuaweiXpl, (st.0 as int, st.1 as int, st.2, st.3), asn, name@, me, w as int).0,
        final(out)@ == old(out)@ + as_step(AsStyle::HuaweiXpl, (st.0 as int, st.1 as int, st.2, st.3), asn, name@, me, w as int).1,
        0 <= r.0 <= st.0 + 1,
        r.1 <= st.1 + 1,
{
    let ghost start = out@;
    if !st.3 && asn == me && me > 0 {
        push_str(out, "\n  regular ^");
        push_u32(out, asn);
        push_str(out, "(_");
        push_u32(out, asn);
        push_str(out, ")*$");
        assert(out@ =~= start + as_step(AsStyle::HuaweiXpl, (st.0 as int, st.1 as int, st.2, st.3), asn, name@, me, w as int).1);
        return (st.0, st.1, st.2, true);
    }
    if st.0 == 0 {
        if st.2 {
            push_str(out, ",");
        }
        push_str(out, "\n  regular ^");
        push_u32(out, asn);
        push_str(out, "(_[0-9]+)*_(");
        push_u32(out, me);
        let r = close_exec(out, (st.0, st.1, true, st.3), w, ")$", false);
        assert(out@ =~= start + as_step(AsStyle::HuaweiXpl, (st.0 as int, st.1 as int, st.2, st.3), asn, name@, me, w as int).1);
        r
    } else {
        push_str(out, "|");
        push_u32(out, asn);
        let r = close_exec(out, (st.0, st.1, st.2, st.3), w, ")$", false);
        assert(out@ =~= start + as_step(AsStyle::HuaweiXpl, (st.0 as int, st.1 as int, st.2, st.3), asn, name@, me, w as int).1);
        r
    }
}

#[verifier::spinoff_prover]
#[verifier::rlimit(50)]
fn step_huawei_origin(out: &mut String, st: (i32, u32, bool, bool), asn: u32, name: &str, me: u32, w: i32) -> (r: (i32, u32, bool, bool))
    requires
        0 <= st.0 < 0x7fff_fff0,
        st.1 < 0xffff_fff0,
    ensures
        (r.0 as int, r.1 as int, r.2, r.3) == as_step(AsStyle::HuaweiOrigin, (st.0 as int, st.1 as int, st.2, st.3), asn, name@, me, w as int).0,
        final(out)@ == old(out)@ + as_step(AsStyle::HuaweiOrigin, (st.0 as int, st.1 as int, st.2, st.3), asn, name@, me, w as int).1,
        0 <= r.0 <= st.0 + 1,
        r.1 <= st.1 + 1,
{
    let ghost start = out@;
    if me > 0 && asn == me {
        assert(out@ =~= start + as_step(AsStyle::HuaweiOrigin, (st.0 as int, st.1 as int, st.2, st.3), asn, name@, me, w as int).1);
        return st;
    }
    if st.0 == 0 {
        push_str(out, "ip as-path-filter ");
        push_str(out, name);
        push_str(out, " permit ^(_[0-9]+)*_(");
        push_u32(out, asn);
        let r = close_exec(out, (st.0, st.1, st.2, st.3), w, ")$\n", false);
        assert(out@ =~= start + as_step(AsStyle::HuaweiOrigin, (st.0 as int, st.1 as int, st.2, st.3), asn, name@, me, w as int).1);
        r
    } else {
        push_str(out, "|");
        push_u32(out, asn);
        let r = close_exec(out, (st.0, st.1, st.2, st.3), w, ")$\n", false);
        assert(out@ =~= start + as_step(AsStyle::HuaweiOrigin, (st.0 as int, st.1 as int, st.2, st.3), asn, name@, me, w as int).1);
        r
    }
}

#[verifier::spinoff_prover]
#[verifier::rlimit(50)]
fn step_huawei_xpl_origin(out: &mut String, st: (i32, u32, bool, bool), asn: u32, name: &str, me: u32, w: i32) -> (r: (i32, u32, bool, bool))
    requires
        0 <= st.0 < 0x7fff_fff0,
        st.1 < 0xffff_fff0,
    ensures
        (r.0 as int, r.1 as int, r.2, r.3) == as_step(AsStyle::HuaweiXplOrigin, (st.0 as int, st.1 as int, st.2, st.3), asn, name@, me, w as int).0,
        final(out)@ == old(out)@ + as_step(AsStyle::HuaweiXplOrigin, (st.0 as int, st.1 as int, st.2, st.3), asn, name@, me, w as int).1,
        0 <= r.0 <= st.0 + 1,
        r.1 <= st.1 + 1,
{
    let ghost start = out@;
    if me > 0 && asn == me {
        assert(out@ =~= start + as_step(AsStyle::HuaweiXplOrigin, (st.0 as int, st.1 as int, st.2, st.3), asn, name@, me, w as int).1);
        return st;
    }
    if st.0 == 0 {
        if st.2 {
            push_str(out, ",");
        }
        push_str(out, "\n  regular ^(_[0-9]+)*_(");
        push_u32(out, asn);
        let r = close_exec(out, (st.0, st.1, true, st.3), w, ")$", false);
        assert(out@ =~= start + as_step(AsStyle::HuaweiXplOrigin, (st.0 as int, st.1 as int, st.2, st.3), asn, name@, me, w as int).1);
        r
    } else {
        push_str(out, "|");
        push_u32(out, asn);
        let r = close_exec(out, (st.0, st.1, st.2, st.3), w, ")$", false);
        assert(out@ =~= start + as_step(AsStyle::HuaweiXplOrigin, (st.0 as int, st.1 as int, st.2, st.3), asn, name@, me, w as int).1);
        r
    }
}

/// One step of a printer (see `as_step`).
fn as_step_exec(out: &mut String, style: AsStyle, st: (i32, u32, bool, bool), asn: u32, name: &str, me: u32, w: i32) -> (r: (i32, u32, bool, bool))
    requires
        0 <= st.0 < 0x7fff_fff0,
        st.1 < 0xffff_fff0,
    ensures
        (r.0 as int, r.1 as int, r.2, r.3) == as_step(style, (st.0 as int, st.1 as int, st.2, st.3), asn, name@, me, w as int).0,
        final(out)@ == old(out)@ + as_step(style, (st.0 as int, st.1 as int, st.2, st.3), asn, name@, me, w as int).1,
        0 <= r.0 <= st.0 + 1,
        r.1 <= st.1 + 1,
{
    match style {
        AsStyle::Cisco => step_cisco(out, st, asn, name, me, w),
        AsStyle::CiscoXr => step_cisco_xr(out, st, asn, name, me, w),
        AsStyle::CiscoOrigin => step_cisco_origin(out, st, asn, name, me, w),
        AsStyle::CiscoXrOrigin => step_cisco_xr_origin(out, st, asn, name, me, w),
        AsStyle::Juniper => step_juniper(out, st, asn, name, me, w),
        AsStyle::JuniperOrigin => step_juniper_origin(out, st, asn, name, me, w),
        AsStyle::JuniperList => step_juniper_list(out, st, asn, name, me, w),
        AsStyle::Bird => step_bird(out, st, asn, name, me, w),
        AsStyle::Json => step_json(out, st, asn, name, me, w),
        AsStyle::OpenBgpdFrom => step_open_bgpd_from(out, st, asn, name, me, w),
        AsStyle::OpenBgpdTo => step_open_bgpd_to(out, st, asn, name, me, w),
        AsStyle::OpenBgpdSet => step_open_bgpd_set(out, st, asn, name, me, w),
        AsStyle::Nokia => step_nokia(out, st, asn, name, me, w),
        AsStyle::NokiaOrigin => step_nokia_origin(out, st, asn, name, me, w),
        AsStyle::NokiaMd => step_nokia_md(out, st, asn, name, me, w),
        AsStyle::NokiaMdOrigin => step_nokia_md_origin(out, st, asn, name, me, w),
        AsStyle::Huawei => step_huawei(out, st, asn, name, me, w),
        AsStyle::HuaweiXpl => step_huawei_xpl(out, st, asn, name, me, w),
        AsStyle::HuaweiOrigin => step_huawei_origin(out, st, asn, name, me, w),
        AsStyle::HuaweiXplOrigin => step_huawei_xpl_origin(out, st, asn, name, me, w),
    }
}

/// Writes the numbers of `v` in order in a dialect; returns the state
/// after the last one.
fn run_asns(out: &mut String, v: &Vec<u32>, style: AsStyle, init: (i32, u32, bool, bool), name: &str, me: u32, w: i32)
    -> (r: (i32, u32, bool, bool))
    requires
        v@.len() < 0x7fff_ff00,
        init.0 == 0,
        init.1 <= 1,
    ensures
        (r.0 as int, r.1 as int, r.2, r.3)
            == as_fold(v@, style, (init.0 as int, init.1 as int, init.2, init.3), name@, me, w as int).0,
        final(out)@ == old(out)@ + as_fold(v@, style, (init.0 as int, init.1 as int, init.2, init.3), name@, me, w as int).1,
{
    let ghost start = out@;
    let ghost init_s: AsState = (init.0 as int, init.1 as int, init.2, init.3);
    let mut st = init;
    let mut i: usize = 0;
    while i < v.len()
        invariant
            i <= v@.len() < 0x7fff_ff00,
            init.1 <= 1,
            init_s == (init.0 as int, init.1 as int, init.2, init.3),
            0 <= st.0 <= i,
            st.1 <= init.1 + i,
            (st.0 as int, st.1 as int, st.2, st.3) == as_fold(v@.take(i as int), style, init_s, name@, me, w as int).0,
            out@ == start + as_fold(v@.take(i as int), style, init_s, name@, me, w as int).1,
        decreases v@.len() - i,
    {
        proof { lemma_as_fold_step(v@, i as int, style, init_s, name@, me, w as int); }
        st = as_step_exec(out, style, st, v[i], name, me, w);
        i = i + 1;
    }
    assert(v@.take(v@.len() as int) =~= v@);
    assert(init_s == (init.0 as int, init.1 as int, init.2, init.3));
    st
}

/// The text `print_cisco_aspath` appends.
pub open spec fn print_cisco_aspath_text(exp: &Expander) -> Seq<char> {
    let s = sorted_of(exp.asn_list@);
    "no ip as-path access-list "@ + list_name(exp) + "\n"@ + (if s.len() == 0 { "ip as-path access-list "@ + list_name(exp) + " deny .*\n"@ } else { let f = as_fold(s, AsStyle::Cisco, (0, 0, false, false), list_name(exp), exp.config.asnumber, exp.config.aswidth as int); f.1 + (if f.0.0 > 0 { ")$\n"@ } else { Seq::empty() }) })
}

/// Cisco IOS AS-path access list: the own AS number alone, then the others in groups of `aswidth` after the own number.
pub fn print_cisco_aspath(out: &mut String, exp: &Expander)
    requires
        exp.asn_list@.len() < 0x7fff_ff00,
    ensures
        final(out)@ == old(out)@ + print_cisco_aspath_text(exp),
{
    let ghost start = out@;
    let name = exp.config.effective_name();
    let v = sorted_asns(&exp.asn_list);
    let ghost s = v@;
    push_str(out, "no ip as-path access-list ");
    push_str(out, name);
    push_str(out, "\n");
    let ghost mid = out@;
    if v.len() == 0 {
        push_str(out, "ip as-path access-list ");
        push_str(out, name);
        push_str(out, " deny .*\n");
        assert(sorted_elems(s, exp.asn_list@) && out@ =~= start + "no ip as-path access-list "@ + list_name(exp) + "\n"@ + (if s.len() == 0 { "ip as-path access-list "@ + list_name(exp) + " deny .*\n"@ } else { let f = as_fold(s, AsStyle::Cisco, (0, 0, false, false), list_name(exp), exp.config.asnumber, exp.config.aswidth as int); f.1 + (if f.0.0 > 0 { ")$\n"@ } else { Seq::empty() }) }));
        return;
    }
    let st = run_asns(out, &v, AsStyle::Cisco, (0, 0, false, false), name, exp.config.asnumber, exp.config.aswidth);
    if st.0 > 0 {
        push_str(out, ")$\n");
    }
    assert(sorted_elems(s, exp.asn_list@) && out@ =~= start + "no ip as-path access-list "@ + list_name(exp) + "\n"@ + (if s.len() == 0 { "ip as-path access-list "@ + list_name(exp) + " deny .*\n"@ } else { let f = as_fold(s, AsStyle::Cisco, (0, 0, false, false), list_name(exp), exp.config.asnumber, exp.config.aswidth as int); f.1 + (if f.0.0 > 0 { ")$\n"@ } else { Seq::empty() }) }));
}

/// The text `print_cisco_xr_aspath` appends.
pub open spec fn print_cisco_xr_aspath_text(exp: &Expander) -> Seq<char> {
    let s = sorted_of(exp.asn_list@);
    "as-path-set "@ + list_name(exp) + ({ let f = as_fold(s, AsStyle::CiscoXr, (0, 0, false, false), list_name(exp), exp.config.asnumber, exp.config.aswidth as int); f.1 + (if f.0.0 > 0 { ")$'"@ } else { Seq::empty() }) + "\nend-set\n"@ })
}

/// Cisco IOS XR AS-path set of regular expressions.
pub fn print_cisco_xr_aspath(out: &mut String, exp: &Expander)
    requires
        exp.asn_list@.len() < 0x7fff_ff00,
    ensures
        final(out)@ == old(out)@ + print_cisco_xr_aspath_text(exp),
{
    let ghost start = out@;
    let name = exp.config.effective_name();
    let v = sorted_asns(&exp.asn_list);
    let ghost s = v@;
    push_str(out, "as-path-set ");
    push_str(out, name);
    let ghost mid = out@;
    let st = run_asns(out, &v, AsStyle::CiscoXr, (0, 0, false, false), name, exp.config.asnumber, exp.config.aswidth);
    if st.0 > 0 {
        push_str(out, ")$'");
    }
    push_str(out, "\nend-set\n");
    assert(sorted_elems(s, exp.asn_list@) && out@ =~= start + "as-path-set "@ + list_name(exp) + ({ let f = as_fold(s, AsStyle::CiscoXr, (0, 0, false, false), list_name(exp), exp.config.asnumber, exp.config.aswidth as int); f.1 + (if f.0.0 > 0 { ")$'"@ } else { Seq::empty() }) + "\nend-set\n"@ }));
}

/// The text `print_cisco_oaspath` appends.
pub open spec fn print_cisco_oaspath_text(exp: &Expander) -> Seq<char> {
    let s = sorted_of(exp.asn_list@);
    "no ip as-path access-list "@ + list_name(exp) + "\n"@ + (if s.len() == 0 { "ip as-path access-list "@ + list_name(exp) + " deny .*\n"@ } else { let f = as_fold(s, AsStyle::CiscoOrigin, (0, 0, false, false), list_name(exp), exp.config.asnumber, exp.config.aswidth as int); f.1 + (if f.0.0 > 0 { ")$\n"@ } else { Seq::empty() }) })
}

/// Cisco IOS AS-path access list matching the origin AS.
pub fn print_cisco_oaspath(out: &mut String, exp: &Expander)
    requires
        exp.asn_list@.len() < 0x7fff_ff00,
    ensures
        final(out)@ == old(out)@ + print_cisco_oaspath_text(exp),
{
    let ghost start = out@;
    let name = exp.config.effective_name();
    let v = sorted_asns(&exp.asn_list);
    let ghost s = v@;
    push_str(out, "no ip as-path access-list ");
    push_str(out, name);
    push_str(out, "\n");
    let ghost mid = out@;
    if v.len() == 0 {
        push_str(out, "ip as-path access-list ");
        push_str(out, name);
        push_str(out, " deny .*\n");
        assert(sorted_elems(s, exp.asn_list@) && out@ =~= start + "no ip as-path access-list "@ + list_name(exp) + "\n"@ + (if s.len() == 0 { "ip as-path access-list "@ + list_name(exp) + " deny .*\n"@ } else { let f = as_fold(s, AsStyle::CiscoOrigin, (0, 0, false, false), list_name(exp), exp.config.asnumber, exp.config.aswidth as int); f.1 + (if f.0.0 > 0 { ")$\n"@ } else { Seq::empty() }) }));
        return;
    }
    let st = run_asns(out, &v, AsStyle::CiscoOrigin, (0, 0, false, false), name, exp.config.asnumber, exp.config.aswidth);
    if st.0 > 0 {
        push_str(out, ")$\n");
    }
    assert(sorted_elems(s, exp.asn_list@) && out@ =~= start + "no ip as-path access-list "@ + list_name(exp) + "\n"@ + (if s.len() == 0 { "ip as-path access-list "@ + list_name(exp) + " deny .*\n"@ } else { let f = as_fold(s, AsStyle::CiscoOrigin, (0, 0, false, false), list_name(exp), exp.config.asnumber, exp.config.aswidth as int); f.1 + (if f.0.0 > 0 { ")$\n"@ } else { Seq::empty() }) }));
}

/// The text `print_cisco_xr_oaspath` appends.
pub open spec fn print_cisco_xr_oaspath_text(exp: &Expander) -> Seq<char> {
    let s = sorted_of(exp.asn_list@);
    "as-path-set "@ + list_name(exp) + ({ let f = as_fold(s, AsStyle::CiscoXrOrigin, (0, 0, false, false), list_name(exp), exp.config.asnumber, exp.config.aswidth as int); f.1 + (if f.0.0 > 0 { ")$'"@ } else { Seq::empty() }) + "\nend-set\n"@ })
}

/// Cisco IOS XR AS-path set matching the origin AS.
pub fn print_cisco_xr_oaspath(out: &mut String, exp: &Expander)
    requires
        exp.asn_list@.len() < 0x7fff_ff00,
    ensures
        final(out)@ == old(out)@ + print_cisco_xr_oaspath_text(exp),
{
    let ghost start = out@;
    let name = exp.config.effective_name();
    let v = sorted_asns(&exp.asn_list);
    let ghost s = v@;
    push_str(out, "as-path-set ");
    push_str(out, name);
    let ghost mid = out@;
    let st = run_asns(out, &v, AsStyle::CiscoXrOrigin, (0, 0, false, false), name, exp.config.asnumber, exp.config.aswidth);
    if st.0 > 0 {
        push_str(out, ")$'");
    }
    push_str(out, "\nend-set\n");
    assert(sorted_elems(s, exp.asn_list@) && out@ =~= start + "as-path-set "@ + list_name(exp) + ({ let f = as_fold(s, AsStyle::CiscoXrOrigin, (0, 0, false, false), list_name(exp), exp.config.asnumber, exp.config.aswidth as int); f.1 + (if f.0.0 > 0 { ")$'"@ } else { Seq::empty() }) + "\nend-set\n"@ }));
}

/// The text `print_juniper_aspath` appends.
pub open spec fn print_juniper_aspath_text(exp: &Expander) -> Seq<char> {
    let s = sorted_of(exp.asn_list@);
    "policy-options {\nreplace:\n as-path-group "@ + list_name(exp) + " {\n"@ + ({ let f = as_fold(s, AsStyle::Juniper, (0, 0, false, false), list_name(exp), exp.config.asnumber, exp.config.aswidth as int); f.1 + (if f.0.0 > 0 { ")$\";\n"@ } else if f.0.1 == 0 { "  as-path aNone \"!.*\";\n"@ } else { Seq::empty() }) + " }\n}\n"@ })
}

/// Juniper AS-path group; "aNone" denies everything when nothing was printed.
pub fn print_juniper_aspath(out: &mut String, exp: &Expander)
    requires
        exp.asn_list@.len() < 0x7fff_ff00,
    ensures
        final(out)@ == old(out)@ + print_juniper_aspath_text(exp),
{
    let ghost start = out@;
    let name = exp.config.effective_name();
    let v = sorted_asns(&exp.asn_list);
    let ghost s = v@;
    push_str(out, "policy-options {\nreplace:\n as-path-group ");
    push_str(out, name);
    push_str(out, " {\n");
    let ghost mid = out@;
    let st = run_asns(out, &v, AsStyle::Juniper, (0, 0, false, false), name, exp.config.asnumber, exp.config.aswidth);
    if st.0 > 0 {
        push_str(out, ")$\";\n");
    } else if st.1 == 0 {
        push_str(out, "  as-path aNone \"!.*\";\n");
    }
    push_str(out, " }\n}\n");
    assert(sorted_elems(s, exp.asn_list@) && out@ =~= start + "policy-options {\nreplace:\n as-path-group "@ + list_name(exp) + " {\n"@ + ({ let f = as_fold(s, AsStyle::Juniper, (0, 0, false, false), list_name(exp), exp.config.asnumber, exp.config.aswidth as int); f.1 + (if f.0.0 > 0 { ")$\";\n"@ } else if f.0.1 == 0 { "  as-path aNone \"!.*\";\n"@ } else { Seq::empty() }) + " }\n}\n"@ }));
}

/// The text `print_juniper_oaspath` appends.
pub open spec fn print_juniper_oaspath_text(exp: &Expander) -> Seq<char> {
    let s = sorted_of(exp.asn_list@);
    "policy-options {\nreplace:\n as-path-group "@ + list_name(exp) + " {\n"@ + ({ let f = as_fold(s, AsStyle::JuniperOrigin, (0, 0, false, false), list_name(exp), exp.config.asnumber, exp.config.aswidth as int); f.1 + (if f.0.0 > 0 { ")$\";\n"@ } else if f.0.1 == 0 { " as-path aNone \"!.*\";\n"@ } else { Seq::empty() }) + " }\n}\n"@ })
}

/// Juniper AS-path group matching the origin AS.
pub fn print_juniper_oaspath(out: &mut String, exp: &Expander)
    requires
        exp.asn_list@.len() < 0x7fff_ff00,
    ensures
        final(out)@ == old(out)@ + print_juniper_oaspath_text(exp),
{
    let ghost start = out@;
    let name = exp.config.effective_name();
    let v = sorted_asns(&exp.asn_list);
    let ghost s = v@;
    push_str(out, "policy-options {\nreplace:\n as-path-group ");
    push_str(out, name);
    push_str(out, " {\n");
    let ghost mid = out@;
    let st = run_asns(out, &v, AsStyle::JuniperOrigin, (0, 0, false, false), name, exp.config.asnumber, exp.config.aswidth);
    if st.0 > 0 {
        push_str(out, ")$\";\n");
    } else if st.1 == 0 {
        push_str(out, " as-path aNone \"!.*\";\n");
    }
    push_str(out, " }\n}\n");
    assert(sorted_elems(s, exp.asn_list@) && out@ =~= start + "policy-options {\nreplace:\n as-path-group "@ + list_name(exp) + " {\n"@ + ({ let f = as_fold(s, AsStyle::JuniperOrigin, (0, 0, false, false), list_name(exp), exp.config.asnumber, exp.config.aswidth as int); f.1 + (if f.0.0 > 0 { ")$\";\n"@ } else if f.0.1 == 0 { " as-path aNone \"!.*\";\n"@ } else { Seq::empty() }) + " }\n}\n"@ }));
}

/// The text `print_juniper_aslist` appends.
pub open spec fn print_juniper_aslist_text(exp: &Expander) -> Seq<char> {
    let s = sorted_of(exp.asn_list@);
    "policy-options {\nreplace:\n as-list-group "@ + list_name(exp) + " {\n"@ + ({ let f = as_fold(s, AsStyle::JuniperList, (0, 0, false, false), list_name(exp), exp.config.asnumber, exp.config.aswidth as int); f.1 + (if f.0.0 > 0 { " ];\n"@ } else { Seq::empty() }) + " }\n}\n"@ })
}

/// Juniper AS-list group.
pub fn print_juniper_aslist(out: &mut String, exp: &Expander)
    requires
        exp.asn_list@.len() < 0x7fff_ff00,
    ensures
        final(out)@ == old(out)@ + print_juniper_aslist_text(exp),
{
    let ghost start = out@;
    let name = exp.config.effective_name();
    let v = sorted_asns(&exp.asn_list);
    let ghost s = v@;
    push_str(out, "policy-options {\nreplace:\n as-list-group ");
    push_str(out, name);
    push_str(out, " {\n");
    let ghost mid = out@;
    let st = run_asns(out, &v, AsStyle::JuniperList, (0, 0, false, false), name, exp.config.asnumber, exp.config.aswidth);
    if st.0 > 0 {
        push_str(out, " ];\n");
    }
    push_str(out, " }\n}\n");
    assert(sorted_elems(s, exp.asn_list@) && out@ =~= start + "policy-options {\nreplace:\n as-list-group "@ + list_name(exp) + " {\n"@ + ({ let f = as_fold(s, AsStyle::JuniperList, (0, 0, false, false), list_name(exp), exp.config.asnumber, exp.config.aswidth as int); f.1 + (if f.0.0 > 0 { " ];\n"@ } else { Seq::empty() }) + " }\n}\n"@ }));
}

/// The text `print_bird_aspath` appends.
pub open spec fn print_bird_aspath_text(exp: &Expander) -> Seq<char> {
    let s = sorted_of(exp.asn_list@);
    list_name(exp) + " = ["@ + (if s.len() == 0 { "];\n"@ } else { let f = as_fold(s, AsStyle::Bird, (0, 0, false, false), list_name(exp), exp.config.asnumber, exp.config.aswidth as int); f.1 + "\n];\n"@ })
}

/// BIRD list of AS numbers.
pub fn print_bird_aspath(out: &mut String, exp: &Expander)
    requires
        exp.asn_list@.len() < 0x7fff_ff00,
    ensures
        final(out)@ == old(out)@ + print_bird_aspath_text(exp),
{
    let ghost start = out@;
    let name = exp.config.effective_name();
    let v = sorted_asns(&exp.asn_list);
    let ghost s = v@;
    push_str(out, name);
    push_str(out, " = [");
    let ghost mid = out@;
    if v.len() == 0 {
        push_str(out, "];\n");
        assert(sorted_elems(s, exp.asn_list@) && out@ =~= start + list_name(exp) + " = ["@ + (if s.len() == 0 { "];\n"@ } else { let f = as_fold(s, AsStyle::Bird, (0, 0, false, false), list_name(exp), exp.config.asnumber, exp.config.aswidth as int); f.1 + "\n];\n"@ }));
        return;
    }
    let st = run_asns(out, &v, AsStyle::Bird, (0, 0, false, false), name, exp.config.asnumber, exp.config.aswidth);
    push_str(out, "\n];\n");
    assert(sorted_elems(s, exp.asn_list@) && out@ =~= start + list_name(exp) + " = ["@ + (if s.len() == 0 { "];\n"@ } else { let f = as_fold(s, AsStyle::Bird, (0, 0, false, false), list_name(exp), exp.config.asnumber, exp.config.aswidth as int); f.1 + "\n];\n"@ }));
}

/// The text `print_json_aspath` appends.
pub open spec fn print_json_aspath_text(exp: &Expander) -> Seq<char> {
    let s = sorted_of(exp.asn_list@);
    "{\""@ + list_name(exp) + "\": ["@ + ({ let f = as_fold(s, AsStyle::Json, (0, 0, false, false), list_name(exp), exp.config.asnumber, exp.config.aswidth as int); f.1 + "\n]}\n"@ })
}

/// JSON array of AS numbers.
pub fn print_json_aspath(out: &mut String, exp: &Expander)
    requires
        exp.asn_list@.len() < 0x7fff_ff00,
    ensures
        final(out)@ == old(out)@ + print_json_aspath_text(exp),
{
    let ghost start = out@;
    let name = exp.config.effective_name();
    let v = sorted_asns(&exp.asn_list);
    let ghost s = v@;
    push_str(out, "{\"");
    push_str(out, name);
    push_str(out, "\": [");
    let ghost mid = out@;
    let st = run_asns(out, &v, AsStyle::Json, (0, 0, false, false), name, exp.config.asnumber, exp.config.aswidth);
    push_str(out, "\n]}\n");
    assert(sorted_elems(s, exp.asn_list@) && out@ =~= start + "{\""@ + list_name(exp) + "\": ["@ + ({ let f = as_fold(s, AsStyle::Json, (0, 0, false, false), list_name(exp), exp.config.asnumber, exp.config.aswidth as int); f.1 + "\n]}\n"@ }));
}

/// The text `print_openbgpd_aspath` appends.
pub open spec fn print_openbgpd_aspath_text(exp: &Expander) -> Seq<char> {
    let s = sorted_of(exp.asn_list@);
    (if s.len() == 0 { "deny from AS "@ + dec(exp.config.asnumber as nat) + "\n"@ } else { let f = as_fold(s, AsStyle::OpenBgpdFrom, (0, 0, false, false), list_name(exp), exp.config.asnumber, exp.config.aswidth as int); f.1 })
}

/// OpenBGPD "allow from" rules, or "deny from" without AS numbers.
pub fn print_openbgpd_aspath(out: &mut String, exp: &Expander)
    requires
        exp.asn_list@.len() < 0x7fff_ff00,
    ensures
        final(out)@ == old(out)@ + print_openbgpd_aspath_text(exp),
{
    let ghost start = out@;
    let name = exp.config.effective_name();
    let v = sorted_asns(&exp.asn_list);
    let ghost s = v@;

    let ghost mid = out@;
    if v.len() == 0 {
        push_str(out, "deny from AS ");
        push_u32(out, exp.config.asnumber);
        push_str(out, "\n");
        assert(sorted_elems(s, exp.asn_list@) && out@ =~= start + (if s.len() == 0 { "deny from AS "@ + dec(exp.config.asnumber as nat) + "\n"@ } else { let f = as_fold(s, AsStyle::OpenBgpdFrom, (0, 0, false, false), list_name(exp), exp.config.asnumber, exp.config.aswidth as int); f.1 }));
        return;
    }
    let st = run_asns(out, &v, AsStyle::OpenBgpdFrom, (0, 0, false, false), name, exp.config.asnumber, exp.config.aswidth);
    assert(sorted_elems(s, exp.asn_list@) && out@ =~= start + (if s.len() == 0 { "deny from AS "@ + dec(exp.config.asnumber as nat) + "\n"@ } else { let f = as_fold(s, AsStyle::OpenBgpdFrom, (0, 0, false, false), list_name(exp), exp.config.asnumber, exp.config.aswidth as int); f.1 }));
}

/// The text `print_openbgpd_oaspath` appends.
pub open spec fn print_openbgpd_oaspath_text(exp: &Expander) -> Seq<char> {
    let s = sorted_of(exp.asn_list@);
    (if s.len() == 0 { "deny to AS "@ + dec(exp.config.asnumber as nat) + "\n"@ } else { let f = as_fold(s, AsStyle::OpenBgpdTo, (0, 0, false, false), list_name(exp), exp.config.asnumber, exp.config.aswidth as int); f.1 })
}

/// OpenBGPD "allow to" rules, or "deny to" without AS numbers.
pub fn print_openbgpd_oaspath(out: &mut String, exp: &Expander)
    requires
        exp.asn_list@.len() < 0x7fff_ff00,
    ensures
        final(out)@ == old(out)@ + print_openbgpd_oaspath_text(exp),
{
    let ghost start = out@;
    let name = exp.config.effective_name();
    let v = sorted_asns(&exp.asn_list);
    let ghost s = v@;

    let ghost mid = out@;
    if v.len() == 0 {
        push_str(out, "deny to AS ");
        push_u32(out, exp.config.asnumber);
        push_str(out, "\n");
        assert(sorted_elems(s, exp.asn_list@) && out@ =~= start + (if s.len() == 0 { "deny to AS "@ + dec(exp.config.asnumber as nat) + "\n"@ } else { let f = as_fold(s, AsStyle::OpenBgpdTo, (0, 0, false, false), list_name(exp), exp.config.asnumber, exp.config.aswidth as int); f.1 }));
        return;
    }
    let st = run_asns(out, &v, AsStyle::OpenBgpdTo, (0, 0, false, false), name, exp.config.asnumber, exp.config.aswidth);
    assert(sorted_elems(s, exp.asn_list@) && out@ =~= start + (if s.len() == 0 { "deny to AS "@ + dec(exp.config.asnumber as nat) + "\n"@ } else { let f = as_fold(s, AsStyle::OpenBgpdTo, (0, 0, false, false), list_name(exp), exp.config.asnumber, exp.config.aswidth as int); f.1 }));
}

/// The text `print_openbgpd_asset` appends.
pub open spec fn print_openbgpd_asset_text(exp: &Expander) -> Seq<char> {
    let s = sorted_of(exp.asn_list@);
    "as-set "@ + list_name(exp) + " {"@ + ({ let f = as_fold(s, AsStyle::OpenBgpdSet, (0, 0, false, false), list_name(exp), exp.config.asnumber, exp.config.aswidth as int); f.1 + "\n}\n"@ })
}

/// OpenBGPD AS set.
pub fn print_openbgpd_asset(out: &mut String, exp: &Expander)
    requires
        exp.asn_list@.len() < 0x7fff_ff00,
    ensures
        final(out)@ == old(out)@ + print_openbgpd_asset_text(exp),
{
    let ghost start = out@;
    let name = exp.config.effective_name();
    let v = sorted_asns(&exp.asn_list);
    let ghost s = v@;
    push_str(out, "as-set ");
    push_str(out, name);
    push_str(out, " {");
    let ghost mid = out@;
    let st = run_asns(out, &v, AsStyle::OpenBgpdSet, (0, 0, false, false), name, exp.config.asnumber, exp.config.aswidth);
    push_str(out, "\n}\n");
    assert(sorted_elems(s, exp.asn_list@) && out@ =~= start + "as-set "@ + list_name(exp) + " {"@ + ({ let f = as_fold(s, AsStyle::OpenBgpdSet, (0, 0, false, false), list_name(exp), exp.config.asnumber, exp.config.aswidth as int); f.1 + "\n}\n"@ }));
}

/// The text `print_nokia_aspath` appends.
pub open spec fn print_nokia_aspath_text(exp: &Expander) -> Seq<char> {
    let s = sorted_of(exp.asn_list@);
    "configure router policy-options\nbegin\nno as-path-group \""@ + list_name(exp) + "\"\n"@ + "as-path-group \""@ + list_name(exp) + "\"\n"@ + ({ let f = as_fold(s, AsStyle::Nokia, (0, 1, false, false), list_name(exp), exp.config.asnumber, exp.config.aswidth as int); f.1 + (if f.0.0 > 0 { "]\"\n"@ } else { Seq::empty() }) + "exit\ncommit\n"@ })
}

/// Nokia SR OS AS-path group.
pub fn print_nokia_aspath(out: &mut String, exp: &Expander)
    requires
        exp.asn_list@.len() < 0x7fff_ff00,
    ensures
        final(out)@ == old(out)@ + print_nokia_aspath_text(exp),
{
    let ghost start = out@;
    let name = exp.config.effective_name();
    let v = sorted_asns(&exp.asn_list);
    let ghost s = v@;
    push_str(out, "configure router policy-options\nbegin\nno as-path-group \"");
    push_str(out, name);
    push_str(out, "\"\n");
    push_str(out, "as-path-group \"");
    push_str(out, name);
    push_str(out, "\"\n");
    let ghost mid = out@;
    let st = run_asns(out, &v, AsStyle::Nokia, (0, 1, false, false), name, exp.config.asnumber, exp.config.aswidth);
    if st.0 > 0 {
        push_str(out, "]\"\n");
    }
    push_str(out, "exit\ncommit\n");
    assert(sorted_elems(s, exp.asn_list@) && out@ =~= start + "configure router policy-options\nbegin\nno as-path-group \""@ + list_name(exp) + "\"\n"@ + "as-path-group \""@ + list_name(exp) + "\"\n"@ + ({ let f = as_fold(s, AsStyle::Nokia, (0, 1, false, false), list_name(exp), exp.config.asnumber, exp.config.aswidth as int); f.1 + (if f.0.0 > 0 { "]\"\n"@ } else { Seq::empty() }) + "exit\ncommit\n"@ }));
}

/// The text `print_nokia_oaspath` appends.
pub open spec fn print_nokia_oaspath_text(exp: &Expander) -> Seq<char> {
    let s = sorted_of(exp.asn_list@);
    "configure router policy-options\nbegin\nno as-path-group\""@ + list_name(exp) + "\"\n"@ + "as-path-group \""@ + list_name(exp) + "\"\n"@ + ({ let f = as_fold(s, AsStyle::NokiaOrigin, (0, 1, false, false), list_name(exp), exp.config.asnumber, exp.config.aswidth as int); f.1 + (if f.0.0 > 0 { "]\"\n"@ } else { Seq::empty() }) + "exit\ncommit\n"@ })
}

/// Nokia SR OS AS-path group matching the origin AS.
pub fn print_nokia_oaspath(out: &mut String, exp: &Expander)
    requires
        exp.asn_list@.len() < 0x7fff_ff00,
    ensures
        final(out)@ == old(out)@ + print_nokia_oaspath_text(exp),
{
    let ghost start = out@;
    let name = exp.config.effective_name();
    let v = sorted_asns(&exp.asn_list);
    let ghost s = v@;
    push_str(out, "configure router policy-options\nbegin\nno as-path-group\"");
    push_str(out, name);
    push_str(out, "\"\n");
    push_str(out, "as-path-group \"");
    push_str(out, name);
    push_str(out, "\"\n");
    let ghost mid = out@;
    let st = run_asns(out, &v, AsStyle::NokiaOrigin, (0, 1, false, false), name, exp.config.asnumber, exp.config.aswidth);
    if st.0 > 0 {
        push_str(out, "]\"\n");
    }
    push_str(out, "exit\ncommit\n");
    assert(sorted_elems(s, exp.asn_list@) && out@ =~= start + "configure router policy-options\nbegin\nno as-path-group\""@ + list_name(exp) + "\"\n"@ + "as-path-group \""@ + list_name(exp) + "\"\n"@ + ({ let f = as_fold(s, AsStyle::NokiaOrigin, (0, 1, false, false), list_name(exp), exp.config.asnumber, exp.config.aswidth as int); f.1 + (if f.0.0 > 0 { "]\"\n"@ } else { Seq::empty() }) + "exit\ncommit\n"@ }));
}

/// The text `print_nokia_md_aspath` appends.
pub open spec fn print_nokia_md_aspath_text(exp: &Expander) -> Seq<char> {
    let s = sorted_of(exp.asn_list@);
    "/configure policy-options\ndelete as-path-group \""@ + list_name(exp) + "\"\n"@ + "as-path-group \""@ + list_name(exp) + "\" {\n"@ + ({ let f = as_fold(s, AsStyle::NokiaMd, (0, 1, false, false), list_name(exp), exp.config.asnumber, exp.config.aswidth as int); f.1 + (if f.0.0 > 0 { "]\"\n  }}\n"@ } else { Seq::empty() }) + "}\n"@ })
}

/// Nokia SR OS MD-CLI AS-path group.
pub fn print_nokia_md_aspath(out: &mut String, exp: &Expander)
    requires
        exp.asn_list@.len() < 0x7fff_ff00,
    ensures
        final(out)@ == old(out)@ + print_nokia_md_aspath_text(exp),
{
    let ghost start = out@;
    let name = exp.config.effective_name();
    let v = sorted_asns(&exp.asn_list);
    let ghost s = v@;
    push_str(out, "/configure policy-options\ndelete as-path-group \"");
    push_str(out, name);
    push_str(out, "\"\n");
    push_str(out, "as-path-group \"");
    push_str(out, name);
    push_str(out, "\" {\n");
    let ghost mid = out@;
    let st = run_asns(out, &v, AsStyle::NokiaMd, (0, 1, false, false), name, exp.config.asnumber, exp.config.aswidth);
    if st.0 > 0 {
        push_str(out, "]\"\n  }}\n");
    }
    push_str(out, "}\n");
    assert(sorted_elems(s, exp.asn_list@) && out@ =~= start + "/configure policy-options\ndelete as-path-group \""@ + list_name(exp) + "\"\n"@ + "as-path-group \""@ + list_name(exp) + "\" {\n"@ + ({ let f = as_fold(s, AsStyle::NokiaMd, (0, 1, false, false), list_name(exp), exp.config.asnumber, exp.config.aswidth as int); f.1 + (if f.0.0 > 0 { "]\"\n  }}\n"@ } else { Seq::empty() }) + "}\n"@ }));
}

/// The text `print_nokia_md_oaspath` appends.
pub open spec fn print_nokia_md_oaspath_text(exp: &Expander) -> Seq<char> {
    let s = sorted_of(exp.asn_list@);
    "/configure policy-options\ndelete as-path-group \""@ + list_name(exp) + "\"\n"@ + "as-path-group \""@ + list_name(exp) + "\" {\n"@ + ({ let f = as_fold(s, AsStyle::NokiaMdOrigin, (0, 1, false, false), list_name(exp), exp.config.asnumber, exp.config.aswidth as int); f.1 + (if f.0.0 > 0 { "]\"\n  }}\n"@ } else { Seq::empty() }) + "}\n"@ })
}

/// Nokia SR OS MD-CLI AS-path group matching the origin AS.
pub fn print_nokia_md_oaspath(out: &mut String, exp: &Expander)
    requires
        exp.asn_list@.len() < 0x7fff_ff00,
    ensures
        final(out)@ == old(out)@ + print_nokia_md_oaspath_text(exp),
{
    let ghost start = out@;
    let name = exp.config.effective_name();
    let v = sorted_asns(&exp.asn_list);
    let ghost s = v@;
    push_str(out, "/configure policy-options\ndelete as-path-group \"");
    push_str(out, name);
    push_str(out, "\"\n");
    push_str(out, "as-path-group \"");
    push_str(out, name);
    push_str(out, "\" {\n");
    let ghost mid = out@;
    let st = run_asns(out, &v, AsStyle::NokiaMdOrigin, (0, 1, false, false), name, exp.config.asnumber, exp.config.aswidth);
    if st.0 > 0 {
        push_str(out, "]\"\n  }}\n");
    }
    push_str(out, "}\n");
    assert(sorted_elems(s, exp.asn_list@) && out@ =~= start + "/configure policy-options\ndelete as-path-group \""@ + list_name(exp) + "\"\n"@ + "as-path-group \""@ + list_name(exp) + "\" {\n"@ + ({ let f = as_fold(s, AsStyle::NokiaMdOrigin, (0, 1, false, false), list_name(exp), exp.config.asnumber, exp.config.aswidth as int); f.1 + (if f.0.0 > 0 { "]\"\n  }}\n"@ } else { Seq::empty() }) + "}\n"@ }));
}

/// The text `print_huawei_aspath` appends.
pub open spec fn print_huawei_aspath_text(exp: &Expander) -> Seq<char> {
    let s = sorted_of(exp.asn_list@);
    "undo ip as-path-filter "@ + list_name(exp) + "\n"@ + (if s.len() == 0 { "ip as-path-filter "@ + list_name(exp) + " deny .*\n"@ } else { let f = as_fold(s, AsStyle::Huawei, (0, 0, false, false), list_name(exp), exp.config.asnumber, exp.config.aswidth as int); f.1 + (if f.0.0 > 0 { ")$\n"@ } else { Seq::empty() }) })
}

/// Huawei AS-path filter.
pub fn print_huawei_aspath(out: &mut String, exp: &Expander)
    requires
        exp.asn_list@.len() < 0x7fff_ff00,
    ensures
        final(out)@ == old(out)@ + print_huawei_aspath_text(exp),
{
    let ghost start = out@;
    let name = exp.config.effective_name();
    let v = sorted_asns(&exp.asn_list);
    let ghost s = v@;
    push_str(out, "undo ip as-path-filter ");
    push_str(out, name);
    push_str(out, "\n");
    let ghost mid = out@;
    if v.len() == 0 {
        push_str(out, "ip as-path-filter ");
        push_str(out, name);
        push_str(out, " deny .*\n");
        assert(sorted_elems(s, exp.asn_list@) && out@ =~= start + "undo ip as-path-filter "@ + list_name(exp) + "\n"@ + (if s.len() == 0 { "ip as-path-filter "@ + list_name(exp) + " deny .*\n"@ } else { let f = as_fold(s, AsStyle::Huawei, (0, 0, false, false), list_name(exp), exp.config.asnumber, exp.config.aswidth as int); f.1 + (if f.0.0 > 0 { ")$\n"@ } else { Seq::empty() }) }));
        return;
    }
    let st = run_asns(out, &v, AsStyle::Huawei, (0, 0, false, false), name, exp.config.asnumber, exp.config.aswidth);
    if st.0 > 0 {
        push_str(out, ")$\n");
    }
    assert(sorted_elems(s, exp.asn_list@) && out@ =~= start + "undo ip as-path-filter "@ + list_name(exp) + "\n"@ + (if s.len() == 0 { "ip as-path-filter "@ + list_name(exp) + " deny .*\n"@ } else { let f = as_fold(s, AsStyle::Huawei, (0, 0, false, false), list_name(exp), exp.config.asnumber, exp.config.aswidth as int); f.1 + (if f.0.0 > 0 { ")$\n"@ } else { Seq::empty() }) }));
}

/// The text `print_huawei_xpl_aspath` appends.
pub open spec fn print_huawei_xpl_aspath_text(exp: &Expander) -> Seq<char> {
    let s = sorted_of(exp.asn_list@);
    "xpl as-path-list "@ + list_name(exp) + ({ let f = as_fold(s, AsStyle::HuaweiXpl, (0, 0, true, false), list_name(exp), exp.config.asnumber, exp.config.aswidth as int); f.1 + (if f.0.0 > 0 { ")$"@ } else { Seq::empty() }) + "\nend-list\n"@ })
}

/// Huawei XPL AS-path list.
pub fn print_huawei_xpl_aspath(out: &mut String, exp: &Expander)
    requires
        exp.asn_list@.len() < 0x7fff_ff00,
    ensures
        final(out)@ == old(out)@ + print_huawei_xpl_aspath_text(exp),
{
    let ghost start = out@;
    let name = exp.config.effective_name();
    let v = sorted_asns(&exp.asn_list);
    let ghost s = v@;
    push_str(out, "xpl as-path-list ");
    push_str(out, name);
    let ghost mid = out@;
    let st = run_asns(out, &v, AsStyle::HuaweiXpl, (0, 0, true, false), name, exp.config.asnumber, exp.config.aswidth);
    if st.0 > 0 {
        push_str(out, ")$");
    }
    push_str(out, "\nend-list\n");
    assert(sorted_elems(s, exp.asn_list@) && out@ =~= start + "xpl as-path-list "@ + list_name(exp) + ({ let f = as_fold(s, AsStyle::HuaweiXpl, (0, 0, true, false), list_name(exp), exp.config.asnumber, exp.config.aswidth as int); f.1 + (if f.0.0 > 0 { ")$"@ } else { Seq::empty() }) + "\nend-list\n"@ }));
}

/// The text `print_huawei_oaspath` appends.
pub open spec fn print_huawei_oaspath_text(exp: &Expander) -> Seq<char> {
    let s = sorted_of(exp.asn_list@);
    "undo ip as-path-filter "@ + list_name(exp) + "\n"@
    + (if exp.config.asnumber > 0 && exp.asn_list@.contains(exp.config.asnumber) {
        "ip as-path-filter "@ + list_name(exp) + " permit ^(_"@ + dec(exp.config.asnumber as nat) + ")*$\n"@
    } else {
        Seq::empty()
    })
    + (if s.len() == 0 && !(exp.config.asnumber > 0 && exp.asn_list@.contains(exp.config.asnumber)) {
        "ip as-path-filter "@ + list_name(exp) + " deny .*\n"@
    } else {
        let f = as_fold(s, AsStyle::HuaweiOrigin, (0, 0, false, false), list_name(exp), exp.config.asnumber,
            exp.config.aswidth as int);
        f.1 + (if f.0.0 > 0 { ")$\n"@ } else { Seq::empty() })
    })
}

/// Huawei AS-path filter matching the origin AS: the own AS number alone
/// first (when it is in the set), then the others in groups.
pub fn print_huawei_oaspath(out: &mut String, exp: &Expander)
    requires
        exp.asn_list@.len() < 0x7fff_ff00,
    ensures
        final(out)@ == old(out)@ + print_huawei_oaspath_text(exp),
{
    let ghost start = out@;
    let name = exp.config.effective_name();
    let v = sorted_asns(&exp.asn_list);
    let ghost s = v@;
    let me = exp.config.asnumber;
    push_str(out, "undo ip as-path-filter ");
    push_str(out, name);
    push_str(out, "\n");
    let printed_self = me > 0 && exp.asn_list.contains(&me);
    if printed_self {
        push_str(out, "ip as-path-filter ");
        push_str(out, name);
        push_str(out, " permit ^(_");
        push_u32(out, me);
        push_str(out, ")*$\n");
    }
    let ghost mid = out@;
    if v.len() == 0 && !printed_self {
        push_str(out, "ip as-path-filter ");
        push_str(out, name);
        push_str(out, " deny .*\n");
        return;
    }
    let st = run_asns(out, &v, AsStyle::HuaweiOrigin, (0, 0, false, false), name, me, exp.config.aswidth);
    if st.0 > 0 {
        push_str(out, ")$\n");
    }
}

/// The text `print_huawei_xpl_oaspath` appends.
pub open spec fn print_huawei_xpl_oaspath_text(exp: &Expander) -> Seq<char> {
    let s = sorted_of(exp.asn_list@);
    "xpl as-path-list "@ + list_name(exp)
    + (if exp.config.asnumber > 0 && exp.asn_list@.contains(exp.config.asnumber) {
        "\n  regular ^(_"@ + dec(exp.config.asnumber as nat) + ")*$"@
    } else {
        Seq::empty()
    })
    + ({
        let f = as_fold(s, AsStyle::HuaweiXplOrigin,
            (0, 0, exp.config.asnumber > 0 && exp.asn_list@.contains(exp.config.asnumber), false),
            list_name(exp), exp.config.asnumber, exp.config.aswidth as int);
        f.1 + (if f.0.0 > 0 { ")$"@ } else { Seq::empty() })
    })
    + "\nend-list\n"@
}

/// Huawei XPL AS-path list matching the origin AS.
pub fn print_huawei_xpl_oaspath(out: &mut String, exp: &Expander)
    requires
        exp.asn_list@.len() < 0x7fff_ff00,
    ensures
        final(out)@ == old(out)@ + print_huawei_xpl_oaspath_text(exp),
{
    let name = exp.config.effective_name();
    let v = sorted_asns(&exp.asn_list);
    let ghost s = v@;
    let me = exp.config.asnumber;
    push_str(out, "xpl as-path-list ");
    push_str(out, name);
    let comma = me > 0 && exp.asn_list.contains(&me);
    if comma {
        push_str(out, "\n  regular ^(_");
        push_u32(out, me);
        push_str(out, ")*$");
    }
    let st = run_asns(out, &v, AsStyle::HuaweiXplOrigin, (0, 0, comma, false), name, me, exp.config.aswidth);
    if st.0 > 0 {
        push_str(out, ")$");
    }
    push_str(out, "\nend-list\n");
}

} // verus!
