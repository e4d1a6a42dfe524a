//! Command-line pieces of the filter generator: the default AS-path line
//! width, the Junos match string, and the objects to expand.

use vstd::prelude::*;
use vstd::string::*;
use crate::text::{chars_of, lowercase_of, push_char, push_str, str_eq};
use crate::ipv6::hex_digit_spec;
use crate::bgpq4::config::{asn_accepted, parse_asnumber, parse_asnumber_spec, ExpanderConfig, Generation, Vendor};
use crate::text::{opt_text, parse_i32_range, parse_i32_spec, parse_u32_range, parse_u32_spec, parse_u32_str};
use crate::bgpq4::expander::{asset_of, object_action, object_item_set, texts, Expander};
use crate::bgpq4::prefix::{parse_panics, prefix_parse, range_parse, range_prefix_part};

verus! {

/// How many AS numbers an AS-path or AS-list line holds unless `-W` says
/// otherwise, by what is generated and for which vendor; `None` keeps the
/// configured width.
pub open spec fn default_aswidth_spec(generation: Generation, vendor: Vendor) -> Option<i32> {
    match generation {
        Generation::AsPath => match vendor {
            Vendor::Arista | Vendor::Cisco | Vendor::Mikrotik6 | Vendor::Mikrotik7 => Some(4),
            Vendor::CiscoXr => Some(6),
            Vendor::Juniper | Vendor::Nokia | Vendor::NokiaMd | Vendor::NokiaSrl => Some(8),
            Vendor::Bird => Some(10),
            _ => None,
        },
        Generation::OasPath => match vendor {
            Vendor::Arista | Vendor::Cisco => Some(5),
            Vendor::CiscoXr => Some(7),
            Vendor::Juniper | Vendor::Nokia | Vendor::NokiaMd | Vendor::NokiaSrl => Some(8),
            _ => None,
        },
        Generation::AsList => if vendor == Vendor::Juniper {
            Some(8)
        } else {
            None
        },
        _ => None,
    }
}

pub fn default_aswidth(generation: Generation, vendor: Vendor) -> (w: Option<i32>)
    ensures
        w == default_aswidth_spec(generation, vendor),
{
    match generation {
        Generation::AsPath => match vendor {
            Vendor::Arista | Vendor::Cisco | Vendor::Mikrotik6 | Vendor::Mikrotik7 => Some(4),
            Vendor::CiscoXr => Some(6),
            Vendor::Juniper | Vendor::Nokia | Vendor::NokiaMd | Vendor::NokiaSrl => Some(8),
            Vendor::Bird => Some(10),
            _ => None,
        },
        Generation::OasPath => match vendor {
            Vendor::Arista | Vendor::Cisco => Some(5),
            Vendor::CiscoXr => Some(7),
            Vendor::Juniper | Vendor::Nokia | Vendor::NokiaMd | Vendor::NokiaSrl => Some(8),
            _ => None,
        },
        Generation::AsList => if vendor == Vendor::Juniper {
            Some(8)
        } else {
            None
        },
        _ => None,
    }
}

/// The match string with its escapes replaced: a backslash before a
/// newline, 'r', 't' or another backslash stands for a newline, carriage
/// return, tab or backslash; a backslash at the very end stays. Any other
/// escaped character is refused, and returned.
pub open spec fn match_text(s: Seq<char>, i: int) -> Result<Seq<char>, char>
    decreases s.len() - i,
{
    if i < 0 || i >= s.len() {
        Ok(Seq::empty())
    } else if s[i] == '\\' && i + 1 < s.len() {
        let c = s[i + 1];
        let e = if c == '\n' {
            Some('\n')
        } else if c == 'r' {
            Some('\r')
        } else if c == 't' {
            Some('\t')
        } else if c == '\\' {
            Some('\\')
        } else {
            None
        };
        match e {
            Some(x) => match match_text(s, i + 2) {
                Ok(rest) => Ok(seq![x] + rest),
                Err(b) => Err(b),
            },
            None => Err(c),
        }
    } else {
        match match_text(s, i + 1) {
            Ok(rest) => Ok(seq![s[i]] + rest),
            Err(b) => Err(b),
        }
    }
}

/// The message for an unsupported escape: the character, its code
/// truncated to a byte in two hexadecimal digits, and the whole string.
pub open spec fn escape_refused_text(c: char, s: Seq<char>) -> Seq<char> {
    let b = (c as u32) % 256;
    "Unsupported escape \\"@ + seq![c] + " (0x"@ + seq![hex_digit_spec((b / 16) as nat), hex_digit_spec((b % 16) as nat)]
        + ") in '"@ + s + "'"@
}

/// What the text of the accumulated result and the rest give together.
pub open spec fn joined(done: Seq<char>, rest: Result<Seq<char>, char>) -> Result<Seq<char>, char> {
    match rest {
        Ok(r) => Ok(done + r),
        Err(c) => Err(c),
    }
}

/// Replaces the escapes of a Junos match string (see `match_text`); an
/// unsupported escape gives its message.
pub fn process_match_string(s: &str) -> (r: Result<String, String>)
    ensures
        match (r, match_text(s@, 0)) {
            (Ok(t), Ok(u)) => t@ == u,
            (Err(m), Err(c)) => m@ == escape_refused_text(c, s@),
            _ => false,
        },
{
    let v = chars_of(s);
    let n = v.len();
    let mut out = String::new();
    let mut i: usize = 0;
    assert(out@ + match_text(s@, 0)->Ok_0 =~= match_text(s@, 0)->Ok_0);
    while i < n
        invariant
            i <= n,
            n == v@.len(),
            v@ == s@,
            match_text(s@, 0) == joined(out@, match_text(s@, i as int)),
        decreases n - i,
    {
        if v[i] == '\\' && i + 1 < n {
            let c = v[i + 1];
            let x = if c == '\n' {
                '\n'
            } else if c == 'r' {
                '\r'
            } else if c == 't' {
                '\t'
            } else if c == '\\' {
                '\\'
            } else {
                let b: u32 = (c as u32) % 256;
                let mut m = String::from_str("Unsupported escape \\");
                push_char(&mut m, c);
                push_str(&mut m, " (0x");
                push_char(&mut m, crate::ipv6::hex_digit((b / 16) as u64));
                push_char(&mut m, crate::ipv6::hex_digit((b % 16) as u64));
                push_str(&mut m, ") in '");
                push_str(&mut m, s);
                push_str(&mut m, "'");
                assert(m@ =~= escape_refused_text(c, s@));
                return Err(m);
            };
            let ghost before = out@;
            push_char(&mut out, x);
            proof {
                let rest = match_text(s@, i + 2);
                if rest is Ok {
                    assert(before + (seq![x] + rest->Ok_0) =~= out@ + rest->Ok_0);
                }
            }
            i = i + 2;
        } else {
            let ghost before = out@;
            push_char(&mut out, v[i]);
            proof {
                let rest = match_text(s@, i + 1);
                if rest is Ok {
                    assert(before + (seq![v@[i as int]] + rest->Ok_0) =~= out@ + rest->Ok_0);
                }
            }
            i = i + 1;
        }
    }
    assert(out@ + Seq::<char>::empty() =~= out@);
    Ok(out)
}

/// Index of the first "EXCEPT" among the objects (their number when there
/// is none): the objects after it name what expansion stops at.
pub open spec fn except_at(objs: Seq<Seq<char>>, i: int) -> int
    decreases objs.len() - i,
{
    if i < 0 || i >= objs.len() {
        objs.len() as int
    } else if objs[i] == "EXCEPT"@ {
        i
    } else {
        except_at(objs, i + 1)
    }
}

/// An object can be added without a fault (see `Expander::add_object`).
pub open spec fn object_ok(obj: Seq<char>) -> bool {
    &&& (object_action(obj) == 4 ==> !parse_panics(0, asset_of(obj)))
    &&& (object_action(obj) == 5 ==> !parse_panics(0, range_prefix_part(asset_of(obj))))
}

/// The expander takes the object: anything but a prefix or range, or a
/// prefix of the configured family no longer than the maximum, or a range
/// that reads.
pub open spec fn object_taken(obj: Seq<char>, family: u8, maxlen: u32) -> bool {
    if object_action(obj) == 4 {
        match prefix_parse(0, asset_of(obj)) {
            Some((f, ml, _a)) => f == family && !(maxlen > 0 && ml > maxlen),
            None => false,
        }
    } else if object_action(obj) == 5 {
        range_parse(0, maxlen, asset_of(obj)) is Some
    } else {
        true
    }
}

/// The message for a refused prefix or range.
pub open spec fn object_refused_text(obj: Seq<char>) -> Seq<char> {
    if object_action(obj) == 4 {
        "Unable to add prefix "@ + asset_of(obj) + " (bad prefix or address-family)"@
    } else {
        "Unable to add prefix-range "@ + asset_of(obj) + " (bad range or address-family)"@
    }
}

proof fn lemma_except_at(objs: Seq<Seq<char>>, i: int)
    requires
        0 <= i <= objs.len(),
    ensures
        i <= except_at(objs, i) <= objs.len(),
        except_at(objs, i) < objs.len() ==> objs[except_at(objs, i)] == "EXCEPT"@,
        forall|k: int| i <= k < except_at(objs, i) ==> objs[k] != "EXCEPT"@,
    decreases objs.len() - i,
{
    if i < objs.len() && objs[i] != "EXCEPT"@ {
        lemma_except_at(objs, i + 1);
    }
}

/// The object alone when `add_object` files it under `kind` (1 for an
/// AS-set, 2 for a route-set), else nothing.
pub open spec fn kind_of_one(obj: Seq<char>, kind: u8) -> Seq<Seq<char>> {
    if object_action(obj) == kind { seq![obj] } else { Seq::empty() }
}

/// The AS numbers after `add_object` took `obj`.
pub open spec fn asn_of_one(set: Set<u32>, obj: Seq<char>, special: bool) -> Set<u32> {
    if object_action(obj) == 3 {
        match asn_accepted(asset_of(obj), special) {
            Some(a) => set.insert(a),
            None => set,
        }
    } else {
        set
    }
}

/// The objects among the first `n` that `add_object` files under `kind`,
/// in order.
pub open spec fn kind_among(t: Seq<Seq<char>>, n: int, kind: u8) -> Seq<Seq<char>>
    decreases n,
{
    if n <= 0 {
        Seq::empty()
    } else {
        kind_among(t, n - 1, kind) + kind_of_one(t[n - 1], kind)
    }
}

/// The AS numbers after the first `n` objects were added.
pub open spec fn asns_among(set: Set<u32>, t: Seq<Seq<char>>, n: int, special: bool) -> Set<u32>
    decreases n,
{
    if n <= 0 {
        set
    } else {
        asn_of_one(asns_among(set, t, n - 1, special), t[n - 1], special)
    }
}

/// The stop list after the lower-cased objects `from..to` were put on it,
/// each once; a further "EXCEPT" is passed over.
pub open spec fn stops_among(list: Seq<Seq<char>>, t: Seq<Seq<char>>, from: int, to: int) -> Seq<Seq<char>>
    decreases to - from,
{
    if to <= from {
        list
    } else {
        let prev = stops_among(list, t, from, to - 1);
        let l = lowercase_of(t[to - 1]);
        if t[to - 1] == "EXCEPT"@ || prev.contains(l) { prev } else { prev.push(l) }
    }
}

/// Adds one object to expand; a refused prefix or range gives its message.
fn add_one(exp: &mut Expander, obj: &str) -> (r: Result<(), String>)
    requires
        old(exp).wf(),
        object_ok(obj@),
    ensures
        final(exp).wf(),
        final(exp).config.family == old(exp).config.family,
        final(exp).config.maxlen == old(exp).config.maxlen,
        final(exp).config.expand_special_asn == old(exp).config.expand_special_asn,
        r is Ok <==> object_taken(obj@, old(exp).config.family, old(exp).config.maxlen),
        r matches Err(m) ==> m@ == object_refused_text(obj@),
        r is Ok ==> texts(final(exp).macroses@) == texts(old(exp).macroses@) + kind_of_one(obj@, 1),
        r is Ok ==> texts(final(exp).rsets@) == texts(old(exp).rsets@) + kind_of_one(obj@, 2),
        r is Ok ==> final(exp).asn_list@ == asn_of_one(old(exp).asn_list@, obj@, old(exp).config.expand_special_asn),
        final(exp).stoplist@ == old(exp).stoplist@,
        final(exp).tree.family_view() == old(exp).tree.family_view(),
        old(exp).tree.clean_nodes() ==> final(exp).tree.clean_nodes() && final(exp).tree.listed()
            == old(exp).tree.listed().union(object_item_set(old(exp).config.family, old(exp).config.maxlen,
            old(exp).tree.family_view(), obj@)),
{
    if exp.add_object(obj) {
        assert(texts(exp.macroses@) =~= texts(old(exp).macroses@) + kind_of_one(obj@, 1));
        assert(texts(exp.rsets@) =~= texts(old(exp).rsets@) + kind_of_one(obj@, 2));
        return Ok(());
    }
    let eff = crate::bgpq4::expander::get_asset(obj);
    let ev = chars_of(eff.as_str());
    proof { crate::text::lemma_contains_find(ev@, '^'); }
    if crate::text::find_char(&ev, '^', 0) >= ev.len() {
        let mut m = String::from_str("Unable to add prefix ");
        push_str(&mut m, eff.as_str());
        push_str(&mut m, " (bad prefix or address-family)");
        Err(m)
    } else {
        let mut m = String::from_str("Unable to add prefix-range ");
        push_str(&mut m, eff.as_str());
        push_str(&mut m, " (bad range or address-family)");
        Err(m)
    }
}

/// What adding the first `k` objects lists.
pub open spec fn objects_set(cfg_fam: u8, maxlen: u32, tree_fam: u8, t: Seq<Seq<char>>, k: int) -> Set<(u8, u32, Seq<u8>)>
    decreases k,
{
    if k <= 0 {
        Set::empty()
    } else {
        objects_set(cfg_fam, maxlen, tree_fam, t, k - 1).union(object_item_set(cfg_fam, maxlen, tree_fam, t[k - 1]))
    }
}

/// The lists of the expander after the first `n` objects (the objects
/// before `ex` are added, those after it stopped).
#[verifier::opaque]
pub open spec fn lists_after(
    e: Expander,
    t: Seq<Seq<char>>,
    n: int,
    ex: int,
    m0: Seq<Seq<char>>,
    r0: Seq<Seq<char>>,
    a0: Set<u32>,
    s0: Seq<Seq<char>>,
    special: bool,
) -> bool {
    let k = if n <= ex { n } else { ex };
    &&& texts(e.macroses@) == m0 + kind_among(t, k, 1)
    &&& texts(e.rsets@) == r0 + kind_among(t, k, 2)
    &&& e.asn_list@ == asns_among(a0, t, k, special)
    &&& texts(e.stoplist@) == stops_among(s0, t, ex + 1, n)
}

proof fn lemma_lists_start(e: Expander, t: Seq<Seq<char>>, ex: int, special: bool)
    requires
        0 <= ex,
    ensures
        lists_after(e, t, 0, ex, texts(e.macroses@), texts(e.rsets@), e.asn_list@, texts(e.stoplist@), special),
{
    reveal(lists_after);
    assert(texts(e.macroses@) + kind_among(t, 0, 1) =~= texts(e.macroses@));
    assert(texts(e.rsets@) + kind_among(t, 0, 2) =~= texts(e.rsets@));
}

proof fn lemma_lists_except(e: Expander, t: Seq<Seq<char>>, n: int, ex: int, m0: Seq<Seq<char>>, r0: Seq<Seq<char>>, a0: Set<u32>, s0: Seq<Seq<char>>, special: bool)
    requires
        ex <= n < t.len(),
        t[n] == "EXCEPT"@,
        lists_after(e, t, n, ex, m0, r0, a0, s0, special),
    ensures
        lists_after(e, t, n + 1, ex, m0, r0, a0, s0, special),
{
    reveal(lists_after);
}

proof fn lemma_lists_stop(e1: Expander, e2: Expander, t: Seq<Seq<char>>, n: int, ex: int, m0: Seq<Seq<char>>, r0: Seq<Seq<char>>, a0: Set<u32>, s0: Seq<Seq<char>>, special: bool)
    requires
        ex < n < t.len(),
        t[n] != "EXCEPT"@,
        lists_after(e1, t, n, ex, m0, r0, a0, s0, special),
        texts(e2.stoplist@) == (if !texts(e1.stoplist@).contains(lowercase_of(t[n])) {
            texts(e1.stoplist@).push(lowercase_of(t[n]))
        } else {
            texts(e1.stoplist@)
        }),
        e2.macroses@ == e1.macroses@,
        e2.rsets@ == e1.rsets@,
        e2.asn_list@ == e1.asn_list@,
    ensures
        lists_after(e2, t, n + 1, ex, m0, r0, a0, s0, special),
{
    reveal(lists_after);
}

proof fn lemma_lists_add(e1: Expander, e2: Expander, t: Seq<Seq<char>>, n: int, ex: int, m0: Seq<Seq<char>>, r0: Seq<Seq<char>>, a0: Set<u32>, s0: Seq<Seq<char>>, special: bool)
    requires
        0 <= n < ex,
        n < t.len(),
        lists_after(e1, t, n, ex, m0, r0, a0, s0, special),
        texts(e2.macroses@) == texts(e1.macroses@) + kind_of_one(t[n], 1),
        texts(e2.rsets@) == texts(e1.rsets@) + kind_of_one(t[n], 2),
        e2.asn_list@ == asn_of_one(e1.asn_list@, t[n], special),
        e2.stoplist@ == e1.stoplist@,
    ensures
        lists_after(e2, t, n + 1, ex, m0, r0, a0, s0, special),
{
    reveal(lists_after);
    assert(m0 + kind_among(t, n + 1, 1) =~= m0 + kind_among(t, n, 1) + kind_of_one(t[n], 1));
    assert(r0 + kind_among(t, n + 1, 2) =~= r0 + kind_among(t, n, 2) + kind_of_one(t[n], 2));
}

proof fn lemma_lists_end(e: Expander, t: Seq<Seq<char>>, ex: int, m0: Seq<Seq<char>>, r0: Seq<Seq<char>>, a0: Set<u32>, s0: Seq<Seq<char>>, special: bool)
    requires
        0 <= ex <= t.len(),
        lists_after(e, t, t.len() as int, ex, m0, r0, a0, s0, special),
    ensures
        texts(e.macroses@) == m0 + kind_among(t, ex, 1),
        texts(e.rsets@) == r0 + kind_among(t, ex, 2),
        e.asn_list@ == asns_among(a0, t, ex, special),
        texts(e.stoplist@) == stops_among(s0, t, ex + 1, t.len() as int),
{
    reveal(lists_after);
}

/// Adds the objects of the command line: those before "EXCEPT" are
/// expanded, those after it are put on the stop list. The first prefix or
/// range that is refused stops the adding, with its message.
#[verifier::spinoff_prover]
#[verifier::rlimit(100)]
pub fn add_objects(exp: &mut Expander, objs: &Vec<String>) -> (r: Result<(), String>)
    requires
        old(exp).wf(),
        forall|i: int| 0 <= i < except_at(texts(objs@), 0) ==> object_ok(#[trigger] texts(objs@)[i]),
    ensures
        final(exp).wf(),
        final(exp).config.family == old(exp).config.family,
        final(exp).config.maxlen == old(exp).config.maxlen,
        r is Ok <==> forall|i: int| 0 <= i < except_at(texts(objs@), 0) ==> object_taken(
            #[trigger] texts(objs@)[i],
            old(exp).config.family,
            old(exp).config.maxlen,
        ),
        r matches Err(m) ==> exists|i: int| 0 <= i < except_at(texts(objs@), 0) && !object_taken(
            #[trigger] texts(objs@)[i],
            old(exp).config.family,
            old(exp).config.maxlen,
        ) && m@ == object_refused_text(texts(objs@)[i]),
        r is Ok ==> texts(final(exp).macroses@) == texts(old(exp).macroses@) + kind_among(texts(objs@), except_at(texts(objs@), 0), 1),
        r is Ok ==> texts(final(exp).rsets@) == texts(old(exp).rsets@) + kind_among(texts(objs@), except_at(texts(objs@), 0), 2),
        r is Ok ==> final(exp).asn_list@ == asns_among(
            old(exp).asn_list@,
            texts(objs@),
            except_at(texts(objs@), 0),
            old(exp).config.expand_special_asn,
        ),
        r is Ok ==> texts(final(exp).stoplist@) == stops_among(
            texts(old(exp).stoplist@),
            texts(objs@),
            except_at(texts(objs@), 0) + 1,
            texts(objs@).len() as int,
        ),
        r is Ok && old(exp).tree.clean_nodes() ==> final(exp).tree.clean_nodes() && final(exp).tree.listed()
            == old(exp).tree.listed().union(objects_set(old(exp).config.family, old(exp).config.maxlen,
            old(exp).tree.family_view(), texts(objs@), except_at(texts(objs@), 0))),
{
    let ghost t = texts(objs@);
    let ghost m0 = texts(exp.macroses@);
    let ghost r0 = texts(exp.rsets@);
    let ghost a0 = exp.asn_list@;
    let ghost s0 = texts(exp.stoplist@);
    let ghost special = exp.config.expand_special_asn;
    let ghost family = exp.config.family;
    let ghost maxlen = exp.config.maxlen;
    let ghost ex = except_at(t, 0);
    proof {
        lemma_except_at(t, 0);
        lemma_lists_start(*exp, t, ex, special);
    }
    proof { assert(exp.tree.listed().union(Set::empty()) =~= exp.tree.listed()); }
    let mut exceptmode = false;
    let mut i: usize = 0;
    while i < objs.len()
        invariant
            i <= objs@.len(),
            t == texts(objs@),
            t.len() == objs@.len(),
            ex == except_at(t, 0),
            0 <= ex <= t.len(),
            ex < t.len() ==> t[ex] == "EXCEPT"@,
            forall|k: int| 0 <= k < ex ==> t[k] != "EXCEPT"@,
            exp.wf(),
            exp.config.family == family,
            exp.config.maxlen == maxlen,
            family == old(exp).config.family,
            maxlen == old(exp).config.maxlen,
            forall|k: int| 0 <= k < ex ==> object_ok(#[trigger] t[k]),
            exceptmode == (ex < i),
            forall|k: int| 0 <= k < i && k < ex ==> object_taken(#[trigger] t[k], family, maxlen),
            exp.config.expand_special_asn == special,
            m0 == texts(old(exp).macroses@),
            r0 == texts(old(exp).rsets@),
            a0 == old(exp).asn_list@,
            s0 == texts(old(exp).stoplist@),
            special == old(exp).config.expand_special_asn,
            lists_after(*exp, t, i as int, ex, m0, r0, a0, s0, special),
            exp.tree.family_view() == old(exp).tree.family_view(),
            old(exp).tree.clean_nodes() ==> exp.tree.clean_nodes() && exp.tree.listed() == old(exp).tree.listed().union(
                objects_set(family, maxlen, old(exp).tree.family_view(), t, if (i as int) <= ex { i as int } else { ex })),
        decreases objs@.len() - i,
    {
        let obj = objs[i].as_str();
        assert(t[i as int] == obj@);
        let ghost e1 = *exp;
        if str_eq(obj, "EXCEPT") {
            exceptmode = true;
            proof { lemma_lists_except(*exp, t, i as int, ex, m0, r0, a0, s0, special); }
        } else if exceptmode {
            exp.add_stop(obj);
            proof { lemma_lists_stop(e1, *exp, t, i as int, ex, m0, r0, a0, s0, special); }
        } else {
            match add_one(exp, obj) {
                Ok(()) => {
                    proof {
                        lemma_lists_add(e1, *exp, t, i as int, ex, m0, r0, a0, s0, special);
                        if old(exp).tree.clean_nodes() {
                            assert(exp.tree.listed() =~= old(exp).tree.listed().union(
                                objects_set(family, maxlen, old(exp).tree.family_view(), t, i + 1)));
                        }
                    }
                },
                Err(m) => {
                    assert(!object_taken(t[i as int], family, maxlen));
                    return Err(m);
                },
            }
        }
        i = i + 1;
    }
    proof { lemma_lists_end(*exp, t, ex, m0, r0, a0, s0, special); }
    Ok(())
}

/// The settings a command line gives, as plain values.
#[verifier::ext_equal]
pub struct Opts {
    pub family: u8,
    pub maxlen: u32,
    pub asnumber: u32,
    pub aggregate: bool,
    pub debug_aggregation: int,
    pub debug_expander: int,
    pub vendor: Vendor,
    pub generation: Generation,
    pub sequence: i32,
    pub format: Option<Seq<char>>,
    pub server: Seq<char>,
    pub port: u16,
    pub refine: u32,
    pub refine_low: u32,
    pub name: Seq<char>,
    pub maxdepth: u32,
    pub match_expr: Option<Seq<char>>,
    pub expand_special_asn: bool,
    pub pipelining: bool,
    pub sources: Seq<char>,
    pub aswidth: i32,
    pub width_set: bool,
    pub validate_asns: bool,
    pub generation_set: bool,
    pub af_set: bool,
    pub objects: Seq<Seq<char>>,
}

/// How a command line ends when it does not run an expansion.
pub enum CliStop {
    Version,
    Usage,
    /// Two options that select what is generated.
    Exclusive,
    /// Two options that select the vendor.
    VendorExclusive,
    Fatal(Seq<char>),
}

/// The settings before any option: the defaults of the configuration for
/// IPv4.
pub open spec fn initial_opts() -> Opts {
    Opts {
        family: 2,
        maxlen: 32,
        asnumber: 0,
        aggregate: false,
        debug_aggregation: 0,
        debug_expander: 0,
        vendor: Vendor::Cisco,
        generation: Generation::PrefixList,
        sequence: 0,
        format: None,
        server: "rr.ntt.net"@,
        port: 43,
        refine: 0,
        refine_low: 0,
        name: "NN"@,
        maxdepth: 0,
        match_expr: None,
        expand_special_asn: false,
        pipelining: true,
        sources: Seq::empty(),
        aswidth: 8,
        width_set: false,
        validate_asns: false,
        generation_set: false,
        af_set: false,
        objects: Seq::empty(),
    }
}

/// The vendor that a flag selects.
pub open spec fn vendor_of_flag(a: Seq<char>) -> Option<Vendor> {
    if a == "-b"@ {
        Some(Vendor::Bird)
    } else if a == "-B"@ {
        Some(Vendor::OpenBgpd)
    } else if a == "-J"@ {
        Some(Vendor::Juniper)
    } else if a == "-j"@ {
        Some(Vendor::Json)
    } else if a == "-K"@ {
        Some(Vendor::Mikrotik6)
    } else if a == "-K7"@ {
        Some(Vendor::Mikrotik7)
    } else if a == "-N"@ {
        Some(Vendor::Nokia)
    } else if a == "-n"@ {
        Some(Vendor::NokiaMd)
    } else if a == "-n2"@ {
        Some(Vendor::NokiaSrl)
    } else if a == "-U"@ {
        Some(Vendor::Huawei)
    } else if a == "-u"@ {
        Some(Vendor::HuaweiXpl)
    } else if a == "-X"@ {
        Some(Vendor::CiscoXr)
    } else {
        None
    }
}

/// What a flag without an argument selects to generate.
pub open spec fn generation_of_flag(a: Seq<char>) -> Option<Generation> {
    if a == "-E"@ {
        Some(Generation::Eacl)
    } else if a == "-t"@ {
        Some(Generation::Asset)
    } else if a == "-z"@ {
        Some(Generation::RouteFilterList)
    } else {
        None
    }
}

/// What a flag followed by an AS number selects to generate.
pub open spec fn generation_of_asn_flag(a: Seq<char>) -> Option<Generation> {
    if a == "-f"@ {
        Some(Generation::AsPath)
    } else if a == "-G"@ {
        Some(Generation::OasPath)
    } else if a == "-H"@ {
        Some(Generation::AsList)
    } else {
        None
    }
}

/// One step of reading the command line: on to the next argument with
/// new settings, on to the objects after "--", or the end.
pub enum CliStep {
    Go(Opts, int),
    Rest(Opts, int),
    End(CliStop),
}

/// The text after the first two characters.
pub open spec fn after2(a: Seq<char>) -> Seq<char> {
    a.subrange(2, a.len() as int)
}

/// `a` starts with '-' and then `c`.
pub open spec fn dash_prefix(a: Seq<char>, c: char) -> bool {
    a.len() >= 2 && a[0] == '-' && a[1] == c
}

/// There is no argument after the option at `i`.
pub open spec fn missing(args: Seq<Seq<char>>, i: int) -> bool {
    i + 1 >= args.len()
}

/// The options that take no argument.
pub open spec fn plain_flag(a: Seq<char>, o: Opts, i: int) -> Option<CliStep> {
    if a == "-3"@ {
        Some(CliStep::Go(o, i + 1))
    } else if a == "-4"@ {
        Some(if o.af_set && o.family == 10 {
            CliStep::End(CliStop::Fatal("-4 and -6 are mutually exclusive"@))
        } else {
            CliStep::Go(Opts { af_set: true, ..o }, i + 1)
        })
    } else if a == "-6"@ {
        Some(if o.af_set && o.family == 2 {
            CliStep::End(CliStop::Fatal("-4 and -6 are mutually exclusive"@))
        } else {
            CliStep::Go(Opts { family: 10, maxlen: 128, af_set: true, ..o }, i + 1)
        })
    } else if a == "-A"@ {
        Some(CliStep::Go(
            Opts {
                debug_aggregation: if o.aggregate { o.debug_aggregation + 1 } else { o.debug_aggregation },
                aggregate: true,
                ..o
            },
            i + 1,
        ))
    } else if vendor_of_flag(a) is Some {
        Some(if o.vendor != Vendor::Cisco {
            CliStep::End(CliStop::VendorExclusive)
        } else {
            CliStep::Go(Opts { vendor: vendor_of_flag(a)->Some_0, ..o }, i + 1)
        })
    } else if a == "-e"@ {
        Some(if o.vendor != Vendor::Cisco {
            CliStep::End(CliStop::VendorExclusive)
        } else {
            CliStep::Go(Opts { vendor: Vendor::Arista, sequence: 1, ..o }, i + 1)
        })
    } else if a == "-d"@ {
        Some(CliStep::Go(Opts { debug_expander: o.debug_expander + 1, ..o }, i + 1))
    } else if generation_of_flag(a) is Some {
        Some(if o.generation_set {
            CliStep::End(CliStop::Exclusive)
        } else {
            CliStep::Go(Opts { generation: generation_of_flag(a)->Some_0, generation_set: true, ..o }, i + 1)
        })
    } else if a == "-p"@ {
        Some(CliStep::Go(Opts { expand_special_asn: true, ..o }, i + 1))
    } else if a == "-T"@ {
        Some(CliStep::Go(Opts { pipelining: false, ..o }, i + 1))
    } else if a == "-s"@ {
        Some(CliStep::Go(Opts { sequence: 1, ..o }, i + 1))
    } else if a == "-w"@ {
        Some(CliStep::Go(Opts { validate_asns: true, ..o }, i + 1))
    } else if a == "-v"@ {
        Some(CliStep::End(CliStop::Version))
    } else {
        None
    }
}

/// What `-h host[:port]` sets.
pub open spec fn host_step(h: Seq<char>, o: Opts, i: int) -> CliStep {
    if h.contains(':') {
        let c = crate::text::find_char_from(h, ':', 0);
        let port_text = h.subrange(c + 1, h.len() as int);
        match parse_u32_spec(port_text) {
            Some(p) => if p <= 65535 {
                CliStep::Go(Opts { server: h.subrange(0, c), port: p as u16, ..o }, i + 2)
            } else {
                CliStep::End(CliStop::Fatal("Invalid port: "@ + port_text))
            },
            None => CliStep::End(CliStop::Fatal("Invalid port: "@ + port_text)),
        }
    } else {
        CliStep::Go(Opts { server: h, ..o }, i + 2)
    }
}

/// A refine length: a positive number, or the message naming it.
pub open spec fn refine_step(v: Seq<char>, what: Seq<char>) -> Result<u32, CliStop> {
    match parse_u32_spec(v) {
        Some(n) => if n == 0 {
            Err(CliStop::Fatal(what + v))
        } else {
            Ok(n)
        },
        None => Err(CliStop::Fatal(what + v)),
    }
}

/// The options that take the next argument.
pub open spec fn arg_option(args: Seq<Seq<char>>, i: int, o: Opts) -> Option<CliStep> {
    match number_option(args, i, o) {
        Some(st) => Some(st),
        None => text_option(args, i, o),
    }
}

/// The options whose argument is an AS number or a host.
pub open spec fn number_option(args: Seq<Seq<char>>, i: int, o: Opts) -> Option<CliStep> {
    let a = args[i];
    if a == "-a"@ {
        Some(if missing(args, i) {
            CliStep::End(CliStop::Fatal("Missing argument for -a"@))
        } else {
            match parse_asnumber_spec(args[i + 1]) {
                Some(n) => CliStep::Go(Opts { asnumber: n, ..o }, i + 2),
                None => CliStep::End(CliStop::Fatal("Invalid AS number: "@ + args[i + 1])),
            }
        })
    } else if a == "-F"@ {
        Some(if o.generation_set {
            CliStep::End(CliStop::Exclusive)
        } else if missing(args, i) {
            CliStep::End(CliStop::Fatal("-F requires an argument"@))
        } else {
            CliStep::Go(Opts { vendor: Vendor::Format, format: Some(args[i + 1]), ..o }, i + 2)
        })
    } else if generation_of_asn_flag(a) is Some {
        Some(if o.generation_set {
            CliStep::End(CliStop::Exclusive)
        } else if missing(args, i) {
            CliStep::End(CliStop::Fatal(a + " requires an argument"@))
        } else {
            match parse_asnumber_spec(args[i + 1]) {
                Some(n) => CliStep::Go(
                    Opts { generation: generation_of_asn_flag(a)->Some_0, generation_set: true, asnumber: n, ..o },
                    i + 2,
                ),
                None => CliStep::End(CliStop::Fatal("Invalid AS number: "@ + args[i + 1])),
            }
        })
    } else if a == "-h"@ {
        Some(if missing(args, i) {
            CliStep::End(CliStop::Fatal("-h requires an argument"@))
        } else {
            host_step(args[i + 1], o, i)
        })
    } else {
        None
    }
}

/// The options whose argument is a length or a text.
pub open spec fn text_option(args: Seq<Seq<char>>, i: int, o: Opts) -> Option<CliStep> {
    let a = args[i];
    if a == "-r"@ {
        Some(if missing(args, i) {
            CliStep::End(CliStop::Fatal("Missing argument for -r"@))
        } else {
            match refine_step(args[i + 1], "Invalid refineLow value: "@) {
                Ok(v) => CliStep::Go(Opts { refine_low: v, ..o }, i + 2),
                Err(e) => CliStep::End(e),
            }
        })
    } else if a == "-R"@ {
        Some(if missing(args, i) {
            CliStep::End(CliStop::Fatal("Missing argument for -R"@))
        } else {
            match refine_step(args[i + 1], "Invalid refine length: "@) {
                Ok(v) => CliStep::Go(Opts { refine: v, ..o }, i + 2),
                Err(e) => CliStep::End(e),
            }
        })
    } else if a == "-l"@ {
        Some(if missing(args, i) {
            CliStep::End(CliStop::Fatal("-l requires an argument"@))
        } else {
            CliStep::Go(Opts { name: args[i + 1], ..o }, i + 2)
        })
    } else if a == "-M"@ {
        Some(if missing(args, i) {
            CliStep::End(CliStop::Fatal("-M requires an argument"@))
        } else {
            match match_text(args[i + 1], 0) {
                Ok(t) => CliStep::Go(Opts { match_expr: Some(t), ..o }, i + 2),
                Err(c) => CliStep::End(CliStop::Fatal(escape_refused_text(c, args[i + 1]))),
            }
        })
    } else if a == "-S"@ {
        Some(if missing(args, i) {
            CliStep::End(CliStop::Fatal("-S requires an argument"@))
        } else {
            CliStep::Go(Opts { sources: args[i + 1], ..o }, i + 2)
        })
    } else {
        None
    }
}

/// The options written with their value in the same word (`-L`, `-m`,
/// `-W`); any other word is an object.
pub open spec fn prefix_option(a: Seq<char>, o: Opts, i: int) -> CliStep {
    if dash_prefix(a, 'L') {
        match parse_u32_spec(after2(a)) {
            Some(v) => if v < 1 {
                CliStep::End(CliStop::Fatal("Invalid maximum recursion (-L): "@ + after2(a)))
            } else {
                CliStep::Go(Opts { maxdepth: v, ..o }, i + 1)
            },
            None => CliStep::End(CliStop::Fatal("Invalid maximum recursion (-L): "@ + after2(a))),
        }
    } else if dash_prefix(a, 'm') {
        match parse_u32_spec(after2(a)) {
            Some(v) => if v == 0 {
                CliStep::End(CliStop::Fatal("Invalid maxlen (-m): "@ + after2(a)))
            } else {
                CliStep::Go(Opts { maxlen: v, ..o }, i + 1)
            },
            None => CliStep::End(CliStop::Fatal("Invalid maxlen (-m): "@ + after2(a))),
        }
    } else if dash_prefix(a, 'W') {
        let w: int = match parse_i32_spec(after2(a)) {
            Some(v) => v,
            None => 0,
        };
        if w < 0 {
            CliStep::End(CliStop::Fatal("Invalid as-width: "@ + after2(a)))
        } else {
            CliStep::Go(Opts { aswidth: w as i32, width_set: true, ..o }, i + 1)
        }
    } else {
        CliStep::Go(Opts { objects: o.objects.push(a), ..o }, i + 1)
    }
}

/// Reads the argument at `i`: "--" ends the options; exact options come
/// first, then those that carry their value.
pub open spec fn opt_step(args: Seq<Seq<char>>, i: int, o: Opts) -> CliStep {
    let a = args[i];
    if a == "--"@ {
        CliStep::Rest(o, i + 1)
    } else {
        match plain_flag(a, o, i) {
            Some(st) => st,
            None => match arg_option(args, i, o) {
                Some(st) => st,
                None => prefix_option(a, o, i),
            },
        }
    }
}

/// How reading the arguments from `i` on ends: the settings after the
/// last one, or a stop.
pub enum CliScan {
    Done(Opts),
    Stopped(CliStop),
}

/// Reads the arguments from `i` on; after "--" every argument is an
/// object.
pub open spec fn cli_scan(args: Seq<Seq<char>>, i: int, o: Opts) -> CliScan
    decreases args.len() - i,
{
    if i < 0 || i >= args.len() {
        CliScan::Done(o)
    } else {
        match opt_step(args, i, o) {
            CliStep::Go(o2, j) => if j > i {
                cli_scan(args, j, o2)
            } else {
                CliScan::Done(o2)
            },
            CliStep::Rest(o2, j) => CliScan::Done(Opts { objects: o2.objects + args.subrange(j, args.len() as int), ..o2 }),
            CliStep::End(e) => CliScan::Stopped(e),
        }
    }
}

/// What a command line (the program name first) asks for: the settings,
/// with the line width defaulting by what is generated and for which
/// vendor unless `-W` gave one, and at least one object; or a stop.
pub open spec fn cli_spec(args: Seq<Seq<char>>) -> Result<Opts, CliStop> {
    cli_finish(cli_scan(args, 1, initial_opts()))
}

/// The line width defaulted and at least one object asked for.
pub open spec fn cli_finish(sc: CliScan) -> Result<Opts, CliStop> {
    match sc {
        CliScan::Done(o) => {
            let o2 = if !o.width_set {
                match default_aswidth_spec(o.generation, o.vendor) {
                    Some(w) => Opts { aswidth: w, ..o },
                    None => o,
                }
            } else {
                o
            };
            if o2.objects.len() == 0 {
                Err(CliStop::Usage)
            } else {
                Ok(o2)
            }
        },
        CliScan::Stopped(e) => Err(e),
    }
}

/// The settings being read.
pub struct CliState {
    pub config: ExpanderConfig,
    pub aggregate: bool,
    pub refine: u32,
    pub refine_low: u32,
    pub width_set: bool,
    pub generation_set: bool,
    pub af_set: bool,
    pub objects: Vec<String>,
}

/// The settings being read, as plain values.
pub open spec fn opts_of(st: &CliState) -> Opts {
    Opts {
        family: st.config.family,
        maxlen: st.config.maxlen,
        asnumber: st.config.asnumber,
        aggregate: st.aggregate,
        debug_aggregation: st.config.debug_aggregation as int,
        debug_expander: st.config.debug_expander as int,
        vendor: st.config.vendor,
        generation: st.config.generation,
        sequence: st.config.sequence,
        format: opt_text(&st.config.format),
        server: st.config.server@,
        port: st.config.port,
        refine: st.refine,
        refine_low: st.refine_low,
        name: st.config.name@,
        maxdepth: st.config.maxdepth,
        match_expr: opt_text(&st.config.match_expr),
        expand_special_asn: st.config.expand_special_asn,
        pipelining: st.config.pipelining,
        sources: st.config.sources@,
        aswidth: st.config.aswidth,
        width_set: st.width_set,
        validate_asns: st.config.validate_asns,
        generation_set: st.generation_set,
        af_set: st.af_set,
        objects: texts(st.objects@),
    }
}

/// The configuration fields no option sets keep their defaults.
pub open spec fn rest_default(c: &ExpanderConfig) -> bool {
    &&& c.defaultsources@ == Seq::<char>::empty()
    &&& !c.usesource
    &&& c.identify
}

/// How an exec command line stops.
#[derive(Debug)]
pub enum Stop {
    Version,
    Usage,
    Exclusive,
    VendorExclusive,
    Fatal(String),
}

pub open spec fn stop_is(x: Stop, y: CliStop) -> bool {
    match y {
        CliStop::Version => x is Version,
        CliStop::Usage => x is Usage,
        CliStop::Exclusive => x is Exclusive,
        CliStop::VendorExclusive => x is VendorExclusive,
        CliStop::Fatal(m) => x matches Stop::Fatal(t) && t@ == m,
    }
}

/// One step of reading, in exec form.
pub enum StepOut {
    Go(usize),
    Rest(usize),
    End(Stop),
}

pub open spec fn step_is(x: StepOut, st: &CliState, y: CliStep) -> bool {
    match y {
        CliStep::Go(o, k) => x matches StepOut::Go(j) && j == k && opts_of(st) == o,
        CliStep::Rest(o, k) => x matches StepOut::Rest(j) && j == k && opts_of(st) == o,
        CliStep::End(b) => x matches StepOut::End(a) && stop_is(a, b),
    }
}

fn fatal(m: &str) -> (s: StepOut)
    ensures
        s matches StepOut::End(Stop::Fatal(t)) && t@ == m@,
{
    StepOut::End(Stop::Fatal(String::from_str(m)))
}

fn fatal2(m: &str, tail: &str) -> (s: StepOut)
    ensures
        s matches StepOut::End(Stop::Fatal(t)) && t@ == m@ + tail@,
{
    let mut t = String::from_str(m);
    push_str(&mut t, tail);
    StepOut::End(Stop::Fatal(t))
}

fn vendor_flag(a: &str) -> (v: Option<Vendor>)
    ensures
        v == vendor_of_flag(a@),
{
    if str_eq(a, "-b") {
        Some(Vendor::Bird)
    } else if str_eq(a, "-B") {
        Some(Vendor::OpenBgpd)
    } else if str_eq(a, "-J") {
        Some(Vendor::Juniper)
    } else if str_eq(a, "-j") {
        Some(Vendor::Json)
    } else if str_eq(a, "-K") {
        Some(Vendor::Mikrotik6)
    } else if str_eq(a, "-K7") {
        Some(Vendor::Mikrotik7)
    } else if str_eq(a, "-N") {
        Some(Vendor::Nokia)
    } else if str_eq(a, "-n") {
        Some(Vendor::NokiaMd)
    } else if str_eq(a, "-n2") {
        Some(Vendor::NokiaSrl)
    } else if str_eq(a, "-U") {
        Some(Vendor::Huawei)
    } else if str_eq(a, "-u") {
        Some(Vendor::HuaweiXpl)
    } else if str_eq(a, "-X") {
        Some(Vendor::CiscoXr)
    } else {
        None
    }
}

fn generation_flag(a: &str) -> (g: Option<Generation>)
    ensures
        g == generation_of_flag(a@),
{
    if str_eq(a, "-E") {
        Some(Generation::Eacl)
    } else if str_eq(a, "-t") {
        Some(Generation::Asset)
    } else if str_eq(a, "-z") {
        Some(Generation::RouteFilterList)
    } else {
        None
    }
}

fn generation_asn_flag(a: &str) -> (g: Option<Generation>)
    ensures
        g == generation_of_asn_flag(a@),
{
    if str_eq(a, "-f") {
        Some(Generation::AsPath)
    } else if str_eq(a, "-G") {
        Some(Generation::OasPath)
    } else if str_eq(a, "-H") {
        Some(Generation::AsList)
    } else {
        None
    }
}

impl CliState {
    fn set_af(&mut self, six: bool)
        ensures
            opts_of(final(self)) == (if six {
                Opts { family: 10, maxlen: 128, af_set: true, ..opts_of(old(self)) }
            } else {
                Opts { af_set: true, ..opts_of(old(self)) }
            }),
            final(self).config.debug_aggregation == old(self).config.debug_aggregation,
            final(self).config.debug_expander == old(self).config.debug_expander,
            rest_default(&old(self).config) ==> rest_default(&final(self).config),
    {
        if six {
            self.config.family = 10;
            self.config.maxlen = 128;
        }
        self.af_set = true;
        assert(opts_of(self) =~= (if six {
            Opts { family: 10, maxlen: 128, af_set: true, ..opts_of(old(self)) }
        } else {
            Opts { af_set: true, ..opts_of(old(self)) }
        }));
    }

    fn bump_aggregate(&mut self)
        requires
            old(self).config.debug_aggregation < i32::MAX,
        ensures
            opts_of(final(self)) == (Opts {
                debug_aggregation: if old(self).aggregate {
                    old(self).config.debug_aggregation + 1
                } else {
                    old(self).config.debug_aggregation as int
                },
                aggregate: true,
                ..opts_of(old(self))
            }),
            final(self).config.debug_aggregation <= old(self).config.debug_aggregation + 1,
            final(self).config.debug_expander == old(self).config.debug_expander,
            rest_default(&old(self).config) ==> rest_default(&final(self).config),
    {
        if self.aggregate {
            self.config.debug_aggregation = self.config.debug_aggregation + 1;
        }
        self.aggregate = true;
        assert(opts_of(self) =~= (Opts {
            debug_aggregation: if old(self).aggregate {
                old(self).config.debug_aggregation + 1
            } else {
                old(self).config.debug_aggregation as int
            },
            aggregate: true,
            ..opts_of(old(self))
        }));
    }

    fn set_vendor(&mut self, v: Vendor, arista: bool)
        ensures
            opts_of(final(self)) == (if arista {
                Opts { vendor: v, sequence: 1, ..opts_of(old(self)) }
            } else {
                Opts { vendor: v, ..opts_of(old(self)) }
            }),
            final(self).config.debug_aggregation == old(self).config.debug_aggregation,
            final(self).config.debug_expander == old(self).config.debug_expander,
            rest_default(&old(self).config) ==> rest_default(&final(self).config),
    {
        self.config.vendor = v;
        if arista {
            self.config.sequence = 1;
        }
        assert(opts_of(self) =~= (if arista {
            Opts { vendor: v, sequence: 1, ..opts_of(old(self)) }
        } else {
            Opts { vendor: v, ..opts_of(old(self)) }
        }));
    }

    fn bump_debug(&mut self)
        requires
            old(self).config.debug_expander < i32::MAX,
        ensures
            opts_of(final(self)) == (Opts {
                debug_expander: old(self).config.debug_expander + 1,
                ..opts_of(old(self))
            }),
            final(self).config.debug_aggregation == old(self).config.debug_aggregation,
            final(self).config.debug_expander == old(self).config.debug_expander + 1,
            rest_default(&old(self).config) ==> rest_default(&final(self).config),
    {
        self.config.debug_expander = self.config.debug_expander + 1;
        assert(opts_of(self) =~= (Opts { debug_expander: old(self).config.debug_expander + 1, ..opts_of(old(self)) }));
    }

    fn set_generation(&mut self, g: Generation)
        ensures
            opts_of(final(self)) == (Opts { generation: g, generation_set: true, ..opts_of(old(self)) }),
            final(self).config.debug_aggregation == old(self).config.debug_aggregation,
            final(self).config.debug_expander == old(self).config.debug_expander,
            rest_default(&old(self).config) ==> rest_default(&final(self).config),
    {
        self.config.generation = g;
        self.generation_set = true;
        assert(opts_of(self) =~= (Opts { generation: g, generation_set: true, ..opts_of(old(self)) }));
    }

    /// Sets one of the switches `-p`, `-T`, `-s`, `-w` (by its letter).
    fn set_switch(&mut self, c: char)
        ensures
            opts_of(final(self)) == (if c == 'p' {
                Opts { expand_special_asn: true, ..opts_of(old(self)) }
            } else if c == 'T' {
                Opts { pipelining: false, ..opts_of(old(self)) }
            } else if c == 's' {
                Opts { sequence: 1, ..opts_of(old(self)) }
            } else {
                Opts { validate_asns: true, ..opts_of(old(self)) }
            }),
            final(self).config.debug_aggregation == old(self).config.debug_aggregation,
            final(self).config.debug_expander == old(self).config.debug_expander,
            rest_default(&old(self).config) ==> rest_default(&final(self).config),
    {
        if c == 'p' {
            self.config.expand_special_asn = true;
        } else if c == 'T' {
            self.config.pipelining = false;
        } else if c == 's' {
            self.config.sequence = 1;
        } else {
            self.config.validate_asns = true;
        }
        assert(opts_of(self) =~= (if c == 'p' {
            Opts { expand_special_asn: true, ..opts_of(old(self)) }
        } else if c == 'T' {
            Opts { pipelining: false, ..opts_of(old(self)) }
        } else if c == 's' {
            Opts { sequence: 1, ..opts_of(old(self)) }
        } else {
            Opts { validate_asns: true, ..opts_of(old(self)) }
        }));
    }

    /// The options that take no argument (see `plain_flag`).
    #[verifier::rlimit(40)]
    fn plain_flag_exec(&mut self, a: &str, i: usize, limit: usize) -> (r: Option<StepOut>)
        requires
            i + 1 <= limit,
            old(self).config.debug_aggregation <= i,
            old(self).config.debug_expander <= i,
            limit < i32::MAX,
        ensures
            match plain_flag(a@, opts_of(old(self)), i as int) {
                Some(y) => r matches Some(x) && step_is(x, final(self), y),
                None => r is None && opts_of(final(self)) == opts_of(old(self)),
            },
            rest_default(&old(self).config) ==> rest_default(&final(self).config),
            final(self).config.debug_aggregation <= i + 1,
            final(self).config.debug_expander <= i + 1,
    {
        if str_eq(a, "-3") {
            return Some(StepOut::Go(i + 1));
        } else if str_eq(a, "-4") {
            if self.af_set && self.config.family == 10 {
                return Some(fatal("-4 and -6 are mutually exclusive"));
            }
            self.set_af(false);
            return Some(StepOut::Go(i + 1));
        } else if str_eq(a, "-6") {
            if self.af_set && self.config.family == 2 {
                return Some(fatal("-4 and -6 are mutually exclusive"));
            }
            self.set_af(true);
            return Some(StepOut::Go(i + 1));
        } else if str_eq(a, "-A") {
            self.bump_aggregate();
            return Some(StepOut::Go(i + 1));
        }
        match vendor_flag(a) {
            Some(v) => {
                if self.config.vendor != Vendor::Cisco {
                    return Some(StepOut::End(Stop::VendorExclusive));
                }
                self.set_vendor(v, false);
                return Some(StepOut::Go(i + 1));
            },
            None => {},
        }
        if str_eq(a, "-e") {
            if self.config.vendor != Vendor::Cisco {
                return Some(StepOut::End(Stop::VendorExclusive));
            }
            self.set_vendor(Vendor::Arista, true);
            return Some(StepOut::Go(i + 1));
        } else if str_eq(a, "-d") {
            self.bump_debug();
            return Some(StepOut::Go(i + 1));
        }
        match generation_flag(a) {
            Some(g) => {
                if self.generation_set {
                    return Some(StepOut::End(Stop::Exclusive));
                }
                self.set_generation(g);
                return Some(StepOut::Go(i + 1));
            },
            None => {},
        }
        if str_eq(a, "-p") {
            self.set_switch('p');
            Some(StepOut::Go(i + 1))
        } else if str_eq(a, "-T") {
            self.set_switch('T');
            Some(StepOut::Go(i + 1))
        } else if str_eq(a, "-s") {
            self.set_switch('s');
            Some(StepOut::Go(i + 1))
        } else if str_eq(a, "-w") {
            self.set_switch('w');
            Some(StepOut::Go(i + 1))
        } else if str_eq(a, "-v") {
            Some(StepOut::End(Stop::Version))
        } else {
            None
        }
    }
}

/// Which field an option with an argument sets.
#[derive(Clone, Copy, PartialEq, Eq, Structural)]
pub enum TextField {
    Format,
    Name,
    Match,
    Sources,
    Server,
}

impl CliState {
    fn set_text(&mut self, f: TextField, t: String)
        ensures
            opts_of(final(self)) == (match f {
                TextField::Format => Opts { vendor: Vendor::Format, format: Some(t@), ..opts_of(old(self)) },
                TextField::Name => Opts { name: t@, ..opts_of(old(self)) },
                TextField::Match => Opts { match_expr: Some(t@), ..opts_of(old(self)) },
                TextField::Sources => Opts { sources: t@, ..opts_of(old(self)) },
                TextField::Server => Opts { server: t@, ..opts_of(old(self)) },
            }),
            final(self).config.debug_aggregation == old(self).config.debug_aggregation,
            final(self).config.debug_expander == old(self).config.debug_expander,
            rest_default(&old(self).config) ==> rest_default(&final(self).config),
    {
        let ghost tv = t@;
        match f {
            TextField::Format => {
                self.config.vendor = Vendor::Format;
                self.config.format = Some(t);
            },
            TextField::Name => {
                self.config.name = t;
            },
            TextField::Match => {
                self.config.match_expr = Some(t);
            },
            TextField::Sources => {
                self.config.sources = t;
            },
            TextField::Server => {
                self.config.server = t;
            },
        }
        assert(opts_of(self) =~= (match f {
            TextField::Format => Opts { vendor: Vendor::Format, format: Some(tv), ..opts_of(old(self)) },
            TextField::Name => Opts { name: tv, ..opts_of(old(self)) },
            TextField::Match => Opts { match_expr: Some(tv), ..opts_of(old(self)) },
            TextField::Sources => Opts { sources: tv, ..opts_of(old(self)) },
            TextField::Server => Opts { server: tv, ..opts_of(old(self)) },
        }));
    }

    /// Sets the numbers that options carry: the AS number (with what is
    /// generated, when given), the refine lengths, the port.
    fn set_asnumber(&mut self, n: u32, g: Option<Generation>)
        ensures
            opts_of(final(self)) == (match g {
                Some(gen) => Opts { generation: gen, generation_set: true, asnumber: n, ..opts_of(old(self)) },
                None => Opts { asnumber: n, ..opts_of(old(self)) },
            }),
            final(self).config.debug_aggregation == old(self).config.debug_aggregation,
            final(self).config.debug_expander == old(self).config.debug_expander,
            rest_default(&old(self).config) ==> rest_default(&final(self).config),
    {
        match g {
            Some(gen) => {
                self.config.generation = gen;
                self.generation_set = true;
            },
            None => {},
        }
        self.config.asnumber = n;
        assert(opts_of(self) =~= (match g {
            Some(gen) => Opts { generation: gen, generation_set: true, asnumber: n, ..opts_of(old(self)) },
            None => Opts { asnumber: n, ..opts_of(old(self)) },
        }));
    }

    fn set_refine(&mut self, low: bool, v: u32)
        ensures
            opts_of(final(self)) == (if low {
                Opts { refine_low: v, ..opts_of(old(self)) }
            } else {
                Opts { refine: v, ..opts_of(old(self)) }
            }),
            final(self).config.debug_aggregation == old(self).config.debug_aggregation,
            final(self).config.debug_expander == old(self).config.debug_expander,
            rest_default(&old(self).config) ==> rest_default(&final(self).config),
    {
        if low {
            self.refine_low = v;
        } else {
            self.refine = v;
        }
        assert(opts_of(self) =~= (if low {
            Opts { refine_low: v, ..opts_of(old(self)) }
        } else {
            Opts { refine: v, ..opts_of(old(self)) }
        }));
    }

    fn set_host(&mut self, server: String, port: u16)
        ensures
            opts_of(final(self)) == (Opts { server: server@, port, ..opts_of(old(self)) }),
            final(self).config.debug_aggregation == old(self).config.debug_aggregation,
            final(self).config.debug_expander == old(self).config.debug_expander,
            rest_default(&old(self).config) ==> rest_default(&final(self).config),
    {
        let ghost sv = server@;
        self.config.server = server;
        self.config.port = port;
        assert(opts_of(self) =~= (Opts { server: sv, port, ..opts_of(old(self)) }));
    }

    /// `-h host[:port]` (see `host_step`).
    fn host_exec(&mut self, h: &str, i: usize) -> (r: StepOut)
        requires
            i + 2 <= usize::MAX,
        ensures
            step_is(r, final(self), host_step(h@, opts_of(old(self)), i as int)),
            final(self).config.debug_aggregation == old(self).config.debug_aggregation,
            final(self).config.debug_expander == old(self).config.debug_expander,
            rest_default(&old(self).config) ==> rest_default(&final(self).config),
    {
        let v = chars_of(h);
        proof { crate::text::lemma_contains_find(v@, ':'); }
        let c = crate::text::find_char(&v, ':', 0);
        if c < v.len() {
            let n = v.len();
            let mut port_text = String::new();
            let mut k = c + 1;
            while k < n
                invariant
                    c + 1 <= k <= n,
                    n == v@.len(),
                    port_text@ == v@.subrange(c + 1, k as int),
                decreases n - k,
            {
                push_char(&mut port_text, v[k]);
                k = k + 1;
                assert(port_text@ =~= v@.subrange(c + 1, k as int));
            }
            match parse_u32_range(&v, c + 1, n) {
                Some(p) => {
                    if p <= 65535 {
                        let mut server = String::new();
                        let mut j: usize = 0;
                        while j < c
                            invariant
                                j <= c <= v@.len(),
                                server@ == v@.subrange(0, j as int),
                            decreases c - j,
                        {
                            push_char(&mut server, v[j]);
                            j = j + 1;
                            assert(server@ =~= v@.subrange(0, j as int));
                        }
                        self.set_host(server, p as u16);
                        StepOut::Go(i + 2)
                    } else {
                        fatal2("Invalid port: ", port_text.as_str())
                    }
                },
                None => fatal2("Invalid port: ", port_text.as_str()),
            }
        } else {
            self.set_text(TextField::Server, String::from_str(h));
            StepOut::Go(i + 2)
        }
    }
}

impl CliState {
    /// The options whose argument is an AS number or a host (see
    /// `number_option`).
    #[verifier::rlimit(40)]
    fn number_option_exec(&mut self, args: &Vec<String>, i: usize) -> (r: Option<StepOut>)
        requires
            i < args@.len(),
        ensures
            match number_option(texts(args@), i as int, opts_of(old(self))) {
                Some(y) => r matches Some(x) && step_is(x, final(self), y),
                None => r is None && opts_of(final(self)) == opts_of(old(self)),
            },
            final(self).config.debug_aggregation == old(self).config.debug_aggregation,
            final(self).config.debug_expander == old(self).config.debug_expander,
            rest_default(&old(self).config) ==> rest_default(&final(self).config),
    {
        let ghost t = texts(args@);
        let n = args.len();
        let a = args[i].as_str();
        assert(t[i as int] == a@);
        assert(i + 1 < n ==> t[i + 1] == args@[i + 1]@);
        if str_eq(a, "-a") {
            if i + 1 >= n {
                return Some(fatal("Missing argument for -a"));
            }
            return Some(match parse_asnumber(args[i + 1].as_str()) {
                Some(num) => {
                    self.set_asnumber(num, None);
                    StepOut::Go(i + 2)
                },
                None => fatal2("Invalid AS number: ", args[i + 1].as_str()),
            });
        }
        if str_eq(a, "-F") {
            if self.generation_set {
                return Some(StepOut::End(Stop::Exclusive));
            }
            if i + 1 >= n {
                return Some(fatal("-F requires an argument"));
            }
            self.set_text(TextField::Format, String::from_str(args[i + 1].as_str()));
            return Some(StepOut::Go(i + 2));
        }
        match generation_asn_flag(a) {
            Some(g) => {
                if self.generation_set {
                    return Some(StepOut::End(Stop::Exclusive));
                }
                if i + 1 >= n {
                    return Some(fatal2(a, " requires an argument"));
                }
                return Some(match parse_asnumber(args[i + 1].as_str()) {
                    Some(num) => {
                        self.set_asnumber(num, Some(g));
                        StepOut::Go(i + 2)
                    },
                    None => fatal2("Invalid AS number: ", args[i + 1].as_str()),
                });
            },
            None => {},
        }
        if str_eq(a, "-h") {
            if i + 1 >= n {
                return Some(fatal("-h requires an argument"));
            }
            return Some(self.host_exec(args[i + 1].as_str(), i));
        }
        None
    }

    /// The options whose argument is a length or a text (see
    /// `text_option`).
    #[verifier::rlimit(40)]
    fn text_option_exec(&mut self, args: &Vec<String>, i: usize) -> (r: Option<StepOut>)
        requires
            i < args@.len(),
        ensures
            match text_option(texts(args@), i as int, opts_of(old(self))) {
                Some(y) => r matches Some(x) && step_is(x, final(self), y),
                None => r is None && opts_of(final(self)) == opts_of(old(self)),
            },
            final(self).config.debug_aggregation == old(self).config.debug_aggregation,
            final(self).config.debug_expander == old(self).config.debug_expander,
            rest_default(&old(self).config) ==> rest_default(&final(self).config),
    {
        let ghost t = texts(args@);
        let n = args.len();
        let a = args[i].as_str();
        assert(t[i as int] == a@);
        assert(i + 1 < n ==> t[i + 1] == args@[i + 1]@);
        if str_eq(a, "-r") || str_eq(a, "-R") {
            let low = str_eq(a, "-r");
            if i + 1 >= n {
                return Some(if low { fatal("Missing argument for -r") } else { fatal("Missing argument for -R") });
            }
            let what = if low { "Invalid refineLow value: " } else { "Invalid refine length: " };
            return Some(match parse_u32_str(args[i + 1].as_str()) {
                Some(v) => {
                    if v == 0 {
                        fatal2(what, args[i + 1].as_str())
                    } else {
                        self.set_refine(low, v);
                        StepOut::Go(i + 2)
                    }
                },
                None => fatal2(what, args[i + 1].as_str()),
            });
        }
        if str_eq(a, "-l") {
            if i + 1 >= n {
                return Some(fatal("-l requires an argument"));
            }
            self.set_text(TextField::Name, String::from_str(args[i + 1].as_str()));
            return Some(StepOut::Go(i + 2));
        }
        if str_eq(a, "-M") {
            if i + 1 >= n {
                return Some(fatal("-M requires an argument"));
            }
            return Some(match process_match_string(args[i + 1].as_str()) {
                Ok(m) => {
                    self.set_text(TextField::Match, m);
                    StepOut::Go(i + 2)
                },
                Err(msg) => StepOut::End(Stop::Fatal(msg)),
            });
        }
        if str_eq(a, "-S") {
            if i + 1 >= n {
                return Some(fatal("-S requires an argument"));
            }
            self.set_text(TextField::Sources, String::from_str(args[i + 1].as_str()));
            return Some(StepOut::Go(i + 2));
        }
        None
    }

    fn set_prefixed(&mut self, c: char, v: u32)
        ensures
            opts_of(final(self)) == (if c == 'L' {
                Opts { maxdepth: v, ..opts_of(old(self)) }
            } else if c == 'm' {
                Opts { maxlen: v, ..opts_of(old(self)) }
            } else {
                Opts { aswidth: v as i32, width_set: true, ..opts_of(old(self)) }
            }),
            final(self).config.debug_aggregation == old(self).config.debug_aggregation,
            final(self).config.debug_expander == old(self).config.debug_expander,
            rest_default(&old(self).config) ==> rest_default(&final(self).config),
    {
        if c == 'L' {
            self.config.maxdepth = v;
        } else if c == 'm' {
            self.config.maxlen = v;
        } else {
            self.config.aswidth = v as i32;
            self.width_set = true;
        }
        assert(opts_of(self) =~= (if c == 'L' {
            Opts { maxdepth: v, ..opts_of(old(self)) }
        } else if c == 'm' {
            Opts { maxlen: v, ..opts_of(old(self)) }
        } else {
            Opts { aswidth: v as i32, width_set: true, ..opts_of(old(self)) }
        }));
    }

    fn push_object(&mut self, a: &str)
        ensures
            opts_of(final(self)) == (Opts { objects: opts_of(old(self)).objects.push(a@), ..opts_of(old(self)) }),
            final(self).config.debug_aggregation == old(self).config.debug_aggregation,
            final(self).config.debug_expander == old(self).config.debug_expander,
            rest_default(&old(self).config) ==> rest_default(&final(self).config),
    {
        self.objects.push(String::from_str(a));
        assert(texts(self.objects@) =~= texts(old(self).objects@).push(a@));
        assert(opts_of(self) =~= (Opts { objects: opts_of(old(self)).objects.push(a@), ..opts_of(old(self)) }));
    }

    /// The options that carry their value, or an object (see `prefix_option`).
    #[verifier::rlimit(40)]
    fn prefix_option_exec(&mut self, a: &str, i: usize) -> (r: StepOut)
        requires
            i + 1 <= usize::MAX,
        ensures
            step_is(r, final(self), prefix_option(a@, opts_of(old(self)), i as int)),
            final(self).config.debug_aggregation == old(self).config.debug_aggregation,
            final(self).config.debug_expander == old(self).config.debug_expander,
            rest_default(&old(self).config) ==> rest_default(&final(self).config),
    {
        let v = chars_of(a);
        let n = v.len();
        if n >= 2 && v[0] == '-' && (v[1] == 'L' || v[1] == 'm' || v[1] == 'W') {
            let c = v[1];
            let mut rest = String::new();
            let mut k: usize = 2;
            while k < n
                invariant
                    2 <= k <= n,
                    n == v@.len(),
                    rest@ == v@.subrange(2, k as int),
                decreases n - k,
            {
                push_char(&mut rest, v[k]);
                k = k + 1;
                assert(rest@ =~= v@.subrange(2, k as int));
            }
            assert(rest@ == after2(a@));
            if c == 'W' {
                let w: i32 = match parse_i32_range(&v, 2, n) {
                    Some(x) => x,
                    None => 0,
                };
                if w < 0 {
                    return fatal2("Invalid as-width: ", rest.as_str());
                }
                self.set_prefixed('W', w as u32);
                return StepOut::Go(i + 1);
            }
            let what = if c == 'L' { "Invalid maximum recursion (-L): " } else { "Invalid maxlen (-m): " };
            match parse_u32_range(&v, 2, n) {
                Some(x) => {
                    if x == 0 {
                        fatal2(what, rest.as_str())
                    } else {
                        self.set_prefixed(c, x);
                        StepOut::Go(i + 1)
                    }
                },
                None => fatal2(what, rest.as_str()),
            }
        } else {
            self.push_object(a);
            StepOut::Go(i + 1)
        }
    }
}

impl CliState {
    /// The settings before any option.
    pub fn new() -> (st: CliState)
        ensures
            opts_of(&st) == initial_opts(),
            rest_default(&st.config),
            st.config.debug_aggregation == 0,
            st.config.debug_expander == 0,
    {
        let mut config = ExpanderConfig::default();
        config.init(2);
        let st = CliState {
            config,
            aggregate: false,
            refine: 0,
            refine_low: 0,
            width_set: false,
            generation_set: false,
            af_set: false,
            objects: Vec::new(),
        };
        assert(texts(st.objects@) =~= Seq::<Seq<char>>::empty());
        assert(opts_of(&st) =~= initial_opts());
        st
    }

    /// Reads the argument at `i` (see `opt_step`).
    fn opt_step_exec(&mut self, args: &Vec<String>, i: usize) -> (r: StepOut)
        requires
            i < args@.len(),
            args@.len() < i32::MAX,
            old(self).config.debug_aggregation <= i,
            old(self).config.debug_expander <= i,
        ensures
            step_is(r, final(self), opt_step(texts(args@), i as int, opts_of(old(self)))),
            rest_default(&old(self).config) ==> rest_default(&final(self).config),
            final(self).config.debug_aggregation <= i + 1,
            final(self).config.debug_expander <= i + 1,
    {
        let a = args[i].as_str();
        assert(texts(args@)[i as int] == a@);
        if str_eq(a, "--") {
            return StepOut::Rest(i + 1);
        }
        match self.plain_flag_exec(a, i, args.len()) {
            Some(x) => {
                return x;
            },
            None => {},
        }
        match self.number_option_exec(args, i) {
            Some(x) => {
                return x;
            },
            None => {},
        }
        match self.text_option_exec(args, i) {
            Some(x) => {
                return x;
            },
            None => {},
        }
        self.prefix_option_exec(a, i)
    }

    /// Puts the arguments from `j` on among the objects.
    fn push_rest(&mut self, args: &Vec<String>, j: usize)
        requires
            j <= args@.len(),
        ensures
            opts_of(final(self)) == (Opts {
                objects: opts_of(old(self)).objects + texts(args@).subrange(j as int, args@.len() as int),
                ..opts_of(old(self))
            }),
            rest_default(&old(self).config) ==> rest_default(&final(self).config),
    {
        let mut k = j;
        while k < args.len()
            invariant
                j <= k <= args@.len(),
                opts_of(self) == (Opts {
                    objects: opts_of(old(self)).objects + texts(args@).subrange(j as int, k as int),
                    ..opts_of(old(self))
                }),
                rest_default(&old(self).config) ==> rest_default(&self.config),
            decreases args@.len() - k,
        {
            assert(texts(args@)[k as int] == args@[k as int]@);
            self.push_object(args[k].as_str());
            assert(opts_of(old(self)).objects + texts(args@).subrange(j as int, k + 1) =~= (opts_of(old(self)).objects
                + texts(args@).subrange(j as int, k as int)).push(args@[k as int]@));
            k = k + 1;
        }
    }

    /// Gives the line width its default unless `-W` set one (see
    /// `cli_finish`).
    fn default_width(&mut self)
        ensures
            opts_of(final(self)) == (if !opts_of(old(self)).width_set {
                match default_aswidth_spec(old(self).config.generation, old(self).config.vendor) {
                    Some(w) => Opts { aswidth: w, ..opts_of(old(self)) },
                    None => opts_of(old(self)),
                }
            } else {
                opts_of(old(self))
            }),
            rest_default(&old(self).config) ==> rest_default(&final(self).config),
    {
        if !self.width_set {
            match default_aswidth(self.config.generation, self.config.vendor) {
                Some(w) => {
                    self.config.aswidth = w;
                    assert(opts_of(self) =~= (Opts { aswidth: w, ..opts_of(old(self)) }));
                },
                None => {},
            }
        }
    }
}

/// Reads the command line of the filter generator (the program name
/// first; see `cli_spec`): the settings to run with, or how it stops.
#[verifier::spinoff_prover]
#[verifier::rlimit(40)]
pub fn parse_cli(args: &Vec<String>) -> (r: Result<CliState, Stop>)
    requires
        args@.len() < i32::MAX,
    ensures
        match (r, cli_spec(texts(args@))) {
            (Ok(st), Ok(o)) => opts_of(&st) == o && rest_default(&st.config),
            (Err(x), Err(y)) => stop_is(x, y),
            _ => false,
        },
{
    let ghost t = texts(args@);
    let mut st = CliState::new();
    if args.len() <= 1 {
        assert(cli_scan(t, 1, initial_opts()) == CliScan::Done(initial_opts()));
    }
    let mut i: usize = 1;
    while i < args.len()
        invariant
            t == texts(args@),
            t.len() == args@.len(),
            args@.len() < i32::MAX,
            1 <= i,
            st.config.debug_aggregation <= i,
            st.config.debug_expander <= i,
            rest_default(&st.config),
            cli_spec(t) == cli_finish(cli_scan(t, i as int, opts_of(&st))),
        decreases args@.len() - i,
    {
        let ghost before = opts_of(&st);
        let step = st.opt_step_exec(args, i);
        match step {
            StepOut::Go(j) => {
                assert(j > i);
                i = j;
            },
            StepOut::Rest(j) => {
                st.push_rest(args, j);
                st.default_width();
                if st.objects.len() == 0 {
                    return Err(Stop::Usage);
                }
                return Ok(st);
            },
            StepOut::End(x) => {
                return Err(x);
            },
        }
    }
    assert(cli_scan(t, i as int, opts_of(&st)) == CliScan::Done(opts_of(&st)));
    st.default_width();
    if st.objects.len() == 0 {
        return Err(Stop::Usage);
    }
    Ok(st)
}

/// Whether an object can be added without a fault (see `object_ok`).
pub fn object_acceptable(obj: &str) -> (b: bool)
    ensures
        b == object_ok(obj@),
{
    let a = Expander::object_action_of(obj);
    if a == 4 {
        let eff = crate::bgpq4::expander::get_asset(obj);
        !crate::bgpq4::prefix::SxPrefix::parse_panics_at(0, eff.as_str())
    } else if a == 5 {
        let eff = crate::bgpq4::expander::get_asset(obj);
        crate::bgpq4::expansion::route_acceptable(eff.as_str())
    } else {
        true
    }
}

/// Whether the objects before "EXCEPT" can all be added without a fault
/// (the condition of `add_objects`).
pub fn objects_acceptable(objs: &Vec<String>) -> (b: bool)
    ensures
        b == forall|i: int| 0 <= i < except_at(texts(objs@), 0) ==> object_ok(#[trigger] texts(objs@)[i]),
{
    let ghost t = texts(objs@);
    proof { lemma_except_at(t, 0); }
    let mut i: usize = 0;
    while i < objs.len()
        invariant
            i <= objs@.len(),
            t == texts(objs@),
            t.len() == objs@.len(),
            0 <= except_at(t, 0) <= t.len(),
            except_at(t, 0) < t.len() ==> t[except_at(t, 0)] == "EXCEPT"@,
            forall|k: int| 0 <= k < except_at(t, 0) ==> t[k] != "EXCEPT"@,
            i <= except_at(t, 0),
            forall|k: int| 0 <= k < i ==> object_ok(#[trigger] t[k]),
        decreases objs@.len() - i,
    {
        assert(t[i as int] == objs@[i as int]@);
        if str_eq(objs[i].as_str(), "EXCEPT") {
            return true;
        }
        if !object_acceptable(objs[i].as_str()) {
            return false;
        }
        i = i + 1;
    }
    true
}

} // verus!
