//! The expander's state: what was asked for (AS-sets, route-sets, AS
//! numbers, prefixes), the AS numbers and prefixes gathered so far, and
//! the bookkeeping of the recursive AS-set expansion.

use vstd::prelude::*;
use vstd::string::*;
use std::collections::BTreeSet;
use crate::text::{
    chars_of, find_char, find_char_from, lemma_contains_find, lower_string, lowercase_of, str_eq,
    string_from_chars, upper_string, uppercase_of,
};
use crate::bgpq4::config::{asn_accepted, asn_add, AsnTree, ExpanderConfig};
use crate::bgpq4::prefix::{
    holds_parsed, holds_prefix, keeps_nodes, lemma_parsed_clean, parse_panics, prefix_parse, range_parse, range_prefix_part,
    specific_of, specifics_set,
    key_of, RadixNode, RadixTree, SxPrefix,
};

verus! {

/// The texts of a list of strings.
pub open spec fn texts(v: Seq<String>) -> Seq<Seq<char>> {
    v.map_values(|s: String| s@)
}

/// Whether an AS-set met at `depth` is expanded: its lower-case name is
/// neither expanded yet nor stopped, and the depth limit (0 for none) is
/// not reached.
pub open spec fn enter_ok(already: Seq<Seq<char>>, stop: Seq<Seq<char>>, name: Seq<char>, maxdepth: u32, depth: u32) -> bool {
    &&& !already.contains(lowercase_of(name))
    &&& !stop.contains(lowercase_of(name))
    &&& (maxdepth == 0 || depth + 1 < maxdepth)
}

/// An AS-set is expanded at most once: once `enter_set` let a name in, the
/// list it keeps turns that name away at any depth (cycles among AS-sets
/// end there).
pub proof fn lemma_enter_once(
    already: Seq<Seq<char>>,
    stop: Seq<Seq<char>>,
    name: Seq<char>,
    maxdepth: u32,
    d1: u32,
    d2: u32,
)
    requires
        enter_ok(already, stop, name, maxdepth, d1),
    ensures
        !enter_ok(already.push(lowercase_of(name)), stop, name, maxdepth, d2),
{
    assert(already.push(lowercase_of(name))[already.len() as int] == lowercase_of(name));
}

pub struct Expander {
    pub config: ExpanderConfig,
    pub tree: RadixTree,
    pub asn_list: AsnTree,
    pub macroses: Vec<String>,
    pub rsets: Vec<String>,
    /// AS-sets already expanded (lower case, each once).
    pub already: Vec<String>,
    /// AS-sets and AS numbers not to expand (lower case, each once).
    pub stoplist: Vec<String>,
}

/// Index of the first "::" in `s`, if any.
pub open spec fn double_colon(s: Seq<char>) -> Option<int>
    decreases s.len(),
{
    if s.len() < 2 {
        None
    } else {
        match double_colon(s.drop_last()) {
            Some(i) => Some(i),
            None => if s[s.len() - 2] == ':' && s[s.len() - 1] == ':' {
                Some(s.len() - 2)
            } else {
                None
            },
        }
    }
}

proof fn lemma_double_colon_prefix(s: Seq<char>, k: int)
    requires
        0 <= k <= s.len(),
        double_colon(s.subrange(0, k)) is None,
    ensures
        forall|i: int| 0 <= i && i + 1 < k ==> !(#[trigger] s[i] == ':' && s[i + 1] == ':'),
    decreases k,
{
    if k >= 2 {
        assert(s.subrange(0, k).drop_last() =~= s.subrange(0, k - 1));
        lemma_double_colon_prefix(s, k - 1);
    }
}

/// Finds the first "::".
fn find_double_colon(v: &Vec<char>) -> (r: Option<usize>)
    ensures
        match r {
            Some(i) => double_colon(v@) == Some(i as int) && i + 2 <= v@.len(),
            None => double_colon(v@) is None,
        },
{
    let n = v.len();
    if n < 2 {
        return None;
    }
    let mut i: usize = 0;
    while i + 1 < n
        invariant
            i + 1 <= n,
            n == v@.len(),
            double_colon(v@.subrange(0, i + 1)) is None,
        decreases n - i,
    {
        let ghost t = v@.subrange(0, i + 2);
        assert(t.drop_last() =~= v@.subrange(0, i + 1));
        if v[i] == ':' && v[i + 1] == ':' {
            assert(double_colon(t) == Some(i as int));
            proof { lemma_double_colon_extend(v@, i + 2); }
            return Some(i);
        }
        i = i + 1;
    }
    assert(v@.subrange(0, n as int) =~= v@);
    None
}

/// A "::" found in a prefix of `s` is the first one of `s`.
proof fn lemma_double_colon_extend(s: Seq<char>, k: int)
    requires
        2 <= k <= s.len(),
        double_colon(s.subrange(0, k)) is Some,
    ensures
        double_colon(s) == double_colon(s.subrange(0, k)),
    decreases s.len() - k,
{
    if k < s.len() {
        assert(s.subrange(0, k + 1).drop_last() =~= s.subrange(0, k));
        lemma_double_colon_extend(s, k + 1);
    } else {
        assert(s.subrange(0, k) =~= s);
    }
}

/// The source of an object "SOURCE::NAME", if it names one.
pub open spec fn source_of(s: Seq<char>) -> Option<Seq<char>> {
    match double_colon(s) {
        Some(i) => Some(s.subrange(0, i)),
        None => None,
    }
}

/// The name of an object without its "SOURCE::" part.
pub open spec fn asset_of(s: Seq<char>) -> Seq<char> {
    match double_colon(s) {
        Some(i) => s.subrange(i + 2, s.len() as int),
        None => s,
    }
}

pub fn get_source(object: &str) -> (r: Option<String>)
    ensures
        match r {
            Some(x) => source_of(object@) == Some(x@),
            None => source_of(object@) is None,
        },
{
    let v = chars_of(object);
    match find_double_colon(&v) {
        Some(i) => {
            let part = take_range(&v, 0, i);
            Some(string_from_chars(part.as_slice()))
        },
        None => None,
    }
}

pub fn get_asset(object: &str) -> (r: String)
    ensures
        r@ == asset_of(object@),
{
    let v = chars_of(object);
    let n = v.len();
    match find_double_colon(&v) {
        Some(i) => {
            let part = take_range(&v, i + 2, n);
            string_from_chars(part.as_slice())
        },
        None => string_from_chars(v.as_slice()),
    }
}

pub fn get_rset(object: &str) -> (r: String)
    ensures
        r@ == asset_of(object@),
{
    get_asset(object)
}

fn take_range(v: &Vec<char>, lo: usize, hi: usize) -> (a: Vec<char>)
    requires
        lo <= hi <= v@.len(),
    ensures
        a@ == v@.subrange(lo as int, hi as int),
{
    let mut a: Vec<char> = Vec::new();
    let mut i: usize = lo;
    while i < hi
        invariant
            lo <= i <= hi <= v@.len(),
            a@ == v@.subrange(lo as int, i as int),
        decreases hi - i,
    {
        a.push(v[i]);
        i = i + 1;
        assert(a@ =~= v@.subrange(lo as int, i as int));
    }
    a
}

/// Position of the string `x` in a list of strings.
fn position_of(v: &Vec<String>, x: &str) -> (r: Option<usize>)
    ensures
        match r {
            Some(i) => i < v@.len() && v@[i as int]@ == x@,
            None => !texts(v@).contains(x@),
        },
{
    let mut i: usize = 0;
    while i < v.len()
        invariant
            i <= v@.len(),
            forall|j: int| 0 <= j < i ==> v@[j]@ != x@,
        decreases v@.len() - i,
    {
        if str_eq(v[i].as_str(), x) {
            return Some(i);
        }
        i = i + 1;
    }
    proof {
        if texts(v@).contains(x@) {
            let j = choose|j: int| 0 <= j < texts(v@).len() && texts(v@)[j] == x@;
            assert(v@[j]@ == x@);
        }
    }
    None
}


/// `s` starts with `p`.
pub open spec fn starts_with(s: Seq<char>, p: Seq<char>) -> bool {
    s.len() >= p.len() && s.subrange(0, p.len() as int) == p
}

fn starts_with_exec(v: &Vec<char>, p: &str) -> (b: bool)
    ensures
        b == starts_with(v@, p@),
{
    let pv = chars_of(p);
    if v.len() < pv.len() {
        return false;
    }
    let mut i: usize = 0;
    while i < pv.len()
        invariant
            i <= pv@.len() <= v@.len(),
            pv@ == p@,
            v@.subrange(0, i as int) == pv@.subrange(0, i as int),
        decreases pv@.len() - i,
    {
        if v[i] != pv[i] {
            assert(v@.subrange(0, pv@.len() as int)[i as int] != pv@[i as int]);
            return false;
        }
        i = i + 1;
        assert(v@.subrange(0, i as int) =~= pv@.subrange(0, i as int)) by {
            assert forall|k: int| 0 <= k < i implies v@.subrange(0, i as int)[k] == pv@.subrange(0, i as int)[k] by {
                if k < i - 1 {
                    assert(v@.subrange(0, i - 1)[k] == pv@.subrange(0, i - 1)[k]);
                }
            }
        }
    }
    assert(pv@.subrange(0, pv@.len() as int) =~= pv@);
    true
}

/// What a member of an expanded AS-set is.
#[derive(Debug, Clone, Copy, PartialEq, Eq, Structural)]
pub enum MemberKind {
    /// Another AS-set (name starting "AS-", or holding '-' or ':').
    AsSet,
    /// An AS number ("AS" and more).
    Asn,
    /// "ANY".
    Any,
    /// Anything else.
    Unexpected,
}

pub open spec fn member_kind_spec(s: Seq<char>) -> MemberKind {
    let up = uppercase_of(s);
    if starts_with(up, "AS-"@) || s.contains('-') || s.contains(':') {
        MemberKind::AsSet
    } else if starts_with(up, "AS"@) {
        MemberKind::Asn
    } else if up == "ANY"@ {
        MemberKind::Any
    } else {
        MemberKind::Unexpected
    }
}

/// Classifies a member of an AS-set by its name (in any letter case).
pub fn member_kind(as_str: &str) -> (k: MemberKind)
    ensures
        k == member_kind_spec(as_str@),
{
    let up = upper_string(as_str);
    let uv = chars_of(up.as_str());
    let v = chars_of(as_str);
    proof {
        lemma_contains_find(v@, '-');
        lemma_contains_find(v@, ':');
    }
    if starts_with_exec(&uv, "AS-") || find_char(&v, '-', 0) < v.len() || find_char(&v, ':', 0) < v.len() {
        MemberKind::AsSet
    } else if starts_with_exec(&uv, "AS") {
        MemberKind::Asn
    } else if str_eq(up.as_str(), "ANY") {
        MemberKind::Any
    } else {
        MemberKind::Unexpected
    }
}

/// What `add_object` does with an object: 0 nothing, 1 queue it as an
/// AS-set, 2 queue it as a route-set, 3 add it as an AS number, 4 add it as
/// a prefix, 5 add it as a prefix range.
pub open spec fn object_action(obj: Seq<char>) -> u8 {
    let eff = asset_of(obj);
    let up = uppercase_of(eff);
    if eff.len() == 0 {
        0
    } else if starts_with(up, "AS-"@) || (up.contains('-') && eff.contains(':')) {
        1
    } else if starts_with(up, "RS-"@) {
        2
    } else if starts_with(up, "AS"@) {
        if up.contains(':') {
            let after = up.subrange(find_char_from(up, ':', 0) + 1, up.len() as int);
            if starts_with(after, "AS-"@) {
                1
            } else if starts_with(after, "RS-"@) {
                2
            } else {
                0
            }
        } else {
            3
        }
    } else if eff.contains('^') {
        5
    } else {
        4
    }
}

/// What `add_prefix` lists for a text: the parsed prefix where it is of the
/// configured family `cfg_fam` and the tree's family `tree_fam` and not
/// longer than `maxlen` (0: any length); nothing else.
pub open spec fn prefix_item_set(cfg_fam: u8, maxlen: u32, tree_fam: u8, s: Seq<char>) -> Set<(u8, u32, Seq<u8>)> {
    match prefix_parse(0, s) {
        Some((f, ml, a)) => if f == cfg_fam && !(maxlen > 0 && ml > maxlen) && f == tree_fam {
            set![(f, ml, a)]
        } else {
            Set::empty()
        },
        None => Set::empty(),
    }
}

/// What `add_prefix_range` lists for a text: the more specifics of the
/// range where it parses and is of the tree's family; nothing else.
pub open spec fn range_item_set(maxlen: u32, tree_fam: u8, s: Seq<char>) -> Set<(u8, u32, Seq<u8>)> {
    match range_parse(0, maxlen, s) {
        Some((f, ml, a, lo, hi)) => if f == tree_fam { specifics_set(f, a, ml, lo, hi) } else { Set::empty() },
        None => Set::empty(),
    }
}

/// What adding an object lists: a prefix or a prefix range as
/// `add_prefix` and `add_prefix_range` list them; nothing for the others.
pub open spec fn object_item_set(cfg_fam: u8, maxlen: u32, tree_fam: u8, obj: Seq<char>) -> Set<(u8, u32, Seq<u8>)> {
    if object_action(obj) == 4 {
        prefix_item_set(cfg_fam, maxlen, tree_fam, asset_of(obj))
    } else if object_action(obj) == 5 {
        range_item_set(maxlen, tree_fam, asset_of(obj))
    } else {
        Set::empty()
    }
}

impl Expander {
    /// The expander's invariant: the prefix tree is well formed.
    pub open spec fn wf(&self) -> bool {
        self.tree.wf()
    }

    pub fn new(config: ExpanderConfig) -> (e: Expander)
        ensures
            e.wf(),
            e.config == config,
            e.tree.family_view() == config.family,
            e.tree.head_view() is None,
            e.asn_list@ == Set::<u32>::empty(),
            e.macroses@.len() == 0,
            e.rsets@.len() == 0,
            e.already@.len() == 0,
            e.stoplist@.len() == 0,
    {
        let family = config.family;
        Expander {
            tree: RadixTree::new(family),
            config,
            asn_list: BTreeSet::new(),
            macroses: Vec::new(),
            rsets: Vec::new(),
            already: Vec::new(),
            stoplist: Vec::new(),
        }
    }

    /// Queues an AS-set for expansion.
    pub fn add_asset(&mut self, name: &str)
        ensures
            texts(final(self).macroses@) == texts(old(self).macroses@).push(name@),
            final(self).config == old(self).config,
            final(self).tree == old(self).tree,
            final(self).asn_list@ == old(self).asn_list@,
            final(self).rsets@ == old(self).rsets@,
            final(self).already@ == old(self).already@,
            final(self).stoplist@ == old(self).stoplist@,
    {
        let s = String::from_str(name);
        self.macroses.push(s);
        assert(texts(self.macroses@) =~= texts(old(self).macroses@).push(name@));
    }

    /// Queues a route-set for expansion.
    pub fn add_rset(&mut self, name: &str)
        ensures
            texts(final(self).rsets@) == texts(old(self).rsets@).push(name@),
            final(self).config == old(self).config,
            final(self).tree == old(self).tree,
            final(self).asn_list@ == old(self).asn_list@,
            final(self).macroses@ == old(self).macroses@,
            final(self).already@ == old(self).already@,
            final(self).stoplist@ == old(self).stoplist@,
    {
        let s = String::from_str(name);
        self.rsets.push(s);
        assert(texts(self.rsets@) =~= texts(old(self).rsets@).push(name@));
    }

    /// Adds the lower-cased name to the stop list; returns whether it was
    /// not there yet.
    pub fn add_stop(&mut self, name: &str) -> (r: bool)
        ensures
            r == !texts(old(self).stoplist@).contains(lowercase_of(name@)),
            texts(final(self).stoplist@) == (if r {
                texts(old(self).stoplist@).push(lowercase_of(name@))
            } else {
                texts(old(self).stoplist@)
            }),
            final(self).config == old(self).config,
            final(self).tree == old(self).tree,
            final(self).asn_list@ == old(self).asn_list@,
            final(self).macroses@ == old(self).macroses@,
            final(self).rsets@ == old(self).rsets@,
            final(self).already@ == old(self).already@,
    {
        let low = lower_string(name);
        match position_of(&self.stoplist, low.as_str()) {
            Some(i) => {
                proof {
                    assert(texts(self.stoplist@)[i as int] == lowercase_of(name@));
                }
                false
            },
            None => {
                self.stoplist.push(low);
                assert(texts(self.stoplist@) =~= texts(old(self).stoplist@).push(lowercase_of(name@)));
                true
            },
        }
    }

    /// Adds an AS number written as text (see `asn_add`).
    pub fn add_as(&mut self, as_str: &str) -> (r: bool)
        ensures
            match asn_accepted(as_str@, old(self).config.expand_special_asn) {
                Some(a) => final(self).asn_list@ == old(self).asn_list@.insert(a) && r == !old(self).asn_list@.contains(a),
                None => final(self).asn_list@ == old(self).asn_list@ && !r,
            },
            final(self).config == old(self).config,
            final(self).tree == old(self).tree,
            final(self).macroses@ == old(self).macroses@,
            final(self).rsets@ == old(self).rsets@,
            final(self).already@ == old(self).already@,
            final(self).stoplist@ == old(self).stoplist@,
    {
        asn_add(&mut self.asn_list, as_str, self.config.expand_special_asn)
    }

    /// Adds a prefix written as text when it parses, is of the configured
    /// family and is not longer than the configured maximum.
    pub fn add_prefix(&mut self, prefix_str: &str) -> (r: bool)
        requires
            old(self).wf(),
            !parse_panics(0, prefix_str@),
        ensures
            final(self).wf(),
            r == match prefix_parse(0, prefix_str@) {
                Some((f, ml, _a)) => f == old(self).config.family
                    && !(old(self).config.maxlen > 0 && ml > old(self).config.maxlen),
                None => false,
            },
            !r ==> final(self).tree == old(self).tree,
            r ==> keeps_nodes(old(self).tree.nodes_view(), final(self).tree.nodes_view()),
            forall|x: usize| #[trigger] old(self).tree.walk_view().contains(x) ==> final(self).tree.walk_view().contains(x),
            r && old(self).config.family == old(self).tree.family_view() ==> (
                match prefix_parse(0, prefix_str@) {
                    Some((f, ml, a)) => exists|idx: usize| #[trigger] final(self).tree.walk_view().contains(idx)
                        && holds_parsed(final(self).tree.nodes_view(), idx, f, ml, a),
                    None => false,
                }),
            old(self).tree.clean_nodes() ==> final(self).tree.clean_nodes() && final(self).tree.listed()
                == old(self).tree.listed().union(prefix_item_set(old(self).config.family, old(self).config.maxlen,
                old(self).tree.family_view(), prefix_str@)),
            final(self).tree.family_view() == old(self).tree.family_view(),
            final(self).config == old(self).config,
            final(self).asn_list@ == old(self).asn_list@,
            final(self).macroses@ == old(self).macroses@,
            final(self).rsets@ == old(self).rsets@,
            final(self).already@ == old(self).already@,
            final(self).stoplist@ == old(self).stoplist@,
    {
        let ghost t0 = self.tree;
        proof {
            assert(t0.listed().union(Set::empty()) =~= t0.listed());
        }
        let mut p = SxPrefix::new();
        if !p.parse(0, prefix_str) {
            return false;
        }
        if p.family != self.config.family {
            return false;
        }
        if self.config.maxlen > 0 && p.masklen > self.config.maxlen {
            return false;
        }
        proof { lemma_parsed_clean(0, prefix_str@); }
        let res = self.tree.insert(&p);
        proof {
            if p.family == t0.family_view() {
                assert(t0.listed().insert(key_of(p)) =~= t0.listed().union(set![(p.family, p.masklen, p.addrs@)]));
            }
        }
        proof {
            if let Some(idx) = res {
                assert(self.tree.walk_view().contains(idx));
                assert(holds_prefix(self.tree.nodes_view(), idx, p));
                assert(holds_parsed(self.tree.nodes_view(), idx, p.family, p.masklen, p.addrs@));
            }
        }
        true
    }

    /// Adds the more-specifics of a prefix range (see `range_parse`).
    pub fn add_prefix_range(&mut self, prefix_str: &str) -> (r: bool)
        requires
            old(self).wf(),
            !parse_panics(0, range_prefix_part(prefix_str@)),
        ensures
            final(self).wf(),
            r == range_parse(0, old(self).config.maxlen, prefix_str@) is Some,
            !r ==> final(self).tree == old(self).tree,
            r ==> keeps_nodes(old(self).tree.nodes_view(), final(self).tree.nodes_view()),
            forall|x: usize| #[trigger] old(self).tree.walk_view().contains(x) ==> final(self).tree.walk_view().contains(x),
            range_parse(0, old(self).config.maxlen, prefix_str@) matches Some((f, ml, a, lo, hi)) ==> {
                &&& f != old(self).tree.family_view() ==> final(self).tree == old(self).tree
                &&& f == old(self).tree.family_view() && ml >= lo ==> final(self).tree.holds(f, ml, a)
                &&& f == old(self).tree.family_view() ==> forall|l: u32, b: Seq<u8>|
                    lo <= l <= hi && #[trigger] specific_of(a, ml as int, l as int, b) ==> final(self).tree.holds(f, l, b)
            },
            old(self).tree.clean_nodes() ==> final(self).tree.clean_nodes() && final(self).tree.listed()
                == old(self).tree.listed().union(range_item_set(old(self).config.maxlen, old(self).tree.family_view(), prefix_str@)),
            final(self).tree.family_view() == old(self).tree.family_view(),
            final(self).config == old(self).config,
            final(self).asn_list@ == old(self).asn_list@,
            final(self).macroses@ == old(self).macroses@,
            final(self).rsets@ == old(self).rsets@,
            final(self).already@ == old(self).already@,
            final(self).stoplist@ == old(self).stoplist@,
    {
        proof { assert(self.tree.listed().union(Set::empty()) =~= self.tree.listed()); }
        self.tree.parse_range(0, self.config.maxlen, prefix_str)
    }
    /// Adds an object named on the command line: an AS-set, a route-set,
    /// an AS number, a prefix or a prefix range (an optional "SOURCE::"
    /// before it switches to per-object sources). Returns false where the
    /// prefix or range is refused.
    pub fn add_object(&mut self, obj: &str) -> (r: bool)
        requires
            old(self).wf(),
            object_action(obj@) == 4 ==> !parse_panics(0, asset_of(obj@)),
            object_action(obj@) == 5 ==> !parse_panics(0, range_prefix_part(asset_of(obj@))),
        ensures
            final(self).wf(),
            final(self).config == (ExpanderConfig {
                usesource: old(self).config.usesource || double_colon(obj@) is Some,
                ..old(self).config
            }),
            texts(final(self).macroses@) == (if object_action(obj@) == 1 {
                texts(old(self).macroses@).push(obj@)
            } else {
                texts(old(self).macroses@)
            }),
            texts(final(self).rsets@) == (if object_action(obj@) == 2 {
                texts(old(self).rsets@).push(obj@)
            } else {
                texts(old(self).rsets@)
            }),
            final(self).asn_list@ == (if object_action(obj@) == 3 {
                match asn_accepted(asset_of(obj@), old(self).config.expand_special_asn) {
                    Some(a) => old(self).asn_list@.insert(a),
                    None => old(self).asn_list@,
                }
            } else {
                old(self).asn_list@
            }),
            object_action(obj@) != 4 && object_action(obj@) != 5 ==> final(self).tree == old(self).tree && r,
            object_action(obj@) == 4 ==> r == match prefix_parse(0, asset_of(obj@)) {
                Some((f, ml, _a)) => f == old(self).config.family
                    && !(old(self).config.maxlen > 0 && ml > old(self).config.maxlen),
                None => false,
            },
            object_action(obj@) == 5 ==> r == range_parse(0, old(self).config.maxlen, asset_of(obj@)) is Some,
            keeps_nodes(old(self).tree.nodes_view(), final(self).tree.nodes_view()),
            final(self).tree.family_view() == old(self).tree.family_view(),
            old(self).tree.clean_nodes() ==> final(self).tree.clean_nodes() && final(self).tree.listed()
                == old(self).tree.listed().union(if object_action(obj@) == 4 {
                prefix_item_set(old(self).config.family, old(self).config.maxlen, old(self).tree.family_view(), asset_of(obj@))
            } else if object_action(obj@) == 5 {
                range_item_set(old(self).config.maxlen, old(self).tree.family_view(), asset_of(obj@))
            } else {
                Set::empty()
            }),
            final(self).already@ == old(self).already@,
            final(self).stoplist@ == old(self).stoplist@,
    {
        let v = chars_of(obj);
        let n = v.len();
        let eff_s: String = match find_double_colon(&v) {
            Some(pos) => {
                self.config.usesource = true;
                string_from_chars(take_range(&v, pos + 2, n).as_slice())
            },
            None => string_from_chars(v.as_slice()),
        };
        let eff = eff_s.as_str();
        assert(eff@ == asset_of(obj@));
        let ghost mid = *self;
        assert(mid.config == (ExpanderConfig { usesource: old(self).config.usesource || double_colon(obj@) is Some, ..old(self).config }));
        proof { assert(self.tree.listed().union(Set::empty()) =~= self.tree.listed()); }
        if eff.unicode_len() == 0 {
            return true;
        }
        let up = upper_string(eff);
        let uv = chars_of(up.as_str());
        let ev = chars_of(eff);
        proof {
            lemma_contains_find(uv@, '-');
            lemma_contains_find(uv@, ':');
            lemma_contains_find(ev@, ':');
            lemma_contains_find(ev@, '^');
        }
        if starts_with_exec(&uv, "AS-") || (find_char(&uv, '-', 0) < uv.len() && find_char(&ev, ':', 0) < ev.len()) {
            self.add_asset(obj);
        } else if starts_with_exec(&uv, "RS-") {
            self.add_rset(obj);
        } else if starts_with_exec(&uv, "AS") {
            let c = find_char(&uv, ':', 0);
            if c < uv.len() {
                let after = take_range(&uv, c + 1, uv.len());
                if starts_with_exec(&after, "AS-") {
                    self.add_asset(obj);
                } else if starts_with_exec(&after, "RS-") {
                    self.add_rset(obj);
                }
            } else {
                self.add_as(eff);
            }
        } else {
            let has_caret = find_char(&ev, '^', 0) < ev.len();
            if !has_caret {
                if !self.add_prefix(eff) {
                    return false;
                }
            } else {
                if !self.add_prefix_range(eff) {
                    return false;
                }
            }
        }
        true
    }

    /// What `add_object` does with an object (see `object_action`).
    pub fn object_action_of(obj: &str) -> (a: u8)
        ensures
            a == object_action(obj@),
    {
        let eff_s = get_asset(obj);
        let eff = eff_s.as_str();
        if eff.unicode_len() == 0 {
            return 0;
        }
        let up = upper_string(eff);
        let uv = chars_of(up.as_str());
        let ev = chars_of(eff);
        proof {
            lemma_contains_find(uv@, '-');
            lemma_contains_find(uv@, ':');
            lemma_contains_find(ev@, ':');
            lemma_contains_find(ev@, '^');
        }
        if starts_with_exec(&uv, "AS-") || (find_char(&uv, '-', 0) < uv.len() && find_char(&ev, ':', 0) < ev.len()) {
            1
        } else if starts_with_exec(&uv, "RS-") {
            2
        } else if starts_with_exec(&uv, "AS") {
            let c = find_char(&uv, ':', 0);
            if c < uv.len() {
                let after = take_range(&uv, c + 1, uv.len());
                if starts_with_exec(&after, "AS-") {
                    1
                } else if starts_with_exec(&after, "RS-") {
                    2
                } else {
                    0
                }
            } else {
                3
            }
        } else if find_char(&ev, '^', 0) < ev.len() {
            5
        } else {
            4
        }
    }

    /// Records an AS number met while expanding an AS-set: it is added
    /// unless its lower-case name is on the stop list.
    pub fn expand_member_as(&mut self, as_str: &str) -> (added: bool)
        ensures
            texts(old(self).stoplist@).contains(lowercase_of(as_str@)) ==> !added
                && final(self).asn_list@ == old(self).asn_list@,
            !texts(old(self).stoplist@).contains(lowercase_of(as_str@)) ==> match asn_accepted(
                as_str@,
                old(self).config.expand_special_asn,
            ) {
                Some(a) => final(self).asn_list@ == old(self).asn_list@.insert(a) && added == !old(self).asn_list@.contains(a),
                None => final(self).asn_list@ == old(self).asn_list@ && !added,
            },
            final(self).config == old(self).config,
            final(self).tree == old(self).tree,
            final(self).macroses@ == old(self).macroses@,
            final(self).rsets@ == old(self).rsets@,
            final(self).already@ == old(self).already@,
            final(self).stoplist@ == old(self).stoplist@,
    {
        let low = lower_string(as_str);
        if let Some(i) = position_of(&self.stoplist, low.as_str()) {
            assert(texts(self.stoplist@)[i as int] == lowercase_of(as_str@));
            return false;
        }
        self.add_as(as_str)
    }

    /// Decides whether an AS-set met at `depth` is expanded: not when its
    /// lower-case name was already expanded or is on the stop list, nor
    /// when the depth limit is reached; an expanded set is remembered.
    pub fn enter_set(&mut self, name: &str, depth: u32) -> (go: bool)
        requires
            depth < u32::MAX,
        ensures
            go == enter_ok(texts(old(self).already@), texts(old(self).stoplist@), name@, old(self).config.maxdepth, depth),
            texts(final(self).already@) == (if go {
                texts(old(self).already@).push(lowercase_of(name@))
            } else {
                texts(old(self).already@)
            }),
            final(self).config == old(self).config,
            final(self).tree == old(self).tree,
            final(self).asn_list@ == old(self).asn_list@,
            final(self).macroses@ == old(self).macroses@,
            final(self).rsets@ == old(self).rsets@,
            final(self).stoplist@ == old(self).stoplist@,
    {
        let low = lower_string(name);
        if let Some(i) = position_of(&self.already, low.as_str()) {
            assert(texts(self.already@)[i as int] == lowercase_of(name@));
            return false;
        }
        if let Some(i) = position_of(&self.stoplist, low.as_str()) {
            assert(texts(self.stoplist@)[i as int] == lowercase_of(name@));
            return false;
        }
        if self.config.maxdepth == 0 || depth + 1 < self.config.maxdepth {
            self.already.push(low);
            assert(texts(self.already@) =~= texts(old(self).already@).push(lowercase_of(name@)));
            return true;
        }
        false
    }

    /// Marks an AS-set named on the command line as expanded (lower case).
    pub fn mark_expanded(&mut self, name: &str)
        ensures
            texts(final(self).already@) == texts(old(self).already@).push(lowercase_of(name@)),
            final(self).config == old(self).config,
            final(self).tree == old(self).tree,
            final(self).asn_list@ == old(self).asn_list@,
            final(self).macroses@ == old(self).macroses@,
            final(self).rsets@ == old(self).rsets@,
            final(self).stoplist@ == old(self).stoplist@,
    {
        let low = lower_string(name);
        self.already.push(low);
        assert(texts(self.already@) =~= texts(old(self).already@).push(lowercase_of(name@)));
    }

    /// Adds an AS number from a one-level expansion; clears `rval` when it
    /// is refused or already there.
    pub fn expanded_macro(&mut self, as_str: &str, rval: &mut bool)
        ensures
            *final(rval) == (*old(rval) && match asn_accepted(as_str@, old(self).config.expand_special_asn) {
                Some(a) => !old(self).asn_list@.contains(a),
                None => false,
            }),
            final(self).asn_list@ == match asn_accepted(as_str@, old(self).config.expand_special_asn) {
                Some(a) => old(self).asn_list@.insert(a),
                None => old(self).asn_list@,
            },
            final(self).config == old(self).config,
            final(self).tree == old(self).tree,
            final(self).macroses@ == old(self).macroses@,
            final(self).rsets@ == old(self).rsets@,
            final(self).already@ == old(self).already@,
            final(self).stoplist@ == old(self).stoplist@,
    {
        if !self.add_as(as_str) {
            *rval = false;
        }
    }

}

} // verus!
