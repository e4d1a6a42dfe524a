//! The expansion dialogue with an IRRd server, as a state machine: given
//! the expander and what the server last answered, it decides the next
//! request. The connection itself is driven from outside the library,
//! which performs each request and hands back its outcome.

use vstd::prelude::*;
use vstd::string::*;
use std::collections::BTreeSet;
use crate::text::{dec, lowercase_of, push_str, push_u32};
use crate::bgpq4::config::{asn_accepted, Generation};
use crate::bgpq4::expander::{prefix_item_set, range_item_set, asset_of, enter_ok, get_asset, get_source, member_kind, member_kind_spec, source_of, texts, Expander, MemberKind};
use crate::bgpq4::prefix::{keeps_nodes, parse_panics, prefix_parse, range_parse, range_prefix_part, specific_of, RadixTree};
use crate::bgpq4::printer::aspath::{sorted_asns, sorted_of};

verus! {

/// A request to the IRRd connection.
#[derive(Debug, PartialEq)]
pub enum ExpandAction {
    /// Identify the client by this name; the answer is not used.
    Identify(String),
    /// Ask whether the server answers `!a` queries.
    CheckAQuery,
    /// Ask for the list of sources the server has.
    GetSources,
    /// Select these sources (the answer matters only right after the
    /// start, where a refusal ends the run).
    SetSources(String),
    /// Send this query (newline included) and hand back its data.
    Query(String),
    /// Report this error and go on.
    Warn(String),
    /// Stop with this message.
    Fatal(String),
    /// Close the connection: the expansion is over, with this outcome.
    Quit(bool),
}

/// The outcome of the last request.
pub enum ExpandEvent {
    /// The request was made; its answer is not used.
    Done,
    /// Whether `!a` queries are answered.
    AQuery(bool),
    /// The sources list, when it could be read.
    Sources(Option<String>),
    /// Whether the sources were accepted.
    SourcesSet(bool),
    /// The items of the data a query answered, or `None` when it answered
    /// no data.
    Data(Option<Vec<String>>),
}

/// Where the dialogue stands.
#[derive(Debug, Clone, Copy, PartialEq, Eq, Structural)]
pub enum Stage {
    /// Nothing asked yet.
    Start,
    /// Waiting for the identification to be made.
    Identifying,
    /// Waiting for the answer on `!a` support.
    CheckingAQuery,
    /// Waiting for the sources list.
    GettingSources,
    /// Waiting for the configured sources to be accepted.
    SettingSources,
    /// Waiting for the sources of the current AS-set to be selected.
    MacroSources,
    /// Waiting for the members of the current AS-set, every level down
    /// (depth or stop list in force).
    MacroMembers,
    /// Waiting for the routes of the current AS-set (`!a`).
    MacroRoutes,
    /// Waiting for the AS numbers of the current AS-set, one level.
    MacroAsns,
    /// Waiting for the members of a nested AS-set.
    NestedMembers,
    /// Waiting for a warning about a nested member to be reported.
    Warned,
    /// Waiting for the default sources to be selected again.
    RestoringSources,
    /// Waiting for the sources of the current route-set to be selected.
    RsetSources,
    /// Waiting for the routes of the current route-set.
    RsetRoutes,
    /// Waiting for the routes of the current AS number.
    AsnRoutes,
    /// The connection is closed.
    Finished,
    /// The run stopped on refused sources.
    Failed,
}

/// Members of one expanded AS-set still to look at.
pub struct Frame {
    pub items: Vec<String>,
    pub next: usize,
    pub depth: u32,
}

/// The dialogue's own state.
pub struct ExpandRun {
    pub stage: Stage,
    pub aquery: bool,
    pub rval: bool,
    /// Index of the current AS-set.
    pub mi: usize,
    /// Index of the current route-set.
    pub ri: usize,
    /// Index of the current AS number.
    pub ai: usize,
    /// The AS numbers whose routes are asked for, fixed when that part begins.
    pub asns: Vec<u32>,
    /// The AS-sets being expanded, innermost last.
    pub frames: Vec<Frame>,
}

/// A route as the server writes it: a prefix range when it holds '^'.
pub open spec fn route_ok(s: Seq<char>) -> bool {
    if s.contains('^') {
        !parse_panics(0, range_prefix_part(s))
    } else {
        !parse_panics(0, s)
    }
}

/// The query for all members of an AS-set, every level down.
pub open spec fn members_query(asset: Seq<char>) -> Seq<char> {
    "!i"@ + asset + "\n"@
}

/// The query for one level of a set.
pub open spec fn one_level_query(name: Seq<char>) -> Seq<char> {
    "!i"@ + name + ",1\n"@
}

/// The query for the routes of an AS-set in the given family.
pub open spec fn routes_query(family: u8, asset: Seq<char>) -> Seq<char> {
    "!a"@ + (if family == 2 { "4"@ } else { "6"@ }) + asset + "\n"@
}

/// The query for the routes an AS number originates in the given family.
pub open spec fn origin_query(family: u8, asn: u32) -> Seq<char> {
    (if family == 10 { "!6as"@ } else { "!gas"@ }) + dec(asn as nat) + "\n"@
}

/// The warning for a member that is no AS-set, AS number or ANY.
pub open spec fn unexpected_text(item: Seq<char>) -> Seq<char> {
    "unexpected object '"@ + item + "' in expanded_macro_limit"@
}

/// The message when the configured sources are refused.
pub open spec fn sources_refused_text(sources: Seq<char>) -> Seq<char> {
    "Invalid source(s) '"@ + sources + "'"@
}

fn members_query_exec(asset: &str) -> (s: String)
    ensures
        s@ == members_query(asset@),
{
    let mut s = String::from_str("!i");
    push_str(&mut s, asset);
    push_str(&mut s, "\n");
    s
}

fn one_level_query_exec(name: &str) -> (s: String)
    ensures
        s@ == one_level_query(name@),
{
    let mut s = String::from_str("!i");
    push_str(&mut s, name);
    push_str(&mut s, ",1\n");
    s
}

fn routes_query_exec(family: u8, asset: &str) -> (s: String)
    ensures
        s@ == routes_query(family, asset@),
{
    let mut s = String::from_str("!a");
    if family == 2 {
        push_str(&mut s, "4");
    } else {
        push_str(&mut s, "6");
    }
    push_str(&mut s, asset);
    push_str(&mut s, "\n");
    s
}

fn origin_query_exec(family: u8, asn: u32) -> (s: String)
    ensures
        s@ == origin_query(family, asn),
{
    let mut s = if family == 10 { String::from_str("!6as") } else { String::from_str("!gas") };
    push_u32(&mut s, asn);
    push_str(&mut s, "\n");
    s
}

/// The expander's parts that only the tree and AS numbers change in.
pub open spec fn same_lists(a: &Expander, b: &Expander) -> bool {
    &&& a.macroses@ == b.macroses@
    &&& a.rsets@ == b.rsets@
    &&& a.stoplist@ == b.stoplist@
}

/// The configuration, but for the default sources, is unchanged.
pub open spec fn same_config(a: &Expander, b: &Expander) -> bool {
    &&& a.config.family == b.config.family
    &&& a.config.sources == b.config.sources
    &&& a.config.usesource == b.config.usesource
    &&& a.config.maxdepth == b.config.maxdepth
    &&& a.config.generation == b.config.generation
    &&& a.config.identify == b.config.identify
    &&& a.config.validate_asns == b.config.validate_asns
    &&& a.config.expand_special_asn == b.config.expand_special_asn
    &&& a.config.maxlen == b.config.maxlen
}

/// An item taken as a prefix is in the tree when it is accepted: it
/// parses, is of the family and is not longer than `maxlen` (0: any).
pub open spec fn prefix_item_held(t: RadixTree, family: u8, maxlen: u32, s: Seq<char>) -> bool {
    match prefix_parse(0, s) {
        Some((f, ml, a)) => f == family && !(maxlen > 0 && ml > maxlen) ==> t.holds(f, ml, a),
        None => true,
    }
}

/// An item taken as a prefix range `prefix^range` of the family has its
/// more specifics in the tree (and the prefix itself where the range
/// starts at its length).
pub open spec fn range_item_held(t: RadixTree, family: u8, maxlen: u32, s: Seq<char>) -> bool {
    match range_parse(0, maxlen, s) {
        Some((f, ml, a, lo, hi)) => f == family ==> {
            &&& ml >= lo ==> t.holds(f, ml, a)
            &&& forall|l: u32, b: Seq<u8>| lo <= l <= hi && #[trigger] specific_of(a, ml as int, l as int, b) ==> t.holds(f, l, b)
        },
        None => true,
    }
}

/// A route item: a prefix range where it holds '^', else a prefix.
pub open spec fn route_item_held(t: RadixTree, family: u8, maxlen: u32, s: Seq<char>) -> bool {
    if s.contains('^') {
        range_item_held(t, family, maxlen, s)
    } else {
        prefix_item_held(t, family, maxlen, s)
    }
}

/// What the tree holds of an item stays when its nodes keep their data
/// and its walk keeps its nodes.
proof fn lemma_item_held_kept(t0: RadixTree, t1: RadixTree, family: u8, maxlen: u32, s: Seq<char>)
    requires
        keeps_nodes(t0.nodes_view(), t1.nodes_view()),
        forall|x: usize| #[trigger] t0.walk_view().contains(x) ==> t1.walk_view().contains(x),
    ensures
        prefix_item_held(t0, family, maxlen, s) ==> prefix_item_held(t1, family, maxlen, s),
        range_item_held(t0, family, maxlen, s) ==> range_item_held(t1, family, maxlen, s),
{
    if prefix_item_held(t0, family, maxlen, s) {
        if let Some((f, ml, a)) = prefix_parse(0, s) {
            if f == family && !(maxlen > 0 && ml > maxlen) {
                RadixTree::lemma_holds_kept(t0, t1, f, ml, a);
            }
        }
    }
    if range_item_held(t0, family, maxlen, s) {
        if let Some((f, ml, a, lo, hi)) = range_parse(0, maxlen, s) {
            if f == family {
                if ml >= lo {
                    RadixTree::lemma_holds_kept(t0, t1, f, ml, a);
                }
                assert forall|l: u32, b: Seq<u8>| lo <= l <= hi && #[trigger] specific_of(a, ml as int, l as int, b)
                    implies t1.holds(f, l, b) by {
                    RadixTree::lemma_holds_kept(t0, t1, f, l, b);
                }
            }
        }
    }
}

/// What adding a route item lists: a prefix range where it holds '^', else
/// a prefix (see `range_item_set` and `prefix_item_set`).
pub open spec fn route_item_set(cfg_fam: u8, maxlen: u32, tree_fam: u8, s: Seq<char>) -> Set<(u8, u32, Seq<u8>)> {
    if s.contains('^') {
        range_item_set(maxlen, tree_fam, s)
    } else {
        prefix_item_set(cfg_fam, maxlen, tree_fam, s)
    }
}

/// What adding route items in order lists.
pub open spec fn routes_set(cfg_fam: u8, maxlen: u32, tree_fam: u8, items: Seq<Seq<char>>) -> Set<(u8, u32, Seq<u8>)>
    decreases items.len(),
{
    if items.len() == 0 {
        Set::empty()
    } else {
        routes_set(cfg_fam, maxlen, tree_fam, items.drop_last()).union(route_item_set(cfg_fam, maxlen, tree_fam, items.last()))
    }
}

/// What adding prefix items in order lists.
pub open spec fn prefixes_set(cfg_fam: u8, maxlen: u32, tree_fam: u8, items: Seq<Seq<char>>) -> Set<(u8, u32, Seq<u8>)>
    decreases items.len(),
{
    if items.len() == 0 {
        Set::empty()
    } else {
        prefixes_set(cfg_fam, maxlen, tree_fam, items.drop_last()).union(prefix_item_set(cfg_fam, maxlen, tree_fam, items.last()))
    }
}

/// Adds routes: a prefix range for each item holding '^', a prefix for
/// the others. Afterwards the tree holds what each item adds (where the
/// configured family is the tree's).
pub fn absorb_routes(exp: &mut Expander, items: &Vec<String>)
    requires
        old(exp).wf(),
        forall|i: int| 0 <= i < items@.len() ==> route_ok(#[trigger] items@[i]@),
    ensures
        final(exp).wf(),
        keeps_nodes(old(exp).tree.nodes_view(), final(exp).tree.nodes_view()),
        forall|x: usize| #[trigger] old(exp).tree.walk_view().contains(x) ==> final(exp).tree.walk_view().contains(x),
        old(exp).config.family == old(exp).tree.family_view() ==> forall|i: int| 0 <= i < items@.len()
            ==> route_item_held(final(exp).tree, old(exp).config.family, old(exp).config.maxlen, #[trigger] items@[i]@),
        old(exp).tree.clean_nodes() ==> final(exp).tree.clean_nodes() && final(exp).tree.listed() == old(exp).tree.listed().union(
            routes_set(old(exp).config.family, old(exp).config.maxlen, old(exp).tree.family_view(), texts(items@))),
        final(exp).tree.family_view() == old(exp).tree.family_view(),
        final(exp).config == old(exp).config,
        final(exp).asn_list@ == old(exp).asn_list@,
        same_lists(old(exp), final(exp)),
        final(exp).already@ == old(exp).already@,
{
    let ghost fam = exp.config.family;
    let ghost maxlen = exp.config.maxlen;
    let ghost same = exp.config.family == exp.tree.family_view();
    proof {
        assert(texts(items@).take(0) =~= Seq::<Seq<char>>::empty());
        assert(exp.tree.listed().union(Set::empty()) =~= exp.tree.listed());
    }
    let mut i: usize = 0;
    while i < items.len()
        invariant
            i <= items@.len(),
            exp.wf(),
            forall|k: int| 0 <= k < items@.len() ==> route_ok(#[trigger] items@[k]@),
            keeps_nodes(old(exp).tree.nodes_view(), exp.tree.nodes_view()),
            forall|x: usize| #[trigger] old(exp).tree.walk_view().contains(x) ==> exp.tree.walk_view().contains(x),
            fam == old(exp).config.family,
            maxlen == old(exp).config.maxlen,
            same == (old(exp).config.family == old(exp).tree.family_view()),
            same ==> forall|k: int| 0 <= k < i ==> route_item_held(exp.tree, fam, maxlen, #[trigger] items@[k]@),
            old(exp).tree.clean_nodes() ==> exp.tree.clean_nodes() && exp.tree.listed() == old(exp).tree.listed().union(
                routes_set(fam, maxlen, old(exp).tree.family_view(), texts(items@).take(i as int))),
            exp.tree.family_view() == old(exp).tree.family_view(),
            exp.config == old(exp).config,
            exp.asn_list@ == old(exp).asn_list@,
            same_lists(old(exp), exp),
            exp.already@ == old(exp).already@,
        decreases items@.len() - i,
    {
        let item = items[i].as_str();
        let v = crate::text::chars_of(item);
        proof {
            crate::text::lemma_contains_find(v@, '^');
            assert(route_ok(items@[i as int]@));
        }
        let ghost t_before = exp.tree;
        let ghost before = exp.tree.nodes_view();
        if crate::text::find_char(&v, '^', 0) < v.len() {
            let r = exp.add_prefix_range(item);
            proof {
                if !r { assert(exp.tree == t_before); }
            }
        } else {
            let r = exp.add_prefix(item);
            proof {
                if !r { assert(exp.tree == t_before); }
            }
        }
        proof {
            crate::bgpq4::prefix::lemma_keeps_trans(old(exp).tree.nodes_view(), before, exp.tree.nodes_view());
            let tx = texts(items@);
            assert(tx.take(i + 1).drop_last() =~= tx.take(i as int));
            assert(tx.take(i + 1).last() == items@[i as int]@);
            if old(exp).tree.clean_nodes() {
                assert(exp.tree.listed() =~= old(exp).tree.listed().union(routes_set(fam, maxlen, old(exp).tree.family_view(), tx.take(i + 1))));
            }
            if same {
                assert forall|k: int| 0 <= k < i + 1 implies route_item_held(exp.tree, fam, maxlen, #[trigger] items@[k]@) by {
                    if k < i {
                        lemma_item_held_kept(t_before, exp.tree, fam, maxlen, items@[k]@);
                    }
                }
            }
        }
        i = i + 1;
    }
    proof { assert(texts(items@).take(items@.len() as int) =~= texts(items@)); }
}

/// Adds each item as a prefix. Afterwards the tree holds each accepted
/// item (where the configured family is the tree's).
pub fn absorb_prefixes(exp: &mut Expander, items: &Vec<String>)
    requires
        old(exp).wf(),
        forall|i: int| 0 <= i < items@.len() ==> !parse_panics(0, #[trigger] items@[i]@),
    ensures
        final(exp).wf(),
        keeps_nodes(old(exp).tree.nodes_view(), final(exp).tree.nodes_view()),
        forall|x: usize| #[trigger] old(exp).tree.walk_view().contains(x) ==> final(exp).tree.walk_view().contains(x),
        old(exp).config.family == old(exp).tree.family_view() ==> forall|i: int| 0 <= i < items@.len()
            ==> prefix_item_held(final(exp).tree, old(exp).config.family, old(exp).config.maxlen, #[trigger] items@[i]@),
        old(exp).tree.clean_nodes() ==> final(exp).tree.clean_nodes() && final(exp).tree.listed() == old(exp).tree.listed().union(
            prefixes_set(old(exp).config.family, old(exp).config.maxlen, old(exp).tree.family_view(), texts(items@))),
        final(exp).tree.family_view() == old(exp).tree.family_view(),
        final(exp).config == old(exp).config,
        final(exp).asn_list@ == old(exp).asn_list@,
        same_lists(old(exp), final(exp)),
        final(exp).already@ == old(exp).already@,
{
    let ghost fam = exp.config.family;
    let ghost maxlen = exp.config.maxlen;
    let ghost same = exp.config.family == exp.tree.family_view();
    proof {
        assert(texts(items@).take(0) =~= Seq::<Seq<char>>::empty());
        assert(exp.tree.listed().union(Set::empty()) =~= exp.tree.listed());
    }
    let mut i: usize = 0;
    while i < items.len()
        invariant
            i <= items@.len(),
            exp.wf(),
            forall|k: int| 0 <= k < items@.len() ==> !parse_panics(0, #[trigger] items@[k]@),
            keeps_nodes(old(exp).tree.nodes_view(), exp.tree.nodes_view()),
            forall|x: usize| #[trigger] old(exp).tree.walk_view().contains(x) ==> exp.tree.walk_view().contains(x),
            fam == old(exp).config.family,
            maxlen == old(exp).config.maxlen,
            same == (old(exp).config.family == old(exp).tree.family_view()),
            same ==> forall|k: int| 0 <= k < i ==> prefix_item_held(exp.tree, fam, maxlen, #[trigger] items@[k]@),
            old(exp).tree.clean_nodes() ==> exp.tree.clean_nodes() && exp.tree.listed() == old(exp).tree.listed().union(
                prefixes_set(fam, maxlen, old(exp).tree.family_view(), texts(items@).take(i as int))),
            exp.tree.family_view() == old(exp).tree.family_view(),
            exp.config == old(exp).config,
            exp.asn_list@ == old(exp).asn_list@,
            same_lists(old(exp), exp),
            exp.already@ == old(exp).already@,
        decreases items@.len() - i,
    {
        let ghost t_before = exp.tree;
        let ghost before = exp.tree.nodes_view();
        assert(!parse_panics(0, items@[i as int]@));
        let r = exp.add_prefix(items[i].as_str());
        proof {
            if !r { assert(exp.tree == t_before); }
            let tx = texts(items@);
            assert(tx.take(i + 1).drop_last() =~= tx.take(i as int));
            assert(tx.take(i + 1).last() == items@[i as int]@);
            if old(exp).tree.clean_nodes() {
                assert(exp.tree.listed() =~= old(exp).tree.listed().union(prefixes_set(fam, maxlen, old(exp).tree.family_view(), tx.take(i + 1))));
            }
            crate::bgpq4::prefix::lemma_keeps_trans(old(exp).tree.nodes_view(), before, exp.tree.nodes_view());
            if same {
                assert forall|k: int| 0 <= k < i + 1 implies prefix_item_held(exp.tree, fam, maxlen, #[trigger] items@[k]@) by {
                    if k < i {
                        lemma_item_held_kept(t_before, exp.tree, fam, maxlen, items@[k]@);
                    }
                }
            }
        }
        i = i + 1;
    }
    proof { assert(texts(items@).take(items@.len() as int) =~= texts(items@)); }
}

/// The AS numbers among `items`, added in order from `set`.
pub open spec fn asns_added(set: Set<u32>, items: Seq<Seq<char>>, special: bool) -> Set<u32>
    decreases items.len(),
{
    if items.len() == 0 {
        set
    } else {
        let s = asns_added(set, items.drop_last(), special);
        match asn_accepted(items.last(), special) {
            Some(a) => s.insert(a),
            None => s,
        }
    }
}

proof fn lemma_asns_added_grows(set: Set<u32>, items: Seq<Seq<char>>, special: bool)
    ensures
        set.subset_of(asns_added(set, items, special)),
    decreases items.len(),
{
    if items.len() > 0 {
        lemma_asns_added_grows(set, items.drop_last(), special);
    }
}

/// Every item is an accepted AS number that was not there before it.
pub open spec fn all_new(set: Set<u32>, items: Seq<Seq<char>>, special: bool) -> bool
    decreases items.len(),
{
    if items.len() == 0 {
        true
    } else {
        all_new(set, items.drop_last(), special) && match asn_accepted(items.last(), special) {
            Some(a) => !asns_added(set, items.drop_last(), special).contains(a),
            None => false,
        }
    }
}

/// Adds each item as an AS number (a one-level expansion); `rval` is
/// cleared unless every one is accepted and new.
pub fn absorb_asns(exp: &mut Expander, items: &Vec<String>, rval: &mut bool)
    ensures
        final(exp).asn_list@ == asns_added(old(exp).asn_list@, texts(items@), old(exp).config.expand_special_asn),
        old(exp).asn_list@.subset_of(final(exp).asn_list@),
        *final(rval) == (*old(rval) && all_new(old(exp).asn_list@, texts(items@), old(exp).config.expand_special_asn)),
        final(exp).config == old(exp).config,
        final(exp).tree == old(exp).tree,
        same_lists(old(exp), final(exp)),
        final(exp).already@ == old(exp).already@,
{
    let ghost start = exp.asn_list@;
    let ghost special = exp.config.expand_special_asn;
    let ghost r0 = *rval;
    let mut i: usize = 0;
    while i < items.len()
        invariant
            i <= items@.len(),
            special == old(exp).config.expand_special_asn,
            exp.config == old(exp).config,
            exp.tree == old(exp).tree,
            same_lists(old(exp), exp),
            exp.already@ == old(exp).already@,
            exp.asn_list@ == asns_added(start, texts(items@).take(i as int), special),
            *rval == (r0 && all_new(start, texts(items@).take(i as int), special)),
        decreases items@.len() - i,
    {
        assert(texts(items@).take(i + 1).drop_last() =~= texts(items@).take(i as int));
        assert(texts(items@).take(i + 1).last() == items@[i as int]@);
        exp.expanded_macro(items[i].as_str(), rval);
        i = i + 1;
    }
    assert(texts(items@).take(items@.len() as int) =~= texts(items@));
    proof { lemma_asns_added_grows(start, texts(items@), special); }
}

impl ExpandRun {
    pub fn new() -> (r: ExpandRun)
        ensures
            r.stage == Stage::Start,
            r.rval,
            !r.aquery,
            r.mi == 0 && r.ri == 0 && r.ai == 0,
            r.asns@.len() == 0,
            r.frames@.len() == 0,
    {
        ExpandRun { stage: Stage::Start, aquery: false, rval: true, mi: 0, ri: 0, ai: 0, asns: Vec::new(), frames: Vec::new() }
    }

    /// The nesting depths of the frames count up from 0.
    pub open spec fn inv(&self) -> bool {
        &&& forall|k: int| 0 <= k < self.frames@.len() ==> (#[trigger] self.frames@[k]).depth == k
        &&& forall|k: int| 0 <= k < self.frames@.len() ==> (#[trigger] self.frames@[k]).next <= self.frames@[k].items@.len()
        &&& self.frames@.len() < u32::MAX
    }

    /// What a data answer must hold for the stage it answers: routes that
    /// can be read without a fault, and prefixes for a route-set.
    pub open spec fn data_ok(&self, items: Seq<Seq<char>>) -> bool {
        match self.stage {
            Stage::MacroRoutes | Stage::AsnRoutes => forall|i: int| 0 <= i < items.len() ==> route_ok(#[trigger] items[i]),
            Stage::RsetRoutes => forall|i: int| 0 <= i < items.len() ==> !parse_panics(0, #[trigger] items[i]),
            _ => true,
        }
    }
}

/// The sources selected for an object: its own "SOURCE::" part, or the
/// default sources.
pub open spec fn sources_for(obj: Seq<char>, default: Seq<char>) -> Seq<char> {
    match source_of(obj) {
        Some(src) => src,
        None => default,
    }
}

/// The member taken last from the innermost frame.
pub open spec fn last_member(run: &ExpandRun) -> Seq<char> {
    let f = run.frames@.last();
    f.items@[f.next - 1]@
}

/// The request that goes with each stage of the dialogue.
pub open spec fn request_is(a: ExpandAction, run: &ExpandRun, exp: &Expander) -> bool {
    match run.stage {
        Stage::Start => false,
        Stage::Identifying => a matches ExpandAction::Identify(n) && n@ == "bgpq4-rs"@,
        Stage::CheckingAQuery => a is CheckAQuery,
        Stage::GettingSources => a is GetSources,
        Stage::SettingSources => a matches ExpandAction::SetSources(s) && s@ == exp.config.sources@,
        Stage::MacroSources => a matches ExpandAction::SetSources(s) && s@ == sources_for(
            exp.macroses@[run.mi as int]@,
            exp.config.defaultsources@,
        ),
        Stage::MacroMembers => a matches ExpandAction::Query(q) && q@ == members_query(asset_of(exp.macroses@[run.mi as int]@)),
        Stage::MacroRoutes => a matches ExpandAction::Query(q) && q@ == routes_query(
            exp.config.family,
            asset_of(exp.macroses@[run.mi as int]@),
        ),
        Stage::MacroAsns => a matches ExpandAction::Query(q) && q@ == one_level_query(asset_of(exp.macroses@[run.mi as int]@)),
        Stage::NestedMembers => a matches ExpandAction::Query(q) && q@ == members_query(asset_of(last_member(run))),
        Stage::Warned => a matches ExpandAction::Warn(w) && w@ == unexpected_text(last_member(run)),
        Stage::RestoringSources => a matches ExpandAction::SetSources(s) && s@ == exp.config.defaultsources@,
        Stage::RsetSources => a matches ExpandAction::SetSources(s) && s@ == sources_for(
            exp.rsets@[run.ri as int]@,
            exp.config.defaultsources@,
        ),
        Stage::RsetRoutes => a matches ExpandAction::Query(q) && q@ == one_level_query(asset_of(exp.rsets@[run.ri as int]@)),
        Stage::AsnRoutes => a matches ExpandAction::Query(q) && q@ == origin_query(exp.config.family, run.asns@[run.ai as int]),
        Stage::Finished => a == ExpandAction::Quit(run.rval),
        Stage::Failed => a matches ExpandAction::Fatal(m) && m@ == sources_refused_text(exp.config.sources@),
    }
}

/// The decisions that each stage stands for: which way an AS-set is
/// expanded, the bounds of the current indices, and the AS numbers whose
/// routes are asked for.
pub open spec fn stage_facts(run: &ExpandRun, exp: &Expander) -> bool {
    &&& (run.stage == Stage::MacroSources || run.stage == Stage::MacroMembers || run.stage == Stage::MacroRoutes
        || run.stage == Stage::MacroAsns ==> run.mi < exp.macroses@.len())
    &&& (run.stage == Stage::CheckingAQuery ==> exp.config.generation.rank_spec() >= Generation::PrefixList.rank_spec()
        && exp.macroses@.len() > 0 && !exp.config.usesource)
    &&& (run.stage == Stage::MacroSources ==> exp.config.usesource)
    &&& (run.stage == Stage::MacroMembers ==> exp.config.maxdepth != 0 || exp.stoplist@.len() > 0)
    &&& (run.stage == Stage::MacroRoutes ==> run.aquery && exp.config.maxdepth == 0 && exp.stoplist@.len() == 0)
    &&& (run.stage == Stage::MacroAsns ==> !run.aquery && exp.config.maxdepth == 0 && exp.stoplist@.len() == 0)
    &&& (run.stage == Stage::NestedMembers || run.stage == Stage::Warned ==> run.frames@.len() > 0
        && run.frames@.last().next > 0 && run.mi < exp.macroses@.len())
    &&& (run.stage == Stage::NestedMembers ==> member_kind_spec(last_member(run)) == MemberKind::AsSet)
    &&& (run.stage == Stage::Warned ==> member_kind_spec(last_member(run)) == MemberKind::Unexpected)
    &&& (run.stage == Stage::RsetSources || run.stage == Stage::RsetRoutes ==> run.ri < exp.rsets@.len())
    &&& (run.stage == Stage::RsetSources ==> exp.config.usesource)
    &&& (run.stage == Stage::RsetSources || run.stage == Stage::RsetRoutes ==> run.ai == 0)
    &&& (run.stage == Stage::AsnRoutes ==> run.ai < run.asns@.len())
    &&& (run.stage == Stage::RsetSources || run.stage == Stage::RsetRoutes || run.stage == Stage::AsnRoutes ==> run.asns@
        == sorted_of(exp.asn_list@))
}

/// The text is not empty.
pub open spec fn has_text(s: Seq<char>) -> bool {
    s.len() > 0
}

/// Whether a string is not empty (see `has_text`).
fn has_text_exec(s: &String) -> (b: bool)
    ensures
        b == has_text(s@),
{
    s.as_str().unicode_len() > 0
}

/// The stage of the AS-number part at index `ai` of `n` numbers.
pub open spec fn asn_stage(ai: int, n: int) -> Stage {
    if ai < n { Stage::AsnRoutes } else { Stage::Finished }
}

/// The stage at route-set `ri`: its sources first where each object has
/// its own, else its routes; past the last, the AS numbers.
pub open spec fn rset_stage(exp: &Expander, ri: int, ai: int, n: int) -> Stage {
    if ri < exp.rsets@.len() {
        if exp.config.usesource { Stage::RsetSources } else { Stage::RsetRoutes }
    } else {
        asn_stage(ai, n)
    }
}

/// The stage the routes part begins with: the first route-set (or AS
/// number) when prefixes are generated or AS numbers validated, else the
/// end.
pub open spec fn routes_stage(exp: &Expander) -> Stage {
    if exp.config.generation.rank_spec() >= Generation::PrefixList.rank_spec() || exp.config.validate_asns {
        rset_stage(exp, 0, 0, sorted_of(exp.asn_list@).len() as int)
    } else {
        Stage::Finished
    }
}

/// The stage after the AS-sets: the default sources are selected again
/// where any sources are known, else the routes part.
pub open spec fn after_macros_stage(exp: &Expander) -> Stage {
    if has_text(exp.config.sources@) || has_text(exp.config.defaultsources@) {
        Stage::RestoringSources
    } else {
        routes_stage(exp)
    }
}

/// The query stage of an AS-set: every level down under a depth limit or
/// stop list, else its routes where `!a` is answered, else one level.
pub open spec fn macro_query_stage(exp: &Expander, aquery: bool) -> Stage {
    if exp.config.maxdepth != 0 || exp.stoplist@.len() > 0 {
        Stage::MacroMembers
    } else if aquery {
        Stage::MacroRoutes
    } else {
        Stage::MacroAsns
    }
}

/// The stage at AS-set `mi`: its sources first where each object has its
/// own, else its query; past the last, what follows the AS-sets.
pub open spec fn macro_stage(exp: &Expander, mi: int, aquery: bool) -> Stage {
    if mi < exp.macroses@.len() {
        if exp.config.usesource { Stage::MacroSources } else { macro_query_stage(exp, aquery) }
    } else {
        after_macros_stage(exp)
    }
}

/// The stage once the default sources are known: the configured sources
/// are selected where there are any, else the first AS-set.
pub open spec fn configured_stage(exp: &Expander, aquery: bool) -> Stage {
    if has_text(exp.config.sources@) { Stage::SettingSources } else { macro_stage(exp, 0, aquery) }
}

/// The stage that decides the default sources: the configured ones are
/// selected where there are any, else the server's list is asked for.
pub open spec fn sources_stage(exp: &Expander) -> Stage {
    if has_text(exp.config.sources@) { Stage::SettingSources } else { Stage::GettingSources }
}

/// The stage after the identification: the `!a` check where prefixes are
/// generated from AS-sets with one set of sources, else the sources.
pub open spec fn identified_stage(exp: &Expander) -> Stage {
    if exp.config.generation.rank_spec() >= Generation::PrefixList.rank_spec() && exp.macroses@.len() > 0
        && !exp.config.usesource {
        Stage::CheckingAQuery
    } else {
        sources_stage(exp)
    }
}

/// A frame as plain values: its members and the index of the next one.
pub open spec fn frame_view(f: Frame) -> (Seq<Seq<char>>, int) {
    (texts(f.items@), f.next as int)
}

/// The frames as plain values.
pub open spec fn frames_view(fr: Seq<Frame>) -> Seq<(Seq<Seq<char>>, int)> {
    fr.map_values(|f: Frame| frame_view(f))
}

/// Members left to look at, counting one for each frame.
pub open spec fn pending_v(fr: Seq<(Seq<Seq<char>>, int)>) -> nat
    decreases fr.len(),
{
    if fr.len() == 0 {
        0
    } else {
        let f = fr.last();
        pending_v(fr.drop_last()) + (if f.1 < f.0.len() { (f.0.len() - f.1) as nat } else { 0 }) + 1
    }
}

/// The AS numbers after an AS-number member: the accepted number is added
/// unless the member is on the stop list (see `expand_member_as`).
pub open spec fn asn_member(asns: Set<u32>, stop: Seq<Seq<char>>, item: Seq<char>, special: bool) -> Set<u32> {
    if stop.contains(lowercase_of(item)) {
        asns
    } else {
        match asn_accepted(item, special) {
            Some(a) => asns.insert(a),
            None => asns,
        }
    }
}

/// The walk over the members of the AS-sets being expanded, innermost
/// frame first: finished frames are dropped; an AS number is added (see
/// `asn_member`); "ANY" is passed over; an AS-set that may be entered
/// (`enter_ok` at the frame's depth) stops the walk (outcome 1) with its
/// lower-case name added to the expanded ones; an AS-set that may not is
/// passed over; any other member stops it (outcome 2); no frame left ends
/// it (outcome 0). The result: the outcome, the frames, the expanded names
/// and the AS numbers after the walk.
pub open spec fn walk_spec(
    fr: Seq<(Seq<Seq<char>>, int)>,
    already: Seq<Seq<char>>,
    stop: Seq<Seq<char>>,
    asns: Set<u32>,
    special: bool,
    maxdepth: u32,
) -> (int, Seq<(Seq<Seq<char>>, int)>, Seq<Seq<char>>, Set<u32>)
    decreases pending_v(fr),
{
    if fr.len() == 0 {
        (0, fr, already, asns)
    } else {
        let f = fr.last();
        if f.1 >= f.0.len() || f.1 < 0 {
            walk_spec(fr.drop_last(), already, stop, asns, special, maxdepth)
        } else {
            let item = f.0[f.1];
            let fr2 = fr.drop_last().push((f.0, f.1 + 1));
            proof {
                assert(fr2.drop_last() =~= fr.drop_last());
            }
            let depth = (fr.len() - 1) as u32;
            match member_kind_spec(item) {
                MemberKind::AsSet => if enter_ok(already, stop, item, maxdepth, depth) {
                    (1, fr2, already.push(lowercase_of(item)), asns)
                } else {
                    walk_spec(fr2, already, stop, asns, special, maxdepth)
                },
                MemberKind::Asn => walk_spec(fr2, already, stop, asn_member(asns, stop, item, special), special, maxdepth),
                MemberKind::Any => walk_spec(fr2, already, stop, asns, special, maxdepth),
                MemberKind::Unexpected => (2, fr2, already, asns),
            }
        }
    }
}

/// The walk from the run's frames over the expander's state.
pub open spec fn walk_of(fr: Seq<Frame>, exp: &Expander) -> (int, Seq<(Seq<Seq<char>>, int)>, Seq<Seq<char>>, Set<u32>) {
    walk_spec(frames_view(fr), texts(exp.already@), texts(exp.stoplist@), exp.asn_list@, exp.config.expand_special_asn,
        exp.config.maxdepth)
}

/// The frames the member walk starts from: a data answer to a members
/// query adds a frame of its members at the next depth.
pub open spec fn members_frames(fr: Seq<Frame>, stage: Stage, ev: ExpandEvent) -> Seq<Frame> {
    match ev {
        ExpandEvent::Data(Some(items)) => if stage != Stage::Warned {
            fr.push(Frame { items, next: 0, depth: fr.len() as u32 })
        } else {
            fr
        },
        _ => fr,
    }
}

/// The expanded names after the next AS-set is taken up: its lower-case
/// name is added when it is expanded every level down.
pub open spec fn after_next_macro(already: Seq<Seq<char>>, stage: Stage, exp: &Expander, mi: int) -> Seq<Seq<char>> {
    if stage == Stage::MacroMembers { already.push(lowercase_of(asset_of(exp.macroses@[mi]@))) } else { already }
}

/// Remaining members to look at, counting one for each frame.
pub open spec fn pending(frames: Seq<Frame>) -> int
    decreases frames.len(),
{
    if frames.len() == 0 {
        0
    } else {
        pending(frames.drop_last()) + (frames.last().items@.len() - frames.last().next) + 1
    }
}

impl ExpandRun {
    /// Ends the dialogue.
    fn quit(&mut self) -> (a: ExpandAction)
        ensures
            final(self).stage == Stage::Finished,
            a == ExpandAction::Quit(final(self).rval),
            final(self).rval == old(self).rval,
            final(self).frames@ == old(self).frames@,
            final(self).asns@ == old(self).asns@,
            final(self).mi == old(self).mi && final(self).ri == old(self).ri && final(self).ai == old(self).ai,
            final(self).aquery == old(self).aquery,
            final(self).stage != Stage::Failed,
    {
        self.stage = Stage::Finished;
        ExpandAction::Quit(self.rval)
    }

    /// Asks for the routes of the next AS number, or ends.
    fn next_asn(&mut self, exp: &Expander) -> (a: ExpandAction)
        requires
            old(self).asns@ == sorted_of(exp.asn_list@),
        ensures
            request_is(a, final(self), exp),
            stage_facts(final(self), exp),
            final(self).rval == old(self).rval,
            final(self).frames@ == old(self).frames@,
            final(self).asns@ == old(self).asns@,
            final(self).mi == old(self).mi && final(self).ri == old(self).ri && final(self).ai == old(self).ai,
            final(self).stage == Stage::AsnRoutes || final(self).stage == Stage::Finished,
            final(self).aquery == old(self).aquery,
            final(self).stage != Stage::Failed,
            final(self).stage == asn_stage(old(self).ai as int, old(self).asns@.len() as int),
    {
        if self.ai < self.asns.len() {
            self.stage = Stage::AsnRoutes;
            ExpandAction::Query(origin_query_exec(exp.config.family, self.asns[self.ai]))
        } else {
            self.quit()
        }
    }

    /// Asks for the routes of the current route-set.
    fn rset_query(&mut self, exp: &Expander) -> (a: ExpandAction)
        requires
            old(self).ri < exp.rsets@.len(),
            old(self).asns@ == sorted_of(exp.asn_list@),
            old(self).ai == 0,
        ensures
            request_is(a, final(self), exp),
            stage_facts(final(self), exp),
            final(self).stage == Stage::RsetRoutes,
            final(self).rval == old(self).rval,
            final(self).frames@ == old(self).frames@,
            final(self).asns@ == old(self).asns@,
            final(self).mi == old(self).mi && final(self).ri == old(self).ri && final(self).ai == old(self).ai,
            final(self).aquery == old(self).aquery,
            final(self).stage != Stage::Failed,
    {
        let name = get_asset(exp.rsets[self.ri].as_str());
        self.stage = Stage::RsetRoutes;
        ExpandAction::Query(one_level_query_exec(name.as_str()))
    }

    /// The sources to select for an object.
    fn sources_for_exec(obj: &str, exp: &Expander) -> (s: String)
        ensures
            s@ == sources_for(obj@, exp.config.defaultsources@),
    {
        match get_source(obj) {
            Some(src) => src,
            None => exp.config.defaultsources.clone(),
        }
    }

    /// Goes on with the route-set at `ri`, or the AS numbers after them.
    fn next_rset(&mut self, exp: &Expander) -> (a: ExpandAction)
        requires
            old(self).asns@ == sorted_of(exp.asn_list@),
            old(self).ai == 0,
        ensures
            request_is(a, final(self), exp),
            stage_facts(final(self), exp),
            final(self).rval == old(self).rval,
            final(self).frames@ == old(self).frames@,
            final(self).asns@ == old(self).asns@,
            final(self).mi == old(self).mi && final(self).ri == old(self).ri && final(self).ai == old(self).ai,
            final(self).aquery == old(self).aquery,
            final(self).stage != Stage::Failed,
            final(self).stage == rset_stage(exp, old(self).ri as int, old(self).ai as int, old(self).asns@.len() as int),
    {
        if self.ri < exp.rsets.len() {
            if exp.config.usesource {
                let src = Self::sources_for_exec(exp.rsets[self.ri].as_str(), exp);
                self.stage = Stage::RsetSources;
                ExpandAction::SetSources(src)
            } else {
                self.rset_query(exp)
            }
        } else {
            self.next_asn(exp)
        }
    }

    /// After the AS-sets: the route-sets and AS numbers when prefixes are
    /// generated or AS numbers validated, else the end.
    fn begin_routes(&mut self, exp: &Expander) -> (a: ExpandAction)
        ensures
            request_is(a, final(self), exp),
            stage_facts(final(self), exp),
            final(self).rval == old(self).rval,
            final(self).frames@ == old(self).frames@,
            final(self).mi == old(self).mi,
            final(self).ri >= old(self).ri || final(self).ri == 0,
            exp.config.generation.rank_spec() >= Generation::PrefixList.rank_spec() || exp.config.validate_asns
                ==> final(self).asns@ == sorted_of(exp.asn_list@),
            !(exp.config.generation.rank_spec() >= Generation::PrefixList.rank_spec() || exp.config.validate_asns)
                ==> final(self).stage == Stage::Finished,
            final(self).aquery == old(self).aquery,
            final(self).stage != Stage::Failed,
            final(self).stage == routes_stage(exp),
    {
        if exp.config.generation.rank() >= Generation::PrefixList.rank() || exp.config.validate_asns {
            self.asns = sorted_asns(&exp.asn_list);
            self.ri = 0;
            self.ai = 0;
            self.next_rset(exp)
        } else {
            self.quit()
        }
    }

    /// After the AS-sets: the default sources are selected again when any
    /// sources are known.
    fn after_macros(&mut self, exp: &Expander) -> (a: ExpandAction)
        ensures
            request_is(a, final(self), exp),
            stage_facts(final(self), exp),
            final(self).rval == old(self).rval,
            final(self).frames@ == old(self).frames@,
            final(self).mi == old(self).mi,
            final(self).aquery == old(self).aquery,
            final(self).stage != Stage::Failed,
            final(self).stage == after_macros_stage(exp),
    {
        if has_text_exec(&exp.config.sources) || has_text_exec(&exp.config.defaultsources) {
            self.stage = Stage::RestoringSources;
            ExpandAction::SetSources(exp.config.defaultsources.clone())
        } else {
            self.begin_routes(exp)
        }
    }
}

impl ExpandRun {
    /// The query that expands the current AS-set: every level down when a
    /// depth limit or a stop list is in force (the set is marked expanded),
    /// else its routes when `!a` is answered, else one level of AS numbers.
    fn macro_query(&mut self, exp: &mut Expander) -> (a: ExpandAction)
        requires
            old(self).mi < old(exp).macroses@.len(),
        ensures
            request_is(a, final(self), final(exp)),
            stage_facts(final(self), final(exp)),
            final(exp).config == old(exp).config,
            final(exp).tree == old(exp).tree,
            final(exp).asn_list@ == old(exp).asn_list@,
            same_lists(old(exp), final(exp)),
            texts(final(exp).already@) == (if final(self).stage == Stage::MacroMembers {
                texts(old(exp).already@).push(lowercase_of(asset_of(old(exp).macroses@[old(self).mi as int]@)))
            } else {
                texts(old(exp).already@)
            }),
            final(self).rval == old(self).rval,
            final(self).aquery == old(self).aquery,
            final(self).frames@ == old(self).frames@,
            final(self).mi == old(self).mi,
            final(self).stage != Stage::Failed,
            final(self).stage == macro_query_stage(old(exp), old(self).aquery),
    {
        let asset = get_asset(exp.macroses[self.mi].as_str());
        if exp.config.maxdepth != 0 || exp.stoplist.len() > 0 {
            exp.mark_expanded(asset.as_str());
            self.stage = Stage::MacroMembers;
            ExpandAction::Query(members_query_exec(asset.as_str()))
        } else if self.aquery {
            self.stage = Stage::MacroRoutes;
            ExpandAction::Query(routes_query_exec(exp.config.family, asset.as_str()))
        } else {
            self.stage = Stage::MacroAsns;
            ExpandAction::Query(one_level_query_exec(asset.as_str()))
        }
    }

    /// Goes on with the AS-set at `mi`, or what follows the AS-sets.
    fn next_macro(&mut self, exp: &mut Expander) -> (a: ExpandAction)
        ensures
            request_is(a, final(self), final(exp)),
            stage_facts(final(self), final(exp)),
            final(exp).config == old(exp).config,
            final(exp).tree == old(exp).tree,
            final(exp).asn_list@ == old(exp).asn_list@,
            same_lists(old(exp), final(exp)),
            final(self).rval == old(self).rval,
            final(self).frames@ == old(self).frames@,
            final(self).mi == old(self).mi,
            final(self).aquery == old(self).aquery,
            final(self).stage != Stage::Failed,
            final(self).stage == macro_stage(old(exp), old(self).mi as int, old(self).aquery),
            texts(final(exp).already@) == after_next_macro(texts(old(exp).already@), final(self).stage, old(exp), old(self).mi as int),
    {
        if self.mi < exp.macroses.len() {
            if exp.config.usesource {
                let src = Self::sources_for_exec(exp.macroses[self.mi].as_str(), exp);
                self.stage = Stage::MacroSources;
                ExpandAction::SetSources(src)
            } else {
                self.macro_query(exp)
            }
        } else {
            self.after_macros(exp)
        }
    }
}

proof fn lemma_pending_pop(frames: Seq<Frame>)
    requires
        frames.len() > 0,
        frames.last().next <= frames.last().items@.len(),
    ensures
        pending(frames) == pending(frames.drop_last()) + (frames.last().items@.len() - frames.last().next) + 1,
{
}

proof fn lemma_pending_nonneg(frames: Seq<Frame>)
    requires
        forall|k: int| 0 <= k < frames.len() ==> (#[trigger] frames[k]).next <= frames[k].items@.len(),
    ensures
        pending(frames) >= 0,
    decreases frames.len(),
{
    if frames.len() > 0 {
        lemma_pending_nonneg(frames.drop_last());
    }
}

impl ExpandRun {
    /// Looks at the members of the AS-sets being expanded, innermost first
    /// and in order: an AS-set not yet expanded, not stopped and within
    /// the depth limit is asked for; an AS number is added unless stopped;
    /// ANY is passed over; anything else is reported. When no member is
    /// left, the next AS-set follows.
    fn walk_members(&mut self, exp: &mut Expander) -> (a: ExpandAction)
        requires
            old(self).inv(),
            old(self).mi < old(exp).macroses@.len(),
        ensures
            request_is(a, final(self), final(exp)),
            stage_facts(final(self), final(exp)),
            final(self).inv(),
            final(exp).config == old(exp).config,
            final(exp).tree == old(exp).tree,
            old(exp).asn_list@.subset_of(final(exp).asn_list@),
            same_lists(old(exp), final(exp)),
            final(self).rval == old(self).rval,
            final(self).mi >= old(self).mi,
            final(self).aquery == old(self).aquery,
            final(self).stage != Stage::Failed,
            final(self).stage == Stage::NestedMembers || final(self).stage == Stage::Warned || (final(self).mi == old(self).mi + 1
                && final(self).frames@.len() == 0 && final(self).stage == macro_stage(final(exp), old(self).mi + 1, old(self).aquery)),
            final(exp).asn_list@ == walk_of(old(self).frames@, old(exp)).3,
            walk_of(old(self).frames@, old(exp)).0 == 1 ==> final(self).stage == Stage::NestedMembers
                && frames_view(final(self).frames@) == walk_of(old(self).frames@, old(exp)).1
                && texts(final(exp).already@) == walk_of(old(self).frames@, old(exp)).2,
            walk_of(old(self).frames@, old(exp)).0 == 2 ==> final(self).stage == Stage::Warned
                && frames_view(final(self).frames@) == walk_of(old(self).frames@, old(exp)).1
                && texts(final(exp).already@) == walk_of(old(self).frames@, old(exp)).2,
            walk_of(old(self).frames@, old(exp)).0 == 0 ==> final(self).mi == old(self).mi + 1 && final(self).frames@.len() == 0
                && final(self).stage == macro_stage(final(exp), old(self).mi + 1, old(self).aquery)
                && texts(final(exp).already@) == after_next_macro(walk_of(old(self).frames@, old(exp)).2, final(self).stage,
                old(exp), old(self).mi + 1),
    {
        let ghost w0 = walk_of(self.frames@, exp);
        loop
            invariant
                walk_of(self.frames@, exp) == w0,
                w0 == walk_of(old(self).frames@, old(exp)),
                exp.stoplist@ == old(exp).stoplist@,
                self.inv(),
                self.mi == old(self).mi,
                self.mi < exp.macroses@.len(),
                self.rval == old(self).rval,
                self.aquery == old(self).aquery,
                exp.config == old(exp).config,
                exp.tree == old(exp).tree,
                old(exp).asn_list@.subset_of(exp.asn_list@),
                same_lists(old(exp), exp),
            decreases pending(self.frames@),
        {
            proof { lemma_pending_nonneg(self.frames@); }
            if self.frames.len() == 0 {
                let n = exp.macroses.len();
                assert(self.mi < n);
                proof {
                    assert(frames_view(self.frames@) =~= Seq::<(Seq<Seq<char>>, int)>::empty());
                }
                self.mi = self.mi + 1;
                return self.next_macro(exp);
            }
            let ghost before = self.frames@;
            let ghost e_it = *exp;
            let ghost fv = frames_view(before);
            proof {
                assert(fv.last() == frame_view(before.last()));
            }
            proof { lemma_pending_pop(before); }
            let mut f = self.frames.pop().unwrap();
            assert(self.frames@ =~= before.drop_last());
            if f.next >= f.items.len() {
                assert forall|k: int| 0 <= k < self.frames@.len() implies (#[trigger] self.frames@[k]).depth == k by {
                    assert(self.frames@[k] == before[k]);
                }
                assert forall|k: int| 0 <= k < self.frames@.len() implies (#[trigger] self.frames@[k]).next <= self.frames@[k].items@.len() by {
                    assert(self.frames@[k] == before[k]);
                }
                assert(f.next == f.items@.len());
                assert(frames_view(self.frames@) =~= fv.drop_last());
                assert(walk_of(self.frames@, exp) == walk_of(before, exp));
                assert(pending(self.frames@) == pending(before.drop_last()));
                assert(pending(self.frames@) < pending(before));
                proof { lemma_pending_nonneg(self.frames@); }
                continue;
            }
            let idx = f.next;
            f.next = f.next + 1;
            let depth = f.depth;
            self.frames.push(f);
            let ghost after = self.frames@;
            assert(after.drop_last() =~= before.drop_last());
            assert forall|k: int| 0 <= k < after.len() implies (#[trigger] after[k]).depth == k by {
                if k < after.len() - 1 {
                    assert(after[k] == before[k]);
                }
            }
            assert forall|k: int| 0 <= k < after.len() implies (#[trigger] after[k]).next <= after[k].items@.len() by {
                if k < after.len() - 1 {
                    assert(after[k] == before[k]);
                }
            }
            proof {
                lemma_pending_pop(after);
                lemma_pending_nonneg(after);
            }
            let last = self.frames.len() - 1;
            let item = self.frames[last].items[idx].clone();
            assert(item@ == last_member(self));
            let ghost fr2 = frames_view(after);
            let ghost stop = texts(exp.stoplist@);
            proof {
                assert(fr2 =~= fv.drop_last().push((fv.last().0, fv.last().1 + 1)));
                assert(fv.last().0[idx as int] == item@);
                assert(depth == (fv.len() - 1) as u32);
            }
            match member_kind(item.as_str()) {
                MemberKind::AsSet => {
                    if exp.enter_set(item.as_str(), depth) {
                        let asset = get_asset(item.as_str());
                        self.stage = Stage::NestedMembers;
                        return ExpandAction::Query(members_query_exec(asset.as_str()));
                    }
                    proof { assert(walk_of(self.frames@, exp) == walk_of(before, exp)); }
                },
                MemberKind::Asn => {
                    let ghost a0 = exp.asn_list@;
                    exp.expand_member_as(item.as_str());
                    proof {
                        assert(exp.asn_list@ == asn_member(a0, stop, item@, exp.config.expand_special_asn));
                        assert(walk_of(self.frames@, exp) == walk_of(before, &e_it));
                    }
                },
                MemberKind::Any => {
                    proof { assert(walk_of(self.frames@, exp) == walk_of(before, exp)); }
                },
                MemberKind::Unexpected => {
                    let mut w = String::from_str("unexpected object '");
                    push_str(&mut w, item.as_str());
                    push_str(&mut w, "' in expanded_macro_limit");
                    self.stage = Stage::Warned;
                    return ExpandAction::Warn(w);
                },
            }
        }
    }
}

impl ExpandRun {
    /// Selects the configured sources when there are any, then the
    /// AS-sets follow.
    fn set_configured(&mut self, exp: &mut Expander) -> (a: ExpandAction)
        ensures
            request_is(a, final(self), final(exp)),
            stage_facts(final(self), final(exp)),
            final(exp).config == old(exp).config,
            final(exp).tree == old(exp).tree,
            final(exp).asn_list@ == old(exp).asn_list@,
            same_lists(old(exp), final(exp)),
            final(self).rval == old(self).rval,
            final(self).frames@ == old(self).frames@,
            final(self).aquery == old(self).aquery,
            final(self).stage != Stage::Failed,
            final(self).stage == configured_stage(old(exp), old(self).aquery),
    {
        if has_text_exec(&exp.config.sources) {
            self.stage = Stage::SettingSources;
            ExpandAction::SetSources(exp.config.sources.clone())
        } else {
            self.mi = 0;
            self.next_macro(exp)
        }
    }

    /// The default sources are the configured ones when there are any;
    /// else the server's list is asked for.
    fn choose_sources(&mut self, exp: &mut Expander) -> (a: ExpandAction)
        ensures
            request_is(a, final(self), final(exp)),
            stage_facts(final(self), final(exp)),
            same_config(old(exp), final(exp)),
            final(exp).tree == old(exp).tree,
            final(exp).asn_list@ == old(exp).asn_list@,
            same_lists(old(exp), final(exp)),
            final(self).rval == old(self).rval,
            final(self).frames@ == old(self).frames@,
            final(self).aquery == old(self).aquery,
            final(self).stage == sources_stage(old(exp)),
    {
        if has_text_exec(&exp.config.sources) {
            exp.config.defaultsources = exp.config.sources.clone();
            self.set_configured(exp)
        } else {
            self.stage = Stage::GettingSources;
            ExpandAction::GetSources
        }
    }

    /// Asks whether `!a` is answered when prefixes are generated from
    /// AS-sets with one set of sources.
    fn after_identify(&mut self, exp: &mut Expander) -> (a: ExpandAction)
        ensures
            request_is(a, final(self), final(exp)),
            stage_facts(final(self), final(exp)),
            same_config(old(exp), final(exp)),
            final(exp).tree == old(exp).tree,
            final(exp).asn_list@ == old(exp).asn_list@,
            same_lists(old(exp), final(exp)),
            final(self).rval == old(self).rval,
            final(self).frames@ == old(self).frames@,
            final(self).stage == identified_stage(old(exp)),
    {
        if exp.config.generation.rank() >= Generation::PrefixList.rank() && exp.macroses.len() > 0
            && !exp.config.usesource {
            self.stage = Stage::CheckingAQuery;
            ExpandAction::CheckAQuery
        } else {
            self.aquery = false;
            self.choose_sources(exp)
        }
    }

    /// Takes the outcome of the last request and decides the next one
    /// (see `request_is` and `stage_facts`): identification, the `!a`
    /// check, the sources, then each AS-set, the default sources again,
    /// each route-set and each AS number, and the end.
    pub fn step(&mut self, exp: &mut Expander, ev: ExpandEvent) -> (a: ExpandAction)
        requires
            old(exp).wf(),
            old(self).inv(),
            stage_facts(old(self), old(exp)),
            old(self).frames@.len() + 1 < u32::MAX,
            ev matches ExpandEvent::Data(Some(items)) ==> old(self).data_ok(texts(items@)),
        ensures
            final(exp).wf(),
            final(self).inv(),
            request_is(a, final(self), final(exp)),
            stage_facts(final(self), final(exp)),
            same_config(old(exp), final(exp)),
            !(old(self).stage == Stage::Start || old(self).stage == Stage::Identifying || old(self).stage
                == Stage::CheckingAQuery || old(self).stage == Stage::GettingSources)
                ==> final(exp).config.defaultsources == old(exp).config.defaultsources,
            old(self).stage == Stage::GettingSources ==> (match ev {
                ExpandEvent::Sources(Some(s)) => final(exp).config.defaultsources == s,
                _ => final(exp).config.defaultsources == old(exp).config.defaultsources,
            }),
            old(self).stage == Stage::CheckingAQuery ==> final(self).aquery == (ev matches ExpandEvent::AQuery(true)),
            old(self).stage == Stage::SettingSources ==> (final(self).stage == Stage::Failed <==> !(ev matches ExpandEvent::SourcesSet(true))),
            keeps_nodes(old(exp).tree.nodes_view(), final(exp).tree.nodes_view()),
            final(exp).tree.family_view() == old(exp).tree.family_view(),
            old(exp).asn_list@.subset_of(final(exp).asn_list@),
            same_lists(old(exp), final(exp)),
            final(self).rval ==> old(self).rval,
            old(self).stage == Stage::Start ==> final(self).stage == (if old(exp).config.identify {
                Stage::Identifying
            } else {
                identified_stage(old(exp))
            }),
            old(self).stage == Stage::Identifying ==> final(self).stage == identified_stage(old(exp)),
            old(self).stage == Stage::CheckingAQuery ==> final(self).stage == sources_stage(old(exp)),
            old(self).stage == Stage::GettingSources ==> final(self).stage == configured_stage(final(exp), old(self).aquery),
            old(self).stage == Stage::SettingSources && (ev matches ExpandEvent::SourcesSet(true)) ==> final(self).mi == 0
                && final(self).stage == macro_stage(old(exp), 0, old(self).aquery),
            old(self).stage == Stage::MacroSources ==> final(self).stage == macro_query_stage(old(exp), old(self).aquery),
            old(self).stage == Stage::MacroRoutes || old(self).stage == Stage::MacroAsns ==> final(self).mi == old(self).mi + 1
                && final(self).stage == macro_stage(final(exp), old(self).mi + 1, old(self).aquery),
            old(self).stage == Stage::MacroMembers || old(self).stage == Stage::NestedMembers || old(self).stage == Stage::Warned
                ==> final(self).stage == Stage::NestedMembers || final(self).stage == Stage::Warned || (final(self).mi == old(self).mi + 1
                && final(self).frames@.len() == 0 && final(self).stage == macro_stage(final(exp), old(self).mi + 1, old(self).aquery)),
            old(self).stage == Stage::MacroMembers || old(self).stage == Stage::NestedMembers || old(self).stage == Stage::Warned
                ==> final(exp).asn_list@ == walk_of(members_frames(old(self).frames@, old(self).stage, ev), old(exp)).3
                && (walk_of(members_frames(old(self).frames@, old(self).stage, ev), old(exp)).0 == 1 ==> final(self).stage
                    == Stage::NestedMembers && frames_view(final(self).frames@) == walk_of(members_frames(old(self).frames@,
                    old(self).stage, ev), old(exp)).1 && texts(final(exp).already@) == walk_of(members_frames(old(self).frames@,
                    old(self).stage, ev), old(exp)).2)
                && (walk_of(members_frames(old(self).frames@, old(self).stage, ev), old(exp)).0 == 2 ==> final(self).stage
                    == Stage::Warned && frames_view(final(self).frames@) == walk_of(members_frames(old(self).frames@,
                    old(self).stage, ev), old(exp)).1 && texts(final(exp).already@) == walk_of(members_frames(old(self).frames@,
                    old(self).stage, ev), old(exp)).2)
                && (walk_of(members_frames(old(self).frames@, old(self).stage, ev), old(exp)).0 == 0 ==> final(self).mi
                    == old(self).mi + 1 && final(self).frames@.len() == 0 && texts(final(exp).already@) == after_next_macro(
                    walk_of(members_frames(old(self).frames@, old(self).stage, ev), old(exp)).2, final(self).stage, old(exp),
                    old(self).mi + 1)),
            old(self).stage == Stage::RestoringSources ==> final(self).stage == routes_stage(old(exp)),
            old(self).stage == Stage::RsetSources ==> final(self).stage == Stage::RsetRoutes,
            old(self).stage == Stage::RsetRoutes ==> final(self).ri == old(self).ri + 1 && final(self).stage == rset_stage(
                final(exp), old(self).ri + 1, old(self).ai as int, old(self).asns@.len() as int),
            old(self).stage == Stage::AsnRoutes ==> final(self).ai == old(self).ai + 1
                && final(self).stage == asn_stage(old(self).ai + 1, old(self).asns@.len() as int),
            old(self).stage == Stage::Finished ==> final(self).stage == Stage::Finished,
            old(self).stage == Stage::Failed ==> final(self).stage == Stage::Failed,
            !((old(self).stage == Stage::MacroRoutes || old(self).stage == Stage::AsnRoutes || old(self).stage == Stage::RsetRoutes)
                && (ev matches ExpandEvent::Data(Some(_)))) ==> final(exp).tree == old(exp).tree,
            (old(self).stage == Stage::MacroRoutes || old(self).stage == Stage::AsnRoutes) && old(exp).tree.clean_nodes() ==> (
                match ev {
                    ExpandEvent::Data(Some(items)) => final(exp).tree.clean_nodes() && final(exp).tree.listed()
                        == old(exp).tree.listed().union(routes_set(old(exp).config.family, old(exp).config.maxlen,
                        old(exp).tree.family_view(), texts(items@))),
                    _ => true,
                }),
            old(self).stage == Stage::RsetRoutes && old(exp).tree.clean_nodes() ==> (
                match ev {
                    ExpandEvent::Data(Some(items)) => final(exp).tree.clean_nodes() && final(exp).tree.listed()
                        == old(exp).tree.listed().union(prefixes_set(old(exp).config.family, old(exp).config.maxlen,
                        old(exp).tree.family_view(), texts(items@))),
                    _ => true,
                }),
            old(self).stage == Stage::MacroAsns ==> final(exp).asn_list@ == (match ev {
                ExpandEvent::Data(Some(items)) => asns_added(old(exp).asn_list@, texts(items@), old(exp).config.expand_special_asn),
                _ => old(exp).asn_list@,
            }),
    {
        match self.stage {
            Stage::Start => {
                if exp.config.identify {
                    self.stage = Stage::Identifying;
                    ExpandAction::Identify(String::from_str("bgpq4-rs"))
                } else {
                    self.after_identify(exp)
                }
            },
            Stage::Identifying => self.after_identify(exp),
            Stage::CheckingAQuery => {
                self.aquery = match ev {
                    ExpandEvent::AQuery(b) => b,
                    _ => false,
                };
                self.choose_sources(exp)
            },
            Stage::GettingSources => {
                match ev {
                    ExpandEvent::Sources(Some(s)) => {
                        exp.config.defaultsources = s;
                    },
                    _ => {},
                }
                self.set_configured(exp)
            },
            Stage::SettingSources => {
                match ev {
                    ExpandEvent::SourcesSet(true) => {
                        self.mi = 0;
                        self.next_macro(exp)
                    },
                    _ => {
                        self.stage = Stage::Failed;
                        let mut m = String::from_str("Invalid source(s) '");
                        push_str(&mut m, exp.config.sources.as_str());
                        push_str(&mut m, "'");
                        ExpandAction::Fatal(m)
                    },
                }
            },
            Stage::MacroSources => self.macro_query(exp),
            Stage::MacroMembers | Stage::NestedMembers => {
                let ghost ev0 = ev;
                match ev {
                    ExpandEvent::Data(Some(items)) => {
                        let depth = self.frames.len() as u32;
                        self.frames.push(Frame { items, next: 0, depth });
                    },
                    _ => {},
                }
                proof {
                    assert(self.frames@ =~= members_frames(old(self).frames@, old(self).stage, ev0));
                }
                if self.stage == Stage::MacroMembers && self.frames.len() == 0 {
                    let n = exp.macroses.len();
                    assert(self.mi < n);
                    proof {
                        assert(frames_view(self.frames@) =~= Seq::<(Seq<Seq<char>>, int)>::empty());
                    }
                    self.mi = self.mi + 1;
                    self.next_macro(exp)
                } else {
                    self.walk_members(exp)
                }
            },
            Stage::Warned => self.walk_members(exp),
            Stage::MacroRoutes => {
                match ev {
                    ExpandEvent::Data(Some(items)) => {
                        assert forall|i: int| 0 <= i < items@.len() implies route_ok(#[trigger] items@[i]@) by {
                            assert(texts(items@)[i] == items@[i]@);
                        }
                        absorb_routes(exp, &items)
                    },
                    _ => {},
                }
                let n = exp.macroses.len();
                assert(self.mi < n);
                self.mi = self.mi + 1;
                self.next_macro(exp)
            },
            Stage::MacroAsns => {
                match ev {
                    ExpandEvent::Data(Some(items)) => absorb_asns(exp, &items, &mut self.rval),
                    _ => {},
                }
                let n = exp.macroses.len();
                assert(self.mi < n);
                self.mi = self.mi + 1;
                self.next_macro(exp)
            },
            Stage::RestoringSources => self.begin_routes(exp),
            Stage::RsetSources => self.rset_query(exp),
            Stage::RsetRoutes => {
                match ev {
                    ExpandEvent::Data(Some(items)) => {
                        assert forall|i: int| 0 <= i < items@.len() implies !parse_panics(0, #[trigger] items@[i]@) by {
                            assert(texts(items@)[i] == items@[i]@);
                        }
                        absorb_prefixes(exp, &items)
                    },
                    _ => {},
                }
                let n = exp.rsets.len();
                assert(self.ri < n);
                self.ri = self.ri + 1;
                self.next_rset(exp)
            },
            Stage::AsnRoutes => {
                match ev {
                    ExpandEvent::Data(Some(items)) => {
                        assert forall|i: int| 0 <= i < items@.len() implies route_ok(#[trigger] items@[i]@) by {
                            assert(texts(items@)[i] == items@[i]@);
                        }
                        absorb_routes(exp, &items)
                    },
                    _ => {},
                }
                let n = self.asns.len();
                assert(self.ai < n);
                self.ai = self.ai + 1;
                self.next_asn(exp)
            },
            Stage::Finished => ExpandAction::Quit(self.rval),
            Stage::Failed => {
                let mut m = String::from_str("Invalid source(s) '");
                push_str(&mut m, exp.config.sources.as_str());
                push_str(&mut m, "'");
                ExpandAction::Fatal(m)
            },
        }
    }
}

/// Whether reading `s` as a route (see `route_ok`) is free of faults.
pub fn route_acceptable(s: &str) -> (b: bool)
    ensures
        b == route_ok(s@),
{
    let v = crate::text::chars_of(s);
    proof { crate::text::lemma_contains_find(v@, '^'); }
    let k = crate::text::find_char(&v, '^', 0);
    if k < v.len() {
        let mut head = String::new();
        let mut i: usize = 0;
        while i < k
            invariant
                i <= k <= v@.len(),
                head@ == v@.subrange(0, i as int),
            decreases k - i,
        {
            crate::text::push_char(&mut head, v[i]);
            i = i + 1;
            assert(head@ =~= v@.subrange(0, i as int));
        }
        !crate::bgpq4::prefix::SxPrefix::parse_panics_at(0, head.as_str())
    } else {
        !crate::bgpq4::prefix::SxPrefix::parse_panics_at(0, s)
    }
}

impl ExpandRun {
    /// Whether a data answer can be handed to `step` in the current stage
    /// (see `data_ok`).
    pub fn data_acceptable(&self, items: &Vec<String>) -> (b: bool)
        ensures
            b == self.data_ok(texts(items@)),
    {
        let routes = self.stage == Stage::MacroRoutes || self.stage == Stage::AsnRoutes;
        let prefixes = self.stage == Stage::RsetRoutes;
        if !routes && !prefixes {
            return true;
        }
        let mut i: usize = 0;
        while i < items.len()
            invariant
                i <= items@.len(),
                routes == (self.stage == Stage::MacroRoutes || self.stage == Stage::AsnRoutes),
                prefixes == (self.stage == Stage::RsetRoutes),
                routes || prefixes,
                routes ==> forall|k: int| 0 <= k < i ==> route_ok(#[trigger] texts(items@)[k]),
                prefixes ==> forall|k: int| 0 <= k < i ==> !parse_panics(0, #[trigger] texts(items@)[k]),
            decreases items@.len() - i,
        {
            assert(texts(items@)[i as int] == items@[i as int]@);
            if routes {
                if !route_acceptable(items[i].as_str()) {
                    return false;
                }
            } else {
                if crate::bgpq4::prefix::SxPrefix::parse_panics_at(0, items[i].as_str()) {
                    return false;
                }
            }
            i = i + 1;
        }
        true
    }
}

} // verus!
