use std::collections::BTreeSet;

use nettoolkit::bgpq4::config::{asn_add, parse_asnumber, ExpanderConfig, Generation, Vendor};
use nettoolkit::bgpq4::expander::{get_asset, get_source, member_kind, Expander, MemberKind};
use nettoolkit::bgpq4::printer;
use nettoolkit::bgpq4::printer::aspath;

fn expander_with(vendor: Vendor, prefixes: &[&str], asns: &[&str]) -> Expander {
    let mut config = ExpanderConfig::default();
    config.vendor = vendor;
    let mut e = Expander::new(config);
    for p in prefixes {
        assert!(e.add_prefix(p));
    }
    for a in asns {
        e.add_as(a);
    }
    e
}

#[test]
fn config_defaults() {
    let c = ExpanderConfig::default();
    assert_eq!(c.family, 2);
    assert_eq!(c.aswidth, 8);
    assert_eq!(c.name, "NN");
    assert_eq!(c.server, "rr.ntt.net");
    assert_eq!(c.port, 43);
    assert_eq!(c.maxlen, 32);
    assert!(c.vendor == Vendor::Cisco);
    assert!(c.generation == Generation::PrefixList);
}

#[test]
fn config_init_ipv6_sets_maxlen() {
    let mut c = ExpanderConfig::default();
    c.init(10);
    assert_eq!(c.family, 10);
    assert_eq!(c.maxlen, 128);
    c.init(2);
    assert_eq!(c.maxlen, 32);
}

#[test]
fn effective_name_defaults_to_nn() {
    let mut c = ExpanderConfig::default();
    c.name = String::new();
    assert_eq!(c.effective_name(), "NN");
    c.name = String::from("CUSTOMER");
    assert_eq!(c.effective_name(), "CUSTOMER");
}

#[test]
fn generation_ranks_in_order() {
    assert_eq!(Generation::Nothing.rank(), 0);
    assert_eq!(Generation::AsPath.rank(), 1);
    assert_eq!(Generation::PrefixList.rank(), 5);
    assert_eq!(Generation::RouteFilterList.rank(), 7);
    assert!(Generation::AsPath < Generation::PrefixList);
}

#[test]
fn vendor_groups() {
    assert!(Vendor::Arista.is_cisco_like());
    assert!(!Vendor::Juniper.is_cisco_like());
    assert!(Vendor::NokiaSrl.is_nokia_variant());
    assert!(!Vendor::Bird.is_nokia_variant());
}

#[test]
fn asn_add_accepts_plain_and_prefixed() {
    let mut t: BTreeSet<u32> = BTreeSet::new();
    assert!(asn_add(&mut t, "AS112", false));
    assert!(asn_add(&mut t, "3356", false));
    assert!(!asn_add(&mut t, "AS112", false));
    assert_eq!(t.len(), 2);
    assert!(t.contains(&112) && t.contains(&3356));
}

#[test]
fn asn_add_refuses_bad_and_special() {
    let mut t: BTreeSet<u32> = BTreeSet::new();
    assert!(!asn_add(&mut t, "AS12x", false));
    assert!(!asn_add(&mut t, "ASX", false));
    assert!(!asn_add(&mut t, "23456", false));
    assert!(!asn_add(&mut t, "AS64512", false));
    assert!(!asn_add(&mut t, "4200000001", false));
    assert!(t.is_empty());
    assert!(asn_add(&mut t, "AS64512", true));
    assert!(t.contains(&64512));
}

#[test]
fn parse_asnumber_plain_and_asdot() {
    assert_eq!(parse_asnumber("64512"), Some(64512));
    assert_eq!(parse_asnumber("1.10"), Some(65546));
    assert_eq!(parse_asnumber("0"), None);
    assert_eq!(parse_asnumber("abc"), None);
    assert_eq!(parse_asnumber("0.5"), None);
    assert_eq!(parse_asnumber("1.70000"), None);
    assert_eq!(parse_asnumber("65535.65535"), None);
}

#[test]
fn source_and_asset_split() {
    assert_eq!(get_source("RIPE::AS-FOO"), Some(String::from("RIPE")));
    assert_eq!(get_source("AS-FOO"), None);
    assert_eq!(get_asset("RIPE::AS-FOO"), "AS-FOO");
    assert_eq!(get_asset("AS-FOO"), "AS-FOO");
}

#[test]
fn member_kinds() {
    assert_eq!(member_kind("AS-FOO"), MemberKind::AsSet);
    assert_eq!(member_kind("as65000:as-bar"), MemberKind::AsSet);
    assert_eq!(member_kind("AS112"), MemberKind::Asn);
    assert_eq!(member_kind("any"), MemberKind::Any);
    assert_eq!(member_kind("RS112"), MemberKind::Unexpected);
}

#[test]
fn add_stop_lowercases_once() {
    let mut e = Expander::new(ExpanderConfig::default());
    assert!(e.add_stop("AS-FOO"));
    assert!(!e.add_stop("as-foo"));
    assert_eq!(e.stoplist, vec![String::from("as-foo")]);
}

#[test]
fn add_object_sorts_objects() {
    let mut e = Expander::new(ExpanderConfig::default());
    assert!(e.add_object("AS-FOO"));
    assert!(e.add_object("RS-BAR"));
    assert!(e.add_object("AS112"));
    assert!(e.add_object("192.31.196.0/24"));
    assert_eq!(e.macroses, vec![String::from("AS-FOO")]);
    assert_eq!(e.rsets, vec![String::from("RS-BAR")]);
    assert!(e.asn_list.contains(&112));
    assert_eq!(e.tree.is_empty(), false);
    assert!(!e.config.usesource);
    assert!(e.add_object("RADB::AS-BAZ"));
    assert!(e.config.usesource);
}

#[test]
fn add_prefix_of_other_family_is_refused() {
    let mut e = Expander::new(ExpanderConfig::default());
    assert!(!e.add_prefix("2001:db8::/32"));
    assert!(e.tree.is_empty());
}

#[test]
fn add_prefix_longer_than_maxlen_is_refused() {
    let mut config = ExpanderConfig::default();
    config.maxlen = 24;
    let mut e = Expander::new(config);
    assert!(!e.add_prefix("10.0.0.0/25"));
    assert!(e.add_prefix("10.0.0.0/24"));
}

#[test]
fn cisco_prefix_list() {
    let e = expander_with(Vendor::Cisco, &["192.31.196.0/24", "192.175.48.0/24"], &[]);
    let mut out = String::new();
    assert!(printer::print_prefixlist(&mut out, &e));
    assert_eq!(
        out,
        "no ip prefix-list NN\nip prefix-list NN permit 192.31.196.0/24\nip prefix-list NN permit 192.175.48.0/24\n"
    );
}

#[test]
fn cisco_prefix_list_empty_denies_default() {
    let e = expander_with(Vendor::Cisco, &[], &[]);
    let mut out = String::new();
    assert!(printer::print_prefixlist(&mut out, &e));
    assert_eq!(
        out,
        "no ip prefix-list NN\n! generated prefix-list NN is empty\nip prefix-list NN deny 0.0.0.0/0\n"
    );
}

#[test]
fn cisco_prefix_list_with_sequence() {
    let mut e = expander_with(Vendor::Cisco, &["192.31.196.0/24", "192.175.48.0/24"], &[]);
    e.config.sequence = 1;
    let mut out = String::new();
    assert!(printer::print_prefixlist(&mut out, &e));
    assert_eq!(
        out,
        "no ip prefix-list NN\nip prefix-list NN seq 1 permit 192.31.196.0/24\nip prefix-list NN seq 2 permit 192.175.48.0/24\n"
    );
}

#[test]
fn juniper_prefix_list() {
    let e = expander_with(Vendor::Juniper, &["192.31.196.0/24", "192.175.48.0/24"], &[]);
    let mut out = String::new();
    assert!(printer::print_prefixlist(&mut out, &e));
    assert_eq!(
        out,
        "policy-options {\nreplace:\n prefix-list NN {\n    192.31.196.0/24;\n    192.175.48.0/24;\n }\n}\n"
    );
}

#[test]
fn bird_prefix_list() {
    let e = expander_with(Vendor::Bird, &["192.31.196.0/24", "192.175.48.0/24"], &[]);
    let mut out = String::new();
    assert!(printer::print_prefixlist(&mut out, &e));
    assert_eq!(out, "NN = [\n    192.31.196.0/24,\n    192.175.48.0/24\n];\n");
}

#[test]
fn bird_prefix_list_empty_prints_nothing() {
    let e = expander_with(Vendor::Bird, &[], &[]);
    let mut out = String::new();
    assert!(printer::print_prefixlist(&mut out, &e));
    assert_eq!(out, "");
}

#[test]
fn json_prefix_list_entries() {
    let e = expander_with(Vendor::Json, &["192.31.196.0/24", "10.0.0.0/8"], &[]);
    let mut out = String::from("x");
    assert!(printer::print_prefixlist(&mut out, &e));
    assert_eq!(
        out,
        "x{ \"NN\": [\n    { \"prefix\": \"10.0.0.0\\/8\", \"exact\": true },\n    { \"prefix\": \"192.31.196.0\\/24\", \"exact\": true }\n] }\n"
    );
    let mut agg = expander_with(Vendor::Json, &["10.0.0.0/24", "10.0.1.0/24"], &[]);
    agg.tree.aggregate();
    let mut out2 = String::new();
    assert!(printer::print_prefixlist(&mut out2, &agg));
    assert_eq!(
        out2,
        "{ \"NN\": [\n    { \"prefix\": \"10.0.0.0\\/23\", \"exact\": false,\n      \"greater-equal\": 24, \"less-equal\": 24 }\n] }\n"
    );
    let empty = expander_with(Vendor::Json, &[], &[]);
    let mut out3 = String::new();
    assert!(printer::print_prefixlist(&mut out3, &empty));
    assert_eq!(out3, "{ \"NN\": [\n] }\n");
}

#[test]
fn aggregated_siblings_cisco() {
    let mut e = expander_with(Vendor::Cisco, &["10.0.0.0/24", "10.0.1.0/24"], &[]);
    e.tree.aggregate();
    let mut out = String::new();
    assert!(printer::print_prefixlist(&mut out, &e));
    assert_eq!(out, "no ip prefix-list NN\nip prefix-list NN permit 10.0.0.0/23 ge 24 le 24\n");
}

#[test]
fn cisco_aspath_groups() {
    let e = expander_with(Vendor::Cisco, &[], &["AS112", "AS3356"]);
    let mut out = String::new();
    aspath::print_cisco_aspath(&mut out, &e);
    assert_eq!(
        out,
        "no ip as-path access-list NN\nip as-path access-list NN permit ^0(_[0-9]+)*_(112|3356)$\n"
    );
}

#[test]
fn cisco_aspath_own_asn_first() {
    let mut e = expander_with(Vendor::Cisco, &[], &["AS112", "AS3356"]);
    e.config.asnumber = 112;
    let mut out = String::new();
    aspath::print_cisco_aspath(&mut out, &e);
    assert_eq!(
        out,
        "no ip as-path access-list NN\nip as-path access-list NN permit ^112(_112)*$\nip as-path access-list NN permit ^112(_[0-9]+)*_(3356)$\n"
    );
}

#[test]
fn cisco_aspath_empty_denies() {
    let e = expander_with(Vendor::Cisco, &[], &[]);
    let mut out = String::new();
    aspath::print_cisco_aspath(&mut out, &e);
    assert_eq!(out, "no ip as-path access-list NN\nip as-path access-list NN deny .*\n");
}

#[test]
fn cisco_aspath_width_splits_lines() {
    let mut e = expander_with(Vendor::Cisco, &[], &["AS1", "AS2", "AS3"]);
    e.config.aswidth = 2;
    let mut out = String::new();
    aspath::print_cisco_aspath(&mut out, &e);
    assert_eq!(
        out,
        "no ip as-path access-list NN\nip as-path access-list NN permit ^0(_[0-9]+)*_(1|2)$\nip as-path access-list NN permit ^0(_[0-9]+)*_(3)$\n"
    );
}

#[test]
fn sorted_asns_ascending() {
    let mut t: BTreeSet<u32> = BTreeSet::new();
    t.insert(3356);
    t.insert(112);
    t.insert(64500);
    assert_eq!(aspath::sorted_asns(&t), vec![112, 3356, 64500]);
}

#[test]
fn cisco_eacl_host_entries() {
    let mut e = expander_with(Vendor::Cisco, &["10.0.0.0/8", "192.0.2.1/32"], &[]);
    e.config.generation = Generation::Eacl;
    let mut out = String::new();
    assert!(printer::print_eacl(&mut out, &e));
    let swapped = 1u32.to_be() != 1;
    let expected = if swapped {
        "no ip access-list extended NN\nip access-list extended NN\n permit ip host 10.0.0.0 host 0.0.0.255\n permit ip host 192.0.2.1 host 0.0.0.0\n"
    } else {
        "no ip access-list extended NN\nip access-list extended NN\n permit ip host 10.0.0.0 host 255.0.0.0\n permit ip host 192.0.2.1 host 0.0.0.0\n"
    };
    assert_eq!(out, expected);
}

#[test]
fn cisco_eacl_aggregate_entry() {
    let mut e = expander_with(Vendor::Cisco, &["10.0.0.0/24", "10.0.1.0/24"], &[]);
    e.tree.aggregate();
    let mut out = String::new();
    assert!(printer::print_eacl(&mut out, &e));
    let swapped = 1u32.to_be() != 1;
    let expected = if swapped {
        "no ip access-list extended NN\nip access-list extended NN\n permit ip 10.0.0.0 255.1.0.0 host 0.255.255.255\n"
    } else {
        "no ip access-list extended NN\nip access-list extended NN\n permit ip 10.0.0.0 0.0.1.255 host 255.255.255.0\n"
    };
    assert_eq!(out, expected);
}

#[test]
fn cisco_eacl_empty_denies_all() {
    let e = expander_with(Vendor::Arista, &[], &[]);
    let mut out = String::new();
    assert!(printer::print_eacl(&mut out, &e));
    assert_eq!(
        out,
        "no ip access-list extended NN\n! generated access-list NN is empty\nip access-list extended NN deny any any\n"
    );
}

#[test]
fn cisco_eacl_refuses_zero_length_host() {
    let e = expander_with(Vendor::Cisco, &["0.0.0.0/0"], &[]);
    assert!(!printer::cisco::eacl_acceptable(&e.tree));
    let ok = expander_with(Vendor::Cisco, &["10.0.0.0/8"], &[]);
    assert!(printer::cisco::eacl_acceptable(&ok.tree));
}

fn node_with_len(e: &Expander, len: u32) -> nettoolkit::bgpq4::prefix::RadixNode {
    let order = e.tree.foreach();
    let i = *order.iter().find(|&&i| e.tree.node(i).prefix.masklen == len).unwrap();
    e.tree.node(i).clone()
}

#[test]
fn refine_makes_short_prefixes_aggregates() {
    let mut e = expander_with(Vendor::Cisco, &["10.0.0.0/8", "10.1.0.0/16"], &[]);
    e.tree.refine(16);
    let n8 = node_with_len(&e, 8);
    assert!(!n8.is_glue && n8.is_aggregate);
    assert_eq!((n8.aggregate_low, n8.aggregate_hi), (8, 16));
    assert!(node_with_len(&e, 16).is_glue);
    // Below a glue node the walk goes on without marking.
    let mut f = expander_with(Vendor::Cisco, &["10.0.0.0/8", "10.1.0.0/16", "10.2.0.0/24"], &[]);
    f.tree.refine(16);
    let m16 = node_with_len(&f, 16);
    assert!(!m16.is_glue && !m16.is_aggregate);
    let m24 = node_with_len(&f, 24);
    assert!(!m24.is_glue && !m24.is_aggregate);
}

#[test]
fn refine_low_starts_aggregates_at_the_bound() {
    let mut e = expander_with(Vendor::Cisco, &["10.0.0.0/8", "10.1.0.0/16"], &[]);
    e.tree.refine_low(12);
    let n8 = node_with_len(&e, 8);
    assert!(!n8.is_glue && n8.is_aggregate);
    assert_eq!((n8.aggregate_low, n8.aggregate_hi), (12, 32));
    let n16 = node_with_len(&e, 16);
    assert!(!n16.is_glue && !n16.is_aggregate);
}

#[test]
fn as_set_entered_once() {
    let mut e = Expander::new(ExpanderConfig::default());
    assert!(e.enter_set("AS-FOO", 0));
    assert!(!e.enter_set("as-foo", 3));
    assert_eq!(e.already, vec![String::from("as-foo")]);
    e.add_stop("AS-BAR");
    assert!(!e.enter_set("AS-BAR", 0));
    let mut c = ExpanderConfig::default();
    c.maxdepth = 2;
    let mut d = Expander::new(c);
    assert!(d.enter_set("AS-A", 0));
    assert!(!d.enter_set("AS-B", 1));
}

fn held(e: &Expander) -> Vec<(String, u32, bool, u32, u32)> {
    let mut v = Vec::new();
    for i in e.tree.foreach() {
        let n = e.tree.node(i);
        v.push((n.prefix.format_addr(), n.prefix.masklen, n.is_glue, n.aggregate_low, n.aggregate_hi));
    }
    v
}

#[test]
fn range_inserts_both_halves() {
    let mut t = nettoolkit::bgpq4::prefix::RadixTree::new(2);
    assert!(t.parse_range(0, 0, "10.0.0.0/8^9-9"));
    let mut seen = Vec::new();
    for i in t.foreach() {
        let n = t.node(i);
        seen.push((n.prefix.format_addr(), n.prefix.masklen, n.is_glue));
    }
    assert_eq!(
        seen,
        vec![
            (String::from("10.0.0.0"), 8, true),
            (String::from("10.0.0.0"), 9, false),
            (String::from("10.128.0.0"), 9, false),
        ]
    );
    assert!(!t.parse_range(0, 0, "10.0.0.0/8"));
}

#[test]
fn range_from_own_length_keeps_prefix() {
    let mut t = nettoolkit::bgpq4::prefix::RadixTree::new(2);
    assert!(t.parse_range(0, 0, "10.0.0.0/8^8-9"));
    let plain: Vec<u32> = t
        .foreach()
        .into_iter()
        .filter(|&i| !t.node(i).is_glue)
        .map(|i| t.node(i).prefix.masklen)
        .collect();
    assert_eq!(plain, vec![8, 9, 9]);
}

#[test]
fn aggregate_four_quarters_into_one() {
    let mut e = expander_with(
        Vendor::Cisco,
        &["10.0.0.0/24", "10.0.1.0/24", "10.0.2.0/24", "10.0.3.0/24"],
        &[],
    );
    e.tree.aggregate();
    let n22 = node_with_len(&e, 22);
    assert!(!n22.is_glue && n22.is_aggregate);
    assert_eq!((n22.aggregate_low, n22.aggregate_hi), (24, 24));
    assert!(node_with_len(&e, 23).is_glue);
    assert!(node_with_len(&e, 24).is_glue);
    let mut out = String::new();
    assert!(printer::print_prefixlist(&mut out, &e));
    assert_eq!(out, "no ip prefix-list NN\nip prefix-list NN permit 10.0.0.0/22 ge 24 le 24\n");
}

#[test]
fn aggregate_under_plain_parent_adds_son() {
    let mut e = expander_with(
        Vendor::Cisco,
        &["10.0.0.0/22", "10.0.0.0/24", "10.0.1.0/24", "10.0.2.0/24", "10.0.3.0/24"],
        &[],
    );
    let before = e.tree.len();
    e.tree.aggregate();
    assert_eq!(e.tree.len(), before + 1);
    let n22 = node_with_len(&e, 22);
    assert!(!n22.is_glue && !n22.is_aggregate);
    let son = e.tree.node(n22.son.unwrap()).clone();
    assert!(son.is_aggregate && !son.is_glue);
    assert_eq!((son.prefix.masklen, son.aggregate_low, son.aggregate_hi), (22, 24, 24));
    assert!(node_with_len(&e, 23).is_glue);
}

#[test]
fn aggregate_leaves_unequal_siblings() {
    let mut e = expander_with(Vendor::Cisco, &["10.0.0.0/24", "10.0.1.0/25"], &[]);
    let before = held(&e);
    e.tree.aggregate();
    assert_eq!(held(&e), before);
}

#[test]
fn absorbed_prefixes_are_held() {
    let mut e = Expander::new(ExpanderConfig::default());
    let items = vec![
        String::from("192.0.2.0/24"),
        String::from("2001:db8::/32"),
        String::from("198.51.100.0/24"),
    ];
    nettoolkit::bgpq4::expansion::absorb_prefixes(&mut e, &items);
    let plain: Vec<(String, u32)> = held(&e)
        .into_iter()
        .filter(|h| !h.2)
        .map(|h| (h.0, h.1))
        .collect();
    assert_eq!(
        plain,
        vec![(String::from("192.0.2.0"), 24), (String::from("198.51.100.0"), 24)]
    );
}

#[test]
fn absorbed_routes_take_ranges() {
    let mut e = Expander::new(ExpanderConfig::default());
    let items = vec![String::from("10.0.0.0/8^9-9"), String::from("192.0.2.0/24")];
    nettoolkit::bgpq4::expansion::absorb_routes(&mut e, &items);
    let plain: Vec<(String, u32)> = held(&e)
        .into_iter()
        .filter(|h| !h.2)
        .map(|h| (h.0, h.1))
        .collect();
    assert_eq!(
        plain,
        vec![
            (String::from("10.0.0.0"), 9),
            (String::from("10.128.0.0"), 9),
            (String::from("192.0.2.0"), 24),
        ]
    );
}

fn parsed(text: &str) -> nettoolkit::bgpq4::prefix::SxPrefix {
    let mut p = nettoolkit::bgpq4::prefix::SxPrefix::new();
    assert!(p.parse(0, text));
    p
}

fn listed(t: &nettoolkit::bgpq4::prefix::RadixTree) -> Vec<(String, u32)> {
    t.foreach()
        .into_iter()
        .filter(|&i| !t.node(i).is_glue)
        .map(|i| (t.node(i).prefix.format_addr(), t.node(i).prefix.masklen))
        .collect()
}

#[test]
fn aggregate_two_halves_into_slash24() {
    let mut t = nettoolkit::bgpq4::prefix::RadixTree::new(2);
    assert!(t.insert(&parsed("192.168.0.0/25")).is_some());
    assert!(t.insert(&parsed("192.168.0.128/25")).is_some());
    t.aggregate();
    let plain: Vec<usize> = t.foreach().into_iter().filter(|&i| !t.node(i).is_glue).collect();
    assert_eq!(plain.len(), 1);
    let n = t.node(plain[0]);
    assert_eq!(n.prefix.format_addr(), "192.168.0.0");
    assert_eq!(n.prefix.masklen, 24);
    assert!(n.is_aggregate);
    assert_eq!((n.aggregate_low, n.aggregate_hi), (25, 25));
}

#[test]
fn parse_clears_host_bits_at_byte_boundary() {
    let p = parsed("192.168.1.1/16");
    assert_eq!(p.format_addr(), "192.168.0.0");
    let q = parsed("10.1.2.3/8");
    assert_eq!(q.format_addr(), "10.0.0.0");
}

#[test]
fn repeated_insert_lists_once() {
    let mut t = nettoolkit::bgpq4::prefix::RadixTree::new(2);
    t.insert(&parsed("192.0.2.0/24"));
    let once = listed(&t);
    t.insert(&parsed("192.0.2.0/24"));
    assert_eq!(listed(&t), once);
    assert_eq!(once, vec![(String::from("192.0.2.0"), 24)]);
}

#[test]
fn range_lists_only_the_range() {
    let mut t = nettoolkit::bgpq4::prefix::RadixTree::new(2);
    assert!(t.parse_range(0, 10, "10.0.0.0/8^-"));
    let l = listed(&t);
    assert_eq!(
        l,
        vec![
            (String::from("10.0.0.0"), 9),
            (String::from("10.0.0.0"), 10),
            (String::from("10.64.0.0"), 10),
            (String::from("10.128.0.0"), 9),
            (String::from("10.128.0.0"), 10),
            (String::from("10.192.0.0"), 10),
        ]
    );
}

fn glue_flags(e: &Expander) -> Vec<bool> {
    (0..e.tree.len()).map(|i| e.tree.node(i).is_glue).collect()
}

#[test]
fn refine_glues_only_below_a_covering_aggregate() {
    let mut e = expander_with(Vendor::Cisco, &["10.0.0.0/8", "10.1.0.0/16", "10.128.0.0/16"], &[]);
    let before = glue_flags(&e);
    e.tree.refine(16);
    let mut glued = 0;
    for i in 0..e.tree.len() {
        let n = e.tree.node(i);
        if !before[i] && n.is_glue {
            glued += 1;
            let p = e.tree.node(n.parent.unwrap());
            assert!(!p.is_glue && p.is_aggregate);
            assert!(p.aggregate_low <= n.prefix.masklen && n.prefix.masklen <= p.aggregate_hi);
        }
    }
    assert_eq!(glued, 2);
}

#[test]
fn refine_low_glues_only_below_an_aggregate_from_the_bound() {
    let mut e = expander_with(Vendor::Cisco, &["10.0.0.0/8", "10.16.0.0/12", "10.128.0.0/12"], &[]);
    let before = glue_flags(&e);
    e.tree.refine_low(12);
    let mut glued = 0;
    for i in 0..e.tree.len() {
        let n = e.tree.node(i);
        if !before[i] && n.is_glue {
            glued += 1;
            assert!(n.prefix.masklen <= 12);
            let p = e.tree.node(n.parent.unwrap());
            assert!(!p.is_glue && p.is_aggregate && p.aggregate_low == 12);
        }
    }
    assert_eq!(glued, 2);
}
