use nettoolkit::bgpq4::cli::{add_objects, default_aswidth, process_match_string};
use nettoolkit::bgpq4::config::{ExpanderConfig, Generation, Vendor};
use nettoolkit::bgpq4::expander::Expander;
use nettoolkit::dig::dns::{Header, Message, Rdata, RecordType, ResourceRecord};
use nettoolkit::dig::trace::{TraceAction, TraceAddr, TraceEvent, TraceRun};
use nettoolkit::ipmap::cli::parse_args;

fn rr(name: &str, rtype: RecordType, rdata: Rdata) -> ResourceRecord {
    ResourceRecord { name: name.into(), rtype, class: 1, ttl: 60, rdata }
}

fn msg(flags: u16, answers: Vec<ResourceRecord>, authority: Vec<ResourceRecord>, additional: Vec<ResourceRecord>) -> Message {
    Message {
        header: Header { id: 1, flags, qd_count: 0, an_count: 0, ns_count: 0, ar_count: 0 },
        questions: vec![],
        answers,
        authority,
        additional,
    }
}

#[test]
fn trace_follows_glue_then_stops_at_answer() {
    let mut t = TraceRun::new();
    assert_eq!(t.step(TraceEvent::Start), TraceAction::Ask(TraceAddr::V4([198, 41, 0, 4])));
    let referral = msg(
        0x8000,
        vec![],
        vec![rr("com", RecordType::Ns, Rdata::Ns("a.gtld".into()))],
        vec![rr("a.gtld", RecordType::A, Rdata::A([192, 5, 6, 30]))],
    );
    assert_eq!(t.step(TraceEvent::Answer(referral)), TraceAction::Ask(TraceAddr::V4([192, 5, 6, 30])));
    let answer = msg(0x8400, vec![rr("x.com", RecordType::A, Rdata::A([1, 2, 3, 4]))], vec![], vec![]);
    assert_eq!(t.step(TraceEvent::Answer(answer)), TraceAction::Done);
    assert_eq!(t.step(TraceEvent::Start), TraceAction::Done);
}

#[test]
fn trace_resolves_missing_glue() {
    let mut t = TraceRun::new();
    assert!(matches!(t.step(TraceEvent::Start), TraceAction::Ask(_)));
    let referral = msg(0x8000, vec![], vec![rr("org", RecordType::Ns, Rdata::Ns("ns.org".into()))], vec![]);
    assert_eq!(t.step(TraceEvent::Answer(referral)), TraceAction::ResolveGlue(String::from("ns.org")));
    let glue = msg(0x8180, vec![rr("ns.org", RecordType::A, Rdata::A([9, 9, 9, 9]))], vec![], vec![]);
    assert_eq!(t.step(TraceEvent::Glue(Some(glue))), TraceAction::Ask(TraceAddr::V4([9, 9, 9, 9])));
}

#[test]
fn trace_stops_on_error_or_no_servers() {
    let mut t = TraceRun::new();
    t.step(TraceEvent::Start);
    assert_eq!(t.step(TraceEvent::Answer(msg(0x8003, vec![], vec![], vec![]))), TraceAction::Done);
    let mut u = TraceRun::new();
    u.step(TraceEvent::Start);
    let referral = msg(0x8000, vec![], vec![rr("org", RecordType::Ns, Rdata::Ns("ns.org".into()))], vec![]);
    assert_eq!(u.step(TraceEvent::Answer(referral)), TraceAction::ResolveGlue(String::from("ns.org")));
    assert_eq!(u.step(TraceEvent::Glue(None)), TraceAction::Done);
}

#[test]
fn trace_depth_limit() {
    let mut t = TraceRun::new();
    for _ in 0..30 {
        assert!(matches!(t.step(TraceEvent::Start), TraceAction::Ask(_)));
    }
    assert_eq!(t.step(TraceEvent::Start), TraceAction::Done);
}

#[test]
fn aswidth_defaults() {
    assert_eq!(default_aswidth(Generation::AsPath, Vendor::Cisco), Some(4));
    assert_eq!(default_aswidth(Generation::AsPath, Vendor::Bird), Some(10));
    assert_eq!(default_aswidth(Generation::OasPath, Vendor::CiscoXr), Some(7));
    assert_eq!(default_aswidth(Generation::AsList, Vendor::Juniper), Some(8));
    assert_eq!(default_aswidth(Generation::AsList, Vendor::Cisco), None);
    assert_eq!(default_aswidth(Generation::PrefixList, Vendor::Cisco), None);
}

#[test]
fn match_string_escapes() {
    assert_eq!(process_match_string("a\\tb\\\\c\\r"), Ok(String::from("a\tb\\c\r")));
    assert_eq!(process_match_string("end\\"), Ok(String::from("end\\")));
    assert_eq!(
        process_match_string("x\\qy"),
        Err(String::from("Unsupported escape \\q (0x71) in 'x\\qy'"))
    );
}

#[test]
fn objects_with_except() {
    let mut e = Expander::new(ExpanderConfig::default());
    let objs: Vec<String> = ["AS-FOO", "AS112", "EXCEPT", "AS-BAR", "AS64500"].iter().map(|s| s.to_string()).collect();
    assert_eq!(add_objects(&mut e, &objs), Ok(()));
    assert_eq!(e.macroses, vec![String::from("AS-FOO")]);
    assert!(e.asn_list.contains(&112));
    assert_eq!(e.stoplist, vec![String::from("as-bar"), String::from("as64500")]);
}

#[test]
fn refused_prefix_object() {
    let mut e = Expander::new(ExpanderConfig::default());
    let objs = vec![String::from("2001:db8:1:2:3:4:5:6/64")];
    assert_eq!(
        add_objects(&mut e, &objs),
        Err(String::from("Unable to add prefix 2001:db8:1:2:3:4:5:6/64 (bad prefix or address-family)"))
    );
    // "::" separates a source from the object, as for "RADB::AS-FOO".
    let objs = vec![String::from("2001:db8::/32")];
    assert_eq!(
        add_objects(&mut e, &objs),
        Err(String::from("Unable to add prefix /32 (bad prefix or address-family)"))
    );
}

fn words(s: &[&str]) -> Vec<String> {
    s.iter().map(|w| w.to_string()).collect()
}

#[test]
fn ipmap_command_line() {
    let a = parse_args(&words(&["ipmap", "10.0.0.0/24", "-t", "200", "-r", "5", "-c", "128", "-q"])).unwrap();
    assert_eq!(a.cidr, "10.0.0.0/24");
    assert_eq!((a.timeout_ms, a.count, a.concurrency, a.quiet), (200, 5, 128, true));
    let d = parse_args(&words(&["ipmap", "192.168.1.0/24"])).unwrap();
    assert_eq!((d.timeout_ms, d.count, d.concurrency, d.quiet), (500, 3, 64, false));
}

#[test]
fn ipmap_command_line_errors() {
    let e = parse_args(&words(&["ipmap"])).unwrap_err();
    assert_eq!(e.message, "error: CIDR argument required");
    assert!(e.show_usage);
    let e = parse_args(&words(&["ipmap", "x", "-r", "0"])).unwrap_err();
    assert_eq!(e.message, "error: -r must be at least 1");
    assert!(!e.show_usage);
    let e = parse_args(&words(&["ipmap", "x", "-t"])).unwrap_err();
    assert_eq!(e.message, "error: -t requires a value");
    let e = parse_args(&words(&["ipmap", "x", "-z"])).unwrap_err();
    assert_eq!(e.message, "error: unknown option: -z");
    let e = parse_args(&words(&["ipmap", "x", "y"])).unwrap_err();
    assert_eq!(e.message, "error: unexpected argument: y");
    let e = parse_args(&words(&["ipmap", "x", "-c", "lots"])).unwrap_err();
    assert_eq!(e.message, "error: invalid concurrency: lots");
}

use nettoolkit::bgpq4::cli::{parse_cli, Stop};

fn bgpq4(args: &[&str]) -> Result<nettoolkit::bgpq4::cli::CliState, Stop> {
    let mut v = vec![String::from("bgpq4")];
    v.extend(args.iter().map(|s| s.to_string()));
    parse_cli(&v)
}

#[test]
fn bgpq4_command_line_defaults() {
    let st = bgpq4(&["AS-FOO"]).unwrap();
    assert_eq!(st.config.family, 2);
    assert_eq!(st.config.maxlen, 32);
    assert!(st.config.vendor == Vendor::Cisco);
    assert!(st.config.generation == Generation::PrefixList);
    assert_eq!(st.objects, vec![String::from("AS-FOO")]);
}

#[test]
fn bgpq4_command_line_options() {
    let st = bgpq4(&["-6", "-J", "-l", "LIST", "-h", "whois.radb.net:4343", "-S", "RADB", "-m48", "-A", "-R", "48", "AS-FOO", "EXCEPT", "AS-BAR"]).unwrap();
    assert_eq!(st.config.family, 10);
    assert_eq!(st.config.maxlen, 48);
    assert!(st.config.vendor == Vendor::Juniper);
    assert_eq!(st.config.name, "LIST");
    assert_eq!(st.config.server, "whois.radb.net");
    assert_eq!(st.config.port, 4343);
    assert_eq!(st.config.sources, "RADB");
    assert!(st.aggregate);
    assert_eq!(st.refine, 48);
    assert_eq!(st.objects, vec![String::from("AS-FOO"), String::from("EXCEPT"), String::from("AS-BAR")]);
}

#[test]
fn bgpq4_aspath_width_defaults() {
    let st = bgpq4(&["-f", "64500", "AS-FOO"]).unwrap();
    assert!(st.config.generation == Generation::AsPath);
    assert_eq!(st.config.asnumber, 64500);
    assert_eq!(st.config.aswidth, 4);
    let st = bgpq4(&["-W12", "-f", "64500", "AS-FOO"]).unwrap();
    assert_eq!(st.config.aswidth, 12);
    let st = bgpq4(&["-b", "-f", "1.10", "AS-FOO"]).unwrap();
    assert_eq!(st.config.asnumber, 65546);
    assert_eq!(st.config.aswidth, 10);
}

#[test]
fn bgpq4_command_line_stops() {
    assert!(matches!(bgpq4(&[]), Err(Stop::Usage)));
    assert!(matches!(bgpq4(&["-v"]), Err(Stop::Version)));
    assert!(matches!(bgpq4(&["-J", "-b", "X"]), Err(Stop::VendorExclusive)));
    assert!(matches!(bgpq4(&["-E", "-t", "X"]), Err(Stop::Exclusive)));
    match bgpq4(&["-6", "-4", "X"]) {
        Err(Stop::Fatal(m)) => assert_eq!(m, "-4 and -6 are mutually exclusive"),
        other => panic!("unexpected {:?}", other.err()),
    }
    match bgpq4(&["-a"]) {
        Err(Stop::Fatal(m)) => assert_eq!(m, "Missing argument for -a"),
        other => panic!("unexpected {:?}", other.err()),
    }
    match bgpq4(&["-G"]) {
        Err(Stop::Fatal(m)) => assert_eq!(m, "-G requires an argument"),
        other => panic!("unexpected {:?}", other.err()),
    }
    match bgpq4(&["-h", "host:99999", "X"]) {
        Err(Stop::Fatal(m)) => assert_eq!(m, "Invalid port: 99999"),
        other => panic!("unexpected {:?}", other.err()),
    }
    match bgpq4(&["-L0", "X"]) {
        Err(Stop::Fatal(m)) => assert_eq!(m, "Invalid maximum recursion (-L): 0"),
        other => panic!("unexpected {:?}", other.err()),
    }
    match bgpq4(&["-W-3", "X"]) {
        Err(Stop::Fatal(m)) => assert_eq!(m, "Invalid as-width: -3"),
        other => panic!("unexpected {:?}", other.err()),
    }
    match bgpq4(&["-r", "0", "X"]) {
        Err(Stop::Fatal(m)) => assert_eq!(m, "Invalid refineLow value: 0"),
        other => panic!("unexpected {:?}", other.err()),
    }
}

#[test]
fn bgpq4_double_dash_takes_the_rest_as_objects() {
    let st = bgpq4(&["-j", "--", "-6", "AS1"]).unwrap();
    assert!(st.config.vendor == Vendor::Json);
    assert_eq!(st.config.family, 2);
    assert_eq!(st.objects, vec![String::from("-6"), String::from("AS1")]);
}

#[test]
fn bgpq4_match_string_option() {
    let st = bgpq4(&["-M", "a\\tb", "X"]).unwrap();
    assert_eq!(st.config.match_expr, Some(String::from("a\tb")));
}

#[test]
fn add_objects_files_each_kind() {
    let mut e = Expander::new(ExpanderConfig::default());
    let objs: Vec<String> = ["AS-FOO", "RS-BAR", "AS3356", "EXCEPT", "AS-X", "EXCEPT", "as-x", "AS1"]
        .iter()
        .map(|s| s.to_string())
        .collect();
    assert_eq!(add_objects(&mut e, &objs), Ok(()));
    assert_eq!(e.macroses, vec![String::from("AS-FOO")]);
    assert_eq!(e.rsets, vec![String::from("RS-BAR")]);
    assert_eq!(e.asn_list.iter().copied().collect::<Vec<u32>>(), vec![3356]);
    assert_eq!(e.stoplist, vec![String::from("as-x"), String::from("as1")]);
}
