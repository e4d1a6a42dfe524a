use nettoolkit::dig::cli::{parse_args, parse_plus_option, DigArgs, DigStop};
use nettoolkit::dig::dns::RecordType;
use nettoolkit::dig::printer::format::class_name;
use nettoolkit::dig::query::parse_class;

fn line(words: &[&str]) -> Vec<String> {
    words.iter().map(|w| w.to_string()).collect()
}

fn error_of(words: &[&str]) -> String {
    match parse_args(&line(words)) {
        Err(DigStop::Error(m)) => m,
        _ => panic!("expected an error"),
    }
}

#[test]
fn dig_cli_single_name_defaults_to_a() {
    let a = parse_args(&line(&["dig", "example.com"])).ok().unwrap();
    assert_eq!(a.names.len(), 1);
    assert_eq!(a.names[0].name, "example.com");
    assert_eq!(a.names[0].qtype, RecordType::A);
    assert_eq!(a.names[0].class, 1);
    assert_eq!(a.server, None);
    assert_eq!(a.port, 53);
    assert_eq!(a.id, 0x1234);
    assert!(a.recurse);
    assert!(!a.print_opts.short);
    assert_eq!(a.resolver.tries, 3);
}

#[test]
fn dig_cli_server_type_and_flags() {
    let a = parse_args(&line(&["dig", "@1.1.1.1", "example.com", "mx", "+short", "+tcp", "-p", "5353"]))
        .ok()
        .unwrap();
    assert_eq!(a.server.as_deref(), Some("1.1.1.1"));
    assert_eq!(a.names.len(), 1);
    assert_eq!(a.names[0].name, "example.com");
    assert_eq!(a.names[0].qtype, RecordType::Mx);
    assert!(a.print_opts.short);
    assert!(a.resolver.use_tcp);
    assert_eq!(a.port, 5353);
}

#[test]
fn dig_cli_type_option_and_two_names() {
    let a = parse_args(&line(&["dig", "-t", "txt", "a.example", "b.example"])).ok().unwrap();
    assert_eq!(a.names.len(), 2);
    assert_eq!(a.names[0].name, "a.example");
    assert_eq!(a.names[0].qtype, RecordType::Txt);
    assert_eq!(a.names[1].name, "b.example");
    assert_eq!(a.names[1].qtype, RecordType::A);
}

#[test]
fn dig_cli_lone_type_asks_the_root() {
    let a = parse_args(&line(&["dig", "NS"])).ok().unwrap();
    assert_eq!(a.names.len(), 1);
    assert_eq!(a.names[0].name, ".");
    assert_eq!(a.names[0].qtype, RecordType::Ns);
}

#[test]
fn dig_cli_reverse_and_class() {
    let a = parse_args(&line(&["dig", "-c", "ch", "-x", "192.0.2.7"])).ok().unwrap();
    assert_eq!(a.reverse.as_deref(), Some("192.0.2.7"));
    assert_eq!(a.class, 3);
    assert!(a.names.is_empty());
}

#[test]
fn dig_cli_trace_turns_recursion_off() {
    let a = parse_args(&line(&["dig", "+trace", "example.com"])).ok().unwrap();
    assert!(a.trace);
    assert!(!a.recurse);
    let b = parse_args(&line(&["dig", "+norecurse", "+tries=0", "+timeout=9", "+qid=77", "x"])).ok().unwrap();
    assert!(!b.recurse);
    assert_eq!(b.resolver.tries, 1);
    assert_eq!(b.resolver.timeout_secs, 9);
    assert_eq!(b.id, 77);
}

#[test]
fn dig_cli_noall_then_answer() {
    let a = parse_args(&line(&["dig", "+noall", "+answer", "x"])).ok().unwrap();
    assert!(a.print_opts.show_answer);
    assert!(!a.print_opts.show_question);
    assert!(!a.print_opts.show_comments);
    assert!(!a.print_opts.show_stats);
}

#[test]
fn dig_cli_errors() {
    assert_eq!(error_of(&["dig"]), "no query specified");
    assert_eq!(error_of(&["dig", "+bogus", "x"]), "unknown option: +bogus");
    assert_eq!(error_of(&["dig", "-p", "abc", "x"]), "invalid port");
    assert_eq!(error_of(&["dig", "-p"]), "-p requires an argument");
    assert_eq!(error_of(&["dig", "-t", "nosuch", "x"]), "unknown type: nosuch");
    assert_eq!(error_of(&["dig", "-c", "xx", "x"]), "unknown class: xx");
    assert_eq!(error_of(&["dig", "-k"]), "-k requires an argument");
    assert_eq!(error_of(&["dig", "+tries=z", "x"]), "invalid tries");
    assert_eq!(error_of(&["dig", "+opcode=BOGUS", "x"]), "invalid opcode: BOGUS");
}

#[test]
fn dig_cli_version_and_help() {
    assert!(matches!(parse_args(&line(&["dig", "-v", "x"])), Err(DigStop::Version)));
    assert!(matches!(parse_args(&line(&["dig", "--help"])), Err(DigStop::Help)));
}

#[test]
fn dig_cli_plus_option_alone() {
    let mut a = DigArgs::new();
    assert!(parse_plus_option(&mut a, "nocomments").is_ok());
    assert!(!a.print_opts.show_comments);
    assert!(parse_plus_option(&mut a, "retry=2").is_ok());
    assert_eq!(a.resolver.retry, 2);
    assert!(parse_plus_option(&mut a, "nsid").is_ok());
    assert_eq!(parse_plus_option(&mut a, "bufsize=x"), Err("invalid bufsize".to_string()));
}

#[test]
fn class_names_read_back() {
    for c in [1u16, 3, 4, 254, 255] {
        assert_eq!(parse_class(class_name(c)), Some(c));
    }
    assert_eq!(class_name(9), "CLASS?");
    assert_eq!(parse_class("CHAOS"), Some(3));
}

#[test]
fn header_bit_options_set_query_flags() {
    let mut a = DigArgs::new();
    assert_eq!(a.header_bits, 0);
    assert!(parse_plus_option(&mut a, "cdflag").is_ok());
    assert!(parse_plus_option(&mut a, "adflag").is_ok());
    assert!(parse_plus_option(&mut a, "aaonly").is_ok());
    assert_eq!(a.header_bits, 0x0430);
    assert!(parse_plus_option(&mut a, "noadflag").is_ok());
    assert_eq!(a.header_bits, 0x0410);
    let q = nettoolkit::dig::dns::build_query_flags("a.b", RecordType::A, 7, 0x0100 | a.header_bits);
    assert_eq!(&q[..4], &[0u8, 7, 0x05, 0x10]);
    assert_eq!(
        nettoolkit::dig::dns::build_query_flags("a.b", RecordType::A, 7, 0x0100),
        nettoolkit::dig::dns::build_query("a.b", RecordType::A, 7, true)
    );
}
