use nettoolkit::dig::dns::{EdnsOption, Rdata};
use nettoolkit::dig::printer::common::{current_column, indent};
use nettoolkit::dig::printer::format::{
    base32hex_encode, base64_encode, bitmap_type_numbers, class_name, compute_key_tag, decode_type_bitmap, digest_type_name, escape_dohpath,
    escape_txt_string, format_aaaa, format_ttl_units, format_txt, rdata_to_bytes, secalg_name,
    svcparam_key_name,
};
use nettoolkit::dig::printer::output::{
    ede_text, epoch_secs_to_tm, format_month, format_weekday, is_leap, print_edns_option,
    yaml_single_quote_escape,
};
use nettoolkit::dig::query::{build_reverse_name, parse_class, server_target, ServerTarget};

#[test]
fn ttl_units() {
    assert_eq!(format_ttl_units(0), "0");
    assert_eq!(format_ttl_units(3661), "1h1m1s");
    assert_eq!(format_ttl_units(604800), "1w");
    assert_eq!(format_ttl_units(60), "1m");
    assert_eq!(format_ttl_units(86405), "1d5s");
}

#[test]
fn class_names() {
    assert_eq!(class_name(1), "IN");
    assert_eq!(class_name(3), "CH");
    assert_eq!(class_name(254), "NONE");
    assert_eq!(class_name(42), "CLASS?");
}

#[test]
fn base64_vectors() {
    assert_eq!(base64_encode(b""), "");
    assert_eq!(base64_encode(b"M"), "TQ==");
    assert_eq!(base64_encode(b"Ma"), "TWE=");
    assert_eq!(base64_encode(b"Man"), "TWFu");
    assert_eq!(base64_encode(b"foobar"), "Zm9vYmFy");
}

#[test]
fn base32hex_vectors() {
    assert_eq!(base32hex_encode(b""), "");
    assert_eq!(base32hex_encode(b"f"), "CO");
    assert_eq!(base32hex_encode(b"fo"), "CPNG");
    assert_eq!(base32hex_encode(b"foo"), "CPNMU");
    assert_eq!(base32hex_encode(b"foobar"), "CPNMUOJ1E8");
}

#[test]
fn columns_and_indent() {
    assert_eq!(current_column("ab\tc"), 9);
    assert_eq!(current_column("line\nab"), 2);
    let mut s = String::new();
    indent(&mut s, 0, 10);
    assert_eq!(s, "\t  ");
    let mut t = String::from("x");
    indent(&mut t, 5, 3);
    assert_eq!(t, "x");
}

#[test]
fn epoch_dates() {
    let t = epoch_secs_to_tm(0);
    assert_eq!((t.tm_year, t.tm_mon, t.tm_mday, t.tm_hour, t.tm_min, t.tm_sec), (0, 0, 1, 0, 0, 0));
    assert_eq!(t.tm_wday, 4);
    let t = epoch_secs_to_tm(86400 * 31 + 3661);
    assert_eq!((t.tm_mon, t.tm_mday, t.tm_hour, t.tm_min, t.tm_sec), (1, 1, 1, 1, 1));
    let t = epoch_secs_to_tm(951782400);
    assert_eq!((t.tm_year, t.tm_mon, t.tm_mday), (30, 1, 29));
}

#[test]
fn leap_years() {
    assert!(is_leap(2000));
    assert!(!is_leap(1900));
    assert!(is_leap(2024));
    assert!(!is_leap(2023));
}

#[test]
fn weekday_and_month_names() {
    assert_eq!(format_weekday(0), "Sun");
    assert_eq!(format_weekday(6), "Sat");
    assert_eq!(format_weekday(7), "???");
    assert_eq!(format_month(0), "Jan");
    assert_eq!(format_month(11), "Dec");
    assert_eq!(format_month(12), "???");
}

#[test]
fn extended_errors_and_yaml() {
    assert_eq!(ede_text(15), "Blocked");
    assert_eq!(ede_text(25), "Invalid Data");
    assert_eq!(ede_text(99), "Unknown");
    assert_eq!(yaml_single_quote_escape("it's"), "it''s");
}

fn edns(code: u16, data: &[u8]) -> String {
    let mut out = String::new();
    print_edns_option(&mut out, &EdnsOption { code, data: data.to_vec() });
    out
}

#[test]
fn edns_option_lines() {
    assert_eq!(edns(3, &[0xab, 0x01]), "; NSID: ab01\n");
    assert_eq!(edns(10, &[0x0f]), "; COOKIE: 0f\n");
    assert_eq!(edns(15, &[0, 18, b'n', b'o']), "; EDE: 18 (Prohibited): no\n");
    assert_eq!(edns(15, &[0, 1, 0xff]), "; EDE: 1 (Unsupported DNSKEY Algorithm): ff\n");
    assert_eq!(edns(15, &[0, 3]), "; EDE: 3 (Stale Answer)\n");
    assert_eq!(edns(15, &[7]), "; EDE: 07\n");
    assert_eq!(edns(11, &[0, 100, 0, 5]), "; TCP-KEEPALIVE: 100 5\n");
    assert_eq!(edns(11, &[0]), "; TCP-KEEPALIVE: \n");
    assert_eq!(edns(12, &[0, 0, 0]), "; PADDING: 3 bytes\n");
    assert_eq!(edns(99, &[1]), "; OPTION99: 01\n");
}

#[test]
fn svc_keys_and_doh_paths() {
    assert_eq!(svcparam_key_name(1), "alpn");
    assert_eq!(svcparam_key_name(7), "dohpath");
    assert_eq!(svcparam_key_name(9), "key9");
    assert_eq!(escape_dohpath("/q{?dns}\"\u{1}"), "/q{?dns}\\\"\\001");
}

#[test]
fn aaaa_forms() {
    let mut a = [0u8; 16];
    a[0] = 0x20;
    a[1] = 0x01;
    a[2] = 0x0d;
    a[3] = 0xb8;
    a[15] = 1;
    assert_eq!(format_aaaa(&a), "2001:db8:0:0:0:0:0:1");
    a[15] = 0;
    assert_eq!(format_aaaa(&a), "2001:db8:");
    assert_eq!(format_aaaa(&[0u8; 16]), "");
}

#[test]
fn txt_escapes() {
    assert_eq!(escape_txt_string(b"a\"b\\\n\x01\xe9"), "a\\\"b\\\\\\n\\001\u{e9}");
    assert_eq!(format_txt(&[b"a".to_vec(), b"b c".to_vec()]), "\"a\" \"b c\"");
}

#[test]
fn dnssec_names() {
    assert_eq!(secalg_name(8), "RSASHA256");
    assert_eq!(secalg_name(99), "UNKNOWN");
    assert_eq!(digest_type_name(2), "SHA-256");
    assert_eq!(digest_type_name(9), "9");
}

#[test]
fn key_tags() {
    assert_eq!(compute_key_tag(256, 3, 8, &[]), 1032);
    assert_eq!(compute_key_tag(256, 3, 8, &[0xff]), 777);
}

#[test]
fn rdata_bytes() {
    assert_eq!(rdata_to_bytes(&Rdata::Txt(vec![b"a".to_vec(), b"bc".to_vec()])), vec![1, b'a', 2, b'b', b'c']);
    assert_eq!(rdata_to_bytes(&Rdata::A([1, 2, 3, 4])), vec![1, 2, 3, 4]);
    assert_eq!(rdata_to_bytes(&Rdata::Cname("x".into())), Vec::<u8>::new());
}

#[test]
fn classes_by_name() {
    assert_eq!(parse_class("IN"), Some(1));
    assert_eq!(parse_class("CHAOS"), Some(3));
    assert_eq!(parse_class("HS"), Some(4));
    assert_eq!(parse_class("ANY"), Some(255));
    assert_eq!(parse_class("XX"), None);
}

#[test]
fn reverse_names() {
    assert_eq!(build_reverse_name("8.8.4.4"), "4.4.8.8.in-addr.arpa");
    assert_eq!(build_reverse_name("10.1"), "10.1.in-addr.arpa");
    assert_eq!(build_reverse_name("2001:db8::1"), "1.8.b.d.1.0.0.2.ip6.arpa");
}

#[test]
fn server_targets() {
    assert_eq!(
        server_target("https://dns.google/dns-query", 53),
        ServerTarget::Doh("https://dns.google/dns-query".into())
    );
    assert_eq!(server_target("8.8.8.8", 53), ServerTarget::Socket("8.8.8.8:53".into()));
    assert_eq!(server_target("[::1]:5353", 53), ServerTarget::Socket("[::1]:5353".into()));
}

#[test]
fn type_bitmap_windows() {
    let bm = [0u8, 6, 0x40, 0x01, 0, 0, 0, 0x03, 1, 1, 0x80];
    assert_eq!(bitmap_type_numbers(&bm), vec![1u16, 15, 46, 47, 256]);
    assert_eq!(decode_type_bitmap(&bm), vec!["A", "MX", "TYPE46", "TYPE47", "TYPE256"]);
    assert_eq!(decode_type_bitmap(&[0u8, 5, 0x40]), Vec::<String>::new());
    assert_eq!(decode_type_bitmap(&[]), Vec::<String>::new());
}
