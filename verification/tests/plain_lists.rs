use nettoolkit::bgpq4::prefix::SxPrefix;
use nettoolkit::bgpq4::printer::{format_bird, format_cisco, format_json, format_juniper, format_openbgpd};

fn prefix(text: &str) -> SxPrefix {
    let mut p = SxPrefix::new();
    assert!(!SxPrefix::parse_panics_at(0, text));
    assert!(p.parse(0, text));
    p
}

fn two_prefixes() -> Vec<SxPrefix> {
    vec![prefix("192.31.196.0/24"), prefix("192.175.48.0/24")]
}

#[test]
fn cisco_format() {
    let out = format_cisco("NN", &two_prefixes());
    let expected = "no ip prefix-list NN\nip prefix-list NN permit 192.31.196.0/24\nip prefix-list NN permit 192.175.48.0/24\n";
    assert_eq!(out, expected);
}

#[test]
fn bird_format() {
    let out = format_bird("NN", &two_prefixes());
    let expected = "NN = [\n    192.31.196.0/24,\n    192.175.48.0/24\n];\n";
    assert_eq!(out, expected);
}

#[test]
fn juniper_format() {
    let out = format_juniper("NN", &two_prefixes());
    let expected = "policy-options {\nreplace:\n prefix-list NN {\n    192.31.196.0/24;\n    192.175.48.0/24;\n }\n}\n";
    assert_eq!(out, expected);
}

#[test]
fn json_format_valid() {
    let out = format_json("NN", &two_prefixes());
    let v: serde_json::Value = serde_json::from_str(&out).expect("invalid JSON");
    let arr = v["NN"].as_array().expect("NN must be array");
    assert_eq!(arr.len(), 2);
    assert_eq!(arr[0]["prefix"].as_str().unwrap(), "192.31.196.0/24");
    assert_eq!(arr[0]["exact"].as_bool().unwrap(), true);
}

#[test]
fn openbgpd_format() {
    let out = format_openbgpd("NN", &two_prefixes());
    assert!(out.starts_with("prefix { \n"));
    assert!(out.contains("\t192.31.196.0/24\n"));
    assert!(out.contains("\t192.175.48.0/24\n"));
}

#[test]
fn json_format_escapes_slash_exactly() {
    let out = format_json("NN", &two_prefixes());
    let expected = "{ \"NN\": [\n    { \"prefix\": \"192.31.196.0\\/24\", \"exact\": true },\n    { \"prefix\": \"192.175.48.0\\/24\", \"exact\": true }\n] }\n";
    assert_eq!(out, expected);
}

#[test]
fn openbgpd_format_exact() {
    let out = format_openbgpd("NN", &two_prefixes());
    assert_eq!(out, "prefix { \n\t192.31.196.0/24\n\t192.175.48.0/24\n\t}\n");
}

#[test]
fn empty_lists() {
    let none: Vec<SxPrefix> = Vec::new();
    assert_eq!(format_cisco("X", &none), "no ip prefix-list X\n");
    assert_eq!(format_bird("X", &none), "X = [\n];\n");
    assert_eq!(format_json("X", &none), "{ \"X\": [\n\n] }\n");
}

#[test]
fn ipv6_prefix_text() {
    let p = prefix("2001:db8::/32");
    assert_eq!(p.format_str(), "2001:db8::/32");
    assert_eq!(p.family, 10);
    assert_eq!(p.masklen, 32);
}

#[test]
fn parse_clears_bits_past_the_mask() {
    // Every bit past the mask is cleared, also at a byte boundary.
    assert_eq!(prefix("10.1.2.3/8").format_str(), "10.0.0.0/8");
    assert_eq!(prefix("10.31.2.3/12").format_str(), "10.16.0.0/12");
    assert_eq!(prefix("10.1.2.3/32").format_str(), "10.1.2.3/32");
}
