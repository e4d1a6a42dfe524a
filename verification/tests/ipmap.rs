use nettoolkit::ipmap::display::{active_count, block_map};
use nettoolkit::ipmap::scanner::{parse_cidr, parse_latency, ping_args, ping_outcome, PingResult};

fn ip(a: u8, b: u8, c: u8, d: u8) -> u32 {
    u32::from_be_bytes([a, b, c, d])
}

#[test]
fn cidr_slash_30() {
    let v = parse_cidr("10.0.0.0/30").unwrap();
    assert_eq!(v, vec![ip(10, 0, 0, 0), ip(10, 0, 0, 1), ip(10, 0, 0, 2), ip(10, 0, 0, 3)]);
}

#[test]
fn cidr_clears_host_bits() {
    let v = parse_cidr("192.168.1.77/31").unwrap();
    assert_eq!(v, vec![ip(192, 168, 1, 76), ip(192, 168, 1, 77)]);
    assert_eq!(parse_cidr("1.2.3.4/32").unwrap(), vec![ip(1, 2, 3, 4)]);
}

#[test]
fn cidr_errors() {
    assert_eq!(parse_cidr("10.0.0.0"), Err(String::from("invalid CIDR: 10.0.0.0")));
    assert_eq!(parse_cidr("10.0.0.0/x"), Err(String::from("invalid prefix length: x")));
    assert_eq!(parse_cidr("10.0.0.0/33"), Err(String::from("prefix length 33 out of range")));
    assert_eq!(parse_cidr("10.0.0/24"), Err(String::from("invalid address: 10.0.0")));
}

#[test]
fn latency_forms() {
    assert_eq!(parse_latency("64 bytes from 1.1.1.1: icmp_seq=1 ttl=57 time=12.3 ms"), None);
    assert_eq!(parse_latency("Reply from 1.1.1.1: bytes=32 time=12ms TTL=57"), Some(12));
    assert_eq!(parse_latency("time=7 ms"), Some(7));
    assert_eq!(parse_latency("time<1ms"), Some(1));
    assert_eq!(parse_latency("time<ms"), Some(0));
    assert_eq!(parse_latency("time=5 MS"), Some(5));
    assert_eq!(parse_latency("no reply"), None);
}

#[test]
fn ping_arguments() {
    assert_eq!(ping_args(ip(10, 0, 0, 1), 1500, 1, false), vec!["-c", "1", "-W", "2", "10.0.0.1"]);
    assert_eq!(ping_args(ip(10, 0, 0, 1), 0, 3, false), vec!["-c", "3", "-W", "1", "10.0.0.1"]);
    assert_eq!(ping_args(ip(10, 0, 0, 1), 1500, 1, true), vec!["-n", "1", "-w", "1500", "10.0.0.1"]);
}

#[test]
fn ping_outcomes() {
    let r = ping_outcome(7, true, true, b"Reply: time=12ms");
    assert!(r.alive);
    assert_eq!(r.latency_ms, Some(12));
    let r = ping_outcome(7, true, false, b"time=12ms");
    assert!(!r.alive);
    assert_eq!(r.latency_ms, None);
    let r = ping_outcome(7, false, true, b"");
    assert!(!r.alive);
    assert_eq!(r.ip, 7);
}

fn results(flags: &[bool]) -> Vec<PingResult> {
    flags.iter().enumerate().map(|(i, &a)| PingResult { ip: i as u32, alive: a, latency_ms: None }).collect()
}

#[test]
fn counts_and_blocks() {
    let r = results(&[true, false, true, true]);
    assert_eq!(active_count(&r), 3);
    assert_eq!(block_map(&r), vec![true, false, true, true]);
    assert_eq!(block_map(&[]), Vec::<bool>::new());
}

#[test]
fn blocks_scale_to_1024() {
    // 2048 addresses: two per block, lit when at least one of the two answered.
    let mut flags = vec![false; 2048];
    flags[1] = true;
    flags[4] = true;
    flags[5] = true;
    let r = results(&flags);
    let b = block_map(&r);
    assert_eq!(b.len(), 1024);
    assert!(b[0]);
    assert!(!b[1]);
    assert!(b[2]);
    assert!(!b[3]);
}
