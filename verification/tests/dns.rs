use nettoolkit::dig::dns::{build_query, message_overruns, parse_message, parse_name, DnsError, Header, Rdata, RecordType};

const QUERY_XY_A: &[u8] = &[
    0x12, 0x34, 0x01, 0x00, 0x00, 0x01, 0x00, 0x00, 0x00, 0x00, 0x00, 0x00, 0x01, b'x', 0x01,
    b'y', 0x00, 0x00, 0x01, 0x00, 0x01,
];

const RESPONSE_XY_A: &[u8] = &[
    0x12, 0x34, 0x81, 0x80, 0x00, 0x01, 0x00, 0x01, 0x00, 0x00, 0x00, 0x00, 0x01, b'x', 0x01,
    b'y', 0x00, 0x00, 0x01, 0x00, 0x01, 0xC0, 0x0C, 0x00, 0x01, 0x00, 0x01, 0x00, 0x00, 0x01,
    0x2C, 0x00, 0x04, 0x01, 0x02, 0x03, 0x04,
];

#[test]
fn build_query_bytes() {
    let q = build_query("x.y", RecordType::A, 0x1234, true);
    assert_eq!(q, QUERY_XY_A);
}

#[test]
fn build_query_no_recursion() {
    let q = build_query("x.y", RecordType::A, 0x1234, false);
    assert_eq!(q[2], 0x00, "flags high byte should have RD=0");
}

#[test]
fn build_query_multipart_name() {
    let q = build_query("a.b.c", RecordType::A, 0x0001, false);
    let name_start = 12;
    assert_eq!(q[name_start], 0x01);
    assert_eq!(q[name_start + 1], b'a');
    assert_eq!(q[name_start + 2], 0x01);
    assert_eq!(q[name_start + 3], b'b');
    assert_eq!(q[name_start + 4], 0x01);
    assert_eq!(q[name_start + 5], b'c');
    assert_eq!(q[name_start + 6], 0x00);
}

#[test]
fn record_type_roundtrip() {
    assert_eq!(RecordType::from_u16(1), Some(RecordType::A));
    assert_eq!(RecordType::A.to_u16(), 1);
    assert_eq!(RecordType::from_str("AAAA"), Some(RecordType::Aaaa));
    assert_eq!(RecordType::Aaaa.as_str(), "AAAA");
    assert_eq!(RecordType::from_u16(999), None);
}

#[test]
fn record_type_lower_case_name() {
    assert_eq!(RecordType::from_str("mx"), Some(RecordType::Mx));
    assert_eq!(RecordType::from_str("aaaa"), Some(RecordType::Aaaa));
    assert_eq!(RecordType::from_str("bogus"), None);
    assert_eq!(RecordType::from_upper("TXT"), Some(RecordType::Txt));
    assert_eq!(RecordType::from_upper("txt"), None);
}

#[test]
fn record_type_codes_round_trip() {
    for t in [
        RecordType::A,
        RecordType::Ns,
        RecordType::Cname,
        RecordType::Soa,
        RecordType::Ptr,
        RecordType::Mx,
        RecordType::Txt,
        RecordType::Aaaa,
        RecordType::Any,
    ] {
        assert_eq!(RecordType::from_u16(t.to_u16()), Some(t));
        assert_eq!(RecordType::from_upper(t.as_str()), Some(t));
    }
}

#[test]
fn build_query_any_type_and_empty_label() {
    let q = build_query("a..b", RecordType::Any, 0xBEEF, true);
    assert_eq!(&q[..4], &[0xBE, 0xEF, 0x01, 0x00]);
    assert_eq!(&q[12..18], &[0x01, b'a', 0x00, 0x01, b'b', 0x00]);
    assert_eq!(&q[18..], &[0x00, 0xFF, 0x00, 0x01]);
}

#[test]
fn header_flag_bits() {
    let h = Header { id: 1, flags: 0x8380 | 0x0003, qd_count: 1, an_count: 0, ns_count: 0, ar_count: 0 };
    assert!(h.is_response());
    assert!(h.is_truncated());
    assert!(h.recursion_desired());
    assert!(h.recursion_available());
    assert_eq!(h.rcode(), 3);
    let q = Header { id: 1, flags: 0, qd_count: 0, an_count: 0, ns_count: 0, ar_count: 0 };
    assert!(!q.is_response());
    assert!(!q.is_truncated());
    assert!(!q.recursion_desired());
    assert!(!q.recursion_available());
    assert_eq!(q.rcode(), 0);
}

#[test]
fn parse_a_response() {
    assert!(!message_overruns(RESPONSE_XY_A));
    let msg = parse_message(RESPONSE_XY_A).unwrap();
    assert_eq!(msg.header.id, 0x1234);
    assert!(msg.header.is_response());
    assert_eq!(msg.header.qd_count, 1);
    assert_eq!(msg.header.an_count, 1);
    assert_eq!(msg.questions.len(), 1);
    assert_eq!(msg.questions[0].name, "x.y");
    assert_eq!(msg.questions[0].qtype, RecordType::A);
    assert_eq!(msg.answers.len(), 1);
    let rr = &msg.answers[0];
    assert_eq!(rr.name, "x.y");
    assert_eq!(rr.rtype, RecordType::A);
    assert_eq!(rr.ttl, 300);
    assert_eq!(rr.rdata, Rdata::A([1, 2, 3, 4]));
}

#[test]
fn parse_name_with_pointer() {
    let msg = parse_message(RESPONSE_XY_A).unwrap();
    assert_eq!(msg.answers[0].name, "x.y");
}

#[test]
fn parse_error_on_short_buffer() {
    let result = parse_message(&[0u8; 11]);
    assert!(result.is_err());
}

fn header(qd: u8, an: u8) -> Vec<u8> {
    vec![0xAB, 0xCD, 0x81, 0x80, 0x00, qd, 0x00, an, 0x00, 0x00, 0x00, 0x00]
}

#[test]
fn short_buffer_error_offset_is_zero() {
    assert!(matches!(parse_message(&[0u8; 11]), Err(DnsError::Short(0))));
}

#[test]
fn root_name_reads_as_dot() {
    let buf = [0u8, 0xFF];
    let (name, end) = parse_name(&buf, 0).unwrap();
    assert_eq!(name, ".");
    assert_eq!(end, 1);
}

#[test]
fn name_end_stops_at_first_pointer() {
    // "a" then a pointer back to offset 4, where "b" and the root sit.
    let buf = [0x01, b'a', 0xC0, 0x04, 0x01, b'b', 0x00];
    let (name, end) = parse_name(&buf, 0).unwrap();
    assert_eq!(name, "a.b");
    assert_eq!(end, 4);
}

#[test]
fn pointer_loop_is_a_bad_name() {
    let buf = [0x00u8, 0x00, 0xC0, 0x02];
    match parse_name(&buf, 2) {
        Err(DnsError::BadName(at, text)) => {
            assert_eq!(at, 2);
            assert_eq!(text, "compression pointer loop");
        },
        other => panic!("expected a pointer loop, got {:?}", other),
    }
}

#[test]
fn label_past_end_is_short() {
    let buf = [0x05u8, b'a', b'b'];
    assert!(matches!(parse_name(&buf, 0), Err(DnsError::Short(1))));
}

#[test]
fn invalid_utf8_label() {
    let buf = [0x01u8, 0xFF, 0x00];
    assert!(matches!(parse_name(&buf, 0), Err(DnsError::Utf8)));
}

#[test]
fn parse_mx_txt_and_unknown_records() {
    let mut buf = header(0, 3);
    // MX 10 mail.x (name is the root)
    buf.extend_from_slice(&[0x00, 0x00, 0x0F, 0x00, 0x01, 0x00, 0x00, 0x00, 0x3C, 0x00, 0x09]);
    buf.extend_from_slice(&[0x00, 0x0A, 0x04, b'm', b'a', b'i', b'l', 0x00, 0xEE]);
    // TXT "hi", then a string that runs past the data
    buf.extend_from_slice(&[0x00, 0x00, 0x10, 0x00, 0x01, 0x00, 0x00, 0x00, 0x01, 0x00, 0x05]);
    buf.extend_from_slice(&[0x02, b'h', b'i', 0x07, b'x']);
    // ANY record: raw bytes
    buf.extend_from_slice(&[0x00, 0x00, 0xFF, 0x00, 0x01, 0x00, 0x00, 0x00, 0x00, 0x00, 0x02, 0xDE, 0xAD]);
    let msg = parse_message(&buf).unwrap();
    assert_eq!(msg.answers.len(), 3);
    assert_eq!(msg.answers[0].name, ".");
    assert_eq!(msg.answers[0].ttl, 60);
    assert_eq!(msg.answers[0].rdata, Rdata::Mx { priority: 10, exchange: String::from("mail") });
    assert_eq!(msg.answers[1].rdata, Rdata::Txt(vec![b"hi".to_vec()]));
    assert_eq!(msg.answers[2].rtype, RecordType::Any);
    assert_eq!(msg.answers[2].rdata, Rdata::Unknown(vec![0xDE, 0xAD]));
}

#[test]
fn unknown_record_type_reads_as_a() {
    let mut buf = header(0, 1);
    buf.extend_from_slice(&[0x00, 0x03, 0xE7, 0x00, 0x01, 0x00, 0x00, 0x00, 0x00, 0x00, 0x04, 9, 8, 7, 6]);
    let msg = parse_message(&buf).unwrap();
    assert_eq!(msg.answers[0].rtype, RecordType::A);
    assert_eq!(msg.answers[0].rdata, Rdata::A([9, 8, 7, 6]));
}

#[test]
fn record_data_past_end_is_short() {
    let mut buf = header(0, 1);
    buf.extend_from_slice(&[0x00, 0x00, 0x01, 0x00, 0x01, 0x00, 0x00, 0x00, 0x00, 0x00, 0x04, 9, 8]);
    assert!(matches!(parse_message(&buf), Err(DnsError::Short(23))));
}

#[test]
fn short_a_data_is_short() {
    let mut buf = header(0, 1);
    buf.extend_from_slice(&[0x00, 0x00, 0x01, 0x00, 0x01, 0x00, 0x00, 0x00, 0x00, 0x00, 0x02, 9, 8]);
    assert!(matches!(parse_message(&buf), Err(DnsError::Short(23))));
}

#[test]
fn soa_record() {
    let mut buf = header(0, 1);
    let mut rd = vec![0x01, b'a', 0x00, 0x01, b'b', 0x00];
    for v in [1u32, 2, 3, 4, 5] {
        rd.extend_from_slice(&v.to_be_bytes());
    }
    buf.extend_from_slice(&[0x00, 0x00, 0x06, 0x00, 0x01, 0x00, 0x00, 0x0E, 0x10, 0x00, rd.len() as u8]);
    buf.extend_from_slice(&rd);
    let msg = parse_message(&buf).unwrap();
    assert_eq!(msg.answers[0].ttl, 3600);
    assert_eq!(
        msg.answers[0].rdata,
        Rdata::Soa {
            mname: String::from("a"),
            rname: String::from("b"),
            serial: 1,
            refresh: 2,
            retry: 3,
            expire: 4,
            minimum: 5
        }
    );
}

#[test]
fn soa_names_past_data_overrun() {
    let mut buf = header(0, 1);
    buf.extend_from_slice(&[0x00, 0x00, 0x06, 0x00, 0x01, 0x00, 0x00, 0x00, 0x00, 0x00, 0x01]);
    buf.extend_from_slice(&[0x01, b'a', 0x00, 0x00]);
    assert!(message_overruns(&buf));
}

#[test]
fn aaaa_record() {
    let mut buf = header(0, 1);
    buf.extend_from_slice(&[0x00, 0x00, 0x1C, 0x00, 0x01, 0x00, 0x00, 0x00, 0x00, 0x00, 0x10]);
    let addr: [u8; 16] = [0x20, 0x01, 0x0d, 0xb8, 0, 0, 0, 0, 0, 0, 0, 0, 0, 0, 0, 1];
    buf.extend_from_slice(&addr);
    let msg = parse_message(&buf).unwrap();
    assert_eq!(msg.answers[0].rdata, Rdata::Aaaa(addr));
}

#[test]
fn query_reads_back_as_written() {
    let q = build_query("www.example.com", RecordType::Mx, 0xbeef, true);
    assert!(!message_overruns(&q));
    let m = parse_message(&q).unwrap();
    assert_eq!(m.header.id, 0xbeef);
    assert_eq!(m.header.flags, 0x0100);
    assert_eq!(m.header.qd_count, 1);
    assert_eq!(m.questions.len(), 1);
    assert_eq!(m.questions[0].name, "www.example.com");
    assert_eq!(m.questions[0].qtype, RecordType::Mx);
    assert_eq!(m.questions[0].qclass, 1);
    assert!(m.answers.is_empty() && m.authority.is_empty() && m.additional.is_empty());
}

#[test]
fn query_with_unicode_label_reads_back() {
    let q = build_query("bücher.example", RecordType::A, 7, false);
    let m = parse_message(&q).unwrap();
    assert_eq!(m.header.flags, 0);
    assert_eq!(m.questions[0].name, "bücher.example");
}
