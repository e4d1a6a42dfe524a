use nettoolkit::dig::dns::{Header, Message, Question, Rdata, RecordType, ResourceRecord};
use nettoolkit::dig::printer::{print_message, print_short, rdata_to_string, PrintOpts};

fn a_response() -> Message {
    Message {
        header: Header { id: 0x1234, flags: 0x8180, qd_count: 1, an_count: 1, ns_count: 0, ar_count: 0 },
        questions: vec![Question { name: "google.com".into(), qtype: RecordType::A, qclass: 1 }],
        answers: vec![ResourceRecord {
            name: "google.com".into(),
            rtype: RecordType::A,
            class: 1,
            ttl: 300,
            rdata: Rdata::A([142, 250, 80, 46]),
        }],
        authority: vec![],
        additional: vec![],
    }
}

#[test]
fn short_output() {
    let msg = a_response();
    let out = print_short(&msg);
    assert_eq!(out.trim(), "142.250.80.46");
}

#[test]
fn full_output_contains_sections() {
    let msg = a_response();
    let out = print_message(&msg, &PrintOpts::default(), "8.8.8.8", Some(12));
    assert!(out.contains(";; ANSWER SECTION:"), "missing ANSWER section header");
    assert!(out.contains("142.250.80.46"), "missing answer IP");
    assert!(out.contains(";; QUESTION SECTION:"), "missing QUESTION section header");
    assert!(out.contains("Query time:"), "missing stats");
}

#[test]
fn full_output_short_suppresses_sections() {
    let msg = a_response();
    let opts = PrintOpts { short: true, ..PrintOpts::default() };
    let out = print_message(&msg, &opts, "8.8.8.8", None);
    assert!(!out.contains(";; ANSWER SECTION:"));
    assert!(out.contains("142.250.80.46"));
}

#[test]
fn full_output_exact() {
    let msg = a_response();
    let out = print_message(&msg, &PrintOpts::default(), "8.8.8.8", Some(12));
    let expected = ";; Got answer:\n;; ->>HEADER<<- opcode: QUERY, status: NOERROR, id: 4660\n\
;; flags: qr rd ra; QUERY: 1, ANSWER: 1, AUTHORITY: 0, ADDITIONAL: 0\n\n\
;; QUESTION SECTION:\n;google.com.\t\t\tIN\tA\n\n\
;; ANSWER SECTION:\ngoogle.com.\t\t300\tIN\tA\t142.250.80.46\n\n\
;; Query time: 12 msec\n;; SERVER: 8.8.8.8#53(8.8.8.8)\n";
    assert_eq!(out, expected);
}

#[test]
fn nxdomain_without_stats() {
    let mut msg = a_response();
    msg.header.flags = 0x8003;
    msg.answers.clear();
    let opts = PrintOpts { show_stats: false, show_question: false, ..PrintOpts::default() };
    let out = print_message(&msg, &opts, "x", None);
    assert_eq!(
        out,
        ";; Got answer:\n;; ->>HEADER<<- opcode: QUERY, status: NXDOMAIN, id: 4660\n;; flags: qr; QUERY: 1, ANSWER: 1, AUTHORITY: 0, ADDITIONAL: 0\n\n"
    );
}

#[test]
fn short_output_several_answers() {
    let mut msg = a_response();
    msg.answers.push(ResourceRecord {
        name: "google.com".into(),
        rtype: RecordType::Mx,
        class: 1,
        ttl: 60,
        rdata: Rdata::Mx { priority: 10, exchange: "smtp.google.com".into() },
    });
    assert_eq!(print_short(&msg), "142.250.80.46\n10 smtp.google.com.\n");
}

#[test]
fn rdata_texts() {
    assert_eq!(rdata_to_string(&Rdata::Cname("a.b".into())), "a.b.");
    assert_eq!(rdata_to_string(&Rdata::Txt(vec![b"v=spf1".to_vec(), b"x y".to_vec()])), "\"v=spf1\" \"x y\"");
    assert_eq!(rdata_to_string(&Rdata::Unknown(vec![0xde, 0xad, 0x01])), "\\# 3 dead01");
    let mut v6 = [0u8; 16];
    v6[0] = 0x20;
    v6[1] = 0x01;
    v6[2] = 0x0d;
    v6[3] = 0xb8;
    v6[15] = 1;
    assert_eq!(rdata_to_string(&Rdata::Aaaa(v6)), "2001:db8::1");
    assert_eq!(
        rdata_to_string(&Rdata::Soa {
            mname: "ns".into(),
            rname: "host".into(),
            serial: 1,
            refresh: 2,
            retry: 3,
            expire: 4,
            minimum: 5
        }),
        "ns. host. 1 2 3 4 5"
    );
}
