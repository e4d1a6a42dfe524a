use nettoolkit::bgpq4::irrd::{
    a_query_supported, data_items, response_head, response_items, sources_accepted, sources_list_count, HeadError,
    ResponseHead,
};

#[test]
fn head_codes() {
    assert!(matches!(response_head("A123\n"), Ok(ResponseHead::Data(123))));
    assert!(matches!(response_head("A 7\r\n"), Ok(ResponseHead::Data(7))));
    assert!(matches!(response_head("C\n"), Ok(ResponseHead::Empty)));
    assert!(matches!(response_head("D\n"), Ok(ResponseHead::NotFound)));
    assert!(matches!(response_head("E\n"), Ok(ResponseHead::MultipleKeys)));
    match response_head("F no such set\n") {
        Ok(ResponseHead::Error(t)) => assert_eq!(t, "no such set"),
        other => panic!("unexpected {:?}", other),
    }
}

#[test]
fn head_errors() {
    assert!(matches!(response_head("Ax\n"), Err(HeadError::BadByteCount)));
    assert!(matches!(response_head("\n"), Err(HeadError::Unexpected)));
    assert!(matches!(response_head("Z\n"), Err(HeadError::Unexpected)));
}

#[test]
fn items_split_on_white_space() {
    assert_eq!(data_items("AS1 AS2\n AS3\t"), vec!["AS1", "AS2", "AS3"]);
    assert_eq!(data_items("  "), Vec::<String>::new());
    assert_eq!(response_items(b"192.0.2.0/24 198.51.100.0/24\n"), vec!["192.0.2.0/24", "198.51.100.0/24"]);
}

#[test]
fn source_answers() {
    assert!(sources_accepted(" C\n"));
    assert!(!sources_accepted("D\n"));
    assert_eq!(sources_list_count("A12\n"), Some(12));
    assert_eq!(sources_list_count("Ax\n"), Some(0));
    assert_eq!(sources_list_count("C\n"), None);
    assert!(a_query_supported("F Missing required set name\n"));
    assert!(!a_query_supported("D\n"));
}
