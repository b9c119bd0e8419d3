use mail_admission::blob::blob_range;
use mail_admission::capability::{Arguments, Capability, Request, RequestError};
use mail_admission::expr::{ConfigurationError, Context, Field, Predicate, Rule, eval_rules,
    evaluate};
use mail_admission::message::{Header, count_hop_headers};

#[test]
fn parse_enable() {
    let request = Request {
        tag: "t2".to_string(),
        tokens: vec![b"IMAP4rev2".to_vec(), b"CONDSTORE".to_vec()],
    };
    assert_eq!(
        request.parse_enable().unwrap(),
        Arguments {
            tag: "t2".to_string(),
            capabilities: vec![Capability::IMAP4rev2, Capability::CondStore],
        }
    );
}

#[test]
fn parse_enable_without_arguments() {
    let request = Request { tag: "t3".to_string(), tokens: Vec::new() };
    match request.parse_enable() {
        Err(RequestError::MissingArguments { tag }) => assert_eq!(tag, "t3"),
        other => panic!("unexpected result: {other:?}"),
    }
}

#[test]
fn parse_enable_unsupported_capability() {
    let request = Request {
        tag: "t4".to_string(),
        tokens: vec![b"CONDSTORE".to_vec(), b"NOSUCH".to_vec(), b"QRESYNC".to_vec()],
    };
    match request.parse_enable() {
        Err(RequestError::UnsupportedCapability { tag, value }) => {
            assert_eq!(tag, "t4");
            assert_eq!(value, b"NOSUCH".to_vec());
        },
        other => panic!("unexpected result: {other:?}"),
    }
}

#[test]
fn capability_names_are_case_insensitive() {
    assert_eq!(Capability::parse(b"imap4rev2").unwrap(), Capability::IMAP4rev2);
    assert_eq!(Capability::parse(b"StartTLS").unwrap(), Capability::StartTLS);
    assert_eq!(Capability::parse(b"LOGINDISABLED").unwrap(), Capability::LoginDisabled);
    assert_eq!(Capability::parse(b"condstore").unwrap(), Capability::CondStore);
    assert_eq!(Capability::parse(b"QRESYNC").unwrap(), Capability::QResync);
    assert_eq!(Capability::parse(b"utf8=accept").unwrap(), Capability::Utf8Accept);
    let err = Capability::parse(b"IMAP4rev1").unwrap_err();
    assert_eq!(err.value, b"IMAP4rev1".to_vec());
}

#[test]
fn first_matching_rule_wins() {
    let rules = vec![
        Rule {
            cond: Some(Predicate { field: Field::RemoteIp, literal: "10.0.0.1".to_string() }),
            value: 1u64,
        },
        Rule {
            cond: Some(Predicate { field: Field::RemoteIp, literal: "10.0.0.1".to_string() }),
            value: 2u64,
        },
        Rule { cond: None, value: 100u64 },
    ];
    let ctx = Context {
        remote_ip: "10.0.0.1".to_string(),
        sender: String::new(),
        rcpt: String::new(),
        rcpt_domain: String::new(),
    };
    assert_eq!(eval_rules(&rules, &ctx), Some(1));
    let other = Context {
        remote_ip: "10.0.0.9".to_string(),
        sender: String::new(),
        rcpt: String::new(),
        rcpt_domain: String::new(),
    };
    assert_eq!(eval_rules(&rules, &other), Some(100));
}

#[test]
fn no_rule_matches_without_default() {
    let rules = vec![Rule {
        cond: Some(Predicate { field: Field::Sender, literal: "a@b.c".to_string() }),
        value: true,
    }];
    let ctx = Context {
        remote_ip: String::new(),
        sender: "x@y.z".to_string(),
        rcpt: String::new(),
        rcpt_domain: String::new(),
    };
    assert_eq!(eval_rules(&rules, &ctx), None);
    assert_eq!(evaluate(&rules, &ctx), Err(ConfigurationError));

    let complete = vec![
        Rule {
            cond: Some(Predicate { field: Field::Sender, literal: "a@b.c".to_string() }),
            value: true,
        },
        Rule { cond: None, value: false },
    ];
    assert_eq!(evaluate(&complete, &ctx), Ok(false));
}

#[test]
fn predicates_test_each_field() {
    let ctx = Context {
        remote_ip: "10.0.0.1".to_string(),
        sender: "a@b.c".to_string(),
        rcpt: "d@e.f".to_string(),
        rcpt_domain: "e.f".to_string(),
    };
    let hit = Predicate { field: Field::Rcpt, literal: "d@e.f".to_string() };
    let miss = Predicate { field: Field::RcptDomain, literal: "d@e.f".to_string() };
    assert!(hit.eval(&ctx));
    assert!(!miss.eval(&ctx));
}

#[test]
fn hop_headers_are_counted_exactly() {
    let headers = vec![
        Header { name: "Received".to_string(), value: "a".to_string() },
        Header { name: "From".to_string(), value: "x".to_string() },
        Header { name: "Received".to_string(), value: "b".to_string() },
        Header { name: "received".to_string(), value: "c".to_string() },
    ];
    let hop = "Received".to_string();
    assert_eq!(count_hop_headers(&headers, &hop), 2);
}

#[test]
fn blob_range_reads() {
    let data: Vec<u8> = (0u8..10).collect();

    // The unbounded range reads the whole value.
    assert_eq!(blob_range(&data, 0, usize::MAX), data);

    // A bounded range is clamped to the value's length.
    assert_eq!(blob_range(&data, 2, 5), vec![2, 3, 4]);
    assert_eq!(blob_range(&data, 5, 100), vec![5, 6, 7, 8, 9]);

    // A range starting past the end selects nothing.
    assert_eq!(blob_range(&data, 12, 20), Vec::<u8>::new());

    // An empty range selects nothing.
    assert_eq!(blob_range(&data, 3, 3), Vec::<u8>::new());
}
