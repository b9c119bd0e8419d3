use mail_admission::expr::{Field, Predicate, Rule};
use mail_admission::headers::{HeaderPolicy, StampInfo};
use mail_admission::message::{Header, Recipient};
use mail_admission::quota::{Candidate, KeyField, QuotaDef, QuotaStore};
use mail_admission::session::{Rejection, Session, SessionConfig, admit_message};

fn rule_u64(cond: Option<(Field, &str)>, value: u64) -> Rule<u64> {
    Rule {
        cond: cond.map(|(field, literal)| Predicate { field, literal: literal.to_string() }),
        value,
    }
}

fn rule_bool(cond: Option<(Field, &str)>, value: bool) -> Rule<bool> {
    Rule {
        cond: cond.map(|(field, literal)| Predicate { field, literal: literal.to_string() }),
        value,
    }
}

fn header_flags(ip: &str) -> Vec<Rule<bool>> {
    vec![rule_bool(Some((Field::RemoteIp, ip)), true), rule_bool(None, false)]
}

fn test_config() -> SessionConfig {
    SessionConfig {
        max_messages: vec![rule_u64(Some((Field::RemoteIp, "10.0.0.1")), 1), rule_u64(None, 100)],
        received_headers_limit: 3,
        hop_header: "Received".to_string(),
        add_headers: HeaderPolicy {
            received: header_flags("10.0.0.3"),
            received_spf: header_flags("10.0.0.3"),
            auth_results: header_flags("10.0.0.3"),
            message_id: header_flags("10.0.0.3"),
            date: header_flags("10.0.0.3"),
            return_path: header_flags("10.0.0.3"),
        },
        quotas: vec![
            QuotaDef {
                cond: Some(Predicate { field: Field::Sender, literal: "john@doe.org".to_string() }),
                key_fields: vec![KeyField::Sender],
                max_messages: Some(1),
                max_bytes: None,
                dedupe_keys: false,
                enabled: true,
            },
            QuotaDef {
                cond: Some(Predicate {
                    field: Field::RcptDomain,
                    literal: "foobar.org".to_string(),
                }),
                key_fields: vec![KeyField::RcptDomain],
                max_messages: None,
                max_bytes: Some(450),
                dedupe_keys: false,
                enabled: true,
            },
            QuotaDef {
                cond: Some(Predicate { field: Field::Rcpt, literal: "jane@domain.net".to_string() }),
                key_fields: vec![KeyField::Rcpt],
                max_messages: None,
                max_bytes: Some(450),
                dedupe_keys: false,
                enabled: true,
            },
        ],
    }
}

fn session(ip: &str) -> Session {
    Session { remote_ip: ip.to_string(), messages_accepted: 0 }
}

fn candidate(sender: &str, rcpts: &[(&str, &str)], size: u64) -> Candidate {
    Candidate {
        sender: sender.to_string(),
        rcpts: rcpts
            .iter()
            .map(|(address, domain)| Recipient {
                address: address.to_string(),
                domain: domain.to_string(),
            })
            .collect(),
        size,
        headers: vec![
            Header { name: "From".to_string(), value: sender.to_string() },
            Header { name: "Subject".to_string(), value: "hi".to_string() },
        ],
        tokens: Vec::new(),
    }
}

fn stamp() -> StampInfo {
    StampInfo {
        hostname: "mx.example.net".to_string(),
        helo: "mx.doe.org".to_string(),
        date: "Mon, 1 Jan 2024 00:00:00 +0000".to_string(),
        message_id: "id0001@mx.example.net".to_string(),
        spf_result: "pass".to_string(),
        auth_results: "spf=pass".to_string(),
    }
}

#[test]
fn data_without_rcpt_is_sequencing_error() {
    let cfg = test_config();
    let mut sess = session("10.0.0.1");
    let mut store = QuotaStore::new();
    let mut cand = candidate("john@doe.org", &[], 100);
    let r = admit_message(&cfg, &mut sess, &mut store, &mut cand, true, &stamp());
    match r {
        Err(rej) => {
            assert_eq!(rej, Rejection::Sequencing);
            assert_eq!(rej.status_line(), "503 5.5.1");
            assert!(!rej.is_temporary());
        },
        Ok(()) => panic!("admitted without recipients"),
    }
    assert_eq!(sess.messages_accepted, 0);
}

#[test]
fn malformed_message_is_rejected_permanently() {
    let cfg = test_config();
    let mut sess = session("10.0.0.1");
    let mut store = QuotaStore::new();
    let mut cand = candidate("john@doe.org", &[("bill@foobar.org", "foobar.org")], 100);
    let r = admit_message(&cfg, &mut sess, &mut store, &mut cand, false, &stamp());
    let rej = r.unwrap_err();
    assert_eq!(rej, Rejection::Malformed);
    assert_eq!(rej.status_line(), "550 5.7.7");
    assert!(!rej.is_temporary());
    assert!(store.buckets.is_empty());
}

#[test]
fn loop_detection() {
    let cfg = test_config();
    let mut sess = session("10.0.0.2");
    let mut store = QuotaStore::new();
    let mut cand = candidate("john@doe.org", &[("bill@foobar.org", "foobar.org")], 100);
    for _ in 0..3 {
        cand.headers.insert(
            0,
            Header { name: "Received".to_string(), value: "from a by b".to_string() },
        );
    }
    let r = admit_message(&cfg, &mut sess, &mut store, &mut cand, true, &stamp());
    let rej = r.unwrap_err();
    assert_eq!(rej, Rejection::LoopSuspected);
    assert_eq!(rej.status_line(), "450 4.4.6");
    assert!(rej.is_temporary());
    // A loop is reported even when a quota would also have refused the
    // message, and nothing is reserved.
    assert!(store.buckets.is_empty());

    // Two hop headers stay under the ceiling of three.
    let mut cand2 = candidate("bill@doe.org", &[("mike@test.com", "test.com")], 100);
    for _ in 0..2 {
        cand2.headers.insert(
            0,
            Header { name: "Received".to_string(), value: "from a by b".to_string() },
        );
    }
    let r2 = admit_message(&cfg, &mut sess, &mut store, &mut cand2, true, &stamp());
    assert!(r2.is_ok());
}

#[test]
fn session_cap() {
    let cfg = test_config();

    // One message per session from 10.0.0.1.
    let mut sess = session("10.0.0.1");
    let mut store = QuotaStore::new();
    let mut first = candidate("john@test.org", &[("mike@test.com", "test.com")], 100);
    assert!(admit_message(&cfg, &mut sess, &mut store, &mut first, true, &stamp()).is_ok());
    assert_eq!(sess.messages_accepted, 1);
    let mut second = candidate("john@test.org", &[("mike@test.com", "test.com")], 100);
    let rej = admit_message(&cfg, &mut sess, &mut store, &mut second, true, &stamp()).unwrap_err();
    assert_eq!(rej, Rejection::LimitExceeded);
    assert_eq!(rej.status_line(), "452 4.4.5");
    assert!(rej.is_temporary());
    assert_eq!(sess.messages_accepted, 1);

    // Up to one hundred from any other address.
    let mut other = session("10.0.0.2");
    for _ in 0..100 {
        let mut cand = candidate("john@test.org", &[("mike@test.com", "test.com")], 1);
        assert!(admit_message(&cfg, &mut other, &mut store, &mut cand, true, &stamp()).is_ok());
    }
    let mut over = candidate("john@test.org", &[("mike@test.com", "test.com")], 1);
    let rej2 = admit_message(&cfg, &mut other, &mut store, &mut over, true, &stamp()).unwrap_err();
    assert_eq!(rej2, Rejection::LimitExceeded);
    assert_eq!(other.messages_accepted, 100);
}

#[test]
fn conditional_headers() {
    let cfg = test_config();
    let mut store = QuotaStore::new();

    // Headers are synthesized for 10.0.0.3 ...
    let mut sess = session("10.0.0.3");
    let mut cand = candidate("bill@doe.org", &[("mike@test.com", "test.com")], 100);
    assert!(admit_message(&cfg, &mut sess, &mut store, &mut cand, true, &stamp()).is_ok());
    let names: Vec<&str> = cand.headers.iter().map(|h| h.name.as_str()).collect();
    for expected in [
        "Received",
        "Received-SPF",
        "Authentication-Results",
        "Message-ID",
        "Date",
        "Return-Path",
    ] {
        assert!(names.contains(&expected), "missing {expected}");
    }
    // ... stacked on top of the original block, which is untouched.
    assert_eq!(cand.headers[0].name, "Received");
    assert_eq!(
        cand.headers[0].value,
        "from mx.doe.org (10.0.0.3) by mx.example.net; Mon, 1 Jan 2024 00:00:00 +0000"
    );
    assert_eq!(cand.headers[5].name, "Return-Path");
    assert_eq!(cand.headers[5].value, "<bill@doe.org>");
    assert_eq!(cand.headers[6].name, "From");
    assert_eq!(cand.headers[7].name, "Subject");

    // ... and for no other remote address.
    let mut sess2 = session("10.0.0.2");
    let mut cand2 = candidate("bill@doe.org", &[("mike@test.com", "test.com")], 100);
    assert!(admit_message(&cfg, &mut sess2, &mut store, &mut cand2, true, &stamp()).is_ok());
    let names2: Vec<&str> = cand2.headers.iter().map(|h| h.name.as_str()).collect();
    assert_eq!(names2, vec!["From", "Subject"]);
}

fn counts_for(store: &QuotaStore, quota_id: usize) -> (u64, u64) {
    let mut msgs = 0;
    let mut bytes = 0;
    for b in store.buckets.iter() {
        if b.quota_id == quota_id {
            msgs += b.messages;
            bytes += b.bytes;
        }
    }
    (msgs, bytes)
}

#[test]
fn per_sender_quota() {
    let cfg = test_config();
    let mut sess = session("10.0.0.2");
    let mut store = QuotaStore::new();

    let mut first = candidate("john@doe.org", &[("bill@foobar.org", "foobar.org")], 100);
    assert!(admit_message(&cfg, &mut sess, &mut store, &mut first, true, &stamp()).is_ok());
    assert_eq!(counts_for(&store, 0), (1, 0));

    let mut second = candidate("john@doe.org", &[("bill@foobar.org", "foobar.org")], 100);
    let rej = admit_message(&cfg, &mut sess, &mut store, &mut second, true, &stamp()).unwrap_err();
    assert_eq!(rej, Rejection::QuotaExceeded { quota: 0 });
    assert_eq!(rej.status_line(), "452 4.3.1");
    assert!(rej.is_temporary());
    assert_eq!(counts_for(&store, 0), (1, 0));

    // Releasing the first candidate restores capacity.
    store.release(&mut first);
    assert!(first.tokens.is_empty());
    assert_eq!(counts_for(&store, 0), (0, 0));

    let mut third = candidate("john@doe.org", &[("bill@foobar.org", "foobar.org")], 100);
    assert!(admit_message(&cfg, &mut sess, &mut store, &mut third, true, &stamp()).is_ok());
    assert_eq!(counts_for(&store, 0), (1, 0));
}

#[test]
fn per_domain_byte_quota() {
    let cfg = test_config();
    let mut sess = session("10.0.0.2");
    let mut store = QuotaStore::new();

    let mut first = candidate("jane@foobar.org", &[("bill@foobar.org", "foobar.org")], 200);
    assert!(admit_message(&cfg, &mut sess, &mut store, &mut first, true, &stamp()).is_ok());
    assert_eq!(counts_for(&store, 1), (0, 200));

    let mut second = candidate("jane@foobar.org", &[("bill@foobar.org", "foobar.org")], 200);
    assert!(admit_message(&cfg, &mut sess, &mut store, &mut second, true, &stamp()).is_ok());
    assert_eq!(counts_for(&store, 1), (0, 400));

    // A third 200-byte message would push the domain to 600 of 450 bytes.
    let mut third = candidate("jane@foobar.org", &[("bill@foobar.org", "foobar.org")], 200);
    let rej = admit_message(&cfg, &mut sess, &mut store, &mut third, true, &stamp()).unwrap_err();
    assert_eq!(rej, Rejection::QuotaExceeded { quota: 1 });
    assert_eq!(counts_for(&store, 1), (0, 400));

    // Releasing a prior reservation restores admission capacity.
    store.release(&mut first);
    assert_eq!(counts_for(&store, 1), (0, 200));
    let mut fourth = candidate("jane@foobar.org", &[("bill@foobar.org", "foobar.org")], 200);
    assert!(admit_message(&cfg, &mut sess, &mut store, &mut fourth, true, &stamp()).is_ok());
    assert_eq!(counts_for(&store, 1), (0, 400));
}

#[test]
fn all_or_nothing_reservation() {
    let cfg = test_config();
    let mut sess = session("10.0.0.2");
    let mut store = QuotaStore::new();

    // Nearly fill the per-recipient quota of jane@domain.net.
    let mut filler = candidate("mike@test.com", &[("jane@domain.net", "domain.net")], 400);
    assert!(admit_message(&cfg, &mut sess, &mut store, &mut filler, true, &stamp()).is_ok());
    assert_eq!(counts_for(&store, 2), (0, 400));

    // This candidate matches both the foobar.org domain quota and the
    // jane@domain.net recipient quota; the latter would overflow.
    let mut cand = candidate(
        "mike@test.com",
        &[("bill@foobar.org", "foobar.org"), ("jane@domain.net", "domain.net")],
        300,
    );
    let rej = admit_message(&cfg, &mut sess, &mut store, &mut cand, true, &stamp()).unwrap_err();
    assert_eq!(rej, Rejection::QuotaExceeded { quota: 2 });
    assert!(cand.tokens.is_empty());

    // Neither bucket shows a net increment: the foobar.org reservation
    // made before the failure was rolled back.
    assert_eq!(counts_for(&store, 1), (0, 0));
    assert_eq!(counts_for(&store, 2), (0, 400));
}

#[test]
fn idempotent_release() {
    let cfg = test_config();
    let mut sess = session("10.0.0.2");
    let mut store = QuotaStore::new();

    let mut cand = candidate("john@doe.org", &[("bill@foobar.org", "foobar.org")], 100);
    assert!(admit_message(&cfg, &mut sess, &mut store, &mut cand, true, &stamp()).is_ok());
    assert_eq!(counts_for(&store, 0), (1, 0));
    assert_eq!(counts_for(&store, 1), (0, 100));

    store.release(&mut cand);
    assert!(cand.tokens.is_empty());
    assert_eq!(counts_for(&store, 0), (0, 0));
    assert_eq!(counts_for(&store, 1), (0, 0));

    // A second release of the same candidate changes nothing.
    store.release(&mut cand);
    assert_eq!(counts_for(&store, 0), (0, 0));
    assert_eq!(counts_for(&store, 1), (0, 0));
}

#[test]
fn quota_additivity() {
    let cfg = test_config();
    let mut sess = session("10.0.0.2");
    let mut store = QuotaStore::new();

    // Three reservations and one release against the same domain key:
    // the bucket holds exactly the sum of what was reserved minus what
    // was released.
    let mut a = candidate("jane@foobar.org", &[("bill@foobar.org", "foobar.org")], 100);
    let mut b = candidate("jane@foobar.org", &[("bill@foobar.org", "foobar.org")], 150);
    let mut c = candidate("jane@foobar.org", &[("bill@foobar.org", "foobar.org")], 50);
    assert!(admit_message(&cfg, &mut sess, &mut store, &mut a, true, &stamp()).is_ok());
    assert!(admit_message(&cfg, &mut sess, &mut store, &mut b, true, &stamp()).is_ok());
    assert!(admit_message(&cfg, &mut sess, &mut store, &mut c, true, &stamp()).is_ok());
    assert_eq!(counts_for(&store, 1), (0, 300));
    store.release(&mut b);
    assert_eq!(counts_for(&store, 1), (0, 150));
    store.release(&mut a);
    store.release(&mut c);
    assert_eq!(counts_for(&store, 1), (0, 0));
}

#[test]
fn quota_without_ceilings_never_rejects() {
    let mut cfg = test_config();
    cfg.quotas.push(QuotaDef {
        cond: None,
        key_fields: vec![KeyField::Sender],
        max_messages: None,
        max_bytes: None,
        dedupe_keys: false,
        enabled: true,
    });
    let mut sess = session("10.0.0.2");
    let mut store = QuotaStore::new();
    for _ in 0..5 {
        let mut cand = candidate("someone@else.org", &[("mike@test.com", "test.com")], 10_000);
        assert!(admit_message(&cfg, &mut sess, &mut store, &mut cand, true, &stamp()).is_ok());
    }
}

#[test]
fn disabled_quota_is_ignored() {
    let mut cfg = test_config();
    cfg.quotas[0].enabled = false;
    let mut sess = session("10.0.0.2");
    let mut store = QuotaStore::new();
    for _ in 0..3 {
        let mut cand = candidate("john@doe.org", &[("mike@test.com", "test.com")], 100);
        assert!(admit_message(&cfg, &mut sess, &mut store, &mut cand, true, &stamp()).is_ok());
    }
    assert_eq!(counts_for(&store, 0), (0, 0));
}

#[test]
fn shared_domain_counts_once_per_recipient_by_default() {
    let cfg = test_config();
    let mut sess = session("10.0.0.2");
    let mut store = QuotaStore::new();

    // Two recipients in foobar.org: each contributes to the per-domain
    // byte quota.
    let mut cand = candidate(
        "mike@test.com",
        &[("bill@foobar.org", "foobar.org"), ("jane@foobar.org", "foobar.org")],
        100,
    );
    assert!(admit_message(&cfg, &mut sess, &mut store, &mut cand, true, &stamp()).is_ok());
    assert_eq!(counts_for(&store, 1), (0, 200));
}

#[test]
fn shared_domain_counts_once_per_message_with_dedupe() {
    let mut cfg = test_config();
    cfg.quotas[1].dedupe_keys = true;
    let mut sess = session("10.0.0.2");
    let mut store = QuotaStore::new();

    // With key deduplication the two recipients derive the same domain
    // key and contribute a single reservation.
    let mut cand = candidate(
        "mike@test.com",
        &[("bill@foobar.org", "foobar.org"), ("jane@foobar.org", "foobar.org")],
        100,
    );
    assert!(admit_message(&cfg, &mut sess, &mut store, &mut cand, true, &stamp()).is_ok());
    assert_eq!(counts_for(&store, 1), (0, 100));

    // Recipients in different domains still contribute separately.
    let mut cand2 = candidate(
        "mike@test.com",
        &[("bill@foobar.org", "foobar.org"), ("jane@domain.net", "domain.net")],
        50,
    );
    assert!(admit_message(&cfg, &mut sess, &mut store, &mut cand2, true, &stamp()).is_ok());
    assert_eq!(counts_for(&store, 1), (0, 150));
    assert_eq!(counts_for(&store, 2), (0, 50));
}
