use std::cell::Cell;

use garc::config::{AgentConfig, CampConfig, DiscoveryConfig};
use garc::errors::GarcError;
use garc::mesh::{
    backoff_schedule, build_claim_service, ClaimServiceError, claim_announcement, claim_state_path,
    discover_peers_with_retry, discover_peers_with_retry_metadata, garc_state_dir,
    last_trace_path, local_claim_state, next_discovery_step, optional_property,
    required_property, retry_backoff_ms, sanitize_dns_label, trace_history_dir,
    trace_history_file_name, update_local_branch, MeshPeer, PeerTable, ResolvedRecord,
    RetryStep, TxtEntry,
};

fn config(id: &str) -> CampConfig {
    CampConfig {
        agent: AgentConfig {
            id: id.to_owned(),
            project: "alpha".to_owned(),
            branch: "main".to_owned(),
            role: None,
            port: None,
            status: None,
        },
        discovery: DiscoveryConfig::default(),
    }
}

fn entry(key: &str, value: Option<&[u8]>) -> TxtEntry {
    TxtEntry {
        key: key.to_owned(),
        value: value.map(|v| v.to_vec()),
    }
}

fn peer(name: &str, agent: &str) -> MeshPeer {
    MeshPeer {
        agent_id: agent.to_owned(),
        current_branch: "main".to_owned(),
        current_project: "alpha".to_owned(),
        intent_branch: None,
        fullname: name.to_owned(),
        port: 7000,
    }
}

#[test]
fn retry_backoff_grows_without_exploding() {
    assert_eq!(retry_backoff_ms(0), 25);
    assert_eq!(retry_backoff_ms(1), 50);
    assert_eq!(retry_backoff_ms(2), 100);
    assert_eq!(retry_backoff_ms(3), 100);
}

#[test]
fn retry_policy_steps() {
    assert_eq!(next_discovery_step(0, true), RetryStep::Done { attempts: 1 });
    assert_eq!(next_discovery_step(0, false), RetryStep::Wait { backoff_ms: 25 });
    assert_eq!(next_discovery_step(1, false), RetryStep::Wait { backoff_ms: 50 });
    assert_eq!(next_discovery_step(2, false), RetryStep::GiveUp);
    assert_eq!(next_discovery_step(2, true), RetryStep::Done { attempts: 3 });
    assert_eq!(backoff_schedule(0), Vec::<u64>::new());
    assert_eq!(backoff_schedule(1), Vec::<u64>::new());
    assert_eq!(backoff_schedule(3), vec![25, 50]);
}

#[test]
fn retry_loop_returns_first_success() {
    let waits = Cell::new(0u64);
    let result = discover_peers_with_retry_metadata(
        |attempt: usize| {
            if attempt < 2 {
                Err(format!("read {attempt} failed"))
            } else {
                Ok(vec![peer("a._camp._tcp.local.", "a")])
            }
        },
        |ms: u64| waits.set(waits.get() + ms),
    );
    let (peers, attempts) = result.unwrap();
    assert_eq!(attempts, 3);
    assert_eq!(peers.len(), 1);
    assert_eq!(waits.get(), 75);
}

#[test]
fn retry_loop_reports_last_error() {
    let calls = Cell::new(0usize);
    let result: Result<Vec<MeshPeer>, String> = discover_peers_with_retry(
        |attempt: usize| {
            calls.set(calls.get() + 1);
            Err(format!("read {attempt} failed"))
        },
        |_ms: u64| {},
    );
    assert_eq!(result.unwrap_err(), "read 2 failed");
    assert_eq!(calls.get(), 3);

    let first: Result<Vec<MeshPeer>, String> =
        discover_peers_with_retry(|_attempt: usize| Ok(Vec::new()), |_ms: u64| panic!("no wait"));
    assert!(first.unwrap().is_empty());
}

#[test]
fn dns_labels_are_sanitized() {
    assert_eq!(sanitize_dns_label("Coder 01/QA"), "coder-01-qa");
    assert_eq!(sanitize_dns_label("--a..b--"), "a--b");
    assert_eq!(sanitize_dns_label("***"), "agent");
    assert_eq!(sanitize_dns_label(""), "agent");
}

#[test]
fn claim_announcement_fields() {
    let cfg = config("Agent One");
    let a = claim_announcement(&cfg, "feature");
    assert_eq!(a.service_type, "_camp._tcp.local.");
    assert_eq!(a.instance_name, "garc-claim-agent-one");
    assert_eq!(a.host_name, "garc-claim-agent-one.local.");
    assert_eq!(a.port, 7000);
    assert_eq!(
        a.properties,
        vec![
            ("agent_id".to_owned(), "Agent One".to_owned()),
            ("current_project".to_owned(), "alpha".to_owned()),
            ("current_branch".to_owned(), "main".to_owned()),
            ("intent_branch".to_owned(), "feature".to_owned()),
        ]
    );
    let state = local_claim_state(&cfg, "feature");
    assert_eq!(state.intent_branch, "feature");
    assert_eq!(state.current_branch, "main");
}

#[test]
fn claim_service_is_built_for_ordinary_claims() {
    let cfg = config("Agent 1");
    let service = match build_claim_service(&cfg, "feature-login") {
        Ok(service) => service,
        Err(_) => panic!("an ordinary claim must be built"),
    };
    assert_eq!(service.get_type(), "_camp._tcp.local.");
    assert_eq!(service.get_fullname(), "garc-claim-agent-1._camp._tcp.local.");
    assert_eq!(service.get_hostname(), "garc-claim-agent-1.local.");
    assert_eq!(service.get_port(), 7000);
    assert!(service.is_addr_auto());
    let txt: Vec<(String, String)> = service
        .get_properties()
        .iter()
        .map(|p| (p.key().to_owned(), p.val_str().to_owned()))
        .collect();
    assert_eq!(
        txt,
        vec![
            ("agent_id".to_owned(), "Agent 1".to_owned()),
            ("current_project".to_owned(), "alpha".to_owned()),
            ("current_branch".to_owned(), "main".to_owned()),
            ("intent_branch".to_owned(), "feature-login".to_owned()),
        ]
    );
    let long_branch = "x".repeat(300);
    match build_claim_service(&cfg, &long_branch) {
        Err(ClaimServiceError::Rejected { detail }) => assert_eq!(
            detail,
            "TXT property 'intent_branch' has length 314 bytes, exceeding the 255-byte limit"
        ),
        Ok(_) => panic!("an over-long claim must be refused"),
    }
}

#[test]
fn txt_properties_are_read() {
    let record = ResolvedRecord {
        fullname: "a._camp._tcp.local.".to_owned(),
        port: 7001,
        properties: vec![
            entry("agent_id", Some(b"agent-a")),
            entry("current_branch", Some(b"main")),
            entry("current_project", Some(b"alpha")),
            entry("intent_branch", Some(b"feature")),
            entry("agent_id", Some(b"ignored")),
        ],
    };
    let p = MeshPeer::from_resolved_service(&record).unwrap();
    assert_eq!(p.agent_id, "agent-a");
    assert_eq!(p.current_branch, "main");
    assert_eq!(p.current_project, "alpha");
    assert_eq!(p.intent_branch, Some("feature".to_owned()));
    assert_eq!(p.fullname, "a._camp._tcp.local.");
    assert_eq!(p.port, 7001);
}

#[test]
fn txt_property_errors() {
    let record = ResolvedRecord {
        fullname: "b".to_owned(),
        port: 1,
        properties: vec![
            entry("agent_id", Some(&[0xff, 0xfe])),
            entry("current_branch", None),
            entry("intent_branch", Some(&[0xc3])),
        ],
    };
    let invalid = required_property(&record, "b", "agent_id").unwrap_err();
    assert!(matches!(invalid, GarcError::InvalidTxtFieldEncoding { .. }));
    assert_eq!(invalid.message(), "resolved mesh service `b` contains invalid UTF-8 in `agent_id`");
    let valueless = required_property(&record, "b", "current_branch").unwrap_err();
    assert!(matches!(valueless, GarcError::MissingTxtField { .. }));
    let absent = required_property(&record, "b", "current_project").unwrap_err();
    assert_eq!(
        absent.message(),
        "resolved mesh service `b` is missing required TXT field `current_project`"
    );
    assert_eq!(optional_property(&record, "intent_branch"), None);
    assert_eq!(optional_property(&record, "nothing"), None);
    match MeshPeer::from_resolved_service(&record) {
        Err(e) => assert_eq!(
            e.message(),
            "resolved mesh service `b` contains invalid UTF-8 in `agent_id`"
        ),
        Ok(_) => panic!("an unreadable announcement must be refused"),
    }
    let no_branch = ResolvedRecord {
        fullname: "c".to_owned(),
        port: 1,
        properties: vec![entry("agent_id", Some(b"a")), entry("current_project", None)],
    };
    match MeshPeer::from_resolved_service(&no_branch) {
        Err(e) => assert_eq!(
            e.message(),
            "resolved mesh service `c` is missing required TXT field `current_branch`"
        ),
        Ok(_) => panic!("an incomplete announcement must be refused"),
    }
}

#[test]
fn peer_table_keeps_latest_resolution_per_name() {
    let mut table = PeerTable::new();
    table.resolved(peer("b.local.", "first"));
    table.resolved(peer("a.local.", "a"));
    table.resolved(peer("b.local.", "second"));
    table.resolved(peer("c.local.", "c"));
    table.removed("c.local.");
    table.removed("missing.local.");
    let peers = table.into_peers();
    assert_eq!(peers.len(), 2);
    assert_eq!(peers[0].fullname, "a.local.");
    assert_eq!(peers[1].agent_id, "second");
}

#[test]
fn state_paths() {
    assert_eq!(garc_state_dir("/r/.git"), "/r/.git/garc");
    assert_eq!(claim_state_path("/r/.git"), "/r/.git/garc/claim-state.json");
    assert_eq!(last_trace_path("/r/.git/"), "/r/.git/garc/last-checkout-trace.json");
    assert_eq!(trace_history_dir("/r/.git"), "/r/.git/garc/trace-history");
    assert_eq!(trace_history_file_name(5), "00000000000000000005.json");
    assert_eq!(
        trace_history_file_name(1_700_000_000_123_456_789),
        "01700000000123456789.json"
    );
}

#[test]
fn local_branch_is_recorded() {
    let mut cfg = config("me");
    update_local_branch(&mut cfg, "feature");
    assert_eq!(cfg.agent.branch, "feature");
    assert_eq!(cfg.agent.id, "me");
}

#[test]
fn dns_label_sanitizing_is_stable() {
    for id in ["Coder 01/QA", "--x--", "", "ALPHA-beta_9"] {
        let once = sanitize_dns_label(id);
        assert_eq!(sanitize_dns_label(&once), once);
    }
}
