use garc::commands::{
    active_claim_summaries, camp_status, camp_update_report, CampUpdateRun, Probe, checkout_output, claim_trace_events, commit_guard, decide_checkout,
    delegated_up_command, forced_checkout_output, forced_trace_events, init_output,
    mesh_read_events, observed_peer_outputs, occupied_branch_summaries, peers_in_project,
    resolve_claim_settle_ms, sorted_unique, status_output, trace_history_count, trace_status,
    up_output, validated_project,
};
use garc::config::{AgentConfig, CampConfig, DiscoveryConfig};
use garc::errors::GarcError;
use garc::mesh::{LocalClaimState, MeshPeer};
use garc::output::{
    CampStatus, CampUpdateStatus, CheckoutStatus, DecisionBasis, DecisionTraceEntry, TraceStatus,
};

fn peer(agent_id: &str, project: &str, branch: &str, intent: Option<&str>) -> MeshPeer {
    MeshPeer {
        agent_id: agent_id.to_owned(),
        current_project: project.to_owned(),
        current_branch: branch.to_owned(),
        intent_branch: intent.map(|s| s.to_owned()),
        fullname: format!("{agent_id}._camp._tcp.local."),
        port: 7000,
    }
}

fn config(id: &str, project: &str) -> CampConfig {
    CampConfig {
        agent: AgentConfig {
            id: id.to_owned(),
            project: project.to_owned(),
            branch: "main".to_owned(),
            role: None,
            port: None,
            status: None,
        },
        discovery: DiscoveryConfig::default(),
    }
}

#[test]
fn cli_override_wins_over_config_claim_settle_ms() {
    assert_eq!(resolve_claim_settle_ms(150, Some(25)), 25);
    assert_eq!(resolve_claim_settle_ms(150, None), 150);
}

#[test]
fn project_mismatch_is_reported() {
    let cfg = config("a", "alpha");
    assert_eq!(validated_project("alpha", &cfg, "/r/.camp.toml").unwrap(), "alpha");
    let err = validated_project("beta", &cfg, "/r/.camp.toml").unwrap_err();
    assert_eq!(
        err.message(),
        "CAMP project `alpha` from `/r/.camp.toml` does not match repository project `beta`; update `.camp.toml` or re-run `camp init` for this repo"
    );
    assert!(matches!(err, GarcError::ProjectMismatch { .. }));
}

#[test]
fn clear_checkout_decision() {
    let peers = vec![peer("other", "beta", "feature", None)];
    let d = decide_checkout(&peers, "alpha", "feature", "me");
    assert_eq!(d.status, CheckoutStatus::CheckedOut);
    assert_eq!(d.decision_basis, DecisionBasis::MeshClear);
    assert_eq!(d.occupied_by, None);
    assert_eq!(d.actual_branch, "feature");
    assert_eq!(d.closing_events, vec!["mesh_clear", "decision:checked_out"]);
    assert!(d.observed_peers.is_empty());
    assert_eq!(
        d.message,
        "Target branch is clear on the mesh. Checked out requested branch."
    );
}

#[test]
fn won_arbitration_checkout_decision() {
    let peers = vec![peer("zed", "alpha", "main", Some("feature"))];
    let d = decide_checkout(&peers, "alpha", "feature", "amy");
    assert_eq!(d.status, CheckoutStatus::CheckedOut);
    assert_eq!(d.decision_basis, DecisionBasis::ClaimArbitrationWon);
    assert_eq!(d.claim_winner, Some("amy".to_owned()));
    assert_eq!(d.observed_claims, vec!["zed"]);
    assert_eq!(d.closing_events, vec!["claim_winner:amy", "decision:checked_out"]);
    assert_eq!(d.observed_peers.len(), 1);
    assert_eq!(d.observed_peers[0].intent_branch, Some("feature".to_owned()));
}

#[test]
fn diverted_checkout_decisions() {
    let peers = vec![peer("Bob", "alpha", "feature", None)];
    let d = decide_checkout(&peers, "alpha", "feature", "Coder 01/QA");
    assert_eq!(d.status, CheckoutStatus::Diverted);
    assert_eq!(d.decision_basis, DecisionBasis::BranchOccupied);
    assert_eq!(d.occupied_by, Some("Bob".to_owned()));
    assert_eq!(d.actual_branch, "feature--coder-01-qa");
    assert_eq!(
        d.closing_events,
        vec!["active_occupier:Bob", "decision:diverted:feature--coder-01-qa"]
    );

    let peers = vec![peer("able", "alpha", "main", Some("feature"))];
    let d = decide_checkout(&peers, "alpha", "feature", "zoe");
    assert_eq!(d.decision_basis, DecisionBasis::ClaimArbitrationLost);
    assert_eq!(d.claim_winner, Some("able".to_owned()));
    assert_eq!(
        d.closing_events,
        vec!["claim_winner:able", "decision:diverted:feature--zoe"]
    );
    assert_eq!(
        d.message,
        "Target branch is currently locked. Checked out sub-branch to prevent race conditions."
    );
}

#[test]
fn trace_events_are_spelled_out() {
    assert_eq!(
        claim_trace_events("feature", 150, true),
        vec!["published_claim:feature", "claim_settle_ms:150", "claim_settle_complete"]
    );
    assert_eq!(
        claim_trace_events("f", 0, false),
        vec!["published_claim:f", "claim_settle_ms:0"]
    );
    assert_eq!(
        mesh_read_events(3, 2),
        vec!["observed_peer_count:3", "mesh_read_attempts:2"]
    );
    assert_eq!(forced_trace_events(), vec!["force_bypass", "decision:checked_out"]);
}

#[test]
fn forced_checkout_reports_the_bypass() {
    let recorded = vec![
        DecisionTraceEntry { event: "x".to_owned(), at_ms: 0 },
        DecisionTraceEntry { event: "y".to_owned(), at_ms: 4 },
    ];
    let out = forced_checkout_output("hotfix", recorded, camp_update_report(CampUpdateRun::NotInstalled));
    assert_eq!(out.status, CheckoutStatus::Forced);
    assert_eq!(out.decision_basis, DecisionBasis::ForceBypass);
    assert_eq!(out.actual_branch, "hotfix");
    assert_eq!(out.decision_trace, vec!["force_bypass", "decision:checked_out"]);
    assert_eq!(out.mesh_read_attempts, None);
    assert_eq!(out.decision_trace_entries[0].event, "force_bypass");
    assert_eq!(out.decision_trace_entries[1].event, "decision:checked_out");
    assert_eq!(out.decision_trace_entries[1].at_ms, 4);
    assert_eq!(out.camp_update_status, CampUpdateStatus::Skipped);
}

#[test]
fn commit_guard_refuses_contested_branches() {
    let peers = vec![peer("other", "alpha", "main", None)];
    assert_eq!(
        commit_guard(&peers, "alpha", "main", "me"),
        Err("refusing to commit on contested branch `main`; occupied by `other`".to_owned())
    );
    assert_eq!(commit_guard(&peers, "alpha", "dev", "me"), Ok(()));
}

#[test]
fn status_summaries_group_and_sort() {
    let peers = vec![
        peer("zed", "alpha", "main", None),
        peer("amy", "alpha", "dev", Some("feature")),
        peer("bob", "alpha", "main", Some("feature")),
    ];
    let occupied = occupied_branch_summaries("me", "main", &peers);
    assert_eq!(occupied.len(), 2);
    assert_eq!(occupied[0].branch, "dev");
    assert_eq!(occupied[0].occupied_by, vec!["amy"]);
    assert_eq!(occupied[1].branch, "main");
    assert_eq!(occupied[1].occupied_by, vec!["bob", "me", "zed"]);

    let claim = LocalClaimState {
        agent_id: "me".to_owned(),
        current_project: "alpha".to_owned(),
        current_branch: "main".to_owned(),
        intent_branch: "feature".to_owned(),
    };
    let claims = active_claim_summaries("me", Some(&claim), &peers);
    assert_eq!(claims.len(), 1);
    assert_eq!(claims[0].branch, "feature");
    assert_eq!(claims[0].claimants, vec!["amy", "bob", "me"]);
    assert_eq!(claims[0].claim_winner, "amy");

    let no_claims = active_claim_summaries("me", None, &[peer("x", "alpha", "main", None)]);
    assert!(no_claims.is_empty());

    let status = status_output(
        "me".to_owned(),
        "alpha".to_owned(),
        "main".to_owned(),
        peers,
        Some(&claim),
        CampStatus::NotFound,
    );
    assert_eq!(status.status, "ok");
    assert_eq!(status.camp_status, CampStatus::NotFound);
    assert_eq!(status.occupied_branches.len(), 2);
    assert_eq!(status.active_claims[0].claim_winner, "amy");
}

#[test]
fn project_filters_keep_order() {
    let peers = vec![
        peer("a", "alpha", "main", None),
        peer("b", "beta", "main", None),
        peer("c", "alpha", "dev", Some("x")),
    ];
    let kept = peers_in_project(&peers, "alpha");
    assert_eq!(kept.len(), 2);
    assert_eq!(kept[0].agent_id, "a");
    assert_eq!(kept[1].agent_id, "c");
    let observed = observed_peer_outputs(&peers, "alpha");
    assert_eq!(observed.len(), 2);
    assert_eq!(observed[1].current_branch, "dev");
    assert_eq!(observed[1].intent_branch, Some("x".to_owned()));
}

#[test]
fn sorted_unique_orders_and_dedups() {
    let v = vec!["b".to_owned(), "a".to_owned(), "b".to_owned()];
    assert_eq!(sorted_unique(&v), vec!["a", "b"]);
}

#[test]
fn command_reports() {
    let init = init_output("me".to_owned(), "alpha".to_owned(), "/r/.git/hooks/post-checkout".to_owned());
    assert_eq!(init.status, "initialized");
    assert_eq!(
        init.message,
        "Installed garc post-checkout hook and synchronized CAMP branch metadata."
    );
    assert_eq!(delegated_up_command("/r/.camp.toml"), "camp up --config /r/.camp.toml");
    let up = up_output("me".to_owned(), "alpha".to_owned(), "main".to_owned(), "/c");
    assert_eq!(up.delegated_command, "camp up --config /c");
    assert_eq!(up.status, "delegating");
}

#[test]
fn trace_reporting_counts() {
    assert_eq!(trace_status(false, 0), TraceStatus::Empty);
    assert_eq!(trace_status(true, 0), TraceStatus::Found);
    assert_eq!(trace_status(false, 2), TraceStatus::Found);
    assert_eq!(trace_history_count(7, false, Some(3)), 0);
    assert_eq!(trace_history_count(7, true, Some(3)), 3);
    assert_eq!(trace_history_count(2, true, Some(3)), 2);
    assert_eq!(trace_history_count(7, true, None), 7);
}

#[test]
fn status_and_checkout_name_the_same_claim_winner() {
    let peers = vec![
        peer("zed", "alpha", "main", Some("feature")),
        peer("bob", "alpha", "main", Some("feature")),
    ];
    let decision = decide_checkout(&peers, "alpha", "feature", "me");
    let claim = LocalClaimState {
        agent_id: "me".to_owned(),
        current_project: "alpha".to_owned(),
        current_branch: "main".to_owned(),
        intent_branch: "feature".to_owned(),
    };
    let claims = active_claim_summaries("me", Some(&claim), &peers);
    assert_eq!(decision.claim_winner, Some(claims[0].claim_winner.clone()));
    assert_eq!(claims[0].claim_winner, "bob");
}

#[test]
fn checkout_report_carries_the_whole_trace() {
    let peers = vec![peer("able", "alpha", "main", Some("feature"))];
    let decision = decide_checkout(&peers, "alpha", "feature", "zoe");
    let out = checkout_output(
        decision,
        "feature",
        claim_trace_events("feature", 150, false),
        mesh_read_events(1, 3),
        (0..6u64)
            .map(|t| DecisionTraceEntry { event: String::new(), at_ms: t * 10 })
            .collect(),
        3,
        camp_update_report(CampUpdateRun::Exited {
            success: false,
            exit_code: Some(2),
            stderr: "no agent".to_owned(),
        }),
    );
    assert_eq!(
        out.decision_trace,
        vec![
            "published_claim:feature",
            "claim_settle_ms:150",
            "observed_peer_count:1",
            "mesh_read_attempts:3",
            "claim_winner:able",
            "decision:diverted:feature--zoe",
        ]
    );
    assert_eq!(out.mesh_read_attempts, Some(3));
    assert_eq!(out.mesh_read_backoff_ms, vec![25, 50]);
    assert_eq!(out.requested_branch, "feature");
    assert_eq!(out.status, CheckoutStatus::Diverted);
    let events: Vec<&str> = out.decision_trace_entries.iter().map(|e| e.event.as_str()).collect();
    assert_eq!(events, out.decision_trace);
    assert_eq!(out.decision_trace_entries[5].at_ms, 50);
    assert_eq!(out.camp_update_status, CampUpdateStatus::Failed);
    assert_eq!(out.camp_update_exit_code, Some(2));
    assert_eq!(out.camp_update_stderr, Some("no agent".to_owned()));
}

#[test]
fn camp_reports_from_local_probes() {
    assert_eq!(camp_status(Probe::No, Probe::Yes), CampStatus::NotFound);
    assert_eq!(camp_status(Probe::Yes, Probe::Yes), CampStatus::Running);
    assert_eq!(camp_status(Probe::Yes, Probe::No), CampStatus::Unknown);
    assert_eq!(camp_status(Probe::Failed, Probe::Yes), CampStatus::Unknown);
    let ok = camp_update_report(CampUpdateRun::Exited {
        success: true,
        exit_code: Some(0),
        stderr: String::new(),
    });
    assert_eq!(ok.status, CampUpdateStatus::Succeeded);
    assert_eq!(ok.stderr, None);
    let failed = camp_update_report(CampUpdateRun::NotStarted { detail: "denied".to_owned() });
    assert_eq!(failed.status, CampUpdateStatus::Failed);
    assert_eq!(failed.stderr, Some("denied".to_owned()));
}
