use garc::commands::{decide_checkout, status_output};
use garc::mesh::MeshPeer;
use garc::output::{
    CampStatus, CampUpdateStatus, CheckoutOutput, CheckoutStatus, DecisionBasis, InitOutput, ObservedPeerOutput,
};
use garc::render::{basis_name_str, checkout_lines, init_lines, join_texts, status_lines};

fn peer(agent_id: &str, branch: &str, intent: Option<&str>) -> MeshPeer {
    MeshPeer {
        agent_id: agent_id.to_owned(),
        current_project: "alpha".to_owned(),
        current_branch: branch.to_owned(),
        intent_branch: intent.map(|s| s.to_owned()),
        fullname: format!("{agent_id}._camp._tcp.local."),
        port: 7000,
    }
}

#[test]
fn joins_and_names() {
    assert_eq!(join_texts(&vec![], ", "), "");
    assert_eq!(join_texts(&vec!["a".to_owned()], ", "), "a");
    assert_eq!(
        join_texts(&vec!["a".to_owned(), "b".to_owned(), "c".to_owned()], ", "),
        "a, b, c"
    );
    assert_eq!(basis_name_str(DecisionBasis::ClaimArbitrationLost), "claim_arbitration_lost");
    assert_eq!(basis_name_str(DecisionBasis::MeshClear), "mesh_clear");
}

#[test]
fn checkout_report_lines() {
    let output = CheckoutOutput {
        status: CheckoutStatus::Diverted,
        requested_branch: "feature".to_owned(),
        occupied_by: Some("bob".to_owned()),
        decision_basis: DecisionBasis::BranchOccupied,
        observed_claims: vec!["amy".to_owned(), "bob".to_owned()],
        observed_peers: vec![
            ObservedPeerOutput {
                agent_id: "bob".to_owned(),
                current_branch: "feature".to_owned(),
                intent_branch: None,
            },
            ObservedPeerOutput {
                agent_id: "amy".to_owned(),
                current_branch: "main".to_owned(),
                intent_branch: Some("feature".to_owned()),
            },
        ],
        claim_winner: Some("amy".to_owned()),
        mesh_read_attempts: Some(1),
        mesh_read_backoff_ms: Vec::new(),
        decision_trace: vec!["a".to_owned(), "b".to_owned()],
        decision_trace_entries: Vec::new(),
        camp_update_status: CampUpdateStatus::Skipped,
        camp_update_exit_code: None,
        camp_update_stderr: None,
        actual_branch: "feature--me".to_owned(),
        message: "msg".to_owned(),
    };
    assert_eq!(
        checkout_lines(&output),
        vec![
            "msg",
            "requested branch: feature",
            "decision basis: branch_occupied",
            "actual branch: feature--me",
            "occupied by: bob",
            "observed claims: amy, bob",
            "observed peers:",
            "- bob on feature",
            "- amy on main claiming feature",
            "claim winner: amy",
            "decision trace:",
            "- a",
            "- b",
        ]
    );
}

#[test]
fn clear_checkout_report_omits_empty_sections() {
    let d = decide_checkout(&[], "alpha", "feature", "me");
    let output = CheckoutOutput {
        status: d.status,
        requested_branch: "feature".to_owned(),
        occupied_by: d.occupied_by,
        decision_basis: d.decision_basis,
        observed_claims: d.observed_claims,
        observed_peers: d.observed_peers,
        claim_winner: d.claim_winner,
        mesh_read_attempts: Some(1),
        mesh_read_backoff_ms: Vec::new(),
        decision_trace: Vec::new(),
        decision_trace_entries: Vec::new(),
        camp_update_status: CampUpdateStatus::Skipped,
        camp_update_exit_code: None,
        camp_update_stderr: None,
        actual_branch: d.actual_branch,
        message: d.message,
    };
    assert_eq!(
        checkout_lines(&output),
        vec![
            "Target branch is clear on the mesh. Checked out requested branch.",
            "requested branch: feature",
            "decision basis: mesh_clear",
            "actual branch: feature",
        ]
    );
}

#[test]
fn status_report_lines() {
    let empty = status_output(
        "me".to_owned(),
        "alpha".to_owned(),
        "main".to_owned(),
        Vec::new(),
        None,
        CampStatus::Unknown,
    );
    assert_eq!(
        status_lines(&empty),
        vec![
            "project: alpha",
            "local agent: me",
            "local branch: main",
            "mesh peers: none discovered",
            "occupied branches:",
            "- main: me",
        ]
    );
    let busy = status_output(
        "me".to_owned(),
        "alpha".to_owned(),
        "main".to_owned(),
        vec![peer("zed", "main", None), peer("amy", "dev", Some("feature"))],
        None,
        CampStatus::Running,
    );
    assert_eq!(
        status_lines(&busy),
        vec![
            "project: alpha",
            "local agent: me",
            "local branch: main",
            "mesh peers:",
            "- zed on main (alpha)",
            "- amy on dev (alpha) claiming feature",
            "occupied branches:",
            "- dev: amy",
            "- main: me, zed",
            "active claims:",
            "- feature: amy (winner: amy)",
        ]
    );
}

#[test]
fn init_report_lines() {
    let o = InitOutput {
        status: "initialized",
        agent_id: "me".to_owned(),
        project: "alpha".to_owned(),
        hook_path: "/h".to_owned(),
        message: "done".to_owned(),
    };
    assert_eq!(
        init_lines(&o),
        vec!["done", "agent id: me", "project: alpha", "hook: /h"]
    );
}
