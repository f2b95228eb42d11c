use garc::engine::{
    active_branch_occupier, claim_winner, detect_collision, diverted_branch_name,
    insert_sorted_unique, observed_claimants, sanitize_branch_component, CollisionResult,
};
use garc::mesh::MeshPeer;

fn peer(agent_id: &str, project: &str, branch: &str) -> MeshPeer {
    MeshPeer {
        agent_id: agent_id.to_owned(),
        current_project: project.to_owned(),
        current_branch: branch.to_owned(),
        intent_branch: None,
        fullname: format!("{agent_id}._camp._tcp.local."),
        port: 7000,
    }
}

fn claimant(agent_id: &str, project: &str, branch: &str, intent: &str) -> MeshPeer {
    MeshPeer {
        agent_id: agent_id.to_owned(),
        current_project: project.to_owned(),
        current_branch: branch.to_owned(),
        intent_branch: Some(intent.to_owned()),
        fullname: format!("garc-claim-{agent_id}._camp._tcp.local."),
        port: 7000,
    }
}

#[test]
fn collision_detection_ignores_other_projects_and_self() {
    let peers = vec![
        peer("agent-self", "alpha", "feature-login"),
        peer("agent-other-project", "beta", "feature-login"),
        peer("agent-remote", "alpha", "feature-login"),
    ];

    let result = detect_collision(&peers, "alpha", "feature-login", "agent-self");
    assert_eq!(
        result,
        CollisionResult::Occupied {
            by: "agent-remote".to_owned()
        }
    );
}

#[test]
fn branch_suffix_is_sanitized_for_git_ref_safety() {
    assert_eq!(sanitize_branch_component("Coder 01/QA"), "coder-01-qa");
    assert_eq!(
        diverted_branch_name("feature-login", "Coder 01/QA"),
        "feature-login--coder-01-qa"
    );
}

#[test]
fn lower_lexicographic_claimant_wins_branch_arbitration() {
    let peers = vec![MeshPeer {
        agent_id: "alpha-agent".to_owned(),
        current_project: "alpha".to_owned(),
        current_branch: "main".to_owned(),
        intent_branch: Some("feature-login".to_owned()),
        fullname: "garc-claim-alpha-agent._camp._tcp.local.".to_owned(),
        port: 7000,
    }];

    let result = detect_collision(&peers, "alpha", "feature-login", "local-agent");
    assert_eq!(
        result,
        CollisionResult::Occupied {
            by: "alpha-agent".to_owned()
        }
    );
}

#[test]
fn intent_claims_from_other_projects_are_ignored() {
    let peers = vec![MeshPeer {
        agent_id: "alpha-agent".to_owned(),
        current_project: "beta".to_owned(),
        current_branch: "main".to_owned(),
        intent_branch: Some("feature-login".to_owned()),
        fullname: "garc-claim-alpha-agent._camp._tcp.local.".to_owned(),
        port: 7000,
    }];

    let result = detect_collision(&peers, "alpha", "feature-login", "local-agent");
    assert_eq!(result, CollisionResult::Clear);
}

#[test]
fn active_branch_occupancy_beats_claim_arbitration() {
    let peers = vec![
        MeshPeer {
            agent_id: "zeta-agent".to_owned(),
            current_project: "alpha".to_owned(),
            current_branch: "feature-login".to_owned(),
            intent_branch: None,
            fullname: "zeta-agent._camp._tcp.local.".to_owned(),
            port: 7000,
        },
        MeshPeer {
            agent_id: "alpha-agent".to_owned(),
            current_project: "alpha".to_owned(),
            current_branch: "main".to_owned(),
            intent_branch: Some("feature-login".to_owned()),
            fullname: "garc-claim-alpha-agent._camp._tcp.local.".to_owned(),
            port: 7000,
        },
    ];

    let result = detect_collision(&peers, "alpha", "feature-login", "local-agent");
    assert_eq!(
        result,
        CollisionResult::Occupied {
            by: "zeta-agent".to_owned()
        }
    );
}

#[test]
fn empty_mesh_leaves_branch_clear() {
    let peers: Vec<MeshPeer> = Vec::new();
    assert_eq!(
        detect_collision(&peers, "alpha", "feature-login", "local-agent"),
        CollisionResult::Clear
    );
    assert_eq!(
        active_branch_occupier(&peers, "alpha", "feature-login", "local-agent"),
        None
    );
    assert_eq!(
        claim_winner(&peers, "alpha", "feature-login", "local-agent"),
        Some("local-agent".to_owned())
    );
    assert!(observed_claimants(&peers, "alpha", "feature-login", "local-agent").is_empty());
}

#[test]
fn local_agent_with_least_id_wins_its_own_claim() {
    let peers = vec![
        claimant("zulu", "alpha", "main", "feature-login"),
        claimant("mike", "alpha", "main", "feature-login"),
    ];
    assert_eq!(
        detect_collision(&peers, "alpha", "feature-login", "alpha-local"),
        CollisionResult::Clear
    );
    assert_eq!(
        claim_winner(&peers, "alpha", "feature-login", "alpha-local"),
        Some("alpha-local".to_owned())
    );
    assert_eq!(
        observed_claimants(&peers, "alpha", "feature-login", "alpha-local"),
        vec!["mike".to_owned(), "zulu".to_owned()]
    );
}

#[test]
fn least_occupier_is_reported_among_several() {
    let peers = vec![
        peer("zeta", "alpha", "feature-login"),
        peer("beta", "alpha", "feature-login"),
        peer("gamma", "alpha", "feature-login"),
    ];
    assert_eq!(
        active_branch_occupier(&peers, "alpha", "feature-login", "local"),
        Some("beta".to_owned())
    );
}

#[test]
fn duplicate_claims_are_reported_once() {
    let peers = vec![
        claimant("bravo", "alpha", "main", "feature-login"),
        claimant("bravo", "alpha", "dev", "feature-login"),
        claimant("alpha", "alpha", "main", "other"),
    ];
    assert_eq!(
        observed_claimants(&peers, "alpha", "feature-login", "local"),
        vec!["bravo".to_owned()]
    );
    assert_eq!(
        detect_collision(&peers, "alpha", "feature-login", "local"),
        CollisionResult::Occupied {
            by: "bravo".to_owned()
        }
    );
}

#[test]
fn sorted_insertion_skips_duplicates() {
    let mut v = vec!["b".to_owned(), "d".to_owned()];
    insert_sorted_unique(&mut v, "c".to_owned());
    insert_sorted_unique(&mut v, "a".to_owned());
    insert_sorted_unique(&mut v, "d".to_owned());
    insert_sorted_unique(&mut v, "e".to_owned());
    assert_eq!(v, vec!["a", "b", "c", "d", "e"]);
}

#[test]
fn sanitizing_strips_edges_and_falls_back_to_agent() {
    assert_eq!(sanitize_branch_component("--Hello World--"), "hello-world");
    assert_eq!(sanitize_branch_component("feat_x.y"), "feat_x.y");
    assert_eq!(sanitize_branch_component("***"), "agent");
    assert_eq!(sanitize_branch_component(""), "agent");
    assert_eq!(
        sanitize_branch_component(&sanitize_branch_component("Coder 01/QA")),
        "coder-01-qa"
    );
    assert_eq!(diverted_branch_name("main", "!!"), "main--agent");
}

#[test]
fn announcement_names_and_ports_leave_the_decision_alone() {
    let mut renamed = claimant("alpha-agent", "alpha", "main", "feature-login");
    let announced = vec![claimant("alpha-agent", "alpha", "main", "feature-login")];
    renamed.fullname = "alpha-agent-steady._camp._tcp.local.".to_owned();
    renamed.port = 9100;
    assert_eq!(
        detect_collision(&announced, "alpha", "feature-login", "local"),
        detect_collision(&[renamed], "alpha", "feature-login", "local")
    );
}

#[test]
fn order_and_repetition_of_announcements_do_not_matter() {
    let a = peer("zed", "alpha", "feature-login");
    let b = claimant("amy", "alpha", "main", "feature-login");
    let forward = vec![a.duplicate(), b.duplicate()];
    let backward = vec![b.duplicate(), a, b];
    assert_eq!(
        detect_collision(&forward, "alpha", "feature-login", "me"),
        detect_collision(&backward, "alpha", "feature-login", "me")
    );
}

#[test]
fn two_claimants_are_never_both_cleared() {
    let seen_by_amy = vec![claimant("bob", "alpha", "main", "feature")];
    let seen_by_bob = vec![claimant("amy", "alpha", "main", "feature")];
    let amy = detect_collision(&seen_by_amy, "alpha", "feature", "amy");
    let bob = detect_collision(&seen_by_bob, "alpha", "feature", "bob");
    assert_eq!(amy, CollisionResult::Clear);
    assert_eq!(bob, CollisionResult::Occupied { by: "amy".to_owned() });
}
