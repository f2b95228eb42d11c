use garc::cli::{CheckoutArgs, Cli, Command, InitArgs, TraceArgs};
use garc::config::{resolve_config_path, AgentConfig, CampConfig, DiscoveryConfig};
use garc::errors::GarcError;
use garc::git::{
    branch_start, head_reference_name, project_name_from_root, remote_branch_name, BranchStart,
};

fn config(discovery: DiscoveryConfig) -> CampConfig {
    CampConfig {
        agent: AgentConfig {
            id: "me".to_owned(),
            project: "alpha".to_owned(),
            branch: "main".to_owned(),
            role: None,
            port: Some(7001),
            status: None,
        },
        discovery,
    }
}

#[test]
fn config_defaults_and_overrides() {
    let cfg = config(DiscoveryConfig::default());
    assert_eq!(cfg.service_type(), "_camp._tcp.local.");
    assert_eq!(cfg.discovery_timeout_ms(), 250);
    assert_eq!(cfg.claim_settle_ms(), 150);
    assert_eq!(cfg.mdns_port(), None);
    assert_eq!(cfg.camp_rest_url(), None);
    let mut d = DiscoveryConfig::default();
    d.service_type = Some("_x._tcp.local.".to_owned());
    d.discovery_timeout_ms = Some(900);
    d.claim_settle_ms = Some(40);
    d.mdns_port = Some(5353);
    let cfg = config(d);
    assert_eq!(cfg.service_type(), "_x._tcp.local.");
    assert_eq!(cfg.discovery_timeout_ms(), 900);
    assert_eq!(cfg.claim_settle_ms(), 40);
    assert_eq!(cfg.mdns_port(), Some(5353));
}

#[test]
fn config_paths_resolve_against_repo_root() {
    assert_eq!(resolve_config_path("/repo", ".camp.toml"), "/repo/.camp.toml");
    assert_eq!(resolve_config_path("/repo/", "cfg/x.toml"), "/repo/cfg/x.toml");
    assert_eq!(resolve_config_path("/repo", "/etc/camp.toml"), "/etc/camp.toml");
}

#[test]
fn error_messages() {
    let e = GarcError::MissingCampConfig { path: "/r/.camp.toml".to_owned() };
    assert_eq!(
        e.message(),
        "CAMP config `/r/.camp.toml` is missing; run `camp init --force` in this repository first"
    );
}

#[test]
fn json_flag_is_read_from_every_command() {
    let cli = Cli {
        command: Command::Init(InitArgs { json: true, config: ".camp.toml".to_owned() }),
    };
    assert!(cli.json_output());
    let cli = Cli {
        command: Command::Checkout(CheckoutArgs {
            branch: "b".to_owned(),
            force: false,
            claim_settle_ms: None,
            json: false,
            config: ".camp.toml".to_owned(),
        }),
    };
    assert!(!cli.json_output());
    let cli = Cli {
        command: Command::Trace(TraceArgs {
            history: true,
            limit: Some(2),
            json: true,
        }),
    };
    assert!(cli.json_output());
}

#[test]
fn repository_names() {
    assert_eq!(project_name_from_root(Some("alpha")), Some("alpha".to_owned()));
    assert_eq!(project_name_from_root(Some(" \t")), None);
    assert_eq!(project_name_from_root(Some("")), None);
    assert_eq!(project_name_from_root(None), None);
    assert_eq!(remote_branch_name("feature"), "origin/feature");
    assert_eq!(head_reference_name("feature"), "refs/heads/feature");
}

#[test]
fn branch_start_points() {
    assert_eq!(branch_start(true, true, false), BranchStart::Local);
    assert_eq!(branch_start(false, true, false), BranchStart::Remote);
    assert_eq!(branch_start(false, false, true), BranchStart::Head);
    assert_eq!(branch_start(false, false, false), BranchStart::NotFound);
}
