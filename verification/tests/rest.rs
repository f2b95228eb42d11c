use garc::config::{AgentConfig, CampConfig, DiscoveryConfig};
use garc::rest::{
    http_request, http_response_body, parse_http_url, parse_port, peers_from_rest_records,
    rest_agents_url, HttpResponseError, RestAgentRecord,
};

fn config(url: Option<&str>) -> CampConfig {
    let mut discovery = DiscoveryConfig::default();
    discovery.camp_rest_url = url.map(|u| u.to_owned());
    CampConfig {
        agent: AgentConfig {
            id: "me".to_owned(),
            project: "alpha".to_owned(),
            branch: "main".to_owned(),
            role: None,
            port: None,
            status: None,
        },
        discovery,
    }
}

#[test]
fn ports_parse_like_u16() {
    assert_eq!(parse_port("8080"), Some(8080));
    assert_eq!(parse_port("+80"), Some(80));
    assert_eq!(parse_port("65535"), Some(65535));
    assert_eq!(parse_port("65536"), None);
    assert_eq!(parse_port(""), None);
    assert_eq!(parse_port("+"), None);
    assert_eq!(parse_port("8a"), None);
    assert_eq!(parse_port("-1"), None);
    assert_eq!(parse_port("000123"), Some(123));
}

#[test]
fn urls_split_into_host_port_path() {
    let t = parse_http_url("http://127.0.0.1:9999/agents?project=alpha").unwrap();
    assert_eq!(t.host, "127.0.0.1");
    assert_eq!(t.port, 9999);
    assert_eq!(t.path, "/agents?project=alpha");
    let t = parse_http_url("http://bridge").unwrap();
    assert_eq!(t.host, "bridge");
    assert_eq!(t.port, 80);
    assert_eq!(t.path, "/");
    let t = parse_http_url("http://bridge:notaport/x").unwrap();
    assert_eq!(t.port, 80);
    assert_eq!(t.path, "/x");
    assert!(parse_http_url("https://bridge/agents").is_none());
    assert_eq!(
        http_request(&parse_http_url("http://h:1/p").unwrap()),
        "GET /p HTTP/1.1\r\nHost: h\r\nConnection: close\r\n\r\n"
    );
}

#[test]
fn responses_are_split_and_checked() {
    assert_eq!(
        http_response_body("HTTP/1.1 200 OK\r\nA: b\r\n\r\n[1]\r\n\r\nx"),
        Ok(Some("[1]\r\n\r\nx".to_owned()))
    );
    assert_eq!(
        http_response_body("HTTP/1.0 200 OK\r\n\r\n"),
        Ok(Some(String::new()))
    );
    assert_eq!(http_response_body("HTTP/1.1 404 Not Found\r\n\r\n{}"), Ok(None));
    assert_eq!(
        http_response_body("HTTP/1.1 200 OK\r\n"),
        Err(HttpResponseError::MissingHeaderSeparator)
    );
}

#[test]
fn bridge_records_become_peers() {
    let records = vec![RestAgentRecord {
        id: "agent-b".to_owned(),
        instance_name: "agent-b._camp._tcp.local.".to_owned(),
        project: "alpha".to_owned(),
        branch: "dev".to_owned(),
        port: 7100,
        metadata: vec![
            ("role".to_owned(), "coder".to_owned()),
            ("intent_branch".to_owned(), "feature".to_owned()),
        ],
    }];
    let peers = peers_from_rest_records(&records);
    assert_eq!(peers.len(), 1);
    assert_eq!(peers[0].agent_id, "agent-b");
    assert_eq!(peers[0].fullname, "agent-b._camp._tcp.local.");
    assert_eq!(peers[0].current_branch, "dev");
    assert_eq!(peers[0].intent_branch, Some("feature".to_owned()));
    assert_eq!(peers[0].port, 7100);
}

#[test]
fn bridge_url_choice() {
    assert_eq!(
        rest_agents_url(Some("http://env/x".to_owned()), &config(Some("http://cfg/y"))),
        "http://env/x"
    );
    assert_eq!(rest_agents_url(None, &config(Some("http://cfg/y"))), "http://cfg/y");
    assert_eq!(
        rest_agents_url(None, &config(None)),
        "http://127.0.0.1:9999/agents?project=alpha"
    );
}
