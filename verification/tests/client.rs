use ghostrpc::client::{
    client_routes, dial_address, dial_plan, flatten_remotes, pool_nodes, split_server,
    tunnel_request, tunnels_datagrams, ActiveNode, ConnectionState, Outcome, RequestVerdict,
    ScanVerdict, TunnelAttempt, SCORE_LIMIT,
};
use ghostrpc::config::{ClientConfig, RemoteLocation};

fn strings(list: &[&str]) -> Vec<String> {
    list.iter().map(|s| s.to_string()).collect()
}

fn config() -> ClientConfig {
    ClientConfig {
        clean_ip: strings(&["10.0.0.1", "2001:db8::1"]),
        remotes: vec![
            RemoteLocation {
                location: "fra".to_string(),
                sni: strings(&["a.example", "b.example:8443"]),
                port_mappings: strings(&["443=up"]),
            },
            RemoteLocation {
                location: "ams".to_string(),
                sni: strings(&["c.example"]),
                port_mappings: strings(&["443=other", "x.example:443=third"]),
            },
        ],
        hidden_path: "/hidden".to_string(),
        pool_size_per_node: None,
        accept_udp: Some("yes".to_string()),
        secret: Some("s3cret".to_string()),
    }
}

fn names(nodes: &[ActiveNode]) -> Vec<(&str, &str)> {
    nodes.iter().map(|n| (n.location.as_str(), n.sni.as_str())).collect()
}

fn nodes(snis: &[&str]) -> Vec<ActiveNode> {
    snis.iter()
        .map(|s| ActiveNode { location: "x".to_string(), sni: s.to_string() })
        .collect()
}

#[test]
fn remotes_are_flattened_in_order() {
    let cfg = config();
    let flat = flatten_remotes(&cfg.remotes);
    assert_eq!(
        names(&flat),
        vec![("fra", "a.example"), ("fra", "b.example:8443"), ("ams", "c.example")]
    );
    assert!(flatten_remotes(&[]).is_empty());
}

#[test]
fn pool_repeats_the_servers() {
    let flat = flatten_remotes(&config().remotes);
    assert_eq!(pool_nodes(&flat, None).len(), 48);
    let pool = pool_nodes(&flat, Some(2));
    assert_eq!(pool.len(), 6);
    for i in 0..6 {
        assert_eq!(pool[i].sni, flat[i % 3].sni);
        assert_eq!(pool[i].location, flat[i % 3].location);
    }
    assert!(pool_nodes(&flat, Some(0)).is_empty());
}

#[test]
fn connection_state_follows_requests() {
    let mut state = ConnectionState::default();
    assert_eq!(state, ConnectionState { connected: false, consecutive_errors: 0 });
    state.connect();
    state.record(Outcome::SendFailed);
    state.record(Outcome::SendFailed);
    assert_eq!(state, ConnectionState { connected: true, consecutive_errors: 2 });
    state.record(Outcome::Responded(200));
    assert_eq!(state, ConnectionState { connected: true, consecutive_errors: 0 });
    state.record(Outcome::SendFailed);
    state.record(Outcome::NoResponse);
    assert_eq!(state, ConnectionState { connected: false, consecutive_errors: 1 });
    state.connect();
    state.record(Outcome::Responded(404));
    assert_eq!(state, ConnectionState { connected: false, consecutive_errors: 0 });
    state.connect();
    state.lose();
    assert!(!state.connected);
}

#[test]
fn third_send_error_ends_the_connection() {
    let mut state = ConnectionState::default();
    state.connect();
    for _ in 0..2 {
        state.record(Outcome::SendFailed);
        assert!(state.connected);
    }
    state.record(Outcome::SendFailed);
    assert_eq!(state, ConnectionState { connected: false, consecutive_errors: 0 });
}

#[test]
fn lowest_score_is_picked_first_of_equals() {
    let attempt = TunnelAttempt::new();
    let pool = nodes(&["a", "b", "c", "d"]);
    let score = |ms: f64| Some(ms.to_bits());
    assert_eq!(
        attempt.pick_slot(&pool, &[score(500.0), None, score(20.0), score(20.0)]),
        Some(2)
    );
    assert_eq!(attempt.pick_slot(&pool, &[score(10020.0), score(0.0), None, score(3.5)]), Some(1));
    assert_eq!(attempt.pick_slot(&pool, &[None, None, None, None]), None);
    assert_eq!(attempt.pick_slot(&pool, &[score(f64::MAX), None, None, None]), None);
    assert_eq!(attempt.pick_slot(&[], &[]), None);
    assert_eq!(SCORE_LIMIT, f64::MAX.to_bits());
}

#[test]
fn failed_server_is_not_picked_again() {
    let mut attempt = TunnelAttempt::new();
    let pool = nodes(&["a", "b", "a"]);
    let scores = [Some(1u64), Some(3), Some(2)];
    assert_eq!(attempt.pick_slot(&pool, &scores), Some(0));
    assert!(attempt.may_try("a"));
    assert_eq!(attempt.request_finished("a", Outcome::NoResponse), RequestVerdict::Retry);
    assert!(!attempt.may_try("a"));
    assert_eq!(attempt.pick_slot(&pool, &scores), Some(1));
    assert_eq!(
        attempt.request_finished("b", Outcome::Responded(200)),
        RequestVerdict::Established(true)
    );
    let mut fresh = TunnelAttempt::new();
    assert_eq!(
        fresh.request_finished("b", Outcome::Responded(200)),
        RequestVerdict::Established(false)
    );
}

#[test]
fn five_scans_in_vain_give_up() {
    let mut attempt = TunnelAttempt::new();
    for _ in 0..4 {
        assert_eq!(attempt.scanned(None), ScanVerdict::Rescan);
    }
    assert_eq!(attempt.scanned(None), ScanVerdict::Disconnected);
}

#[test]
fn five_requests_in_vain_give_up() {
    let mut attempt = TunnelAttempt::new();
    let outcomes = [
        Outcome::NoResponse,
        Outcome::SendFailed,
        Outcome::Responded(404),
        Outcome::Responded(201),
    ];
    for (i, outcome) in outcomes.iter().enumerate() {
        assert_eq!(attempt.scanned(None), ScanVerdict::Rescan);
        assert_eq!(attempt.scanned(Some(i)), ScanVerdict::Request(i));
        assert_eq!(attempt.request_finished(&format!("s{}", i), *outcome), RequestVerdict::Retry);
    }
    for _ in 0..4 {
        assert_eq!(attempt.scanned(None), ScanVerdict::Rescan);
    }
    assert_eq!(
        attempt.request_finished("last", Outcome::NoResponse),
        RequestVerdict::Exhausted
    );
}

#[test]
fn servers_are_split() {
    assert_eq!(split_server("a.example"), ("a.example".to_string(), "443".to_string()));
    assert_eq!(split_server("a.example:8443"), ("a.example".to_string(), "8443".to_string()));
    assert_eq!(split_server("a:b:c"), ("a:b".to_string(), "c".to_string()));
}

#[test]
fn addresses_are_dialled() {
    assert_eq!(dial_address("10.0.0.1", "443"), "10.0.0.1:443");
    assert_eq!(dial_address("2001:db8::1", "443"), "[2001:db8::1]:443");
    assert_eq!(dial_address("::1", "80"), "[::1]:80");
    assert_eq!(dial_address("[::1]", "80"), "[::1]:80");
    assert_eq!(dial_address("10.0.0.1:8443", "443"), "10.0.0.1:8443");
    assert_eq!(dial_address("host", "443"), "host:443");
    let plan = dial_plan(&nodes(&["b.example:8443"])[0], &config().clean_ip);
    assert_eq!(plan.host, "b.example");
    assert_eq!(plan.addresses, strings(&["10.0.0.1:8443", "[2001:db8::1]:8443"]));
}

#[test]
fn tunnel_requests() {
    let mut cfg = config();
    let request = tunnel_request(&cfg, "a.example:8443", "10.1.1.1:22", true);
    assert_eq!(request.uri, "https://a.example:8443/hidden");
    assert_eq!(
        request.headers,
        vec![
            ("Host", "a.example:8443".to_string()),
            ("x-tunnel-protocol", "udp".to_string()),
            ("x-tunnel-target", "10.1.1.1:22".to_string()),
            ("x-tunnel-secret", "s3cret".to_string()),
        ]
    );
    cfg.secret = None;
    let request = tunnel_request(&cfg, "a.example", "22", false);
    assert_eq!(
        request.headers,
        vec![
            ("Host", "a.example".to_string()),
            ("x-tunnel-target", "22".to_string()),
            ("x-tunnel-secret", "".to_string()),
        ]
    );
}

#[test]
fn datagrams_are_tunnelled_on_yes() {
    let mut cfg = config();
    assert!(tunnels_datagrams(&cfg));
    cfg.accept_udp = Some("Yes".to_string());
    assert!(!tunnels_datagrams(&cfg));
    cfg.accept_udp = None;
    assert!(!tunnels_datagrams(&cfg));
}

#[test]
fn listeners_get_the_mappings_of_all_locations() {
    let routes = client_routes(&config().remotes);
    assert_eq!(routes.len(), 1);
    let route = routes.get("0.0.0.0:443").unwrap();
    assert_eq!(route.default_upstream, Some("other".to_string()));
    assert_eq!(route.sni_rules.get("x.example"), Some(&"third".to_string()));
    assert_eq!(route.target_locations.get("up"), Some(&"fra".to_string()));
    assert_eq!(route.target_locations.get("other"), Some(&"ams".to_string()));
}
