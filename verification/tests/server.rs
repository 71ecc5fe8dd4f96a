use ghostrpc::client::tunnel_request;
use ghostrpc::config::{ClientConfig, ServerConfig};
use ghostrpc::net_utils::{get_random_headers, headers_at, headers_for_clock};
use ghostrpc::server::{
    forwards_header, header_text, plan_request, relays_reply, server_route, RequestHead,
    RequestPlan,
};
use ghostrpc::sessions::{IpKey, PeerAddr};

fn config(secret: Option<&str>, camouflage: Option<&str>) -> ServerConfig {
    ServerConfig {
        bind_addr: "0.0.0.0:443".to_string(),
        hidden_path: "/hidden".to_string(),
        tls_cert: "cert.pem".to_string(),
        tls_key: "key.pem".to_string(),
        port_mappings: None,
        camouflage_target: camouflage.map(|s| s.to_string()),
        cloudflare_api_token: None,
        acme_domains: None,
        secret: secret.map(|s| s.to_string()),
    }
}

fn head(path: &str, target: Option<&[u8]>, secret: Option<&[u8]>) -> RequestHead {
    RequestHead {
        path: path.to_string(),
        path_and_query: Some(format!("{}?q=1", path)),
        target: target.map(|b| b.to_vec()),
        secret: secret.map(|b| b.to_vec()),
        protocol: None,
    }
}

fn is_tunnel(plan: RequestPlan, to: &str, datagrams: bool) -> bool {
    matches!(plan, RequestPlan::Tunnel { target, udp } if target == to && udp == datagrams)
}

fn is_proxy(plan: RequestPlan, to: &str) -> bool {
    matches!(plan, RequestPlan::Proxy(url) if url == to)
}

#[test]
fn right_secret_opens_a_tunnel() {
    let cfg = config(Some("s3cret"), None);
    let request = head("/hidden", Some(b"10.0.0.1:22"), Some(b"s3cret"));
    assert!(is_tunnel(plan_request(&cfg, &request), "10.0.0.1:22", false));
    let mut request = head("/hidden", Some(b"8080"), Some(b"s3cret"));
    request.protocol = Some(b"udp".to_vec());
    assert!(is_tunnel(plan_request(&cfg, &request), "127.0.0.1:8080", true));
    request.protocol = Some(b"UDP".to_vec());
    assert!(is_tunnel(plan_request(&cfg, &request), "127.0.0.1:8080", false));
}

#[test]
fn no_secret_is_the_empty_secret() {
    let cfg = config(None, None);
    assert!(is_tunnel(plan_request(&cfg, &head("/hidden", Some(b"1"), Some(b""))), "127.0.0.1:1", false));
    assert!(matches!(
        plan_request(&cfg, &head("/hidden", Some(b"1"), Some(b"x"))),
        RequestPlan::NotFound
    ));
    assert!(matches!(plan_request(&cfg, &head("/hidden", Some(b"1"), None)), RequestPlan::NotFound));
}

#[test]
fn refused_requests_look_like_any_other() {
    let cfg = config(Some("s3cret"), Some("https://site.example"));
    let refused = [
        head("/hidden", Some(b"1"), Some(b"wrong")),
        head("/hidden", None, Some(b"s3cret")),
        head("/hidden", Some(b"1"), None),
        head("/hidden", Some(&[0xff]), Some(b"s3cret")),
    ];
    for request in &refused {
        assert!(is_proxy(plan_request(&cfg, request), "https://site.example/hidden?q=1"));
    }
    let mut other = head("/other", Some(b"1"), Some(b"s3cret"));
    assert!(is_proxy(plan_request(&cfg, &other), "https://site.example/other?q=1"));
    other.path_and_query = None;
    assert!(is_proxy(plan_request(&cfg, &other), "https://site.example/"));
}

#[test]
fn camouflage_is_a_site_or_a_file() {
    let request = head("/", None, None);
    let site = config(None, Some("http://site.example"));
    assert!(is_proxy(plan_request(&site, &request), "http://site.example/?q=1"));
    let file = config(None, Some("index.html"));
    assert!(matches!(plan_request(&file, &request), RequestPlan::Page(p) if p == "index.html"));
    let file = config(None, Some("httpd.html"));
    assert!(matches!(plan_request(&file, &request), RequestPlan::Page(p) if p == "httpd.html"));
    let nothing = config(None, None);
    assert!(matches!(plan_request(&nothing, &request), RequestPlan::NotFound));
}

#[test]
fn client_is_served() {
    let client = ClientConfig {
        clean_ip: Vec::new(),
        remotes: Vec::new(),
        hidden_path: "/hidden".to_string(),
        pool_size_per_node: None,
        accept_udp: None,
        secret: Some("s3cret".to_string()),
    };
    let server = config(Some("s3cret"), None);
    for udp in [false, true] {
        let request = tunnel_request(&client, "a.example", "up.example:53", udp);
        let shown = headers_at(7);
        let value = |name: &str| {
            request
                .headers
                .iter()
                .map(|(k, v)| (*k, v.as_bytes().to_vec()))
                .chain(shown.iter().map(|(k, v)| (*k, v.as_bytes().to_vec())))
                .find(|(k, _)| *k == name)
                .map(|(_, v)| v)
        };
        let seen = RequestHead {
            path: "/hidden".to_string(),
            path_and_query: Some("/hidden".to_string()),
            target: value("x-tunnel-target"),
            secret: value("x-tunnel-secret"),
            protocol: value("x-tunnel-protocol"),
        };
        assert!(is_tunnel(plan_request(&server, &seen), "up.example:53", udp));
    }
}

#[test]
fn header_values_are_read_as_the_http_crate_reads_them() {
    for b in 0..=255u8 {
        let value = [b'a', b, b'z'];
        let read = http::HeaderValue::from_bytes(&value)
            .ok()
            .and_then(|v| v.to_str().ok().map(|s| s.to_string()));
        assert_eq!(header_text(&value), read);
    }
    assert_eq!(header_text(b""), Some("".to_string()));
}

#[test]
fn headers_of_the_connection_are_not_forwarded() {
    for name in ["Transfer-Encoding", "connection", "CONTENT-LENGTH"] {
        assert!(!forwards_header(name));
    }
    for name in ["content-type", "connections", "content-lengt", "", "x-connection"] {
        assert!(forwards_header(name));
    }
}

#[test]
fn server_routes_its_own_address() {
    let mut cfg = config(None, None);
    assert!(server_route(&cfg).default_upstream.is_none());
    cfg.port_mappings = Some(vec!["443=up".to_string(), "80=other".to_string()]);
    assert_eq!(server_route(&cfg).default_upstream, Some("up".to_string()));
    cfg.bind_addr = "0.0.0.0:8443".to_string();
    assert!(server_route(&cfg).default_upstream.is_none());
}

#[test]
fn shown_headers() {
    let even = headers_at(10);
    let odd = headers_at(11);
    assert_eq!(
        even[0],
        (
            "user-agent",
            "Mozilla/5.0 (Windows NT 10.0; Win64; x64) AppleWebKit/537.36 (KHTML, like Gecko) Chrome/121.0.0.0 Safari/537.36"
        )
    );
    assert_eq!(
        odd[0],
        (
            "user-agent",
            "Mozilla/5.0 (Macintosh; Intel Mac OS X 10_15_7) AppleWebKit/605.1.15 (KHTML, like Gecko) Version/17.2 Safari/605.1.15"
        )
    );
    let rest = vec![
        ("accept", "application/grpc-web, application/grpc, */*"),
        ("accept-language", "en-US,en;q=0.9"),
        ("te", "trailers"),
        ("content-type", "application/grpc"),
    ];
    assert_eq!(even[1..].to_vec(), rest);
    assert_eq!(odd[1..].to_vec(), rest);
}

#[test]
fn headers_of_now_are_one_of_the_two() {
    let now = get_random_headers().unwrap();
    assert!(now == headers_at(0) || now == headers_at(1));
}

#[test]
fn headers_are_shown_unless_the_clock_is_before_the_epoch() {
    assert_eq!(headers_for_clock(Some(0)), Some(headers_at(0)));
    assert_eq!(headers_for_clock(Some(5)), Some(headers_at(5)));
    assert_eq!(headers_for_clock(None), None);
}

#[test]
fn only_replies_of_the_target_are_relayed() {
    let target = PeerAddr { ip: IpKey { v6: false, bits: 7 }, port: 53, flow: 0, scope: 0 };
    assert!(relays_reply(target, target));
    assert!(!relays_reply(PeerAddr { port: 54, ..target }, target));
    assert!(!relays_reply(PeerAddr { ip: IpKey { v6: true, bits: 7 }, ..target }, target));
    assert!(!relays_reply(PeerAddr { scope: 1, ..target }, target));
}
