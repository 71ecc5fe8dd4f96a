use ghostrpc::config::{AppConfig, ClientConfig, ServerConfig};
use ghostrpc::startup::{cert_file_name, log_filter, run_mode, HotReload, RunMode, RENEWAL_NOTE};

fn server(token: Option<&str>) -> ServerConfig {
    ServerConfig {
        bind_addr: String::new(),
        hidden_path: String::new(),
        tls_cert: String::new(),
        tls_key: String::new(),
        port_mappings: None,
        camouflage_target: None,
        cloudflare_api_token: token.map(|s| s.to_string()),
        acme_domains: None,
        secret: None,
    }
}

fn client() -> ClientConfig {
    ClientConfig {
        clean_ip: Vec::new(),
        remotes: Vec::new(),
        hidden_path: String::new(),
        pool_size_per_node: None,
        accept_udp: None,
        secret: None,
    }
}

#[test]
fn certificate_names() {
    assert_eq!(cert_file_name("", "fullchain.pem"), "fullchain.pem");
    assert_eq!(cert_file_name("  \t", "fullchain.pem"), "fullchain.pem");
    assert_eq!(cert_file_name(" /etc/cert.pem ", "fullchain.pem"), "/etc/cert.pem");
    assert_eq!(cert_file_name("my cert.pem", "fullchain.pem"), "my cert.pem");
}

#[test]
fn log_filters() {
    assert_eq!(log_filter(&None), "h2=warn,rustls=warn,tokio_rustls=warn,GhostRPC=info");
    assert_eq!(
        log_filter(&Some("debug".to_string())),
        "h2=warn,rustls=warn,tokio_rustls=warn,GhostRPC=debug"
    );
}

#[test]
fn server_goes_before_client() {
    let mut cfg = AppConfig { log_level: None, server: None, client: None };
    assert_eq!(run_mode(&cfg), RunMode::Nothing);
    cfg.client = Some(client());
    assert_eq!(run_mode(&cfg), RunMode::Client);
    cfg.server = Some(server(None));
    assert_eq!(run_mode(&cfg), RunMode::Server(false));
    cfg.server = Some(server(Some("t")));
    assert_eq!(run_mode(&cfg), RunMode::Server(true));
}

#[test]
fn change_is_noticed_once() {
    let mut file = HotReload::new("a = 1");
    assert!(!file.observe("a = 1"));
    assert!(file.observe("a = 2"));
    assert!(!file.observe("a = 2"));
    assert!(file.observe("a = 1"));
    let note = format!("a = 1{}", RENEWAL_NOTE);
    assert_eq!(note, "a = 1\n# ACME Auto-Renewed\n");
    assert!(file.observe(&note));
}

#[test]
fn configurations_are_cloned() {
    let cfg = AppConfig { log_level: Some("debug".to_string()), server: Some(server(Some("t"))), client: Some(client()) };
    let copy = cfg.clone();
    assert_eq!(copy.log_level, cfg.log_level);
    assert_eq!(run_mode(&copy), run_mode(&cfg));
}
