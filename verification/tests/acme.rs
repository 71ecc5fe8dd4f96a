use ghostrpc::acme::{
    acme_plan, bearer, challenge_record, choose_zone, dns01_challenge, dns01_txt_value,
    needs_renewal, record_added, record_url, records_url, ChallengeKind, OrderAction, OrderPhase,
    OrderStatus, RecordReply, Zone, ZonesReply, ORDER_FAILED, ZONES_URL,
};
use ghostrpc::config::ServerConfig;

fn zone(name: Option<&str>, id: Option<&str>) -> Zone {
    Zone { name: name.map(|s| s.to_string()), id: id.map(|s| s.to_string()) }
}

fn zones(list: Option<Vec<Zone>>) -> ZonesReply {
    ZonesReply { success: Some(true), zones: list, errors: "Null".to_string() }
}

fn config(domains: Option<Vec<&str>>, token: Option<&str>) -> ServerConfig {
    ServerConfig {
        bind_addr: String::new(),
        hidden_path: String::new(),
        tls_cert: String::new(),
        tls_key: String::new(),
        port_mappings: None,
        camouflage_target: None,
        cloudflare_api_token: token.map(|s| s.to_string()),
        acme_domains: domains.map(|d| d.iter().map(|s| s.to_string()).collect()),
        secret: None,
    }
}

#[test]
fn renewal_is_due_after_sixty_days() {
    assert!(needs_renewal(false, None));
    assert!(needs_renewal(false, Some(0)));
    assert!(!needs_renewal(true, None));
    assert!(!needs_renewal(true, Some(60 * 24 * 3600)));
    assert!(needs_renewal(true, Some(60 * 24 * 3600 + 1)));
}

#[test]
fn first_zone_that_fits_is_chosen() {
    let reply = zones(Some(vec![
        zone(Some("other.org"), Some("1")),
        zone(Some("example.com"), Some("2")),
        zone(Some("com"), Some("3")),
    ]));
    assert_eq!(choose_zone("a.example.com", &reply), Ok(Some("2".to_string())));
    assert_eq!(choose_zone("*.example.com", &reply), Ok(Some("2".to_string())));
    assert_eq!(choose_zone("example.com", &reply), Ok(Some("2".to_string())));
    assert_eq!(choose_zone("else.com", &reply), Ok(Some("3".to_string())));
    assert_eq!(
        choose_zone("*.a.net", &reply),
        Err("Zone not found for domain: a.net".to_string())
    );
}

#[test]
fn zone_replies_may_be_odd() {
    assert_eq!(choose_zone("a.b", &zones(None)), Err("No zones found".to_string()));
    assert_eq!(
        choose_zone("a.b", &zones(Some(Vec::new()))),
        Err("Zone not found for domain: a.b".to_string())
    );
    let nameless = zones(Some(vec![zone(None, Some("9")), zone(Some("a.b"), Some("1"))]));
    assert_eq!(choose_zone("a.b", &nameless), Ok(Some("9".to_string())));
    let without_id = zones(Some(vec![zone(Some("b"), None)]));
    assert_eq!(choose_zone("a.b", &without_id), Ok(None));
    for success in [None, Some(false)] {
        let failed = ZonesReply { success, zones: None, errors: "Array []".to_string() };
        assert_eq!(choose_zone("a.b", &failed), Err("Cloudflare API error: Array []".to_string()));
    }
}

#[test]
fn added_records_are_told() {
    let reply = |success: Option<bool>, id: Option<&str>| RecordReply {
        success,
        id: id.map(|s| s.to_string()),
        errors: "E".to_string(),
    };
    assert_eq!(record_added(&reply(Some(true), Some("r1"))), Ok("r1".to_string()));
    assert_eq!(record_added(&reply(Some(true), None)), Ok("".to_string()));
    assert_eq!(
        record_added(&reply(Some(false), Some("r1"))),
        Err("Cloudflare API error: E".to_string())
    );
    assert_eq!(record_added(&reply(None, None)), Err("Cloudflare API error: E".to_string()));
}

#[test]
fn provider_addresses() {
    assert_eq!(ZONES_URL, "https://api.cloudflare.com/client/v4/zones");
    assert_eq!(records_url("z"), "https://api.cloudflare.com/client/v4/zones/z/dns_records");
    assert_eq!(record_url("z", "r"), "https://api.cloudflare.com/client/v4/zones/z/dns_records/r");
    assert_eq!(bearer("t"), "Bearer t");
}

#[test]
fn challenge_values() {
    assert_eq!(dns01_txt_value("abc"), "ungWv48Bz-pBQUDeXa4iI7ADYaOWF3qctBD_YfIAFa0");
    assert_eq!(dns01_txt_value(""), "47DEQpj8HBSa-_TImW-5JCeuQeRkm5NMpJWZG3hSuFU");
    let record = challenge_record("*.example.com", "abc");
    assert_eq!(record.name, "_acme-challenge.example.com");
    assert_eq!(record.content, "ungWv48Bz-pBQUDeXa4iI7ADYaOWF3qctBD_YfIAFa0");
    assert_eq!(record.ttl, 60);
    assert_eq!(challenge_record("example.com", "abc").name, record.name);
}

#[test]
fn dns_challenge_is_found() {
    let (dns, http) = (ChallengeKind::Dns01, ChallengeKind::Http01);
    let (tls, other) = (ChallengeKind::TlsAlpn01, ChallengeKind::Unknown);
    assert_eq!(dns01_challenge(&[http, other, dns, dns]), Ok(2));
    assert_eq!(dns01_challenge(&[dns]), Ok(0));
    assert_eq!(
        dns01_challenge(&[http, tls]),
        Err("No DNS-01 challenge found".to_string())
    );
    assert!(dns01_challenge(&[]).is_err());
}

#[test]
fn provisioning_needs_domains_and_a_token() {
    assert_eq!(
        acme_plan(&config(None, None)).err(),
        Some("acme_domains missing".to_string())
    );
    assert_eq!(
        acme_plan(&config(Some(vec!["a.b"]), None)).err(),
        Some("cloudflare_api_token missing".to_string())
    );
    let plan = acme_plan(&config(Some(vec!["*.a.b", "c.d"]), Some("tok"))).ok().unwrap();
    assert_eq!(plan.contact, "mailto:admin@a.b");
    assert_eq!(plan.zone_domain, "*.a.b");
    assert_eq!(plan.api_token, "tok");
}

#[test]
fn order_that_succeeds() {
    let mut phase = OrderPhase::Validating;
    let steps = [
        (OrderStatus::Pending, OrderAction::Wait),
        (OrderStatus::Processing, OrderAction::Wait),
        (OrderStatus::Ready, OrderAction::Finalize),
        (OrderStatus::Processing, OrderAction::Wait),
        (OrderStatus::Invalid, OrderAction::Wait),
        (OrderStatus::Valid, OrderAction::Fetch),
        (OrderStatus::Valid, OrderAction::Wait),
    ];
    for (status, action) in steps {
        assert_eq!(phase.observe(status), action);
    }
    assert_eq!(phase, OrderPhase::Done);
}

#[test]
fn order_that_fails() {
    let mut phase = OrderPhase::Validating;
    assert_eq!(phase.observe(OrderStatus::Pending), OrderAction::Wait);
    assert_eq!(phase.observe(OrderStatus::Invalid), OrderAction::GiveUp);
    assert_eq!(phase, OrderPhase::Failed);
    assert_eq!(phase.observe(OrderStatus::Valid), OrderAction::Wait);
    assert_eq!(ORDER_FAILED, "ACME Order failed");
    let mut early = OrderPhase::Validating;
    assert_eq!(early.observe(OrderStatus::Valid), OrderAction::Finalize);
}
