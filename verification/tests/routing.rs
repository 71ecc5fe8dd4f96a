use ghostrpc::config::Route;
use ghostrpc::ip::ip_literal;
use ghostrpc::routing::{
    choose_upstream, datagram_upstream, off_location, parse_mapping, parse_port_mappings,
};
use ghostrpc::string_map::StringMap;

fn routes(mappings: &[&str], location: Option<&str>) -> StringMap<Route> {
    let list: Vec<String> = mappings.iter().map(|m| m.to_string()).collect();
    let mut out = StringMap::new();
    parse_port_mappings(&list, location, &mut out);
    out
}

fn parsed(m: &str) -> (String, Option<String>, String) {
    let p = parse_mapping(m).unwrap();
    (p.bind_addr, p.sni, p.upstream)
}

fn triple(a: &str, b: Option<&str>, c: &str) -> (String, Option<String>, String) {
    (a.to_string(), b.map(|s| s.to_string()), c.to_string())
}

#[test]
fn mapping_forms() {
    assert_eq!(parsed("443=10.0.0.1:443"), triple("0.0.0.0:443", None, "10.0.0.1:443"));
    assert_eq!(parsed("example.com:443=8080"), triple("0.0.0.0:443", Some("example.com"), "8080"));
    assert_eq!(parsed("127.0.0.1:443 = 8080 "), triple("127.0.0.1:443", None, "8080"));
    assert_eq!(parsed("localhost:443=a=b"), triple("localhost:443", None, "a=b"));
    assert_eq!(parsed("8080:9090"), triple("0.0.0.0:8080", None, "9090"));
    assert_eq!(parsed("a.example:80:9090"), triple("0.0.0.0:80", Some("a.example"), "9090"));
    assert_eq!(parsed("::1:80=x"), triple("::1:80", None, "x"));
    assert_eq!(parsed(" 443 =x"), triple("0.0.0.0:443", None, "x"));
    assert!(parse_mapping("nothing").is_none());
    assert!(parse_mapping("").is_none());
}

#[test]
fn mappings_fill_routes() {
    let table = routes(
        &["443=default", "a.example:443=first", "skipped", "b.example:443=second", "80=other"],
        Some("fra"),
    );
    assert_eq!(table.len(), 2);
    let route = table.get("0.0.0.0:443").unwrap();
    assert_eq!(route.default_upstream, Some("default".to_string()));
    assert_eq!(route.sni_rules.len(), 2);
    assert_eq!(route.sni_rules.get("a.example"), Some(&"first".to_string()));
    assert_eq!(route.sni_rules.get("c.example"), None);
    assert_eq!(route.target_locations.get("second"), Some(&"fra".to_string()));
    assert!(table.contains_key("0.0.0.0:80"));
    assert!(!table.contains_key("0.0.0.0:81"));
    assert!(table.get("127.0.0.1:443").is_none());
}

#[test]
fn last_mapping_decides() {
    let table = routes(&["443=one", "x:443=two", "443=three", "x:443=four"], None);
    let route = table.get("0.0.0.0:443").unwrap();
    let name = "x".to_string();
    assert_eq!(choose_upstream(route, Some(&name)), Some("four".to_string()));
    assert_eq!(choose_upstream(route, None), Some("three".to_string()));
    assert_eq!(route.target_locations.len(), 0);
}

#[test]
fn two_lists_add_up() {
    let first = vec!["443=one".to_string(), "x:443=two".to_string()];
    let second = vec!["443=three".to_string(), "80=four".to_string()];
    let mut apart = StringMap::new();
    parse_port_mappings(&first, None, &mut apart);
    parse_port_mappings(&second, None, &mut apart);
    let mut both = first.clone();
    both.extend(second);
    let mut at_once: StringMap<Route> = StringMap::new();
    parse_port_mappings(&both, None, &mut at_once);
    assert_eq!(apart.len(), at_once.len());
    let (a, b) = (apart.get("0.0.0.0:443").unwrap(), at_once.get("0.0.0.0:443").unwrap());
    assert_eq!(a.default_upstream, b.default_upstream);
    assert_eq!(a.default_upstream, Some("three".to_string()));
    assert_eq!(a.sni_rules.get("x"), b.sni_rules.get("x"));
}

#[test]
fn unknown_name_goes_to_default() {
    let table = routes(&["443=default", "a.example:443=first"], None);
    let route = table.get("0.0.0.0:443").unwrap();
    let known = "a.example".to_string();
    let unknown = "b.example".to_string();
    assert_eq!(choose_upstream(route, Some(&known)), Some("first".to_string()));
    assert_eq!(choose_upstream(route, Some(&unknown)), Some("default".to_string()));
    assert_eq!(choose_upstream(&Route::default(), Some(&known)), None);
}

#[test]
fn datagrams_go_to_default_or_a_rule() {
    let table = routes(&["443=default", "a.example:443=first", "a.example:80=only"], None);
    assert_eq!(
        datagram_upstream(table.get("0.0.0.0:443").unwrap()),
        Some("default".to_string())
    );
    assert_eq!(datagram_upstream(table.get("0.0.0.0:80").unwrap()), Some("only".to_string()));
    assert_eq!(datagram_upstream(&Route::default()), None);
}

#[test]
fn locations_are_preferred() {
    let table = routes(&["443=up"], Some("fra"));
    let route = table.get("0.0.0.0:443").unwrap();
    assert!(!off_location(route, "up", "fra"));
    assert!(off_location(route, "up", "ams"));
    assert!(!off_location(route, "elsewhere", "ams"));
}

#[test]
fn map_keeps_one_value_for_a_key() {
    let mut map: StringMap<String> = StringMap::new();
    assert_eq!(map.insert("k".to_string(), "1".to_string()), None);
    assert_eq!(map.insert("l".to_string(), "2".to_string()), None);
    assert_eq!(map.insert("k".to_string(), "3".to_string()), Some("1".to_string()));
    assert_eq!(map.len(), 2);
    assert_eq!(map.entry(0), Some((&"k".to_string(), &"3".to_string())));
    assert_eq!(map.entry(1), Some((&"l".to_string(), &"2".to_string())));
    assert_eq!(map.entry(2), None);
}

#[test]
fn ip_literals() {
    for good in [
        "0.0.0.0", "255.255.255.255", "10.0.0.1", "::", "::1", "1::", "fe80::1:2",
        "1:2:3:4:5:6:7:8", "::ffff:1.2.3.4", "1:2:3:4:5:6:1.2.3.4", "ABCD:ef01::",
        "1:2:3:4:5:6:7::", "::2:3:4:5:6:7:8",
    ] {
        assert!(ip_literal(good), "{}", good);
    }
    for bad in [
        "", "1.2.3", "1.2.3.4.5", "256.0.0.1", "01.2.3.4", "1.2.3.4 ", "a.b.c.d", ":", ":::",
        "1::2::3", "1:2:3:4:5:6:7", "1:2:3:4:5:6:7:8:9", "12345::", "g::", "[::1]",
        "1.2.3.4::", "1:2:3:4:5:6:7:1.2.3.4", "localhost", "1:2:3:4:5:6:7:8::",
    ] {
        assert!(!ip_literal(bad), "{}", bad);
    }
}

#[test]
fn ip_literals_are_those_of_certificates() {
    let parts = ["", "0", "1", "ffff", "12345", "g", ":", "::", "1.2.3.4", "1.2.3", "01.2.3.4", ".", "256.1.1.1", "[", "]", "%1"];
    let mut texts: Vec<String> = vec![String::new()];
    for _ in 0..4 {
        let mut longer: Vec<String> = Vec::new();
        for t in &texts {
            for p in &parts {
                longer.push(format!("{}{}", t, p));
            }
        }
        texts = longer;
    }
    for groups in 0..10 {
        for gap in 0..10 {
            for tail in ["", ":1.2.3.4", ":"] {
                let mut t = String::new();
                for i in 0..groups {
                    if i > 0 {
                        t.push(':');
                    }
                    if i == gap {
                        t.push(':');
                    }
                    t.push('a');
                }
                t.push_str(tail);
                texts.push(t);
            }
        }
    }
    for t in &texts {
        assert_eq!(ip_literal(t), rustls::pki_types::IpAddr::try_from(t.as_str()).is_ok(), "{}", t);
    }
}

#[test]
fn every_key_has_one_entry() {
    let table = routes(&["443=a", "80=b", "x:443=c", "127.0.0.1:22=d", "80=e"], None);
    let listed: Vec<String> =
        (0..table.len()).map(|i| table.entry(i).unwrap().0.clone()).collect();
    assert_eq!(listed, vec!["0.0.0.0:443", "0.0.0.0:80", "127.0.0.1:22"]);
    for i in 0..table.len() {
        let (key, route) = table.entry(i).unwrap();
        assert_eq!(table.get(key).unwrap().default_upstream, route.default_upstream);
    }
}
