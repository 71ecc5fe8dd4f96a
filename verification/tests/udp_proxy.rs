use ghostrpc::sessions::{AddrMap, AuthorizedIps, IpKey, PeerAddr, AUTH_IP_TTL};
use ghostrpc::udp_proxy::{
    plan_datagram, session_goes_on, wait_left, DatagramPlan, Waited, UDP_SESSION_TIMEOUT,
};

fn peer(bits: u128, port: u16) -> PeerAddr {
    PeerAddr { ip: IpKey { v6: false, bits }, port, flow: 0, scope: 0 }
}

fn opens(plan: DatagramPlan, to: &str) -> bool {
    matches!(plan, DatagramPlan::Open(target) if target == to)
}

#[test]
fn table_maps_peers() {
    let mut table: AddrMap<PeerAddr, u32> = AddrMap::new();
    assert_eq!(table.insert(peer(1, 1), 10), None);
    assert_eq!(table.insert(peer(1, 2), 20), None);
    assert_eq!(table.insert(peer(1, 1), 30), Some(10));
    assert_eq!(table.get(peer(1, 1)), Some(&30));
    assert!(table.contains_key(peer(1, 2)));
    assert_eq!(table.remove(peer(1, 2)), Some(20));
    assert_eq!(table.remove(peer(1, 2)), None);
    assert_eq!(table.get(peer(1, 2)), None);
    let mut scoped = peer(1, 1);
    scoped.scope = 4;
    assert_eq!(table.get(scoped), None);
}

#[test]
fn session_is_used_until_closed() {
    let mut open: AddrMap<PeerAddr, u32> = AddrMap::new();
    let auth = AuthorizedIps::new();
    let p = peer(7, 5000);
    assert!(opens(plan_datagram(&open, &auth, p, 0, "quic", "reality"), "reality"));
    let _ = open.insert(p, 1);
    assert!(matches!(plan_datagram(&open, &auth, p, 0, "quic", "reality"), DatagramPlan::Forward));
    assert!(opens(plan_datagram(&open, &auth, peer(7, 5001), 0, "quic", "reality"), "reality"));
    let _ = open.remove(p);
    assert!(opens(plan_datagram(&open, &auth, p, 0, "quic", "reality"), "reality"));
}

#[test]
fn authorized_peers_reach_quic_for_two_hours() {
    let open: AddrMap<PeerAddr, u32> = AddrMap::new();
    let mut auth = AuthorizedIps::new();
    let p = peer(7, 5000);
    auth.authorize(p.ip, 100);
    assert_eq!(AUTH_IP_TTL, 2 * 3600 * 1_000_000_000);
    assert!(opens(plan_datagram(&open, &auth, p, 50, "quic", "reality"), "quic"));
    assert!(opens(plan_datagram(&open, &auth, p, 99 + AUTH_IP_TTL, "quic", "reality"), "quic"));
    assert!(opens(plan_datagram(&open, &auth, p, 100 + AUTH_IP_TTL, "quic", "reality"), "reality"));
    assert!(opens(plan_datagram(&open, &auth, peer(8, 5000), 100, "quic", "reality"), "reality"));
    let mut v6 = p;
    v6.ip.v6 = true;
    assert!(opens(plan_datagram(&open, &auth, v6, 100, "quic", "reality"), "reality"));
}

#[test]
fn session_outlives_its_authorization() {
    let mut open: AddrMap<PeerAddr, u32> = AddrMap::new();
    let mut auth = AuthorizedIps::new();
    let p = peer(7, 5000);
    auth.authorize(p.ip, 0);
    let _ = open.insert(p, 1);
    auth.retain_fresh(10 * AUTH_IP_TTL);
    assert!(!auth.is_authorized(p.ip, 10 * AUTH_IP_TTL));
    assert!(matches!(
        plan_datagram(&open, &auth, p, 10 * AUTH_IP_TTL, "quic", "reality"),
        DatagramPlan::Forward
    ));
}

#[test]
fn forgetting_changes_no_answer() {
    let stamps: Vec<u128> = vec![0, 5, AUTH_IP_TTL, 2 * AUTH_IP_TTL, AUTH_IP_TTL - 1];
    let build = || {
        let mut auth = AuthorizedIps::new();
        for (i, s) in stamps.iter().enumerate() {
            auth.authorize(IpKey { v6: true, bits: i as u128 }, *s);
        }
        auth
    };
    let kept = build();
    let mut pruned = build();
    let then = AUTH_IP_TTL + 3;
    pruned.retain_fresh(then);
    for now in [then, then + 1, 2 * AUTH_IP_TTL, 4 * AUTH_IP_TTL] {
        for i in 0..stamps.len() + 1 {
            let ip = IpKey { v6: true, bits: i as u128 };
            assert_eq!(kept.is_authorized(ip, now), pruned.is_authorized(ip, now));
        }
    }
    assert!(!pruned.is_authorized(IpKey { v6: true, bits: 0 }, 0));
    assert!(pruned.is_authorized(IpKey { v6: true, bits: 1 }, 0));
}

#[test]
fn sessions_end() {
    assert_eq!(UDP_SESSION_TIMEOUT, 60 * 1_000_000_000);
    assert!(session_goes_on(Waited::Reply(1), 0));
    assert!(session_goes_on(Waited::Reply(1), u128::MAX));
    assert!(!session_goes_on(Waited::Reply(0), 0));
    assert!(session_goes_on(Waited::Quiet, 0));
    assert!(session_goes_on(Waited::Quiet, 59_999_999_999));
    assert!(!session_goes_on(Waited::Quiet, 60_000_000_000));
    assert!(!session_goes_on(Waited::Failed, 0));
}

#[test]
fn sending_peer_keeps_its_session() {
    let second: u128 = 1_000_000_000;
    let last_reply: u128 = 0;
    let mut last_sent: u128 = 0;
    for now in 1..200u128 {
        if now % 10 == 0 {
            last_sent = now;
        }
        let idle = (now - last_sent.max(last_reply)) * second;
        assert!(session_goes_on(Waited::Quiet, idle));
    }
    assert!(session_goes_on(Waited::Quiet, (249 - last_sent) * second));
    assert!(!session_goes_on(Waited::Quiet, (250 - last_sent) * second));
}

#[test]
fn waiting_lasts_until_the_session_is_idle() {
    assert_eq!(wait_left(0), 60_000_000_000);
    assert_eq!(wait_left(10_000_000_000), 50_000_000_000);
    assert_eq!(wait_left(60_000_000_000), 0);
    assert_eq!(wait_left(u128::MAX), 0);
    for idle in [0, 1, 30_000_000_000, 59_999_999_999] {
        let left = wait_left(idle) as u128;
        assert!(session_goes_on(Waited::Quiet, idle + left - 1));
        assert!(!session_goes_on(Waited::Quiet, idle + left));
    }
}
