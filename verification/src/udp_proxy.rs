//! The proxy for datagrams: which session a datagram belongs to, and where a new session goes.
use crate::sessions;
use crate::sessions::{AddrMap, AuthorizedIps, IpKey, PeerAddr};
use vstd::prelude::*;
use vstd::string::*;

verus! {

/// After how many nanoseconds without a datagram in either direction a session is closed: sixty
/// seconds.
pub const UDP_SESSION_TIMEOUT: u128 = 60_000_000_000;

/// How many seconds pass between two times that expired authorizations are forgotten.
pub const CLEANUP_INTERVAL_SECS: u64 = 30;

/// The largest datagram.
pub const MAX_DATAGRAM: usize = 65535;

/// What to do with a datagram of a peer.
pub enum DatagramPlan {
    /// Send it through the session of the peer.
    Forward,
    /// Open a session to this address for the peer, and send it through that.
    Open(String),
}

impl View for DatagramPlan {
    type V = Option<Seq<char>>;

    /// The address that a session is opened to, where one is.
    open spec fn view(&self) -> Option<Seq<char>> {
        match self {
            DatagramPlan::Forward => None,
            DatagramPlan::Open(target) => Some(target@),
        }
    }
}

/// Where a new session of a peer goes: peers whose address is authorized reach the local QUIC
/// server, all others another one.
pub open spec fn session_target(
    authorized: bool,
    local_quic: Seq<char>,
    reality_target: Seq<char>,
) -> Seq<char> {
    if authorized {
        local_quic
    } else {
        reality_target
    }
}

/// What to do with a datagram of `peer` that came in at `now`: nothing but forwarding it where
/// the peer has a session, or else opening one to the address that is given.
pub open spec fn session_to_open<S>(
    open: Map<PeerAddr, S>,
    authorized_ips: Map<IpKey, u128>,
    peer: PeerAddr,
    now: u128,
    local_quic: Seq<char>,
    reality_target: Seq<char>,
) -> Option<Seq<char>> {
    if open.contains_key(peer) {
        None
    } else {
        Some(
            session_target(
                sessions::authorized_at(authorized_ips, peer.ip, now),
                local_quic,
                reality_target,
            ),
        )
    }
}

/// What to do with a datagram of `peer` that came in at `now`.
pub fn plan_datagram<S>(
    open: &AddrMap<PeerAddr, S>,
    authorized_ips: &AuthorizedIps,
    peer: PeerAddr,
    now: u128,
    local_quic: &str,
    reality_target: &str,
) -> (r: DatagramPlan)
    ensures
        r@ == session_to_open(
            open@,
            authorized_ips@,
            peer,
            now,
            local_quic@,
            reality_target@,
        ),
{
    if open.contains_key(peer) {
        DatagramPlan::Forward
    } else if authorized_ips.is_authorized(peer.ip, now) {
        DatagramPlan::Open(local_quic.to_owned())
    } else {
        DatagramPlan::Open(reality_target.to_owned())
    }
}

/// What waiting for a reply in a session came to.
#[derive(Clone, Copy, Debug, PartialEq, Eq, Structural)]
pub enum Waited {
    /// A reply of this many bytes came.
    Reply(usize),
    /// No reply came for as long as was waited.
    Quiet,
    /// Replies cannot be received.
    Failed,
}

/// Whether a session stays open after waiting for a reply, `idle_nanos` nanoseconds after the last
/// datagram in either direction.
pub open spec fn stays_open(waited: Waited, idle_nanos: int) -> bool {
    match waited {
        Waited::Reply(n) => n > 0,
        Waited::Quiet => idle_nanos < UDP_SESSION_TIMEOUT,
        Waited::Failed => false,
    }
}

/// Whether a session goes on after waiting for a reply, `idle_nanos` nanoseconds after the last
/// datagram in either direction.
pub fn session_goes_on(waited: Waited, idle_nanos: u128) -> (r: bool)
    ensures
        r == stays_open(waited, idle_nanos as int),
{
    match waited {
        Waited::Reply(n) => n > 0,
        Waited::Quiet => idle_nanos < UDP_SESSION_TIMEOUT,
        Waited::Failed => false,
    }
}

/// How many nanoseconds a session is still left without a datagram in either direction, once it
/// has been for `idle_nanos`.
pub open spec fn idle_left(idle_nanos: int) -> int {
    if idle_nanos < UDP_SESSION_TIMEOUT {
        UDP_SESSION_TIMEOUT - idle_nanos
    } else {
        0
    }
}

/// How many nanoseconds to wait for a reply, `idle_nanos` nanoseconds after the last datagram in
/// either direction.
pub fn wait_left(idle_nanos: u128) -> (r: u64)
    ensures
        r == idle_left(idle_nanos as int),
{
    if idle_nanos < UDP_SESSION_TIMEOUT {
        (UDP_SESSION_TIMEOUT - idle_nanos) as u64
    } else {
        0
    }
}

/// A session that is quiet stays open as long as a datagram went through it in the last sixty
/// seconds, whichever side it came from: a peer that goes on sending keeps it open.
pub proof fn lemma_used_session_stays_open(last_sent: u128, last_reply: u128, now: u128)
    requires
        last_sent <= now,
        last_reply <= now,
    ensures
        ({
            let last = if last_sent < last_reply { last_reply } else { last_sent };
            stays_open(Waited::Quiet, now - last) <==> now < last_sent + UDP_SESSION_TIMEOUT || now
                < last_reply + UDP_SESSION_TIMEOUT
        }),
{
}

/// What is left to wait is neither too short nor too long: a session that stays without datagrams
/// for that long is closed, and before that it is not.
pub proof fn lemma_wait_ends_idle_session(idle_nanos: int, waited: int)
    requires
        idle_nanos >= 0,
        waited >= 0,
    ensures
        stays_open(Waited::Quiet, idle_nanos + waited) <==> waited < idle_left(idle_nanos),
{
}

/// The first datagram of a peer opens a session, and what follows is sent through that until it
/// is closed. The next datagram then opens a new one. Other peers do not notice.
pub proof fn lemma_session_life<S>(
    open: Map<PeerAddr, S>,
    authorized_ips: Map<IpKey, u128>,
    peer: PeerAddr,
    session: S,
    other: PeerAddr,
    now: u128,
    local_quic: Seq<char>,
    reality_target: Seq<char>,
)
    ensures
        session_to_open(
            open.insert(peer, session),
            authorized_ips,
            peer,
            now,
            local_quic,
            reality_target,
        ) is None,
        open.insert(peer, session)[peer] == session,
        session_to_open(
            open.insert(peer, session).remove(peer),
            authorized_ips,
            peer,
            now,
            local_quic,
            reality_target,
        ) is Some,
        other != peer ==> session_to_open(
            open.insert(peer, session),
            authorized_ips,
            other,
            now,
            local_quic,
            reality_target,
        ) == session_to_open(open, authorized_ips, other, now, local_quic, reality_target),
        other != peer ==> session_to_open(
            open.remove(peer),
            authorized_ips,
            other,
            now,
            local_quic,
            reality_target,
        ) == session_to_open(open, authorized_ips, other, now, local_quic, reality_target),
{
}

/// An open session is kept, whatever becomes of the authorization of its peer.
pub proof fn lemma_session_outlives_authorization<S>(
    open: Map<PeerAddr, S>,
    peer: PeerAddr,
    before: Map<IpKey, u128>,
    after: Map<IpKey, u128>,
    then: u128,
    now: u128,
    local_quic: Seq<char>,
    reality_target: Seq<char>,
)
    requires
        session_to_open(open, before, peer, then, local_quic, reality_target) is None,
    ensures
        session_to_open(open, after, peer, now, local_quic, reality_target) is None,
{
}

/// Only peers whose address is authorized get a session to the local QUIC server.
pub proof fn lemma_only_authorized_reach_quic<S>(
    open: Map<PeerAddr, S>,
    authorized_ips: Map<IpKey, u128>,
    peer: PeerAddr,
    now: u128,
    local_quic: Seq<char>,
    reality_target: Seq<char>,
)
    requires
        local_quic != reality_target,
        session_to_open(open, authorized_ips, peer, now, local_quic, reality_target) == Some(
            local_quic,
        ),
    ensures
        sessions::authorized_at(authorized_ips, peer.ip, now),
{
}

/// A reply keeps a session open however long it is and however long it took; without one the
/// session is closed sixty seconds after the last datagram, and at once where it failed.
pub proof fn lemma_when_a_session_ends(n: usize, idle_nanos: int)
    ensures
        stays_open(Waited::Reply(n), idle_nanos) <==> n > 0,
        stays_open(Waited::Quiet, idle_nanos) <==> idle_nanos < 60_000_000_000,
        !stays_open(Waited::Failed, idle_nanos),
        0 <= idle_nanos < 60_000_000_000 ==> idle_left(idle_nanos) == 60_000_000_000 - idle_nanos,
        idle_nanos >= 60_000_000_000 ==> idle_left(idle_nanos) == 0,
{
}

/// A new session goes to the local QUIC server where its peer was authorized less than two hours
/// ago, by whatever port it comes from, and to the other server where not.
pub proof fn lemma_where_a_session_goes<S>(
    open: Map<PeerAddr, S>,
    authorized_ips: Map<IpKey, u128>,
    peer: PeerAddr,
    now: u128,
    local_quic: Seq<char>,
    reality_target: Seq<char>,
)
    ensures
        open.contains_key(peer) <==> session_to_open(
            open,
            authorized_ips,
            peer,
            now,
            local_quic,
            reality_target,
        ) is None,
        !open.contains_key(peer) && authorized_ips.contains_key(peer.ip) && now
            < authorized_ips[peer.ip] + 7_200_000_000_000 ==> session_to_open(
            open,
            authorized_ips,
            peer,
            now,
            local_quic,
            reality_target,
        ) == Some(local_quic),
        !open.contains_key(peer) && !(authorized_ips.contains_key(peer.ip) && now
            < authorized_ips[peer.ip] + 7_200_000_000_000) ==> session_to_open(
            open,
            authorized_ips,
            peer,
            now,
            local_quic,
            reality_target,
        ) == Some(reality_target),
{
}

} // verus!
