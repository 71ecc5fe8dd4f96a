//! The client: its pool of connections, and how a tunnel is opened through one of them.
use crate::config;
use crate::config::{ClientConfig, RemoteLocation, Route};
use crate::ip;
use crate::routing;
use crate::string_map::StringMap;
use crate::text;
use vstd::prelude::*;
use vstd::string::*;

verus! {

/// How many connections are kept to each server unless the configuration says otherwise.
pub const DEFAULT_POOL_PER_NODE: usize = 16;

/// How many requests are made for a tunnel at most.
pub const MAX_REQUESTS: u32 = 5;

/// How often the pool is scanned for each request at most.
pub const MAX_SCANS: u32 = 5;

/// How many requests in a row that could not be sent end a connection.
pub const MAX_SEND_ERRORS: u32 = 3;

/// The score that a slot has to be below to be picked: the bits of the largest finite number of
/// double precision. Numbers of double precision that are not negative are ordered as their bits.
pub const SCORE_LIMIT: u64 = 0x7fef_ffff_ffff_ffff;

/// A server.
#[derive(Debug)]
pub struct ActiveNode {
    /// The location that it is at.
    pub location: String,
    /// Its host name with an optional port.
    pub sni: String,
}

/// A server.
#[verifier::ext_equal]
pub struct NodeSpec {
    /// The location that it is at.
    pub location: Seq<char>,
    /// Its host name with an optional port.
    pub sni: Seq<char>,
}

impl View for ActiveNode {
    type V = NodeSpec;

    open spec fn view(&self) -> NodeSpec {
        NodeSpec { location: self.location@, sni: self.sni@ }
    }
}

impl Clone for ActiveNode {
    fn clone(&self) -> (r: Self)
        ensures
            r@ == self@,
    {
        ActiveNode { location: self.location.clone(), sni: self.sni.clone() }
    }
}

/// Some servers.
pub open spec fn node_views(nodes: Seq<ActiveNode>) -> Seq<NodeSpec> {
    Seq::new(nodes.len(), |i: int| nodes[i]@)
}

/// The servers at a location.
pub open spec fn nodes_at(loc: RemoteLocation) -> Seq<NodeSpec> {
    Seq::new(
        loc.sni@.len(),
        |i: int| NodeSpec { location: loc.location@, sni: loc.sni@[i]@ },
    )
}

/// The servers at some locations.
pub open spec fn all_nodes(remotes: Seq<RemoteLocation>) -> Seq<NodeSpec>
    decreases remotes.len(),
{
    if remotes.len() == 0 {
        Seq::empty()
    } else {
        all_nodes(remotes.drop_last()) + nodes_at(remotes.last())
    }
}

/// The servers at some locations, in the order in which the configuration has them.
pub fn flatten_remotes(remotes: &[RemoteLocation]) -> (r: Vec<ActiveNode>)
    ensures
        node_views(r@) == all_nodes(remotes@),
{
    let mut out: Vec<ActiveNode> = Vec::new();
    let mut i: usize = 0;
    proof {
        assert(remotes@.take(0) =~= Seq::<RemoteLocation>::empty());
        assert(node_views(out@) =~= all_nodes(remotes@.take(0)));
    }
    while i < remotes.len()
        invariant
            i <= remotes@.len(),
            node_views(out@) == all_nodes(remotes@.take(i as int)),
        decreases remotes@.len() - i,
    {
        let loc: &RemoteLocation = &remotes[i];
        let ghost before = node_views(out@);
        let mut j: usize = 0;
        proof {
            assert(before + nodes_at(*loc).take(0) =~= before);
        }
        while j < loc.sni.len()
            invariant
                j <= loc.sni@.len(),
                node_views(out@) == before + nodes_at(*loc).take(j as int),
            decreases loc.sni@.len() - j,
        {
            let ghost so_far = out@;
            out.push(ActiveNode { location: loc.location.clone(), sni: loc.sni[j].clone() });
            proof {
                assert(node_views(out@) =~= node_views(so_far).push(nodes_at(*loc)[j as int]));
                assert(before + nodes_at(*loc).take(j + 1) =~= (before + nodes_at(*loc).take(j as int)).push(
                    nodes_at(*loc)[j as int],
                ));
            }
            j += 1;
        }
        proof {
            assert(nodes_at(*loc).take(j as int) =~= nodes_at(*loc));
            assert(remotes@.take(i + 1).drop_last() =~= remotes@.take(i as int));
        }
        i += 1;
    }
    proof {
        assert(remotes@.take(i as int) =~= remotes@);
    }
    out
}

/// How many connections are kept to each server.
pub open spec fn per_node(setting: Option<usize>) -> usize {
    match setting {
        Some(n) => n,
        None => DEFAULT_POOL_PER_NODE,
    }
}

/// The servers that the slots of a pool connect to: all of them in turn, `k` times over.
pub open spec fn pool_layout(nodes: Seq<NodeSpec>, k: nat) -> Seq<NodeSpec>
    decreases k,
{
    if k == 0 {
        Seq::empty()
    } else {
        pool_layout(nodes, (k - 1) as nat) + nodes
    }
}

/// The servers that the slots of the pool connect to.
pub fn pool_nodes(nodes: &[ActiveNode], setting: Option<usize>) -> (r: Vec<ActiveNode>)
    requires
        nodes@.len() * per_node(setting) <= usize::MAX,
    ensures
        node_views(r@) == pool_layout(node_views(nodes@), per_node(setting) as nat),
{
    let k: usize = match setting {
        Some(n) => n,
        None => DEFAULT_POOL_PER_NODE,
    };
    let mut out: Vec<ActiveNode> = Vec::new();
    let mut round: usize = 0;
    proof {
        assert(node_views(out@) =~= pool_layout(node_views(nodes@), 0));
    }
    while round < k
        invariant
            round <= k,
            node_views(out@) == pool_layout(node_views(nodes@), round as nat),
        decreases k - round,
    {
        let ghost before = node_views(out@);
        let mut i: usize = 0;
        proof {
            assert(before + node_views(nodes@).take(0) =~= before);
        }
        while i < nodes.len()
            invariant
                i <= nodes@.len(),
                node_views(out@) == before + node_views(nodes@).take(i as int),
            decreases nodes@.len() - i,
        {
            let ghost so_far = out@;
            out.push(nodes[i].clone());
            proof {
                assert(node_views(out@) =~= node_views(so_far).push(nodes@[i as int]@));
                assert(before + node_views(nodes@).take(i + 1) =~= (before + node_views(nodes@).take(
                    i as int,
                )).push(nodes@[i as int]@));
            }
            i += 1;
        }
        proof {
            assert(node_views(nodes@).take(i as int) =~= node_views(nodes@));
        }
        round += 1;
    }
    out
}

/// Every server of every location is listed, in order: the servers of two lists of locations are
/// those of the first and then those of the second, and each location has one entry for each of
/// its servers.
pub proof fn lemma_all_servers_are_listed(
    first: Seq<RemoteLocation>,
    second: Seq<RemoteLocation>,
    loc: RemoteLocation,
    j: int,
)
    ensures
        all_nodes(first + second) == all_nodes(first) + all_nodes(second),
        all_nodes(seq![loc]).len() == loc.sni@.len(),
        0 <= j < loc.sni@.len() ==> all_nodes(seq![loc])[j].location == loc.location@
            && all_nodes(seq![loc])[j].sni == loc.sni@[j]@,
    decreases second.len(),
{
    if second.len() == 0 {
        assert(first + second =~= first);
        assert(all_nodes(first) + all_nodes(second) =~= all_nodes(first));
    } else {
        assert((first + second).drop_last() =~= first + second.drop_last());
        lemma_all_servers_are_listed(first, second.drop_last(), loc, j);
        assert(all_nodes(first + second) =~= all_nodes(first) + all_nodes(second));
    }
    assert(seq![loc].drop_last() =~= Seq::<RemoteLocation>::empty());
    assert(all_nodes(Seq::<RemoteLocation>::empty()) =~= Seq::<NodeSpec>::empty());
    assert(all_nodes(seq![loc]) =~= nodes_at(loc));
}

/// The configured number of connections to each server is used as it is; without one it is 16.
pub proof fn lemma_connections_per_server(n: usize)
    ensures
        per_node(Some(n)) == n,
        per_node(None) == 16,
{
}

/// How many slots a pool has.
proof fn lemma_pool_len(nodes: Seq<NodeSpec>, k: nat)
    ensures
        pool_layout(nodes, k).len() == nodes.len() * k,
    decreases k,
{
    if k > 0 {
        lemma_pool_len(nodes, (k - 1) as nat);
        assert(nodes.len() * k == nodes.len() * (k - 1) + nodes.len()) by (nonlinear_arith)
            requires
                k > 0,
        ;
    } else {
        assert(nodes.len() * k == 0) by (nonlinear_arith)
            requires
                k == 0,
        ;
    }
}

/// Slot `i` of a pool of `k` connections to each server connects to server `i` modulo their
/// number, so every server has `k` slots.
pub proof fn lemma_pool_layout(nodes: Seq<NodeSpec>, k: nat, round: nat, j: int)
    requires
        round < k,
        0 <= j < nodes.len(),
    ensures
        pool_layout(nodes, k).len() == nodes.len() * k,
        0 <= round * nodes.len() + j < pool_layout(nodes, k).len(),
        pool_layout(nodes, k)[round * nodes.len() + j] == nodes[j],
    decreases k,
{
    let n = nodes.len();
    lemma_pool_len(nodes, k);
    lemma_pool_len(nodes, (k - 1) as nat);
    assert(n * k == n * (k - 1) + n) by (nonlinear_arith);
    assert(n * round == round * n) by (nonlinear_arith);
    if round < k - 1 {
        lemma_pool_layout(nodes, (k - 1) as nat, round, j);
    } else {
        assert(round == k - 1);
    }
}

/// What became of a request for a tunnel.
#[derive(Clone, Copy, Debug, PartialEq, Eq, Structural)]
pub enum Outcome {
    /// The server answered with this status in time.
    Responded(u16),
    /// The request was sent, and no answer came in time.
    NoResponse,
    /// The request could not be sent.
    SendFailed,
}

impl Outcome {
    /// Whether the tunnel is open.
    pub open spec fn is_open(&self) -> bool {
        *self == Outcome::Responded(200)
    }

    /// Whether the tunnel is open.
    pub fn opened(&self) -> (r: bool)
        ensures
            r == self.is_open(),
            r <==> *self == Outcome::Responded(200),
    {
        matches!(self, Outcome::Responded(200))
    }
}

/// The state of the connection in a slot of the pool.
#[derive(Clone, Copy, Debug, PartialEq, Eq, Structural)]
pub struct ConnectionState {
    /// Whether there is a connection.
    pub connected: bool,
    /// How many requests in a row could not be sent.
    pub consecutive_errors: u32,
}

impl Default for ConnectionState {
    fn default() -> (r: Self)
        ensures
            r == (ConnectionState { connected: false, consecutive_errors: 0 }),
            r.wf(),
    {
        ConnectionState { connected: false, consecutive_errors: 0 }
    }
}

impl ConnectionState {
    /// A connection ends before the errors on it reach the limit.
    pub open spec fn wf(&self) -> bool {
        self.consecutive_errors < MAX_SEND_ERRORS
    }

    /// The state after a request.
    pub open spec fn after(&self, outcome: Outcome) -> ConnectionState {
        match outcome {
            Outcome::Responded(status) => ConnectionState {
                connected: self.connected && status == 200,
                consecutive_errors: 0,
            },
            Outcome::NoResponse => ConnectionState { connected: false, ..*self },
            Outcome::SendFailed => if self.consecutive_errors + 1 >= MAX_SEND_ERRORS {
                ConnectionState { connected: false, consecutive_errors: 0 }
            } else {
                ConnectionState {
                    consecutive_errors: (self.consecutive_errors + 1) as u32,
                    ..*self
                }
            },
        }
    }

    /// Records what became of a request.
    pub fn record(&mut self, outcome: Outcome)
        requires
            old(self).wf(),
        ensures
            final(self).wf(),
            *final(self) == old(self).after(outcome),
            final(self).connected <==> old(self).connected && (match outcome {
                Outcome::Responded(status) => status == 200,
                Outcome::NoResponse => false,
                Outcome::SendFailed => old(self).consecutive_errors < 2,
            }),
            final(self).consecutive_errors == (match outcome {
                Outcome::Responded(_) => 0int,
                Outcome::NoResponse => old(self).consecutive_errors as int,
                Outcome::SendFailed => if old(self).consecutive_errors < 2 {
                    old(self).consecutive_errors + 1
                } else {
                    0
                },
            }),
    {
        match outcome {
            Outcome::Responded(status) => {
                if status != 200 {
                    self.connected = false;
                }
                self.consecutive_errors = 0;
            },
            Outcome::NoResponse => {
                self.connected = false;
            },
            Outcome::SendFailed => {
                self.consecutive_errors += 1;
                if self.consecutive_errors >= MAX_SEND_ERRORS {
                    self.connected = false;
                    self.consecutive_errors = 0;
                }
            },
        }
    }

    /// Records that a connection was made.
    pub fn connect(&mut self)
        ensures
            final(self).wf(),
            *final(self) == (ConnectionState { connected: true, consecutive_errors: 0 }),
    {
        self.connected = true;
        self.consecutive_errors = 0;
    }

    /// Records that the connection was found to be closed.
    pub fn lose(&mut self)
        requires
            old(self).wf(),
        ensures
            final(self).wf(),
            *final(self) == (ConnectionState { connected: false, ..*old(self) }),
    {
        self.connected = false;
    }
}

/// The state of a connection after some requests.
pub open spec fn after_outcomes(state: ConnectionState, outcomes: Seq<Outcome>) -> ConnectionState
    decreases outcomes.len(),
{
    if outcomes.len() == 0 {
        state
    } else {
        after_outcomes(state, outcomes.drop_last()).after(outcomes.last())
    }
}

/// A new connection survives two requests in a row that could not be sent, and ends with the
/// third.
pub proof fn lemma_third_send_error_ends_connection(outcomes: Seq<Outcome>)
    requires
        outcomes.len() <= 3,
        forall|i: int| 0 <= i < outcomes.len() ==> outcomes[i] is SendFailed,
    ensures
        after_outcomes(
            ConnectionState { connected: true, consecutive_errors: 0 },
            outcomes,
        ).connected == (outcomes.len() < 3),
{
    reveal_with_fuel(after_outcomes, 4);
    assert(outcomes.len() > 0 ==> outcomes.last() == outcomes[outcomes.len() - 1]);
    assert(outcomes.len() > 1 ==> outcomes.drop_last().last() == outcomes[outcomes.len() - 2]);
    assert(outcomes.len() > 2 ==> outcomes.drop_last().drop_last().last() == outcomes[outcomes.len() - 3]);
}

/// A tunnel is open for the status 200 and for nothing else; any other answer, and none, ends the
/// connection that was asked, and errors in sending are counted up to the third.
pub proof fn lemma_outcomes(state: ConnectionState, status: u16)
    requires
        state.wf(),
    ensures
        Outcome::Responded(status).is_open() <==> status == 200,
        !Outcome::NoResponse.is_open(),
        !Outcome::SendFailed.is_open(),
        state.after(Outcome::Responded(status)).connected <==> state.connected && status == 200,
        state.after(Outcome::Responded(status)).consecutive_errors == 0,
        !state.after(Outcome::NoResponse).connected,
        state.after(Outcome::NoResponse).consecutive_errors == state.consecutive_errors,
        state.consecutive_errors < 2 ==> {
            &&& state.after(Outcome::SendFailed).connected == state.connected
            &&& state.after(Outcome::SendFailed).consecutive_errors == state.consecutive_errors + 1
        },
        state.consecutive_errors == 2 ==> state.after(Outcome::SendFailed) == (ConnectionState {
            connected: false,
            consecutive_errors: 0,
        }),
{
}

/// A request never makes a connection, and one that opens a tunnel never ends it.
pub proof fn lemma_requests_do_not_connect(state: ConnectionState, outcome: Outcome)
    ensures
        state.after(outcome).connected ==> state.connected,
        outcome.is_open() ==> state.after(outcome).connected == state.connected,
{
}

/// How far an attempt to open a tunnel has come.
pub struct TunnelAttempt {
    global_retries: u32,
    retries: u32,
    failed_snis: Vec<String>,
}

/// How far an attempt to open a tunnel has come.
#[verifier::ext_equal]
pub struct AttemptSpec {
    /// How many requests have failed.
    pub global_retries: nat,
    /// How often the pool was scanned in vain since then.
    pub retries: nat,
    /// The servers that requests have failed at.
    pub failed_snis: Set<Seq<char>>,
}

/// What to do after a scan of the pool.
#[derive(Clone, Copy, Debug, PartialEq, Eq, Structural)]
pub enum ScanVerdict {
    /// Make a request through this slot.
    Request(usize),
    /// Rest, and scan again.
    Rescan,
    /// Rest, and give up: no connection is to be had.
    Disconnected,
}

/// What to do after a request.
#[derive(Clone, Copy, Debug, PartialEq, Eq, Structural)]
pub enum RequestVerdict {
    /// The tunnel is open; tells whether other servers have failed before.
    Established(bool),
    /// Scan the pool for another server.
    Retry,
    /// Give up: all requests have failed.
    Exhausted,
}

/// An attempt that nothing has been done for.
pub open spec fn fresh_attempt() -> AttemptSpec {
    AttemptSpec { global_retries: 0, retries: 0, failed_snis: Set::empty() }
}

impl AttemptSpec {
    /// Whether the attempt goes on.
    pub open spec fn goes_on(&self) -> bool {
        self.global_retries < MAX_REQUESTS && self.retries < MAX_SCANS
    }

    /// Whether a slot that connects to `node` and has the score `score` may be picked.
    pub open spec fn eligible(&self, node: NodeSpec, score: Option<u64>) -> bool {
        &&& score is Some
        &&& score->0 < SCORE_LIMIT
        &&& !self.failed_snis.contains(node.sni)
    }

    /// Whether slot `i` is the one to pick: the first of those with the lowest score.
    pub open spec fn is_best(&self, nodes: Seq<NodeSpec>, scores: Seq<Option<u64>>, i: int) -> bool {
        &&& 0 <= i < nodes.len()
        &&& self.eligible(nodes[i], scores[i])
        &&& forall|j: int|
            0 <= j < nodes.len() && #[trigger] self.eligible(nodes[j], scores[j]) ==> scores[i]->0
                <= scores[j]->0 && (scores[i]->0 == scores[j]->0 ==> i <= j)
    }

    /// The attempt after a scan in vain.
    pub open spec fn after_miss(&self) -> AttemptSpec {
        AttemptSpec { retries: self.retries + 1, ..*self }
    }

    /// The attempt after a request to `sni` that failed.
    pub open spec fn after_failure(&self, sni: Seq<char>) -> AttemptSpec {
        AttemptSpec {
            global_retries: self.global_retries + 1,
            retries: 0,
            failed_snis: self.failed_snis.insert(sni),
        }
    }

    /// How many more scans and requests there are at most.
    pub open spec fn steps_left(&self) -> int {
        (MAX_REQUESTS - self.global_retries) * (MAX_SCANS + 1) - self.retries
    }
}

/// The characters of some strings.
pub open spec fn string_set(list: Seq<String>) -> Set<Seq<char>>
    decreases list.len(),
{
    if list.len() == 0 {
        Set::empty()
    } else {
        string_set(list.drop_last()).insert(list.last()@)
    }
}

/// A string is in the set of some strings where it is one of them.
proof fn lemma_string_set(list: Seq<String>, s: Seq<char>)
    ensures
        string_set(list).contains(s) <==> exists|i: int| 0 <= i < list.len() && (#[trigger] list[i])@ == s,
    decreases list.len(),
{
    if list.len() > 0 {
        let init = list.drop_last();
        lemma_string_set(init, s);
        if string_set(init).contains(s) {
            let i = choose|i: int| 0 <= i < init.len() && (#[trigger] init[i])@ == s;
            assert(list[i]@ == s);
        }
        assert(list.last() == list[list.len() - 1]);
        if exists|i: int| 0 <= i < list.len() && (#[trigger] list[i])@ == s {
            let i = choose|i: int| 0 <= i < list.len() && (#[trigger] list[i])@ == s;
            if i < init.len() {
                assert(init[i]@ == s);
            }
        }
    }
}

impl View for TunnelAttempt {
    type V = AttemptSpec;

    closed spec fn view(&self) -> AttemptSpec {
        AttemptSpec {
            global_retries: self.global_retries as nat,
            retries: self.retries as nat,
            failed_snis: string_set(self.failed_snis@),
        }
    }
}

impl TunnelAttempt {
    /// An attempt that nothing has been done for.
    pub fn new() -> (r: Self)
        ensures
            r@ == fresh_attempt(),
            r@.goes_on(),
            r@.global_retries == 0,
            r@.retries == 0,
            forall|sni: Seq<char>| !(#[trigger] r@.failed_snis.contains(sni)),
    {
        TunnelAttempt { global_retries: 0, retries: 0, failed_snis: Vec::new() }
    }

    /// Whether no request to `sni` has failed.
    pub fn may_try(&self, sni: &str) -> (r: bool)
        ensures
            r == !self@.failed_snis.contains(sni@),
    {
        proof {
            lemma_string_set(self.failed_snis@, sni@);
        }
        let mut i: usize = 0;
        while i < self.failed_snis.len()
            invariant
                i <= self.failed_snis@.len(),
                string_set(self.failed_snis@).contains(sni@) <==> exists|j: int|
                    0 <= j < self.failed_snis@.len() && (#[trigger] self.failed_snis@[j])@ == sni@,
                forall|j: int| 0 <= j < i ==> (#[trigger] self.failed_snis@[j])@ != sni@,
            decreases self.failed_snis@.len() - i,
        {
            if text::str_eq(self.failed_snis[i].as_str(), sni) {
                return false;
            }
            i += 1;
        }
        true
    }

    /// Picks a slot of the pool. A slot has a score where there is a connection in it that is
    /// ready; the lowest score wins, and of equal ones the first.
    pub fn pick_slot(&self, nodes: &[ActiveNode], scores: &[Option<u64>]) -> (r: Option<usize>)
        requires
            nodes@.len() == scores@.len(),
        ensures
            r matches Some(i) ==> self@.is_best(node_views(nodes@), scores@, i as int),
            r is None <==> forall|j: int|
                0 <= j < nodes@.len() ==> !self@.eligible(#[trigger] node_views(nodes@)[j], scores@[j]),
            r is None <==> forall|j: int|
                0 <= j < nodes@.len() ==> {
                    ||| (#[trigger] scores@[j]) is None
                    ||| scores@[j]->0 >= 0x7fef_ffff_ffff_ffff
                    ||| self@.failed_snis.contains(nodes@[j].sni@)
                },
            r matches Some(i) ==> {
                &&& i < nodes@.len()
                &&& scores@[i as int] is Some
                &&& scores@[i as int]->0 < 0x7fef_ffff_ffff_ffff
                &&& !self@.failed_snis.contains(nodes@[i as int].sni@)
                &&& forall|j: int|
                    0 <= j < nodes@.len() && (#[trigger] scores@[j]) is Some
                        && !self@.failed_snis.contains(nodes@[j].sni@) ==> {
                        &&& scores@[i as int]->0 <= scores@[j]->0
                        &&& j < i ==> scores@[i as int]->0 < scores@[j]->0
                    }
            },
    {
        let ghost views = node_views(nodes@);
        let mut best: Option<usize> = None;
        let mut lowest: u64 = SCORE_LIMIT;
        let mut i: usize = 0;
        while i < nodes.len()
            invariant
                nodes@.len() == scores@.len(),
                views == node_views(nodes@),
                i <= nodes@.len(),
                best is None ==> lowest == SCORE_LIMIT,
                best matches Some(b) ==> {
                    &&& b < i
                    &&& self@.eligible(views[b as int], scores@[b as int])
                    &&& scores@[b as int] == Some(lowest)
                },
                forall|j: int|
                    0 <= j < i && #[trigger] self@.eligible(views[j], scores@[j]) ==> best is Some && lowest
                        <= scores@[j]->0 && (lowest == scores@[j]->0 ==> best->0 <= j),
            decreases nodes@.len() - i,
        {
            proof {
                assert(views[i as int] == nodes@[i as int]@);
            }
            if self.may_try(nodes[i].sni.as_str()) {
                if let Some(score) = scores[i] {
                    if score < lowest {
                        lowest = score;
                        best = Some(i);
                    }
                }
            }
            i += 1;
        }
        proof {
            if best is Some {
                assert(self@.eligible(views[best->0 as int], scores@[best->0 as int]));
            }
            assert forall|j: int| 0 <= j < nodes@.len() && (#[trigger] scores@[j]) is Some
                && !self@.failed_snis.contains(nodes@[j].sni@) implies scores@[j]->0
                >= 0x7fef_ffff_ffff_ffff || self@.eligible(views[j], scores@[j]) by {
                assert(views[j] == nodes@[j]@);
            }
            if forall|j: int| 0 <= j < nodes@.len() ==> {
                ||| (#[trigger] scores@[j]) is None
                ||| scores@[j]->0 >= 0x7fef_ffff_ffff_ffff
                ||| self@.failed_snis.contains(nodes@[j].sni@)
            } {
                if best is Some {
                    let b = best->0 as int;
                    assert(views[b] == nodes@[b]@);
                    assert(scores@[b] is Some);
                }
            }
        }
        best
    }

    /// Tells what to do after a scan that picked a slot, or none.
    pub fn scanned(&mut self, picked: Option<usize>) -> (r: ScanVerdict)
        requires
            old(self)@.goes_on(),
        ensures
            match picked {
                Some(slot) => r == ScanVerdict::Request(slot) && final(self)@ == old(self)@,
                None => {
                    &&& final(self)@ == old(self)@.after_miss()
                    &&& final(self)@.global_retries == old(self)@.global_retries
                    &&& final(self)@.retries == old(self)@.retries + 1
                    &&& final(self)@.failed_snis == old(self)@.failed_snis
                    &&& r == (if old(self)@.retries < 4 {
                        ScanVerdict::Rescan
                    } else {
                        ScanVerdict::Disconnected
                    })
                    &&& r == (if final(self)@.goes_on() {
                        ScanVerdict::Rescan
                    } else {
                        ScanVerdict::Disconnected
                    })
                },
            },
    {
        match picked {
            Some(slot) => ScanVerdict::Request(slot),
            None => {
                self.retries += 1;
                if self.retries < MAX_SCANS {
                    ScanVerdict::Rescan
                } else {
                    ScanVerdict::Disconnected
                }
            },
        }
    }

    /// Tells what to do after a request to `sni`.
    pub fn request_finished(&mut self, sni: &str, outcome: Outcome) -> (r: RequestVerdict)
        requires
            old(self)@.goes_on(),
        ensures
            outcome.is_open() ==> final(self)@ == old(self)@ && r == RequestVerdict::Established(
                old(self)@.failed_snis != Set::<Seq<char>>::empty(),
            ),
            r is Established <==> outcome == Outcome::Responded(200),
            outcome == Outcome::Responded(200) ==> final(self)@ == old(self)@ && r
                == RequestVerdict::Established(old(self)@.failed_snis != Set::<Seq<char>>::empty()),
            outcome != Outcome::Responded(200) ==> {
                &&& final(self)@.global_retries == old(self)@.global_retries + 1
                &&& final(self)@.retries == 0
                &&& final(self)@.failed_snis == old(self)@.failed_snis.insert(sni@)
                &&& r == (if old(self)@.global_retries < 4 {
                    RequestVerdict::Retry
                } else {
                    RequestVerdict::Exhausted
                })
            },
            !outcome.is_open() ==> {
                &&& final(self)@ == old(self)@.after_failure(sni@)
                &&& r == (if final(self)@.goes_on() {
                    RequestVerdict::Retry
                } else {
                    RequestVerdict::Exhausted
                })
            },
    {
        if outcome.opened() {
            proof {
                if self.failed_snis@.len() > 0 {
                    assert(string_set(self.failed_snis@).contains(self.failed_snis@.last()@));
                }
            }
            return RequestVerdict::Established(self.failed_snis.len() > 0);
        }
        let ghost before = self.failed_snis@;
        self.failed_snis.push(sni.to_owned());
        self.global_retries += 1;
        self.retries = 0;
        proof {
            assert(self.failed_snis@.drop_last() =~= before);
            assert(self@ =~= old(self)@.after_failure(sni@));
        }
        if self.global_retries < MAX_REQUESTS {
            RequestVerdict::Retry
        } else {
            RequestVerdict::Exhausted
        }
    }
}

/// A server that has not failed is used however slow it is, as long as no better one is ready: the
/// only slot with a connection is picked for every finite score.
pub proof fn lemma_only_ready_slot_is_picked(
    attempt: AttemptSpec,
    nodes: Seq<NodeSpec>,
    scores: Seq<Option<u64>>,
    i: int,
)
    requires
        nodes.len() == scores.len(),
        0 <= i < nodes.len(),
        scores[i] is Some,
        scores[i]->0 < 0x7fef_ffff_ffff_ffff,
        !attempt.failed_snis.contains(nodes[i].sni),
        forall|j: int| 0 <= j < nodes.len() && j != i ==> (#[trigger] scores[j]) is None,
    ensures
        forall|k: int| attempt.is_best(nodes, scores, k) <==> k == i,
{
    assert(attempt.eligible(nodes[i], scores[i]));
}

/// The slot that is picked is one with a connection to a server that has not failed, none that
/// could be picked has a lower score, and none before it has the same: of two slots that could be
/// picked the one with the higher score never is.
pub proof fn lemma_lower_score_wins(
    attempt: AttemptSpec,
    nodes: Seq<NodeSpec>,
    scores: Seq<Option<u64>>,
    i: int,
    j: int,
)
    requires
        nodes.len() == scores.len(),
        attempt.is_best(nodes, scores, i),
        0 <= j < nodes.len(),
        scores[j] is Some,
        !attempt.failed_snis.contains(nodes[j].sni),
    ensures
        scores[i] is Some,
        scores[i]->0 < 0x7fef_ffff_ffff_ffff,
        !attempt.failed_snis.contains(nodes[i].sni),
        scores[i]->0 <= scores[j]->0,
        j < i ==> scores[i]->0 < scores[j]->0,
{
    if scores[j]->0 < 0x7fef_ffff_ffff_ffff {
        assert(attempt.eligible(nodes[j], scores[j]));
    }
}

/// Once a request to a server has failed, no slot that connects to it is picked again.
pub proof fn lemma_failed_server_is_not_picked(
    attempt: AttemptSpec,
    sni: Seq<char>,
    nodes: Seq<NodeSpec>,
    scores: Seq<Option<u64>>,
    i: int,
)
    requires
        attempt.failed_snis.contains(sni),
        attempt.is_best(nodes, scores, i),
    ensures
        nodes[i].sni != sni,
        attempt.after_failure(nodes[i].sni).failed_snis.contains(sni),
        attempt.after_miss().failed_snis.contains(sni),
{
}

/// Every scan in vain and every request that fails brings an attempt closer to its end, which is
/// at most 30 steps away from its start.
pub proof fn lemma_attempt_ends(attempt: AttemptSpec, sni: Seq<char>)
    requires
        attempt.goes_on(),
    ensures
        0 < attempt.steps_left() <= 30,
        attempt.after_miss().steps_left() < attempt.steps_left(),
        attempt.after_failure(sni).steps_left() < attempt.steps_left(),
        fresh_attempt().steps_left() == 30,
{
}

/// An attempt after requests to these servers that failed.
pub open spec fn after_failures(attempt: AttemptSpec, snis: Seq<Seq<char>>) -> AttemptSpec
    decreases snis.len(),
{
    if snis.len() == 0 {
        attempt
    } else {
        after_failures(attempt, snis.drop_last()).after_failure(snis.last())
    }
}

/// An attempt goes on after fewer than five requests that failed, and does not after five; the
/// servers that it leaves out are those that they went to.
pub proof fn lemma_five_requests(snis: Seq<Seq<char>>)
    ensures
        after_failures(fresh_attempt(), snis).goes_on() <==> snis.len() < 5,
        after_failures(fresh_attempt(), snis).failed_snis == snis.to_set(),
        after_failures(fresh_attempt(), snis).global_retries == snis.len(),
        after_failures(fresh_attempt(), snis).retries == 0,
    decreases snis.len(),
{
    if snis.len() > 0 {
        let init = snis.drop_last();
        lemma_five_requests(init);
        assert(init.to_set().insert(snis.last()) =~= snis.to_set()) by {
            assert forall|x: Seq<char>| #[trigger] snis.to_set().contains(x) implies init.to_set().insert(
                snis.last(),
            ).contains(x) by {
                let i = choose|i: int| 0 <= i < snis.len() && snis[i] == x;
                if i < init.len() {
                    assert(init[i] == x);
                    assert(init.contains(x));
                }
            }
            assert forall|x: Seq<char>| #[trigger] init.to_set().insert(snis.last()).contains(x) implies snis.to_set().contains(
                x,
            ) by {
                if init.contains(x) {
                    let i = choose|i: int| 0 <= i < init.len() && init[i] == x;
                    assert(snis[i] == x);
                } else {
                    assert(snis[snis.len() - 1] == x);
                }
            }
        }
    } else {
        assert(snis.to_set() =~= Set::empty());
    }
}

/// The host name and the port of a server: what is before and after its last `:`, or port 443
/// where there is none.
pub open spec fn server_of(sni: Seq<char>) -> (Seq<char>, Seq<char>) {
    let colon = text::last_index(sni, ':');
    if colon >= 0 {
        (sni.take(colon), sni.skip(colon + 1))
    } else {
        (sni, "443"@)
    }
}

/// The host name and the port of a server.
pub fn split_server(sni: &str) -> (r: (String, String))
    ensures
        (r.0@, r.1@) == server_of(sni@),
{
    match text::rfind_char(sni, ':') {
        Some(colon) => {
            let len: usize = sni.unicode_len();
            let host: String = sni.substring_char(0, colon).to_owned();
            let port: String = sni.substring_char(colon + 1, len).to_owned();
            proof {
                assert(host@ =~= sni@.take(colon as int));
                assert(port@ =~= sni@.skip(colon + 1));
            }
            (host, port)
        },
        None => (sni.to_owned(), "443".to_owned()),
    }
}

/// A server `host:port` is reached at that host and port, and one without a port at port 443.
pub proof fn lemma_server_parts(host: Seq<char>, port: Seq<char>)
    requires
        !port.contains(':'),
    ensures
        server_of(host + ":"@ + port) == (host, port),
        !host.contains(':') ==> server_of(host) == (host, "443"@),
{
    reveal_strlit(":");
    let sni = host + ":"@ + port;
    let n = host.len() as int;
    assert(sni[n] == ':');
    assert forall|j: int| n < j < sni.len() implies sni[j] != ':' by {
        assert(sni[j] == port[j - n - 1]);
    }
    text::lemma_last_index_is(sni, ':', n);
    assert(sni.take(n) =~= host);
    assert(sni.skip(n + 1) =~= port);
    text::lemma_last_index(host, ':');
}

/// What is dialled to reach `port` at `ip`: an address with more than one `:` is put in brackets,
/// one with a single `:` already has a port.
pub open spec fn dialled(ip: Seq<char>, port: Seq<char>) -> Seq<char> {
    if ip.contains(':') && ip[0] != '[' {
        if text::occurrences(ip, ':') > 1 {
            "["@ + ip + "]:"@ + port
        } else {
            ip
        }
    } else {
        ip + ":"@ + port
    }
}

/// What is dialled to reach `port` at `ip`.
pub fn dial_address(ip: &str, port: &str) -> (r: String)
    ensures
        r@ == dialled(ip@, port@),
{
    proof {
        reveal_strlit("[");
        if ip@.len() > 0 {
            assert(ip@.take(1) =~= seq![ip@[0]]);
            assert("["@ =~= seq!['[']);
            assert(ip@.take(1)[0] == ip@[0]);
        }
    }
    if text::has_char(ip, ':') && !text::starts_with(ip, "[") {
        if text::count_char(ip, ':') > 1 {
            text::cat(text::cat(text::cat("[", ip).as_str(), "]:").as_str(), port)
        } else {
            ip.to_owned()
        }
    } else {
        text::cat(text::cat(ip, ":").as_str(), port)
    }
}

/// How a server is reached.
pub struct DialPlan {
    /// The host name that its certificate has to be for.
    pub host: String,
    /// What is dialled, all at once; the first that answers is used.
    pub addresses: Vec<String>,
}

/// How `node` is reached through `clean_ips`.
pub fn dial_plan(node: &ActiveNode, clean_ips: &[String]) -> (r: DialPlan)
    ensures
        r.host@ == server_of(node@.sni).0,
        r.addresses@.len() == clean_ips@.len(),
        forall|i: int|
            0 <= i < clean_ips@.len() ==> (#[trigger] r.addresses@[i])@ == dialled(
                clean_ips@[i]@,
                server_of(node@.sni).1,
            ),
{
    let (host, port) = split_server(node.sni.as_str());
    let mut addresses: Vec<String> = Vec::new();
    let mut i: usize = 0;
    while i < clean_ips.len()
        invariant
            i <= clean_ips@.len(),
            addresses@.len() == i,
            forall|j: int|
                0 <= j < i ==> (#[trigger] addresses@[j])@ == dialled(clean_ips@[j]@, port@),
        decreases clean_ips@.len() - i,
    {
        addresses.push(dial_address(clean_ips[i].as_str(), port.as_str()));
        i += 1;
    }
    DialPlan { host, addresses }
}

/// An IPv4 address is dialled as it is, with the port; an IPv6 address in brackets, with the
/// port.
pub proof fn lemma_literals_are_dialled(addr: Seq<char>, port: Seq<char>)
    ensures
        ip::is_ipv4(addr) ==> dialled(addr, port) == addr + ":"@ + port,
        ip::is_ipv6(addr) ==> dialled(addr, port) == "["@ + addr + "]:"@ + port,
{
    if ip::is_ipv4(addr) {
        ip::lemma_ipv4_has_no_colon(addr);
    }
    if ip::is_ipv6(addr) {
        ip::lemma_ipv6_has_colons(addr);
        if !addr.contains(':') {
            text::lemma_no_occurrences(addr, ':');
        }
    }
}

/// What is dialled, by the number of colons: a name or an address without one gets the port, one
/// with a single `:` has its own port, and one with more is put in brackets unless it has them.
pub proof fn lemma_colons_decide(a: Seq<char>, b: Seq<char>, c: Seq<char>, port: Seq<char>)
    requires
        !a.contains(':'),
        !b.contains(':'),
    ensures
        dialled(a, port) == a + ":"@ + port,
        dialled("["@ + c, port) == "["@ + c + ":"@ + port,
        !(a.len() > 0 && a[0] == '[') ==> {
            &&& dialled(a + ":"@ + b, port) == a + ":"@ + b
            &&& dialled(a + ":"@ + b + ":"@ + c, port) == "["@ + (a + ":"@ + b + ":"@ + c) + "]:"@
                + port
        },
{
    reveal_strlit(":");
    reveal_strlit("[");
    assert(("["@ + c)[0] == '[');
    let one = a + ":"@ + b;
    let more = one + ":"@ + c;
    assert(one[a.len() as int] == ':');
    assert(more[a.len() as int] == ':');
    assert(one.contains(':') && more.contains(':'));
    text::lemma_no_occurrences(a, ':');
    text::lemma_no_occurrences(b, ':');
    assert(":"@ =~= seq![':']);
    reveal_with_fuel(text::occurrences, 2);
    assert(text::occurrences(":"@, ':') == 1) by {
        assert(":"@.drop_last() =~= Seq::<char>::empty());
        assert(":"@.last() == ':');
    }
    text::lemma_occurrences_add(a, ":"@, ':');
    text::lemma_occurrences_add(a + ":"@, b, ':');
    text::lemma_occurrences_add(one, ":"@, ':');
    text::lemma_occurrences_add(one + ":"@, c, ':');
    if a.len() > 0 {
        assert(one[0] == a[0] && more[0] == a[0]);
    } else {
        assert(one[0] == ':' && more[0] == ':');
    }
}

/// The shared secret; empty where there is none.
pub open spec fn secret_of(secret: Option<Seq<char>>) -> Seq<char> {
    match secret {
        Some(s) => s,
        None => ""@,
    }
}

/// The headers of a tunnel request, without those that only make it look like others.
pub open spec fn request_headers(
    sni: Seq<char>,
    target: Seq<char>,
    secret: Option<Seq<char>>,
    udp: bool,
) -> Seq<(Seq<char>, Seq<char>)> {
    let protocol = if udp {
        seq![("x-tunnel-protocol"@, "udp"@)]
    } else {
        Seq::empty()
    };
    seq![("Host"@, sni)] + protocol + seq![
        ("x-tunnel-target"@, target),
        ("x-tunnel-secret"@, secret_of(secret)),
    ]
}

/// A request for a tunnel.
pub struct TunnelRequest {
    /// Where it goes.
    pub uri: String,
    /// Its headers, without those that only make it look like others.
    pub headers: Vec<(&'static str, String)>,
}

/// Some headers and their values.
pub open spec fn named_values(list: Seq<(&'static str, String)>) -> Seq<(Seq<char>, Seq<char>)> {
    Seq::new(list.len(), |i: int| (list[i].0@, list[i].1@))
}

/// The request to the server `sni` for a tunnel to `target`.
pub fn tunnel_request(cfg: &ClientConfig, sni: &str, target: &str, udp: bool) -> (r: TunnelRequest)
    ensures
        r.uri@ == "https://"@ + sni@ + cfg.hidden_path@,
        named_values(r.headers@) == request_headers(
            sni@,
            target@,
            config::opt_view(cfg.secret),
            udp,
        ),
{
    let uri: String = text::cat(text::cat("https://", sni).as_str(), cfg.hidden_path.as_str());
    let secret: String = match &cfg.secret {
        Some(s) => s.clone(),
        None => "".to_owned(),
    };
    let mut headers: Vec<(&'static str, String)> = Vec::new();
    headers.push(("Host", sni.to_owned()));
    if udp {
        headers.push(("x-tunnel-protocol", "udp".to_owned()));
    }
    headers.push(("x-tunnel-target", target.to_owned()));
    headers.push(("x-tunnel-secret", secret));
    proof {
        assert(named_values(headers@) =~= request_headers(
            sni@,
            target@,
            config::opt_view(cfg.secret),
            udp,
        ));
    }
    TunnelRequest { uri, headers }
}

/// What a request says: the server, the target and the secret, each under its header, and that it
/// is for datagrams exactly where it is.
pub proof fn lemma_request_says(
    sni: Seq<char>,
    target: Seq<char>,
    secret: Seq<char>,
    udp: bool,
)
    ensures
        request_headers(sni, target, Some(secret), false) == seq![
            ("Host"@, sni),
            ("x-tunnel-target"@, target),
            ("x-tunnel-secret"@, secret),
        ],
        request_headers(sni, target, Some(secret), true) == seq![
            ("Host"@, sni),
            ("x-tunnel-protocol"@, "udp"@),
            ("x-tunnel-target"@, target),
            ("x-tunnel-secret"@, secret),
        ],
        request_headers(sni, target, None, udp) == request_headers(sni, target, Some(""@), udp),
{
    assert(request_headers(sni, target, Some(secret), false) =~= seq![
        ("Host"@, sni),
        ("x-tunnel-target"@, target),
        ("x-tunnel-secret"@, secret),
    ]);
    assert(request_headers(sni, target, Some(secret), true) =~= seq![
        ("Host"@, sni),
        ("x-tunnel-protocol"@, "udp"@),
        ("x-tunnel-target"@, target),
        ("x-tunnel-secret"@, secret),
    ]);
}

/// Whether datagrams are tunnelled.
pub fn tunnels_datagrams(cfg: &ClientConfig) -> (r: bool)
    ensures
        r == (config::opt_view(cfg.accept_udp) == Some("yes"@)),
{
    match &cfg.accept_udp {
        Some(setting) => text::str_eq(setting.as_str(), "yes"),
        None => false,
    }
}

/// The routes of the listeners of a client: the mappings of all locations, in turn.
pub open spec fn listener_routes(remotes: Seq<RemoteLocation>) -> Map<
    Seq<char>,
    config::RouteSpec,
>
    decreases remotes.len(),
{
    if remotes.len() == 0 {
        Map::empty()
    } else {
        routing::routes_with_all(
            listener_routes(remotes.drop_last()),
            remotes.last().port_mappings@,
            Some(remotes.last().location@),
        )
    }
}

/// The routes of the listeners of a client.
pub fn client_routes(remotes: &[RemoteLocation]) -> (r: StringMap<Route>)
    ensures
        r@ == listener_routes(remotes@),
{
    let mut routes: StringMap<Route> = StringMap::new();
    let mut i: usize = 0;
    proof {
        assert(remotes@.take(0) =~= Seq::<RemoteLocation>::empty());
    }
    while i < remotes.len()
        invariant
            i <= remotes@.len(),
            routes@ == listener_routes(remotes@.take(i as int)),
        decreases remotes@.len() - i,
    {
        let loc: &RemoteLocation = &remotes[i];
        routing::parse_port_mappings(
            loc.port_mappings.as_slice(),
            Some(loc.location.as_str()),
            &mut routes,
        );
        proof {
            assert(remotes@.take(i + 1).drop_last() =~= remotes@.take(i as int));
            assert(remotes@.take(i + 1).last() == remotes@[i as int]);
        }
        i += 1;
    }
    proof {
        assert(remotes@.take(i as int) =~= remotes@);
    }
    routes
}

/// The mappings of one more location are added to those of the locations before it, and are
/// preferably reached through it.
pub proof fn lemma_locations_add_up(remotes: Seq<RemoteLocation>, loc: RemoteLocation)
    ensures
        listener_routes(Seq::empty()) == Map::<Seq<char>, config::RouteSpec>::empty(),
        listener_routes(remotes.push(loc)) == routing::routes_with_all(
            listener_routes(remotes),
            loc.port_mappings@,
            Some(loc.location@),
        ),
{
    assert(remotes.push(loc).drop_last() =~= remotes);
}

} // verus!
