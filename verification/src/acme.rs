//! The provisioning of certificates over ACME, with challenges that are answered in the DNS.
use crate::config;
use crate::config::ServerConfig;
use crate::crypto;
use crate::text;
use base64::Engine;
use vstd::prelude::*;
use vstd::string::*;

verus! {

/// After how many seconds a certificate is renewed: sixty days.
pub const RENEWAL_AGE_SECS: u64 = 5_184_000;

/// How many seconds to wait for the records of challenges to spread.
pub const PROPAGATION_SECS: u64 = 30;

/// How many seconds to wait between two looks at an order.
pub const POLL_SECS: u64 = 3;

/// For how many seconds the record of a challenge may be cached.
pub const RECORD_TTL: u32 = 60;

/// Where the zones of the DNS provider are listed.
pub const ZONES_URL: &'static str = "https://api.cloudflare.com/client/v4/zones";

/// What is said of an order that has failed.
pub const ORDER_FAILED: &'static str = "ACME Order failed";

/// Whether a certificate is renewed: it cannot be read, or is known to be older than sixty days.
pub fn needs_renewal(readable: bool, age_secs: Option<u64>) -> (r: bool)
    ensures
        r <==> !readable || (age_secs is Some && age_secs->0 > RENEWAL_AGE_SECS),
        r <==> !readable || (age_secs is Some && age_secs->0 > 60 * 24 * 3600),
{
    if !readable {
        return true;
    }
    match age_secs {
        Some(age) => age > RENEWAL_AGE_SECS,
        None => false,
    }
}

/// A domain without a leading `*.`.
pub open spec fn base_domain(domain: Seq<char>) -> Seq<char> {
    if text::has_prefix(domain, "*."@) {
        domain.skip(2)
    } else {
        domain
    }
}

/// A domain without a leading `*.`.
fn strip_wildcard(domain: &str) -> (r: String)
    ensures
        r@ == base_domain(domain@),
{
    proof {
        reveal_strlit("*.");
    }
    if text::starts_with(domain, "*.") {
        let len: usize = domain.unicode_len();
        let rest: String = domain.substring_char(2, len).to_owned();
        proof {
            assert(rest@ =~= domain@.skip(2));
        }
        rest
    } else {
        domain.to_owned()
    }
}

/// A zone of the DNS provider.
pub struct Zone {
    /// Its name, where it has one.
    pub name: Option<String>,
    /// Its identifier, where it has one.
    pub id: Option<String>,
}

/// What the DNS provider answered when asked for its zones.
pub struct ZonesReply {
    /// Whether it says that it succeeded.
    pub success: Option<bool>,
    /// The zones.
    pub zones: Option<Vec<Zone>>,
    /// What it says went wrong.
    pub errors: String,
}

/// What the DNS provider answered when a record was added.
pub struct RecordReply {
    /// Whether it says that it succeeded.
    pub success: Option<bool>,
    /// The identifier of the record.
    pub id: Option<String>,
    /// What it says went wrong.
    pub errors: String,
}

/// An optional text; the empty one where there is none.
pub open spec fn or_empty(s: Option<Seq<char>>) -> Seq<char> {
    match s {
        Some(t) => t,
        None => ""@,
    }
}

/// Whether a domain is in a zone: its name ends with that of the zone.
pub open spec fn in_zone(base: Seq<char>, zone: Zone) -> bool {
    text::has_suffix(base, or_empty(config::opt_view(zone.name)))
}

/// The number of the first zone that a domain is in, or the number of zones where it is in none.
pub open spec fn first_zone(base: Seq<char>, zones: Seq<Zone>) -> int
    decreases zones.len(),
{
    if zones.len() == 0 || in_zone(base, zones[0]) {
        0
    } else {
        1 + first_zone(base, zones.drop_first())
    }
}

/// The first zone that a domain is in is the only one with none before it.
proof fn lemma_first_zone_is(base: Seq<char>, zones: Seq<Zone>, i: int)
    requires
        0 <= i <= zones.len(),
        i < zones.len() ==> in_zone(base, zones[i]),
        forall|j: int| 0 <= j < i ==> !in_zone(base, #[trigger] zones[j]),
    ensures
        first_zone(base, zones) == i,
    decreases zones.len(),
{
    if i > 0 {
        let t = zones.drop_first();
        assert(!in_zone(base, zones[0]));
        assert forall|j: int| 0 <= j < i - 1 implies !in_zone(base, #[trigger] t[j]) by {
            assert(t[j] == zones[j + 1]);
        }
        lemma_first_zone_is(base, t, i - 1);
    }
}

/// The identifier of the zone of a domain, which may be missing, or what is wrong.
pub open spec fn zone_of(domain: Seq<char>, reply: ZonesReply) -> Result<
    Option<Seq<char>>,
    Seq<char>,
> {
    let base = base_domain(domain);
    if reply.success != Some(true) {
        Err("Cloudflare API error: "@ + reply.errors@)
    } else if reply.zones is None {
        Err("No zones found"@)
    } else if first_zone(base, reply.zones->0@) < reply.zones->0@.len() {
        Ok(config::opt_view(reply.zones->0@[first_zone(base, reply.zones->0@)].id))
    } else {
        Err("Zone not found for domain: "@ + base)
    }
}

/// What a result with an optional text holds.
pub open spec fn opt_outcome(r: Result<Option<String>, String>) -> Result<
    Option<Seq<char>>,
    Seq<char>,
> {
    match r {
        Ok(id) => Ok(config::opt_view(id)),
        Err(message) => Err(message@),
    }
}

/// What a result with a text holds.
pub open spec fn text_outcome(r: Result<String, String>) -> Result<Seq<char>, Seq<char>> {
    match r {
        Ok(s) => Ok(s@),
        Err(message) => Err(message@),
    }
}

/// The identifier of the zone of `domain`, which may be missing.
pub fn choose_zone(domain: &str, reply: &ZonesReply) -> (r: Result<Option<String>, String>)
    ensures
        opt_outcome(r) == zone_of(domain@, *reply),
        reply.success != Some(true) ==> (r matches Err(message) && message@
            == "Cloudflare API error: "@ + reply.errors@),
        reply.success == Some(true) && reply.zones is None ==> (r matches Err(message) && message@
            == "No zones found"@),
{
    let base: String = strip_wildcard(domain);
    match reply.success {
        Some(true) => {},
        _ => {
            return Err(text::cat("Cloudflare API error: ", reply.errors.as_str()));
        },
    }
    let zones: &Vec<Zone> = match &reply.zones {
        Some(list) => list,
        None => {
            return Err("No zones found".to_owned());
        },
    };
    let mut i: usize = 0;
    while i < zones.len()
        invariant
            i <= zones@.len(),
            base@ == base_domain(domain@),
            reply.success == Some(true),
            reply.zones is Some,
            *zones == reply.zones->0,
            forall|j: int| 0 <= j < i ==> !in_zone(base@, #[trigger] zones@[j]),
        decreases zones@.len() - i,
    {
        let inside: bool = match &zones[i].name {
            Some(name) => text::ends_with(base.as_str(), name.as_str()),
            None => text::ends_with(base.as_str(), ""),
        };
        if inside {
            proof {
                lemma_first_zone_is(base@, zones@, i as int);
            }
            return match &zones[i].id {
                Some(id) => Ok(Some(id.clone())),
                None => Ok(None),
            };
        }
        i += 1;
    }
    proof {
        lemma_first_zone_is(base@, zones@, i as int);
    }
    Err(text::cat("Zone not found for domain: ", base.as_str()))
}

/// The identifier of a record that was added.
pub fn record_added(reply: &RecordReply) -> (r: Result<String, String>)
    ensures
        text_outcome(r) == (if reply.success == Some(true) {
            Ok::<Seq<char>, Seq<char>>(or_empty(config::opt_view(reply.id)))
        } else {
            Err("Cloudflare API error: "@ + reply.errors@)
        }),
        r is Ok <==> reply.success == Some(true),
        r matches Ok(id) ==> id@ == (match reply.id {
            Some(given) => given@,
            None => ""@,
        }),
        r matches Err(message) ==> message@ == "Cloudflare API error: "@ + reply.errors@,
{
    match reply.success {
        Some(true) => match &reply.id {
            Some(id) => Ok(id.clone()),
            None => Ok("".to_owned()),
        },
        _ => Err(text::cat("Cloudflare API error: ", reply.errors.as_str())),
    }
}

/// Where records are added to a zone.
pub fn records_url(zone_id: &str) -> (r: String)
    ensures
        r@ == "https://api.cloudflare.com/client/v4/zones/"@ + zone_id@ + "/dns_records"@,
{
    text::cat(
        text::cat("https://api.cloudflare.com/client/v4/zones/", zone_id).as_str(),
        "/dns_records",
    )
}

/// Where a record of a zone is deleted.
pub fn record_url(zone_id: &str, record_id: &str) -> (r: String)
    ensures
        r@ == "https://api.cloudflare.com/client/v4/zones/"@ + zone_id@ + "/dns_records"@ + "/"@
            + record_id@,
{
    text::cat(text::cat(records_url(zone_id).as_str(), "/").as_str(), record_id)
}

/// The value of the header that authorizes a request to the DNS provider.
pub fn bearer(api_token: &str) -> (r: String)
    ensures
        r@ == "Bearer "@ + api_token@,
{
    text::cat("Bearer ", api_token)
}

/// The character that stands for six bits.
pub open spec fn base64_char(v: int) -> char {
    if v < 26 {
        ('A' as int + v) as char
    } else if v < 52 {
        ('a' as int + (v - 26)) as char
    } else if v < 62 {
        ('0' as int + (v - 52)) as char
    } else if v == 62 {
        '-'
    } else {
        '_'
    }
}

/// Group `i` of six bits of `data`, which is continued with zeros.
pub open spec fn six_bits(data: Seq<u8>, i: int) -> int {
    let at = 6 * i / 8;
    let next = if at + 1 < data.len() {
        data[at + 1] as int
    } else {
        0
    };
    let pair = data[at] as int * 256 + next;
    let shift = 6 * i % 8;
    (if shift == 0 {
        pair / 1024
    } else if shift == 2 {
        pair / 256
    } else if shift == 4 {
        pair / 64
    } else {
        pair / 16
    }) % 64
}

/// The form of some bytes in the URL-safe alphabet of base64, without padding.
pub open spec fn base64_url(data: Seq<u8>) -> Seq<char> {
    Seq::new((8 * data.len() + 5) as nat / 6, |i: int| base64_char(six_bits(data, i)))
}

/// `base64::Engine::encode` of the engine `URL_SAFE_NO_PAD`: each six bits of the data as a
/// character of the URL-safe alphabet, without padding. It panics where the length of that
/// overflows.
#[verifier::external_body]
fn base64_url_encode(data: &[u8]) -> (r: String)
    requires
        data@.len() <= 0x1000_0000,
    ensures
        r@ == base64_url(data@),
{
    base64::engine::general_purpose::URL_SAFE_NO_PAD.encode(data)
}

/// What is put into the DNS to answer a challenge with a key authorization.
pub open spec fn challenge_value(key_auth: Seq<u8>) -> Seq<char> {
    base64_url(crypto::sha256_digest(key_auth))
}

/// What is put into the DNS to answer a challenge with a key authorization.
pub fn dns01_txt_value(key_auth: &str) -> (r: String)
    ensures
        r@ == challenge_value(key_auth.spec_bytes()),
        r@ == base64_url(crypto::sha256_digest(key_auth.spec_bytes())),
        r@.len() == 43,
{
    let digest: [u8; 32] = crypto::sha256(key_auth.as_bytes());
    base64_url_encode(digest.as_slice())
}

/// A record that answers a challenge.
pub struct TxtRecord {
    /// Its name.
    pub name: String,
    /// Its content.
    pub content: String,
    /// For how many seconds it may be cached.
    pub ttl: u32,
}

/// The record that answers the challenge for `domain` with a key authorization.
pub fn challenge_record(domain: &str, key_auth: &str) -> (r: TxtRecord)
    ensures
        r.name@ == "_acme-challenge."@ + text::without_wildcards(domain@),
        r.content@ == challenge_value(key_auth.spec_bytes()),
        r.content@ == base64_url(crypto::sha256_digest(key_auth.spec_bytes())),
        r.ttl == RECORD_TTL,
{
    TxtRecord {
        name: text::cat("_acme-challenge.", text::remove_wildcards(domain).as_str()),
        content: dns01_txt_value(key_auth),
        ttl: RECORD_TTL,
    }
}

/// A way to show that one holds a domain.
#[derive(Clone, Copy, Debug, PartialEq, Eq, Structural)]
pub enum ChallengeKind {
    /// Over HTTP.
    Http01,
    /// In the DNS.
    Dns01,
    /// Over TLS.
    TlsAlpn01,
    /// Any other.
    Unknown,
}

/// The first challenge that is answered in the DNS.
pub fn dns01_challenge(kinds: &[ChallengeKind]) -> (r: Result<usize, String>)
    ensures
        r matches Ok(i) ==> {
            &&& i < kinds@.len()
            &&& kinds@[i as int] is Dns01
            &&& forall|j: int| 0 <= j < i ==> !(#[trigger] kinds@[j] is Dns01)
        },
        r is Err <==> forall|j: int| 0 <= j < kinds@.len() ==> !(#[trigger] kinds@[j] is Dns01),
        r matches Err(message) ==> message@ == "No DNS-01 challenge found"@,
{
    let mut i: usize = 0;
    while i < kinds.len()
        invariant
            i <= kinds@.len(),
            forall|j: int| 0 <= j < i ==> !(#[trigger] kinds@[j] is Dns01),
        decreases kinds@.len() - i,
    {
        if kinds[i] == ChallengeKind::Dns01 {
            return Ok(i);
        }
        i += 1;
    }
    Err("No DNS-01 challenge found".to_owned())
}

/// What certificates are provisioned with.
pub struct AcmePlan {
    /// How the holder of the account is reached.
    pub contact: String,
    /// The domain whose zone the records of challenges go to.
    pub zone_domain: String,
    /// The token for the DNS provider.
    pub api_token: String,
}

/// What is wrong with a configuration, as far as provisioning goes.
pub open spec fn plan_error(cfg: ServerConfig) -> Option<Seq<char>> {
    if cfg.acme_domains is None {
        Some("acme_domains missing"@)
    } else if cfg.cloudflare_api_token is None {
        Some("cloudflare_api_token missing"@)
    } else {
        None
    }
}

/// What certificates are provisioned with, or what the configuration lacks.
pub fn acme_plan(cfg: &ServerConfig) -> (r: Result<AcmePlan, String>)
    requires
        plan_error(*cfg) is None ==> cfg.acme_domains->0@.len() > 0,
    ensures
        r is Err <==> plan_error(*cfg) is Some,
        r matches Err(message) ==> plan_error(*cfg) == Some(message@),
        r is Err <==> cfg.acme_domains is None || cfg.cloudflare_api_token is None,
        r matches Err(message) ==> message@ == (if cfg.acme_domains is None {
            "acme_domains missing"@
        } else {
            "cloudflare_api_token missing"@
        }),
        r matches Ok(plan) ==> {
            let first = cfg.acme_domains->0@[0]@;
            &&& plan.contact@ == "mailto:"@ + ("admin@"@ + text::without_wildcards(first))
            &&& plan.zone_domain@ == first
            &&& plan.api_token@ == cfg.cloudflare_api_token->0@
        },
{
    let domains: &Vec<String> = match &cfg.acme_domains {
        Some(list) => list,
        None => {
            return Err("acme_domains missing".to_owned());
        },
    };
    let token: &String = match &cfg.cloudflare_api_token {
        Some(token) => token,
        None => {
            return Err("cloudflare_api_token missing".to_owned());
        },
    };
    let first: &String = &domains[0];
    let email: String = text::cat("admin@", text::remove_wildcards(first.as_str()).as_str());
    Ok(
        AcmePlan {
            contact: text::cat("mailto:", email.as_str()),
            zone_domain: first.clone(),
            api_token: token.clone(),
        },
    )
}

/// The status of an order.
#[derive(Clone, Copy, Debug, PartialEq, Eq, Structural)]
pub enum OrderStatus {
    /// Challenges have not all been validated.
    Pending,
    /// The order can be finalized.
    Ready,
    /// The certificate is being issued.
    Processing,
    /// The certificate has been issued.
    Valid,
    /// The order has failed.
    Invalid,
}

/// How far an order has come.
#[derive(Clone, Copy, Debug, PartialEq, Eq, Structural)]
pub enum OrderPhase {
    /// The challenges are being validated.
    Validating,
    /// The order was finalized, and the certificate is being issued.
    Issuing,
    /// The certificate can be fetched.
    Done,
    /// The order has failed.
    Failed,
}

/// What to do after a look at an order.
#[derive(Clone, Copy, Debug, PartialEq, Eq, Structural)]
pub enum OrderAction {
    /// Wait, and look again.
    Wait,
    /// Delete the records of the challenges, and finalize the order.
    Finalize,
    /// Delete the records of the challenges, and give up.
    GiveUp,
    /// Fetch the certificate.
    Fetch,
}

impl OrderPhase {
    /// The phase after a look at an order, and what to do.
    pub open spec fn step(&self, status: OrderStatus) -> (OrderPhase, OrderAction) {
        match self {
            OrderPhase::Validating => match status {
                OrderStatus::Ready | OrderStatus::Valid => (
                    OrderPhase::Issuing,
                    OrderAction::Finalize,
                ),
                OrderStatus::Invalid => (OrderPhase::Failed, OrderAction::GiveUp),
                _ => (OrderPhase::Validating, OrderAction::Wait),
            },
            OrderPhase::Issuing => match status {
                OrderStatus::Valid => (OrderPhase::Done, OrderAction::Fetch),
                _ => (OrderPhase::Issuing, OrderAction::Wait),
            },
            _ => (*self, OrderAction::Wait),
        }
    }

    /// Tells what to do after a look at an order.
    pub fn observe(&mut self, status: OrderStatus) -> (r: OrderAction)
        ensures
            (*final(self), r) == old(self).step(status),
    {
        match *self {
            OrderPhase::Validating => match status {
                OrderStatus::Ready | OrderStatus::Valid => {
                    *self = OrderPhase::Issuing;
                    OrderAction::Finalize
                },
                OrderStatus::Invalid => {
                    *self = OrderPhase::Failed;
                    OrderAction::GiveUp
                },
                OrderStatus::Pending | OrderStatus::Processing => OrderAction::Wait,
            },
            OrderPhase::Issuing => match status {
                OrderStatus::Valid => {
                    *self = OrderPhase::Done;
                    OrderAction::Fetch
                },
                _ => OrderAction::Wait,
            },
            _ => OrderAction::Wait,
        }
    }
}

/// The phase of an order after some looks at it, and what was done.
pub open spec fn order_run(statuses: Seq<OrderStatus>) -> (OrderPhase, Seq<OrderAction>)
    decreases statuses.len(),
{
    if statuses.len() == 0 {
        (OrderPhase::Validating, Seq::empty())
    } else {
        let before = order_run(statuses.drop_last());
        let next = before.0.step(statuses.last());
        (next.0, before.1.push(next.1))
    }
}

/// Whether an action deletes the records of the challenges.
pub open spec fn cleans_up(action: OrderAction) -> bool {
    action is Finalize || action is GiveUp
}

/// However an order goes, the records of the challenges are deleted once at most, and have been
/// deleted once it is no longer being validated; a certificate is fetched only after the order
/// was finalized, and never after it was given up.
pub proof fn lemma_order_run(statuses: Seq<OrderStatus>, i: int, j: int)
    ensures
        ({
            let (phase, actions) = order_run(statuses);
            &&& actions.len() == statuses.len()
            &&& phase is Validating ==> (0 <= i < actions.len() ==> actions[i] is Wait)
            &&& (0 <= i < j < actions.len() && cleans_up(actions[i])) ==> !cleans_up(actions[j])
            &&& !(phase is Validating) ==> exists|k: int|
                0 <= k < actions.len() && #[trigger] cleans_up(actions[k])
            &&& (0 <= i < actions.len() && actions[i] is Fetch) ==> phase is Done && exists|k: int|
                0 <= k < i && #[trigger] actions[k] is Finalize
            &&& phase is Failed ==> (0 <= i < actions.len() ==> !(actions[i] is Finalize)
                && !(actions[i] is Fetch))
            &&& phase is Issuing || phase is Done ==> exists|k: int|
                0 <= k < actions.len() && #[trigger] actions[k] is Finalize
        }),
    decreases statuses.len(),
{
    if statuses.len() > 0 {
        let init = statuses.drop_last();
        let (phase, actions) = order_run(statuses);
        let (before, done) = order_run(init);
        let n = done.len() as int;
        lemma_order_run(init, i, j);
        lemma_order_run(init, i, 0);
        if 0 <= i < n {
            assert(actions[i] == done[i]);
        }
        if 0 <= j < n {
            assert(actions[j] == done[j]);
        }
        assert(actions[n] == before.step(statuses.last()).1);
        if !(before is Validating) {
            let k = choose|k: int| 0 <= k < done.len() && #[trigger] cleans_up(done[k]);
            assert(cleans_up(actions[k]));
        } else if !(phase is Validating) {
            assert(cleans_up(actions[n]));
        }
        if before is Issuing || before is Done {
            let k = choose|k: int| 0 <= k < done.len() && #[trigger] done[k] is Finalize;
            assert(actions[k] is Finalize);
        } else if phase is Issuing {
            assert(actions[n] is Finalize);
        }
        if 0 <= i < n && done[i] is Fetch {
            let k = choose|k: int| 0 <= k < i && #[trigger] done[k] is Finalize;
            assert(actions[k] is Finalize);
        }
        if 0 <= i < n && cleans_up(done[i]) {
            assert(!(before is Validating));
        }
    }
}

/// A wildcard domain and the domain that it is for are in the same zone.
pub proof fn lemma_wildcard_shares_zone(domain: Seq<char>, reply: ZonesReply)
    requires
        !text::has_prefix(domain, "*."@),
    ensures
        zone_of("*."@ + domain, reply) == zone_of(domain, reply),
{
    reveal_strlit("*.");
    assert(("*."@ + domain).take(2) =~= "*."@);
    assert(("*."@ + domain).skip(2) =~= domain);
}

/// A wildcard domain and the domain that it is for are answered for in the same record.
pub proof fn lemma_wildcard_shares_record(domain: Seq<char>)
    ensures
        text::without_wildcards("*."@ + domain) == text::without_wildcards(domain),
{
    reveal_strlit("*.");
    assert(("*."@ + domain).skip(2) =~= domain);
}

/// The zone that is chosen is one that the domain is in, and no zone before it is.
pub proof fn lemma_zone_is_first_match(domain: Seq<char>, reply: ZonesReply, j: int)
    requires
        zone_of(domain, reply) is Ok,
    ensures
        ({
            let base = base_domain(domain);
            let zones = reply.zones->0@;
            let i = first_zone(base, zones);
            &&& 0 <= i < zones.len()
            &&& in_zone(base, zones[i])
            &&& zone_of(domain, reply) == Ok::<Option<Seq<char>>, Seq<char>>(
                config::opt_view(zones[i].id),
            )
            &&& 0 <= j < i ==> !in_zone(base, zones[j])
        }),
{
    lemma_first_zone(base_domain(domain), reply.zones->0@, j);
}

/// What `first_zone` is.
proof fn lemma_first_zone(base: Seq<char>, zones: Seq<Zone>, j: int)
    ensures
        0 <= first_zone(base, zones) <= zones.len(),
        first_zone(base, zones) < zones.len() ==> in_zone(base, zones[first_zone(base, zones)]),
        0 <= j < first_zone(base, zones) ==> !in_zone(base, zones[j]),
    decreases zones.len(),
{
    if zones.len() > 0 && !in_zone(base, zones[0]) {
        lemma_first_zone(base, zones.drop_first(), j - 1);
    }
}

/// A zone is that of a domain where the domain ends with its name; the first such zone is taken, a
/// zone without a name is that of every domain, and a leading `*.` of the domain does not count.
pub proof fn lemma_zone_by_suffix(
    domain: Seq<char>,
    rest: Seq<char>,
    reply: ZonesReply,
    i: int,
)
    requires
        reply.success == Some(true),
        reply.zones is Some,
        0 <= i < reply.zones->0@.len(),
        !text::has_prefix(domain, "*."@),
        forall|j: int, head: Seq<char>|
            0 <= j < i && (#[trigger] reply.zones->0@[j]).name is Some ==> domain != #[trigger] (head
                + reply.zones->0@[j].name->0@),
        forall|j: int| 0 <= j < i ==> (#[trigger] reply.zones->0@[j]).name is Some,
        reply.zones->0@[i].name matches Some(name) ==> domain == rest + name@,
    ensures
        zone_of(domain, reply) == Ok::<Option<Seq<char>>, Seq<char>>(
            config::opt_view(reply.zones->0@[i].id),
        ),
        zone_of("*."@ + domain, reply) == zone_of(domain, reply),
{
    let zones = reply.zones->0@;
    assert forall|j: int| 0 <= j < i implies !in_zone(domain, #[trigger] zones[j]) by {
        let name = zones[j].name->0@;
        text::lemma_prefix_and_suffix(name, rest, domain);
        let head = domain.take(domain.len() - name.len());
        assert(domain != head + name);
    }
    reveal_strlit("");
    match zones[i].name {
        Some(name) => {
            text::lemma_prefix_and_suffix(name@, rest, domain);
        },
        None => {
            assert(domain.skip(domain.len() as int) =~= ""@);
        },
    }
    assert(in_zone(domain, zones[i]));
    lemma_first_zone_is(domain, zones, i);
    lemma_wildcard_shares_zone(domain, reply);
}

/// Where a domain ends with the name of no zone, there is none for it, and the answer names it.
pub proof fn lemma_no_zone(domain: Seq<char>, reply: ZonesReply)
    requires
        reply.success == Some(true),
        reply.zones is Some,
        !text::has_prefix(domain, "*."@),
        forall|j: int| 0 <= j < reply.zones->0@.len() ==> (#[trigger] reply.zones->0@[j]).name is Some,
        forall|j: int, head: Seq<char>|
            0 <= j < reply.zones->0@.len() ==> domain != #[trigger] (head
                + (#[trigger] reply.zones->0@[j]).name->0@),
    ensures
        zone_of(domain, reply) == Err::<Option<Seq<char>>, Seq<char>>(
            "Zone not found for domain: "@ + domain,
        ),
        zone_of("*."@ + domain, reply) == zone_of(domain, reply),
{
    let zones = reply.zones->0@;
    assert forall|j: int| 0 <= j < zones.len() implies !in_zone(domain, #[trigger] zones[j]) by {
        let name = zones[j].name->0@;
        text::lemma_prefix_and_suffix(name, Seq::empty(), domain);
        let head = domain.take(domain.len() - name.len());
        assert(domain != head + name);
    }
    lemma_first_zone_is(domain, zones, zones.len() as int);
    lemma_wildcard_shares_zone(domain, reply);
}

/// What is done at an order, by what it is waited for: it is finalized once it is ready (or valid
/// already), given up once it is invalid, and its certificate is fetched once it is valid after
/// that; at every other look it is waited on.
pub proof fn lemma_order_actions(status: OrderStatus)
    ensures
        OrderPhase::Validating.step(status).1 is Finalize <==> status is Ready || status is Valid,
        OrderPhase::Validating.step(status).1 is GiveUp <==> status is Invalid,
        OrderPhase::Validating.step(status).1 is Wait <==> status is Pending || status is Processing,
        OrderPhase::Issuing.step(status).1 is Fetch <==> status is Valid,
        OrderPhase::Issuing.step(status).1 is Wait <==> !(status is Valid),
        OrderPhase::Validating.step(status).0 is Issuing <==> status is Ready || status is Valid,
        OrderPhase::Validating.step(status).0 is Failed <==> status is Invalid,
        OrderPhase::Validating.step(status).0 is Validating <==> status is Pending
            || status is Processing,
        OrderPhase::Issuing.step(status).0 is Done <==> status is Valid,
        OrderPhase::Issuing.step(status).0 is Issuing <==> !(status is Valid),
        OrderPhase::Done.step(status) == (OrderPhase::Done, OrderAction::Wait),
        OrderPhase::Failed.step(status) == (OrderPhase::Failed, OrderAction::Wait),
{
}

/// One leading `*.` of a domain is left out, and nothing else of it.
pub proof fn lemma_one_wildcard_is_left_out(domain: Seq<char>)
    ensures
        base_domain("*."@ + domain) == domain,
        (forall|rest: Seq<char>| domain != #[trigger] ("*."@ + rest)) ==> base_domain(domain) == domain,
{
    reveal_strlit("*.");
    text::lemma_prefix_and_suffix("*."@, domain, domain);
    assert(("*."@ + domain).skip(2) =~= domain);
    if text::has_prefix(domain, "*."@) {
        assert(domain == "*."@ + domain.skip(2));
    }
}

} // verus!
