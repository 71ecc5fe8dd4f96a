//! The server: which requests open a tunnel, and how the others are answered.
use crate::client;
use crate::config;
use crate::config::{Route, ServerConfig};
use crate::net_utils;
use crate::routing;
use crate::sessions::PeerAddr;
use crate::string_map::StringMap;
use crate::text;
use vstd::prelude::*;
use vstd::string::*;
use vstd::utf8::*;

verus! {

/// What of a request decides how it is answered.
pub struct RequestHead {
    /// The path.
    pub path: String,
    /// The path and the query, where there is one.
    pub path_and_query: Option<String>,
    /// The value of the header `x-tunnel-target`.
    pub target: Option<Vec<u8>>,
    /// The value of the header `x-tunnel-secret`.
    pub secret: Option<Vec<u8>>,
    /// The value of the header `x-tunnel-protocol`.
    pub protocol: Option<Vec<u8>>,
}

/// What of a request decides how it is answered.
#[verifier::ext_equal]
pub struct HeadSpec {
    /// The path.
    pub path: Seq<char>,
    /// The path and the query, where there is one.
    pub path_and_query: Option<Seq<char>>,
    /// The value of the header `x-tunnel-target`.
    pub target: Option<Seq<u8>>,
    /// The value of the header `x-tunnel-secret`.
    pub secret: Option<Seq<u8>>,
    /// The value of the header `x-tunnel-protocol`.
    pub protocol: Option<Seq<u8>>,
}

/// How a request is answered.
pub enum RequestPlan {
    /// With a tunnel to `target`, for datagrams or for a stream.
    Tunnel {
        /// Where the tunnel goes.
        target: String,
        /// Whether it carries datagrams.
        udp: bool,
    },
    /// With what the site at this address answers.
    Proxy(String),
    /// With this file.
    Page(String),
    /// With a status that nothing was found.
    NotFound,
}

/// How a request is answered.
#[verifier::ext_equal]
pub enum PlanSpec {
    /// With a tunnel to `target`, for datagrams or for a stream.
    Tunnel {
        /// Where the tunnel goes.
        target: Seq<char>,
        /// Whether it carries datagrams.
        udp: bool,
    },
    /// With what the site at this address answers.
    Proxy(Seq<char>),
    /// With this file.
    Page(Seq<char>),
    /// With a status that nothing was found.
    NotFound,
}

/// The bytes of an optional vector.
pub open spec fn opt_bytes(v: Option<Vec<u8>>) -> Option<Seq<u8>> {
    match v {
        Some(b) => Some(b@),
        None => None,
    }
}

impl View for RequestHead {
    type V = HeadSpec;

    open spec fn view(&self) -> HeadSpec {
        HeadSpec {
            path: self.path@,
            path_and_query: config::opt_view(self.path_and_query),
            target: opt_bytes(self.target),
            secret: opt_bytes(self.secret),
            protocol: opt_bytes(self.protocol),
        }
    }
}

impl View for RequestPlan {
    type V = PlanSpec;

    open spec fn view(&self) -> PlanSpec {
        match self {
            RequestPlan::Tunnel { target, udp } => PlanSpec::Tunnel { target: target@, udp: *udp },
            RequestPlan::Proxy(url) => PlanSpec::Proxy(url@),
            RequestPlan::Page(path) => PlanSpec::Page(path@),
            RequestPlan::NotFound => PlanSpec::NotFound,
        }
    }
}

/// A byte that a header value may hold to be read as text: visible ASCII, a space or a tab.
pub open spec fn is_header_byte(b: u8) -> bool {
    32 <= b < 127 || b == 9
}

/// Bytes as characters of the same value.
pub open spec fn ascii_chars(bytes: Seq<u8>) -> Seq<char> {
    Seq::new(bytes.len(), |i: int| bytes[i] as char)
}

/// A header value as text; nothing where it holds anything but visible ASCII, spaces and tabs.
pub open spec fn header_chars(value: Seq<u8>) -> Option<Seq<char>> {
    if forall|i: int| 0 <= i < value.len() ==> is_header_byte(#[trigger] value[i]) {
        Some(ascii_chars(value))
    } else {
        None
    }
}

/// ASCII bytes are the UTF-8 form of the characters of the same value.
proof fn lemma_ascii_is_utf8(bytes: Seq<u8>)
    requires
        forall|i: int| 0 <= i < bytes.len() ==> #[trigger] bytes[i] < 128,
    ensures
        encode_utf8(ascii_chars(bytes)) == bytes,
        valid_utf8(bytes),
{
    let chars = ascii_chars(bytes);
    assert(is_ascii_chars(chars)) by {
        assert forall|i: int| 0 <= i < chars.len() implies 0 <= (#[trigger] chars[i]) as nat <= 127 by {
            assert(bytes[i] < 128);
        }
    }
    is_ascii_chars_encode_utf8(chars);
    assert(encode_utf8(chars) =~= bytes);
    encode_utf8_valid_utf8(chars);
}

/// A header value as text.
pub fn header_text(value: &[u8]) -> (r: Option<String>)
    ensures
        config::opt_view(r) == header_chars(value@),
{
    let mut i: usize = 0;
    while i < value.len()
        invariant
            i <= value@.len(),
            forall|j: int| 0 <= j < i ==> is_header_byte(#[trigger] value@[j]),
        decreases value@.len() - i,
    {
        let b: u8 = value[i];
        if !((32 <= b && b < 127) || b == 9) {
            proof {
                assert(!is_header_byte(value@[i as int]));
            }
            return None;
        }
        i += 1;
    }
    proof {
        assert forall|j: int| 0 <= j < value@.len() implies #[trigger] value@[j] < 128 by {
            assert(is_header_byte(value@[j]));
        }
        lemma_ascii_is_utf8(value@);
        encode_utf8_decode_utf8(ascii_chars(value@));
    }
    match text::utf8_text(value) {
        Some(s) => {
            proof {
                encode_utf8_decode_utf8(s@);
            }
            Some(s.to_owned())
        },
        None => None,
    }
}

/// The target that a request asks for a tunnel to: its path is the hidden one, and its secret is
/// the right one.
pub open spec fn tunnel_target(
    hidden_path: Seq<char>,
    secret: Option<Seq<char>>,
    head: HeadSpec,
) -> Option<Seq<char>> {
    if head.path == hidden_path && head.secret is Some && header_chars(head.secret->0) == Some(
        client::secret_of(secret),
    ) && head.target is Some {
        header_chars(head.target->0)
    } else {
        None
    }
}

/// Where a tunnel to `target` goes: a port alone is one of this machine.
pub open spec fn resolved_target(target: Seq<char>) -> Seq<char> {
    if target.contains(':') {
        target
    } else {
        "127.0.0.1:"@ + target
    }
}

/// Whether `value` is `udp`.
pub open spec fn is_udp(value: Option<Seq<u8>>) -> bool {
    value == Some(seq![0x75u8, 0x64u8, 0x70u8])
}

/// How a request that opens no tunnel is answered.
pub open spec fn camouflage(site: Option<Seq<char>>, path_and_query: Option<Seq<char>>) -> PlanSpec {
    match site {
        Some(camo) => if text::has_prefix(camo, "http://"@) || text::has_prefix(camo, "https://"@) {
            PlanSpec::Proxy(
                camo + match path_and_query {
                    Some(pq) => pq,
                    None => "/"@,
                },
            )
        } else {
            PlanSpec::Page(camo)
        },
        None => PlanSpec::NotFound,
    }
}

/// How a request is answered.
pub open spec fn plan_of(
    hidden_path: Seq<char>,
    secret: Option<Seq<char>>,
    site: Option<Seq<char>>,
    head: HeadSpec,
) -> PlanSpec {
    match tunnel_target(hidden_path, secret, head) {
        Some(target) => PlanSpec::Tunnel {
            target: resolved_target(target),
            udp: is_udp(head.protocol),
        },
        None => camouflage(site, head.path_and_query),
    }
}

/// The target that a request asks for a tunnel to.
fn requested_target(cfg: &ServerConfig, head: &RequestHead) -> (r: Option<String>)
    ensures
        config::opt_view(r) == tunnel_target(
            cfg.hidden_path@,
            config::opt_view(cfg.secret),
            head@,
        ),
{
    if !text::str_eq(head.path.as_str(), cfg.hidden_path.as_str()) {
        return None;
    }
    let given: String = match &head.secret {
        Some(value) => match header_text(value.as_slice()) {
            Some(s) => s,
            None => {
                return None;
            },
        },
        None => {
            return None;
        },
    };
    let right: bool = match &cfg.secret {
        Some(secret) => text::str_eq(given.as_str(), secret.as_str()),
        None => text::str_eq(given.as_str(), ""),
    };
    if !right {
        return None;
    }
    match &head.target {
        Some(value) => header_text(value.as_slice()),
        None => None,
    }
}

/// Whether `value` is `udp`.
fn asks_for_datagrams(value: &Option<Vec<u8>>) -> (r: bool)
    ensures
        r == is_udp(opt_bytes(*value)),
{
    match value {
        Some(v) => {
            let name: [u8; 3] = [0x75, 0x64, 0x70];
            proof {
                assert(name@ =~= seq![0x75u8, 0x64u8, 0x70u8]);
            }
            text::bytes_eq(v.as_slice(), name.as_slice())
        },
        None => false,
    }
}

/// How a request that opens no tunnel is answered.
fn camouflaged(cfg: &ServerConfig, path_and_query: &Option<String>) -> (r: RequestPlan)
    ensures
        r@ == camouflage(
            config::opt_view(cfg.camouflage_target),
            config::opt_view(*path_and_query),
        ),
{
    match &cfg.camouflage_target {
        Some(camo) => {
            if text::starts_with(camo.as_str(), "http://") || text::starts_with(
                camo.as_str(),
                "https://",
            ) {
                match path_and_query {
                    Some(pq) => RequestPlan::Proxy(text::cat(camo.as_str(), pq.as_str())),
                    None => RequestPlan::Proxy(text::cat(camo.as_str(), "/")),
                }
            } else {
                RequestPlan::Page(camo.clone())
            }
        },
        None => RequestPlan::NotFound,
    }
}

/// How a request is answered.
pub fn plan_request(cfg: &ServerConfig, head: &RequestHead) -> (r: RequestPlan)
    ensures
        r@ == plan_of(
            cfg.hidden_path@,
            config::opt_view(cfg.secret),
            config::opt_view(cfg.camouflage_target),
            head@,
        ),
{
    match requested_target(cfg, head) {
        Some(target) => {
            let udp: bool = asks_for_datagrams(&head.protocol);
            if text::has_char(target.as_str(), ':') {
                RequestPlan::Tunnel { target, udp }
            } else {
                RequestPlan::Tunnel { target: text::cat("127.0.0.1:", target.as_str()), udp }
            }
        },
        None => camouflaged(cfg, &head.path_and_query),
    }
}

/// The lower-case form of an ASCII letter; any other character as it is.
pub open spec fn lower(c: char) -> char {
    if 'A' <= c <= 'Z' {
        (c as int + 32) as char
    } else {
        c
    }
}

/// `s` with its ASCII letters in lower case.
pub open spec fn lowered(s: Seq<char>) -> Seq<char> {
    Seq::new(s.len(), |i: int| lower(s[i]))
}

/// Whether a header of a site's answer is passed on. Those that belong to the connection that
/// the answer came on are not.
pub open spec fn is_forwarded(name: Seq<char>) -> bool {
    &&& lowered(name) != "transfer-encoding"@
    &&& lowered(name) != "connection"@
    &&& lowered(name) != "content-length"@
}

/// Whether `s` is `name` but for the case of ASCII letters; `name` has none in upper case.
fn is_named(s: &str, name: &str) -> (r: bool)
    ensures
        r == (lowered(s@) == name@),
{
    let a: Vec<char> = text::chars_of(s);
    let b: Vec<char> = text::chars_of(name);
    if a.len() != b.len() {
        return false;
    }
    let mut i: usize = 0;
    while i < a.len()
        invariant
            a@ == s@,
            b@ == name@,
            a@.len() == b@.len(),
            i <= a@.len(),
            forall|j: int| 0 <= j < i ==> lower(#[trigger] a@[j]) == b@[j],
        decreases a@.len() - i,
    {
        let c: char = a[i];
        let d: char = b[i];
        proof {
            char_u32_cast(d, d as u32);
            assert('A' <= c <= 'Z' && c as u32 + 32 == d as u32 ==> lower(c) == d);
        }
        let same: bool = if 'A' <= c && c <= 'Z' {
            c as u32 + 32 == d as u32
        } else {
            c == d
        };
        if !same {
            proof {
                assert(lowered(s@)[i as int] == lower(a@[i as int]));
                assert(lower(c) != d);
            }
            return false;
        }
        i += 1;
    }
    proof {
        assert(lowered(s@) =~= name@);
    }
    true
}

/// Whether a header of a site's answer is passed on.
pub fn forwards_header(name: &str) -> (r: bool)
    ensures
        r == is_forwarded(name@),
{
    !is_named(name, "transfer-encoding") && !is_named(name, "connection") && !is_named(
        name,
        "content-length",
    )
}

/// Whether a datagram from `from` goes back through a tunnel to `target`: only replies of the
/// target do.
pub fn relays_reply(from: PeerAddr, target: PeerAddr) -> (r: bool)
    ensures
        r == (from == target),
{
    from == target
}

/// The mappings of a server.
pub open spec fn server_mappings(mappings: Option<Vec<String>>) -> Seq<String> {
    match mappings {
        Some(list) => list@,
        None => Seq::empty(),
    }
}

/// The routes of the address that a server listens on.
pub fn server_route(cfg: &ServerConfig) -> (r: Route)
    ensures
        r@ == routing::route_at(
            routing::routes_with_all(Map::empty(), server_mappings(cfg.port_mappings), None),
            cfg.bind_addr@,
        ),
        ({
            let all = routing::routes_with_all(
                Map::empty(),
                match cfg.port_mappings {
                    Some(list) => list@,
                    None => Seq::empty(),
                },
                None,
            );
            &&& all.contains_key(cfg.bind_addr@) ==> r@ == all[cfg.bind_addr@]
            &&& !all.contains_key(cfg.bind_addr@) ==> {
                &&& r@.default_upstream is None
                &&& r@.sni_rules == Map::<Seq<char>, Seq<char>>::empty()
                &&& r@.target_locations == Map::<Seq<char>, Seq<char>>::empty()
            }
        }),
{
    let mut routes: StringMap<Route> = StringMap::new();
    match &cfg.port_mappings {
        Some(list) => {
            routing::parse_port_mappings(list.as_slice(), None, &mut routes);
        },
        None => {},
    }
    match routes.get(cfg.bind_addr.as_str()) {
        Some(route) => route.clone(),
        None => Route::default(),
    }
}

/// A tunnel is opened exactly for a request to the hidden path with the right secret and a target
/// that can be read.
pub proof fn lemma_tunnel_needs_secret(
    hidden_path: Seq<char>,
    secret: Option<Seq<char>>,
    site: Option<Seq<char>>,
    head: HeadSpec,
)
    ensures
        plan_of(hidden_path, secret, site, head) is Tunnel <==> {
            &&& head.path == hidden_path
            &&& head.secret is Some
            &&& header_chars(head.secret->0) == Some(client::secret_of(secret))
            &&& head.target is Some
            &&& header_chars(head.target->0) is Some
        },
{
}

/// A request that opens no tunnel does not tell whether it hit the hidden path: it is answered
/// like any other request for the same path and query, whatever its headers are.
pub proof fn lemma_refusals_look_alike(
    hidden_path: Seq<char>,
    secret: Option<Seq<char>>,
    site: Option<Seq<char>>,
    head: HeadSpec,
    other_path: Seq<char>,
    other_secret: Option<Seq<char>>,
    other: HeadSpec,
)
    requires
        tunnel_target(hidden_path, secret, head) is None,
        tunnel_target(other_path, other_secret, other) is None,
        head.path_and_query == other.path_and_query,
    ensures
        plan_of(hidden_path, secret, site, head) == plan_of(other_path, other_secret, site, other),
        !(plan_of(hidden_path, secret, site, head) is Tunnel),
{
}

/// Whether some bytes are the ASCII form of a text that can be read from a header.
pub open spec fn spells(bytes: Seq<u8>, s: Seq<char>) -> bool {
    &&& bytes.len() == s.len()
    &&& forall|i: int|
        0 <= i < bytes.len() ==> {
            &&& (#[trigger] bytes[i]) as char == s[i]
            &&& 32 <= bytes[i] < 127 || bytes[i] == 9
        }
}

/// A header value is read as the text that its bytes spell, and not at all where they spell none.
pub proof fn lemma_header_is_what_it_spells(bytes: Seq<u8>, s: Seq<char>)
    ensures
        header_chars(bytes) == Some(s) <==> spells(bytes, s),
        (exists|i: int|
            0 <= i < bytes.len() && !(32 <= #[trigger] bytes[i] < 127 || bytes[i] == 9))
            ==> header_chars(bytes) is None,
{
    if header_chars(bytes) == Some(s) {
        assert forall|i: int| 0 <= i < bytes.len() implies (#[trigger] bytes[i]) as char == s[i] && (32
            <= bytes[i] < 127 || bytes[i] == 9) by {
            assert(is_header_byte(bytes[i]));
        }
    }
    if spells(bytes, s) {
        assert forall|i: int| 0 <= i < bytes.len() implies is_header_byte(#[trigger] bytes[i]) by {
        }
        assert(ascii_chars(bytes) =~= s);
    }
    if exists|i: int| 0 <= i < bytes.len() && !(32 <= #[trigger] bytes[i] < 127 || bytes[i] == 9) {
        let i = choose|i: int|
            0 <= i < bytes.len() && !(32 <= #[trigger] bytes[i] < 127 || bytes[i] == 9);
        assert(!is_header_byte(bytes[i]));
    }
}

/// A request with the right path, whose headers spell the secret and a target, opens a tunnel to
/// that target: to the target as it is where it holds a `:`, and to that port of this machine where it
/// holds none. It is for datagrams exactly where the protocol is spelled `udp`.
pub proof fn lemma_tunnel_goes_to_the_target(
    hidden_path: Seq<char>,
    secret: Seq<char>,
    site: Option<Seq<char>>,
    head: HeadSpec,
    target: Seq<char>,
)
    requires
        head.path == hidden_path,
        head.secret is Some,
        spells(head.secret->0, secret),
        head.target is Some,
        spells(head.target->0, target),
    ensures
        ({
            let plan = plan_of(hidden_path, Some(secret), site, head);
            &&& plan is Tunnel
            &&& target.contains(':') ==> plan->target == target
            &&& !target.contains(':') ==> plan->target == "127.0.0.1:"@ + target
            &&& plan->udp <==> head.protocol == Some(seq![0x75u8, 0x64u8, 0x70u8])
        }),
        secret.len() == 0 ==> plan_of(hidden_path, None, site, head) == plan_of(
            hidden_path,
            Some(secret),
            site,
            head,
        ),
{
    reveal_strlit("");
    lemma_header_is_what_it_spells(head.secret->0, secret);
    lemma_header_is_what_it_spells(head.target->0, target);
    if secret.len() == 0 {
        assert(secret =~= ""@);
    }
}

/// Without the right path, the right secret, or a target, no tunnel is opened; a server without a
/// secret takes the empty one for the right one.
pub proof fn lemma_nobody_else_gets_a_tunnel(
    hidden_path: Seq<char>,
    secret: Seq<char>,
    site: Option<Seq<char>>,
    head: HeadSpec,
)
    ensures
        head.path != hidden_path ==> !(plan_of(hidden_path, Some(secret), site, head) is Tunnel),
        head.secret is None ==> !(plan_of(hidden_path, Some(secret), site, head) is Tunnel),
        head.target is None ==> !(plan_of(hidden_path, Some(secret), site, head) is Tunnel),
        head.secret matches Some(bytes) ==> (!spells(bytes, secret) ==> !(plan_of(
            hidden_path,
            Some(secret),
            site,
            head,
        ) is Tunnel)),
        head.secret is None || head.secret->0.len() > 0 ==> !(plan_of(hidden_path, None, site, head) is Tunnel),
        head.path != hidden_path ==> !(plan_of(hidden_path, None, site, head) is Tunnel),
{
    reveal_strlit("");
    if head.secret is Some {
        lemma_header_is_what_it_spells(head.secret->0, secret);
        lemma_header_is_what_it_spells(head.secret->0, ""@);
    }
}

/// Whoever opens no tunnel sees the site, page by page: the request for a path and query is
/// answered with what the site has at just that, so different ones are looked up at different
/// addresses. A file is shown as it is, and without either nothing is found.
pub proof fn lemma_visitors_see_the_site(
    hidden_path: Seq<char>,
    secret: Option<Seq<char>>,
    site: Seq<char>,
    rest: Seq<char>,
    head: HeadSpec,
    other: HeadSpec,
)
    requires
        !(plan_of(hidden_path, secret, Some(site), head) is Tunnel),
        !(plan_of(hidden_path, secret, Some(site), other) is Tunnel),
    ensures
        site == "http://"@ + rest || site == "https://"@ + rest ==> {
            &&& head.path_and_query matches Some(pq) ==> plan_of(
                hidden_path,
                secret,
                Some(site),
                head,
            ) == PlanSpec::Proxy(site + pq)
            &&& head.path_and_query is None ==> plan_of(hidden_path, secret, Some(site), head)
                == PlanSpec::Proxy(site + "/"@)
            &&& head.path_and_query is Some && other.path_and_query is Some && head.path_and_query
                != other.path_and_query ==> plan_of(hidden_path, secret, Some(site), head) != plan_of(
                hidden_path,
                secret,
                Some(site),
                other,
            )
        },
        (forall|tail: Seq<char>| site != #[trigger] ("http://"@ + tail)) && (forall|tail: Seq<char>|
            site != #[trigger] ("https://"@ + tail)) ==> plan_of(hidden_path, secret, Some(site), head)
            == PlanSpec::Page(site),
        plan_of(hidden_path, secret, None, head) == PlanSpec::NotFound,
{
    text::lemma_prefix_and_suffix("http://"@, rest, site);
    text::lemma_prefix_and_suffix("https://"@, rest, site);
    if site == "http://"@ + rest || site == "https://"@ + rest {
        if head.path_and_query is Some && other.path_and_query is Some && head.path_and_query
            != other.path_and_query {
            let a = head.path_and_query->0;
            let b = other.path_and_query->0;
            assert((site + a).skip(site.len() as int) =~= a);
            assert((site + b).skip(site.len() as int) =~= b);
        }
    }
}

/// Whether a name is a word but for the case of its letters; the word has none in upper case.
pub open spec fn is_word(name: Seq<char>, word: Seq<char>) -> bool {
    &&& name.len() == word.len()
    &&& forall|i: int|
        0 <= i < word.len() ==> {
            ||| (#[trigger] name[i]) == word[i]
            ||| 'a' <= word[i] <= 'z' && name[i] as int + 32 == word[i] as int
        }
}

/// Of the headers of a site, all are passed on but the three that belong to its connection, in
/// whatever case they are written.
pub proof fn lemma_all_other_headers_are_forwarded(name: Seq<char>)
    ensures
        !is_forwarded(name) <==> {
            ||| is_word(name, "transfer-encoding"@)
            ||| is_word(name, "connection"@)
            ||| is_word(name, "content-length"@)
        },
{
    reveal_strlit("transfer-encoding");
    reveal_strlit("connection");
    reveal_strlit("content-length");
    lemma_lowered(name, "transfer-encoding"@);
    lemma_lowered(name, "connection"@);
    lemma_lowered(name, "content-length"@);
}

/// Lowering gives a word exactly where the name is that word but for the case of its letters.
proof fn lemma_lowered(name: Seq<char>, word: Seq<char>)
    requires
        forall|i: int| 0 <= i < word.len() ==> !('A' <= #[trigger] word[i] <= 'Z'),
    ensures
        lowered(name) == word <==> is_word(name, word),
{
    if lowered(name) == word {
        assert forall|i: int| 0 <= i < word.len() implies ((#[trigger] name[i]) == word[i] || 'a'
            <= word[i] <= 'z' && name[i] as int + 32 == word[i] as int) by {
            assert(lowered(name)[i] == word[i]);
        }
    }
    if is_word(name, word) {
        assert forall|i: int| 0 <= i < word.len() implies lowered(name)[i] == word[i] by {
            assert(name[i] == word[i] || 'a' <= word[i] <= 'z' && name[i] as int + 32
                == word[i] as int);
        }
        assert(lowered(name) =~= word);
    }
}

/// The value of the first header with a name, as bytes.
pub open spec fn header_value(headers: Seq<(Seq<char>, Seq<char>)>, name: Seq<char>) -> Option<
    Seq<u8>,
>
    decreases headers.len(),
{
    if headers.len() == 0 {
        None
    } else if headers[0].0 == name {
        Some(encode_utf8(headers[0].1))
    } else {
        header_value(headers.drop_first(), name)
    }
}

/// What a server sees of a request for `path` with some headers.
pub open spec fn head_of(path: Seq<char>, headers: Seq<(Seq<char>, Seq<char>)>) -> HeadSpec {
    HeadSpec {
        path,
        path_and_query: Some(path),
        target: header_value(headers, "x-tunnel-target"@),
        secret: header_value(headers, "x-tunnel-secret"@),
        protocol: header_value(headers, "x-tunnel-protocol"@),
    }
}

/// Whether a text can be read back from a header value.
pub open spec fn is_header_text(s: Seq<char>) -> bool {
    forall|i: int| 0 <= i < s.len() ==> is_header_char(#[trigger] s[i])
}

/// Visible ASCII, a space or a tab.
pub open spec fn is_header_char(c: char) -> bool {
    ' ' <= c <= '~' || c == '\t'
}

/// Such a text is read back.
proof fn lemma_header_text_is_read_back(s: Seq<char>)
    requires
        is_header_text(s),
    ensures
        header_chars(encode_utf8(s)) == Some(s),
{
    assert(is_ascii_chars(s)) by {
        assert forall|i: int| 0 <= i < s.len() implies 0 <= (#[trigger] s[i]) as nat <= 127 by {
            assert(is_header_char(s[i]));
        }
    }
    is_ascii_chars_encode_utf8(s);
    let b = encode_utf8(s);
    assert forall|i: int| 0 <= i < b.len() implies is_header_byte(#[trigger] b[i]) by {
        assert(is_header_char(s[i]));
        assert(b[i] == s[i] as u8);
    }
    assert(ascii_chars(b) =~= s);
}

/// A header of a first list is found in front of those of a second.
proof fn lemma_header_value_in_front(
    a: Seq<(Seq<char>, Seq<char>)>,
    b: Seq<(Seq<char>, Seq<char>)>,
    name: Seq<char>,
)
    ensures
        header_value(a + b, name) == (if header_value(a, name) is Some {
            header_value(a, name)
        } else {
            header_value(b, name)
        }),
    decreases a.len(),
{
    if a.len() == 0 {
        assert(a + b =~= b);
    } else {
        assert((a + b).drop_first() =~= a.drop_first() + b);
        lemma_header_value_in_front(a.drop_first(), b, name);
    }
}

/// Nothing is found where no header has the name.
proof fn lemma_header_value_none(list: Seq<(Seq<char>, Seq<char>)>, name: Seq<char>)
    requires
        forall|i: int| 0 <= i < list.len() ==> (#[trigger] list[i]).0 != name,
    ensures
        header_value(list, name) is None,
    decreases list.len(),
{
    if list.len() > 0 {
        assert forall|i: int| 0 <= i < list.drop_first().len() implies (
        #[trigger] list.drop_first()[i]).0 != name by {
            assert(list.drop_first()[i] == list[i + 1]);
        }
        assert(list[0].0 != name);
        lemma_header_value_none(list.drop_first(), name);
    }
}

/// What a client asks for, a server with the same path and secret gives: a tunnel to the client's
/// target, for datagrams exactly where the client asked for them. The headers that make the
/// request look like others do not matter.
pub proof fn lemma_client_is_served(
    hidden_path: Seq<char>,
    secret: Option<Seq<char>>,
    site: Option<Seq<char>>,
    sni: Seq<char>,
    target: Seq<char>,
    udp: bool,
    nanos: u128,
)
    requires
        is_header_text(target),
        is_header_text(client::secret_of(secret)),
    ensures
        plan_of(
            hidden_path,
            secret,
            site,
            head_of(
                hidden_path,
                client::request_headers(sni, target, secret, udp) + net_utils::headers_shown(nanos),
            ),
        ) == (PlanSpec::Tunnel {
            target: if target.contains(':') {
                target
            } else {
                "127.0.0.1:"@ + target
            },
            udp,
        }),
{
    reveal_strlit("Host");
    reveal_strlit("x-tunnel-protocol");
    reveal_strlit("x-tunnel-target");
    reveal_strlit("x-tunnel-secret");
    reveal_strlit("user-agent");
    reveal_strlit("accept");
    reveal_strlit("accept-language");
    reveal_strlit("te");
    reveal_strlit("content-type");
    let t = "x-tunnel-target"@;
    let s = "x-tunnel-secret"@;
    let p = "x-tunnel-protocol"@;
    let key = client::secret_of(secret);
    let shown = net_utils::headers_shown(nanos);
    let host = seq![("Host"@, sni)];
    let protocol = if udp {
        seq![(p, "udp"@)]
    } else {
        Seq::empty()
    };
    let rest = seq![(t, target), (s, key)];
    assert(t[9] == 't' && s[9] == 's');
    assert(t.len() == 15 && s.len() == 15 && p.len() == 17 && "Host"@.len() == 4);
    assert forall|i: int| 0 <= i < shown.len() implies (#[trigger] shown[i]).0 != p by {
        assert(shown[i].0.len() != 17);
    }
    lemma_header_value_none(shown, p);
    lemma_header_value_none(host, t);
    lemma_header_value_none(host, s);
    lemma_header_value_none(host, p);
    lemma_header_value_none(protocol, t);
    lemma_header_value_none(protocol, s);
    lemma_header_value_none(rest, p);
    assert(header_value(rest, t) == Some(encode_utf8(target)));
    assert(rest.drop_first()[0] == (s, key));
    assert(header_value(rest.drop_first(), s) == Some(encode_utf8(key)));
    assert(header_value(rest, s) == Some(encode_utf8(key)));
    assert forall|name: Seq<char>| name == t || name == s || name == p implies #[trigger] header_value(
        host + protocol + rest + shown,
        name,
    ) == (if header_value(protocol, name) is Some {
        header_value(protocol, name)
    } else if header_value(rest, name) is Some {
        header_value(rest, name)
    } else {
        header_value(shown, name)
    }) by {
        lemma_header_value_in_front(host, protocol, name);
        lemma_header_value_in_front(host + protocol, rest, name);
        lemma_header_value_in_front(host + protocol + rest, shown, name);
    }
    if udp {
        reveal_strlit("udp");
        let name = seq![0x75u8, 0x64u8, 0x70u8];
        lemma_ascii_is_utf8(name);
        assert(ascii_chars(name) =~= "udp"@);
        assert(header_value(protocol, p) == Some(name));
    } else {
        lemma_header_value_none(protocol, p);
    }
    lemma_header_text_is_read_back(target);
    lemma_header_text_is_read_back(key);
}

} // verus!
