//! Port mappings, and the choice of an upstream by the server name.
use crate::config;
use crate::config::Route;
use crate::ip;
use crate::string_map::StringMap;
use crate::text;
use vstd::prelude::*;
use vstd::string::*;

verus! {

/// One port mapping.
pub struct PortMapping {
    /// The address that connections come in on.
    pub bind_addr: String,
    /// The server name that the mapping is for; without one it is for all others.
    pub sni: Option<String>,
    /// Where the connections go.
    pub upstream: String,
}

/// One port mapping.
#[verifier::ext_equal]
pub struct MappingSpec {
    /// The address that connections come in on.
    pub bind_addr: Seq<char>,
    /// The server name that the mapping is for; without one it is for all others.
    pub sni: Option<Seq<char>>,
    /// Where the connections go.
    pub upstream: Seq<char>,
}

impl View for PortMapping {
    type V = MappingSpec;

    open spec fn view(&self) -> MappingSpec {
        MappingSpec {
            bind_addr: self.bind_addr@,
            sni: config::opt_view(self.sni),
            upstream: self.upstream@,
        }
    }
}

/// The two sides of a mapping: around its first `=` or, where it has none, its last `:`.
pub open spec fn mapping_sides(m: Seq<char>) -> Option<(Seq<char>, Seq<char>)> {
    let eq = text::first_index(m, '=');
    let colon = text::last_index(m, ':');
    if eq < m.len() {
        Some((m.take(eq), m.skip(eq + 1)))
    } else if colon >= 0 {
        Some((m.take(colon), m.skip(colon + 1)))
    } else {
        None
    }
}

/// Whether a host names an interface of this machine and not a server.
pub open spec fn is_local_host(host: Seq<char>) -> bool {
    ip::is_ip(host) || host == "localhost"@
}

/// What a mapping with the sides `left` and `right` means.
pub open spec fn mapping_of_sides(left: Seq<char>, right: Seq<char>) -> MappingSpec {
    let listen = text::trimmed(left);
    let colon = text::last_index(listen, ':');
    let port = listen.skip(colon + 1);
    let host = listen.take(colon);
    if colon >= 0 && is_local_host(host) {
        MappingSpec { bind_addr: host + ":"@ + port, sni: None, upstream: text::trimmed(right) }
    } else {
        MappingSpec {
            bind_addr: "0.0.0.0"@ + ":"@ + port,
            sni: if colon >= 0 {
                Some(host)
            } else {
                None
            },
            upstream: text::trimmed(right),
        }
    }
}

/// What the mapping `m` means; nothing where it has neither an `=` nor a `:`.
pub open spec fn mapping_of(m: Seq<char>) -> Option<MappingSpec> {
    match mapping_sides(m) {
        Some((left, right)) => Some(mapping_of_sides(left, right)),
        None => None,
    }
}

/// `route` with the mapping `m` added, at `location` where there is one.
pub open spec fn route_with(
    route: config::RouteSpec,
    m: MappingSpec,
    location: Option<Seq<char>>,
) -> config::RouteSpec {
    config::RouteSpec {
        target_locations: match location {
            Some(loc) => route.target_locations.insert(m.upstream, loc),
            None => route.target_locations,
        },
        default_upstream: if m.sni is None {
            Some(m.upstream)
        } else {
            route.default_upstream
        },
        sni_rules: match m.sni {
            Some(sni) => route.sni_rules.insert(sni, m.upstream),
            None => route.sni_rules,
        },
    }
}

/// The route on `bind_addr`, which is empty where nothing has been mapped on it.
pub open spec fn route_at(
    routes: Map<Seq<char>, config::RouteSpec>,
    bind_addr: Seq<char>,
) -> config::RouteSpec {
    if routes.contains_key(bind_addr) {
        routes[bind_addr]
    } else {
        config::no_routes()
    }
}

/// `routes` with the text `m` of a mapping added.
pub open spec fn routes_with(
    routes: Map<Seq<char>, config::RouteSpec>,
    m: Seq<char>,
    location: Option<Seq<char>>,
) -> Map<Seq<char>, config::RouteSpec> {
    match mapping_of(m) {
        Some(mapping) => routes.insert(
            mapping.bind_addr,
            route_with(route_at(routes, mapping.bind_addr), mapping, location),
        ),
        None => routes,
    }
}

/// `routes` with each of `mappings` added in turn.
pub open spec fn routes_with_all(
    routes: Map<Seq<char>, config::RouteSpec>,
    mappings: Seq<String>,
    location: Option<Seq<char>>,
) -> Map<Seq<char>, config::RouteSpec>
    decreases mappings.len(),
{
    if mappings.len() == 0 {
        routes
    } else {
        routes_with(
            routes_with_all(routes, mappings.drop_last(), location),
            mappings.last()@,
            location,
        )
    }
}

/// The text of `s` from character `a` to character `b`.
fn part(s: &str, a: usize, b: usize) -> (r: String)
    requires
        a <= b <= s@.len(),
    ensures
        r@ == s@.subrange(a as int, b as int),
{
    s.substring_char(a, b).to_owned()
}

/// What the two sides of a mapping mean.
fn sides_to_mapping(left: &str, right: &str) -> (r: PortMapping)
    ensures
        r@ == mapping_of_sides(left@, right@),
{
    let upstream: String = text::trim(right);
    let listen: String = text::trim(left);
    let len: usize = listen.as_str().unicode_len();
    match text::rfind_char(listen.as_str(), ':') {
        Some(colon) => {
            let port: String = part(listen.as_str(), colon + 1, len);
            let host: String = part(listen.as_str(), 0, colon);
            proof {
                assert(port@ =~= listen@.skip(colon + 1));
                assert(host@ =~= listen@.take(colon as int));
            }
            if ip::ip_literal(host.as_str()) || text::str_eq(host.as_str(), "localhost") {
                let addr: String = text::cat(text::cat(host.as_str(), ":").as_str(), port.as_str());
                PortMapping { bind_addr: addr, sni: None, upstream }
            } else {
                let addr: String = text::cat(text::cat("0.0.0.0", ":").as_str(), port.as_str());
                PortMapping { bind_addr: addr, sni: Some(host), upstream }
            }
        },
        None => {
            proof {
                assert(listen@.skip(0) =~= listen@);
            }
            let addr: String = text::cat(text::cat("0.0.0.0", ":").as_str(), listen.as_str());
            PortMapping { bind_addr: addr, sni: None, upstream }
        },
    }
}

/// What the mapping `m` means.
pub fn parse_mapping(m: &str) -> (r: Option<PortMapping>)
    ensures
        r is Some <==> mapping_of(m@) is Some,
        r matches Some(p) ==> mapping_of(m@) == Some(p@),
{
    let len: usize = m.unicode_len();
    let cut: usize = match text::find_char(m, '=') {
        Some(i) => i,
        None => match text::rfind_char(m, ':') {
            Some(i) => i,
            None => {
                return None;
            },
        },
    };
    proof {
        assert(m@.subrange(0, cut as int) =~= m@.take(cut as int));
        assert(m@.subrange(cut + 1, len as int) =~= m@.skip(cut + 1));
    }
    Some(sides_to_mapping(m.substring_char(0, cut), m.substring_char(cut + 1, len)))
}

/// Adds `mappings` to `routes`; each upstream is preferably reached through `location`.
pub fn parse_port_mappings(
    mappings: &[String],
    location: Option<&str>,
    routes: &mut StringMap<Route>,
)
    ensures
        final(routes)@ == routes_with_all(
            old(routes)@,
            mappings@,
            match location {
                Some(loc) => Some(loc@),
                None => None,
            },
        ),
{
    let ghost place: Option<Seq<char>> = match location {
        Some(loc) => Some(loc@),
        None => None,
    };
    let mut i: usize = 0;
    proof {
        assert(mappings@.take(0) =~= Seq::<String>::empty());
    }
    while i < mappings.len()
        invariant
            i <= mappings@.len(),
            place == (match location {
                Some(loc) => Some(loc@),
                None => None,
            }),
            routes@ == routes_with_all(old(routes)@, mappings@.take(i as int), place),
        decreases mappings@.len() - i,
    {
        proof {
            assert(mappings@.take(i + 1).drop_last() =~= mappings@.take(i as int));
            assert(mappings@.take(i + 1).last() == mappings@[i as int]);
        }
        match parse_mapping(mappings[i].as_str()) {
            Some(mapping) => {
                add_mapping(routes, mapping, location);
            },
            None => {},
        }
        i += 1;
    }
    proof {
        assert(mappings@.take(i as int) =~= mappings@);
    }
}

/// Adds one mapping to `routes`.
fn add_mapping(routes: &mut StringMap<Route>, mapping: PortMapping, location: Option<&str>)
    ensures
        final(routes)@ == old(routes)@.insert(
            mapping@.bind_addr,
            route_with(
                route_at(old(routes)@, mapping@.bind_addr),
                mapping@,
                match location {
                    Some(loc) => Some(loc@),
                    None => None,
                },
            ),
        ),
{
    let ghost before = routes@;
    let PortMapping { bind_addr, sni, upstream } = mapping;
    let mut route: Route = match routes.insert(bind_addr.clone(), Route::default()) {
        Some(route) => route,
        None => Route::default(),
    };
    match sni {
        Some(name) => {
            let _ = route.sni_rules.insert(name, upstream.clone());
        },
        None => {
            route.default_upstream = Some(upstream.clone());
        },
    }
    match location {
        Some(loc) => {
            let _ = route.target_locations.insert(upstream, loc.to_owned());
        },
        None => {},
    }
    let ghost added = route@;
    let _ = routes.insert(bind_addr, route);
    proof {
        assert(routes@ =~= before.insert(mapping@.bind_addr, added));
    }
}


/// The upstream of a connection that announced `sni`: what the rule for it says or, where there
/// is no rule for it, the default.
pub open spec fn upstream_for(route: config::RouteSpec, sni: Option<Seq<char>>) -> Option<Seq<char>> {
    match sni {
        Some(name) => if route.sni_rules.contains_key(name) {
            Some(route.sni_rules[name])
        } else {
            route.default_upstream
        },
        None => route.default_upstream,
    }
}

/// The upstream of a connection that announced `sni`.
pub fn choose_upstream(route: &Route, sni: Option<&String>) -> (r: Option<String>)
    ensures
        config::opt_view(r) == upstream_for(
            route@,
            match sni {
                Some(name) => Some(name@),
                None => None,
            },
        ),
        sni matches Some(name) ==> config::opt_view(r) == (if route@.sni_rules.contains_key(name@) {
            Some(route@.sni_rules[name@])
        } else {
            route@.default_upstream
        }),
        sni is None ==> config::opt_view(r) == route@.default_upstream,
{
    if let Some(name) = sni {
        if let Some(upstream) = route.sni_rules.get(name.as_str()) {
            return Some(upstream.clone());
        }
    }
    match &route.default_upstream {
        Some(upstream) => Some(upstream.clone()),
        None => None,
    }
}

/// The upstream of the datagrams of a listener: the default or, where there is none, that of a
/// rule.
pub fn datagram_upstream(route: &Route) -> (r: Option<String>)
    ensures
        route@.default_upstream is Some ==> config::opt_view(r) == route@.default_upstream,
        r is None <==> route@.default_upstream is None && route@.sni_rules.dom().len() == 0,
        r matches Some(upstream) ==> route@.default_upstream is Some || exists|name: Seq<char>|
            #[trigger] route@.sni_rules.contains_key(name) && route@.sni_rules[name] == upstream@,
{
    if let Some(upstream) = &route.default_upstream {
        return Some(upstream.clone());
    }
    match route.sni_rules.entry(0) {
        Some(e) => {
            proof {
                assert(route@.sni_rules.contains_key(e.0@));
            }
            Some(e.1.clone())
        },
        None => None,
    }
}

/// Whether a server at `location` is not where `upstream` is preferably reached through.
pub open spec fn is_off_location(
    route: config::RouteSpec,
    upstream: Seq<char>,
    location: Seq<char>,
) -> bool {
    route.target_locations.contains_key(upstream) && route.target_locations[upstream] != location
}

/// Whether a server at `location` is not where `upstream` is preferably reached through.
pub fn off_location(route: &Route, upstream: &str, location: &str) -> (r: bool)
    ensures
        r == is_off_location(route@, upstream@, location@),
        r <==> route@.target_locations.contains_key(upstream@)
            && route@.target_locations[upstream@] != location@,
{
    match route.target_locations.get(upstream) {
        Some(preferred) => !text::str_eq(preferred.as_str(), location),
        None => false,
    }
}

/// The text `host:port=target` maps `port` for the server name `host` on all interfaces, or for
/// all names on the interface `host` where that names one.
pub proof fn lemma_host_mapping(host: Seq<char>, port: Seq<char>, target: Seq<char>)
    requires
        !(host + ":"@ + port).contains('='),
        !port.contains(':'),
        text::trimmed(host + ":"@ + port) == host + ":"@ + port,
    ensures
        mapping_of(host + ":"@ + port + "="@ + target) == Some(
            if ip::is_ip(host) || host == "localhost"@ {
                MappingSpec {
                    bind_addr: host + ":"@ + port,
                    sni: None,
                    upstream: text::trimmed(target),
                }
            } else {
                MappingSpec {
                    bind_addr: "0.0.0.0"@ + ":"@ + port,
                    sni: Some(host),
                    upstream: text::trimmed(target),
                }
            },
        ),
{
    reveal_strlit(":");
    reveal_strlit("=");
    let left = host + ":"@ + port;
    let m = left + "="@ + target;
    let n = left.len() as int;
    assert forall|j: int| 0 <= j < n implies m[j] != '=' by {
        assert(m[j] == left[j]);
    }
    assert(m[n] == '=');
    text::lemma_first_index_is(m, '=', n);
    assert(m.take(n) =~= left);
    assert(m.skip(n + 1) =~= target);
    let h = host.len() as int;
    assert(left[h] == ':');
    assert forall|j: int| h < j < n implies left[j] != ':' by {
        assert(left[j] == port[j - h - 1]);
    }
    text::lemma_last_index_is(left, ':', h);
    assert(left.take(h) =~= host);
    assert(left.skip(h + 1) =~= port);
}

/// The text `port=target` maps `port` for all server names on all interfaces.
pub proof fn lemma_port_mapping(port: Seq<char>, target: Seq<char>)
    requires
        !port.contains('='),
        !port.contains(':'),
        text::trimmed(port) == port,
    ensures
        mapping_of(port + "="@ + target) == Some(
            MappingSpec {
                bind_addr: "0.0.0.0"@ + ":"@ + port,
                sni: None,
                upstream: text::trimmed(target),
            },
        ),
{
    reveal_strlit("=");
    let m = port + "="@ + target;
    let n = port.len() as int;
    assert forall|j: int| 0 <= j < n implies m[j] != '=' by {
        assert(m[j] == port[j]);
    }
    assert(m[n] == '=');
    text::lemma_first_index_is(m, '=', n);
    assert(m.take(n) =~= port);
    assert(m.skip(n + 1) =~= target);
    text::lemma_last_index(port, ':');
    assert(port.skip(0) =~= port);
}

/// Adding two lists of mappings in turn is adding the one list of both.
pub proof fn lemma_mappings_add_up(
    routes: Map<Seq<char>, config::RouteSpec>,
    first: Seq<String>,
    second: Seq<String>,
    location: Option<Seq<char>>,
)
    ensures
        routes_with_all(routes, first + second, location) == routes_with_all(
            routes_with_all(routes, first, location),
            second,
            location,
        ),
    decreases second.len(),
{
    if second.len() == 0 {
        assert(first + second =~= first);
    } else {
        assert((first + second).drop_last() =~= first + second.drop_last());
        assert((first + second).last() == second.last());
        lemma_mappings_add_up(routes, first, second.drop_last(), location);
    }
}

/// A listener that no mapping is for keeps its routes.
pub proof fn lemma_other_listeners_keep_routes(
    routes: Map<Seq<char>, config::RouteSpec>,
    mappings: Seq<String>,
    location: Option<Seq<char>>,
    bind_addr: Seq<char>,
)
    requires
        forall|i: int|
            0 <= i < mappings.len() ==> (mapping_of((#[trigger] mappings[i])@) matches Some(m)
                ==> m.bind_addr != bind_addr),
    ensures
        routes_with_all(routes, mappings, location).contains_key(bind_addr) == routes.contains_key(bind_addr),
        route_at(routes_with_all(routes, mappings, location), bind_addr) == route_at(routes, bind_addr),
    decreases mappings.len(),
{
    if mappings.len() > 0 {
        assert(mappings[mappings.len() - 1] == mappings.last());
        assert forall|i: int| 0 <= i < mappings.drop_last().len() implies (mapping_of(
            (#[trigger] mappings.drop_last()[i])@,
        ) matches Some(m) ==> m.bind_addr != bind_addr) by {
            assert(mappings.drop_last()[i] == mappings[i]);
        }
        lemma_other_listeners_keep_routes(routes, mappings.drop_last(), location, bind_addr);
    }
}

/// The last mapping for a server name on a listener, or for all other names there, decides: its
/// connections go where it says, and are preferably made through its location.
pub proof fn lemma_last_mapping_decides(
    routes: Map<Seq<char>, config::RouteSpec>,
    mappings: Seq<String>,
    location: Option<Seq<char>>,
)
    requires
        mappings.len() > 0,
        mapping_of(mappings.last()@) is Some,
    ensures
        ({
            let m = mapping_of(mappings.last()@)->0;
            let after = routes_with_all(routes, mappings, location);
            &&& after.contains_key(m.bind_addr)
            &&& upstream_for(after[m.bind_addr], m.sni) == Some(m.upstream)
            &&& location matches Some(loc) ==> after[m.bind_addr].target_locations.contains_pair(
                m.upstream,
                loc,
            )
        }),
{
}

/// A server name without a rule is treated like no server name.
pub proof fn lemma_unknown_name_goes_to_default(route: config::RouteSpec, name: Seq<char>)
    requires
        !route.sni_rules.contains_key(name),
    ensures
        upstream_for(route, Some(name)) == upstream_for(route, None),
{
}

/// The text `host:port:target` means what `host:port=target` does, and `port:target` what
/// `port=target` does, where the target has no `:` of its own.
pub proof fn lemma_colon_mapping(left: Seq<char>, target: Seq<char>)
    requires
        !left.contains('='),
        !target.contains('='),
        !target.contains(':'),
    ensures
        mapping_of(left + ":"@ + target) is Some,
        mapping_of(left + ":"@ + target) == mapping_of(left + "="@ + target),
{
    reveal_strlit(":");
    reveal_strlit("=");
    let c = left + ":"@ + target;
    let e = left + "="@ + target;
    let n = left.len() as int;
    assert forall|j: int| 0 <= j < c.len() implies c[j] != '=' by {
        if j < n {
            assert(c[j] == left[j]);
        } else if j > n {
            assert(c[j] == target[j - n - 1]);
        }
    }
    text::lemma_first_index(c, '=');
    assert(c[n] == ':');
    assert forall|j: int| n < j < c.len() implies c[j] != ':' by {
        assert(c[j] == target[j - n - 1]);
    }
    text::lemma_last_index_is(c, ':', n);
    assert forall|j: int| 0 <= j < n implies e[j] != '=' by {
        assert(e[j] == left[j]);
    }
    assert(e[n] == '=');
    text::lemma_first_index_is(e, '=', n);
    assert(c.take(n) =~= left);
    assert(e.take(n) =~= left);
    assert(c.skip(n + 1) =~= target);
    assert(e.skip(n + 1) =~= target);
}

/// A text is a mapping exactly where it holds a `=` or a `:`; one that is none changes no routes.
pub proof fn lemma_what_is_a_mapping(
    routes: Map<Seq<char>, config::RouteSpec>,
    m: Seq<char>,
    location: Option<Seq<char>>,
)
    ensures
        mapping_of(m) is Some <==> m.contains('=') || m.contains(':'),
        mapping_of(m) is None ==> routes_with(routes, m, location) == routes,
{
    text::lemma_first_index(m, '=');
    text::lemma_last_index(m, ':');
}

/// White space around the two sides of a mapping does not matter.
pub proof fn lemma_spaces_do_not_matter(left: Seq<char>, right: Seq<char>)
    requires
        !left.contains('='),
    ensures
        mapping_of(left + "="@ + right) == mapping_of(
            text::trimmed(left) + "="@ + text::trimmed(right),
        ),
{
    reveal_strlit("=");
    let l = text::trimmed(left);
    let r = text::trimmed(right);
    text::lemma_trimmed(left);
    text::lemma_trimmed(right);
    let (a, b): (int, int) = choose|a: int, b: int|
        {
            &&& 0 <= a <= b <= left.len()
            &&& text::trimmed(left) == #[trigger] left.subrange(a, b)
            &&& forall|i: int|
                0 <= i < a || b <= i < left.len() ==> text::is_white(#[trigger] left[i])
        };
    assert forall|i: int| 0 <= i < l.len() implies l[i] != '=' by {
        assert(l[i] == left[a + i]);
    }
    lemma_sides(left, right);
    lemma_sides(l, r);
}

/// The sides of a mapping are what is before and after its first `=`.
proof fn lemma_sides(left: Seq<char>, right: Seq<char>)
    requires
        !left.contains('='),
    ensures
        mapping_sides(left + "="@ + right) == Some((left, right)),
{
    reveal_strlit("=");
    let m = left + "="@ + right;
    let n = left.len() as int;
    assert forall|j: int| 0 <= j < n implies m[j] != '=' by {
        assert(m[j] == left[j]);
    }
    assert(m[n] == '=');
    text::lemma_first_index_is(m, '=', n);
    assert(m.take(n) =~= left);
    assert(m.skip(n + 1) =~= right);
}

/// A mapping touches nothing but what it is for. On its own listener, one without a server name
/// keeps every rule, and one for a name keeps the default and the rules for all other names: the
/// connections of any other name that has a rule go where they went. Upstreams that it does not
/// lead to keep their location. On other listeners nothing changes.
pub proof fn lemma_mapping_keeps_the_rest(
    routes: Map<Seq<char>, config::RouteSpec>,
    m: Seq<char>,
    location: Option<Seq<char>>,
    bind_addr: Seq<char>,
    name: Seq<char>,
    upstream: Seq<char>,
)
    requires
        mapping_of(m) is Some,
        routes.contains_key(bind_addr),
    ensures
        ({
            let mapping = mapping_of(m)->0;
            let before = routes[bind_addr];
            let after = routes_with(routes, m, location)[bind_addr];
            &&& routes_with(routes, m, location).contains_key(bind_addr)
            &&& bind_addr != mapping.bind_addr ==> after == before
            &&& mapping.sni is None ==> after.sni_rules == before.sni_rules
            &&& mapping.sni is Some ==> after.default_upstream == before.default_upstream
            &&& mapping.sni != Some(name) ==> {
                &&& after.sni_rules.contains_key(name) == before.sni_rules.contains_key(name)
                &&& before.sni_rules.contains_key(name) ==> {
                    &&& after.sni_rules[name] == before.sni_rules[name]
                    &&& upstream_for(after, Some(name)) == upstream_for(before, Some(name))
                    &&& upstream_for(after, Some(name)) == Some(before.sni_rules[name])
                }
            }
            &&& location is None || mapping.upstream != upstream ==> {
                &&& after.target_locations.contains_key(upstream)
                    == before.target_locations.contains_key(upstream)
                &&& before.target_locations.contains_key(upstream)
                    ==> after.target_locations[upstream] == before.target_locations[upstream]
            }
        }),
{
}

/// What a mapping is for, it decides: on its listener, whatever that had before, its name (or all
/// names without a rule, where it has none) goes to its upstream, through its location where it
/// has one. A listener that had nothing gets nothing but that.
pub proof fn lemma_mapping_is_added(
    routes: Map<Seq<char>, config::RouteSpec>,
    m: Seq<char>,
    location: Option<Seq<char>>,
    name: Seq<char>,
)
    requires
        mapping_of(m) is Some,
    ensures
        ({
            let mapping = mapping_of(m)->0;
            let after = routes_with(routes, m, location)[mapping.bind_addr];
            &&& routes_with(routes, m, location).contains_key(mapping.bind_addr)
            &&& mapping.sni matches Some(sni) ==> after.sni_rules.contains_pair(
                sni,
                mapping.upstream,
            )
            &&& mapping.sni is None ==> after.default_upstream == Some(mapping.upstream)
            &&& location matches Some(loc) ==> after.target_locations.contains_pair(
                mapping.upstream,
                loc,
            )
            &&& !routes.contains_key(mapping.bind_addr) ==> {
                &&& mapping.sni != Some(name) ==> !after.sni_rules.contains_key(name)
                &&& mapping.sni is Some ==> after.default_upstream is None
                &&& location is None || name != mapping.upstream
                    ==> !after.target_locations.contains_key(name)
            }
        }),
{
}

/// A list of one mapping adds that, and a list of none nothing.
pub proof fn lemma_mappings_one_by_one(
    routes: Map<Seq<char>, config::RouteSpec>,
    m: String,
    location: Option<Seq<char>>,
)
    ensures
        routes_with_all(routes, Seq::empty(), location) == routes,
        routes_with_all(routes, seq![m], location) == routes_with(routes, m@, location),
{
    assert(seq![m].drop_last() =~= Seq::<String>::empty());
}

/// A rule for a name decides for that name, whatever the default is; the default decides for names
/// without a rule and for connections without a name.
pub proof fn lemma_rule_goes_before_default(route: config::RouteSpec, name: Seq<char>)
    ensures
        route.sni_rules.contains_key(name) ==> upstream_for(route, Some(name)) == Some(
            route.sni_rules[name],
        ),
        !route.sni_rules.contains_key(name) ==> upstream_for(route, Some(name))
            == route.default_upstream,
        upstream_for(route, None) == route.default_upstream,
{
}

/// Of a list of mappings the last one for a name on a listener decides where its connections go,
/// and the last one without a name where all others go, whatever other mappings come after it.
pub proof fn lemma_last_mapping_for_a_name_decides(
    routes: Map<Seq<char>, config::RouteSpec>,
    mappings: Seq<String>,
    location: Option<Seq<char>>,
    k: int,
)
    requires
        0 <= k < mappings.len(),
        mapping_of(mappings[k]@) is Some,
        forall|j: int|
            k < j < mappings.len() ==> (mapping_of((#[trigger] mappings[j])@) matches Some(m)
                ==> m.bind_addr != mapping_of(mappings[k]@)->0.bind_addr || m.sni != mapping_of(
                mappings[k]@,
            )->0.sni),
    ensures
        ({
            let m = mapping_of(mappings[k]@)->0;
            let all = routes_with_all(routes, mappings, location);
            &&& all.contains_key(m.bind_addr)
            &&& m.sni matches Some(name) ==> all[m.bind_addr].sni_rules.contains_pair(
                name,
                m.upstream,
            )
            &&& m.sni is None ==> all[m.bind_addr].default_upstream == Some(m.upstream)
            &&& upstream_for(all[m.bind_addr], m.sni) == Some(m.upstream)
        }),
    decreases mappings.len(),
{
    let init = mappings.drop_last();
    let m = mapping_of(mappings[k]@)->0;
    if k < mappings.len() - 1 {
        assert(init[k] == mappings[k]);
        assert forall|j: int| k < j < init.len() implies (mapping_of((#[trigger] init[j])@) matches Some(
            o,
        ) ==> o.bind_addr != mapping_of(init[k]@)->0.bind_addr || o.sni != mapping_of(
            init[k]@,
        )->0.sni) by {
            assert(init[j] == mappings[j]);
        }
        lemma_last_mapping_for_a_name_decides(routes, init, location, k);
        assert(mappings[mappings.len() - 1] == mappings.last());
    } else {
        assert(mappings.last() == mappings[k]);
    }
}

} // verus!
