//! The configuration of a server, of a client, and of the routes of a listener.
use crate::string_map::StringMap;
use vstd::prelude::*;
use vstd::string::*;

verus! {

/// What a configuration file holds.
#[derive(Debug, Clone)]
pub struct AppConfig {
    /// The log level; `info` where there is none.
    pub log_level: Option<String>,
    /// Set where this process is a server.
    pub server: Option<ServerConfig>,
    /// Set where this process is a client.
    pub client: Option<ClientConfig>,
}

/// The configuration of a server.
#[derive(Debug, Clone)]
pub struct ServerConfig {
    /// The address that the server listens on.
    pub bind_addr: String,
    /// The path of tunnel requests.
    pub hidden_path: String,
    /// The file with the certificate chain.
    pub tls_cert: String,
    /// The file with the private key.
    pub tls_key: String,
    /// Port mappings for connections that are passed on by their server name.
    pub port_mappings: Option<Vec<String>>,
    /// A site or a file that is shown to whoever does not ask for a tunnel.
    pub camouflage_target: Option<String>,
    /// The token for the DNS provider; certificates are provisioned where there is one.
    pub cloudflare_api_token: Option<String>,
    /// The domains that a certificate is provisioned for.
    pub acme_domains: Option<Vec<String>>,
    /// The shared secret; empty where there is none.
    pub secret: Option<String>,
}

/// The servers at a location, and what is reached through them.
#[derive(Debug, Clone)]
pub struct RemoteLocation {
    /// The name of the location.
    pub location: String,
    /// The servers, each as a host name with an optional port.
    pub sni: Vec<String>,
    /// What is reached through this location.
    pub port_mappings: Vec<String>,
}

/// The configuration of a client.
#[derive(Debug, Clone)]
pub struct ClientConfig {
    /// The addresses that servers are dialled at.
    pub clean_ip: Vec<String>,
    /// The servers.
    pub remotes: Vec<RemoteLocation>,
    /// The path of tunnel requests.
    pub hidden_path: String,
    /// How many connections are kept to each server; 16 where this is not set.
    pub pool_size_per_node: Option<usize>,
    /// `yes` where datagrams are tunnelled too.
    pub accept_udp: Option<String>,
    /// The shared secret; empty where there is none.
    pub secret: Option<String>,
}

/// The routes of one listener.
#[derive(Debug)]
pub struct Route {
    /// The location that each upstream is preferably reached through.
    pub target_locations: StringMap<String>,
    /// The upstream of connections that no rule is for.
    pub default_upstream: Option<String>,
    /// The upstream for each server name that a rule is for.
    pub sni_rules: StringMap<String>,
}

/// The routes of one listener.
#[verifier::ext_equal]
pub struct RouteSpec {
    /// The location that each upstream is preferably reached through.
    pub target_locations: Map<Seq<char>, Seq<char>>,
    /// The upstream of connections that no rule is for.
    pub default_upstream: Option<Seq<char>>,
    /// The upstream for each server name that a rule is for.
    pub sni_rules: Map<Seq<char>, Seq<char>>,
}

/// The characters of an optional string.
pub open spec fn opt_view(s: Option<String>) -> Option<Seq<char>> {
    match s {
        Some(t) => Some(t@),
        None => None,
    }
}

/// The routes of a listener that nothing has been mapped on.
pub open spec fn no_routes() -> RouteSpec {
    RouteSpec { target_locations: Map::empty(), default_upstream: None, sni_rules: Map::empty() }
}

impl View for Route {
    type V = RouteSpec;

    open spec fn view(&self) -> RouteSpec {
        RouteSpec {
            target_locations: self.target_locations@,
            default_upstream: opt_view(self.default_upstream),
            sni_rules: self.sni_rules@,
        }
    }
}

impl Clone for Route {
    fn clone(&self) -> (r: Self)
        ensures
            r@ == self@,
    {
        Route {
            target_locations: self.target_locations.clone(),
            default_upstream: match &self.default_upstream {
                Some(upstream) => Some(upstream.clone()),
                None => None,
            },
            sni_rules: self.sni_rules.clone(),
        }
    }
}

impl Default for Route {
    fn default() -> (r: Self)
        ensures
            r@ == no_routes(),
    {
        Route {
            target_locations: StringMap::new(),
            default_upstream: None,
            sni_rules: StringMap::new(),
        }
    }
}

} // verus!
