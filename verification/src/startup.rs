//! What a process does at its start, and when its configuration changes.
use crate::config;
use crate::config::AppConfig;
use crate::text;
use std::collections::hash_map::DefaultHasher;
use std::hash::Hasher;
use vstd::prelude::*;
use vstd::std_specs::hash::DefaultHasherAdditionalSpecFns;
use vstd::string::*;

verus! {

/// How many seconds pass between two looks at the configuration file.
pub const RELOAD_POLL_SECS: u64 = 2;

/// How many milliseconds an old listener goes on beside the new one.
pub const OVERLAP_MS: u64 = 100;

/// How many seconds pass between two looks at the age of the certificate.
pub const RENEWAL_POLL_SECS: u64 = 86_400;

/// What is added to the configuration file once a certificate was renewed, so that it is read
/// again.
pub const RENEWAL_NOTE: &'static str = "\n# ACME Auto-Renewed\n";

/// The name of a certificate file: the configured one without white space around it, or the
/// default one where that leaves nothing.
pub open spec fn cert_name(configured: Seq<char>, default_name: Seq<char>) -> Seq<char> {
    if text::trimmed(configured).len() == 0 {
        default_name
    } else {
        text::trimmed(configured)
    }
}

/// The name of a certificate file.
pub fn cert_file_name(configured: &str, default_name: &str) -> (r: String)
    ensures
        r@ == cert_name(configured@, default_name@),
        (forall|i: int| 0 <= i < configured@.len() ==> text::is_white(#[trigger] configured@[i]))
            ==> r@ == default_name@,
        (exists|i: int| 0 <= i < configured@.len() && !text::is_white(#[trigger] configured@[i]))
            ==> r@ == text::trimmed(configured@) && r@.len() > 0,
{
    let name: String = text::trim(configured);
    proof {
        lemma_white_names(configured@);
    }
    if name.as_str().unicode_len() == 0 {
        default_name.to_owned()
    } else {
        name
    }
}

/// A text is all white space exactly where trimming leaves nothing.
proof fn lemma_white_names(s: Seq<char>)
    ensures
        text::trimmed(s).len() == 0 <==> forall|i: int|
            0 <= i < s.len() ==> text::is_white(#[trigger] s[i]),
{
    text::lemma_trimmed(s);
    let (a, b): (int, int) = choose|a: int, b: int|
        {
            &&& 0 <= a <= b <= s.len()
            &&& text::trimmed(s) == #[trigger] s.subrange(a, b)
            &&& forall|i: int| 0 <= i < a || b <= i < s.len() ==> text::is_white(#[trigger] s[i])
        };
    if text::trimmed(s).len() > 0 {
        assert(text::trimmed(s)[0] == s[a]);
    }
}

/// The filter for log messages.
pub open spec fn filter_text(level: Option<Seq<char>>) -> Seq<char> {
    "h2=warn,rustls=warn,tokio_rustls=warn,GhostRPC="@ + match level {
        Some(l) => l,
        None => "info"@,
    }
}

/// The filter for log messages.
pub fn log_filter(level: &Option<String>) -> (r: String)
    ensures
        r@ == filter_text(config::opt_view(*level)),
        *level matches Some(l) ==> r@ == "h2=warn,rustls=warn,tokio_rustls=warn,GhostRPC="@ + l@,
        *level is None ==> r@ == "h2=warn,rustls=warn,tokio_rustls=warn,GhostRPC="@ + "info"@,
{
    match level {
        Some(l) => text::cat("h2=warn,rustls=warn,tokio_rustls=warn,GhostRPC=", l.as_str()),
        None => text::cat("h2=warn,rustls=warn,tokio_rustls=warn,GhostRPC=", "info"),
    }
}

/// What a process is.
#[derive(Clone, Copy, Debug, PartialEq, Eq, Structural)]
pub enum RunMode {
    /// A server; tells whether it provisions its certificates.
    Server(bool),
    /// A client.
    Client,
    /// Neither.
    Nothing,
}

/// What a process with this configuration is: a server rather than a client where it could be
/// both.
pub fn run_mode(cfg: &AppConfig) -> (r: RunMode)
    ensures
        r == (match cfg.server {
            Some(server) => RunMode::Server(server.cloudflare_api_token is Some),
            None => match cfg.client {
                Some(_) => RunMode::Client,
                None => RunMode::Nothing,
            },
        }),
{
    match &cfg.server {
        Some(server) => RunMode::Server(server.cloudflare_api_token.is_some()),
        None => match &cfg.client {
            Some(_) => RunMode::Client,
            None => RunMode::Nothing,
        },
    }
}

/// The hash of a text: its bytes, and one that no text holds.
pub open spec fn hash_of(content: Seq<u8>) -> u64 {
    DefaultHasher::spec_finish(seq![content, seq![0xffu8]])
}

/// Whether a text is not the one with the hash `seen`.
pub open spec fn is_change(seen: u64, content: Seq<u8>) -> bool {
    hash_of(content) != seen
}

/// The hash of a text.
fn content_hash(content: &str) -> (r: u64)
    ensures
        r == hash_of(content.spec_bytes()),
{
    let mut hasher: DefaultHasher = DefaultHasher::new();
    let end: [u8; 1] = [0xff];
    hasher.write(content.as_bytes());
    hasher.write(end.as_slice());
    proof {
        assert(end@ =~= seq![0xffu8]);
        assert(hasher@ =~= seq![content.spec_bytes(), seq![0xffu8]]);
    }
    hasher.finish()
}

/// Notices changes of the configuration file.
pub struct HotReload {
    last_hash: u64,
}

impl View for HotReload {
    type V = u64;

    /// The hash of what the file held when it was last looked at.
    closed spec fn view(&self) -> u64 {
        self.last_hash
    }
}

impl HotReload {
    /// A file that holds `content`.
    pub fn new(content: &str) -> (r: Self)
        ensures
            r@ == hash_of(content.spec_bytes()),
            r@ == DefaultHasher::spec_finish(seq![content.spec_bytes(), seq![0xffu8]]),
    {
        HotReload { last_hash: content_hash(content) }
    }

    /// Whether the file has changed, now that it holds `content`. What it holds counts as seen,
    /// whether it can be used or not.
    pub fn observe(&mut self, content: &str) -> (r: bool)
        ensures
            r == is_change(old(self)@, content.spec_bytes()),
            final(self)@ == hash_of(content.spec_bytes()),
            final(self)@ == DefaultHasher::spec_finish(seq![content.spec_bytes(), seq![0xffu8]]),
            r <==> final(self)@ != old(self)@,
    {
        let hash: u64 = content_hash(content);
        if hash != self.last_hash {
            self.last_hash = hash;
            true
        } else {
            false
        }
    }
}

/// What was seen last is no change: a file that is looked at again is not read anew until it holds
/// something else.
pub proof fn lemma_seen_is_no_change(content: Seq<u8>)
    ensures
        !is_change(hash_of(content), content),
{
}

/// A name without white space around it is used as it is, and one of white space alone is not.
pub proof fn lemma_cert_name(name: Seq<char>, default_name: Seq<char>)
    requires
        name.len() > 0 ==> !text::is_white(name[0]) && !text::is_white(name.last()),
    ensures
        cert_name(name, default_name) == (if name.len() == 0 {
            default_name
        } else {
            name
        }),
{
    text::lemma_trimmed_id(name);
}

} // verus!
