//! The headers that make tunnel traffic look like ordinary traffic.
use vstd::prelude::*;
use vstd::string::*;

verus! {

/// A header and its value.
pub open spec fn header_view(h: (&'static str, &'static str)) -> (Seq<char>, Seq<char>) {
    (h.0@, h.1@)
}

/// Headers and their values.
pub open spec fn header_views(list: Seq<(&'static str, &'static str)>) -> Seq<(Seq<char>, Seq<char>)> {
    Seq::new(list.len(), |i: int| header_view(list[i]))
}

/// The user agent that is shown at a time: one of two, by turns.
pub open spec fn user_agent(nanos: u128) -> Seq<char> {
    if nanos % 2 == 0 {
        "Mozilla/5.0 (Windows NT 10.0; Win64; x64) AppleWebKit/537.36 (KHTML, like Gecko) Chrome/121.0.0.0 Safari/537.36"@
    } else {
        "Mozilla/5.0 (Macintosh; Intel Mac OS X 10_15_7) AppleWebKit/605.1.15 (KHTML, like Gecko) Version/17.2 Safari/605.1.15"@
    }
}

/// The headers that are shown at a time.
pub open spec fn headers_shown(nanos: u128) -> Seq<(Seq<char>, Seq<char>)> {
    seq![
        ("user-agent"@, user_agent(nanos)),
        ("accept"@, "application/grpc-web, application/grpc, */*"@),
        ("accept-language"@, "en-US,en;q=0.9"@),
        ("te"@, "trailers"@),
        ("content-type"@, "application/grpc"@),
    ]
}

/// `std::time::SystemTime::elapsed` of the Unix epoch, in nanoseconds (`Duration::as_nanos`), where
/// the clock is not before it. Nothing is said of the result, which is up to the clock.
#[verifier::external_body]
fn nanos_since_epoch() -> (r: Option<u128>) {
    match std::time::UNIX_EPOCH.elapsed() {
        Ok(elapsed) => Some(elapsed.as_nanos()),
        Err(_) => None,
    }
}

/// The headers that are shown `nanos` nanoseconds after the Unix epoch.
pub fn headers_at(nanos: u128) -> (r: Vec<(&'static str, &'static str)>)
    ensures
        header_views(r@) == headers_shown(nanos),
{
    let agent: &'static str = if nanos % 2 == 0 {
        "Mozilla/5.0 (Windows NT 10.0; Win64; x64) AppleWebKit/537.36 (KHTML, like Gecko) Chrome/121.0.0.0 Safari/537.36"
    } else {
        "Mozilla/5.0 (Macintosh; Intel Mac OS X 10_15_7) AppleWebKit/605.1.15 (KHTML, like Gecko) Version/17.2 Safari/605.1.15"
    };
    let mut out: Vec<(&'static str, &'static str)> = Vec::new();
    out.push(("user-agent", agent));
    out.push(("accept", "application/grpc-web, application/grpc, */*"));
    out.push(("accept-language", "en-US,en;q=0.9"));
    out.push(("te", "trailers"));
    out.push(("content-type", "application/grpc"));
    proof {
        assert(header_views(out@) =~= headers_shown(nanos));
    }
    out
}

/// The headers that are shown for what the clock says: the nanoseconds since the Unix epoch, or
/// nothing where it is before that. There are headers exactly where it is not.
pub fn headers_for_clock(elapsed: Option<u128>) -> (r: Option<Vec<(&'static str, &'static str)>>)
    ensures
        r is Some <==> elapsed is Some,
        r matches Some(list) ==> header_views(list@) == headers_shown(elapsed->0),
{
    match elapsed {
        Some(nanos) => Some(headers_at(nanos)),
        None => None,
    }
}

/// The headers that are shown now; none where the clock is before the Unix epoch.
pub fn get_random_headers() -> (r: Option<Vec<(&'static str, &'static str)>>)
    ensures
        r matches Some(list) ==> exists|nanos: u128|
            header_views(list@) == #[trigger] headers_shown(nanos),
{
    headers_for_clock(nanos_since_epoch())
}

/// Whenever headers are shown, the same ones are: only the user agent changes.
pub proof fn lemma_headers_differ_in_agent_only(a: u128, b: u128)
    ensures
        headers_shown(a).len() == headers_shown(b).len(),
        forall|i: int| 1 <= i < headers_shown(a).len() ==> headers_shown(a)[i] == headers_shown(b)[i],
        headers_shown(a)[0].0 == headers_shown(b)[0].0,
{
}

/// The user agents take turns, nanosecond by nanosecond: one at even times, the other at odd ones.
pub proof fn lemma_user_agents_take_turns(nanos: u128)
    ensures
        headers_shown(nanos)[0].0 == "user-agent"@,
        nanos % 2 == 0 ==> headers_shown(nanos)[0].1
            == "Mozilla/5.0 (Windows NT 10.0; Win64; x64) AppleWebKit/537.36 (KHTML, like Gecko) Chrome/121.0.0.0 Safari/537.36"@,
        nanos % 2 == 1 ==> headers_shown(nanos)[0].1
            == "Mozilla/5.0 (Macintosh; Intel Mac OS X 10_15_7) AppleWebKit/605.1.15 (KHTML, like Gecko) Version/17.2 Safari/605.1.15"@,
{
}

} // verus!
