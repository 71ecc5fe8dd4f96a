//! The server name that a TLS client announces in its first flight.
//!
//! A ClientHello is read as raw bytes and is never modified: the bytes that were peeked at are
//! forwarded as they came.
use crate::text;
use vstd::prelude::*;
use vstd::slice::slice_subrange;
use vstd::string::*;
use vstd::utf8::*;

verus! {

/// The content type of a TLS handshake record.
pub const HANDSHAKE: u8 = 0x16;

/// The handshake type of a ClientHello.
pub const CLIENT_HELLO: u8 = 0x01;

/// How many bytes of a connection are peeked at while looking for a server name.
pub const PEEK_LIMIT: usize = 2048;

/// The big-endian number in the two bytes of `buf` at `p`.
pub open spec fn be16(buf: Seq<u8>, p: int) -> int {
    buf[p] as int * 256 + buf[p + 1] as int
}

/// Where the extensions of the ClientHello in `buf` start and end.
///
/// There are none where `buf` is no handshake record with a ClientHello in it, or ends before
/// the extensions do.
pub open spec fn extensions(buf: Seq<u8>) -> Option<(int, int)> {
    let cipher_suites = 44 + buf[43] as int;
    let compression = cipher_suites + 2 + be16(buf, cipher_suites);
    let length = compression + 1 + buf[compression] as int;
    let start = length + 2;
    let end = start + be16(buf, length);
    if buf.len() <= 43 || buf[0] != HANDSHAKE || buf[5] != CLIENT_HELLO {
        None
    } else if buf.len() <= cipher_suites + 1 || buf.len() <= compression || buf.len() <= length + 1 {
        None
    } else if buf.len() < end {
        None
    } else {
        Some((start, end))
    }
}

/// Where the content of the first extension of type 0 (the server names) starts, among the
/// extensions from `pos` to `end`.
pub open spec fn name_extension(buf: Seq<u8>, pos: int, end: int) -> Option<int>
    decreases (if pos <= end { end - pos + 1 } else { 0 }),
{
    if pos + 4 > end {
        None
    } else if be16(buf, pos) == 0 {
        Some(pos + 4)
    } else {
        name_extension(buf, pos + 4 + be16(buf, pos + 2), end)
    }
}

/// What a list of server names holds.
pub enum HostEntry {
    /// No host name, or one that is longer than the list.
    Missing,
    /// The list claims bytes that are not in the buffer.
    Overrun,
    /// A host name, from the first index to the second.
    At(int, int),
}

/// The first host name in the list of names from `pos` to `end`.
pub open spec fn host_entry(buf: Seq<u8>, pos: int, end: int) -> HostEntry
    decreases (if pos <= end { end - pos + 1 } else { 0 }),
{
    let stop = pos + 3 + be16(buf, pos + 1);
    if pos + 3 > end {
        HostEntry::Missing
    } else if pos + 3 > buf.len() {
        HostEntry::Overrun
    } else if buf[pos] != 0 {
        host_entry(buf, stop, end)
    } else if stop > end {
        HostEntry::Missing
    } else if stop > buf.len() {
        HostEntry::Overrun
    } else {
        HostEntry::At(pos + 3, stop)
    }
}

/// The host name entry of the ClientHello in `buf`.
pub open spec fn hello_host(buf: Seq<u8>) -> HostEntry {
    match extensions(buf) {
        None => HostEntry::Missing,
        Some((start, end)) => match name_extension(buf, start, end) {
            None => HostEntry::Missing,
            Some(pos) => if pos + 2 > end {
                HostEntry::Missing
            } else {
                host_entry(buf, pos + 2, pos + 2 + be16(buf, pos))
            },
        },
    }
}

/// Whether the name list of the ClientHello in `buf` claims bytes that are not there.
pub open spec fn names_overrun(buf: Seq<u8>) -> bool {
    hello_host(buf) is Overrun
}

/// The server name in the ClientHello in `buf`: its host name, where that is UTF-8.
pub open spec fn server_name(buf: Seq<u8>) -> Option<Seq<char>> {
    match hello_host(buf) {
        HostEntry::At(from, to) => if valid_utf8(buf.subrange(from, to)) {
            Some(decode_utf8(buf.subrange(from, to)))
        } else {
            None
        },
        _ => None,
    }
}

/// What a look for a server name came to.
pub enum SniScan {
    /// There is no server name.
    Absent,
    /// The name list claims bytes that are not there.
    Overrun,
    /// The server name.
    Name(String),
}

/// The big-endian number in the two bytes at `p`.
fn read16(buf: &[u8], p: usize) -> (r: usize)
    requires
        p + 1 < buf@.len(),
    ensures
        r == be16(buf@, p as int),
        r <= 0xffff,
{
    buf[p] as usize * 256 + buf[p + 1] as usize
}

/// Where the extensions start and end.
fn find_extensions(buf: &[u8]) -> (r: Option<(usize, usize)>)
    ensures
        r is Some <==> extensions(buf@) is Some,
        r matches Some(p) ==> extensions(buf@) == Some((p.0 as int, p.1 as int)) && p.0 <= p.1
            <= buf@.len() && p.1 < 0x30000,
{
    if buf.len() < 5 || buf[0] != HANDSHAKE {
        return None;
    }
    if buf.len() < 9 || buf[5] != CLIENT_HELLO {
        return None;
    }
    let mut pos: usize = 43;
    if buf.len() <= pos {
        return None;
    }
    pos = pos + 1 + buf[pos] as usize;
    if buf.len() <= pos + 1 {
        return None;
    }
    pos = pos + 2 + read16(buf, pos);
    if buf.len() <= pos {
        return None;
    }
    pos = pos + 1 + buf[pos] as usize;
    if buf.len() <= pos + 1 {
        return None;
    }
    let end: usize = pos + 2 + read16(buf, pos);
    if buf.len() < end {
        return None;
    }
    Some((pos + 2, end))
}

/// Looks for the server name in the ClientHello that `buf` starts with.
pub fn scan_sni(buf: &[u8]) -> (r: SniScan)
    ensures
        r is Overrun <==> names_overrun(buf@),
        r matches SniScan::Name(name) ==> server_name(buf@) == Some(name@),
        r is Absent ==> server_name(buf@) is None,
{
    let (start, end) = match find_extensions(buf) {
        Some(p) => p,
        None => {
            return SniScan::Absent;
        },
    };
    let mut pos: usize = start;
    while pos + 4 <= end
        invariant
            extensions(buf@) == Some((start as int, end as int)),
            start <= end <= buf@.len(),
            end < 0x30000,
            start <= pos < 0x50000,
            name_extension(buf@, start as int, end as int) == name_extension(
                buf@,
                pos as int,
                end as int,
            ),
        decreases end + 0x20000 - pos,
    {
        let kind: usize = read16(buf, pos);
        let size: usize = read16(buf, pos + 2);
        if kind == 0 {
            return scan_names(buf, pos + 4, end);
        }
        pos = pos + 4 + size;
    }
    SniScan::Absent
}

/// Looks for the host name in the name extension whose content starts at `pos`.
fn scan_names(buf: &[u8], pos: usize, end: usize) -> (r: SniScan)
    requires
        pos <= end <= buf@.len(),
        end < 0x30000,
        extensions(buf@) matches Some((start, stop)) && stop == end && name_extension(buf@, start, stop)
            == Some(pos as int),
    ensures
        r is Overrun <==> names_overrun(buf@),
        r matches SniScan::Name(name) ==> server_name(buf@) == Some(name@),
        r is Absent ==> server_name(buf@) is None,
{
    if pos + 2 > end {
        return SniScan::Absent;
    }
    let mut at: usize = pos + 2;
    let list_end: usize = at + read16(buf, pos);
    while at + 3 <= list_end
        invariant
            hello_host(buf@) == host_entry(buf@, at as int, list_end as int),
            at < 0x70000,
            list_end < 0x50000,
        decreases 0x80000 - at,
    {
        if at + 3 > buf.len() {
            return SniScan::Overrun;
        }
        let kind: u8 = buf[at];
        let stop: usize = at + 3 + read16(buf, at + 1);
        if kind == 0 {
            if stop > list_end {
                return SniScan::Absent;
            }
            if stop > buf.len() {
                return SniScan::Overrun;
            }
            let name: &[u8] = slice_subrange(buf, at + 3, stop);
            return match text::utf8_text(name) {
                Some(host) => {
                    proof {
                        encode_utf8_decode_utf8(host@);
                    }
                    SniScan::Name(host.to_owned())
                },
                None => SniScan::Absent,
            };
        }
        at = stop;
    }
    SniScan::Absent
}

/// The server name in the ClientHello that `buf` starts with.
pub fn extract_sni(buf: &[u8]) -> (r: Option<String>)
    requires
        !names_overrun(buf@),
    ensures
        r is Some <==> server_name(buf@) is Some,
        r matches Some(name) ==> server_name(buf@) == Some(name@),
{
    match scan_sni(buf) {
        SniScan::Name(name) => Some(name),
        _ => None,
    }
}

/// What to do after a read while peeking at a connection.
pub enum Peek {
    /// Read on.
    More,
    /// Stop without a server name.
    Stop,
    /// Stop: the name list claims bytes that are not there.
    Overrun,
    /// Stop with this server name.
    Found(String),
}

/// Whether the TLS record that `buf` starts with is complete.
pub open spec fn record_complete(buf: Seq<u8>) -> bool {
    buf.len() >= 5 && buf.len() >= 5 + be16(buf, 3)
}

/// Whether peeking goes on after `buf` has been read.
pub open spec fn peek_goes_on(buf: Seq<u8>) -> bool {
    &&& buf[0] == HANDSHAKE
    &&& !names_overrun(buf)
    &&& server_name(buf) is None
    &&& !record_complete(buf)
    &&& buf.len() < PEEK_LIMIT
}

/// Decides, once the bytes `buf` of a connection have been read, whether to read on.
pub fn peek(buf: &[u8]) -> (r: Peek)
    requires
        buf@.len() > 0,
    ensures
        r is More <==> peek_goes_on(buf@),
        r is More <==> {
            &&& buf@[0] == 0x16
            &&& !names_overrun(buf@)
            &&& server_name(buf@) is None
            &&& buf@.len() >= 5 ==> buf@.len() < 5 + buf@[3] as int * 256 + buf@[4] as int
            &&& buf@.len() < 2048
        },
        r is Overrun <==> buf@[0] == HANDSHAKE && names_overrun(buf@),
        r is Found <==> buf@[0] == HANDSHAKE && server_name(buf@) is Some,
        r matches Peek::Found(name) ==> server_name(buf@) == Some(name@),
{
    if buf[0] != HANDSHAKE {
        return Peek::Stop;
    }
    match scan_sni(buf) {
        SniScan::Name(name) => {
            return Peek::Found(name);
        },
        SniScan::Overrun => {
            return Peek::Overrun;
        },
        SniScan::Absent => {},
    }
    if buf.len() >= 5 && buf.len() - 5 >= read16(buf, 3) {
        return Peek::Stop;
    }
    if buf.len() >= PEEK_LIMIT {
        return Peek::Stop;
    }
    Peek::More
}


/// The two bytes of a big-endian number.
pub open spec fn put16(n: int) -> Seq<u8> {
    seq![(n / 256) as u8, (n % 256) as u8]
}

/// An extension of a ClientHello.
pub open spec fn extension(kind: int, content: Seq<u8>) -> Seq<u8> {
    put16(kind) + put16(content.len() as int) + content
}

/// A run of extensions.
pub open spec fn extension_run(list: Seq<(u16, Seq<u8>)>) -> Seq<u8>
    decreases list.len(),
{
    if list.len() == 0 {
        Seq::empty()
    } else {
        extension(list[0].0 as int, list[0].1) + extension_run(list.drop_first())
    }
}

/// The content of a server name extension that announces the one host `host`.
pub open spec fn host_list(host: Seq<u8>) -> Seq<u8> {
    put16(host.len() as int + 3) + seq![0u8] + put16(host.len() as int) + host
}

/// A ClientHello record: `head` is what comes before the session id.
pub open spec fn client_hello(
    head: Seq<u8>,
    session: Seq<u8>,
    cipher_suites: Seq<u8>,
    compression: Seq<u8>,
    exts: Seq<u8>,
) -> Seq<u8> {
    head + seq![session.len() as u8] + session + put16(cipher_suites.len() as int) + cipher_suites + seq![
        compression.len() as u8,
    ] + compression + put16(exts.len() as int) + exts
}

/// Reading a number back from where it was put.
proof fn lemma_be16(buf: Seq<u8>, p: int, n: int)
    requires
        0 <= n < 65536,
        0 <= p,
        p + 2 <= buf.len(),
        buf.subrange(p, p + 2) == put16(n),
    ensures
        be16(buf, p) == n,
{
    assert(buf[p] == buf.subrange(p, p + 2)[0]);
    assert(buf[p + 1] == buf.subrange(p, p + 2)[1]);
}

/// Extensions of other types are passed over.
proof fn lemma_passes_over(buf: Seq<u8>, pos: int, end: int, list: Seq<(u16, Seq<u8>)>)
    requires
        0 <= pos,
        pos + extension_run(list).len() <= end <= buf.len(),
        buf.subrange(pos, pos + extension_run(list).len()) == extension_run(list),
        forall|i: int| 0 <= i < list.len() ==> (#[trigger] list[i]).0 != 0 && list[i].1.len() < 65536,
    ensures
        name_extension(buf, pos, end) == name_extension(buf, pos + extension_run(list).len(), end),
    decreases list.len(),
{
    if list.len() > 0 {
        let run = extension_run(list);
        let tail = extension_run(list.drop_first());
        let kind = list[0].0 as int;
        let content = list[0].1;
        let one = extension(kind, content);
        assert(one.len() == 4 + content.len());
        let next = pos + one.len();
        let whole = buf.subrange(pos, pos + run.len());
        assert(buf.subrange(pos, pos + 2) =~= whole.subrange(0, 2));
        assert(whole.subrange(0, 2) =~= put16(kind));
        assert(buf.subrange(pos + 2, pos + 4) =~= whole.subrange(2, 4));
        assert(whole.subrange(2, 4) =~= put16(content.len() as int));
        lemma_be16(buf, pos, kind);
        lemma_be16(buf, pos + 2, content.len() as int);
        assert(buf.subrange(next, next + tail.len()) =~= whole.subrange(
            one.len() as int,
            run.len() as int,
        ));
        assert(run.subrange(one.len() as int, run.len() as int) =~= tail);
        assert forall|i: int| 0 <= i < list.drop_first().len() implies (#[trigger] list.drop_first()[i]).0
            != 0 && list.drop_first()[i].1.len() < 65536 by {
            assert(list.drop_first()[i] == list[i + 1]);
        }
        lemma_passes_over(buf, next, end, list.drop_first());
    }
}

/// The extensions of a well-formed ClientHello are found, whatever follows it.
proof fn lemma_finds_extensions(
    head: Seq<u8>,
    session: Seq<u8>,
    cipher_suites: Seq<u8>,
    compression: Seq<u8>,
    exts: Seq<u8>,
    trailing: Seq<u8>,
)
    requires
        head.len() == 43,
        head[0] == HANDSHAKE,
        head[5] == CLIENT_HELLO,
        session.len() < 256,
        cipher_suites.len() < 65536,
        compression.len() < 256,
        0 < exts.len() < 65536,
    ensures
        ({
            let buf = client_hello(head, session, cipher_suites, compression, exts) + trailing;
            let start = 44int + session.len() + 2 + cipher_suites.len() + 1 + compression.len() + 2;
            &&& extensions(buf) == Some((start, start + exts.len()))
            &&& buf.len() >= start + exts.len()
            &&& buf.subrange(start, start + exts.len()) == exts
        }),
{
    let buf = client_hello(head, session, cipher_suites, compression, exts) + trailing;
    let a = 44int + session.len();
    let b = a + 2 + cipher_suites.len();
    let c = b + 1 + compression.len();
    let start = c + 2;
    assert(buf[0] == head[0]);
    assert(buf[5] == head[5]);
    assert(buf[43] == session.len() as u8);
    assert(buf.subrange(a as int, a + 2) =~= put16(cipher_suites.len() as int));
    lemma_be16(buf, a as int, cipher_suites.len() as int);
    assert(buf[b as int] == compression.len() as u8);
    assert(buf.subrange(c as int, c + 2) =~= put16(exts.len() as int));
    lemma_be16(buf, c as int, exts.len() as int);
    assert(buf.subrange(start as int, start + exts.len()) =~= exts);
}

/// The host of a server name extension is found among the extensions.
proof fn lemma_finds_host(
    buf: Seq<u8>,
    start: int,
    end: int,
    before: Seq<(u16, Seq<u8>)>,
    host: Seq<u8>,
    after: Seq<u8>,
)
    requires
        extensions(buf) == Some((start, end)),
        0 <= start,
        end <= buf.len(),
        end == start + (extension_run(before) + extension(0, host_list(host)) + after).len(),
        end - start < 65536,
        buf.subrange(start, end) == extension_run(before) + extension(0, host_list(host)) + after,
        forall|i: int|
            0 <= i < before.len() ==> (#[trigger] before[i]).0 != 0 && before[i].1.len() < 65536,
    ensures
        hello_host(buf) matches HostEntry::At(from, to) && buf.subrange(from, to) == host,
{
    let run = extension_run(before);
    let list = host_list(host);
    let ext = extension(0, list);
    let got = run + ext + after;
    assert(list.len() == host.len() + 5);
    assert(ext.len() == list.len() + 4);
    assert(buf.subrange(start, start + run.len()) =~= buf.subrange(start, end).subrange(
        0,
        run.len() as int,
    ));
    assert(got.subrange(0, run.len() as int) =~= run);
    lemma_passes_over(buf, start, end, before);
    let p = start + run.len();
    assert forall|k: int| 0 <= k < ext.len() implies #[trigger] buf[p + k] == ext[k] by {
        assert(buf[p + k] == buf.subrange(start, end)[run.len() + k]);
        assert(got[run.len() + k] == ext[k]);
    }
    assert(buf[p + 0] == ext[0] && buf[p + 1] == ext[1]);
    assert(be16(buf, p) == 0);
    let q = p + 4;
    assert(name_extension(buf, start, end) == Some(q));
    assert(buf[p + 4] == ext[4] && ext[4] == list[0]);
    assert(buf[p + 5] == ext[5] && ext[5] == list[1]);
    assert(be16(buf, q) == host.len() + 3);
    assert(buf[p + 6] == ext[6] && ext[6] == list[2] && list[2] == 0);
    assert(buf[p + 7] == ext[7] && ext[7] == list[3]);
    assert(buf[p + 8] == ext[8] && ext[8] == list[4]);
    assert(be16(buf, q + 3) == host.len());
    assert(hello_host(buf) == HostEntry::At(q + 5, q + 5 + host.len()));
    assert forall|k: int| 0 <= k < host.len() implies #[trigger] buf.subrange(
        q + 5,
        q + 5 + host.len(),
    )[k] == host[k] by {
        assert(buf[p + (9 + k)] == ext[9 + k]);
        assert(ext[9 + k] == list[5 + k]);
    }
    assert(buf.subrange(q + 5, q + 5 + host.len()) =~= host);
}

/// A server name is found in every well-formed ClientHello that announces it, whatever other
/// extensions come before it and whatever bytes come after it.
pub proof fn lemma_announced_name_is_found(
    head: Seq<u8>,
    session: Seq<u8>,
    cipher_suites: Seq<u8>,
    compression: Seq<u8>,
    before: Seq<(u16, Seq<u8>)>,
    name: Seq<char>,
    after: Seq<u8>,
    trailing: Seq<u8>,
)
    requires
        head.len() == 43,
        head[0] == HANDSHAKE,
        head[5] == CLIENT_HELLO,
        session.len() < 256,
        cipher_suites.len() < 65536,
        compression.len() < 256,
        forall|i: int|
            0 <= i < before.len() ==> (#[trigger] before[i]).0 != 0 && before[i].1.len() < 65536,
        (extension_run(before) + extension(0, host_list(encode_utf8(name))) + after).len() < 65536,
    ensures
        ({
            let exts = extension_run(before) + extension(0, host_list(encode_utf8(name))) + after;
            let buf = client_hello(head, session, cipher_suites, compression, exts) + trailing;
            &&& !names_overrun(buf)
            &&& server_name(buf) == Some(name)
        }),
{
    let host = encode_utf8(name);
    let exts = extension_run(before) + extension(0, host_list(host)) + after;
    let buf = client_hello(head, session, cipher_suites, compression, exts) + trailing;
    let start = 44int + session.len() + 2 + cipher_suites.len() + 1 + compression.len() + 2;
    lemma_finds_extensions(head, session, cipher_suites, compression, exts, trailing);
    lemma_finds_host(buf, start, start + exts.len(), before, host, after);
    encode_utf8_valid_utf8(name);
    encode_utf8_decode_utf8(name);
}

/// The walk over extensions reads nothing past their end.
proof fn lemma_name_extension_stable(buf: Seq<u8>, more: Seq<u8>, pos: int, end: int)
    requires
        0 <= pos,
        end <= buf.len(),
    ensures
        name_extension(buf + more, pos, end) == name_extension(buf, pos, end),
    decreases (if pos <= end { end - pos + 1 } else { 0 }),
{
    if pos + 4 <= end {
        let whole = buf + more;
        assert(be16(whole, pos) == be16(buf, pos));
        assert(be16(whole, pos + 2) == be16(buf, pos + 2));
        if be16(buf, pos) != 0 {
            lemma_name_extension_stable(buf, more, pos + 4 + be16(buf, pos + 2), end);
        }
    }
}

/// The walk over names that does not overrun reads nothing past the buffer.
proof fn lemma_host_entry_stable(buf: Seq<u8>, more: Seq<u8>, pos: int, end: int)
    requires
        0 <= pos,
        !(host_entry(buf, pos, end) is Overrun),
    ensures
        host_entry(buf + more, pos, end) == host_entry(buf, pos, end),
    decreases (if pos <= end { end - pos + 1 } else { 0 }),
{
    if pos + 3 <= end {
        let whole = buf + more;
        assert(whole[pos] == buf[pos]);
        assert(be16(whole, pos + 1) == be16(buf, pos + 1));
        if buf[pos] != 0 {
            lemma_host_entry_stable(buf, more, pos + 3 + be16(buf, pos + 1), end);
        }
    }
}

/// What was found in the first bytes of a connection stays found: more bytes do not change the
/// server name.
pub proof fn lemma_found_name_is_stable(buf: Seq<u8>, more: Seq<u8>)
    requires
        server_name(buf) is Some,
    ensures
        server_name(buf + more) == server_name(buf),
        !names_overrun(buf + more),
{
    let whole = buf + more;
    let (start, end) = extensions(buf)->0;
    let a = 44 + buf[43] as int;
    let b = a + 2 + be16(buf, a);
    let c = b + 1 + buf[b] as int;
    assert(whole[0] == buf[0] && whole[5] == buf[5] && whole[43] == buf[43]);
    assert(be16(whole, a) == be16(buf, a));
    assert(whole[b] == buf[b]);
    assert(be16(whole, c) == be16(buf, c));
    assert(extensions(whole) == extensions(buf));
    lemma_name_extension_stable(buf, more, start, end);
    let pos = name_extension(buf, start, end)->0;
    lemma_name_extension_position(buf, start, end);
    assert(be16(whole, pos) == be16(buf, pos));
    lemma_host_entry_stable(buf, more, pos + 2, pos + 2 + be16(buf, pos));
    lemma_host_entry_range(buf, pos + 2, pos + 2 + be16(buf, pos));
    if let HostEntry::At(from, to) = hello_host(buf) {
        assert(whole.subrange(from, to) =~= buf.subrange(from, to));
    }
}

/// A name extension lies behind where the search started.
proof fn lemma_name_extension_position(buf: Seq<u8>, pos: int, end: int)
    requires
        0 <= pos,
    ensures
        name_extension(buf, pos, end) matches Some(p) ==> pos + 4 <= p <= end,
    decreases (if pos <= end { end - pos + 1 } else { 0 }),
{
    if pos + 4 <= end && be16(buf, pos) != 0 {
        lemma_name_extension_position(buf, pos + 4 + be16(buf, pos + 2), end);
    }
}

/// A host name lies in the buffer.
proof fn lemma_host_entry_range(buf: Seq<u8>, pos: int, end: int)
    requires
        0 <= pos,
    ensures
        host_entry(buf, pos, end) matches HostEntry::At(from, to) ==> 0 <= from <= to <= buf.len(),
    decreases (if pos <= end { end - pos + 1 } else { 0 }),
{
    if pos + 3 <= end && pos + 3 <= buf.len() && buf[pos] != 0 {
        lemma_host_entry_range(buf, pos + 3 + be16(buf, pos + 1), end);
    }
}

/// Where a ClientHello is cut off, its extensions are not found.
proof fn lemma_cut_hello(
    head: Seq<u8>,
    session: Seq<u8>,
    cipher_suites: Seq<u8>,
    compression: Seq<u8>,
    exts: Seq<u8>,
    k: int,
)
    requires
        head.len() == 43,
        session.len() < 256,
        cipher_suites.len() < 65536,
        compression.len() < 256,
        exts.len() < 65536,
        0 <= k < client_hello(head, session, cipher_suites, compression, exts).len(),
    ensures
        extensions(client_hello(head, session, cipher_suites, compression, exts).take(k)) is None,
{
    let buf = client_hello(head, session, cipher_suites, compression, exts);
    let part = buf.take(k);
    let a = 44int + session.len();
    let b = a + 2 + cipher_suites.len();
    let c = b + 1 + compression.len();
    assert(buf.len() == c + 2 + exts.len());
    if k > 43 {
        assert(part[43] == buf[43] && buf[43] == session.len() as u8);
        if k > a + 1 {
            assert(part.subrange(a, a + 2) =~= put16(cipher_suites.len() as int));
            lemma_be16(part, a, cipher_suites.len() as int);
            if k > b {
                assert(part[b] == buf[b] && buf[b] == compression.len() as u8);
                if k > c + 1 {
                    assert(part.subrange(c, c + 2) =~= put16(exts.len() as int));
                    lemma_be16(part, c, exts.len() as int);
                }
            }
        }
    }
}

/// While the record with a ClientHello arrives, in whatever segments, peeking goes on exactly until
/// the ClientHello is there, and then its server name is found. The record gives its own length,
/// big-endian, in its bytes 3 and 4.
pub proof fn lemma_peeking_waits_for_the_name(
    head: Seq<u8>,
    session: Seq<u8>,
    cipher_suites: Seq<u8>,
    compression: Seq<u8>,
    before: Seq<(u16, Seq<u8>)>,
    name: Seq<char>,
    after: Seq<u8>,
    trailing: Seq<u8>,
    k: int,
)
    requires
        head.len() == 43,
        head[0] == 0x16,
        head[5] == 0x01,
        session.len() < 256,
        cipher_suites.len() < 65536,
        compression.len() < 256,
        forall|i: int|
            0 <= i < before.len() ==> (#[trigger] before[i]).0 != 0 && before[i].1.len() < 65536,
        ({
            let exts = extension_run(before) + extension(0, host_list(encode_utf8(name))) + after;
            let hello = client_hello(head, session, cipher_suites, compression, exts);
            let record = hello + trailing;
            &&& exts.len() < 65536
            &&& record.len() <= 2048
            &&& head[3] as int * 256 + head[4] as int == record.len() - 5
            &&& 0 < k <= record.len()
        }),
    ensures
        ({
            let exts = extension_run(before) + extension(0, host_list(encode_utf8(name))) + after;
            let hello = client_hello(head, session, cipher_suites, compression, exts);
            let part = (hello + trailing).take(k);
            &&& part[0] == HANDSHAKE
            &&& !names_overrun(part)
            &&& k < hello.len() ==> peek_goes_on(part) && server_name(part) is None
            &&& k >= hello.len() ==> server_name(part) == Some(name) && !peek_goes_on(part)
        }),
{
    let exts = extension_run(before) + extension(0, host_list(encode_utf8(name))) + after;
    let hello = client_hello(head, session, cipher_suites, compression, exts);
    let record = hello + trailing;
    let part = record.take(k);
    assert(part[0] == head[0]);
    if k < hello.len() {
        assert(part =~= hello.take(k));
        lemma_cut_hello(head, session, cipher_suites, compression, exts, k);
        if k >= 5 {
            assert(part[3] == head[3] && part[4] == head[4]);
        }
    } else {
        assert(part =~= hello + trailing.take(k - hello.len()));
        lemma_announced_name_is_found(
            head,
            session,
            cipher_suites,
            compression,
            before,
            name,
            after,
            trailing.take(k - hello.len()),
        );
    }
}

/// Peeking goes on where the bytes start like a handshake, hold no name yet, are fewer than their
/// record claims in its bytes 3 and 4, and are fewer than 2048; and nowhere else.
pub proof fn lemma_when_peeking_goes_on(buf: Seq<u8>)
    requires
        buf.len() > 0,
    ensures
        buf[0] != 0x16 ==> !peek_goes_on(buf),
        buf.len() >= 2048 ==> !peek_goes_on(buf),
        buf.len() >= 5 && buf.len() >= 5 + buf[3] as int * 256 + buf[4] as int ==> !peek_goes_on(buf),
        server_name(buf) is Some ==> !peek_goes_on(buf),
        ({
            &&& buf[0] == 0x16
            &&& server_name(buf) is None
            &&& !names_overrun(buf)
            &&& buf.len() < 2048
            &&& buf.len() < 5 || buf.len() < 5 + buf[3] as int * 256 + buf[4] as int
        }) ==> peek_goes_on(buf),
{
}

/// A well-formed ClientHello without a server name extension has no server name.
pub proof fn lemma_hello_without_name(
    head: Seq<u8>,
    session: Seq<u8>,
    cipher_suites: Seq<u8>,
    compression: Seq<u8>,
    list: Seq<(u16, Seq<u8>)>,
    trailing: Seq<u8>,
)
    requires
        head.len() == 43,
        head[0] == 0x16,
        head[5] == 0x01,
        session.len() < 256,
        cipher_suites.len() < 65536,
        compression.len() < 256,
        forall|i: int|
            0 <= i < list.len() ==> (#[trigger] list[i]).0 != 0 && list[i].1.len() < 65536,
        0 < extension_run(list).len() < 65536,
    ensures
        ({
            let buf = client_hello(head, session, cipher_suites, compression, extension_run(list))
                + trailing;
            &&& server_name(buf) is None
            &&& !names_overrun(buf)
        }),
{
    let exts = extension_run(list);
    let buf = client_hello(head, session, cipher_suites, compression, exts) + trailing;
    let start = 44int + session.len() + 2 + cipher_suites.len() + 1 + compression.len() + 2;
    lemma_finds_extensions(head, session, cipher_suites, compression, exts, trailing);
    lemma_passes_over(buf, start, start + exts.len(), list);
}

/// A host name that is found is one that the bytes announce: behind the type 0 and its own length,
/// in two bytes, and inside the list and the buffer.
proof fn lemma_host_entry_is_announced(buf: Seq<u8>, pos: int, end: int)
    requires
        0 <= pos,
    ensures
        host_entry(buf, pos, end) matches HostEntry::At(from, to) ==> {
            &&& pos + 3 <= from <= to <= end
            &&& to <= buf.len()
            &&& buf[from - 3] == 0
            &&& buf[from - 2] as int * 256 + buf[from - 1] as int == to - from
        },
    decreases (if pos <= end { end - pos + 1 } else { 0 }),
{
    if pos + 3 <= end && pos + 3 <= buf.len() && buf[pos] != 0 {
        lemma_host_entry_is_announced(buf, pos + 3 + be16(buf, pos + 1), end);
    }
}

/// A server name is only ever found in a handshake record with a ClientHello in it, as bytes of
/// that: a host name (type 0) of just the length that is given in front of it.
pub proof fn lemma_name_is_announced(buf: Seq<u8>)
    requires
        server_name(buf) is Some,
    ensures
        buf.len() > 43,
        buf[0] == 0x16,
        buf[5] == 0x01,
        exists|from: int, to: int|
            {
                &&& 47 <= from <= to <= buf.len()
                &&& buf[from - 3] == 0
                &&& buf[from - 2] as int * 256 + buf[from - 1] as int == to - from
                &&& encode_utf8(server_name(buf)->0) == #[trigger] buf.subrange(from, to)
            },
{
    let (start, end) = extensions(buf)->0;
    lemma_name_extension_position(buf, start, end);
    let pos = name_extension(buf, start, end)->0;
    lemma_host_entry_is_announced(buf, pos + 2, pos + 2 + be16(buf, pos));
    if let HostEntry::At(from, to) = hello_host(buf) {
        decode_utf8_encode_utf8(buf.subrange(from, to));
    }
}

/// The walk over extensions ends at the first of type 0, and passes over any other by its length;
/// the walk over names ends at the first of type 0, and passes over any other by its length.
pub proof fn lemma_walks(buf: Seq<u8>, pos: int, end: int)
    requires
        0 <= pos,
    ensures
        pos + 4 > end ==> name_extension(buf, pos, end) is None,
        pos + 4 <= end && buf[pos] == 0 && buf[pos + 1] == 0 ==> name_extension(buf, pos, end) == Some(
            pos + 4,
        ),
        pos + 4 <= end && !(buf[pos] == 0 && buf[pos + 1] == 0) ==> name_extension(buf, pos, end)
            == name_extension(buf, pos + 4 + buf[pos + 2] as int * 256 + buf[pos + 3] as int, end),
        pos + 3 > end ==> host_entry(buf, pos, end) is Missing,
        pos + 3 <= end && pos + 3 <= buf.len() && buf[pos] != 0 ==> host_entry(buf, pos, end)
            == host_entry(buf, pos + 3 + buf[pos + 1] as int * 256 + buf[pos + 2] as int, end),
        pos + 3 <= end && pos + 3 <= buf.len() && buf[pos] == 0 ==> {
            let stop = pos + 3 + buf[pos + 1] as int * 256 + buf[pos + 2] as int;
            &&& stop > end ==> host_entry(buf, pos, end) is Missing
            &&& stop <= end && stop <= buf.len() ==> host_entry(buf, pos, end) == HostEntry::At(
                pos + 3,
                stop,
            )
        },
{
}

/// The bytes of a host name are the server name where they are UTF-8, and there is none where they
/// are not.
pub proof fn lemma_name_is_utf8(buf: Seq<u8>, from: int, to: int, name: Seq<char>)
    requires
        hello_host(buf) == HostEntry::At(from, to),
    ensures
        server_name(buf) is Some <==> valid_utf8(buf.subrange(from, to)),
        buf.subrange(from, to) == encode_utf8(name) ==> server_name(buf) == Some(name),
{
    encode_utf8_valid_utf8(name);
    encode_utf8_decode_utf8(name);
}

} // verus!
