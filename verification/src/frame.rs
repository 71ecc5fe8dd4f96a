//! The framing of payloads in the body of a tunnel request.
//!
//! A frame is a flag byte, which is zero and is not looked at, the length of the payload in four
//! bytes, big-endian, and the payload.
use crate::buffers;
use bytes::{Bytes, BytesMut};
use vstd::prelude::*;

verus! {

/// How many bytes come before the payload of a frame.
pub const HEADER_LEN: usize = 5;

/// How many bytes of a payload are read at a time.
pub const READ_CHUNK: usize = 65536;

/// The four bytes of a big-endian number.
pub open spec fn put32(n: int) -> Seq<u8> {
    seq![
        (n / 16777216 % 256) as u8,
        (n / 65536 % 256) as u8,
        (n / 256 % 256) as u8,
        (n % 256) as u8,
    ]
}

/// The header of a frame with a payload of `n` bytes: the length is that modulo 2^32.
pub open spec fn header(n: int) -> Seq<u8> {
    seq![0u8] + put32(n)
}

/// The frame of a payload.
pub open spec fn frame_of(payload: Seq<u8>) -> Seq<u8> {
    header(payload.len() as int) + payload
}

/// The length that the header at the start of `b` gives.
pub open spec fn payload_len(b: Seq<u8>) -> int {
    b[1] as int * 16777216 + b[2] as int * 65536 + b[3] as int * 256 + b[4] as int
}

/// Whether `b` starts with a complete frame.
pub open spec fn starts_with_frame(b: Seq<u8>) -> bool {
    b.len() >= 5 && b.len() >= 5 + payload_len(b)
}

/// The payloads of the complete frames that `b` starts with.
pub open spec fn payloads(b: Seq<u8>) -> Seq<Seq<u8>>
    decreases b.len(),
{
    if starts_with_frame(b) {
        seq![b.subrange(5, 5 + payload_len(b))] + payloads(b.skip(5 + payload_len(b)))
    } else {
        Seq::empty()
    }
}

/// What is left of `b` behind the complete frames that it starts with.
pub open spec fn leftover(b: Seq<u8>) -> Seq<u8>
    decreases b.len(),
{
    if starts_with_frame(b) {
        leftover(b.skip(5 + payload_len(b)))
    } else {
        b
    }
}

/// Writes the length `n` into the header at the start of `buf`.
fn write_len(buf: &mut BytesMut, n: usize)
    requires
        buffers::bytes_mut_seq(*old(buf)).len() >= 5,
    ensures
        buffers::bytes_mut_seq(*final(buf)) == buffers::bytes_mut_seq(*old(buf)).take(1) + put32(n as int)
            + buffers::bytes_mut_seq(*old(buf)).skip(5),
{
    let ghost before = buffers::bytes_mut_seq(*buf);
    let b1: u8 = (n / 16777216 % 256) as u8;
    let b2: u8 = (n / 65536 % 256) as u8;
    let b3: u8 = (n / 256 % 256) as u8;
    let b4: u8 = (n % 256) as u8;
    buffers::bytes_mut_set(buf, 1, b1);
    buffers::bytes_mut_set(buf, 2, b2);
    buffers::bytes_mut_set(buf, 3, b3);
    buffers::bytes_mut_set(buf, 4, b4);
    proof {
        assert(buffers::bytes_mut_seq(*buf) =~= before.take(1) + put32(n as int) + before.skip(5));
    }
}

/// Appends a header that gives no length yet.
fn push_blank_header(buf: &mut BytesMut)
    requires
        buffers::bytes_mut_seq(*old(buf)).len() + 5 <= isize::MAX,
    ensures
        buffers::bytes_mut_seq(*final(buf)) == buffers::bytes_mut_seq(*old(buf)) + seq![
            0u8,
            0u8,
            0u8,
            0u8,
            0u8,
        ],
{
    let blank: [u8; 5] = [0, 0, 0, 0, 0];
    proof {
        assert(blank@ =~= seq![0u8, 0u8, 0u8, 0u8, 0u8]);
    }
    buffers::bytes_mut_extend(buf, blank.as_slice());
}

/// The frame of a payload.
pub fn frame_payload(payload: &[u8]) -> (r: Bytes)
    requires
        payload@.len() + 5 <= isize::MAX,
    ensures
        buffers::bytes_seq(r) == frame_of(payload@),
{
    let mut buf: BytesMut = buffers::bytes_mut_with_capacity(HEADER_LEN + payload.len());
    push_blank_header(&mut buf);
    write_len(&mut buf, payload.len());
    buffers::bytes_mut_extend(&mut buf, payload);
    let r: Bytes = buffers::bytes_mut_freeze(buf);
    proof {
        assert(buffers::bytes_seq(r) =~= frame_of(payload@));
    }
    r
}

/// Empties `buf` and starts a frame in it, with room for a payload that is then read into it.
pub fn begin_frame(buf: &mut BytesMut)
    ensures
        buffers::bytes_mut_seq(*final(buf)) == seq![0u8, 0u8, 0u8, 0u8, 0u8],
{
    buffers::bytes_mut_clear(buf);
    buffers::bytes_mut_reserve(buf, READ_CHUNK + HEADER_LEN);
    push_blank_header(buf);
    proof {
        assert(buffers::bytes_mut_seq(*buf) =~= seq![0u8, 0u8, 0u8, 0u8, 0u8]);
    }
}

/// Takes the frame out that was started in `buf`, once `n` bytes have been read into it.
pub fn finish_frame(buf: &mut BytesMut, n: usize) -> (r: Bytes)
    requires
        buffers::bytes_mut_seq(*old(buf)).len() >= 5,
    ensures
        buffers::bytes_seq(r) == buffers::bytes_mut_seq(*old(buf)).take(1) + put32(n as int)
            + buffers::bytes_mut_seq(*old(buf)).skip(5),
        buffers::bytes_mut_seq(*final(buf)) == Seq::<u8>::empty(),
{
    write_len(buf, n);
    let whole: BytesMut = buffers::bytes_mut_split(buf);
    buffers::bytes_mut_freeze(whole)
}

/// The length in the header at the start of `b`.
fn read_len(b: &[u8]) -> (r: usize)
    requires
        b@.len() >= 5,
    ensures
        r == payload_len(b@),
{
    b[1] as usize * 16777216 + b[2] as usize * 65536 + b[3] as usize * 256 + b[4] as usize
}

/// The length of the payload that `b` starts with the frame of.
fn first_frame(b: &[u8]) -> (r: Option<usize>)
    ensures
        r is Some <==> starts_with_frame(b@),
        r matches Some(n) ==> n == payload_len(b@),
{
    if b.len() < HEADER_LEN {
        return None;
    }
    let n: usize = read_len(b);
    if b.len() - HEADER_LEN < n {
        None
    } else {
        Some(n)
    }
}

/// Takes frames apart that arrive in chunks.
pub struct FrameDecoder {
    pending: BytesMut,
}

impl View for FrameDecoder {
    type V = Seq<u8>;

    /// The bytes that came in and are not part of a complete frame yet.
    closed spec fn view(&self) -> Seq<u8> {
        buffers::bytes_mut_seq(self.pending)
    }
}

impl FrameDecoder {
    /// A decoder that nothing has come in at.
    pub fn new() -> (r: Self)
        ensures
            r@ == Seq::<u8>::empty(),
    {
        FrameDecoder { pending: buffers::bytes_mut_new() }
    }

    /// Whether a chunk of `len` bytes can be taken in.
    pub fn has_room(&self, len: usize) -> (r: bool)
        ensures
            r == (self@.len() + len <= isize::MAX),
    {
        let held: usize = buffers::bytes_mut_slice(&self.pending).len();
        len <= isize::MAX as usize - held
    }

    /// Takes a chunk in, and gives out the payloads of the frames that are complete with it.
    pub fn feed(&mut self, data: Bytes) -> (r: Vec<Bytes>)
        requires
            old(self)@.len() + buffers::bytes_seq(data).len() <= isize::MAX,
        ensures
            buffers::all_bytes(r@) == payloads(old(self)@ + buffers::bytes_seq(data)),
            final(self)@ == leftover(old(self)@ + buffers::bytes_seq(data)),
    {
        let ghost whole = self@ + buffers::bytes_seq(data);
        let mut out: Vec<Bytes> = Vec::new();
        if buffers::bytes_mut_slice(&self.pending).len() == 0 {
            let mut rest: Bytes = data;
            proof {
                assert(whole =~= buffers::bytes_seq(rest));
                assert(buffers::all_bytes(out@) + payloads(whole) =~= payloads(whole));
            }
            loop
                invariant
                    self@ == Seq::<u8>::empty(),
                    buffers::bytes_seq(rest).len() <= isize::MAX,
                    buffers::all_bytes(out@) + payloads(buffers::bytes_seq(rest)) == payloads(whole),
                    leftover(buffers::bytes_seq(rest)) == leftover(whole),
                ensures
                    !starts_with_frame(buffers::bytes_seq(rest)),
                decreases buffers::bytes_seq(rest).len(),
            {
                let n: usize = match first_frame(buffers::bytes_slice(&rest)) {
                    Some(n) => n,
                    None => {
                        break;
                    },
                };
                let ghost cur = buffers::bytes_seq(rest);
                let ghost done = out@;
                let len: usize = buffers::bytes_slice(&rest).len();
                let payload: Bytes = buffers::bytes_part(&rest, HEADER_LEN, HEADER_LEN + n);
                rest = buffers::bytes_part(&rest, HEADER_LEN + n, len);
                out.push(payload);
                proof {
                    assert(cur.subrange(5 + n, len as int) =~= cur.skip(5 + n));
                    assert(buffers::all_bytes(out@) =~= buffers::all_bytes(done).push(cur.subrange(5, 5 + n)));
                    assert(buffers::all_bytes(out@) + payloads(cur.skip(5 + n)) =~= buffers::all_bytes(done) + (
                    seq![cur.subrange(5, 5 + n)] + payloads(cur.skip(5 + n))));
                }
            }
            proof {
                assert(buffers::all_bytes(out@) + payloads(buffers::bytes_seq(rest)) =~= buffers::all_bytes(out@));
            }
            let left: &[u8] = buffers::bytes_slice(&rest);
            if left.len() > 0 {
                buffers::bytes_mut_extend(&mut self.pending, left);
            }
            proof {
                assert(self@ =~= buffers::bytes_seq(rest));
            }
        } else {
            buffers::bytes_mut_extend(&mut self.pending, buffers::bytes_slice(&data));
            proof {
                assert(buffers::all_bytes(out@) + payloads(whole) =~= payloads(whole));
            }
            loop
                invariant
                    self@.len() <= isize::MAX,
                    buffers::all_bytes(out@) + payloads(self@) == payloads(whole),
                    leftover(self@) == leftover(whole),
                ensures
                    !starts_with_frame(self@),
                decreases self@.len(),
            {
                let n: usize = match first_frame(buffers::bytes_mut_slice(&self.pending)) {
                    Some(n) => n,
                    None => {
                        break;
                    },
                };
                let ghost cur = self@;
                let ghost done = out@;
                let head: BytesMut = buffers::bytes_mut_split_to(&mut self.pending, HEADER_LEN + n);
                let frame: Bytes = buffers::bytes_mut_freeze(head);
                let payload: Bytes = buffers::bytes_part(&frame, HEADER_LEN, HEADER_LEN + n);
                out.push(payload);
                proof {
                    assert(cur.take(5 + n).subrange(5, 5 + n) =~= cur.subrange(5, 5 + n));
                    assert(buffers::all_bytes(out@) =~= buffers::all_bytes(done).push(cur.subrange(5, 5 + n)));
                    assert(buffers::all_bytes(out@) + payloads(cur.skip(5 + n)) =~= buffers::all_bytes(done) + (
                    seq![cur.subrange(5, 5 + n)] + payloads(cur.skip(5 + n))));
                }
            }
            proof {
                assert(buffers::all_bytes(out@) + payloads(self@) =~= buffers::all_bytes(out@));
            }
        }
        out
    }
}


/// The frames of a sequence of payloads, one behind the other.
pub open spec fn stream_of(list: Seq<Seq<u8>>) -> Seq<u8>
    decreases list.len(),
{
    if list.len() == 0 {
        Seq::empty()
    } else {
        frame_of(list[0]) + stream_of(list.drop_first())
    }
}

/// A sequence of chunks as one.
pub open spec fn joined(chunks: Seq<Seq<u8>>) -> Seq<u8>
    decreases chunks.len(),
{
    if chunks.len() == 0 {
        Seq::empty()
    } else {
        joined(chunks.drop_last()) + chunks.last()
    }
}

/// The payloads that a decoder gives out for chunks that come in one after the other.
pub open spec fn fed(chunks: Seq<Seq<u8>>) -> Seq<Seq<u8>>
    decreases chunks.len(),
{
    if chunks.len() == 0 {
        Seq::empty()
    } else {
        fed(chunks.drop_last()) + payloads(held(chunks.drop_last()) + chunks.last())
    }
}

/// What a decoder holds after chunks have come in one after the other.
pub open spec fn held(chunks: Seq<Seq<u8>>) -> Seq<u8>
    decreases chunks.len(),
{
    if chunks.len() == 0 {
        Seq::empty()
    } else {
        leftover(held(chunks.drop_last()) + chunks.last())
    }
}

/// The first frame of a stream is read back.
proof fn lemma_first_frame(payload: Seq<u8>, rest: Seq<u8>)
    requires
        payload.len() < 0x1_0000_0000,
    ensures
        payloads(frame_of(payload) + rest) == seq![payload] + payloads(rest),
        leftover(frame_of(payload) + rest) == leftover(rest),
{
    let b = frame_of(payload) + rest;
    let n = payload.len() as int;
    assert(b[1] == put32(n)[0] && b[2] == put32(n)[1] && b[3] == put32(n)[2] && b[4] == put32(n)[3]);
    assert(n / 16777216 % 256 == n / 16777216);
    assert((n / 16777216) * 16777216 + (n / 65536 % 256) * 65536 + (n / 256 % 256) * 256 + n % 256 == n)
        by (nonlinear_arith)
        requires
            0 <= n < 0x1_0000_0000,
    ;
    assert(payload_len(b) == n);
    assert(b.subrange(5, 5 + n) =~= payload);
    assert(b.skip(5 + n) =~= rest);
}

/// What a stream of frames carries is what was put into it: the payloads come out as they went
/// in, in their order, and nothing is left over.
pub proof fn lemma_stream_round_trip(list: Seq<Seq<u8>>)
    requires
        forall|i: int| 0 <= i < list.len() ==> (#[trigger] list[i]).len() < 0x1_0000_0000,
    ensures
        payloads(stream_of(list)) == list,
        leftover(stream_of(list)) == Seq::<u8>::empty(),
    decreases list.len(),
{
    if list.len() > 0 {
        let tail = list.drop_first();
        assert forall|i: int| 0 <= i < tail.len() implies (#[trigger] tail[i]).len() < 0x1_0000_0000 by {
            assert(tail[i] == list[i + 1]);
        }
        lemma_stream_round_trip(tail);
        lemma_first_frame(list[0], stream_of(tail));
        assert(seq![list[0]] + tail =~= list);
    } else {
        assert(payloads(stream_of(list)) =~= list);
    }
}

/// What is left over does not start with a complete frame, and is the end of what came in.
pub proof fn lemma_leftover(b: Seq<u8>)
    ensures
        !starts_with_frame(leftover(b)),
        leftover(b).len() <= b.len(),
        b.skip(b.len() - leftover(b).len()) == leftover(b),
    decreases b.len(),
{
    if starts_with_frame(b) {
        let n = 5 + payload_len(b);
        let t = b.skip(n);
        lemma_leftover(t);
        let k = leftover(t).len();
        assert(leftover(b) == leftover(t));
        assert(t.len() == b.len() - n);
        assert(t.skip(t.len() - k) =~= b.skip(b.len() - k));
    } else {
        assert(b.skip(0) =~= b);
    }
}

/// Taking in `a` and then `b` is taking in both at once.
pub proof fn lemma_two_chunks(a: Seq<u8>, b: Seq<u8>)
    ensures
        payloads(a + b) == payloads(a) + payloads(leftover(a) + b),
        leftover(a + b) == leftover(leftover(a) + b),
    decreases a.len(),
{
    if starts_with_frame(a) {
        let n = 5 + payload_len(a);
        let t = a.skip(n);
        lemma_two_chunks(t, b);
        assert(payload_len(a + b) == payload_len(a));
        assert((a + b).skip(n) =~= t + b);
        assert((a + b).subrange(5, n) =~= a.subrange(5, n));
        assert(payloads(a + b) =~= payloads(a) + payloads(leftover(a) + b));
    } else {
        assert(payloads(a) + payloads(leftover(a) + b) =~= payloads(a + b));
    }
}

/// It does not matter how a stream is cut into chunks: the same payloads come out, and the same
/// bytes are held.
pub proof fn lemma_chunks_do_not_matter(chunks: Seq<Seq<u8>>)
    ensures
        fed(chunks) == payloads(joined(chunks)),
        held(chunks) == leftover(joined(chunks)),
    decreases chunks.len(),
{
    if chunks.len() > 0 {
        let init = chunks.drop_last();
        lemma_chunks_do_not_matter(init);
        lemma_two_chunks(joined(init), chunks.last());
    } else {
        assert(fed(chunks) =~= payloads(joined(chunks)));
    }
}

/// Whatever payloads one side of a tunnel frames, and however the stream of their frames is cut
/// up on its way, the other side gets them as they were, in their order, and holds nothing back.
pub proof fn lemma_tunnel_carries_payloads(list: Seq<Seq<u8>>, chunks: Seq<Seq<u8>>)
    requires
        forall|i: int| 0 <= i < list.len() ==> (#[trigger] list[i]).len() < 0x1_0000_0000,
        joined(chunks) == stream_of(list),
    ensures
        fed(chunks) == list,
        held(chunks) == Seq::<u8>::empty(),
{
    lemma_stream_round_trip(list);
    lemma_chunks_do_not_matter(chunks);
}

/// A payload that was read into a started frame is framed as `frame_payload` frames it.
pub proof fn lemma_read_in_place(payload: Seq<u8>)
    ensures
        ({
            let buf = seq![0u8, 0u8, 0u8, 0u8, 0u8] + payload;
            buf.take(1) + put32(payload.len() as int) + buf.skip(5) == frame_of(payload)
        }),
{
    let buf = seq![0u8, 0u8, 0u8, 0u8, 0u8] + payload;
    assert(buf.take(1) + put32(payload.len() as int) + buf.skip(5) =~= frame_of(payload));
}

/// A frame is a zero byte, the length of its payload in four bytes, big-endian, and the payload.
pub proof fn lemma_frame_layout(payload: Seq<u8>)
    requires
        payload.len() < 0x1_0000_0000,
    ensures
        frame_of(payload).len() == 5 + payload.len(),
        frame_of(payload)[0] == 0,
        frame_of(payload)[1] as int * 16777216 + frame_of(payload)[2] as int * 65536 + frame_of(
            payload,
        )[3] as int * 256 + frame_of(payload)[4] as int == payload.len(),
        frame_of(payload).skip(5) == payload,
{
    let n = payload.len() as int;
    let b = frame_of(payload);
    assert(b[1] == put32(n)[0] && b[2] == put32(n)[1] && b[3] == put32(n)[2] && b[4] == put32(n)[3]);
    assert((n / 16777216) * 16777216 + (n / 65536 % 256) * 65536 + (n / 256 % 256) * 256 + n % 256 == n)
        by (nonlinear_arith)
        requires
            0 <= n < 0x1_0000_0000,
    ;
    assert(n / 16777216 % 256 == n / 16777216);
    assert(b.skip(5) =~= payload);
}

/// What comes in is read frame by frame: where the first five bytes give a length and as many bytes
/// follow, those are a payload, and what is behind them is read on; where not, all is held.
pub proof fn lemma_reading_frame_by_frame(b: Seq<u8>)
    ensures
        b.len() < 5 ==> payloads(b).len() == 0 && leftover(b) == b,
        b.len() >= 5 ==> {
            let n = b[1] as int * 16777216 + b[2] as int * 65536 + b[3] as int * 256 + b[4] as int;
            &&& b.len() < 5 + n ==> payloads(b).len() == 0 && leftover(b) == b
            &&& b.len() >= 5 + n ==> {
                &&& payloads(b) == seq![b.subrange(5, 5 + n)] + payloads(b.skip(5 + n))
                &&& leftover(b) == leftover(b.skip(5 + n))
            }
        },
{
}

/// A length is written big-endian in four bytes, which hold it modulo 2^32.
pub proof fn lemma_length_bytes(n: int)
    requires
        n >= 0,
    ensures
        put32(n).len() == 4,
        put32(n)[0] as int * 16777216 + put32(n)[1] as int * 65536 + put32(n)[2] as int * 256 + put32(
            n,
        )[3] as int == n % 0x1_0000_0000,
{
    assert(n / 16777216 % 256 * 16777216 + n / 65536 % 256 * 65536 + n / 256 % 256 * 256 + n % 256
        == n % 0x1_0000_0000);
}

} // verus!
