use bytes::{Bytes, BytesMut};
use ghostrpc::frame::{begin_frame, finish_frame, frame_payload, FrameDecoder};

fn feed(decoder: &mut FrameDecoder, chunk: &[u8]) -> Vec<Vec<u8>> {
    assert!(decoder.has_room(chunk.len()));
    decoder.feed(Bytes::copy_from_slice(chunk)).into_iter().map(|b| b.to_vec()).collect()
}

#[test]
fn frame_has_flag_and_big_endian_length() {
    assert_eq!(frame_payload(b"abc").to_vec(), vec![0, 0, 0, 0, 3, 97, 98, 99]);
    assert_eq!(frame_payload(&[]).to_vec(), vec![0, 0, 0, 0, 0]);
    let long = vec![7u8; 70000];
    let framed = frame_payload(&long);
    assert_eq!(framed[..5].to_vec(), vec![0, 0, 1, 0x11, 0x70]);
    assert_eq!(framed.len(), 70005);
    assert_eq!(framed[5..].to_vec(), long);
}

#[test]
fn payload_read_in_place_is_framed_alike() {
    let mut buf = BytesMut::from(&b"leftovers"[..]);
    begin_frame(&mut buf);
    assert_eq!(buf.to_vec(), vec![0, 0, 0, 0, 0]);
    assert!(buf.capacity() >= 65536 + 5);
    buf.extend_from_slice(b"hello");
    let framed = finish_frame(&mut buf, 5);
    assert_eq!(framed, frame_payload(b"hello"));
    assert!(buf.is_empty());
    begin_frame(&mut buf);
    buf.extend_from_slice(b"x");
    assert_eq!(finish_frame(&mut buf, 1).to_vec(), vec![0, 0, 0, 0, 1, b'x']);
}

#[test]
fn stream_comes_out_as_it_went_in() {
    let payloads: Vec<Vec<u8>> = vec![b"one".to_vec(), Vec::new(), vec![9u8; 300], b"four".to_vec()];
    let mut stream: Vec<u8> = Vec::new();
    for p in &payloads {
        stream.extend_from_slice(&frame_payload(p));
    }
    let mut whole = FrameDecoder::new();
    assert_eq!(feed(&mut whole, &stream), payloads);
    for step in 1..stream.len() {
        let mut decoder = FrameDecoder::new();
        let mut out: Vec<Vec<u8>> = Vec::new();
        for chunk in stream.chunks(step) {
            out.extend(feed(&mut decoder, chunk));
        }
        assert_eq!(out, payloads);
    }
}

#[test]
fn incomplete_frame_is_held_back() {
    let mut decoder = FrameDecoder::new();
    assert!(feed(&mut decoder, &[0, 0, 0]).is_empty());
    assert!(feed(&mut decoder, &[0, 4, 1, 2]).is_empty());
    assert_eq!(feed(&mut decoder, &[3, 4, 0, 0, 0, 0, 1]), vec![vec![1, 2, 3, 4]]);
    assert_eq!(feed(&mut decoder, &[5]), vec![vec![5]]);
}

#[test]
fn flag_byte_is_not_looked_at() {
    let mut decoder = FrameDecoder::new();
    assert_eq!(feed(&mut decoder, &[1, 0, 0, 0, 1, 42]), vec![vec![42]]);
}
