use ghostrpc::sni::{extract_sni, peek, scan_sni, Peek, SniScan};

fn put16(out: &mut Vec<u8>, n: usize) {
    out.push((n >> 8) as u8);
    out.push((n & 0xff) as u8);
}

fn extension(kind: usize, content: &[u8]) -> Vec<u8> {
    let mut out: Vec<u8> = Vec::new();
    put16(&mut out, kind);
    put16(&mut out, content.len());
    out.extend_from_slice(content);
    out
}

fn host_list(kind: u8, host: &[u8]) -> Vec<u8> {
    let mut out: Vec<u8> = Vec::new();
    put16(&mut out, host.len() + 3);
    out.push(kind);
    put16(&mut out, host.len());
    out.extend_from_slice(host);
    out
}

fn hello(exts: &[u8]) -> Vec<u8> {
    let mut body: Vec<u8> = vec![1, 0, 0, 0, 3, 3];
    body.extend_from_slice(&[0x5a; 32]);
    body.push(2);
    body.extend_from_slice(&[1, 2]);
    put16(&mut body, 4);
    body.extend_from_slice(&[0x13, 0x01, 0x13, 0x02]);
    body.push(1);
    body.push(0);
    put16(&mut body, exts.len());
    body.extend_from_slice(exts);
    let mut out: Vec<u8> = vec![0x16, 3, 1];
    put16(&mut out, body.len());
    out.extend_from_slice(&body);
    out
}

#[test]
fn announced_name_is_found() {
    let mut exts = extension(0x0017, &[]);
    exts.extend(extension(0x002b, &[2, 3, 4]));
    exts.extend(extension(0, &host_list(0, b"example.com")));
    exts.extend(extension(0x0010, b"rest"));
    let packet = hello(&exts);
    assert_eq!(extract_sni(&packet), Some("example.com".to_string()));
    assert!(matches!(peek(&packet), Peek::Found(name) if name == "example.com"));
}

#[test]
fn found_name_does_not_depend_on_what_follows() {
    let mut packet = hello(&extension(0, &host_list(0, "b\u{fc}cher.example".as_bytes())));
    let first = extract_sni(&packet);
    assert_eq!(first, Some("b\u{fc}cher.example".to_string()));
    packet.extend_from_slice(b"more bytes of the next record");
    assert_eq!(extract_sni(&packet), first);
}

#[test]
fn no_name_in_other_traffic() {
    assert_eq!(extract_sni(&[]), None);
    assert_eq!(extract_sni(b"GET / HTTP/1.1\r\n"), None);
    assert_eq!(extract_sni(&[0x16, 3, 1, 0, 1, 2, 0, 0, 0, 0]), None);
    assert_eq!(extract_sni(&hello(&[])), None);
    assert_eq!(extract_sni(&hello(&extension(0x2b, &[1, 2]))), None);
}

#[test]
fn name_of_another_type_or_encoding_is_not_taken() {
    assert_eq!(extract_sni(&hello(&extension(0, &host_list(1, b"example.com")))), None);
    assert_eq!(extract_sni(&hello(&extension(0, &host_list(0, &[0xff, 0xfe])))), None);
    let mut list = host_list(1, b"xx");
    list.extend_from_slice(&[0, 0, 1, b'a']);
    list[1] += 4;
    assert_eq!(extract_sni(&hello(&extension(0, &list))), Some("a".to_string()));
}

#[test]
fn name_list_without_its_bytes_is_an_overrun() {
    let packet = hello(&extension(0, &[0x10, 0x00, 0, 0x00, 0x20, b'a']));
    assert!(matches!(scan_sni(&packet), SniScan::Overrun));
    assert!(matches!(peek(&packet), Peek::Overrun));
}

#[test]
fn every_cut_of_a_hello_is_read_on() {
    let packet = hello(&extension(0, &host_list(0, b"example.com")));
    for n in 1..packet.len() {
        assert!(matches!(peek(&packet[..n]), Peek::More));
    }
    assert!(matches!(peek(&packet), Peek::Found(_)));
}

#[test]
fn peeking_stops() {
    assert!(matches!(peek(b"GET"), Peek::Stop));
    assert!(matches!(peek(&hello(&[])), Peek::Stop));
    let mut long = vec![0u8; 2048];
    long[0] = 0x16;
    long[3] = 0xff;
    assert!(matches!(peek(&long), Peek::Stop));
    assert!(matches!(peek(&long[..2047]), Peek::More));
    assert!(matches!(scan_sni(&long), SniScan::Absent));
}
