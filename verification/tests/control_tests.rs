use chacha20poly1305::aead::{Aead, KeyInit, Payload};
use chacha20poly1305::ChaCha20Poly1305;
use tailscale::control::cipher::ChaCha20Poly1305BigEndian;
use tailscale::control::node::{
    IpAddress, IpPrefix, Ipv4Prefix, Ipv6Prefix, Node, NodeRecord, SocketAddress, StableId, TailnetAddress,
    Timestamp,
};
use tailscale::control::ping::{extract_chunked_http_body, plan_ping_responses, PingKind};

const REQUEST_HEAD: &str = "POST /echo HTTP/1.1\r\nHost: node\r\nTransfer-Encoding: chunked\r\n\r\n";

fn request(body: &str) -> String {
    format!("{REQUEST_HEAD}{body}")
}

#[test]
fn extract_body_of_first_chunk() {
    let payload = request("5\r\nhello\r\n0\r\n\r\n");
    assert_eq!(extract_chunked_http_body(&payload), Some("hello".to_string()));
}

#[test]
fn extract_body_hex_size() {
    let body = "abcdefghijklmnopqrstuvwxyz";
    let payload = request(&format!("1a\r\n{body}\r\n0\r\n\r\n"));
    assert_eq!(extract_chunked_http_body(&payload), Some(body.to_string()));
    let payload = request(&format!("1A\r\n{body}\r\n0\r\n\r\n"));
    assert_eq!(extract_chunked_http_body(&payload), Some(body.to_string()));
}

#[test]
fn extract_body_size_with_plus_sign() {
    let payload = request("+3\r\nabc\r\n0\r\n\r\n");
    assert_eq!(extract_chunked_http_body(&payload), Some("abc".to_string()));
}

#[test]
fn extract_body_terminating_chunk_is_none() {
    let payload = request("0\r\n\r\n");
    assert_eq!(extract_chunked_http_body(&payload), None);
}

#[test]
fn extract_body_size_mismatch_is_none() {
    let payload = request("4\r\nhello\r\n0\r\n\r\n");
    assert_eq!(extract_chunked_http_body(&payload), None);
}

#[test]
fn extract_body_counts_utf8_bytes() {
    // "héllo" is five characters but six bytes.
    let payload = request("6\r\nh\u{e9}llo\r\n0\r\n\r\n");
    assert_eq!(extract_chunked_http_body(&payload), Some("h\u{e9}llo".to_string()));
    let payload = request("5\r\nh\u{e9}llo\r\n0\r\n\r\n");
    assert_eq!(extract_chunked_http_body(&payload), None);
}

#[test]
fn extract_body_without_body_is_none() {
    assert_eq!(extract_chunked_http_body("GET / HTTP/1.1\r\nHost: x\r\n"), None);
}

#[test]
fn extract_body_bad_size_is_none() {
    assert_eq!(extract_chunked_http_body(&request("zz\r\nabc\r\n")), None);
    assert_eq!(extract_chunked_http_body(&request("\r\nabc\r\n")), None);
    assert_eq!(extract_chunked_http_body(&request("+\r\nabc\r\n")), None);
    assert_eq!(extract_chunked_http_body(&request("3")), None);
}

#[test]
fn extract_body_size_overflow_is_none() {
    assert_eq!(extract_chunked_http_body(&request("1ffffffffffffffffffff\r\nabc\r\n")), None);
}

#[test]
fn extract_body_stops_at_next_blank_line() {
    let payload = request("3\r\nabc\r\n\r\nmore");
    assert_eq!(extract_chunked_http_body(&payload), Some("abc".to_string()));
}

#[test]
fn ping_plan_answers_each_c2n_ping() {
    let payload = request("4\r\nping\r\n0\r\n\r\n");
    let plan = plan_ping_responses(&vec![PingKind::C2N, PingKind::Other, PingKind::C2N], Some(&payload));
    assert!(!plan.missing_payload);
    assert_eq!(plan.responses, vec!["HTTP/1.1 200 OK\r\n\r\nping".to_string(); 2]);
}

#[test]
fn ping_plan_ignores_malformed_payload() {
    let payload = request("9\r\nping\r\n");
    let plan = plan_ping_responses(&vec![PingKind::C2N], Some(&payload));
    assert!(!plan.missing_payload);
    assert!(plan.responses.is_empty());
}

#[test]
fn ping_plan_missing_payload() {
    let plan = plan_ping_responses(&vec![PingKind::Other, PingKind::C2N], None);
    assert!(plan.missing_payload);
    assert!(plan.responses.is_empty());
    let plan = plan_ping_responses(&vec![PingKind::Other], None);
    assert!(!plan.missing_payload);
    assert!(plan.responses.is_empty());
}

fn big_endian_nonce(nonce: u64) -> [u8; 12] {
    let mut n = [0u8; 12];
    n[4..].copy_from_slice(&nonce.to_be_bytes());
    n
}

#[test]
fn cipher_name() {
    assert_eq!(ChaCha20Poly1305BigEndian::name(), "ChaChaPoly");
}

#[test]
fn cipher_encrypt_matches_big_endian_nonce() {
    let key = [7u8; 32];
    let nonce = 0x0102_0304_0506_0708u64;
    let ad = b"header";
    let plaintext = b"the quick brown fox";
    let mut out = vec![0u8; plaintext.len() + 16];
    ChaCha20Poly1305BigEndian::encrypt(&key, nonce, ad, plaintext, &mut out);
    let expected = ChaCha20Poly1305::new(&key.into())
        .encrypt(&big_endian_nonce(nonce).into(), Payload { msg: plaintext, aad: ad })
        .unwrap();
    assert_eq!(out, expected);
    assert_ne!(&out[..plaintext.len()], &plaintext[..]);
}

#[test]
fn cipher_round_trip() {
    let key = [42u8; 32];
    let plaintext = b"hello, control";
    let mut sealed = vec![0u8; plaintext.len() + 16];
    ChaCha20Poly1305BigEndian::encrypt(&key, 9, b"", plaintext, &mut sealed);
    let mut opened = vec![0u8; plaintext.len()];
    assert_eq!(ChaCha20Poly1305BigEndian::decrypt(&key, 9, b"", &sealed, &mut opened), Ok(()));
    assert_eq!(&opened[..], &plaintext[..]);
}

#[test]
fn cipher_rejects_tampering() {
    let key = [1u8; 32];
    let plaintext = b"payload";
    let mut sealed = vec![0u8; plaintext.len() + 16];
    ChaCha20Poly1305BigEndian::encrypt(&key, 3, b"ad", plaintext, &mut sealed);
    sealed[0] ^= 1;
    let mut opened = vec![0u8; plaintext.len()];
    assert_eq!(ChaCha20Poly1305BigEndian::decrypt(&key, 3, b"ad", &sealed, &mut opened), Err(()));
    assert_eq!(&opened[..], &sealed[..plaintext.len()]);
    sealed[0] ^= 1;
    assert_eq!(ChaCha20Poly1305BigEndian::decrypt(&key, 4, b"ad", &sealed, &mut opened), Err(()));
    assert_eq!(ChaCha20Poly1305BigEndian::decrypt(&key, 3, b"other", &sealed, &mut opened), Err(()));
}

#[test]
fn cipher_in_place_round_trip() {
    let key = [5u8; 32];
    let plaintext = b"in place text";
    let mut buf = vec![0xAAu8; plaintext.len() + 16 + 4];
    buf[..plaintext.len()].copy_from_slice(plaintext);
    let n = ChaCha20Poly1305BigEndian::encrypt_in_place(&key, 77, b"x", &mut buf, plaintext.len());
    assert_eq!(n, plaintext.len() + 16);
    assert_eq!(&buf[n..], &[0xAA; 4]);
    let expected = ChaCha20Poly1305::new(&key.into())
        .encrypt(&big_endian_nonce(77).into(), Payload { msg: plaintext, aad: b"x" })
        .unwrap();
    assert_eq!(&buf[..n], &expected[..]);
    let m = ChaCha20Poly1305BigEndian::decrypt_in_place(&key, 77, b"x", &mut buf, n);
    assert_eq!(m, Ok(plaintext.len()));
    assert_eq!(&buf[..plaintext.len()], &plaintext[..]);
}

#[test]
fn cipher_in_place_rejects_tampering() {
    let key = [5u8; 32];
    let mut buf = vec![0u8; 20];
    let n = ChaCha20Poly1305BigEndian::encrypt_in_place(&key, 1, b"", &mut buf, 4);
    buf[n - 1] ^= 0x80;
    let before = buf.clone();
    assert_eq!(ChaCha20Poly1305BigEndian::decrypt_in_place(&key, 1, b"", &mut buf, n), Err(()));
    assert_eq!(buf, before);
}

fn record() -> NodeRecord {
    NodeRecord {
        id: 17,
        stable_id: "nStable".to_string(),
        name: "host.tailnet.ts.net.".to_string(),
        tags: None,
        addresses: (
            Ipv4Prefix { addr: [100, 64, 0, 1], prefix_len: 32 },
            Ipv6Prefix { addr: [0xfd, 0x7a, 0x11, 0x5c, 0xa1, 0xe0, 0, 0, 0, 0, 0, 0, 0, 0, 0, 1], prefix_len: 128 },
        ),
        key: [3u8; 32],
        key_expiry: Some(Timestamp { secs: 1_700_000_000, nanos: 5 }),
        machine: None,
        disco_key: Some([4u8; 32]),
        allowed_ips: None,
        endpoints: vec![SocketAddress::V4 { addr: [192, 0, 2, 1], port: 41641 }],
        home_derp: None,
        legacy_derp_string: None,
        preferred_derp: Some(9),
    }
}

#[test]
fn node_from_record_defaults() {
    let r = record();
    let node = Node::from_record(&r);
    assert_eq!(node.id, 17);
    assert_eq!(node.stable_id, StableId("nStable".to_string()));
    assert_eq!(node.name, "host.tailnet.ts.net.");
    assert!(node.tags.is_empty());
    assert_eq!(node.tailnet_address, TailnetAddress { ipv4: r.addresses.0, ipv6: r.addresses.1 });
    assert_eq!(node.accepted_routes, vec![IpPrefix::V4(r.addresses.0), IpPrefix::V6(r.addresses.1)]);
    assert_eq!(node.node_key, [3u8; 32]);
    assert_eq!(node.node_key_expiry, Some(Timestamp { secs: 1_700_000_000, nanos: 5 }));
    assert_eq!(node.machine_key, None);
    assert_eq!(node.disco_key, Some([4u8; 32]));
    assert_eq!(node.underlay_addresses, r.endpoints);
    assert_eq!(node.derp_region, Some(9));
}

#[test]
fn node_from_record_given_values() {
    let mut r = record();
    r.tags = Some(vec!["tag:a".to_string(), "tag:b".to_string()]);
    let route = IpPrefix::V4(Ipv4Prefix { addr: [10, 0, 0, 0], prefix_len: 8 });
    r.allowed_ips = Some(vec![route]);
    r.legacy_derp_string = Some(2);
    let node = Node::from_record(&r);
    assert_eq!(node.tags, vec!["tag:a".to_string(), "tag:b".to_string()]);
    assert_eq!(node.accepted_routes, vec![route]);
    assert_eq!(node.derp_region, Some(2));
    r.home_derp = Some(1);
    assert_eq!(Node::from_record(&r).derp_region, Some(1));
    r.home_derp = None;
    r.legacy_derp_string = None;
    r.preferred_derp = None;
    assert_eq!(Node::from_record(&r).derp_region, None);
}

#[test]
fn tailnet_address_contains() {
    let r = record();
    let addr = TailnetAddress { ipv4: r.addresses.0, ipv6: r.addresses.1 };
    assert!(addr.contains(IpAddress::V4([100, 64, 0, 1])));
    assert!(!addr.contains(IpAddress::V4([100, 64, 0, 2])));
    assert!(addr.contains(IpAddress::V6(r.addresses.1.addr)));
    assert!(!addr.contains(IpAddress::V6([0u8; 16])));
}
