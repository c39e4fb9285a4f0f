use kimojio::resolver::{
    decode_varlink_reply, encode_varlink_request, ResolveError, SocketAddress,
    MAX_VARLINK_REPLY_SIZE,
};

fn assert_protocol_error(result: Result<Vec<SocketAddress>, ResolveError>) {
    assert!(
        matches!(result, Err(ResolveError::Protocol { .. })),
        "expected protocol error, got {result:?}"
    );
}

fn v4(octets: [u8; 4], port: u16) -> SocketAddress {
    SocketAddress::V4 { octets, port }
}

fn v6(octets: [u8; 16], port: u16, scope_id: u32) -> SocketAddress {
    SocketAddress::V6 { octets, port, flowinfo: 0, scope_id }
}

const DOC_1: [u8; 16] = [32, 1, 13, 184, 0, 0, 0, 0, 0, 0, 0, 0, 0, 0, 0, 1];
const DOC_2: [u8; 16] = [32, 1, 13, 184, 0, 0, 0, 0, 0, 0, 0, 0, 0, 0, 0, 2];
const LOOPBACK_6: [u8; 16] = [0, 0, 0, 0, 0, 0, 0, 0, 0, 0, 0, 0, 0, 0, 0, 1];

#[test]
fn varlink_request_encoding() {
    let request = encode_varlink_request("example.com").unwrap();
    assert_eq!(
        request,
        br#"{"method":"io.systemd.Resolve.ResolveHostname","parameters":{"name":"example.com"}}"#
            .iter()
            .copied()
            .chain([0])
            .collect::<Vec<_>>()
    );

    let escaped = encode_varlink_request("quote\"and\\slash").unwrap();
    assert_eq!(escaped.last(), Some(&0));
    assert!(
        std::str::from_utf8(&escaped[..escaped.len() - 1])
            .unwrap()
            .contains(r#""name":"quote\"and\\slash""#)
    );
}

#[test]
fn varlink_request_escapes_json_string_contents() {
    let host = "quote\"\\/\u{0008}\u{000c}\n\r\t\u{0000}\u{001f}é";
    let request = encode_varlink_request(host).unwrap();
    assert_eq!(request.last(), Some(&0));
    assert_eq!(
        std::str::from_utf8(&request[..request.len() - 1]).unwrap(),
        r#"{"method":"io.systemd.Resolve.ResolveHostname","parameters":{"name":"quote\"\\\/\b\f\n\r\t\u0000\u001fé"}}"#
    );
}

#[test]
fn varlink_reply_ipv4_only() {
    let reply = br#"{"parameters":{"addresses":[{"ifindex":2,"family":2,"address":[104,20,23,154]}],"name":"example.com","flags":8388609}}"#;
    assert_eq!(
        decode_varlink_reply(reply, "example.com", 443).unwrap(),
        vec![v4([104, 20, 23, 154], 443)]
    );
}

#[test]
fn varlink_reply_ipv6_only() {
    let reply = br#"{"parameters":{"addresses":[{"ifindex":7,"family":10,"address":[32,1,13,184,0,0,0,0,0,0,0,0,0,0,0,1]}]}}"#;
    assert_eq!(
        decode_varlink_reply(reply, "example.com", 8443).unwrap(),
        vec![v6(DOC_1, 8443, 7)]
    );
}

#[test]
fn varlink_reply_both_families() {
    let reply = br#"{"parameters":{"addresses":[{"ifindex":2,"family":2,"address":[192,0,2,1]},{"ifindex":0,"family":10,"address":[32,1,13,184,0,0,0,0,0,0,0,0,0,0,0,2]}]}}"#;
    assert_eq!(
        decode_varlink_reply(reply, "example.com", 80).unwrap(),
        vec![v4([192, 0, 2, 1], 80), v6(DOC_2, 80, 0)]
    );
}

/// systemd-resolved omits `ifindex` when it synthesizes an answer that is not
/// bound to a link.
#[test]
fn varlink_reply_without_ifindex_decodes_as_unscoped() {
    let ipv4 = br#"{"parameters":{"addresses":[{"family":2,"address":[127,0,0,1]}],"name":"127.0.0.1","flags":786945}}"#;
    assert_eq!(
        decode_varlink_reply(ipv4, "127.0.0.1", 80).unwrap(),
        vec![v4([127, 0, 0, 1], 80)]
    );

    let ipv6 = br#"{"parameters":{"addresses":[{"family":10,"address":[0,0,0,0,0,0,0,0,0,0,0,0,0,0,0,1]}],"name":"::1","flags":786945}}"#;
    let decoded = decode_varlink_reply(ipv6, "::1", 80).unwrap();
    assert_eq!(decoded, vec![v6(LOOPBACK_6, 80, 0)]);
    match decoded[0] {
        SocketAddress::V6 { scope_id, .. } => assert_eq!(scope_id, 0),
        SocketAddress::V4 { .. } => panic!("expected an IPv6 address"),
    }
}

#[test]
fn varlink_reply_containing_a_parser_panic_input_is_an_error() {
    for wire in [
        b"-\n\0".as_slice(),
        b"-\0".as_slice(),
        b"[-]\0".as_slice(),
        b"{\"parameters\":{\"addresses\":[{\"family\":-}]}}\0",
    ] {
        let frame = &wire[..wire.len() - 1];
        let result = decode_varlink_reply(frame, "example.com", 80);
        assert!(
            result.is_err(),
            "expected an error for {:?}",
            String::from_utf8_lossy(frame)
        );
    }
}

#[test]
fn varlink_reply_address_fields_are_order_independent() {
    let reply = br#"{"ignored":{"nested":[null]},"parameters":{"ignored":[{"value":true}],"addresses":[{"address":[104,20,23,154],"extra":{"nested":false},"ifindex":2,"family":2}]}}"#;
    assert_eq!(
        decode_varlink_reply(reply, "example.com", 443).unwrap(),
        vec![v4([104, 20, 23, 154], 443)]
    );
}

#[test]
fn varlink_reply_rejects_nesting_beyond_limit() {
    let at_limit = br#"{"parameters":{"addresses":[]},"extra":{"a":{"b":{"c":{"d":null}}}}}"#;
    assert!(matches!(
        decode_varlink_reply(at_limit, "example.com", 80),
        Err(ResolveError::HostNotFound { .. })
    ));

    let beyond_limit =
        br#"{"parameters":{"addresses":[]},"extra":{"a":{"b":{"c":{"d":{"e":null}}}}}}"#;
    assert_protocol_error(decode_varlink_reply(beyond_limit, "example.com", 80));
}

#[test]
fn varlink_error_reply_is_host_not_found() {
    let reply = br#"{"error":"io.systemd.Resolve.NoSuchResourceRecord","parameters":{}}"#;
    assert!(matches!(
        decode_varlink_reply(reply, "missing.example", 80),
        Err(ResolveError::HostNotFound { host }) if host == "missing.example"
    ));
}

#[test]
fn varlink_error_field_is_order_independent() {
    let reply = br#"{"parameters":{},"error":"io.systemd.Resolve.NoSuchResourceRecord"}"#;
    assert!(matches!(
        decode_varlink_reply(reply, "missing.example", 80),
        Err(ResolveError::HostNotFound { host }) if host == "missing.example"
    ));
}

#[test]
fn varlink_truncated_reply_is_error() {
    assert_protocol_error(decode_varlink_reply(
        br#"{"parameters":{"addresses":["#,
        "example.com",
        80,
    ));
}

#[test]
fn varlink_wrong_length_address_is_error() {
    let reply = br#"{"parameters":{"addresses":[{"ifindex":2,"family":2,"address":[127,0,1]}]}}"#;
    assert_protocol_error(decode_varlink_reply(reply, "example.com", 80));
}

#[test]
fn varlink_wrong_typed_field_is_error() {
    let reply =
        br#"{"parameters":{"addresses":[{"ifindex":2,"family":"2","address":[127,0,0,1]}]}}"#;
    assert_protocol_error(decode_varlink_reply(reply, "example.com", 80));
}

#[test]
fn varlink_malformed_reply_shapes_are_errors() {
    let replies: &[&[u8]] = &[
        br#"[]"#,
        br#"{}"#,
        br#"{"parameters":[]}"#,
        br#"{"parameters":{}}"#,
        br#"{"parameters":{"addresses":{}}}"#,
        br#"{"parameters":{"addresses":[null]}}"#,
        br#"{"parameters":{"addresses":[{"ifindex":2,"address":[127,0,0,1]}]}}"#,
        br#"{"parameters":{"addresses":[{"ifindex":2,"family":99,"address":[127,0,0,1]}]}}"#,
        br#"{"parameters":{"addresses":[{"ifindex":4294967296,"family":2,"address":[127,0,0,1]}]}}"#,
        br#"{"parameters":{"addresses":[{"ifindex":2,"family":2,"address":[127,0,0,256]}]}}"#,
        br#"{"parameters":{"addresses":[{"ifindex":2,"family":2.0,"address":[127,0,0,1]}]}}"#,
        br#"{"error":false,"parameters":{}}"#,
        br#"{"parameters":{"addresses":[]}} null"#,
    ];

    for reply in replies {
        let result = decode_varlink_reply(reply, "example.com", 80);
        assert!(
            matches!(result, Err(ResolveError::Protocol { .. })),
            "expected protocol error for {reply:?}, got {result:?}"
        );
    }
}

#[test]
fn varlink_empty_addresses_are_host_not_found() {
    assert!(matches!(
        decode_varlink_reply(br#"{"parameters":{"addresses":[]}}"#, "missing.example", 80),
        Err(ResolveError::HostNotFound { host }) if host == "missing.example"
    ));
}

#[test]
fn varlink_parser_panic_is_contained() {
    assert_protocol_error(decode_varlink_reply(b"1e", "example.com", 80));
}

#[test]
fn varlink_non_utf8_reply_is_error() {
    assert_protocol_error(decode_varlink_reply(&[0xff, 0xfe], "example.com", 80));
}

#[test]
fn varlink_oversized_reply_is_error() {
    let reply = vec![b' '; MAX_VARLINK_REPLY_SIZE + 1];
    assert_protocol_error(decode_varlink_reply(&reply, "example.com", 80));
}
