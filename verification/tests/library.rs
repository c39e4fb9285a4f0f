//! Tests of the properties that relate several operations, of each error that
//! the library reports, and of the decisions of the resolver and the stream
//! adaptor.

use std::convert::Infallible;

use kimojio::resolver::varlink_reply::{
    ReplyErrorKind, ReplyItem, ReplyVisitor, ResolveHostnameReply, ResolvedAddress,
};
use kimojio::resolver::{
    after_exchange, blocking_answer, decode_varlink_reply, encode_varlink_request, frame_step,
    fuzz_decode_varlink_reply, mode_after_lookup, socket_address, take_frame, uses_service,
    ExchangeDecision, ExchangeOutcome, FrameStep, LookupAction, ResolveError, ResolverMode,
    SocketAddress, MAX_VARLINK_REPLY_SIZE, VARLINK_READ_CHUNK,
};
use kimojio::stream_adapt::{
    FlushStep, Progress, ReadStep, ShutdownStep, WriteStep, DEFAULT_BUFFER_CAPACITY,
};
use kimojio::{AsyncStream, ErrorKind, EscapeString, SyncStream, Tokenizer, Visitor};

/// Collects the text of each token, and stops after each token when asked.
struct Texts {
    seen: Vec<String>,
    stop_each: bool,
}

impl<'a> Visitor<'a> for Texts {
    type Output = ();

    fn escape_key(&mut self, name: EscapeString<'a>) -> Option<()> {
        self.seen.push(format!("escape_key:{}", name.as_raw_str()));
        self.stop_each.then_some(())
    }
    fn escape_string(&mut self, value: EscapeString<'a>) -> Option<()> {
        self.seen.push(format!("escape_string:{}", value.as_raw_str()));
        self.stop_each.then_some(())
    }
    fn object_start(&mut self) -> Option<()> {
        self.seen.push("{".to_owned());
        self.stop_each.then_some(())
    }
    fn object_end(&mut self) -> Option<()> {
        self.seen.push("}".to_owned());
        self.stop_each.then_some(())
    }
    fn array_start(&mut self) -> Option<()> {
        self.seen.push("[".to_owned());
        self.stop_each.then_some(())
    }
    fn array_end(&mut self) -> Option<()> {
        self.seen.push("]".to_owned());
        self.stop_each.then_some(())
    }
    fn key(&mut self, name: &'a str) -> Option<()> {
        self.seen.push(format!("key:{name}"));
        self.stop_each.then_some(())
    }
    fn string(&mut self, value: &'a str) -> Option<()> {
        self.seen.push(format!("string:{value}"));
        self.stop_each.then_some(())
    }
    fn number(&mut self, text: &'a str) -> Option<()> {
        self.seen.push(format!("number:{text}"));
        self.stop_each.then_some(())
    }
    fn boolean(&mut self, value: bool) -> Option<()> {
        self.seen.push(format!("bool:{value}"));
        self.stop_each.then_some(())
    }
    fn null(&mut self) -> Option<()> {
        self.seen.push("null".to_owned());
        self.stop_each.then_some(())
    }
}

const DOCUMENT: &str = r#" {"a":[1,-2.5e3,true,null],"b\u0041":{"c":"d\n"},"e":[]} "#;

#[test]
fn a_scan_suspended_at_each_token_reports_the_tokens_of_one_scan() {
    let mut whole = Texts { seen: Vec::new(), stop_each: false };
    assert_eq!(Tokenizer::new(DOCUMENT).drive(&mut whole), Ok(None));

    let mut stepped = Texts { seen: Vec::new(), stop_each: true };
    let mut tokenizer = Tokenizer::new(DOCUMENT);
    let mut suspensions = 0;
    while let Some(()) = tokenizer.drive(&mut stepped).unwrap() {
        suspensions += 1;
    }
    assert_eq!(suspensions, whole.seen.len());
    assert_eq!(stepped.seen, whole.seen);
}

#[test]
fn every_error_offset_lies_within_the_input() {
    for (input, kind, offset) in [
        ("", ErrorKind::UnexpectedEof, 0),
        ("[1,", ErrorKind::UnexpectedEof, 3),
        ("\"abc", ErrorKind::UnterminatedString, 4),
        ("\"a\\", ErrorKind::UnterminatedString, 3),
        ("1.", ErrorKind::InvalidNumber, 2),
        ("1e+", ErrorKind::InvalidNumber, 3),
        ("{\"a\"", ErrorKind::ExpectedColon, 4),
        ("tru", ErrorKind::UnexpectedEof, 0),
        ("[] x", ErrorKind::TrailingData, 3),
    ] {
        let mut texts = Texts { seen: Vec::new(), stop_each: false };
        let error = Tokenizer::new(input).drive(&mut texts).unwrap_err();
        assert_eq!((error.kind(), error.offset()), (kind, offset), "{input:?}");
        assert!(error.offset() <= input.len(), "{input:?}");
    }
}

#[test]
fn a_completed_scan_reports_completion_again() {
    let mut texts = Texts { seen: Vec::new(), stop_each: false };
    let mut tokenizer = Tokenizer::new("[1, 2]  ");
    assert_eq!(tokenizer.drive(&mut texts), Ok(None));
    let offset = tokenizer.offset();
    assert_eq!(offset, 8);
    assert_eq!(tokenizer.drive(&mut texts), Ok(None));
    assert_eq!(tokenizer.offset(), offset);
    assert_eq!(texts.seen.len(), 4);
}

#[test]
fn the_raw_length_is_always_enough_for_a_decode() {
    struct First;
    impl<'a> Visitor<'a> for First {
        type Output = EscapeString<'a>;
        fn escape_key(&mut self, name: EscapeString<'a>) -> Option<EscapeString<'a>> {
            Some(name)
        }
        fn escape_string(&mut self, value: EscapeString<'a>) -> Option<EscapeString<'a>> {
            Some(value)
        }

        fn object_start(&mut self) -> Option<Self::Output> {
            None
        }

        fn object_end(&mut self) -> Option<Self::Output> {
            None
        }

        fn array_start(&mut self) -> Option<Self::Output> {
            None
        }

        fn array_end(&mut self) -> Option<Self::Output> {
            None
        }

        fn key(&mut self, _: &'a str) -> Option<Self::Output> {
            None
        }

        fn string(&mut self, _: &'a str) -> Option<Self::Output> {
            None
        }

        fn number(&mut self, _: &'a str) -> Option<Self::Output> {
            None
        }

        fn boolean(&mut self, _: bool) -> Option<Self::Output> {
            None
        }

        fn null(&mut self) -> Option<Self::Output> {
            None
        }
    }
    for document in [
        r#""\n""#,
        r#""\u00e9\u00e9""#,
        r#""\ud83d\ude00""#,
        r#""é\t€\\""#,
        r#""\u0041\u0042\/""#,
    ] {
        let text = Tokenizer::new(document).drive(&mut First).unwrap().unwrap();
        let mut buffer = vec![0_u8; text.raw_len()];
        let decoded = text.unescape_into(&mut buffer).expect("the raw length suffices");
        assert!(decoded.len() <= text.raw_len());
        assert!(text.eq_unescaped(decoded));
    }
}

#[test]
fn the_raw_length_suffices_but_one_byte_less_can_fail() {
    struct First;
    impl<'a> Visitor<'a> for First {
        type Output = EscapeString<'a>;
        fn escape_key(&mut self, name: EscapeString<'a>) -> Option<EscapeString<'a>> {
            Some(name)
        }
        fn escape_string(&mut self, value: EscapeString<'a>) -> Option<EscapeString<'a>> {
            Some(value)
        }

        fn object_start(&mut self) -> Option<Self::Output> {
            None
        }

        fn object_end(&mut self) -> Option<Self::Output> {
            None
        }

        fn array_start(&mut self) -> Option<Self::Output> {
            None
        }

        fn array_end(&mut self) -> Option<Self::Output> {
            None
        }

        fn key(&mut self, _: &'a str) -> Option<Self::Output> {
            None
        }

        fn string(&mut self, _: &'a str) -> Option<Self::Output> {
            None
        }

        fn number(&mut self, _: &'a str) -> Option<Self::Output> {
            None
        }

        fn boolean(&mut self, _: bool) -> Option<Self::Output> {
            None
        }

        fn null(&mut self) -> Option<Self::Output> {
            None
        }
    }
    // `é` followed by `\\` decodes to three bytes out of four.
    let text = Tokenizer::new(r#""é\\""#).drive(&mut First).unwrap().unwrap();
    assert_eq!(text.raw_len(), 4);
    let mut exact = [0_u8; 3];
    assert_eq!(text.unescape_into(&mut exact).unwrap(), "é\\");
    let mut short = [0_u8; 2];
    let error = text.unescape_into(&mut short).unwrap_err();
    assert_eq!(error.kind(), ErrorKind::BufferTooSmall);
    assert_eq!(error.offset(), 2);
}

/// Reads the `name` string of an encoded request back with the tokenizer.
fn request_name(request: &[u8]) -> String {
    struct Name {
        in_name: bool,
        depth: usize,
    }
    impl<'a> Visitor<'a> for Name {
        type Output = Result<String, kimojio::Error>;
        fn object_start(&mut self) -> Option<Self::Output> {
            self.depth += 1;
            None
        }
        fn key(&mut self, name: &'a str) -> Option<Self::Output> {
            self.in_name = self.depth == 2 && name == "name";
            None
        }
        fn escape_key(&mut self, _: EscapeString<'a>) -> Option<Self::Output> {
            None
        }
        fn string(&mut self, value: &'a str) -> Option<Self::Output> {
            if self.in_name {
                Some(Ok(value.to_owned()))
            } else {
                None
            }
        }
        fn escape_string(&mut self, value: EscapeString<'a>) -> Option<Self::Output> {
            if !self.in_name {
                return None;
            }
            let mut buffer = vec![0_u8; value.raw_len()];
            Some(value.unescape_into(&mut buffer).map(str::to_owned))
        }

        fn object_end(&mut self) -> Option<Self::Output> {
            None
        }

        fn array_start(&mut self) -> Option<Self::Output> {
            None
        }

        fn array_end(&mut self) -> Option<Self::Output> {
            None
        }

        fn number(&mut self, _: &'a str) -> Option<Self::Output> {
            None
        }

        fn boolean(&mut self, _: bool) -> Option<Self::Output> {
            None
        }

        fn null(&mut self) -> Option<Self::Output> {
            None
        }
    }
    let text = std::str::from_utf8(&request[..request.len() - 1]).unwrap();
    Tokenizer::new(text)
        .drive(&mut Name { in_name: false, depth: 0 })
        .unwrap()
        .expect("the request names the host")
        .unwrap()
}

#[test]
fn the_request_carries_the_host_name_unchanged() {
    for host in [
        "example.com",
        "quote\"and\\slash/",
        "\u{0000}\u{0001}\u{001f}\u{0008}\u{000c}\n\r\t",
        "café.example",
        "日本.example",
        "\u{1F600}",
    ] {
        let request = encode_varlink_request(host).unwrap();
        assert_eq!(request.last(), Some(&0));
        assert_eq!(request_name(&request), host);
    }
}

#[test]
fn control_characters_are_escaped_with_lower_case_hex_digits() {
    let request = encode_varlink_request("\u{001b}\u{001a}").unwrap();
    let text = std::str::from_utf8(&request[..request.len() - 1]).unwrap();
    assert!(text.contains(r#""name":"\u001b\u001a""#), "{text}");
}

#[test]
fn a_decoded_answer_always_holds_an_address() {
    for (reply, expected_host_not_found) in [
        (&br#"{"parameters":{"addresses":[]}}"#[..], true),
        (br#"{"error":"x","parameters":{"addresses":[{"family":2,"address":[1,2,3,4]}]}}"#, true),
        (br#"{"parameters":{"addresses":[{"family":2,"address":[1,2,3,4]}]}}"#, false),
    ] {
        match decode_varlink_reply(reply, "h", 1) {
            Ok(addresses) => {
                assert!(!expected_host_not_found);
                assert!(!addresses.is_empty());
            }
            Err(ResolveError::HostNotFound { host }) => {
                assert!(expected_host_not_found);
                assert_eq!(host, "h");
            }
            Err(other) => panic!("unexpected {other:?}"),
        }
    }
}

#[test]
fn the_decoder_never_exceeds_its_depth_limit() {
    let mut reply = ResolveHostnameReply::new(
        r#"{"x":[[[[[1]]]]],"parameters":{"addresses":[]}}"#,
    );
    assert_eq!(reply.next_item().unwrap_err().kind(), ReplyErrorKind::DepthExceeded);
    assert_eq!(reply.next_item(), Ok(None));
}

#[test]
fn items_arrive_one_at_a_time_and_in_order() {
    let json = r#"{"parameters":{"flags":7,"addresses":[{"family":2,"address":[9,8,7,6]}],"name":"n\u0041"}}"#;
    let mut reply = ResolveHostnameReply::new(json);
    assert_eq!(reply.next_item(), Ok(Some(ReplyItem::Flags(7))));
    let Ok(Some(ReplyItem::Address(address))) = reply.next_item() else {
        panic!("expected an address");
    };
    assert_eq!(address.octets(), &[9, 8, 7, 6]);
    let Ok(Some(ReplyItem::EscapeName(name))) = reply.next_item() else {
        panic!("expected an escaped name");
    };
    assert!(name.eq_unescaped("nA"));
    assert_eq!(reply.next_item(), Ok(None));
    assert_eq!(reply.next_item(), Ok(None));
}

#[test]
fn a_stopped_drive_continues_after_the_item() {
    struct StopAtAddresses(Vec<i32>);
    impl<'a> ReplyVisitor<'a> for StopAtAddresses {
        type Output = i32;
        fn address(&mut self, address: ResolvedAddress) -> Option<i32> {
            self.0.push(address.family());
            Some(address.family())
        }
        fn escape_name(&mut self, _: EscapeString<'a>) -> Option<i32> {
            None
        }

        fn error(&mut self, _: &'a str) -> Option<Self::Output> {
            None
        }

        fn name(&mut self, _: &'a str) -> Option<Self::Output> {
            None
        }

        fn flags(&mut self, _: u64) -> Option<Self::Output> {
            None
        }
    }
    let json = r#"{"parameters":{"addresses":[{"family":2,"address":[]},{"family":10,"address":[]}],"name":"x"}}"#;
    let mut reply = ResolveHostnameReply::new(json);
    let mut visitor = StopAtAddresses(Vec::new());
    assert_eq!(reply.drive(&mut visitor), Ok(Some(2)));
    assert_eq!(reply.drive(&mut visitor), Ok(Some(10)));
    assert_eq!(reply.drive(&mut visitor), Ok(None));
    assert_eq!(reply.drive(&mut visitor), Ok(None));
    assert_eq!(visitor.0, vec![2, 10]);
}

#[test]
fn integers_at_the_limits_of_their_fields_are_accepted() {
    let json = r#"{"parameters":{"addresses":[{"ifindex":-2147483648,"family":2147483647,"address":[255,0]}],"flags":18446744073709551615}}"#;
    let mut reply = ResolveHostnameReply::new(json);
    let Ok(Some(ReplyItem::Address(address))) = reply.next_item() else {
        panic!("expected an address");
    };
    assert_eq!(address.ifindex(), i32::MIN);
    assert_eq!(address.family(), i32::MAX);
    assert_eq!(address.octets(), &[255, 0]);
    assert_eq!(reply.next_item(), Ok(Some(ReplyItem::Flags(u64::MAX))));
    assert_eq!(reply.next_item(), Ok(None));
}

#[test]
fn integers_beyond_i128_are_out_of_range() {
    let json = r#"{"parameters":{"addresses":[],"flags":340282366920938463463374607431768211456}}"#;
    let error = ResolveHostnameReply::new(json)
        .drive(&mut NoItems)
        .unwrap_err();
    assert_eq!(error.kind(), ReplyErrorKind::NumberOutOfRange);
    assert_eq!(error.offset(), json.len() - 2);
}

struct NoItems;

impl<'a> ReplyVisitor<'a> for NoItems {
    type Output = Infallible;
    fn escape_name(&mut self, _: EscapeString<'a>) -> Option<Infallible> {
        None
    }

    fn address(&mut self, _: ResolvedAddress) -> Option<Self::Output> {
        None
    }

    fn error(&mut self, _: &'a str) -> Option<Self::Output> {
        None
    }

    fn name(&mut self, _: &'a str) -> Option<Self::Output> {
        None
    }

    fn flags(&mut self, _: u64) -> Option<Self::Output> {
        None
    }
}

#[test]
fn every_reply_error_kind_has_its_description() {
    let cases = [
        ("1e", ReplyErrorKind::Json, "the reply was not well-formed JSON at byte 2"),
        ("[]", ReplyErrorKind::UnexpectedType, "a reply member had the wrong JSON type at byte 1"),
        (
            r#"{"parameters":{"addresses":[{"family":99999999999}]}}"#,
            ReplyErrorKind::NumberOutOfRange,
            "a reply integer was out of range at byte 49",
        ),
        (
            r#"{"parameters":{"addresses":[{"address":[0,0,0,0,0,0,0,0,0,0,0,0,0,0,0,0,0]}]}}"#,
            ReplyErrorKind::AddressTooLong,
            "an address held more than 16 bytes at byte 73",
        ),
        ("{}", ReplyErrorKind::MissingMember, "the reply was missing a required member at byte 2"),
        (
            r#"{"a":{"b":{"c":{"d":{"e":{}}}}}}"#,
            ReplyErrorKind::DepthExceeded,
            "the reply nested too deeply at byte 26",
        ),
        (
            r#"{"error":"\u0041"}"#,
            ReplyErrorKind::UnexpectedEscape,
            "a reply string contained an escape sequence at byte 17",
        ),
    ];
    for (json, kind, text) in cases {
        let error = ResolveHostnameReply::new(json).drive(&mut NoItems).unwrap_err();
        assert_eq!(error.kind(), kind, "{json}");
        assert_eq!(error.to_string(), text, "{json}");
        assert_eq!(kind.to_string(), text[..text.find(" at byte").unwrap()]);
    }
}

#[test]
fn a_reply_that_is_not_utf8_reports_its_valid_prefix() {
    let result = decode_varlink_reply(&[b'{', b'"', 0xc3, 0x28], "h", 1);
    match result {
        Err(ResolveError::Protocol { detail }) => {
            assert_eq!(detail, "reply was not valid UTF-8 after 2 bytes");
        }
        other => panic!("unexpected {other:?}"),
    }
}

#[test]
fn a_rejected_reply_is_described_with_its_offset() {
    match decode_varlink_reply(br#"{"parameters":[]}"#, "h", 1) {
        Err(ResolveError::Protocol { detail }) => assert_eq!(
            detail,
            "reply was not a valid ResolveHostname response: a reply member had the wrong JSON type at byte 15"
        ),
        other => panic!("unexpected {other:?}"),
    }
}

#[test]
fn socket_addresses_follow_the_family() {
    let reply = |family: &str, address: &str, ifindex: &str| {
        format!(
            r#"{{"parameters":{{"addresses":[{{"ifindex":{ifindex},"family":{family},"address":[{address}]}}]}}}}"#
        )
    };
    let detail = |json: String| match decode_varlink_reply(json.as_bytes(), "h", 9) {
        Err(ResolveError::Protocol { detail }) => detail,
        other => panic!("unexpected {other:?}"),
    };
    assert_eq!(
        decode_varlink_reply(reply("2", "1,2,3,4", "-1").as_bytes(), "h", 9).unwrap(),
        vec![SocketAddress::V4 { octets: [1, 2, 3, 4], port: 9 }]
    );
    assert_eq!(
        detail(reply("-3", "1,2,3,4", "0")),
        "address entry used unsupported family -3"
    );
    assert_eq!(
        detail(reply("-2147483648", "1,2,3,4", "0")),
        "address entry used unsupported family -2147483648"
    );
    assert_eq!(
        detail(reply("2147483647", "1,2,3,4", "0")),
        "address entry used unsupported family 2147483647"
    );
    assert_eq!(
        detail(reply("0", "1,2,3,4", "0")),
        "address entry used unsupported family 0"
    );
    assert_eq!(
        detail(reply("10", "1,2,3,4", "0")),
        "IPv6 address did not contain exactly 16 bytes"
    );
    assert_eq!(
        detail(reply("2", "1,2,3", "0")),
        "IPv4 address did not contain exactly 4 bytes"
    );
    assert_eq!(
        detail(reply("10", "0,0,0,0,0,0,0,0,0,0,0,0,0,0,0,1", "-1")),
        "`ifindex` was negative"
    );
}

#[test]
fn socket_address_combines_an_address_with_the_port() {
    let mut reply = ResolveHostnameReply::new(
        r#"{"parameters":{"addresses":[{"ifindex":3,"family":10,"address":[254,128,0,0,0,0,0,0,0,0,0,0,0,0,0,1]}]}}"#,
    );
    let Ok(Some(ReplyItem::Address(address))) = reply.next_item() else {
        panic!("expected an address");
    };
    assert_eq!(
        socket_address(&address, 443).unwrap(),
        SocketAddress::V6 {
            octets: [254, 128, 0, 0, 0, 0, 0, 0, 0, 0, 0, 0, 0, 0, 0, 1],
            port: 443,
            flowinfo: 0,
            scope_id: 3,
        }
    );
}

#[test]
fn resolve_errors_describe_themselves() {
    assert_eq!(
        ResolveError::HostNotFound { host: "a.example".to_owned() }.to_string(),
        "host `a.example` did not resolve to any addresses"
    );
    assert_eq!(
        ResolveError::Protocol { detail: "bad".to_owned() }.to_string(),
        "invalid response from the system resolver: bad"
    );
    assert!(ResolveError::Io { operation: "reading", source: rustix::io::Errno::INTR }
        .to_string()
        .starts_with("resolver I/O failed while reading: "));
    assert!(ResolveError::System {
        host: "b.example".to_owned(),
        source: std::io::Error::other("boom"),
    }
    .to_string()
    .starts_with("failed to resolve `b.example`: "));
    assert_eq!(
        ResolveError::HelperUnavailable { detail: "gone".to_owned() }.to_string(),
        "blocking resolver helper is unavailable: gone"
    );
    assert_eq!(ResolveError::Canceled.to_string(), "name resolution was canceled");
}

#[test]
fn frames_end_at_the_first_nul_byte() {
    assert_eq!(frame_step(b"{}\0{"), FrameStep::Frame(2));
    assert_eq!(frame_step(b""), FrameStep::Read(VARLINK_READ_CHUNK));
    assert_eq!(frame_step(b"{}"), FrameStep::Read(VARLINK_READ_CHUNK));
    let near = vec![b' '; MAX_VARLINK_REPLY_SIZE - 10];
    assert_eq!(frame_step(&near), FrameStep::Read(11));
    let full = vec![b' '; MAX_VARLINK_REPLY_SIZE];
    assert_eq!(frame_step(&full), FrameStep::Read(1));
    let oversized = vec![b' '; MAX_VARLINK_REPLY_SIZE + 1];
    assert_eq!(frame_step(&oversized), FrameStep::Oversized);
    let mut late = vec![b' '; MAX_VARLINK_REPLY_SIZE + 1];
    late.push(0);
    assert_eq!(frame_step(&late), FrameStep::Oversized);

    let mut input = b"ab\0cd".to_vec();
    assert_eq!(take_frame(&mut input, 2), b"ab".to_vec());
    assert_eq!(input, b"cd".to_vec());
}

#[test]
fn the_fuzz_entry_point_accepts_any_wire_bytes() {
    for wire in [
        &b""[..],
        b"\0",
        b"{\0",
        b"\xff\xfe\0",
        br#"{"parameters":{"addresses":[{"family":2,"address":[1,2,3,4]}]}}"#,
        br#"{"parameters":{"addresses":[{"family":2,"address":[1,2,3,4]}]}}\0trailing"#,
    ] {
        fuzz_decode_varlink_reply(wire);
    }
}

#[test]
fn the_lookup_decides_after_each_exchange() {
    assert_eq!(
        after_exchange(ExchangeOutcome::Answered, false),
        ExchangeDecision { keep_connection: true, action: LookupAction::Reply }
    );
    assert_eq!(
        after_exchange(ExchangeOutcome::Rejected { protocol: true }, false),
        ExchangeDecision { keep_connection: false, action: LookupAction::Reply }
    );
    assert_eq!(
        after_exchange(ExchangeOutcome::Rejected { protocol: false }, true),
        ExchangeDecision { keep_connection: true, action: LookupAction::Reply }
    );
    assert_eq!(
        after_exchange(ExchangeOutcome::TransportFailed, false),
        ExchangeDecision { keep_connection: false, action: LookupAction::Reconnect }
    );
    assert_eq!(
        after_exchange(ExchangeOutcome::TransportFailed, true),
        ExchangeDecision { keep_connection: false, action: LookupAction::FallBack }
    );
    assert!(uses_service(ResolverMode::Unknown));
    assert!(uses_service(ResolverMode::Varlink));
    assert!(!uses_service(ResolverMode::Blocking));
    assert_eq!(mode_after_lookup(true), ResolverMode::Varlink);
    assert_eq!(mode_after_lookup(false), ResolverMode::Blocking);
}

#[test]
fn the_blocking_answer_needs_an_address() {
    assert!(matches!(
        blocking_answer(Vec::new(), "none.example"),
        Err(ResolveError::HostNotFound { host }) if host == "none.example"
    ));
    let one = vec![SocketAddress::V4 { octets: [127, 0, 0, 1], port: 80 }];
    assert_eq!(blocking_answer(one.clone(), "localhost").unwrap(), one);
}

#[test]
fn test_sync_stream_basic_read_write() {
    let mut client = SyncStream::new(());
    let mut server = SyncStream::new(());

    assert_eq!(client.write_buffered(b"hello"), Some(5));
    let flushed = client.take_pending();
    assert_eq!(server.receive(&flushed), 5);

    let mut buf = [0u8; 10];
    assert_eq!(server.read_buffered(&mut buf), Some(5));
    assert_eq!(&buf[..5], b"hello");
}

#[test]
fn test_sync_stream_would_block_on_empty_read() {
    let mut sync_stream = SyncStream::new(());
    let mut buf = [0u8; 10];
    assert_eq!(sync_stream.read_buffered(&mut buf), None);
}

#[test]
fn test_sync_stream_eof() {
    let mut client = SyncStream::new(());
    let mut server = SyncStream::new(());
    assert_eq!(client.write_buffered(b"final"), Some(5));
    let flushed = client.take_pending();
    server.receive(&flushed);
    assert!(!server.is_eof());
    server.receive(&[]);
    assert!(server.is_eof());

    let mut buf = [0u8; 10];
    assert_eq!(server.read_buffered(&mut buf), Some(5));
    assert_eq!(&buf[..5], b"final");
    assert_eq!(server.read_buffered(&mut buf), Some(0));
}

#[test]
fn a_full_write_buffer_must_be_flushed_first() {
    let mut stream = SyncStream::with_capacity(4, 7_u8);
    assert_eq!(stream.write_buffered(b"abcdef"), Some(4));
    assert!(stream.has_pending_writes());
    assert_eq!(stream.write_buffered(b"g"), None);
    assert_eq!(stream.take_pending(), b"abcd".to_vec());
    assert!(!stream.has_pending_writes());
    assert_eq!(stream.write_buffered(b"g"), Some(1));
    assert_eq!(*stream.get_ref(), 7);
    *stream.get_mut() = 8;
    assert_eq!(stream.into_inner(), 8);
}

#[test]
fn the_async_adaptor_fills_and_flushes_on_demand() {
    let mut adaptor = AsyncStream::new(5_u32);
    assert_eq!(*adaptor.get_ref(), 5);
    let mut buf = [0u8; 4];

    // Nothing is buffered: the read starts a fill and then waits for it.
    assert_eq!(adaptor.poll_read(Progress::Idle, &mut buf), ReadStep::StartFill);
    assert_eq!(adaptor.poll_read(Progress::Pending, &mut buf), ReadStep::Pending);
    adaptor.sync_stream().receive(b"abcdef");
    assert_eq!(adaptor.poll_read(Progress::Finished, &mut buf), ReadStep::Ready(4));
    assert_eq!(&buf, b"abcd");
    assert_eq!(adaptor.poll_read(Progress::Idle, &mut buf), ReadStep::Ready(2));
    assert_eq!(&buf[..2], b"ef");

    // A flush with nothing buffered is complete; otherwise it is started.
    assert_eq!(adaptor.poll_flush(Progress::Idle), FlushStep::Complete);
    assert_eq!(adaptor.poll_write(Progress::Idle, b"xyz"), WriteStep::Ready(3));
    assert_eq!(adaptor.poll_flush(Progress::Idle), FlushStep::StartFlush);
    assert_eq!(adaptor.poll_flush(Progress::Pending), FlushStep::Pending);
    assert_eq!(adaptor.sync_stream().take_pending(), b"xyz".to_vec());
    assert_eq!(adaptor.poll_flush(Progress::Finished), FlushStep::Finished);

    // The shutdown follows the flush, and a flush during it has nothing to do.
    assert_eq!(adaptor.poll_shutdown(Progress::Idle), ShutdownStep::StartShutdown);
    assert_eq!(adaptor.poll_flush(Progress::Idle), FlushStep::Complete);
    assert_eq!(adaptor.poll_shutdown(Progress::Pending), ShutdownStep::Pending);
    assert_eq!(adaptor.poll_shutdown(Progress::Finished), ShutdownStep::Finished);

    // The end of the stream reads as zero bytes.
    adaptor.sync_stream().receive(&[]);
    assert_eq!(adaptor.poll_read(Progress::Idle, &mut buf), ReadStep::Ready(0));
    *adaptor.get_mut() = 6;
    assert_eq!(*adaptor.get_ref(), 6);
}

#[test]
fn a_write_into_a_full_adaptor_starts_a_flush() {
    let mut adaptor = AsyncStream::with_capacity(2, ());
    assert_eq!(adaptor.poll_write(Progress::Idle, b"abc"), WriteStep::Ready(2));
    assert_eq!(adaptor.poll_write(Progress::Idle, b"c"), WriteStep::StartFlush);
    assert_eq!(adaptor.poll_write(Progress::Pending, b"c"), WriteStep::Pending);
    assert_eq!(adaptor.sync_stream().take_pending(), b"ab".to_vec());
    assert_eq!(adaptor.poll_write(Progress::Finished, b"c"), WriteStep::Ready(1));
    assert_eq!(DEFAULT_BUFFER_CAPACITY, 8192);
}
