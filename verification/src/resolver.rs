//! Host name resolution through the systemd-resolved Varlink service: the
//! request that the resolver sends, the framing and the decode of the reply,
//! and the conversion of its addresses.
//!
//! The resolver asks the local systemd-resolved service through its Varlink
//! socket. If that service is not available, a helper thread does the
//! blocking name resolution of the platform; that helper, the socket and the
//! waits live outside this library and hand their data to the functions here.

pub mod reply_spec;
pub mod varlink_reply;

use vstd::prelude::*;
use vstd::string::{StringExecFns, StringSliceAdditionalSpecFns};
use vstd::utf8::valid_utf8;

use crate::json_error::{append_decimal, decimal, usize_text};
use crate::resolver::reply_spec::{reply_run, AddressView, ItemView, ReplyRun};
use crate::resolver::varlink_reply::{
    item_matches, reply_kind_description, ReplyError, ReplyErrorKind, ReplyItem,
    ResolveHostnameReply, ResolvedAddress,
};
use crate::text::{lemma_valid_up_to, utf8_text, utf8_valid_up_to};

verus! {

/// The Varlink method that resolves a host name.
pub const RESOLVE_HOSTNAME_METHOD: &'static str = "io.systemd.Resolve.ResolveHostname";

/// The largest reply frame that the resolver accepts, without its NUL
/// terminator.
pub const MAX_VARLINK_REPLY_SIZE: usize = 65536;

/// How much spare capacity each read adds to the reply buffer.
pub const VARLINK_READ_CHUNK: usize = 4096;

/// The error code of a failed system call.
#[verifier::external_type_specification]
#[verifier::external_body]
pub struct ExErrno(rustix::io::Errno);

/// An I/O error of the standard library.
#[verifier::external_type_specification]
#[verifier::external_body]
pub struct ExIoError(std::io::Error);

/// `libc::AF_INET`, the address family of IPv4, which is 2 on Linux.
#[verifier::external_body]
fn af_inet() -> (family: i32)
    ensures
        family == 2,
{
    libc::AF_INET
}

/// `libc::AF_INET6`, the address family of IPv6, which is 10 on Linux.
#[verifier::external_body]
fn af_inet6() -> (family: i32)
    ensures
        family == 10,
{
    libc::AF_INET6
}

/// An error from the resolution of a host name.
#[allow(inconsistent_fields)]
#[derive(Debug)]
#[non_exhaustive]
pub enum ResolveError {
    /// The resolver returned no address for the requested host.
    HostNotFound {
        /// The host that did not resolve.
        host: String,
    },
    /// The system resolver returned an invalid protocol message.
    Protocol {
        /// A description of the invalid message.
        detail: String,
    },
    /// An asynchronous I/O operation of the resolver failed.
    Io {
        /// The operation that failed.
        operation: &'static str,
        /// The I/O error.
        source: rustix::io::Errno,
    },
    /// The blocking name resolution of the platform failed.
    System {
        /// The host that did not resolve.
        host: String,
        /// The error from the resolver of the platform.
        source: std::io::Error,
    },
    /// The blocking helper for the full process did not accept the request.
    HelperUnavailable {
        /// A description of the failure of the helper.
        detail: String,
    },
    /// The task was canceled during a wait for resolver state.
    Canceled,
}

/// A [`ResolveError`] with its texts as characters. The sources of `Io` and
/// `System` are errors of the operating system and are not part of it.
pub enum ResolveErrorView {
    HostNotFound { host: Seq<char> },
    Protocol { detail: Seq<char> },
    Io { operation: Seq<char> },
    System { host: Seq<char> },
    HelperUnavailable { detail: Seq<char> },
    Canceled,
}

impl View for ResolveError {
    type V = ResolveErrorView;

    open spec fn view(&self) -> ResolveErrorView {
        match self {
            ResolveError::HostNotFound { host } => ResolveErrorView::HostNotFound { host: host@ },
            ResolveError::Protocol { detail } => ResolveErrorView::Protocol { detail: detail@ },
            ResolveError::Io { operation, .. } => ResolveErrorView::Io { operation: operation@ },
            ResolveError::System { host, .. } => ResolveErrorView::System { host: host@ },
            ResolveError::HelperUnavailable { detail } => ResolveErrorView::HelperUnavailable {
                detail: detail@,
            },
            ResolveError::Canceled => ResolveErrorView::Canceled,
        }
    }
}

/// `format!("{}", source)` for an error code: the text of the operating system
/// for the code. That text depends on the platform, thus nothing is stated of
/// it.
#[verifier::external_body]
fn errno_text(source: &rustix::io::Errno) -> (text: String) {
    format!("{}", source)
}

/// `format!("{}", source)` for an I/O error: the text of the operating system
/// or of the standard library for the error. That text depends on the
/// platform, thus nothing is stated of it.
#[verifier::external_body]
fn io_error_text(source: &std::io::Error) -> (text: String) {
    format!("{}", source)
}

/// The decimal notation of a signed integer.
pub open spec fn signed_decimal(value: int) -> Seq<char> {
    if value < 0 {
        "-"@ + decimal((-value) as nat)
    } else {
        decimal(value as nat)
    }
}

/// The decimal notation of `value`, as `Display` writes it: a minus sign for a
/// negative value, and then the decimal notation of its magnitude.
fn i32_text(value: i32) -> (text: String)
    ensures
        text@ == signed_decimal(value as int),
{
    let mut text = String::new();
    if value < 0 {
        text.append("-");
        proof {
            reveal_strlit("-");
        }
        let magnitude = (0i64 - value as i64) as u64;
        append_decimal(magnitude, &mut text);
    } else {
        append_decimal(value as u64, &mut text);
    }
    assert(text@ =~= signed_decimal(value as int));
    text
}

impl ResolveError {
    /// Describes the error in one line. The text of an `Io` or a `System`
    /// error ends with the description of the operating system error, which
    /// depends on the platform.
    pub fn to_string(&self) -> (text: String)
        ensures
            match self@ {
                ResolveErrorView::HostNotFound { host } => text@ == "host `"@ + host
                    + "` did not resolve to any addresses"@,
                ResolveErrorView::Protocol { detail } => text@
                    == "invalid response from the system resolver: "@ + detail,
                ResolveErrorView::Io { operation } => text@.len() >= ("resolver I/O failed while "@
                    + operation + ": "@).len() && text@.take(
                    ("resolver I/O failed while "@ + operation + ": "@).len() as int,
                ) == "resolver I/O failed while "@ + operation + ": "@,
                ResolveErrorView::System { host } => text@.len() >= ("failed to resolve `"@ + host
                    + "`: "@).len() && text@.take(("failed to resolve `"@ + host + "`: "@).len() as int)
                    == "failed to resolve `"@ + host + "`: "@,
                ResolveErrorView::HelperUnavailable { detail } => text@
                    == "blocking resolver helper is unavailable: "@ + detail,
                ResolveErrorView::Canceled => text@ == "name resolution was canceled"@,
            },
    {
        match self {
            ResolveError::HostNotFound { host } => {
                let mut text = String::from_str("host `");
                text.append(host.as_str());
                text.append("` did not resolve to any addresses");
                text
            },
            ResolveError::Protocol { detail } => {
                let mut text = String::from_str("invalid response from the system resolver: ");
                text.append(detail.as_str());
                text
            },
            ResolveError::Io { operation, source } => {
                let mut text = String::from_str("resolver I/O failed while ");
                text.append(operation);
                text.append(": ");
                let ghost prefix = text@;
                let described = errno_text(source);
                text.append(described.as_str());
                assert(text@.take(prefix.len() as int) =~= prefix);
                text
            },
            ResolveError::System { host, source } => {
                let mut text = String::from_str("failed to resolve `");
                text.append(host.as_str());
                text.append("`: ");
                let ghost prefix = text@;
                let described = io_error_text(source);
                text.append(described.as_str());
                assert(text@.take(prefix.len() as int) =~= prefix);
                text
            },
            ResolveError::HelperUnavailable { detail } => {
                let mut text = String::from_str("blocking resolver helper is unavailable: ");
                text.append(detail.as_str());
                text
            },
            ResolveError::Canceled => String::from_str("name resolution was canceled"),
        }
    }
}

/// Describes an invalid reply as a protocol failure.
fn protocol_error(detail: String) -> (error: ResolveError)
    ensures
        error@ == (ResolveErrorView::Protocol { detail: detail@ }),
{
    ResolveError::Protocol { detail }
}

/// Describes a rejected reply as a protocol failure.
fn decode_error(error: ReplyError) -> (converted: ResolveError)
    ensures
        converted@ == (ResolveErrorView::Protocol { detail: decode_error_detail(error@) }),
{
    let mut detail = String::from_str("reply was not a valid ResolveHostname response: ");
    let described = error.to_string();
    detail.append(described.as_str());
    assert(detail@ =~= decode_error_detail(error@));
    protocol_error(detail)
}

/// The description of a rejected reply.
pub open spec fn decode_error_detail(error: (ReplyErrorKind, int)) -> Seq<char> {
    "reply was not a valid ResolveHostname response: "@ + reply_kind_description(error.0)
        + " at byte "@ + decimal(error.1 as nat)
}

// ---------------------------------------------------------------------------
// The request
// ---------------------------------------------------------------------------

/// The lower-case hexadecimal digit of `value`.
pub open spec fn hex_char(value: int) -> u8 {
    if value <= 9 {
        (0x30 + value) as u8
    } else {
        (0x61 + value - 10) as u8
    }
}

/// The form of one byte of a host name inside a JSON string: the quote, the
/// backslash, the solidus and the control characters are escaped, and each
/// other byte, among them each byte of a character outside of ASCII, stays as
/// it is.
pub open spec fn escaped_byte(byte: u8) -> Seq<u8> {
    if byte == 0x22 {
        seq![0x5cu8, 0x22u8]
    } else if byte == 0x5c {
        seq![0x5cu8, 0x5cu8]
    } else if byte == 0x2f {
        seq![0x5cu8, 0x2fu8]
    } else if byte == 0x08 {
        seq![0x5cu8, 0x62u8]
    } else if byte == 0x0c {
        seq![0x5cu8, 0x66u8]
    } else if byte == 0x0a {
        seq![0x5cu8, 0x6eu8]
    } else if byte == 0x0d {
        seq![0x5cu8, 0x72u8]
    } else if byte == 0x09 {
        seq![0x5cu8, 0x74u8]
    } else if byte < 0x20 {
        seq![0x5cu8, 0x75u8, 0x30u8, 0x30u8, hex_char((byte / 16) as int), hex_char((byte % 16) as int)]
    } else {
        seq![byte]
    }
}

/// The bytes of `text` in the form of the contents of a JSON string.
pub open spec fn escaped_json(text: Seq<u8>) -> Seq<u8>
    decreases text.len(),
{
    if text.len() == 0 {
        Seq::empty()
    } else {
        escaped_json(text.drop_last()) + escaped_byte(text.last())
    }
}

/// The `ResolveHostname` call for `host`, with its NUL terminator.
pub open spec fn varlink_request(host: Seq<u8>) -> Seq<u8> {
    "{\"method\":\"".spec_bytes() + RESOLVE_HOSTNAME_METHOD.spec_bytes()
        + "\",\"parameters\":{\"name\":\"".spec_bytes() + escaped_json(host) + "\"}}".spec_bytes()
        + seq![0u8]
}

/// The lower-case hexadecimal digit of `value`.
fn hex_digit(value: u8) -> (digit: u8)
    requires
        value <= 168,
    ensures
        digit == hex_char(value as int),
{
    if value <= 9 {
        0x30 + value
    } else {
        0x61 + (value - 10)
    }
}

/// Appends the bytes of `text`.
fn append_str(encoded: &mut Vec<u8>, text: &str)
    ensures
        final(encoded)@ == old(encoded)@ + text.spec_bytes(),
{
    let bytes = text.as_bytes();
    encoded.extend_from_slice(bytes);
    assert(encoded@ =~= old(encoded)@ + bytes@);
}

/// Appends `value` in the form of the contents of a JSON string.
fn encode_json_string_contents(value: &str, encoded: &mut Vec<u8>)
    ensures
        final(encoded)@ == old(encoded)@ + escaped_json(value.spec_bytes()),
{
    let bytes = value.as_bytes();
    let mut index: usize = 0;
    while index < bytes.len()
        invariant
            index <= bytes@.len(),
            bytes@ == value.spec_bytes(),
            encoded@ == old(encoded)@ + escaped_json(bytes@.take(index as int)),
        decreases bytes@.len() - index,
    {
        let byte = bytes[index];
        let ghost before = encoded@;
        if byte == 0x22 {
            encoded.push(0x5c);
            encoded.push(0x22);
        } else if byte == 0x5c {
            encoded.push(0x5c);
            encoded.push(0x5c);
        } else if byte == 0x2f {
            encoded.push(0x5c);
            encoded.push(0x2f);
        } else if byte == 0x08 {
            encoded.push(0x5c);
            encoded.push(0x62);
        } else if byte == 0x0c {
            encoded.push(0x5c);
            encoded.push(0x66);
        } else if byte == 0x0a {
            encoded.push(0x5c);
            encoded.push(0x6e);
        } else if byte == 0x0d {
            encoded.push(0x5c);
            encoded.push(0x72);
        } else if byte == 0x09 {
            encoded.push(0x5c);
            encoded.push(0x74);
        } else if byte < 0x20 {
            assert(byte >> 4 == byte / 16 && byte & 0x0f == byte % 16) by (bit_vector);
            encoded.push(0x5c);
            encoded.push(0x75);
            encoded.push(0x30);
            encoded.push(0x30);
            encoded.push(hex_digit(byte >> 4));
            encoded.push(hex_digit(byte & 0x0f));
        } else {
            encoded.push(byte);
        }
        proof {
            assert(bytes@.take(index + 1).drop_last() =~= bytes@.take(index as int));
            assert(encoded@ =~= before + escaped_byte(byte));
        }
        index = index + 1;
    }
    assert(bytes@.take(index as int) =~= bytes@);
}

/// Encodes the `ResolveHostname` call for `host`, with the NUL byte that ends
/// a Varlink message. The encoding cannot fail; the `Result` leaves room for
/// a check of the host name.
pub fn encode_varlink_request(host: &str) -> (request: Result<Vec<u8>, ResolveError>)
    ensures
        request matches Ok(request) && request@ == varlink_request(host.spec_bytes()),
{
    let mut encoded: Vec<u8> = Vec::new();
    proof {
        reveal_strlit("{\"method\":\"");
        reveal_strlit("io.systemd.Resolve.ResolveHostname");
        reveal_strlit("\",\"parameters\":{\"name\":\"");
        reveal_strlit("\"}}");
    }
    append_str(&mut encoded, "{\"method\":\"");
    append_str(&mut encoded, RESOLVE_HOSTNAME_METHOD);
    append_str(&mut encoded, "\",\"parameters\":{\"name\":\"");
    encode_json_string_contents(host, &mut encoded);
    append_str(&mut encoded, "\"}}");
    encoded.push(0);
    Ok(encoded)
}

// ---------------------------------------------------------------------------
// Addresses
// ---------------------------------------------------------------------------

/// A socket address of either family: the plain values that a socket needs.
#[derive(Clone, Copy, Debug, PartialEq, Eq)]
pub enum SocketAddress {
    V4 { octets: [u8; 4], port: u16 },
    V6 { octets: [u8; 16], port: u16, flowinfo: u32, scope_id: u32 },
}

/// A [`SocketAddress`] with its bytes as a sequence.
pub enum SocketAddressView {
    V4 { octets: Seq<u8>, port: u16 },
    V6 { octets: Seq<u8>, port: u16, flowinfo: u32, scope_id: u32 },
}

impl View for SocketAddress {
    type V = SocketAddressView;

    open spec fn view(&self) -> SocketAddressView {
        match self {
            SocketAddress::V4 { octets, port } => SocketAddressView::V4 { octets: octets@, port: *port },
            SocketAddress::V6 { octets, port, flowinfo, scope_id } => SocketAddressView::V6 {
                octets: octets@,
                port: *port,
                flowinfo: *flowinfo,
                scope_id: *scope_id,
            },
        }
    }
}

/// The views of a sequence of socket addresses.
pub open spec fn socket_views(addresses: Seq<SocketAddress>) -> Seq<SocketAddressView> {
    addresses.map_values(|address: SocketAddress| address@)
}

/// Combines a decoded address with `port`. The family decides the length:
/// four bytes for `AF_INET` (2) and sixteen for `AF_INET6` (10). An IPv6
/// address takes its interface index as its scope, which must not be
/// negative; each other family is unsupported.
pub open spec fn socket_address_of(address: AddressView, port: u16) -> Result<
    SocketAddressView,
    ResolveErrorView,
> {
    if address.family == 2 {
        if address.octets.len() == 4 {
            Ok(SocketAddressView::V4 { octets: address.octets, port })
        } else {
            Err(
                ResolveErrorView::Protocol {
                    detail: "IPv4 address did not contain exactly 4 bytes"@,
                },
            )
        }
    } else if address.family == 10 {
        if address.octets.len() != 16 {
            Err(
                ResolveErrorView::Protocol {
                    detail: "IPv6 address did not contain exactly 16 bytes"@,
                },
            )
        } else if address.ifindex < 0 {
            Err(ResolveErrorView::Protocol { detail: "`ifindex` was negative"@ })
        } else {
            Ok(
                SocketAddressView::V6 {
                    octets: address.octets,
                    port,
                    flowinfo: 0,
                    scope_id: address.ifindex as u32,
                },
            )
        }
    } else {
        Err(
            ResolveErrorView::Protocol {
                detail: "address entry used unsupported family "@ + signed_decimal(
                    address.family as int,
                ),
            },
        )
    }
}

/// Combines a decoded address with `port`, and rejects a combination of
/// family and length that is not valid.
///
/// The decoder reports the content of the reply; the decision if four bytes
/// are correct for the family needs socket knowledge, thus it is made here.
pub fn socket_address(address: &ResolvedAddress, port: u16) -> (socket: Result<
    SocketAddress,
    ResolveError,
>)
    ensures
        match socket_address_of(address@, port) {
            Ok(expected) => socket matches Ok(found) && found@ == expected,
            Err(expected) => socket matches Err(found) && found@ == expected,
        },
{
    let family = address.family();
    let octets = address.octets();
    if family == af_inet() {
        if octets.len() != 4 {
            return Err(
                protocol_error(String::from_str("IPv4 address did not contain exactly 4 bytes")),
            );
        }
        let bytes = [octets[0], octets[1], octets[2], octets[3]];
        assert(bytes@ =~= octets@);
        Ok(SocketAddress::V4 { octets: bytes, port })
    } else if family == af_inet6() {
        if octets.len() != 16 {
            return Err(
                protocol_error(String::from_str("IPv6 address did not contain exactly 16 bytes")),
            );
        }
        // systemd-resolved omits `ifindex` for a synthesized answer such as an
        // IP literal. The decoder reports that condition as zero, which is the
        // correct value for an IPv6 address with no scope.
        let ifindex = address.ifindex();
        if ifindex < 0 {
            return Err(protocol_error(String::from_str("`ifindex` was negative")));
        }
        let mut bytes = [0u8; 16];
        let mut index: usize = 0;
        while index < 16
            invariant
                index <= 16,
                octets@.len() == 16,
                forall|k: int| 0 <= k < index ==> bytes@[k] == octets@[k],
            decreases 16 - index,
        {
            bytes[index] = octets[index];
            index = index + 1;
        }
        assert(bytes@ =~= octets@);
        Ok(SocketAddress::V6 { octets: bytes, port, flowinfo: 0, scope_id: ifindex as u32 })
    } else {
        let mut detail = String::from_str("address entry used unsupported family ");
        let number = i32_text(family);
        detail.append(number.as_str());
        Err(protocol_error(detail))
    }
}

/// What the conversion of the items of a reply has collected: the socket
/// addresses, whether a method error occurred, and the first conversion that
/// failed, which stops the collection.
pub struct CollectView {
    pub addresses: Seq<SocketAddressView>,
    pub method_error: bool,
    pub failure: Option<ResolveErrorView>,
}

/// Converts one more item. A method error is recorded; the canonical name and
/// the lookup flags carry nothing that the caller requested.
pub open spec fn collect_step(collected: CollectView, item: ItemView, port: u16) -> CollectView {
    if collected.failure is Some {
        collected
    } else {
        match item {
            ItemView::Address(address) => match socket_address_of(address, port) {
                Ok(socket) => CollectView {
                    addresses: collected.addresses.push(socket),
                    ..collected
                },
                Err(error) => CollectView { failure: Some(error), ..collected },
            },
            ItemView::Error { .. } => CollectView { method_error: true, ..collected },
            _ => collected,
        }
    }
}

/// Converts the items of a reply in their order.
pub open spec fn collect_items(items: Seq<ItemView>, port: u16) -> CollectView
    decreases items.len(),
{
    if items.len() == 0 {
        CollectView { addresses: Seq::empty(), method_error: false, failure: None }
    } else {
        collect_step(collect_items(items.drop_last(), port), items.last(), port)
    }
}

/// Once a conversion failed, the collection keeps that failure.
proof fn lemma_collect_failure_stays(items: Seq<ItemView>, count: int, port: u16)
    requires
        0 <= count <= items.len(),
        collect_items(items.take(count), port).failure is Some,
    ensures
        collect_items(items, port).failure == collect_items(items.take(count), port).failure,
    decreases items.len(),
{
    if count == items.len() {
        assert(items.take(count) =~= items);
    } else {
        assert(items.drop_last().take(count) =~= items.take(count));
        lemma_collect_failure_stays(items.drop_last(), count, port);
    }
}

/// What the decode of a reply frame gives: the addresses of the host, or the
/// reason why there are none.
///
/// A frame above [`MAX_VARLINK_REPLY_SIZE`] and a frame that is not UTF-8 are
/// protocol errors. Otherwise the items are converted as they arrive, and the
/// first conversion that fails is the result. A rejected reply is a protocol
/// error. An accepted reply with a method error or with no address means that
/// the host was not found.
pub open spec fn decoded_reply(reply: Seq<u8>, host: Seq<char>, port: u16) -> Result<
    Seq<SocketAddressView>,
    ResolveErrorView,
> {
    if reply.len() > MAX_VARLINK_REPLY_SIZE {
        Err(ResolveErrorView::Protocol { detail: "reply exceeded the 65536-byte limit"@ })
    } else if !valid_utf8(reply) {
        Err(
            ResolveErrorView::Protocol {
                detail: "reply was not valid UTF-8 after "@ + decimal(utf8_valid_up_to(reply))
                    + " bytes"@,
            },
        )
    } else {
        let run = reply_run(reply);
        let collected = collect_items(run.items, port);
        match collected.failure {
            Some(error) => Err(error),
            None => match run.end {
                Err(rejection) => Err(
                    ResolveErrorView::Protocol { detail: decode_error_detail(rejection) },
                ),
                Ok(()) => if collected.method_error || collected.addresses.len() == 0 {
                    Err(ResolveErrorView::HostNotFound { host })
                } else {
                    Ok(collected.addresses)
                },
            },
        }
    }
}

/// Converts each address of a reply as it arrives.
struct CollectAddresses {
    addresses: Vec<SocketAddress>,
    port: u16,
    /// Whether the reply contained a Varlink method error. systemd-resolved
    /// reports "no such host" in this form.
    method_error: bool,
}

impl CollectAddresses {
    /// Takes one item. Returns the error of an address that does not convert,
    /// which stops the decode.
    fn accept<'a>(
        &mut self,
        item: ReplyItem<'a>,
        Ghost(bytes): Ghost<Seq<u8>>,
        Ghost(view): Ghost<ItemView>,
    ) -> (stop: Option<ResolveError>)
        requires
            item_matches(item, bytes, view),
        ensures
            final(self).port == old(self).port,
            ({
                let before = CollectView {
                    addresses: socket_views(old(self).addresses@),
                    method_error: old(self).method_error,
                    failure: None,
                };
                let after = collect_step(before, view, old(self).port);
                match after.failure {
                    Some(error) => stop matches Some(found) && found@ == error,
                    None => stop is None && socket_views(final(self).addresses@) == after.addresses
                        && final(self).method_error == after.method_error,
                }
            }),
    {
        match item {
            ReplyItem::Address(address) => match socket_address(&address, self.port) {
                Ok(socket) => {
                    let ghost before = self.addresses@;
                    self.addresses.push(socket);
                    assert(socket_views(self.addresses@) =~= socket_views(before).push(socket@));
                    None
                },
                Err(error) => Some(error),
            },
            ReplyItem::Error(_) => {
                self.method_error = true;
                None
            },
            // The canonical name and the lookup flags contain no data that the
            // caller requested, because the caller knows the host name already.
            ReplyItem::Name(_) | ReplyItem::EscapeName(_) | ReplyItem::Flags(_) => None,
        }
    }
}

/// Decodes the body of a reply frame into the socket addresses of `host`, each
/// with `port`.
pub fn decode_varlink_reply(reply: &[u8], host: &str, port: u16) -> (addresses: Result<
    Vec<SocketAddress>,
    ResolveError,
>)
    ensures
        match decoded_reply(reply@, host@, port) {
            Ok(expected) => addresses matches Ok(found) && socket_views(found@) == expected,
            Err(expected) => addresses matches Err(found) && found@ == expected,
        },
{
    if reply.len() > MAX_VARLINK_REPLY_SIZE {
        return Err(protocol_error(String::from_str("reply exceeded the 65536-byte limit")));
    }
    // A frame arrives as bytes, and JSON is UTF-8 by definition. A frame that
    // is not UTF-8 is not JSON, and this reports it in the terms of the
    // resolver.
    let text = match utf8_text(reply) {
        Ok(text) => text,
        Err(valid) => {
            proof {
                lemma_valid_up_to(reply@, valid as nat);
            }
            let mut detail = String::from_str("reply was not valid UTF-8 after ");
            let number = usize_text(valid);
            detail.append(number.as_str());
            detail.append(" bytes");
            return Err(protocol_error(detail));
        },
    };
    let mut collect = CollectAddresses { addresses: Vec::new(), port, method_error: false };
    let mut decoder = ResolveHostnameReply::new(text);
    let ghost run = reply_run(reply@);
    let ghost mut count: int = 0;
    proof {
        assert(run.items.skip(0) =~= run.items);
        assert(run.items.take(0) =~= Seq::<ItemView>::empty());
        assert(socket_views(collect.addresses@) =~= Seq::<SocketAddressView>::empty());
    }
    loop
        invariant_except_break
            !decoder@.finished,
            decoder.remaining() == (ReplyRun { items: run.items.skip(count), end: run.end }),
        invariant
            decoder.wf(),
            decoder.bytes() == reply@,
            run == reply_run(reply@),
            valid_utf8(reply@),
            reply@.len() <= MAX_VARLINK_REPLY_SIZE,
            0 <= count <= run.items.len(),
            collect.port == port,
            collect_items(run.items.take(count), port).failure is None,
            socket_views(collect.addresses@) == collect_items(run.items.take(count), port).addresses,
            collect.method_error == collect_items(run.items.take(count), port).method_error,
        ensures
            count == run.items.len(),
            run.end is Ok,
        decreases run.items.len() - count,
    {
        let ghost before = run.items.take(count);
        match decoder.next_item() {
            Ok(Some(item)) => {
                let ghost view = run.items[count];
                proof {
                    assert(run.items.skip(count)[0] == view);
                    assert(run.items.take(count + 1).drop_last() =~= before);
                    assert(run.items.take(count + 1).last() == view);
                    assert(run.items.skip(count).drop_first() =~= run.items.skip(count + 1));
                }
                let stop = collect.accept(item, Ghost(reply@), Ghost(view));
                proof {
                    count = count + 1;
                }
                if let Some(error) = stop {
                    proof {
                        lemma_collect_failure_stays(run.items, count, port);
                    }
                    return Err(error);
                }
            },
            Ok(None) => break,
            Err(error) => {
                assert(run.items.take(count) =~= run.items);
                return Err(decode_error(error));
            },
        }
    }
    assert(run.items.take(count) =~= run.items);
    if collect.method_error || collect.addresses.len() == 0 {
        return Err(ResolveError::HostNotFound { host: host.to_owned() });
    }
    Ok(collect.addresses)
}

// ---------------------------------------------------------------------------
// Framing
// ---------------------------------------------------------------------------

/// Whether no byte before `end` is NUL.
pub open spec fn nul_free(bytes: Seq<u8>, end: int) -> bool {
    forall|k: int| 0 <= k < end ==> bytes[k] != 0
}

/// Whether the first NUL byte of `bytes`, which ends a Varlink message, is at
/// `terminator`.
pub open spec fn terminated_at(bytes: Seq<u8>, terminator: int) -> bool {
    &&& 0 <= terminator < bytes.len()
    &&& bytes[terminator] == 0
    &&& nul_free(bytes, terminator)
}

/// Returns the position of the first NUL byte.
fn find_terminator(bytes: &[u8]) -> (terminator: Option<usize>)
    ensures
        match terminator {
            Some(terminator) => terminated_at(bytes@, terminator as int),
            None => nul_free(bytes@, bytes@.len() as int),
        },
{
    let mut index: usize = 0;
    while index < bytes.len()
        invariant
            index <= bytes@.len(),
            nul_free(bytes@, index as int),
        decreases bytes@.len() - index,
    {
        if bytes[index] == 0 {
            return Some(index);
        }
        index = index + 1;
    }
    None
}

/// What a reader of reply frames does next with the bytes that it holds.
#[derive(Clone, Copy, Debug, PartialEq, Eq)]
pub enum FrameStep {
    /// A complete frame ends with the NUL byte at this position.
    Frame(usize),
    /// The reply exceeds [`MAX_VARLINK_REPLY_SIZE`].
    Oversized,
    /// No frame is complete yet: read at most this many more bytes.
    Read(usize),
}

/// Decides, from the bytes received so far, whether a reply frame is complete,
/// too large, or needs more bytes. A read asks for no more than one byte
/// beyond the limit and no more than [`VARLINK_READ_CHUNK`] at a time.
pub fn frame_step(input: &[u8]) -> (step: FrameStep)
    ensures
        match step {
            FrameStep::Frame(terminator) => terminated_at(input@, terminator as int)
                && terminator <= MAX_VARLINK_REPLY_SIZE,
            FrameStep::Oversized => (forall|terminator: int|
                terminated_at(input@, terminator) ==> terminator > MAX_VARLINK_REPLY_SIZE) && (
            nul_free(input@, input@.len() as int) ==> input@.len() > MAX_VARLINK_REPLY_SIZE),
            FrameStep::Read(amount) => {
                &&& nul_free(input@, input@.len() as int)
                &&& input@.len() <= MAX_VARLINK_REPLY_SIZE
                &&& amount as int == if MAX_VARLINK_REPLY_SIZE + 1 - input@.len()
                    < VARLINK_READ_CHUNK {
                    MAX_VARLINK_REPLY_SIZE + 1 - input@.len()
                } else {
                    VARLINK_READ_CHUNK as int
                }
            },
        },
{
    match find_terminator(input) {
        Some(terminator) => {
            if terminator > MAX_VARLINK_REPLY_SIZE {
                return FrameStep::Oversized;
            }
            FrameStep::Frame(terminator)
        },
        None => {
            if input.len() > MAX_VARLINK_REPLY_SIZE {
                return FrameStep::Oversized;
            }
            let remaining = MAX_VARLINK_REPLY_SIZE + 1 - input.len();
            if remaining < VARLINK_READ_CHUNK {
                FrameStep::Read(remaining)
            } else {
                FrameStep::Read(VARLINK_READ_CHUNK)
            }
        },
    }
}

/// Removes a complete frame and its NUL terminator from the front of `input`,
/// and returns the frame without the terminator.
pub fn take_frame(input: &mut Vec<u8>, terminator: usize) -> (frame: Vec<u8>)
    requires
        terminator < old(input)@.len(),
    ensures
        frame@ == old(input)@.take(terminator as int),
        final(input)@ == old(input)@.skip(terminator + 1),
{
    let mut frame: Vec<u8> = Vec::new();
    let mut index: usize = 0;
    while index < terminator
        invariant
            index <= terminator < input@.len(),
            input@ == old(input)@,
            frame@ == input@.take(index as int),
        decreases terminator - index,
    {
        frame.push(input[index]);
        assert(input@.take(index + 1) =~= input@.take(index as int).push(input@[index as int]));
        index = index + 1;
    }
    let mut rest: Vec<u8> = Vec::new();
    let length = input.len();
    assert(terminator < length);
    let mut position: usize = terminator + 1;
    while position < input.len()
        invariant
            terminator + 1 <= position <= input@.len(),
            input@ == old(input)@,
            rest@ == input@.subrange(terminator + 1, position as int),
        decreases input@.len() - position,
    {
        rest.push(input[position]);
        assert(input@.subrange(terminator + 1, position + 1) =~= input@.subrange(
            terminator + 1,
            position as int,
        ).push(input@[position as int]));
        position = position + 1;
    }
    assert(rest@ =~= input@.skip(terminator + 1));
    *input = rest;
    frame
}

/// What the decode of raw wire bytes, with their framing, gives for the host
/// `fuzz.invalid` and the port 443: the frame ends at the first NUL byte and
/// must not exceed [`MAX_VARLINK_REPLY_SIZE`].
pub open spec fn decoded_wire(wire: Seq<u8>) -> Result<Seq<SocketAddressView>, ResolveErrorView> {
    if nul_free(wire, wire.len() as int) {
        if wire.len() > MAX_VARLINK_REPLY_SIZE {
            Err(ResolveErrorView::Protocol { detail: "reply exceeded the 65536-byte limit"@ })
        } else {
            Err(ResolveErrorView::Protocol { detail: "reply did not end with a NUL byte"@ })
        }
    } else {
        let terminator = choose|terminator: int| terminated_at(wire, terminator);
        if terminator > MAX_VARLINK_REPLY_SIZE {
            Err(ResolveErrorView::Protocol { detail: "reply exceeded the 65536-byte limit"@ })
        } else {
            decoded_reply(wire.take(terminator), "fuzz.invalid"@, 443)
        }
    }
}

/// The first NUL byte of a sequence that holds one is the unique position
/// where it is terminated.
proof fn lemma_terminator_unique(bytes: Seq<u8>, terminator: int)
    requires
        terminated_at(bytes, terminator),
    ensures
        !nul_free(bytes, bytes.len() as int),
        (choose|other: int| terminated_at(bytes, other)) == terminator,
{
    let other = choose|other: int| terminated_at(bytes, other);
    assert(terminated_at(bytes, other));
    if other < terminator {
        assert(bytes[other] != 0);
    } else if terminator < other {
        assert(bytes[terminator] != 0);
    }
}

/// Decodes raw wire bytes together with their framing.
fn decode_varlink_frame(wire: &[u8]) -> (addresses: Result<Vec<SocketAddress>, ResolveError>)
    ensures
        match decoded_wire(wire@) {
            Ok(expected) => addresses matches Ok(found) && socket_views(found@) == expected,
            Err(expected) => addresses matches Err(found) && found@ == expected,
        },
{
    match find_terminator(wire) {
        Some(terminator) => {
            proof {
                lemma_terminator_unique(wire@, terminator as int);
            }
            if terminator > MAX_VARLINK_REPLY_SIZE {
                return Err(protocol_error(String::from_str("reply exceeded the 65536-byte limit")));
            }
            let (frame, _) = wire.split_at(terminator);
            proof {
                reveal_strlit("fuzz.invalid");
            }
            decode_varlink_reply(frame, "fuzz.invalid", 443)
        },
        None => {
            if wire.len() > MAX_VARLINK_REPLY_SIZE {
                return Err(protocol_error(String::from_str("reply exceeded the 65536-byte limit")));
            }
            Err(protocol_error(String::from_str("reply did not end with a NUL byte")))
        },
    }
}

/// Decodes a Varlink reply, together with its framing, for coverage-guided
/// fuzz tests. The result is dropped: what is tested is that no input panics,
/// which verification shows for each input.
pub fn fuzz_decode_varlink_reply(wire: &[u8]) {
    let result = decode_varlink_frame(wire);
    let _ = result;
}

// ---------------------------------------------------------------------------
// The choice of the name service
// ---------------------------------------------------------------------------

/// How the resolver of a thread reaches its answers.
#[derive(Clone, Copy, Debug, PartialEq, Eq, Structural)]
pub enum ResolverMode {
    /// No lookup has finished yet.
    Unknown,
    /// systemd-resolved answered.
    Varlink,
    /// systemd-resolved could not be reached; the blocking helper answers.
    Blocking,
}

/// How one exchange with systemd-resolved ended.
#[derive(Clone, Copy, Debug, PartialEq, Eq, Structural)]
pub enum ExchangeOutcome {
    /// The reply held addresses.
    Answered,
    /// The reply was an answer without addresses, or invalid; `protocol` tells
    /// an invalid reply apart.
    Rejected { protocol: bool },
    /// The request or the reply did not cross the connection.
    TransportFailed,
}

/// What the preferred lookup does after one exchange.
#[derive(Clone, Copy, Debug, PartialEq, Eq, Structural)]
pub enum LookupAction {
    /// The reply is the answer of the lookup.
    Reply,
    /// Connect again and repeat the exchange once.
    Reconnect,
    /// The service cannot be reached; the blocking helper takes over.
    FallBack,
}

/// The decision after one exchange: whether the connection stays open, and
/// what the lookup does next.
#[derive(Clone, Copy, Debug, PartialEq, Eq, Structural)]
pub struct ExchangeDecision {
    pub keep_connection: bool,
    pub action: LookupAction,
}

/// Decides what follows an exchange. An answer of the service is final; an
/// invalid reply also closes the connection, whose state is then unknown. A
/// transport failure closes the connection and is retried once on a new one;
/// a second one falls back to the blocking helper.
pub fn after_exchange(outcome: ExchangeOutcome, retried: bool) -> (decision: ExchangeDecision)
    ensures
        decision == match outcome {
            ExchangeOutcome::Answered => ExchangeDecision {
                keep_connection: true,
                action: LookupAction::Reply,
            },
            ExchangeOutcome::Rejected { protocol } => ExchangeDecision {
                keep_connection: !protocol,
                action: LookupAction::Reply,
            },
            ExchangeOutcome::TransportFailed => ExchangeDecision {
                keep_connection: false,
                action: if retried {
                    LookupAction::FallBack
                } else {
                    LookupAction::Reconnect
                },
            },
        },
{
    match outcome {
        ExchangeOutcome::Answered => ExchangeDecision {
            keep_connection: true,
            action: LookupAction::Reply,
        },
        ExchangeOutcome::Rejected { protocol } => ExchangeDecision {
            keep_connection: !protocol,
            action: LookupAction::Reply,
        },
        ExchangeOutcome::TransportFailed => ExchangeDecision {
            keep_connection: false,
            action: if retried {
                LookupAction::FallBack
            } else {
                LookupAction::Reconnect
            },
        },
    }
}

/// Whether a lookup asks systemd-resolved first: always, unless it was found
/// unreachable before.
pub fn uses_service(mode: ResolverMode) -> (asks: bool)
    ensures
        asks == (mode != ResolverMode::Blocking),
{
    mode != ResolverMode::Blocking
}

/// The mode after a lookup through the service: a reply, even a negative one,
/// shows that the service works; a transport failure selects the blocking
/// helper for the later lookups.
pub fn mode_after_lookup(replied: bool) -> (mode: ResolverMode)
    ensures
        mode == if replied {
            ResolverMode::Varlink
        } else {
            ResolverMode::Blocking
        },
{
    if replied {
        ResolverMode::Varlink
    } else {
        ResolverMode::Blocking
    }
}

/// The answer of the blocking helper: at least one address, or the host was
/// not found.
pub fn blocking_answer(addresses: Vec<SocketAddress>, host: &str) -> (answer: Result<
    Vec<SocketAddress>,
    ResolveError,
>)
    ensures
        addresses@.len() == 0 ==> (answer matches Err(error) && error@ == (
        ResolveErrorView::HostNotFound { host: host@ })),
        addresses@.len() > 0 ==> (answer matches Ok(found) && found@ == addresses@),
{
    if addresses.len() == 0 {
        Err(ResolveError::HostNotFound { host: host.to_owned() })
    } else {
        Ok(addresses)
    }
}

} // verus!
