# kimojio

A verified library for a small JSON tokenizer, the decoder of systemd-resolved
`ResolveHostname` replies built on it, and the buffering logic of a stream
adaptor. Every function in `src/` is checked by Verus against its contract,
except the small wrappers marked `#[verifier::external_body]` around calls into
`std`, `libc` and `rustix`, whose contracts are trusted.

Layout:

- `src/tokenizer.rs`, `src/tokenizer_spec.rs`: the scanner, and the grammar as
  a step function over the bytes of a document.
- `src/escape_string.rs`, `src/unescape_spec.rs`: string bodies with escape
  sequences and their decode.
- `src/resolver/varlink_reply.rs`, `src/resolver/reply_spec.rs`: the reply
  decoder, a state machine driven by the tokens, and its meaning.
- `src/resolver.rs`: the request, the framing of replies, the conversion of
  addresses, and the choice between the service and a blocking helper.
- `src/stream_adapt.rs`: the buffers of a synchronous stream above an
  asynchronous one, and the polling protocol of the adaptor.
- `src/laws.rs`: properties that relate several operations.
- `app/`: the sockets, threads, `std` traits and `futures` I/O traits around
  the library (`app/async_io.rs` runs the fills, flushes and shutdowns that
  the polling protocol of `AsyncStream` asks for).

Visitors. `Tokenizer::drive` hands each token to a `Visitor`, and
`ResolveHostnameReply::drive` hands each item of a reply to a `ReplyVisitor`.
Each visitor method appends its call, the token or item and the value that it
returned, to a spec-level record, `seen`. The contracts of the two `drive`
functions state that record after the call: which tokens or items, through
which methods, in which order, that each call but the last returned `None`,
and that a `Some` stops the scan at that token or item and is what `drive`
returns. `Token` and `ReplyItem` name the calls in that record. A default
method body cannot keep a record that each visitor defines for itself, so the
methods have no default bodies: a visitor writes `None` for the calls that it
ignores. A visitor written outside Verus is trusted to keep its record.

`Tokenizer::next_token` and `ResolveHostnameReply::next_item` give the
tokens of a document and the items of a reply one at a time, with the same
models; a verified caller that keeps its own record uses them.
