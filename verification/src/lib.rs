//! A JSON tokenizer that allocates no memory, the decoder of the
//! systemd-resolved `ResolveHostname` reply built on it, and the buffering
//! logic of a stream adaptor.

pub mod escape_string;
pub mod json_error;
pub mod laws;
pub mod resolver;
pub mod stream_adapt;
pub mod text;
pub mod tokenizer;
pub mod tokenizer_spec;
pub mod unescape_spec;

pub use crate::escape_string::{EscapeString, Unescape};
pub use crate::json_error::{Error, ErrorKind};
pub use crate::stream_adapt::{AsyncStream, SyncStream};
pub use crate::tokenizer::{Tokenizer, Visitor};
pub use crate::tokenizer_spec::MAX_DEPTH;
