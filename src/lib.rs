//! TLS 1.3 message model with a verified wire codec.
//!
//! Every decoder is specified by a model parser over byte sequences, including which
//! error it reports, and every encoder by a model serializer; the modules prove that
//! decoding an encoding gives the value back and that inputs cut short are refused.
//!
//! - `wire`: big-endian integers, length-prefixed vectors, lists of items.
//! - `codes`: discriminant families, each total over its integer width.
//! - `record`: plaintext, inner plaintext and encrypted records.
//! - `alert`: alert messages.
//! - `extension`: extensions as a type code and opaque body, and extension lists.
//! - `vectors`: vectors of two-byte integers and of opaque strings.
//! - `ext_body`: typed extension bodies and the dispatcher that picks one.
//! - `handshake`: handshake message bodies and their framing.
pub mod wire;
pub mod codes;
pub mod record;
pub mod alert;
pub mod extension;
pub mod vectors;
pub mod ext_body;
pub mod handshake;
