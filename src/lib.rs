//! Codec and publisher logic for IEC 61850 GOOSE and Sampled Values frames.
//!
//! - `grammar`: the wire format as mathematics (big-endian numbers, BER
//!   lengths, minimal integers, the encoding and parsing of data-set values)
//!   and the facts the codecs rest on.
//! - `types`: the values, timestamps, qualities, headers and PDUs.
//! - `encode_basics`, `decode_basics`: BER primitives and data-set values.
//! - `encode_goose`, `decode_goose`: GOOSE frames.
//! - `encode_smv`, `decode_smv`: Sampled Values frames.
//! - `goose_sender`: the retransmission schedule of a GOOSE control block.
//! - `round_trip`: decoding what was encoded gives it back.
//! - `utc`: calendar form of timestamps.
pub mod grammar;
pub mod types;
pub mod encode_basics;
pub mod decode_basics;
pub mod encode_goose;
pub mod decode_goose;
pub mod encode_smv;
pub mod decode_smv;
pub mod goose_sender;
pub mod round_trip;
pub mod utc;
