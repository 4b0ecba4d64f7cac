//! A codec for NBT, the typed tree format of named tags: an encoder, a
//! recursive-descent decoder and a pretty-printer, each with its contract.

pub mod byte_order;
pub mod error;
pub mod tag;
pub mod text;
pub mod encode;
pub mod decode;
pub mod round_trip;
pub mod pretty;

pub use byte_order::ByteOrder;
pub use error::{Error, ParseErrorKind};
pub use tag::Tag;
pub mod truncation;
pub mod ints;
