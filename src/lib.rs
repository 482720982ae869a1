//! Parsing and formatting of IRCv3-style protocol lines: an optional tag
//! block, an optional source prefix, a command and its parameters.
//!
//! The canonical form written by [`Message::format`] lists tags in ascending
//! key order, writes a tag with an empty value as its bare name (without
//! `=`), and always puts the last parameter after ` :`. A line whose tag
//! block is followed by nothing but spaces, such as `@a=b `, lacks a command
//! and fails with [`ParseError::CommandError`]; a tag block that no space
//! ends, such as `@a=b`, fails with [`ParseError::TagBlockError`].

pub mod escape;
pub mod message;
pub mod prefix;
pub mod round_trip;
pub mod tags;
pub mod text;

pub use message::{Message, ParseError};
pub use prefix::Prefix;
pub use tags::Tags;
