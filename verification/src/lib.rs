//! A template substitution engine for markup documents.
//!
//! A template is markup text whose character data embeds placeholder
//! tokens: `${path}` looks a dotted path up in a tree-shaped data value,
//! `${path|date:STYLE}` formats a date-valued string, and the paired
//! markers `${#name}` ... `${/name}` repeat the enclosed region once per
//! element of the array bound to `name`. Tokens may arrive fragmented
//! across text runs with markup in between; the scanner reassembles
//! them without disturbing any markup that stands outside a token.

pub mod chars;
pub mod date;
pub mod digits;
pub mod engine;
pub mod expand;
pub mod locale;
pub mod scan;
pub mod subst;
pub mod value;
