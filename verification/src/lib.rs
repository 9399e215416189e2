//! A verified implementation of Mozilla's Public Suffix List:
//! a rule trie built from the list's text, and a longest-match
//! lookup that honours wildcard and exception rules.
//!
//! Labels are compared byte for byte, so matching is case-sensitive:
//! callers that want case-insensitive behaviour lowercase the queried
//! name first.  Rules read from the list are also inserted in their
//! ASCII (punycode) form, so both Unicode and ASCII queries match.

pub mod text;
pub mod trie;
pub mod matcher;
pub mod list;
pub mod domain;
pub mod laws;

pub use trie::{Leaf, Node, Type};
pub use matcher::Info;
pub use list::{Error, IcannList, List, PrivateList};
pub use domain::{Domain, Suffix};
