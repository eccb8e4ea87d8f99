//! A markup-document parser and serializer with verified contracts.
//!
//! - `scanner`: the character cursor and character-level helpers.
//! - `tag`: the tag reader, one `<...>` token at a time.
//! - `builder`: the recursive node builder and the document entry `parse`.
//! - `writer`: `serialize`, the text of a tree.
//! - `laws`: what parsing and serializing guarantee together, among them
//!   that a parsed document, serialized and parsed again, gives the same tree.
//!
//! Each parsing function is exactly its spec function (`spec_tag`,
//! `spec_element`, `spec_document`) on the input's characters, success and
//! every error alike.
pub mod model;
pub mod scanner;
pub mod tag;
pub mod builder;
pub mod writer;
pub mod laws;

pub use model::{XMLTree, XMLNode, NodeType, ElementData, NodeError, ClosingTagError, XMLError};
pub use scanner::Scanner;
pub use tag::{TagKind, TagToken, read_tag};
pub use builder::{parse_tag, parse};
pub use writer::serialize;
