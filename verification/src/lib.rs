//! An in-memory text-editing engine.
//!
//! A [`MagicString`] holds an immutable source text and a list of chunks that
//! partition it. Edits replace, delete or indent parts of the text without
//! touching the source; the edited text is produced on demand.
//!
//! All offsets are byte offsets into the source, and text is modelled as a
//! sequence of bytes.
pub mod lines;
pub mod fragment;
pub mod error;
pub mod document;
pub mod chunk;
pub mod magic_string;
pub mod indentation;
pub mod laws;
pub mod indent_laws;

pub use error::UsageError;
pub use fragment::TextFragment;
pub use magic_string::indent::IndentOptions;
pub use magic_string::mutation::UpdateOptions;
pub use magic_string::MagicString;
