//! A low-level writer for a page-oriented, object-graph-based document
//! format: a flat sequence of numbered indirect objects followed by a
//! cross-reference table and a trailer that let a reader locate any
//! indirect object by number.
//!
//! Every operation appends bytes to an in-memory buffer, and every public
//! operation states in its contract exactly which bytes it appends.

pub mod doc;
pub mod files;
pub mod num;
pub mod writer;
pub mod xref;

pub use num::dec_rep;
pub use num::int_rep;
pub use num::pad_rep;
pub use writer::Object;
pub use writer::PdfWriter;
pub use writer::Ref;
pub use writer::Array;
pub use writer::Dict;
pub use doc::Catalog;
pub use doc::Page;
pub use doc::Pages;
pub use files::EmbedParams;
pub use files::EmbeddedFile;
pub use files::FileSpec;