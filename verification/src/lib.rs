//! A CommonMark + GFM markdown parser whose results carry byte spans into the original source.
//! The leaf scanners (block starts, link targets, labels, autolinks, entities, HTML) carry exact
//! contracts; the block engine, emphasis resolution and lowering carry proved structural
//! contracts (what each step appends, consumes or closes), not a full grammar specification.

pub mod ast;
pub mod diagnostic;
pub mod options;
pub mod utf;
pub mod pos;
pub mod syntax;
pub mod block;

pub mod inline;
pub mod parser;

pub use parser::{Parser, ParserReturn};
pub use block::lexical;
pub use syntax::{decode, label, unicode};
pub use oxc_allocator::Allocator;
pub use pos::{Segment, Span};
pub use options::{Constructs, ParserOptions};
pub use diagnostic::{Diagnostic, DiagnosticKind};
pub use inline::gfm_autolink::{literal_kind, LiteralKind};

