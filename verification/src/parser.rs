//! Parser entry point.
//!
//! Two-phase design:
//! a block phase resolves the container structure and hands each leaf's logical content
//! (container prefixes (`>`, list indents) already stripped, as segments over the original source)
//! to an inline phase, together with the reference-definition map collected while blocks were finalized.
//! Inline spans always point into the original source.
use vstd::prelude::*;
use vstd::string::StringSliceAdditionalSpecFns;
use crate::ast::{Block, Root};
use crate::block::builder::same_kind;
use crate::block::engine::{first_block_kept, first_line_start};
use crate::block::ir::Ir;
use crate::block::probe::StartV;
use crate::block::builder::build;
use crate::block::engine::Engine;
use crate::block::engine::state::blank_lines_ok;
use crate::diagnostic::{Diagnostic, DiagnosticKind};
use crate::options::{spec_markdown, ParserOptions};
use crate::pos::Span;
use oxc_allocator::Allocator;

verus! {

/// The caller's arena, `oxc_allocator::Allocator`, carried through opaque.
#[verifier::external_type_specification]
#[verifier::external_body]
pub struct ExAllocator(oxc_allocator::Allocator);

/// The outcome of a parse: an AST plus diagnostics.
///
/// Parsing never fails.
/// CommonMark has no syntax errors; a source too long to address is reported here.
#[derive(Debug)]
pub struct ParserReturn {
    pub root: Root,
    pub diagnostics: Vec<Diagnostic>,
    /// Every logical blank line, in source order:
    /// the span after the container prefixes (empty for a bare `>` line inside a blockquote),
    /// up to the line ending.
    /// Lines inside fenced blocks are content, never listed;
    /// blank lines inside indented code are listed (they are only content if more code follows).
    pub blanks: Vec<Span>,
}

/// A source of `len` bytes is beyond what spans (`u32` offsets) and line columns can address.
/// On a 64-bit target that is exactly a source over `u32::MAX` bytes (see
/// `lemma_too_long_on_64_bit`); only a 32-bit `usize` narrows it further.
pub open spec fn too_long(len: int) -> bool {
    len > u32::MAX || len > isize::MAX || 4 * len + 8 > usize::MAX
}

/// The document's blocks hold the block its first line starts: a thematic break, or a heading
/// of the ATX level.
pub open spec fn first_block_built(first: Option<StartV>, blocks: Seq<Block>) -> bool {
    match first {
        Some(StartV::ThematicBreak) => exists|i: int| 0 <= i < blocks.len() && #[trigger] blocks[i] is ThematicBreak,
        Some(StartV::Atx { level, .. }) => exists|i: int| 0 <= i < blocks.len() && match #[trigger] blocks[i] {
            Block::Heading(h) => h.level == level,
            _ => false,
        },
        _ => true,
    }
}

/// With a 64-bit `usize`, a source is too long exactly when it has more than `u32::MAX` bytes.
pub proof fn lemma_too_long_on_64_bit(len: int)
    requires
        usize::BITS == 64,
    ensures
        too_long(len) <==> len > u32::MAX,
{
    assert(usize::MAX == 0xFFFF_FFFF_FFFF_FFFF);
    assert(isize::MAX == 0x7FFF_FFFF_FFFF_FFFF);
}

pub struct Parser<'a> {
    /// The arena a caller hands in; the tree here owns its nodes, so it is only held on to.
    allocator: &'a Allocator,
    source: &'a str,
    options: ParserOptions,
}

impl<'a> Parser<'a> {
    /// The source's bytes.
    pub closed spec fn text(&self) -> Seq<u8> {
        self.source.spec_bytes()
    }

    /// The options it parses with.
    pub closed spec fn opts(&self) -> ParserOptions {
        self.options
    }

    /// Markdown mode with the default constructs.
    pub fn new(allocator: &'a Allocator, source: &'a str) -> (p: Self)
        ensures
            p.text() == source.spec_bytes(),
            p.opts().constructs == spec_markdown(),
    {
        Self::with_options(allocator, source, ParserOptions::default())
    }

    pub fn with_options(allocator: &'a Allocator, source: &'a str, options: ParserOptions) -> (p: Self)
        ensures
            p.text() == source.spec_bytes(),
            p.opts() == options,
    {
        Parser { allocator, source, options }
    }

    /// Parses the source into a [`Root`].
    ///
    /// Front matter is not handled here: callers strip it before parsing
    /// (offsets in the AST are relative to what was passed in).
    pub fn parse(self) -> (r: ParserReturn)
        ensures
            too_long(self.text().len() as int) ==> r.diagnostics@.len() == 1 && r.diagnostics@[0].kind
                == DiagnosticKind::SourceTooLong && r.diagnostics@[0].span.start == 0 && r.diagnostics@[0].span.end == 0
                && r.root.children@.len() == 0 && r.root.span.start == 0 && r.root.span.end == 0 && r.blanks@.len() == 0,
            !too_long(self.text().len() as int) ==> r.diagnostics@.len() == 0 && r.root.span.start == 0
                && r.root.span.end == self.text().len(),
            blank_lines_ok(self.text(), r.blanks@),
            !too_long(self.text().len() as int) ==> first_block_built(
                first_line_start(self.opts().constructs, self.text()),
                r.root.children@,
            ),
    {
        let len = self.source.as_bytes().len();
        if len > 0xFFFF_FFFFusize || len > (isize::MAX as usize) || len > (usize::MAX - 8) / 4 {
            let d = Diagnostic::new(DiagnosticKind::SourceTooLong, Span::empty(0));
            return ParserReturn { root: Root { children: Vec::new(), span: Span::empty(0) }, diagnostics: vec![d], blanks: Vec::new() };
        }
        let source_len = len as u32;
        let engine = Engine::new(self.source, self.options.constructs);
        let (irs, blanks, refs) = engine.run();
        let ghost ir_seq = irs@;
        let root = build(self.source, blanks.loosening.as_slice(), irs, Span::new(0, source_len), &self.options.constructs, &refs);
        proof {
            let first = first_line_start(self.options.constructs, self.text());
            match first {
                Some(StartV::ThematicBreak) => {
                    let i = choose|i: int| 0 <= i < ir_seq.len() && #[trigger] ir_seq[i] is ThematicBreak;
                    assert(same_kind(ir_seq[i], root.children@[i]));
                },
                Some(StartV::Atx { level, .. }) => {
                    let i = choose|i: int| 0 <= i < ir_seq.len() && match #[trigger] ir_seq[i] {
                        Ir::Heading { level: l, underline, .. } => l == level && underline is None,
                        _ => false,
                    };
                    assert(same_kind(ir_seq[i], root.children@[i]));
                },
                _ => {},
            }
        }
        ParserReturn { root, diagnostics: Vec::new(), blanks: blanks.all }
    }
}

} // verus!
