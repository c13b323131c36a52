//! Parser configuration: which syntax constructs are recognized.
use vstd::prelude::*;

verus! {

/// Which syntax constructs the parser recognizes.
/// The CommonMark core is always on; every field is a construct some dialect turns off or adds.
#[derive(Clone, Copy, Debug, PartialEq, Eq, Structural)]
pub struct Constructs {
    pub autolink: bool,
    pub code_indented: bool,
    pub html_flow: bool,
    pub html_text: bool,
    pub gfm_autolink_literal: bool,
    pub gfm_footnote: bool,
    pub gfm_strikethrough: bool,
    pub gfm_strikethrough_single_tilde: bool,
    pub gfm_table: bool,
    pub gfm_task_list_item: bool,
    pub math_flow: bool,
    pub math_text: bool,
    pub liquid: bool,
    pub wiki_link: bool,
    pub container_directive: bool,
    pub mdx_esm: bool,
    pub mdx_expression_flow: bool,
    pub mdx_expression_text: bool,
    pub mdx_jsx_flow: bool,
    pub mdx_jsx_text: bool,
}

/// The markdown preset: CommonMark + GFM + math, liquid, wiki links and directives; no MDX.
pub open spec fn spec_markdown() -> Constructs {
    Constructs {
        autolink: true,
        code_indented: true,
        html_flow: true,
        html_text: true,
        gfm_autolink_literal: true,
        gfm_footnote: true,
        gfm_strikethrough: true,
        gfm_strikethrough_single_tilde: false,
        gfm_table: true,
        gfm_task_list_item: true,
        math_flow: true,
        math_text: true,
        liquid: true,
        wiki_link: true,
        container_directive: true,
        mdx_esm: false,
        mdx_expression_flow: false,
        mdx_expression_text: false,
        mdx_jsx_flow: false,
        mdx_jsx_text: false,
    }
}

/// The MDX preset: the markdown preset with autolinks, indented code and HTML off, the MDX family on.
pub open spec fn spec_mdx() -> Constructs {
    Constructs {
        autolink: false,
        code_indented: false,
        html_flow: false,
        html_text: false,
        mdx_esm: true,
        mdx_expression_flow: true,
        mdx_expression_text: true,
        mdx_jsx_flow: true,
        mdx_jsx_text: true,
        ..spec_markdown()
    }
}

impl Constructs {
    /// Markdown mode: CommonMark + GFM + Prettier's extensions + directives.
    pub fn markdown() -> (c: Self)
        ensures
            c == spec_markdown(),
    {
        Constructs {
            autolink: true,
            code_indented: true,
            html_flow: true,
            html_text: true,
            gfm_autolink_literal: true,
            gfm_footnote: true,
            gfm_strikethrough: true,
            gfm_strikethrough_single_tilde: false,
            gfm_table: true,
            gfm_task_list_item: true,
            math_flow: true,
            math_text: true,
            liquid: true,
            wiki_link: true,
            container_directive: true,
            mdx_esm: false,
            mdx_expression_flow: false,
            mdx_expression_text: false,
            mdx_jsx_flow: false,
            mdx_jsx_text: false,
        }
    }

    /// MDX mode: `autolink` / `code_indented` / `html_flow` / `html_text` off, the `mdx_*` family on.
    pub fn mdx() -> (c: Self)
        ensures
            c == spec_mdx(),
    {
        let base = Self::markdown();
        Constructs {
            autolink: false,
            code_indented: false,
            html_flow: false,
            html_text: false,
            mdx_esm: true,
            mdx_expression_flow: true,
            mdx_expression_text: true,
            mdx_jsx_flow: true,
            mdx_jsx_text: true,
            ..base
        }
    }
}

impl Default for Constructs {
    fn default() -> (c: Self)
        ensures
            c == spec_markdown(),
    {
        Self::markdown()
    }
}

/// Options for the parser.
#[derive(Clone, Copy, Debug, PartialEq, Eq, Structural)]
pub struct ParserOptions {
    pub constructs: Constructs,
}

impl ParserOptions {
    /// Markdown mode (the default).
    pub fn markdown() -> (o: Self)
        ensures
            o.constructs == spec_markdown(),
    {
        ParserOptions { constructs: Constructs::markdown() }
    }

    /// MDX mode.
    pub fn mdx() -> (o: Self)
        ensures
            o.constructs == spec_mdx(),
    {
        ParserOptions { constructs: Constructs::mdx() }
    }
}

impl Default for ParserOptions {
    fn default() -> (o: Self)
        ensures
            o.constructs == spec_markdown(),
    {
        Self::markdown()
    }
}

} // verus!
