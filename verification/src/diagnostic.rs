//! Parse diagnostics. Markdown-mode parses never produce any; the list exists for MDX mode and input limits.
use vstd::prelude::*;
use crate::pos::Span;
use crate::utf::push_char;

verus! {

#[derive(Clone, Debug)]
pub struct Diagnostic {
    pub kind: DiagnosticKind,
    pub span: Span,
}

#[derive(Clone, Debug, PartialEq, Eq, Structural)]
#[non_exhaustive]
pub enum DiagnosticKind {
    /// The source exceeds the maximum supported size (4 GiB).
    SourceTooLong,
}

impl Diagnostic {
    pub fn new(kind: DiagnosticKind, span: Span) -> (d: Self)
        ensures
            d.kind == kind,
            d.span == span,
    {
        Diagnostic { kind, span }
    }

    /// The message, as `Display` would write it: `"<what> at <start>..<end>"`.
    pub fn message(&self) -> (s: String)
        ensures
            s@ == too_long_message(self.span.start as nat, self.span.end as nat),
    {
        render_message(self.span.start, self.span.end)
    }
}

/// The decimal digits of `n`, most significant first.
pub open spec fn decimal(n: nat) -> Seq<char>
    decreases n,
{
    if n < 10 {
        seq![(48 + n) as char]
    } else {
        decimal(n / 10).push((48 + n % 10) as char)
    }
}

/// The text of a too-long-source diagnostic over `start..end`.
pub open spec fn too_long_message(start: nat, end: nat) -> Seq<char> {
    "source exceeds the maximum supported size (4 GiB) at "@ + decimal(start) + ".."@ + decimal(end)
}

/// The decimal digits of `n`.
fn decimal_string(n: u32) -> (s: String)
    ensures
        s@ == decimal(n as nat),
    decreases n,
{
    let mut s = if n < 10 {
        String::new()
    } else {
        decimal_string(n / 10)
    };
    let d = (48 + n % 10) as u8;
    let ghost s0 = s@;
    push_char(&mut s, d as char);
    proof {
        if n < 10 {
            assert(s@ =~= seq![(48 + n) as char]);
        }
    }
    s
}

/// The text of a too-long-source diagnostic over `start..end`.
fn render_message(start: u32, end: u32) -> (s: String)
    ensures
        s@ == too_long_message(start as nat, end as nat),
{
    let mut s = String::new();
    s.append("source exceeds the maximum supported size (4 GiB) at ");
    let a = decimal_string(start);
    s.append(a.as_str());
    s.append("..");
    let b = decimal_string(end);
    s.append(b.as_str());
    s
}

} // verus!
