//! Hard limits that keep hostile Markdown from exhausting the stack, memory
//! or the reading width, and the reasons a document falls back to safe mode.
use vstd::prelude::*;

verus! {

/// Hard bound on Markdown tree depth. Input with thousands of nested quotes
/// or lists could overflow the stack before returning a normal error.
pub const MAX_NEST: u16 = 64;

/// Most blocks produced by the rich model or the safe view.
pub const MAX_BLOCKS: usize = 100_000;

/// Visual indentation stops growing before it eats the useful width.
pub const MAX_INDENT_DEPTH: u8 = 8;

/// Longest source line that goes to the Markdown parser; longer lines send the
/// whole document to the safe view.
pub const MAX_SAFE_LINE_BYTES: usize = 16384;

#[derive(Clone, Copy, Debug, PartialEq, Eq, Structural)]
pub enum Degradation {
    DepthLimit,
    BlockLimit,
    LineLimit,
    TextOnly,
}

/// Human explanation of a degradation.
pub open spec fn explanation_text(reason: Degradation) -> Seq<char> {
    match reason {
        Degradation::DepthLimit => "se excedio el limite de anidamiento"@,
        Degradation::BlockLimit => "se excedio el limite de bloques"@,
        Degradation::LineLimit => "se excedio la longitud de línea segura"@,
        Degradation::TextOnly => "el archivo se muestra como texto inerte"@,
    }
}

impl Degradation {
    pub fn explanation(self) -> (r: &'static str)
        ensures
            r@ == explanation_text(self),
    {
        match self {
            Degradation::DepthLimit => "se excedio el limite de anidamiento",
            Degradation::BlockLimit => "se excedio el limite de bloques",
            Degradation::LineLimit => "se excedio la longitud de línea segura",
            Degradation::TextOnly => "el archivo se muestra como texto inerte",
        }
    }
}

} // verus!
