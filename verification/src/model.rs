//! Values that pass between the parts of the engine.
use vstd::prelude::*;

verus! {

/// The kinds of forms that the engine aligns.
#[derive(Clone, Copy, Debug, PartialEq, Eq, Structural)]
pub enum AlignKind {
    /// `let` and the binding forms like it (`loop`, `when-let`, `with-redefs`, ...).
    LetLike,
    /// `cond`.
    Cond,
    /// `condp`.
    Condp,
    /// `as->`.
    AsThread,
    /// The threading forms `->`, `->>`, `some->`, `cond->` and the like.
    Threading,
    /// `ns` forms.
    Ns,
    /// Map literals.
    MapLiteral,
    /// Vector literals.
    VectorLiteral,
}

/// A left-hand side and a right-hand side that are aligned as one row, such
/// as a binding and its value. The byte offsets locate both sides in the text
/// that is aligned; the strings hold the text of each side.
#[derive(Debug)]
pub struct Pair {
    /// Width of the left-hand side: its length in characters, or the width of
    /// its last line when it spans several lines.
    pub lh_width: usize,
    /// Column at which the left-hand sides of the form start.
    pub lh_start_col: usize,
    /// Text of the left-hand side.
    pub lh_string: String,
    /// Text of the right-hand side; empty when the row has none.
    pub rh_string: String,
    /// Byte offset where the left-hand side starts.
    pub lh_start_byte: usize,
    /// Byte offset where the left-hand side ends.
    pub lh_end_byte: usize,
    /// Byte offset where the right-hand side starts.
    pub rh_start_byte: usize,
    /// Byte offset where the right-hand side ends.
    pub rh_end_byte: usize,
}

/// What an aligner takes out of a form to rebuild it.
#[derive(Debug)]
pub enum Extracted {
    /// The rows of the form.
    Pairs(Vec<Pair>),
}

} // verus!
