//! What every aligner of the engine offers.
use vstd::prelude::*;
use crate::helpers::{is_char_boundary, last_line};
use crate::model::{AlignKind, Extracted, Pair};
use crate::syntax::{SyntaxTree, tree_in_text};

verus! {

/// Every byte offset of `p` stands on a character boundary of `src`.
pub open spec fn pair_spans_text(src: Seq<char>, p: Pair) -> bool {
    &&& is_char_boundary(src, p.lh_start_byte as int)
    &&& is_char_boundary(src, p.lh_end_byte as int)
    &&& is_char_boundary(src, p.rh_start_byte as int)
    &&& is_char_boundary(src, p.rh_end_byte as int)
}

/// What an aligner's builder may take: pairs of `src` whose columns fit in
/// `usize` when the form starts at column `base_col`.
pub open spec fn extracted_in_text(src: Seq<char>, e: Extracted, base_col: int) -> bool {
    match e {
        Extracted::Pairs(pairs) => {
            &&& base_col + src.len() + 4 <= usize::MAX
            &&& forall|i: int|
                0 <= i < pairs@.len() ==> {
                    &&& pair_spans_text(src, #[trigger] pairs@[i])
                    &&& base_col + src.len() + pairs@[i].lh_width + 4 <= usize::MAX
                    &&& last_line(pairs@[i].lh_string@).len() < usize::MAX
                }
        },
    }
}

/// An aligner: it tells the forms it aligns, takes out of such a form what it
/// needs, and rebuilds the form's text from it.
pub trait Alignable {
    /// The kind of forms that the aligner aligns.
    fn kind(&self) -> AlignKind;

    /// Whether node `node` of `tree`, the syntax tree of `src`, is a form that
    /// the aligner aligns.
    fn matches(&self, tree: &SyntaxTree, node: usize, src: &str) -> bool
        requires
            node < tree.nodes@.len(),
            tree_in_text(src@, tree.nodes@),
    ;

    /// What the aligner needs of node `node` of `tree`, the syntax tree of `src`.
    fn extract(&self, tree: &SyntaxTree, node: usize, src: &str) -> Option<Extracted>
        requires
            node < tree.nodes@.len(),
            tree_in_text(src@, tree.nodes@),
    ;

    /// The aligned text of the form `src`, which starts at column `base_col`.
    fn build(&self, src: &str, extracted: Extracted, base_col: usize) -> String
        requires
            extracted_in_text(src@, extracted, base_col as int),
    ;
}

} // verus!
