//! Aligning a text by the form it starts with: the text is parsed, and its
//! first form goes to the aligner that aligns it.
use vstd::prelude::*;
use crate::alignable::{Alignable, extracted_in_text, pair_spans_text};
use crate::aligners::let_like::{
    LetLikeAligner, extracted_pairs, first_form, is_binding_pair, is_let_like,
    lemma_extracted_pairs_in_text, let_bindings, let_form_text, named_children_in_tree, side_width,
};
use crate::helpers::{chars_of, last_line, lemma_char_index_facts, lemma_last_line_len};
use crate::model::{Extracted, Pair};
use crate::syntax::{
    SyntaxNode, clojure_tree, get_root_node, get_tree, named_child, named_children, node_byte_column,
    node_chars, tree_fits_text, tree_of_text,
};

verus! {

/// The columns of a text of `len` characters that starts at column `base_col`
/// leave the aligners room in `usize`.
pub open spec fn columns_have_room(len: int, base_col: int) -> bool {
    base_col + 2 * len + 4 <= usize::MAX
}

/// The first form of `src` (whose tree is `nodes`) is one that the library
/// aligns: a `let`-like form with bindings, whose columns have room.
pub open spec fn first_form_aligned(src: Seq<char>, base_col: int, nodes: Seq<SyntaxNode>) -> bool {
    &&& tree_of_text(src, nodes)
    &&& first_form(nodes) is Some
    &&& is_let_like(src, nodes, first_form(nodes)->0)
    &&& let_bindings(nodes, first_form(nodes)->0) is Some
    &&& columns_have_room(src.len() as int, base_col)
}

/// Aligns the first form of `src`, which starts at column `base_col`: parses
/// `src`, and when its first form is a `let`-like form with bindings, extracts
/// the bindings and aligns the form (`LetLikeAligner`). `src` comes back
/// unchanged when the parser gives no tree (or one whose nodes do not span
/// characters of `src`, each inside its parent), when the first form is no such form, or when its
/// columns would not fit in `usize`.
pub fn align_first_form(src: &str, base_col: usize) -> (out: String)
    ensures
        match clojure_tree(src@) {
            None => out@ == src@,
            Some(nodes) => if first_form_aligned(src@, base_col as int, nodes) {
                exists|pairs: Seq<Pair>|
                    extracted_pairs(src@, nodes, first_form(nodes)->0, pairs) && out@ == let_form_text(
                        src@,
                        pairs,
                        base_col as int,
                        nodes,
                    )
            } else {
                out@ == src@
            },
        },
{
    let tree = match get_tree(src) {
        Some(t) => t,
        None => return src.to_owned(),
    };
    let ghost nodes = tree.nodes@;
    let text = chars_of(src);
    if !tree_fits_text(&text, &tree) {
        return src.to_owned();
    }
    let root = match get_root_node(&tree) {
        Some(r) => r,
        None => return src.to_owned(),
    };
    let form = match named_child(&tree, root, 0) {
        Some(f) => f,
        None => return src.to_owned(),
    };
    proof {
        named_children_in_tree(nodes, 0);
    }
    assert(first_form(nodes) == Some(form as int));
    let aligner = LetLikeAligner;
    if !aligner.matches(&tree, form, src) {
        return src.to_owned();
    }
    let extracted = match aligner.extract(&tree, form, src) {
        Some(e) => e,
        None => return src.to_owned(),
    };
    let n = text.len();
    if base_col > usize::MAX - 4 || (usize::MAX - 4 - base_col) / 2 < n {
        return src.to_owned();
    }
    let Extracted::Pairs(pairs) = extracted;
    proof {
        lemma_extracted_pairs_in_text(src@, nodes, form as int, pairs@);
        assert forall|i: int| 0 <= i < pairs@.len() implies {
            &&& pair_spans_text(src@, #[trigger] pairs@[i])
            &&& base_col + src@.len() + pairs@[i].lh_width + 4 <= usize::MAX
            &&& last_line(pairs@[i].lh_string@).len() < usize::MAX
        } by {
            let b = let_bindings(nodes, form as int)->0;
            crate::aligners::let_like::content_children_in_tree(nodes, form as int);
            let children = crate::syntax::content_children(nodes, form as int);
            crate::aligners::let_like::content_children_in_tree(nodes, children[1]);
            assert(is_binding_pair(
                pairs@[i],
                src@,
                nodes[b[2 * i]],
                nodes[b[2 * i + 1]],
                node_byte_column(src@, nodes[b[0]]),
            ));
            let lhs = nodes[b[2 * i]];
            assert(0 <= b[2 * i] < nodes.len());
            assert(crate::syntax::node_in_text(src@, lhs));
            lemma_char_index_facts(src@, lhs.start_byte as int);
            lemma_char_index_facts(src@, lhs.end_byte as int);
            let t = node_chars(src@, lhs);
            lemma_last_line_len(t);
            assert(side_width(t) <= t.len());
        }
        assert(extracted_pairs(src@, nodes, form as int, pairs@));
    }
    aligner.build(src, Extracted::Pairs(pairs), base_col)
}

} // verus!
