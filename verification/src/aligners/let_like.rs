//! The aligner of `let` and the binding forms like it: the bindings of the
//! binding vector go one per line, values aligned one column past the widest
//! name, and the body forms go two columns in from the form.
use vstd::prelude::*;
use crate::aligners::generic_builder::{lhs_multiline, lhs_pos, rhs_pos, row_line};
use crate::helpers::{
    lemma_line_start_bounds, absolute_col, absolute_col_of, all_ws, lemma_char_index_facts, lemma_non_ws_add,
    lemma_non_ws_all_ws, lemma_non_ws_shift_block, lemma_non_ws_spaces, lemma_non_ws_split,
    lemma_non_ws_trim_start, non_ws, char_index, char_pos, chars_of, contains_newline,
    is_char_boundary, last_line, last_line_width_of, line_start, line_start_of, push_all,
    push_char, push_range, push_shifted_block, push_spaces, push_trim_start, shift_block, spaces,
    trim_start_ws, keeps_lines,
};
use crate::model::{AlignKind, Extracted, Pair};
use crate::syntax::{
    SyntaxNode, SyntaxTree, clojure_tree, content_children, named_children, node_chars,
    node_in_text, tree_in_text, tree_nested, tree_of_text,
};

verus! {

/// The aligner of `let`-like forms.
pub struct LetLikeAligner;

// ---------------------------------------------------------------------------
// Extracting the bindings
// ---------------------------------------------------------------------------

/// Width of a side of a binding: its length, or the length of its last line
/// when it spans several lines.
pub open spec fn side_width(t: Seq<char>) -> int {
    if t.contains('\n') {
        last_line(t).len() as int
    } else {
        t.len() as int
    }
}

/// The binding nodes of the `let`-like form `nd`: the named children, other
/// than comments and discarded forms, of its binding vector, when `nd` is a
/// list whose second such child is a vector with an even, non-zero number of
/// them.
pub open spec fn let_bindings(nodes: Seq<SyntaxNode>, nd: int) -> Option<Seq<int>> {
    let children = content_children(nodes, nd);
    if nodes[nd].kind@ != "list_lit"@ || children.len() < 2 {
        None
    } else {
        let binding_vec = children[1];
        let bindings = content_children(nodes, binding_vec);
        if nodes[binding_vec].kind@ != "vec_lit"@ || bindings.len() == 0 || bindings.len() % 2
            != 0 {
            None
        } else {
            Some(bindings)
        }
    }
}

/// `p` is the pair that the binding `lhs`, `rhs` gives in `src`.
pub open spec fn is_binding_pair(
    p: Pair,
    src: Seq<char>,
    lhs: SyntaxNode,
    rhs: SyntaxNode,
    col: int,
) -> bool {
    &&& p.lh_string@ == node_chars(src, lhs)
    &&& p.rh_string@ == node_chars(src, rhs)
    &&& p.lh_width == side_width(node_chars(src, lhs))
    &&& p.lh_start_col == col
    &&& p.lh_start_byte == lhs.start_byte
    &&& p.lh_end_byte == lhs.end_byte
    &&& p.rh_start_byte == rhs.start_byte
    &&& p.rh_end_byte == rhs.end_byte
}

/// Number of characters of the last line of `s`.
pub fn last_line_width(s: &str) -> (r: usize)
    ensures
        r == last_line(s@).len(),
{
    last_line_width_of(&chars_of(s))
}

/// Whether node `n` has the kind `kind`.
fn kind_is(n: &SyntaxNode, kind: &str) -> (r: bool)
    ensures
        r == (n.kind@ == kind@),
{
    crate::syntax::same_text(n.kind, kind)
}

/// The pairs of the bindings of the `let`-like form `nd`: one pair for each
/// name and value of its binding vector, in order, comments and discarded
/// forms left out. `None` when `nd` is no list whose second form is a vector
/// of an even, non-zero number of forms.
#[verifier::rlimit(40)]
pub fn extract_let_like_pairs(tree: &SyntaxTree, nd: usize, src: &str) -> (r: Option<Vec<Pair>>)
    requires
        nd < tree.nodes@.len(),
        tree_in_text(src@, tree.nodes@),
    ensures
        r is None <==> let_bindings(tree.nodes@, nd as int) is None,
        r matches Some(pairs) ==> {
            let b = let_bindings(tree.nodes@, nd as int)->0;
            &&& pairs@.len() * 2 == b.len()
            &&& forall|k: int|
                0 <= k < pairs@.len() ==> is_binding_pair(
                    #[trigger] pairs@[k],
                    src@,
                    tree.nodes@[b[2 * k]],
                    tree.nodes@[b[2 * k + 1]],
                    crate::syntax::node_byte_column(src@, tree.nodes@[b[0]]),
                )
        },
{
    let ghost nodes = tree.nodes@;
    if !kind_is(&tree.nodes[nd], "list_lit") {
        return None;
    }
    let children = crate::syntax::non_comment_children(tree, nd);
    if children.len() < 2 {
        return None;
    }
    let binding_vec = children[1];
    proof {
        content_children_in_tree(nodes, nd as int);
    }
    if !kind_is(&tree.nodes[binding_vec], "vec_lit") {
        return None;
    }
    let bindings = crate::syntax::non_comment_children(tree, binding_vec);
    if bindings.len() == 0 || bindings.len() % 2 != 0 {
        return None;
    }
    let ghost b = content_children(nodes, binding_vec as int);
    proof {
        content_children_in_tree(nodes, binding_vec as int);
    }
    let text = chars_of(src);
    assert(bindings@[0] as int == b[0] && 0 <= b[0] < nodes.len());
    assert(node_in_text(src@, nodes[b[0]]));
    let target_lhs_col = crate::syntax::node_column(&text, &tree.nodes[bindings[0]]);
    let mut pairs: Vec<Pair> = Vec::new();
    let mut i: usize = 0;
    while i < bindings.len()
        invariant
            nodes == tree.nodes@,
            text@ == src@,
            tree_in_text(src@, nodes),
            b == content_children(nodes, binding_vec as int),
            bindings@.len() == b.len(),
            forall|j: int| 0 <= j < bindings@.len() ==> bindings@[j] as int == b[j],
            forall|j: int| 0 <= j < b.len() ==> 0 <= #[trigger] b[j] < nodes.len(),
            bindings@.len() % 2 == 0,
            bindings@.len() > 0,
            target_lhs_col == crate::syntax::node_byte_column(src@, nodes[b[0]]),
            i <= bindings@.len(),
            i % 2 == 0,
            pairs@.len() * 2 == i,
            forall|j: int|
                0 <= j < pairs@.len() ==> is_binding_pair(
                    #[trigger] pairs@[j],
                    src@,
                    nodes[b[2 * j]],
                    nodes[b[2 * j + 1]],
                    target_lhs_col as int,
                ),
        decreases bindings.len() - i,
    {
        assert(bindings@[i as int] as int == b[i as int]);
        assert(bindings@[i + 1] as int == b[i + 1]);
        assert(0 <= b[i as int] < nodes.len());
        assert(0 <= b[i + 1] < nodes.len());
        let lhs = &tree.nodes[bindings[i]];
        let rhs = &tree.nodes[bindings[i + 1]];
        assert(node_in_text(src@, nodes[b[i as int]]));
        assert(node_in_text(src@, nodes[b[i + 1]]));
        let pair = binding_pair(&text, lhs, rhs, target_lhs_col);
        pairs.push(pair);
        assert(pairs@[pairs@.len() - 1] == pair);
        i = i + 2;
    }
    Some(pairs)
}

/// The pair of the binding `lhs`, `rhs`.
fn binding_pair(text: &[char], lhs: &SyntaxNode, rhs: &SyntaxNode, col: usize) -> (p: Pair)
    requires
        node_in_text(text@, *lhs),
        node_in_text(text@, *rhs),
    ensures
        is_binding_pair(p, text@, *lhs, *rhs, col as int),
{
    let lh_string = crate::syntax::node_text_in(text, lhs);
    let lh_chars = chars_of(lh_string.as_str());
    let lh_width = if contains_newline(&lh_chars) {
        last_line_width_of(&lh_chars)
    } else {
        lh_chars.len()
    };
    let rh_string = crate::syntax::node_text_in(text, rhs);
    Pair {
        lh_width,
        lh_start_col: col,
        lh_string,
        rh_string,
        lh_start_byte: lhs.start_byte,
        lh_end_byte: lhs.end_byte,
        rh_start_byte: rhs.start_byte,
        rh_end_byte: rhs.end_byte,
    }
}

/// The content children of a node are nodes of the tree.
pub proof fn content_children_in_tree(nodes: Seq<SyntaxNode>, nd: int)
    ensures
        forall|j: int|
            0 <= j < content_children(nodes, nd).len() ==> 0 <= #[trigger] content_children(
                nodes,
                nd,
            )[j] < nodes.len(),
{
    crate::syntax::lemma_children_upto_in_range(
        nodes,
        nd,
        nodes.len() as int,
        |n: SyntaxNode| crate::syntax::is_content(n),
    );
}

// ---------------------------------------------------------------------------
// The binding vector
// ---------------------------------------------------------------------------

/// The byte offsets of `p` that the binding builder reads stand on character
/// boundaries of `src`.
pub open spec fn binding_in_text(src: Seq<char>, p: Pair) -> bool {
    &&& is_char_boundary(src, p.lh_start_byte as int)
    &&& is_char_boundary(src, p.rh_end_byte as int)
    &&& p.rh_string@.contains('\n') ==> is_char_boundary(src, p.rh_start_byte as int)
}

/// Column of the names: the column where the first name stands.
pub open spec fn binding_lhs_col(src: Seq<char>, pairs: Seq<Pair>, base_col: int) -> int {
    absolute_col(src, base_col, lhs_pos(src, pairs[0]))
}

/// The largest name width among the first `k` pairs (0 when `k` is 0).
pub open spec fn max_lh_width(pairs: Seq<Pair>, k: int) -> int
    decreases k,
{
    if k <= 0 {
        0
    } else {
        let m = max_lh_width(pairs, k - 1);
        if pairs[k - 1].lh_width > m {
            pairs[k - 1].lh_width as int
        } else {
            m
        }
    }
}

/// Column of the values: one past the widest name.
pub open spec fn binding_value_col(src: Seq<char>, pairs: Seq<Pair>, base_col: int) -> int {
    binding_lhs_col(src, pairs, base_col) + max_lh_width(pairs, pairs.len() as int) + 1
}

/// Character position where the value of `p` ends.
pub open spec fn binding_end(src: Seq<char>, p: Pair) -> int {
    char_index(src, p.rh_end_byte as int)
}

/// Binding `i` starts before the end of the binding before it (for the first,
/// before `last0`), or on the same line as the binding before it.
pub open spec fn binding_overlap(src: Seq<char>, pairs: Seq<Pair>, last0: int, i: int) -> bool {
    let last = if i == 0 {
        last0
    } else {
        binding_end(src, pairs[i - 1])
    };
    ||| lhs_pos(src, pairs[i]) < last
    ||| row_line(src, pairs[i]) < last
    ||| (i > 0 && row_line(src, pairs[i]) == row_line(src, pairs[i - 1]))
}

/// Every binding starts on a line of its own, after the one before it.
pub open spec fn bindings_in_order(src: Seq<char>, pairs: Seq<Pair>, last0: int) -> bool {
    forall|i: int| 0 <= i < pairs.len() ==> !binding_overlap(src, pairs, last0, i)
}

/// `f` is the first binding that overlaps.
pub open spec fn first_binding_overlap(src: Seq<char>, pairs: Seq<Pair>, last0: int, f: int) -> bool {
    &&& 0 <= f < pairs.len()
    &&& binding_overlap(src, pairs, last0, f)
    &&& forall|j: int| 0 <= j < f ==> !binding_overlap(src, pairs, last0, j)
}

/// What binding `i` keeps of the text before it: from `last0` up to the first
/// name; for the others, the text from the end of the binding before it to the
/// start of its line, then the indentation to the names' column.
pub open spec fn binding_lead(src: Seq<char>, pairs: Seq<Pair>, base_col: int, last0: int, i: int) -> Seq<char> {
    if i == 0 {
        src.subrange(last0, lhs_pos(src, pairs[i]))
    } else {
        src.subrange(binding_end(src, pairs[i - 1]), row_line(src, pairs[i])) + spaces(
            binding_lhs_col(src, pairs, base_col) as nat,
        )
    }
}

/// The text that binding `i` contributes: the text before it in `src` (from
/// `last0` for the first; from the end of the binding before it to the start
/// of its line, then the indentation, for the others), its name, the spaces up
/// to the value column, and its value (moved with it when it spans several
/// lines, without its leading whitespace otherwise).
#[verifier::opaque]
pub open spec fn binding_row(
    src: Seq<char>,
    pairs: Seq<Pair>,
    base_col: int,
    last0: int,
    i: int,
) -> Seq<char> {
    let p = pairs[i];
    let lhs_col = binding_lhs_col(src, pairs, base_col);
    let value_col = binding_value_col(src, pairs, base_col);
    let lead = binding_lead(src, pairs, base_col, last0, i);
    let anchor = if lhs_multiline(p) {
        p.lh_width as int
    } else {
        lhs_col + p.lh_width
    };
    let gap: nat = if value_col > anchor {
        (value_col - anchor) as nat
    } else {
        0
    };
    let value = if p.rh_string@.contains('\n') {
        shift_block(p.rh_string@, value_col - absolute_col(src, base_col, rhs_pos(src, p)))
    } else {
        trim_start_ws(p.rh_string@)
    };
    lead + p.lh_string@ + spaces(gap) + value
}

/// The text of the first `k` bindings.
pub open spec fn binding_rows(
    src: Seq<char>,
    pairs: Seq<Pair>,
    base_col: int,
    last0: int,
    k: int,
) -> Seq<char>
    decreases k,
{
    if k <= 0 {
        Seq::empty()
    } else {
        binding_rows(src, pairs, base_col, last0, k - 1) + binding_row(
            src,
            pairs,
            base_col,
            last0,
            k - 1,
        )
    }
}

/// The text between the last value and the end `vec_end` of the binding vector.
pub open spec fn binding_tail(src: Seq<char>, pairs: Seq<Pair>, vec_end: int) -> Seq<char> {
    let l = binding_end(src, pairs.last());
    if l < vec_end {
        src.subrange(l, vec_end)
    } else {
        Seq::empty()
    }
}

/// The sizes that the binding builder computes with fit in `usize`.
pub open spec fn binding_columns_fit(src: Seq<char>, pairs: Seq<Pair>, base_col: int) -> bool {
    &&& base_col + src.len() + 4 <= usize::MAX
    &&& binding_value_col(src, pairs, base_col) <= usize::MAX
}

/// What the binding builder requires of its arguments.
pub open spec fn binding_builder_input(
    src: Seq<char>,
    pairs: Seq<Pair>,
    base_col: int,
    last_byte: int,
    vec_end_byte: int,
) -> bool {
    &&& pairs.len() > 0
    &&& forall|i: int| 0 <= i < pairs.len() ==> binding_in_text(src, #[trigger] pairs[i])
    &&& is_char_boundary(src, last_byte)
    &&& is_char_boundary(src, vec_end_byte)
    &&& binding_columns_fit(src, pairs, base_col)
}

/// What the binding builder writes and returns.
pub open spec fn binding_builder_result(
    src: Seq<char>,
    pairs: Seq<Pair>,
    base_col: int,
    last_byte: int,
    vec_end_byte: int,
    before: Seq<char>,
    after: Seq<char>,
    res: Option<usize>,
) -> bool {
    let last0 = char_index(src, last_byte);
    let vec_end = char_index(src, vec_end_byte);
    &&& res is None <==> !bindings_in_order(src, pairs, last0)
    &&& res is None ==> exists|f: int|
        first_binding_overlap(src, pairs, last0, f) && after == before + binding_rows(
            src,
            pairs,
            base_col,
            last0,
            f,
        )
    &&& res is Some ==> res == Some(vec_end_byte as usize) && after == before + binding_rows(
        src,
        pairs,
        base_col,
        last0,
        pairs.len() as int,
    ) + binding_tail(src, pairs, vec_end)
}

/// The widest name of `pairs`.
#[verifier::spinoff_prover]
fn max_name_width(pairs: &[Pair]) -> (r: usize)
    ensures
        r == max_lh_width(pairs@, pairs@.len() as int),
{
    let mut m: usize = 0;
    let mut i: usize = 0;
    while i < pairs.len()
        invariant
            i <= pairs@.len(),
            m == max_lh_width(pairs@, i as int),
        decreases pairs.len() - i,
    {
        if pairs[i].lh_width > m {
            m = pairs[i].lh_width;
        }
        i = i + 1;
    }
    m
}

/// Appends the text of binding `i` (see `binding_row`).
#[verifier::spinoff_prover]
#[verifier::rlimit(50)]
fn push_binding_row(
    out: &mut String,
    text: &[char],
    pairs: &[Pair],
    i: usize,
    base_col: usize,
    lhs_col: usize,
    value_col: usize,
    last: usize,
    lhs_start: usize,
    line: usize,
    Ghost(last0): Ghost<int>,
)
    requires
        i < pairs@.len(),
        binding_in_text(text@, pairs@[i as int]),
        base_col + text@.len() + 4 <= usize::MAX,
        lhs_col == binding_lhs_col(text@, pairs@, base_col as int),
        value_col == binding_value_col(text@, pairs@, base_col as int),
        lhs_start == lhs_pos(text@, pairs@[i as int]),
        lhs_start <= text@.len(),
        line == row_line(text@, pairs@[i as int]),
        line <= lhs_start,
        last <= line,
        i == 0 ==> last == last0,
        i > 0 ==> last == binding_end(text@, pairs@[i - 1]),
        pairs@[i as int].lh_width <= max_lh_width(pairs@, pairs@.len() as int),
    ensures
        final(out)@ == old(out)@ + binding_row(text@, pairs@, base_col as int, last0, i as int),
{
    reveal(binding_row);
    let p = &pairs[i];
    if i == 0 {
        push_range(out, text, last, lhs_start);
    } else {
        push_range(out, text, last, line);
        push_spaces(out, lhs_col);
    }
    let lh = chars_of(p.lh_string.as_str());
    push_all(out, &lh);
    let anchor = if contains_newline(&lh) {
        p.lh_width
    } else {
        lhs_col + p.lh_width
    };
    let gap = if value_col > anchor {
        value_col - anchor
    } else {
        0
    };
    push_spaces(out, gap);
    let rh = chars_of(p.rh_string.as_str());
    if contains_newline(&rh) {
        let rhs_start = char_pos(text, p.rh_start_byte);
        let old_rhs_col = absolute_col_of(text, base_col, rhs_start);
        push_shifted_block(out, &rh, 0, rh.len(), value_col, old_rhs_col);
        assert(rh@.subrange(0, rh@.len() as int) =~= rh@);
    } else {
        push_trim_start(out, &rh);
    }
    assert(final(out)@ =~= old(out)@ + binding_row(text@, pairs@, base_col as int, last0, i as int));
}

/// Each width is at most the largest.
pub proof fn lemma_max_lh_width(pairs: Seq<Pair>, k: int, i: int)
    requires
        0 <= i < k <= pairs.len(),
    ensures
        pairs[i].lh_width <= max_lh_width(pairs, k),
        max_lh_width(pairs, k) >= 0,
    decreases k,
{
    if i < k - 1 {
        lemma_max_lh_width(pairs, k - 1, i);
    }
    lemma_max_lh_width_nonneg(pairs, k - 1);
}

pub proof fn lemma_max_lh_width_nonneg(pairs: Seq<Pair>, k: int)
    ensures
        max_lh_width(pairs, k) >= 0,
    decreases k,
{
    if k > 0 {
        lemma_max_lh_width_nonneg(pairs, k - 1);
    }
}

/// The binding builder over the characters of the text.
#[verifier::rlimit(50)]
fn binding_vec_in(
    text: &[char],
    pairs: &[Pair],
    base_col: usize,
    out: &mut String,
    last_byte: usize,
    vec_end_byte: usize,
) -> (res: Option<usize>)
    requires
        binding_builder_input(
            text@,
            pairs@,
            base_col as int,
            last_byte as int,
            vec_end_byte as int,
        ),
    ensures
        binding_builder_result(
            text@,
            pairs@,
            base_col as int,
            last_byte as int,
            vec_end_byte as int,
            old(out)@,
            final(out)@,
            res,
        ),
{
    let ghost last0 = char_index(text@, last_byte as int);
    let first = char_pos(text, pairs[0].lh_start_byte);
    let lhs_col = absolute_col_of(text, base_col, first);
    let max_w = max_name_width(pairs);
    proof {
        lemma_max_lh_width_nonneg(pairs@, pairs@.len() as int);
    }
    let value_col = lhs_col + max_w + 1;
    let mut last = char_pos(text, last_byte);
    let mut prev_line: usize = 0;
    let mut i: usize = 0;
    while i < pairs.len()
        invariant
            binding_builder_input(
                text@,
                pairs@,
                base_col as int,
                last_byte as int,
                vec_end_byte as int,
            ),
            last0 == char_index(text@, last_byte as int),
            lhs_col == binding_lhs_col(text@, pairs@, base_col as int),
            value_col == binding_value_col(text@, pairs@, base_col as int),
            i <= pairs@.len(),
            last <= text@.len(),
            i == 0 ==> last == last0,
            i > 0 ==> last == binding_end(text@, pairs@[i - 1]),
            i > 0 ==> prev_line == row_line(text@, pairs@[i - 1]),
            forall|j: int| 0 <= j < i ==> !binding_overlap(text@, pairs@, last0, j),
            out@ == old(out)@ + binding_rows(text@, pairs@, base_col as int, last0, i as int),
        decreases pairs.len() - i,
    {
        let p = &pairs[i];
        assert(binding_in_text(text@, pairs@[i as int]));
        let lhs_start = char_pos(text, p.lh_start_byte);
        let line = line_start_of(text, lhs_start);
        assert(line == row_line(text@, pairs@[i as int]));
        if lhs_start < last || line < last || (i > 0 && line == prev_line) {
            assert(binding_overlap(text@, pairs@, last0, i as int));
            assert(first_binding_overlap(text@, pairs@, last0, i as int));
            return None;
        }
        proof {
            lemma_max_lh_width(pairs@, pairs@.len() as int, i as int);
        }
        push_binding_row(
            out,
            text,
            pairs,
            i,
            base_col,
            lhs_col,
            value_col,
            last,
            lhs_start,
            line,
            Ghost(last0),
        );
        last = char_pos(text, p.rh_end_byte);
        prev_line = line;
        i = i + 1;
    }
    let vec_end = char_pos(text, vec_end_byte);
    let ghost before_tail = out@;
    if last < vec_end {
        push_range(out, text, last, vec_end);
    }
    assert(out@ =~= before_tail + binding_tail(text@, pairs@, vec_end as int));
    Some(vec_end_byte)
}

/// Aligns the binding vector of a `let`-like form and appends it to `out`,
/// starting at byte `last_byte`: the first binding stays where it is, each
/// later one goes on its own line under it, and every value starts one column
/// past the widest name (a value that spans several lines moves with its
/// lines; one that does not loses its leading whitespace). The text up to the
/// end of the vector follows. Returns the byte offset where the vector ends,
/// or `None` (with the bindings before the offending one written) when a
/// binding starts before the end of the binding before it, or on the same line.
pub fn build_aligned_let_binding_vec(
    src: &str,
    pairs: &[Pair],
    base_col: usize,
    out: &mut String,
    last_byte: usize,
    binding_vec: &SyntaxNode,
) -> (res: Option<usize>)
    requires
        binding_builder_input(
            src@,
            pairs@,
            base_col as int,
            last_byte as int,
            binding_vec.end_byte as int,
        ),
    ensures
        binding_builder_result(
            src@,
            pairs@,
            base_col as int,
            last_byte as int,
            binding_vec.end_byte as int,
            old(out)@,
            final(out)@,
            res,
        ),
{
    let text = chars_of(src);
    binding_vec_in(&text, pairs, base_col, out, last_byte, binding_vec.end_byte)
}

// ---------------------------------------------------------------------------
// The body
// ---------------------------------------------------------------------------

/// Character position where the text before body form `j` starts: `last0` for
/// the first body form (the third child), the end of the form before otherwise.
pub open spec fn body_prev_end(
    src: Seq<char>,
    nodes: Seq<SyntaxNode>,
    children: Seq<usize>,
    last0: int,
    j: int,
) -> int {
    if j <= 2 {
        last0
    } else {
        char_index(src, nodes[children[j - 1] as int].end_byte as int)
    }
}

/// Character position where body form `j` starts.
pub open spec fn body_start(src: Seq<char>, nodes: Seq<SyntaxNode>, children: Seq<usize>, j: int) -> int {
    char_index(src, nodes[children[j] as int].start_byte as int)
}

/// Body form `j` starts before the end of what precedes it, or its line does.
pub open spec fn body_overlap(
    src: Seq<char>,
    nodes: Seq<SyntaxNode>,
    children: Seq<usize>,
    last0: int,
    j: int,
) -> bool {
    let last = body_prev_end(src, nodes, children, last0, j);
    let start = body_start(src, nodes, children, j);
    start < last || line_start(src, start) < last
}

/// Every body form starts on a line that starts after what precedes it.
pub open spec fn body_in_order(
    src: Seq<char>,
    nodes: Seq<SyntaxNode>,
    children: Seq<usize>,
    last0: int,
) -> bool {
    forall|j: int| 2 <= j < children.len() ==> !body_overlap(src, nodes, children, last0, j)
}

/// `f` is the first body form that overlaps.
pub open spec fn first_body_overlap(
    src: Seq<char>,
    nodes: Seq<SyntaxNode>,
    children: Seq<usize>,
    last0: int,
    f: int,
) -> bool {
    &&& 2 <= f < children.len()
    &&& body_overlap(src, nodes, children, last0, f)
    &&& forall|j: int| 2 <= j < f ==> !body_overlap(src, nodes, children, last0, j)
}

/// The text before body form `j` that it keeps: from the end of what precedes
/// it to the start of its line.
pub open spec fn body_lead(src: Seq<char>, nodes: Seq<SyntaxNode>, children: Seq<usize>, last0: int, j: int) -> Seq<char> {
    src.subrange(
        body_prev_end(src, nodes, children, last0, j),
        line_start(src, body_start(src, nodes, children, j)),
    )
}

/// The text that body form `j` contributes: the text before it up to the start
/// of its line, the indentation (two columns past the form), and the form,
/// its later lines moved with it.
#[verifier::opaque]
pub open spec fn body_row(
    src: Seq<char>,
    nodes: Seq<SyntaxNode>,
    children: Seq<usize>,
    base_col: int,
    last0: int,
    j: int,
) -> Seq<char> {
    let n = nodes[children[j] as int];
    let start = body_start(src, nodes, children, j);
    body_lead(src, nodes, children, last0, j) + spaces(
        (base_col + 2) as nat,
    ) + shift_block(node_chars(src, n), base_col + 2 - absolute_col(src, base_col, start))
}

/// The text of the body forms `2..k`.
pub open spec fn body_rows(
    src: Seq<char>,
    nodes: Seq<SyntaxNode>,
    children: Seq<usize>,
    base_col: int,
    last0: int,
    k: int,
) -> Seq<char>
    decreases k,
{
    if k <= 2 {
        Seq::empty()
    } else {
        body_rows(src, nodes, children, base_col, last0, k - 1) + body_row(
            src,
            nodes,
            children,
            base_col,
            last0,
            k - 1,
        )
    }
}

/// Byte offset where the body ends: the end of the last body form, or
/// `last_byte` when there is none.
pub open spec fn body_end_byte(nodes: Seq<SyntaxNode>, children: Seq<usize>, last_byte: int) -> int {
    if children.len() <= 2 {
        last_byte
    } else {
        nodes[children.last() as int].end_byte as int
    }
}

/// The body forms (the children after the second) are nodes of the tree that
/// span characters of `src`.
pub open spec fn body_nodes_in_text(src: Seq<char>, nodes: Seq<SyntaxNode>, children: Seq<usize>) -> bool {
    forall|j: int|
        2 <= j < children.len() ==> (#[trigger] children[j]) < nodes.len() && node_in_text(
            src,
            nodes[children[j] as int],
        )
}

/// What the body builder requires of its arguments.
pub open spec fn body_builder_input(
    src: Seq<char>,
    base_col: int,
    nodes: Seq<SyntaxNode>,
    children: Seq<usize>,
    last_byte: int,
) -> bool {
    &&& children.len() >= 2
    &&& body_nodes_in_text(src, nodes, children)
    &&& is_char_boundary(src, last_byte)
    &&& base_col + src.len() + 4 <= usize::MAX
}

/// What the body builder writes and returns.
pub open spec fn body_builder_result(
    src: Seq<char>,
    base_col: int,
    nodes: Seq<SyntaxNode>,
    children: Seq<usize>,
    last_byte: int,
    before: Seq<char>,
    after: Seq<char>,
    res: Option<usize>,
) -> bool {
    let last0 = char_index(src, last_byte);
    &&& res is None <==> !body_in_order(src, nodes, children, last0)
    &&& res is None ==> exists|f: int|
        first_body_overlap(src, nodes, children, last0, f) && after == before + body_rows(
            src,
            nodes,
            children,
            base_col,
            last0,
            f,
        )
    &&& res is Some ==> {
        let end_byte = body_end_byte(nodes, children, last_byte);
        &&& res == Some(end_byte as usize)
        &&& after == before + body_rows(
            src,
            nodes,
            children,
            base_col,
            last0,
            children.len() as int,
        ) + src.skip(char_index(src, end_byte))
    }
}

/// Appends the text of body form `j` (see `body_row`).
#[verifier::spinoff_prover]
fn push_body_row(
    out: &mut String,
    text: &[char],
    nodes: &[SyntaxNode],
    children: &[usize],
    base_col: usize,
    j: usize,
    last: usize,
    start: usize,
    line: usize,
    Ghost(last0): Ghost<int>,
)
    requires
        2 <= j < children@.len(),
        children@[j as int] < nodes@.len(),
        node_in_text(text@, nodes@[children@[j as int] as int]),
        base_col + text@.len() + 4 <= usize::MAX,
        last == body_prev_end(text@, nodes@, children@, last0, j as int),
        start == body_start(text@, nodes@, children@, j as int),
        line == line_start(text@, start as int),
        last <= line <= start,
    ensures
        final(out)@ == old(out)@ + body_row(text@, nodes@, children@, base_col as int, last0, j as int),
{
    reveal(body_row);
    let n = &nodes[children[j]];
    push_range(out, text, last, line);
    push_spaces(out, base_col + 2);
    let end = char_pos(text, n.end_byte);
    let old_col = absolute_col_of(text, base_col, start);
    push_shifted_block(out, text, start, end, base_col + 2, old_col);
    assert(final(out)@ =~= old(out)@ + body_row(text@, nodes@, children@, base_col as int, last0, j as int));
}

/// The body builder over the characters of the text.
#[verifier::rlimit(50)]
fn body_in(
    text: &[char],
    base_col: usize,
    out: &mut String,
    nodes: &[SyntaxNode],
    children: &[usize],
    last_byte: usize,
) -> (res: Option<usize>)
    requires
        body_builder_input(text@, base_col as int, nodes@, children@, last_byte as int),
    ensures
        body_builder_result(
            text@,
            base_col as int,
            nodes@,
            children@,
            last_byte as int,
            old(out)@,
            final(out)@,
            res,
        ),
{
    let ghost last0 = char_index(text@, last_byte as int);
    let mut last = char_pos(text, last_byte);
    let mut last_out = last_byte;
    let mut j: usize = 2;
    while j < children.len()
        invariant
            body_builder_input(text@, base_col as int, nodes@, children@, last_byte as int),
            last0 == char_index(text@, last_byte as int),
            2 <= j <= children@.len(),
            last <= text@.len(),
            last == body_prev_end(text@, nodes@, children@, last0, j as int),
            last_out == body_end_byte(nodes@, children@.take(j as int), last_byte as int),
            is_char_boundary(text@, last_out as int),
            last == char_index(text@, last_out as int),
            forall|k: int| 2 <= k < j ==> !body_overlap(text@, nodes@, children@, last0, k),
            out@ == old(out)@ + body_rows(text@, nodes@, children@, base_col as int, last0, j as int),
        decreases children.len() - j,
    {
        assert(children@[j as int] < nodes@.len() && node_in_text(text@, nodes@[children@[j as int] as int]));
        let n = &nodes[children[j]];
        let start = char_pos(text, n.start_byte);
        let line = line_start_of(text, start);
        if start < last || line < last {
            assert(body_overlap(text@, nodes@, children@, last0, j as int));
            assert(first_body_overlap(text@, nodes@, children@, last0, j as int));
            return None;
        }
        push_body_row(out, text, nodes, children, base_col, j, last, start, line, Ghost(last0));
        last = char_pos(text, n.end_byte);
        last_out = n.end_byte;
        j = j + 1;
        assert(children@.take(j as int).last() == children@[j - 1]);
    }
    assert(children@.take(j as int) =~= children@);
    push_range(out, text, last, text.len());
    assert(text@.subrange(last as int, text@.len() as int) =~= text@.skip(last as int));
    Some(last_out)
}

/// Appends the body of a `let`-like form to `out`, starting at byte
/// `last_byte`: every body form (the children after the binding vector) starts
/// its line two columns past the form, its later lines moved with it, and the
/// rest of `src` follows. Returns the byte offset where the last body form ends
/// (`last_byte` when there is none), or `None` (with the forms before the
/// offending one written) when a body form starts before what precedes it.
pub fn build_aligned_let_body(
    src: &str,
    base_col: usize,
    out: &mut String,
    tree: &SyntaxTree,
    children: &[usize],
    last_byte: usize,
) -> (res: Option<usize>)
    requires
        body_builder_input(src@, base_col as int, tree.nodes@, children@, last_byte as int),
    ensures
        body_builder_result(
            src@,
            base_col as int,
            tree.nodes@,
            children@,
            last_byte as int,
            old(out)@,
            final(out)@,
            res,
        ),
{
    let text = chars_of(src);
    body_in(&text, base_col, out, tree.nodes.as_slice(), children, last_byte)
}

// ---------------------------------------------------------------------------
// The whole form
// ---------------------------------------------------------------------------

/// The children (comments and discarded forms aside) of the `let`-like form
/// that a tree holds: its root's first named child, when that is a list whose
/// second such child is a vector.
pub open spec fn let_form(nodes: Seq<SyntaxNode>) -> Option<Seq<int>> {
    if nodes.len() == 0 {
        None
    } else {
        let named = named_children(nodes, 0);
        if named.len() == 0 {
            None
        } else {
            let form = named[0];
            let children = content_children(nodes, form);
            if nodes[form].kind@ != "list_lit"@ || children.len() < 2 || nodes[children[1]].kind@
                != "vec_lit"@ {
                None
            } else {
                Some(children)
            }
        }
    }
}

/// The node indices of `s` as `usize` values.
pub open spec fn node_indices(s: Seq<int>) -> Seq<usize> {
    Seq::new(s.len(), |j: int| s[j] as usize)
}

/// The aligned text of the `let`-like form that `nodes` holds for `src`: the
/// binding vector aligned, then the body; `src` unchanged when the tree holds
/// no such form or when a binding or a body form is out of order.
pub open spec fn let_form_text(
    src: Seq<char>,
    pairs: Seq<Pair>,
    base_col: int,
    nodes: Seq<SyntaxNode>,
) -> Seq<char> {
    match let_form(nodes) {
        None => src,
        Some(children) => {
            let vec_end_byte = nodes[children[1]].end_byte as int;
            let vec_end = char_index(src, vec_end_byte);
            let kids = node_indices(children);
            if !bindings_in_order(src, pairs, 0) || !body_in_order(src, nodes, kids, vec_end) {
                src
            } else {
                binding_rows(src, pairs, base_col, 0, pairs.len() as int) + binding_tail(
                    src,
                    pairs,
                    vec_end,
                ) + body_rows(src, nodes, kids, base_col, vec_end, kids.len() as int) + src.skip(
                    char_index(src, body_end_byte(nodes, kids, vec_end_byte)),
                )
            }
        }
    }
}

/// What the `let` builders require of the pairs.
pub open spec fn let_pairs_input(src: Seq<char>, pairs: Seq<Pair>, base_col: int) -> bool {
    &&& forall|i: int| 0 <= i < pairs.len() ==> binding_in_text(src, #[trigger] pairs[i])
    &&& binding_columns_fit(src, pairs, base_col)
}

/// The named children of a node are nodes of the tree.
pub proof fn named_children_in_tree(nodes: Seq<SyntaxNode>, nd: int)
    ensures
        forall|j: int|
            0 <= j < named_children(nodes, nd).len() ==> 0 <= #[trigger] named_children(
                nodes,
                nd,
            )[j] < nodes.len(),
{
    crate::syntax::lemma_children_upto_in_range(
        nodes,
        nd,
        nodes.len() as int,
        |n: SyntaxNode| n.named,
    );
}

/// Aligns the `let`-like form that `tree`, the syntax tree of `src`, holds
/// (see `let_form_text`).
#[verifier::spinoff_prover]
#[verifier::rlimit(40)]
pub fn align_let_form(src: &str, pairs: &[Pair], base_col: usize, tree: &SyntaxTree) -> (out:
    String)
    requires
        pairs@.len() > 0,
        let_form(tree.nodes@) is Some ==> let_pairs_input(src@, pairs@, base_col as int),
        tree_in_text(src@, tree.nodes@),
    ensures
        out@ == let_form_text(src@, pairs@, base_col as int, tree.nodes@),
{
    let ghost nodes = tree.nodes@;
    let text = chars_of(src);
    let root = match crate::syntax::get_root_node(tree) {
        Some(r) => r,
        None => return src.to_owned(),
    };
    let form = match crate::syntax::named_child(tree, root, 0) {
        Some(f) => f,
        None => return src.to_owned(),
    };
    proof {
        named_children_in_tree(nodes, 0);
    }
    if !kind_is(&tree.nodes[form], "list_lit") {
        return src.to_owned();
    }
    let children = crate::syntax::non_comment_children(tree, form);
    proof {
        content_children_in_tree(nodes, form as int);
    }
    if children.len() < 2 {
        return src.to_owned();
    }
    let binding_vec = children[1];
    if !kind_is(&tree.nodes[binding_vec], "vec_lit") {
        return src.to_owned();
    }
    let ghost ch = content_children(nodes, form as int);
    assert(let_form(nodes) == Some(ch));
    assert(children@ =~= node_indices(ch));
    let vec_end_byte = tree.nodes[binding_vec].end_byte;
    assert(crate::syntax::node_in_text(src@, nodes[binding_vec as int]));
    proof {
        crate::helpers::lemma_char_index(src@, 0, 0);
    }
    let mut out = String::new();
    let last = match binding_vec_in(&text, pairs, base_col, &mut out, 0, vec_end_byte) {
        Some(l) => l,
        None => return src.to_owned(),
    };
    assert(forall|j: int|
        2 <= j < children@.len() ==> (#[trigger] children@[j]) < nodes.len() && crate::syntax::node_in_text(
            src@,
            nodes[children@[j] as int],
        ));
    match body_in(&text, base_col, &mut out, tree.nodes.as_slice(), &children, last) {
        Some(_) => {
            assert(out@ =~= let_form_text(src@, pairs@, base_col as int, nodes));
            out
        },
        None => src.to_owned(),
    }
}

/// Aligns a `let`-like form: parses `src`, then aligns the binding vector and
/// the body of the form it holds (see `align_let_form`). `src` comes back
/// unchanged when there are no pairs, when the parser gives no tree (or one
/// whose nodes do not span characters of `src`, each inside its parent), when `src` holds no
/// `let`-like form, or when a binding or body form is out of order.
pub fn build_aligned_let_string(src: &str, pairs: &[Pair], base_col: usize) -> (out: String)
    requires
        pairs@.len() > 0 ==> match clojure_tree(src@) {
            Some(nodes) => tree_of_text(src@, nodes) && let_form(nodes) is Some ==> let_pairs_input(
                src@,
                pairs@,
                base_col as int,
            ),
            None => true,
        },
    ensures
        out@ == (if pairs@.len() == 0 {
            src@
        } else {
            match clojure_tree(src@) {
                None => src@,
                Some(nodes) => if tree_of_text(src@, nodes) {
                    let_form_text(src@, pairs@, base_col as int, nodes)
                } else {
                    src@
                },
            }
        }),
{
    if pairs.len() == 0 {
        return src.to_owned();
    }
    let tree = match crate::syntax::get_tree(src) {
        Some(t) => t,
        None => return src.to_owned(),
    };
    let text = chars_of(src);
    if !crate::syntax::tree_fits_text(&text, &tree) {
        return src.to_owned();
    }
    align_let_form(src, pairs, base_col, &tree)
}

// ---------------------------------------------------------------------------
// The aligner
// ---------------------------------------------------------------------------

/// The heads of the forms that the `let`-like aligner aligns.
pub open spec fn is_let_like_head(head: Seq<char>) -> bool {
    ||| head == "let"@
    ||| head == "when-let"@
    ||| head == "if-let"@
    ||| head == "binding"@
    ||| head == "loop"@
    ||| head == "with-open"@
    ||| head == "with-redefs"@
}

/// Node `node` is a list whose first form (comments and discarded forms
/// aside) is one of the `let`-like heads.
pub open spec fn is_let_like(src: Seq<char>, nodes: Seq<SyntaxNode>, node: int) -> bool {
    let children = content_children(nodes, node);
    &&& nodes[node].kind@ == "list_lit"@
    &&& children.len() > 0
    &&& is_let_like_head(node_chars(src, nodes[children[0]]))
}

/// Whether `text` is one of the `let`-like heads.
fn let_like_head(text: &str) -> (r: bool)
    ensures
        r == is_let_like_head(text@),
{
    crate::syntax::same_text(text, "let") || crate::syntax::same_text(text, "when-let")
        || crate::syntax::same_text(text, "if-let") || crate::syntax::same_text(text, "binding")
        || crate::syntax::same_text(text, "loop") || crate::syntax::same_text(text, "with-open")
        || crate::syntax::same_text(text, "with-redefs")
}

/// The widest name is at most any bound that every name width meets.
pub proof fn lemma_max_lh_width_bound(pairs: Seq<Pair>, k: int, bound: int)
    requires
        0 <= bound,
        k <= pairs.len(),
        forall|i: int| 0 <= i < k ==> (#[trigger] pairs[i]).lh_width <= bound,
    ensures
        max_lh_width(pairs, k) <= bound,
    decreases k,
{
    if k > 0 {
        lemma_max_lh_width_bound(pairs, k - 1, bound);
    }
}

impl crate::alignable::Alignable for LetLikeAligner {
    fn kind(&self) -> (r: AlignKind)
        ensures
            r == AlignKind::LetLike,
    {
        AlignKind::LetLike
    }

    fn matches(&self, tree: &SyntaxTree, node: usize, src: &str) -> (r: bool)
        ensures
            r == is_let_like(src@, tree.nodes@, node as int),
    {
        if !kind_is(&tree.nodes[node], "list_lit") {
            return false;
        }
        let children = crate::syntax::non_comment_children(tree, node);
        if children.len() == 0 {
            return false;
        }
        proof {
            content_children_in_tree(tree.nodes@, node as int);
        }
        let head = children[0];
        assert(node_in_text(src@, tree.nodes@[head as int]));
        let text = crate::syntax::node_text(tree, head, src);
        let_like_head(text.as_str())
    }

    fn extract(&self, tree: &SyntaxTree, node: usize, src: &str) -> (r: Option<Extracted>)
        ensures
            r is None <==> let_bindings(tree.nodes@, node as int) is None,
            r matches Some(Extracted::Pairs(pairs)) ==> {
                let b = let_bindings(tree.nodes@, node as int)->0;
                &&& pairs@.len() * 2 == b.len()
                &&& forall|k: int|
                    0 <= k < pairs@.len() ==> is_binding_pair(
                        #[trigger] pairs@[k],
                        src@,
                        tree.nodes@[b[2 * k]],
                        tree.nodes@[b[2 * k + 1]],
                        crate::syntax::node_byte_column(src@, tree.nodes@[b[0]]),
                    )
            },
    {
        match extract_let_like_pairs(tree, node, src) {
            Some(pairs) => Some(Extracted::Pairs(pairs)),
            None => None,
        }
    }

    #[verifier::spinoff_prover]
    #[verifier::rlimit(40)]
    fn build(&self, src: &str, extracted: Extracted, base_col: usize) -> (out: String)
        ensures
            out@ == (match extracted {
                Extracted::Pairs(pairs) => if pairs@.len() == 0 {
                    src@
                } else {
                    match clojure_tree(src@) {
                        None => src@,
                        Some(nodes) => if tree_of_text(src@, nodes) {
                            let_form_text(src@, pairs@, base_col as int, nodes)
                        } else {
                            src@
                        },
                    }
                },
            }),
    {
        match extracted {
            Extracted::Pairs(pairs) => {
                proof {
                    assert forall|i: int| 0 <= i < pairs@.len() implies binding_in_text(
                        src@,
                        #[trigger] pairs@[i],
                    ) by {
                        assert(crate::alignable::pair_spans_text(src@, pairs@[i]));
                    }
                    if pairs@.len() > 0 {
                        let bound = (usize::MAX - base_col - src@.len() - 4) as int;
                        assert forall|i: int| 0 <= i < pairs@.len() implies (
                        #[trigger] pairs@[i]).lh_width <= bound by {
                            assert(crate::alignable::pair_spans_text(src@, pairs@[i]));
                        }
                        lemma_max_lh_width_bound(pairs@, pairs@.len() as int, bound);
                        assert(crate::alignable::pair_spans_text(src@, pairs@[0]));
                        crate::helpers::lemma_char_index_facts(
                            src@,
                            pairs@[0].lh_start_byte as int,
                        );
                        crate::helpers::lemma_line_start_bounds(
                            src@,
                            lhs_pos(src@, pairs@[0]),
                        );
                        assert(binding_columns_fit(src@, pairs@, base_col as int));
                    }
                }
                build_aligned_let_string(src, pairs.as_slice(), base_col)
            },
        }
    }
}

// ---------------------------------------------------------------------------
// Laws
// ---------------------------------------------------------------------------

/// What the `let`-like extractor gives, the builders take: every byte offset of
/// every extracted pair stands on a character boundary of the text.
#[verifier::spinoff_prover]
#[verifier::rlimit(40)]
pub proof fn lemma_extracted_pairs_in_text(
    src: Seq<char>,
    nodes: Seq<SyntaxNode>,
    nd: int,
    pairs: Seq<Pair>,
)
    requires
        tree_in_text(src, nodes),
        0 <= nd < nodes.len(),
        let_bindings(nodes, nd) is Some,
        pairs.len() * 2 == let_bindings(nodes, nd)->0.len(),
        forall|k: int|
            0 <= k < pairs.len() ==> is_binding_pair(
                #[trigger] pairs[k],
                src,
                nodes[let_bindings(nodes, nd)->0[2 * k]],
                nodes[let_bindings(nodes, nd)->0[2 * k + 1]],
                crate::syntax::node_byte_column(src, nodes[let_bindings(nodes, nd)->0[0]]),
            ),
    ensures
        forall|k: int| 0 <= k < pairs.len() ==> crate::alignable::pair_spans_text(src, #[trigger] pairs[k]),
        forall|k: int| 0 <= k < pairs.len() ==> binding_in_text(src, #[trigger] pairs[k]),
{
    let b = let_bindings(nodes, nd)->0;
    let children = content_children(nodes, nd);
    content_children_in_tree(nodes, nd);
    content_children_in_tree(nodes, children[1]);
    assert forall|k: int| 0 <= k < pairs.len() implies crate::alignable::pair_spans_text(
        src,
        #[trigger] pairs[k],
    ) by {
        assert(0 <= b[2 * k] < nodes.len());
        assert(0 <= b[2 * k + 1] < nodes.len());
        assert(node_in_text(src, nodes[b[2 * k]]));
        assert(node_in_text(src, nodes[b[2 * k + 1]]));
    }
    assert forall|k: int| 0 <= k < pairs.len() implies binding_in_text(src, #[trigger] pairs[k]) by {
        assert(crate::alignable::pair_spans_text(src, pairs[k]));
    }
}

/// Values line up: in the text of every binding after the first whose name is
/// one line of `lh_width` characters, the name comes right after the
/// indentation to the names' column, and the value starts at the values'
/// column, past the widest name.
#[verifier::spinoff_prover]
#[verifier::rlimit(40)]
pub proof fn lemma_binding_values_line_up(
    src: Seq<char>,
    pairs: Seq<Pair>,
    base_col: int,
    last0: int,
    i: int,
) -> (value: Seq<char>)
    requires
        0 < i < pairs.len(),
        !lhs_multiline(pairs[i]),
        pairs[i].lh_width == pairs[i].lh_string@.len(),
    ensures
        ({
            let lhs_col = binding_lhs_col(src, pairs, base_col);
            let value_col = binding_value_col(src, pairs, base_col);
            let gap = value_col - (lhs_col + pairs[i].lh_width);
            &&& gap >= 1
            &&& binding_row(src, pairs, base_col, last0, i) == src.subrange(
                    binding_end(src, pairs[i - 1]),
                    row_line(src, pairs[i]),
                ) + spaces(lhs_col as nat) + pairs[i].lh_string@ + spaces(gap as nat) + value
        }),
{
    reveal(binding_row);
    lemma_max_lh_width(pairs, pairs.len() as int, i);
    let p = pairs[i];
    let value = if p.rh_string@.contains('\n') {
        shift_block(
            p.rh_string@,
            binding_value_col(src, pairs, base_col) - absolute_col(src, base_col, rhs_pos(src, p)),
        )
    } else {
        trim_start_ws(p.rh_string@)
    };
    assert(binding_row(src, pairs, base_col, last0, i) == src.subrange(
        binding_end(src, pairs[i - 1]),
        row_line(src, pairs[i]),
    ) + spaces(binding_lhs_col(src, pairs, base_col) as nat) + pairs[i].lh_string@ + spaces(
        (binding_value_col(src, pairs, base_col) - (binding_lhs_col(src, pairs, base_col)
            + pairs[i].lh_width)) as nat,
    ) + value);
    value
}

/// What the law on whitespace asks of the bindings: each name and value is the
/// text of its span in `src`, the name first, only whitespace between them,
/// and only indentation before every binding after the first on its line.
pub open spec fn bindings_are_text(src: Seq<char>, pairs: Seq<Pair>) -> bool {
    &&& forall|i: int|
        0 <= i < pairs.len() ==> crate::alignable::pair_spans_text(src, #[trigger] pairs[i])
            && binding_is_text(src, pairs[i])
    &&& forall|i: int|
        0 < i < pairs.len() ==> all_ws(
            src.subrange(row_line(src, #[trigger] pairs[i]), lhs_pos(src, pairs[i])),
        )
}

/// The name and the value of `p` are the text of their spans in `src`, the
/// name first, with only whitespace between them.
pub open spec fn binding_is_text(src: Seq<char>, p: Pair) -> bool {
    let ls = lhs_pos(src, p);
    let le = char_index(src, p.lh_end_byte as int);
    let rs = rhs_pos(src, p);
    let re = char_index(src, p.rh_end_byte as int);
    &&& ls <= le <= rs <= re
    &&& p.lh_string@ == src.subrange(ls, le)
    &&& all_ws(src.subrange(le, rs))
    &&& p.rh_string@ == src.subrange(rs, re)
}

/// Binding `i` holds, apart from whitespace, the text of `src` from the end of
/// the binding before it (from `last0` for the first) to its own end.
#[verifier::spinoff_prover]
#[verifier::rlimit(60)]
proof fn lemma_binding_row_non_ws(src: Seq<char>, pairs: Seq<Pair>, base_col: int, last0: int, i: int)
    requires
        0 <= i < pairs.len(),
        0 <= last0 <= src.len(),
        bindings_are_text(src, pairs),
        bindings_in_order(src, pairs, last0),
    ensures
        ({
            let prev = if i == 0 {
                last0
            } else {
                binding_end(src, pairs[i - 1])
            };
            &&& 0 <= prev <= binding_end(src, pairs[i]) <= src.len()
            &&& non_ws(binding_row(src, pairs, base_col, last0, i)) == non_ws(
                src.subrange(prev, binding_end(src, pairs[i])),
            )
        }),
{
    reveal(binding_row);
    let p = pairs[i];
    assert(crate::alignable::pair_spans_text(src, p) && binding_is_text(src, p));
    assert(!binding_overlap(src, pairs, last0, i));
    lemma_char_index_facts(src, p.lh_start_byte as int);
    lemma_char_index_facts(src, p.lh_end_byte as int);
    lemma_char_index_facts(src, p.rh_start_byte as int);
    lemma_char_index_facts(src, p.rh_end_byte as int);
    let ls = lhs_pos(src, p);
    let le = char_index(src, p.lh_end_byte as int);
    let rs = rhs_pos(src, p);
    let re = binding_end(src, p);
    let line = row_line(src, p);
    crate::helpers::lemma_line_start_bounds(src, ls);
    let prev = if i == 0 {
        last0
    } else {
        binding_end(src, pairs[i - 1])
    };
    if i > 0 {
        assert(crate::alignable::pair_spans_text(src, pairs[i - 1]));
        lemma_char_index_facts(src, pairs[i - 1].rh_end_byte as int);
    }
    let lhs_col = binding_lhs_col(src, pairs, base_col);
    let lead = if i == 0 {
        src.subrange(last0, ls)
    } else {
        src.subrange(prev, line) + spaces(lhs_col as nat)
    };
    assert(non_ws(lead) == non_ws(src.subrange(prev, ls))) by {
        if i > 0 {
            assert(all_ws(src.subrange(line, ls)));
            lemma_non_ws_split(src, prev, line, ls);
            lemma_non_ws_all_ws(src.subrange(line, ls));
            lemma_non_ws_add(src.subrange(prev, line), spaces(lhs_col as nat));
            lemma_non_ws_spaces(lhs_col as nat);
        }
    }
    let value_col = binding_value_col(src, pairs, base_col);
    let anchor = if lhs_multiline(p) {
        p.lh_width as int
    } else {
        lhs_col + p.lh_width
    };
    let gap: nat = if value_col > anchor {
        (value_col - anchor) as nat
    } else {
        0
    };
    let value = if p.rh_string@.contains('\n') {
        shift_block(p.rh_string@, value_col - absolute_col(src, base_col, rhs_pos(src, p)))
    } else {
        trim_start_ws(p.rh_string@)
    };
    assert(non_ws(value) == non_ws(src.subrange(rs, re))) by {
        if p.rh_string@.contains('\n') {
            lemma_non_ws_shift_block(
                p.rh_string@,
                value_col - absolute_col(src, base_col, rhs_pos(src, p)),
            );
        } else {
            lemma_non_ws_trim_start(p.rh_string@);
        }
    }
    lemma_non_ws_add(lead + p.lh_string@ + spaces(gap), value);
    lemma_non_ws_add(lead + p.lh_string@, spaces(gap));
    lemma_non_ws_add(lead, p.lh_string@);
    lemma_non_ws_spaces(gap);
    lemma_non_ws_split(src, prev, ls, re);
    lemma_non_ws_split(src, ls, le, re);
    lemma_non_ws_split(src, le, rs, re);
    lemma_non_ws_all_ws(src.subrange(le, rs));
    assert(non_ws(binding_row(src, pairs, base_col, last0, i)) =~= non_ws(src.subrange(prev, ls))
        + non_ws(src.subrange(ls, le)) + non_ws(src.subrange(rs, re)));
}

/// The first `k` bindings hold, apart from whitespace, the text of `src` from
/// `last0` to the end of binding `k - 1`.
proof fn lemma_binding_rows_non_ws(src: Seq<char>, pairs: Seq<Pair>, base_col: int, last0: int, k: int)
    requires
        1 <= k <= pairs.len(),
        0 <= last0 <= src.len(),
        bindings_are_text(src, pairs),
        bindings_in_order(src, pairs, last0),
    ensures
        last0 <= binding_end(src, pairs[k - 1]) <= src.len(),
        non_ws(binding_rows(src, pairs, base_col, last0, k)) == non_ws(
            src.subrange(last0, binding_end(src, pairs[k - 1])),
        ),
    decreases k,
{
    lemma_binding_row_non_ws(src, pairs, base_col, last0, k - 1);
    lemma_non_ws_add(
        binding_rows(src, pairs, base_col, last0, k - 1),
        binding_row(src, pairs, base_col, last0, k - 1),
    );
    if k == 1 {
        assert(binding_rows(src, pairs, base_col, last0, 0) =~= Seq::<char>::empty());
        lemma_non_ws_all_ws(Seq::<char>::empty());
    } else {
        lemma_binding_rows_non_ws(src, pairs, base_col, last0, k - 1);
        lemma_non_ws_split(
            src,
            last0,
            binding_end(src, pairs[k - 2]),
            binding_end(src, pairs[k - 1]),
        );
    }
}

/// Only indentation stands before every body form on its line.
pub open spec fn body_is_indented(src: Seq<char>, nodes: Seq<SyntaxNode>, children: Seq<usize>) -> bool {
    forall|j: int|
        2 <= j < children.len() ==> all_ws(
            src.subrange(
                line_start(src, body_start(src, nodes, children, j)),
                body_start(src, nodes, children, j),
            ),
        )
}

/// Body form `j` holds, apart from whitespace, the text of `src` from the end
/// of what precedes it to its own end.
#[verifier::spinoff_prover]
#[verifier::rlimit(40)]
proof fn lemma_body_row_non_ws(
    src: Seq<char>,
    nodes: Seq<SyntaxNode>,
    children: Seq<usize>,
    base_col: int,
    last0: int,
    j: int,
)
    requires
        2 <= j < children.len(),
        0 <= last0 <= src.len(),
        body_nodes_in_text(src, nodes, children),
        body_in_order(src, nodes, children, last0),
        body_is_indented(src, nodes, children),
    ensures
        ({
            let end = char_index(src, nodes[children[j] as int].end_byte as int);
            let prev = body_prev_end(src, nodes, children, last0, j);
            &&& 0 <= prev <= end <= src.len()
            &&& non_ws(body_row(src, nodes, children, base_col, last0, j)) == non_ws(
                src.subrange(prev, end),
            )
        }),
{
    reveal(body_row);
    let n = nodes[children[j] as int];
    assert(children[j] < nodes.len() && node_in_text(src, n));
    assert(!body_overlap(src, nodes, children, last0, j));
    assert(all_ws(
        src.subrange(
            line_start(src, body_start(src, nodes, children, j)),
            body_start(src, nodes, children, j),
        ),
    ));
    lemma_char_index_facts(src, n.start_byte as int);
    lemma_char_index_facts(src, n.end_byte as int);
    let start = body_start(src, nodes, children, j);
    let end = char_index(src, n.end_byte as int);
    let line = line_start(src, start);
    crate::helpers::lemma_line_start_bounds(src, start);
    let prev = body_prev_end(src, nodes, children, last0, j);
    if j > 2 {
        assert(children[j - 1] < nodes.len() && node_in_text(src, nodes[children[j - 1] as int]));
        lemma_char_index_facts(src, nodes[children[j - 1] as int].end_byte as int);
    }
    let d = base_col + 2 - absolute_col(src, base_col, start);
    lemma_non_ws_shift_block(node_chars(src, n), d);
    lemma_non_ws_add(
        src.subrange(prev, line) + spaces((base_col + 2) as nat),
        shift_block(node_chars(src, n), d),
    );
    lemma_non_ws_add(src.subrange(prev, line), spaces((base_col + 2) as nat));
    lemma_non_ws_spaces((base_col + 2) as nat);
    lemma_non_ws_split(src, prev, line, end);
    lemma_non_ws_split(src, line, start, end);
    lemma_non_ws_all_ws(src.subrange(line, start));
    assert(non_ws(body_row(src, nodes, children, base_col, last0, j)) =~= non_ws(
        src.subrange(prev, line),
    ) + non_ws(src.subrange(start, end)));
}

/// The body forms `2..k` hold, apart from whitespace, the text of `src` from
/// `last0` to the end of form `k - 1`.
#[verifier::spinoff_prover]
#[verifier::rlimit(40)]
proof fn lemma_body_rows_non_ws(
    src: Seq<char>,
    nodes: Seq<SyntaxNode>,
    children: Seq<usize>,
    base_col: int,
    last0: int,
    k: int,
)
    requires
        2 <= k <= children.len(),
        0 <= last0 <= src.len(),
        body_nodes_in_text(src, nodes, children),
        body_in_order(src, nodes, children, last0),
        body_is_indented(src, nodes, children),
    ensures
        ({
            let end = body_prev_end(src, nodes, children, last0, k);
            &&& last0 <= end <= src.len()
            &&& non_ws(body_rows(src, nodes, children, base_col, last0, k)) == non_ws(
                src.subrange(last0, end),
            )
        }),
    decreases k,
{
    if k == 2 {
        assert(src.subrange(last0, last0) =~= Seq::<char>::empty());
        lemma_non_ws_all_ws(Seq::<char>::empty());
    } else {
        lemma_body_rows_non_ws(src, nodes, children, base_col, last0, k - 1);
        lemma_body_row_non_ws(src, nodes, children, base_col, last0, k - 1);
        lemma_non_ws_add(
            body_rows(src, nodes, children, base_col, last0, k - 1),
            body_row(src, nodes, children, base_col, last0, k - 1),
        );
        lemma_non_ws_split(
            src,
            last0,
            body_prev_end(src, nodes, children, last0, k - 1),
            body_prev_end(src, nodes, children, last0, k),
        );
    }
}

/// The first form of a tree: the first named child of its root.
pub open spec fn first_form(nodes: Seq<SyntaxNode>) -> Option<int> {
    if nodes.len() == 0 || named_children(nodes, 0).len() == 0 {
        None
    } else {
        Some(named_children(nodes, 0)[0])
    }
}

/// `pairs` are the pairs that the bindings of form `form` of `nodes`, the tree
/// of `src`, give (see `extract_let_like_pairs`).
pub open spec fn extracted_pairs(src: Seq<char>, nodes: Seq<SyntaxNode>, form: int, pairs: Seq<Pair>) -> bool {
    let b = let_bindings(nodes, form)->0;
    &&& pairs.len() * 2 == b.len()
    &&& forall|k: int|
        0 <= k < pairs.len() ==> is_binding_pair(
            #[trigger] pairs[k],
            src,
            nodes[b[2 * k]],
            nodes[b[2 * k + 1]],
            crate::syntax::node_byte_column(src, nodes[b[0]]),
        )
}

/// Byte offsets on character boundaries keep their order as positions.
proof fn lemma_char_index_order(src: Seq<char>, b1: int, b2: int)
    requires
        is_char_boundary(src, b1),
        is_char_boundary(src, b2),
        b1 <= b2,
    ensures
        char_index(src, b1) <= char_index(src, b2),
{
    lemma_char_index_facts(src, b1);
    lemma_char_index_facts(src, b2);
    if char_index(src, b2) < char_index(src, b1) {
        crate::helpers::lemma_utf8_len_take_strict(src, char_index(src, b2), char_index(src, b1));
    }
}

/// The last binding that extraction gives ends inside the binding vector.
#[verifier::spinoff_prover]
#[verifier::rlimit(40)]
proof fn lemma_extracted_bindings_end_in_vector(src: Seq<char>, pairs: Seq<Pair>, nodes: Seq<SyntaxNode>)
    requires
        nodes.len() <= usize::MAX,
        tree_of_text(src, nodes),
        let_form(nodes) is Some,
        let_bindings(nodes, first_form(nodes)->0) is Some,
        extracted_pairs(src, nodes, first_form(nodes)->0, pairs),
        pairs.len() > 0,
    ensures
        binding_end(src, pairs.last()) <= char_index(
            src,
            nodes[let_form(nodes)->0[1]].end_byte as int,
        ),
{
    let form = first_form(nodes)->0;
    let children = let_form(nodes)->0;
    named_children_in_tree(nodes, 0);
    content_children_in_tree(nodes, form);
    let vec = children[1];
    assert(0 <= vec < nodes.len());
    let b = let_bindings(nodes, form)->0;
    assert(b == content_children(nodes, vec));
    crate::syntax::lemma_children_upto_exact(
        nodes,
        vec,
        nodes.len() as int,
        |n: SyntaxNode| crate::syntax::is_content(n),
    );
    let k = pairs.len() - 1;
    assert(is_binding_pair(
        pairs[k],
        src,
        nodes[b[2 * k]],
        nodes[b[2 * k + 1]],
        crate::syntax::node_byte_column(src, nodes[b[0]]),
    ));
    let r = b[2 * k + 1];
    assert(0 <= r < nodes.len());
    assert(nodes[r].parent == Some(vec as usize));
    assert(nodes[r].end_byte <= nodes[vec].end_byte);
    assert(node_in_text(src, nodes[r]));
    assert(node_in_text(src, nodes[vec]));
    lemma_char_index_order(src, nodes[r].end_byte as int, nodes[vec].end_byte as int);
}

/// Aligning a `let`-like form with the bindings that extraction gives changes
/// only whitespace: when `nodes` is a tree of `src` (its nodes inside their
/// parents), the extracted bindings are the text of `src` (see
/// `bindings_are_text`) and only indentation stands before each body form on
/// its line, the aligned form holds the same characters other than whitespace
/// as `src`, in the same order.
pub proof fn lemma_extracted_alignment_keeps_code(
    src: Seq<char>,
    pairs: Seq<Pair>,
    base_col: int,
    nodes: Seq<SyntaxNode>,
)
    requires
        nodes.len() <= usize::MAX,
        tree_of_text(src, nodes),
        first_form(nodes) is Some,
        let_bindings(nodes, first_form(nodes)->0) is Some,
        extracted_pairs(src, nodes, first_form(nodes)->0, pairs),
        bindings_are_text(src, pairs),
        let_form(nodes) matches Some(children) ==> body_is_indented(src, nodes, node_indices(children)),
    ensures
        non_ws(let_form_text(src, pairs, base_col, nodes)) == non_ws(src),
{
    let b = let_bindings(nodes, first_form(nodes)->0)->0;
    assert(pairs.len() > 0);
    if let_form(nodes) is Some {
        lemma_extracted_bindings_end_in_vector(src, pairs, nodes);
    }
    lemma_let_alignment_keeps_code(src, pairs, base_col, nodes);
}

/// Aligning a `let`-like form changes only whitespace: when the bindings are
/// the text of `src` (see `bindings_are_text`), the last value ends inside the
/// binding vector, and only indentation stands before each body form on its
/// line, the aligned form holds the same characters other than whitespace as
/// `src`, in the same order.
#[verifier::spinoff_prover]
#[verifier::rlimit(40)]
pub proof fn lemma_let_alignment_keeps_code(
    src: Seq<char>,
    pairs: Seq<Pair>,
    base_col: int,
    nodes: Seq<SyntaxNode>,
)
    requires
        pairs.len() > 0,
        tree_in_text(src, nodes),
        bindings_are_text(src, pairs),
        let_form(nodes) matches Some(children) ==> {
            &&& binding_end(src, pairs.last()) <= char_index(
                src,
                nodes[children[1]].end_byte as int,
            )
            &&& body_is_indented(src, nodes, node_indices(children))
        },
    ensures
        non_ws(let_form_text(src, pairs, base_col, nodes)) == non_ws(src),
{
    if let Some(children) = let_form(nodes) {
        let named = named_children(nodes, 0);
        named_children_in_tree(nodes, 0);
        content_children_in_tree(nodes, named[0]);
        let bv = nodes[children[1]];
        assert(node_in_text(src, bv));
        let vec_end_byte = bv.end_byte as int;
        let vec_end = char_index(src, vec_end_byte);
        lemma_char_index_facts(src, vec_end_byte);
        let kids = node_indices(children);
        if bindings_in_order(src, pairs, 0) && body_in_order(src, nodes, kids, vec_end) {
            let n = pairs.len() as int;
            assert(body_nodes_in_text(src, nodes, kids)) by {
                assert forall|j: int| 2 <= j < kids.len() implies (#[trigger] kids[j]) < nodes.len()
                    && node_in_text(src, nodes[kids[j] as int]) by {
                    assert(0 <= children[j] < nodes.len());
                }
            }
            lemma_binding_rows_non_ws(src, pairs, base_col, 0, n);
            let l = binding_end(src, pairs[n - 1]);
            assert(non_ws(binding_tail(src, pairs, vec_end)) == non_ws(src.subrange(l, vec_end)))
                by {
                if l >= vec_end {
                    assert(src.subrange(l, vec_end) =~= Seq::<char>::empty());
                }
            }
            lemma_body_rows_non_ws(src, nodes, kids, base_col, vec_end, kids.len() as int);
            let body_end = body_prev_end(src, nodes, kids, vec_end, kids.len() as int);
            assert(char_index(src, body_end_byte(nodes, kids, vec_end_byte)) == body_end);
            let bind = binding_rows(src, pairs, base_col, 0, n);
            let tail = binding_tail(src, pairs, vec_end);
            let body = body_rows(src, nodes, kids, base_col, vec_end, kids.len() as int);
            lemma_non_ws_add(bind + tail + body, src.skip(body_end));
            lemma_non_ws_add(bind + tail, body);
            lemma_non_ws_add(bind, tail);
            lemma_non_ws_split(src, 0, l, vec_end);
            lemma_non_ws_split(src, 0, vec_end, body_end);
            lemma_non_ws_split(src, 0, body_end, src.len() as int);
            assert(src.subrange(0, src.len() as int) =~= src);
            assert(src.skip(body_end) =~= src.subrange(body_end, src.len() as int));
        }
    }
}


// ---------------------------------------------------------------------------
// Aligning an aligned form
// ---------------------------------------------------------------------------

/// The spaces between a one-line name of `p` and its value.
pub open spec fn binding_gap(src: Seq<char>, pairs: Seq<Pair>, base_col: int, p: Pair) -> int {
    let value_col = binding_value_col(src, pairs, base_col);
    let anchor = binding_lhs_col(src, pairs, base_col) + p.lh_width;
    if value_col > anchor {
        value_col - anchor
    } else {
        0
    }
}

/// Character position of the name of binding `i` in the aligned form.
pub open spec fn aligned_name_pos(src: Seq<char>, pairs: Seq<Pair>, base_col: int, i: int) -> int {
    (binding_rows(src, pairs, base_col, 0, i).len() + binding_lead(src, pairs, base_col, 0, i).len()) as int
}

/// `q` is the binding `p` of `pairs` as it stands in the aligned form `out`:
/// the same name, value and width, the name at position `ls`, the value
/// `binding_gap` spaces after it.
pub open spec fn moved_binding(
    out: Seq<char>,
    src: Seq<char>,
    pairs: Seq<Pair>,
    base_col: int,
    p: Pair,
    q: Pair,
    ls: int,
) -> bool {
    let le = ls + p.lh_string@.len();
    let rs = le + binding_gap(src, pairs, base_col, p);
    &&& q.lh_string@ == p.lh_string@
    &&& q.rh_string@ == p.rh_string@
    &&& q.lh_width == p.lh_width
    &&& is_char_boundary(out, q.lh_start_byte as int)
    &&& char_index(out, q.lh_start_byte as int) == ls
    &&& is_char_boundary(out, q.lh_end_byte as int)
    &&& char_index(out, q.lh_end_byte as int) == le
    &&& is_char_boundary(out, q.rh_start_byte as int)
    &&& char_index(out, q.rh_start_byte as int) == rs
    &&& is_char_boundary(out, q.rh_end_byte as int)
    &&& char_index(out, q.rh_end_byte as int) == rs + p.rh_string@.len()
}

/// A binding of one line: name and value are one line each and the text of
/// their spans, with only whitespace between them; the value is not empty and
/// does not start with whitespace.
pub open spec fn one_line_binding(src: Seq<char>, p: Pair) -> bool {
    &&& crate::alignable::pair_spans_text(src, p)
    &&& binding_is_text(src, p)
    &&& !p.lh_string@.contains('\n')
    &&& !p.rh_string@.contains('\n')
    &&& p.rh_string@.len() > 0
    &&& trim_start_ws(p.rh_string@) == p.rh_string@
}

/// What the law of re-alignment assumes of the bindings: one line each, in
/// order, and `moved` holds them where they stand in `out`.
#[verifier::opaque]
pub open spec fn bindings_realign_input(
    out: Seq<char>,
    src: Seq<char>,
    pairs: Seq<Pair>,
    base_col: int,
    moved: Seq<Pair>,
) -> bool {
    &&& 0 <= base_col
    &&& pairs.len() > 0
    &&& bindings_in_order(src, pairs, 0)
    &&& forall|i: int| 0 <= i < pairs.len() ==> one_line_binding(src, #[trigger] pairs[i])
    &&& moved.len() == pairs.len()
    &&& forall|i: int|
        0 <= i < moved.len() ==> moved_binding(
            out,
            src,
            pairs,
            base_col,
            pairs[i],
            #[trigger] moved[i],
            aligned_name_pos(src, pairs, base_col, i),
        )
    &&& out.len() >= binding_rows(src, pairs, base_col, 0, pairs.len() as int).len()
    &&& out.take(binding_rows(src, pairs, base_col, 0, pairs.len() as int).len() as int)
        == binding_rows(src, pairs, base_col, 0, pairs.len() as int)
}

/// The re-alignment input has bindings, as many moved as given.
proof fn lemma_bindings_realign_size(out: Seq<char>, src: Seq<char>, pairs: Seq<Pair>, base_col: int, moved: Seq<Pair>)
    requires
        bindings_realign_input(out, src, pairs, base_col, moved),
    ensures
        pairs.len() > 0,
        moved.len() == pairs.len(),
{
    reveal(bindings_realign_input);
}

/// The facts that the re-alignment input gives about binding `i`.
proof fn lemma_bindings_realign_facts(out: Seq<char>, src: Seq<char>, pairs: Seq<Pair>, base_col: int, moved: Seq<Pair>, i: int)
    requires
        bindings_realign_input(out, src, pairs, base_col, moved),
        0 <= i < pairs.len(),
    ensures
        0 <= base_col,
        bindings_in_order(src, pairs, 0),
        moved.len() == pairs.len(),
        one_line_binding(src, pairs[i]),
        one_line_binding(src, pairs[0]),
        moved_binding(out, src, pairs, base_col, pairs[i], moved[i], aligned_name_pos(src, pairs, base_col, i)),
        out.len() >= binding_rows(src, pairs, base_col, 0, pairs.len() as int).len(),
        out.take(binding_rows(src, pairs, base_col, 0, pairs.len() as int).len() as int)
            == binding_rows(src, pairs, base_col, 0, pairs.len() as int),
{
    reveal(bindings_realign_input);
}

/// The text of the first `k` bindings begins the text of the first `n`.
proof fn lemma_binding_rows_prefix(src: Seq<char>, pairs: Seq<Pair>, base_col: int, last0: int, k: int, n: int)
    requires
        0 <= k <= n,
    ensures
        binding_rows(src, pairs, base_col, last0, k).len() <= binding_rows(src, pairs, base_col, last0, n).len(),
        binding_rows(src, pairs, base_col, last0, n).take(
            binding_rows(src, pairs, base_col, last0, k).len() as int,
        ) == binding_rows(src, pairs, base_col, last0, k),
    decreases n,
{
    let rk = binding_rows(src, pairs, base_col, last0, k);
    if n > k {
        lemma_binding_rows_prefix(src, pairs, base_col, last0, k, n - 1);
        let a = binding_rows(src, pairs, base_col, last0, n - 1);
        let b = binding_row(src, pairs, base_col, last0, n - 1);
        assert((a + b).take(rk.len() as int) =~= a.take(rk.len() as int));
    } else {
        assert(rk.take(rk.len() as int) =~= rk);
    }
}

/// The text of a binding whose name and value are one line each.
proof fn lemma_one_line_binding_row(src: Seq<char>, pairs: Seq<Pair>, base_col: int, last0: int, i: int)
    requires
        0 <= i < pairs.len(),
        !pairs[i].lh_string@.contains('\n'),
        !pairs[i].rh_string@.contains('\n'),
        trim_start_ws(pairs[i].rh_string@) == pairs[i].rh_string@,
    ensures
        binding_row(src, pairs, base_col, last0, i) == binding_lead(src, pairs, base_col, last0, i)
            + pairs[i].lh_string@ + spaces(binding_gap(src, pairs, base_col, pairs[i]) as nat)
            + pairs[i].rh_string@,
{
    reveal(binding_row);
}

/// Binding `i` of the aligned form stands at its place in `out`.
proof fn lemma_binding_in_output(out: Seq<char>, src: Seq<char>, pairs: Seq<Pair>, base_col: int, moved: Seq<Pair>, i: int)
    requires
        bindings_realign_input(out, src, pairs, base_col, moved),
        0 <= i < pairs.len(),
    ensures
        binding_rows(src, pairs, base_col, 0, i + 1).len() <= out.len(),
        binding_rows(src, pairs, base_col, 0, i + 1).len() == binding_rows(src, pairs, base_col, 0, i).len()
            + binding_row(src, pairs, base_col, 0, i).len(),
        forall|t: int|
            0 <= t < binding_row(src, pairs, base_col, 0, i).len() ==> out[binding_rows(
                src,
                pairs,
                base_col,
                0,
                i,
            ).len() + t] == #[trigger] binding_row(src, pairs, base_col, 0, i)[t],
        aligned_name_pos(src, pairs, base_col, i) + pairs[i].lh_string@.len() + binding_gap(
            src,
            pairs,
            base_col,
            pairs[i],
        ) + pairs[i].rh_string@.len() == binding_rows(src, pairs, base_col, 0, i + 1).len(),
{
    lemma_bindings_realign_facts(out, src, pairs, base_col, moved, i);
    let n = pairs.len() as int;
    let big = binding_rows(src, pairs, base_col, 0, n);
    let pi = binding_rows(src, pairs, base_col, 0, i).len() as int;
    let pn = binding_rows(src, pairs, base_col, 0, i + 1).len() as int;
    let row = binding_row(src, pairs, base_col, 0, i);
    lemma_binding_rows_prefix(src, pairs, base_col, 0, i + 1, n);
    assert(binding_rows(src, pairs, base_col, 0, i + 1) == binding_rows(src, pairs, base_col, 0, i) + row);
    assert forall|t: int| 0 <= t < row.len() implies out[pi + t] == row[t] by {
        assert(out.take(big.len() as int)[pi + t] == big[pi + t]);
        assert(big.take(pn)[pi + t] == binding_rows(src, pairs, base_col, 0, i + 1)[pi + t]);
    }
    assert(one_line_binding(src, pairs[i]));
    lemma_one_line_binding_row(src, pairs, base_col, 0, i);
}

/// The text before every binding after the first ends with a line feed.
#[verifier::spinoff_prover]
proof fn lemma_binding_lead_ends_line(src: Seq<char>, pairs: Seq<Pair>, i: int)
    requires
        0 < i < pairs.len(),
        bindings_in_order(src, pairs, 0),
        one_line_binding(src, pairs[i]),
        one_line_binding(src, pairs[i - 1]),
    ensures
        ({
            let seg = src.subrange(binding_end(src, pairs[i - 1]), row_line(src, pairs[i]));
            seg.len() > 0 && seg.last() == '\n'
        }),
{
    let p = pairs[i];
    let q = pairs[i - 1];
    assert(!binding_overlap(src, pairs, 0, i));
    lemma_char_index_facts(src, p.lh_start_byte as int);
    lemma_char_index_facts(src, q.rh_start_byte as int);
    lemma_char_index_facts(src, q.rh_end_byte as int);
    let e = binding_end(src, q);
    let l = row_line(src, p);
    crate::helpers::lemma_line_start_props(src, lhs_pos(src, p));
    assert(src[e - 1] == q.rh_string@[q.rh_string@.len() - 1]);
    assert(e < l);
}

/// The widest name depends only on the widths.
proof fn lemma_max_lh_width_same(a: Seq<Pair>, b: Seq<Pair>, k: int)
    requires
        0 <= k <= a.len(),
        a.len() == b.len(),
        forall|i: int| 0 <= i < a.len() ==> (#[trigger] a[i]).lh_width == b[i].lh_width,
    ensures
        max_lh_width(a, k) == max_lh_width(b, k),
    decreases k,
{
    if k > 0 {
        lemma_max_lh_width_same(a, b, k - 1);
        assert(a[k - 1].lh_width == b[k - 1].lh_width);
    }
}

/// In `out`, the names and values of `moved` take the columns of the first pass.
#[verifier::spinoff_prover]
#[verifier::rlimit(40)]
proof fn lemma_moved_columns(out: Seq<char>, src: Seq<char>, pairs: Seq<Pair>, base_col: int, moved: Seq<Pair>)
    requires
        bindings_realign_input(out, src, pairs, base_col, moved),
    ensures
        binding_lhs_col(out, moved, base_col) == binding_lhs_col(src, pairs, base_col),
        binding_value_col(out, moved, base_col) == binding_value_col(src, pairs, base_col),
{
    lemma_bindings_realign_size(out, src, pairs, base_col, moved);
    lemma_bindings_realign_facts(out, src, pairs, base_col, moved, 0);
    let p = pairs[0];
    assert(one_line_binding(src, p));
    lemma_char_index_facts(src, p.lh_start_byte as int);
    let ls = lhs_pos(src, p);
    lemma_binding_in_output(out, src, pairs, base_col, moved, 0);
    let row = binding_row(src, pairs, base_col, 0, 0);
    assert(binding_rows(src, pairs, base_col, 0, 0).len() == 0);
    assert(moved_binding(out, src, pairs, base_col, p, moved[0], aligned_name_pos(src, pairs, base_col, 0)));
    assert(lhs_pos(out, moved[0]) == ls);
    lemma_one_line_binding_row(src, pairs, base_col, 0, 0);
    assert(binding_lead(src, pairs, base_col, 0, 0) == src.subrange(0, ls));
    assert forall|t: int| 0 <= t < ls implies out.take(ls)[t] == src.take(ls)[t] by {
        assert(out[0 + t] == row[t]);
        assert(row[t] == src.subrange(0, ls)[t]);
    }
    assert(out.take(ls) =~= src.take(ls));
    crate::helpers::lemma_line_start_prefix(out, src, base_col, ls);
    assert forall|i: int| 0 <= i < pairs.len() implies (#[trigger] pairs[i]).lh_width == moved[i].lh_width by {
        lemma_bindings_realign_facts(out, src, pairs, base_col, moved, i);
        assert(moved_binding(out, src, pairs, base_col, pairs[i], moved[i], aligned_name_pos(src, pairs, base_col, i)));
    }
    lemma_max_lh_width_same(pairs, moved, pairs.len() as int);
}

/// In `out`, the line of binding `i > 0` of `moved` starts after the text
/// that the first pass kept before it.
#[verifier::spinoff_prover]
#[verifier::rlimit(40)]
proof fn lemma_realigned_binding_line(out: Seq<char>, src: Seq<char>, pairs: Seq<Pair>, base_col: int, moved: Seq<Pair>, i: int)
    requires
        bindings_realign_input(out, src, pairs, base_col, moved),
        0 < i < pairs.len(),
    ensures
        ({
            let pi = binding_rows(src, pairs, base_col, 0, i).len() as int;
            let seg = src.subrange(binding_end(src, pairs[i - 1]), row_line(src, pairs[i]));
            &&& seg.len() > 0
            &&& row_line(out, moved[i]) == pi + seg.len()
            &&& out.subrange(pi, pi + seg.len()) == seg
            &&& aligned_name_pos(src, pairs, base_col, i) == pi + seg.len() + binding_lhs_col(src, pairs, base_col)
        }),
{
    lemma_bindings_realign_facts(out, src, pairs, base_col, moved, i);
    lemma_bindings_realign_facts(out, src, pairs, base_col, moved, i - 1);
    let p = pairs[i];
    let pi = binding_rows(src, pairs, base_col, 0, i).len() as int;
    let row = binding_row(src, pairs, base_col, 0, i);
    lemma_binding_in_output(out, src, pairs, base_col, moved, i);
    lemma_one_line_binding_row(src, pairs, base_col, 0, i);
    let lhs_col = binding_lhs_col(src, pairs, base_col);
    assert(lhs_col >= 0) by {
        lemma_char_index_facts(src, pairs[0].lh_start_byte as int);
        lemma_line_start_bounds(src, lhs_pos(src, pairs[0]));
    }
    lemma_binding_lead_ends_line(src, pairs, i);
    let seg = src.subrange(binding_end(src, pairs[i - 1]), row_line(src, p));
    let rest = p.lh_string@ + spaces(binding_gap(src, pairs, base_col, p) as nat) + p.rh_string@;
    let head = seg + spaces(lhs_col as nat);
    assert(binding_lead(src, pairs, base_col, 0, i) == head);
    assert(row =~= head + rest);
    assert(row.take(seg.len() + lhs_col) =~= head);
    assert(0 <= pi);
    assert(pi + row.len() <= out.len());
    assert(seg.len() + lhs_col <= row.len());
    lemma_line_after_lead(out, row, seg, pi, lhs_col);
    assert(aligned_name_pos(src, pairs, base_col, i) == pi + head.len());
    assert(lhs_pos(out, moved[i]) == pi + head.len());
    assert(head.len() == seg.len() + lhs_col);
    assert(row_line(out, moved[i]) == line_start(out, pi + seg.len() + lhs_col));
    assert(row_line(out, moved[i]) == pi + seg.len());
    assert(out.subrange(pi, pi + seg.len()) == seg);

}

/// When `out` holds `row`, which begins with `seg` (ending with a line feed)
/// and `n` spaces, from position `pi`, the line of the position after the
/// spaces starts right after `seg`.
proof fn lemma_line_after_lead(out: Seq<char>, row: Seq<char>, seg: Seq<char>, pi: int, n: int)
    requires
        0 <= pi,
        0 <= n,
        seg.len() > 0,
        seg.last() == '\n',
        pi + row.len() <= out.len(),
        seg.len() + n <= row.len(),
        row.take(seg.len() + n) == seg + spaces(n as nat),
        forall|t: int| 0 <= t < row.len() ==> out[pi + t] == #[trigger] row[t],
    ensures
        line_start(out, pi + seg.len() + n) == pi + seg.len(),
        out.subrange(pi, pi + seg.len()) == seg,
{
    let x = pi + seg.len();
    assert(row.take(seg.len() + n)[seg.len() - 1] == row[seg.len() - 1]);
    assert(out[pi + (seg.len() - 1)] == row[seg.len() - 1]);
    assert forall|t: int| x <= t < x + n implies out[t] != '\n' by {
        assert(out[pi + (t - pi)] == row[t - pi]);
        assert(row.take(seg.len() + n)[t - pi] == row[t - pi]);
    }
    crate::helpers::lemma_line_start_at(out, x, x + n);
    assert forall|t: int| 0 <= t < seg.len() implies out.subrange(pi, x)[t] == seg[t] by {
        assert(out[pi + t] == row[t]);
        assert(row.take(seg.len() + n)[t] == row[t]);
    }
    assert(out.subrange(pi, x) =~= seg);
}

/// Binding `i`, aligned again, is the same text, and ends where it ended.
#[verifier::spinoff_prover]
#[verifier::rlimit(40)]
proof fn lemma_realigned_binding(out: Seq<char>, src: Seq<char>, pairs: Seq<Pair>, base_col: int, moved: Seq<Pair>, i: int)
    requires
        bindings_realign_input(out, src, pairs, base_col, moved),
        0 <= i < pairs.len(),
    ensures
        binding_row(out, moved, base_col, 0, i) == binding_row(src, pairs, base_col, 0, i),
        binding_end(out, moved[i]) == binding_rows(src, pairs, base_col, 0, i + 1).len(),
        lhs_pos(out, moved[i]) == aligned_name_pos(src, pairs, base_col, i),
        i > 0 ==> row_line(out, moved[i]) > binding_rows(src, pairs, base_col, 0, i).len(),
        i > 0 ==> row_line(out, moved[i]) <= aligned_name_pos(src, pairs, base_col, i),
        aligned_name_pos(src, pairs, base_col, i) < binding_rows(src, pairs, base_col, 0, i + 1).len(),
{
    lemma_bindings_realign_facts(out, src, pairs, base_col, moved, i);
    if i > 0 {
        lemma_bindings_realign_facts(out, src, pairs, base_col, moved, (i - 1));
    }
    let p = pairs[i];
    let q = moved[i];
    let pi = binding_rows(src, pairs, base_col, 0, i).len() as int;
    let row = binding_row(src, pairs, base_col, 0, i);
    let lead = binding_lead(src, pairs, base_col, 0, i);
    assert(one_line_binding(src, p));
    assert(moved_binding(out, src, pairs, base_col, p, q, aligned_name_pos(src, pairs, base_col, i)));
    lemma_binding_in_output(out, src, pairs, base_col, moved, i);
    lemma_one_line_binding_row(src, pairs, base_col, 0, i);
    lemma_moved_columns(out, src, pairs, base_col, moved);
    if i == 0 {
        lemma_char_index_facts(src, p.lh_start_byte as int);
        assert forall|t: int| 0 <= t < lead.len() implies out.subrange(0, lhs_pos(out, q))[t] == lead[t] by {
            assert(out[0 + t] == row[t]);
        }
        assert(out.subrange(0, lhs_pos(out, q)) =~= lead);
    } else {
        lemma_realigned_binding_line(out, src, pairs, base_col, moved, i);
        assert(moved_binding(out, src, pairs, base_col, pairs[i - 1], moved[i - 1], aligned_name_pos(src, pairs, base_col, i - 1)));
        lemma_binding_in_output(out, src, pairs, base_col, moved, i - 1);
        assert(binding_lead(out, moved, base_col, 0, i) == lead);
    }
    lemma_one_line_binding_row(out, moved, base_col, 0, i);
}

/// The bindings, aligned again, are the same text.
proof fn lemma_realigned_bindings(out: Seq<char>, src: Seq<char>, pairs: Seq<Pair>, base_col: int, moved: Seq<Pair>, k: int)
    requires
        bindings_realign_input(out, src, pairs, base_col, moved),
        0 <= k <= pairs.len(),
    ensures
        binding_rows(out, moved, base_col, 0, k) == binding_rows(src, pairs, base_col, 0, k),
    decreases k,
{
    if k > 0 {
        lemma_realigned_bindings(out, src, pairs, base_col, moved, k - 1);
        lemma_realigned_binding(out, src, pairs, base_col, moved, k - 1);
    }
}

/// The bindings stay in order when aligned again.
proof fn lemma_realigned_bindings_in_order(out: Seq<char>, src: Seq<char>, pairs: Seq<Pair>, base_col: int, moved: Seq<Pair>)
    requires
        bindings_realign_input(out, src, pairs, base_col, moved),
    ensures
        bindings_in_order(out, moved, 0),
{
    lemma_bindings_realign_size(out, src, pairs, base_col, moved);
    assert forall|i: int| 0 <= i < moved.len() implies !binding_overlap(out, moved, 0, i) by {
        lemma_bindings_realign_facts(out, src, pairs, base_col, moved, i);
        lemma_realigned_binding(out, src, pairs, base_col, moved, i);
        lemma_char_index_facts(out, moved[i].lh_start_byte as int);
        lemma_line_start_bounds(out, lhs_pos(out, moved[i]));
        if i > 0 {
            lemma_bindings_realign_facts(out, src, pairs, base_col, moved, i - 1);
            lemma_realigned_binding(out, src, pairs, base_col, moved, i - 1);
            lemma_char_index_facts(out, moved[i - 1].lh_start_byte as int);
            lemma_line_start_bounds(out, lhs_pos(out, moved[i - 1]));
            lemma_binding_in_output(out, src, pairs, base_col, moved, i - 1);
        }
    }
}


/// `n2` is body form `j` as it stands in the aligned form `out`, whose body
/// starts at `front`: it starts after the text kept before it and the
/// indentation, and spans the same text.
pub open spec fn moved_body_form(
    out: Seq<char>,
    src: Seq<char>,
    nodes: Seq<SyntaxNode>,
    kids: Seq<usize>,
    base_col: int,
    last0: int,
    front: int,
    n2: SyntaxNode,
    j: int,
) -> bool {
    let start = front + body_rows(src, nodes, kids, base_col, last0, j).len() + body_lead(
        src,
        nodes,
        kids,
        last0,
        j,
    ).len() + base_col + 2;
    &&& is_char_boundary(out, n2.start_byte as int)
    &&& char_index(out, n2.start_byte as int) == start
    &&& is_char_boundary(out, n2.end_byte as int)
    &&& char_index(out, n2.end_byte as int) == start + node_chars(src, nodes[kids[j] as int]).len()
}

/// What the law of re-alignment assumes of the body: its forms are one line
/// each and in order, the text before the first does not end a line, and
/// `nodes2` holds them where they stand in `out`.
#[verifier::opaque]
pub open spec fn body_realign_input(
    out: Seq<char>,
    src: Seq<char>,
    base_col: int,
    nodes: Seq<SyntaxNode>,
    kids: Seq<usize>,
    last0: int,
    front: int,
    nodes2: Seq<SyntaxNode>,
    kids2: Seq<usize>,
) -> bool {
    let body = body_rows(src, nodes, kids, base_col, last0, kids.len() as int);
    &&& 0 <= base_col
    &&& 0 < last0 <= src.len()
    &&& src[last0 - 1] != '\n'
    &&& kids.len() >= 2
    &&& body_in_order(src, nodes, kids, last0)
    &&& forall|j: int|
        2 <= j < kids.len() ==> {
            &&& (#[trigger] kids[j]) < nodes.len()
            &&& node_in_text(src, nodes[kids[j] as int])
            &&& node_chars(src, nodes[kids[j] as int]).len() > 0
            &&& !node_chars(src, nodes[kids[j] as int]).contains('\n')
        }
    &&& kids2.len() == kids.len()
    &&& forall|j: int|
        2 <= j < kids2.len() ==> moved_body_form(
            out,
            src,
            nodes,
            kids,
            base_col,
            last0,
            front,
            nodes2[#[trigger] kids2[j] as int],
            j,
        )
    &&& 0 <= front
    &&& front + body.len() <= out.len()
    &&& out.subrange(front, front + body.len()) == body
}

/// The facts that the body input gives about form `j`.
proof fn lemma_body_realign_facts(
    out: Seq<char>,
    src: Seq<char>,
    base_col: int,
    nodes: Seq<SyntaxNode>,
    kids: Seq<usize>,
    last0: int,
    front: int,
    nodes2: Seq<SyntaxNode>,
    kids2: Seq<usize>,
    j: int,
)
    requires
        body_realign_input(out, src, base_col, nodes, kids, last0, front, nodes2, kids2),
        2 <= j < kids.len(),
    ensures
        0 <= base_col,
        0 < last0 <= src.len(),
        src[last0 - 1] != '\n',
        body_in_order(src, nodes, kids, last0),
        kids[j] < nodes.len(),
        node_in_text(src, nodes[kids[j] as int]),
        node_chars(src, nodes[kids[j] as int]).len() > 0,
        !node_chars(src, nodes[kids[j] as int]).contains('\n'),
        j > 2 ==> node_in_text(src, nodes[kids[j - 1] as int]),
        j > 2 ==> node_chars(src, nodes[kids[j - 1] as int]).len() > 0,
        j > 2 ==> !node_chars(src, nodes[kids[j - 1] as int]).contains('\n'),
        kids2.len() == kids.len(),
        moved_body_form(out, src, nodes, kids, base_col, last0, front, nodes2[kids2[j] as int], j),
        j > 2 ==> moved_body_form(out, src, nodes, kids, base_col, last0, front, nodes2[kids2[j - 1] as int], j - 1),
        0 <= front,
        front + body_rows(src, nodes, kids, base_col, last0, kids.len() as int).len() <= out.len(),
        out.subrange(front, front + body_rows(src, nodes, kids, base_col, last0, kids.len() as int).len())
            == body_rows(src, nodes, kids, base_col, last0, kids.len() as int),
{
    reveal(body_realign_input);
    if j > 2 {
        assert(kids[j - 1] < nodes.len());
        assert(moved_body_form(out, src, nodes, kids, base_col, last0, front, nodes2[kids2[j - 1] as int], j - 1));
    }
}

/// The text of the first `k` body forms begins the text of the first `n`.
proof fn lemma_body_rows_prefix(src: Seq<char>, nodes: Seq<SyntaxNode>, kids: Seq<usize>, base_col: int, last0: int, k: int, n: int)
    requires
        0 <= k <= n,
    ensures
        body_rows(src, nodes, kids, base_col, last0, k).len() <= body_rows(src, nodes, kids, base_col, last0, n).len(),
        body_rows(src, nodes, kids, base_col, last0, n).take(
            body_rows(src, nodes, kids, base_col, last0, k).len() as int,
        ) == body_rows(src, nodes, kids, base_col, last0, k),
    decreases n,
{
    let rk = body_rows(src, nodes, kids, base_col, last0, k);
    if n > k && n > 2 {
        lemma_body_rows_prefix(src, nodes, kids, base_col, last0, k, n - 1);
        let a = body_rows(src, nodes, kids, base_col, last0, n - 1);
        let b = body_row(src, nodes, kids, base_col, last0, n - 1);
        assert((a + b).take(rk.len() as int) =~= a.take(rk.len() as int));
    } else {
        assert(rk.take(rk.len() as int) =~= rk);
    }
}

/// The text of a body form of one line.
proof fn lemma_one_line_body_row(src: Seq<char>, nodes: Seq<SyntaxNode>, kids: Seq<usize>, base_col: int, last0: int, j: int)
    requires
        !node_chars(src, nodes[kids[j] as int]).contains('\n'),
    ensures
        body_row(src, nodes, kids, base_col, last0, j) == body_lead(src, nodes, kids, last0, j)
            + spaces((base_col + 2) as nat) + node_chars(src, nodes[kids[j] as int]),
{
    reveal(body_row);
    crate::helpers::lemma_shift_block_one_line(
        node_chars(src, nodes[kids[j] as int]),
        base_col + 2 - absolute_col(src, base_col, body_start(src, nodes, kids, j)),
    );
}

/// Body form `j` of the aligned form stands at its place in `out`.
proof fn lemma_body_in_output(
    out: Seq<char>,
    src: Seq<char>,
    base_col: int,
    nodes: Seq<SyntaxNode>,
    kids: Seq<usize>,
    last0: int,
    front: int,
    nodes2: Seq<SyntaxNode>,
    kids2: Seq<usize>,
    j: int,
)
    requires
        body_realign_input(out, src, base_col, nodes, kids, last0, front, nodes2, kids2),
        2 <= j < kids.len(),
    ensures
        front + body_rows(src, nodes, kids, base_col, last0, j + 1).len() <= out.len(),
        body_rows(src, nodes, kids, base_col, last0, j + 1).len() == body_rows(src, nodes, kids, base_col, last0, j).len()
            + body_row(src, nodes, kids, base_col, last0, j).len(),
        forall|t: int|
            0 <= t < body_row(src, nodes, kids, base_col, last0, j).len() ==> out[front + body_rows(
                src,
                nodes,
                kids,
                base_col,
                last0,
                j,
            ).len() + t] == #[trigger] body_row(src, nodes, kids, base_col, last0, j)[t],
{
    lemma_body_realign_facts(out, src, base_col, nodes, kids, last0, front, nodes2, kids2, j);
    let n = kids.len() as int;
    let big = body_rows(src, nodes, kids, base_col, last0, n);
    let pi = body_rows(src, nodes, kids, base_col, last0, j).len() as int;
    let pn = body_rows(src, nodes, kids, base_col, last0, j + 1).len() as int;
    let row = body_row(src, nodes, kids, base_col, last0, j);
    lemma_body_rows_prefix(src, nodes, kids, base_col, last0, j + 1, n);
    assert(body_rows(src, nodes, kids, base_col, last0, j + 1) == body_rows(src, nodes, kids, base_col, last0, j) + row);
    assert forall|t: int| 0 <= t < row.len() implies out[front + pi + t] == row[t] by {
        assert(out.subrange(front, front + big.len())[pi + t] == big[pi + t]);
        assert(big.take(pn)[pi + t] == body_rows(src, nodes, kids, base_col, last0, j + 1)[pi + t]);
    }
}

/// The text before every body form ends with a line feed.
#[verifier::spinoff_prover]
proof fn lemma_body_lead_ends_line(
    out: Seq<char>,
    src: Seq<char>,
    base_col: int,
    nodes: Seq<SyntaxNode>,
    kids: Seq<usize>,
    last0: int,
    front: int,
    nodes2: Seq<SyntaxNode>,
    kids2: Seq<usize>,
    j: int,
)
    requires
        body_realign_input(out, src, base_col, nodes, kids, last0, front, nodes2, kids2),
        2 <= j < kids.len(),
    ensures
        body_lead(src, nodes, kids, last0, j).len() > 0,
        body_lead(src, nodes, kids, last0, j).last() == '\n',
{
    lemma_body_realign_facts(out, src, base_col, nodes, kids, last0, front, nodes2, kids2, j);
    assert(!body_overlap(src, nodes, kids, last0, j));
    let n = nodes[kids[j] as int];
    lemma_char_index_facts(src, n.start_byte as int);
    let prev = body_prev_end(src, nodes, kids, last0, j);
    let start = body_start(src, nodes, kids, j);
    crate::helpers::lemma_line_start_props(src, start);
    if j > 2 {
        let m = nodes[kids[j - 1] as int];
        lemma_char_index_facts(src, m.start_byte as int);
        lemma_char_index_facts(src, m.end_byte as int);
        let t = node_chars(src, m);
        assert(src[prev - 1] == t[t.len() - 1]);
    }
    assert(prev > 0 && src[prev - 1] != '\n');
    assert(line_start(src, start) > prev);
}

/// Body form `j`, aligned again, is the same text, and ends where it ended.
#[verifier::spinoff_prover]
#[verifier::rlimit(40)]
proof fn lemma_realigned_body_form(
    out: Seq<char>,
    src: Seq<char>,
    base_col: int,
    nodes: Seq<SyntaxNode>,
    kids: Seq<usize>,
    last0: int,
    front: int,
    nodes2: Seq<SyntaxNode>,
    kids2: Seq<usize>,
    j: int,
)
    requires
        body_realign_input(out, src, base_col, nodes, kids, last0, front, nodes2, kids2),
        2 <= j < kids.len(),
    ensures
        body_row(out, nodes2, kids2, base_col, front, j) == body_row(src, nodes, kids, base_col, last0, j),
        char_index(out, nodes2[kids2[j] as int].end_byte as int) == front + body_rows(
            src,
            nodes,
            kids,
            base_col,
            last0,
            j + 1,
        ).len(),
        body_prev_end(out, nodes2, kids2, front, j) == front + body_rows(src, nodes, kids, base_col, last0, j).len(),
        body_start(out, nodes2, kids2, j) >= front + body_rows(src, nodes, kids, base_col, last0, j).len(),
        line_start(out, body_start(out, nodes2, kids2, j)) >= front + body_rows(src, nodes, kids, base_col, last0, j).len(),
{
    lemma_body_realign_facts(out, src, base_col, nodes, kids, last0, front, nodes2, kids2, j);
    lemma_body_in_output(out, src, base_col, nodes, kids, last0, front, nodes2, kids2, j);
    lemma_body_lead_ends_line(out, src, base_col, nodes, kids, last0, front, nodes2, kids2, j);
    lemma_one_line_body_row(src, nodes, kids, base_col, last0, j);
    let pi = front + body_rows(src, nodes, kids, base_col, last0, j).len();
    let row = body_row(src, nodes, kids, base_col, last0, j);
    let seg = body_lead(src, nodes, kids, last0, j);
    let text = node_chars(src, nodes[kids[j] as int]);
    let head = seg + spaces((base_col + 2) as nat);
    assert(row =~= head + text);
    assert(row.take(seg.len() + base_col + 2) =~= head);
    lemma_line_after_lead(out, row, seg, pi, base_col + 2);
    let n2 = nodes2[kids2[j] as int];
    let start2 = pi + head.len();
    assert(char_index(out, n2.start_byte as int) == start2);
    assert(char_index(out, n2.end_byte as int) == start2 + text.len());
    // the text of the form in `out`
    assert forall|t: int| 0 <= t < text.len() implies node_chars(out, n2)[t] == text[t] by {
        assert(out[pi + (head.len() + t)] == row[head.len() + t]);
    }
    assert(node_chars(out, n2) =~= text);
    // what precedes it
    if j > 2 {
        lemma_body_in_output(out, src, base_col, nodes, kids, last0, front, nodes2, kids2, j - 1);
        lemma_one_line_body_row(src, nodes, kids, base_col, last0, j - 1);
    }
    assert(body_prev_end(out, nodes2, kids2, front, j) == pi);
    assert(body_lead(out, nodes2, kids2, front, j) == seg);
    lemma_one_line_body_row(out, nodes2, kids2, base_col, front, j);
}

/// The body, aligned again, is the same text.
proof fn lemma_realigned_body_rows(
    out: Seq<char>,
    src: Seq<char>,
    base_col: int,
    nodes: Seq<SyntaxNode>,
    kids: Seq<usize>,
    last0: int,
    front: int,
    nodes2: Seq<SyntaxNode>,
    kids2: Seq<usize>,
    k: int,
)
    requires
        body_realign_input(out, src, base_col, nodes, kids, last0, front, nodes2, kids2),
        k <= kids.len(),
    ensures
        body_rows(out, nodes2, kids2, base_col, front, k) == body_rows(src, nodes, kids, base_col, last0, k),
    decreases k,
{
    if k > 2 {
        lemma_realigned_body_rows(out, src, base_col, nodes, kids, last0, front, nodes2, kids2, k - 1);
        lemma_realigned_body_form(out, src, base_col, nodes, kids, last0, front, nodes2, kids2, k - 1);
    }
}

/// The body stays in order when aligned again.
proof fn lemma_realigned_body_in_order(
    out: Seq<char>,
    src: Seq<char>,
    base_col: int,
    nodes: Seq<SyntaxNode>,
    kids: Seq<usize>,
    last0: int,
    front: int,
    nodes2: Seq<SyntaxNode>,
    kids2: Seq<usize>,
)
    requires
        body_realign_input(out, src, base_col, nodes, kids, last0, front, nodes2, kids2),
    ensures
        body_in_order(out, nodes2, kids2, front),
{
    reveal(body_realign_input);
    assert forall|j: int| 2 <= j < kids2.len() implies !body_overlap(out, nodes2, kids2, front, j) by {
        lemma_realigned_body_form(out, src, base_col, nodes, kids, last0, front, nodes2, kids2, j);
    }
}

/// What the law of re-alignment of a `let`-like form assumes: `nodes` is the
/// tree of `src`, which holds a `let`-like form whose bindings (`pairs`) and
/// body forms are one line each and in order, and whose binding vector does
/// not end a line; `moved` and `nodes2` (the tree of the aligned text) hold
/// the same bindings and body forms where they stand in the aligned text.
#[verifier::opaque]
pub open spec fn let_realign_input(
    src: Seq<char>,
    pairs: Seq<Pair>,
    base_col: int,
    nodes: Seq<SyntaxNode>,
    moved: Seq<Pair>,
    nodes2: Seq<SyntaxNode>,
) -> bool {
    let out = let_form_text(src, pairs, base_col, nodes);
    &&& 0 <= base_col
    &&& nodes.len() <= usize::MAX
    &&& tree_in_text(src, nodes)
    &&& let_form(nodes) is Some
    &&& let_form(nodes2) is Some
    &&& {
        let children = let_form(nodes)->0;
        let c2 = let_form(nodes2)->0;
        let kids = node_indices(children);
        let kids2 = node_indices(c2);
        let vec = nodes[children[1]];
        let vec_end = char_index(src, vec.end_byte as int);
        let front = (binding_rows(src, pairs, base_col, 0, pairs.len() as int).len() + binding_tail(
            src,
            pairs,
            vec_end,
        ).len()) as int;
        &&& pairs.len() > 0
        &&& bindings_in_order(src, pairs, 0)
        &&& body_in_order(src, nodes, kids, vec_end)
        &&& forall|i: int| 0 <= i < pairs.len() ==> one_line_binding(src, #[trigger] pairs[i])
        &&& node_chars(src, vec).len() > 0
        &&& node_chars(src, vec).last() != '\n'
        &&& forall|j: int|
            2 <= j < kids.len() ==> node_chars(src, nodes[#[trigger] kids[j] as int]).len() > 0
                && !node_chars(src, nodes[kids[j] as int]).contains('\n')
        &&& moved.len() == pairs.len()
        &&& forall|i: int|
            0 <= i < moved.len() ==> moved_binding(
                out,
                src,
                pairs,
                base_col,
                pairs[i],
                #[trigger] moved[i],
                aligned_name_pos(src, pairs, base_col, i),
            )
        &&& c2.len() == children.len()
        &&& is_char_boundary(out, nodes2[c2[1]].end_byte as int)
        &&& char_index(out, nodes2[c2[1]].end_byte as int) == front
        &&& forall|j: int|
            2 <= j < kids2.len() ==> moved_body_form(
                out,
                src,
                nodes,
                kids,
                base_col,
                vec_end,
                front,
                nodes2[#[trigger] kids2[j] as int],
                j,
            )
    }
}

/// The parts of the first alignment, and the inputs of the binding and body
/// laws, under the input of the law of re-alignment.
#[verifier::spinoff_prover]
#[verifier::rlimit(60)]
proof fn lemma_let_realign_prepare(
    src: Seq<char>,
    pairs: Seq<Pair>,
    base_col: int,
    nodes: Seq<SyntaxNode>,
    moved: Seq<Pair>,
    nodes2: Seq<SyntaxNode>,
)
    requires
        let_realign_input(src, pairs, base_col, nodes, moved, nodes2),
    ensures
        let_form(nodes) is Some,
        let_form(nodes2) is Some,
        ({
            let out = let_form_text(src, pairs, base_col, nodes);
            let children = let_form(nodes)->0;
            let c2 = let_form(nodes2)->0;
            let kids = node_indices(children);
            let kids2 = node_indices(c2);
            let vec_end_byte = nodes[children[1]].end_byte as int;
            let vec_end = char_index(src, vec_end_byte);
            let n = pairs.len() as int;
            let big = binding_rows(src, pairs, base_col, 0, n);
            let tail = binding_tail(src, pairs, vec_end);
            let front = (big.len() + tail.len()) as int;
            let body = body_rows(src, nodes, kids, base_col, vec_end, kids.len() as int);
            let rest = src.skip(char_index(src, body_end_byte(nodes, kids, vec_end_byte)));
            &&& n > 0
            &&& kids.len() >= 2
            &&& out == big + tail + body + rest
            &&& bindings_realign_input(out, src, pairs, base_col, moved)
            &&& body_realign_input(out, src, base_col, nodes, kids, vec_end, front, nodes2, kids2)
            &&& kids2.len() == kids.len()
            &&& char_index(out, nodes2[c2[1]].end_byte as int) == front
        }),
{
    reveal(let_realign_input);
    let out = let_form_text(src, pairs, base_col, nodes);
    let children = let_form(nodes)->0;
    let c2 = let_form(nodes2)->0;
    let kids = node_indices(children);
    let kids2 = node_indices(c2);
    let vec = nodes[children[1]];
    let vec_end_byte = vec.end_byte as int;
    let vec_end = char_index(src, vec_end_byte);
    let n = pairs.len() as int;
    let big = binding_rows(src, pairs, base_col, 0, n);
    let tail = binding_tail(src, pairs, vec_end);
    let front = (big.len() + tail.len()) as int;
    let body = body_rows(src, nodes, kids, base_col, vec_end, kids.len() as int);
    let rest = src.skip(char_index(src, body_end_byte(nodes, kids, vec_end_byte)));
    assert(out == big + tail + body + rest);
    // the nodes of the form are nodes of the tree
    named_children_in_tree(nodes, 0);
    content_children_in_tree(nodes, named_children(nodes, 0)[0]);
    assert(0 <= children[1] < nodes.len());
    assert(node_in_text(src, vec));
    lemma_char_index_facts(src, vec.start_byte as int);
    lemma_char_index_facts(src, vec_end_byte);
    assert(src[vec_end - 1] == node_chars(src, vec).last());
    // the bindings
    assert(out.take(big.len() as int) =~= big);
    assert(bindings_realign_input(out, src, pairs, base_col, moved)) by {
        reveal(bindings_realign_input);
    }
    // the body
    assert(body_realign_input(out, src, base_col, nodes, kids, vec_end, front, nodes2, kids2)) by {
        reveal(body_realign_input);
        assert forall|j: int| 2 <= j < kids.len() implies {
            &&& (#[trigger] kids[j]) < nodes.len()
            &&& node_in_text(src, nodes[kids[j] as int])
            &&& node_chars(src, nodes[kids[j] as int]).len() > 0
            &&& !node_chars(src, nodes[kids[j] as int]).contains('\n')
        } by {
            assert(0 <= children[j] < nodes.len());
        }
        assert(out.subrange(front, front + body.len() as int) =~= body);
    }
}

/// Aligning an aligned `let`-like form changes nothing: when its bindings and
/// body forms are one line each and in order (`let_realign_input`), the
/// aligned form, aligned again with the bindings and the tree of the aligned
/// text (where the same bindings and forms now stand), is the same text.
#[verifier::spinoff_prover]
#[verifier::rlimit(60)]
pub proof fn lemma_let_realign_keeps_text(
    src: Seq<char>,
    pairs: Seq<Pair>,
    base_col: int,
    nodes: Seq<SyntaxNode>,
    moved: Seq<Pair>,
    nodes2: Seq<SyntaxNode>,
)
    requires
        let_realign_input(src, pairs, base_col, nodes, moved, nodes2),
    ensures
        let_form_text(let_form_text(src, pairs, base_col, nodes), moved, base_col, nodes2)
            == let_form_text(src, pairs, base_col, nodes),
{
    lemma_let_realign_prepare(src, pairs, base_col, nodes, moved, nodes2);
    let out = let_form_text(src, pairs, base_col, nodes);
    let children = let_form(nodes)->0;
    let c2 = let_form(nodes2)->0;
    let kids = node_indices(children);
    let kids2 = node_indices(c2);
    let vec_end_byte = nodes[children[1]].end_byte as int;
    let vec_end = char_index(src, vec_end_byte);
    let n = pairs.len() as int;
    let big = binding_rows(src, pairs, base_col, 0, n);
    let tail = binding_tail(src, pairs, vec_end);
    let front = (big.len() + tail.len()) as int;
    let body = body_rows(src, nodes, kids, base_col, vec_end, kids.len() as int);
    let rest = src.skip(char_index(src, body_end_byte(nodes, kids, vec_end_byte)));
    lemma_realigned_bindings(out, src, pairs, base_col, moved, n);
    lemma_realigned_bindings_in_order(out, src, pairs, base_col, moved);
    lemma_realigned_binding(out, src, pairs, base_col, moved, n - 1);
    lemma_bindings_realign_size(out, src, pairs, base_col, moved);
    assert(moved.last() == moved[n - 1]);
    assert(binding_tail(out, moved, front) == tail) by {
        if big.len() < front {
            assert(out.subrange(big.len() as int, front) =~= tail);
        }
    }
    lemma_realigned_body_rows(out, src, base_col, nodes, kids, vec_end, front, nodes2, kids2, kids.len() as int);
    lemma_realigned_body_in_order(out, src, base_col, nodes, kids, vec_end, front, nodes2, kids2);
    // what follows the body
    let vb2 = nodes2[c2[1]].end_byte as int;
    let end2 = char_index(out, body_end_byte(nodes2, kids2, vb2));
    assert(end2 == front + body.len()) by {
        if kids.len() > 2 {
            lemma_realigned_body_form(
                out,
                src,
                base_col,
                nodes,
                kids,
                vec_end,
                front,
                nodes2,
                kids2,
                kids.len() - 1,
            );
        }
    }
    assert(out.skip(end2) =~= rest);
    lemma_let_form_text_parts(out, moved, base_col, nodes2, big, tail, body, rest);
}

/// The aligned text of a form that is in order is made of its parts.
proof fn lemma_let_form_text_parts(
    src: Seq<char>,
    pairs: Seq<Pair>,
    base_col: int,
    nodes: Seq<SyntaxNode>,
    bindings: Seq<char>,
    tail: Seq<char>,
    body: Seq<char>,
    rest: Seq<char>,
)
    requires
        let_form(nodes) is Some,
        ({
            let children = let_form(nodes)->0;
            let kids = node_indices(children);
            let vb = nodes[children[1]].end_byte as int;
            let vec_end = char_index(src, vb);
            &&& bindings_in_order(src, pairs, 0)
            &&& body_in_order(src, nodes, kids, vec_end)
            &&& binding_rows(src, pairs, base_col, 0, pairs.len() as int) == bindings
            &&& binding_tail(src, pairs, vec_end) == tail
            &&& body_rows(src, nodes, kids, base_col, vec_end, kids.len() as int) == body
            &&& src.skip(char_index(src, body_end_byte(nodes, kids, vb))) == rest
        }),
    ensures
        let_form_text(src, pairs, base_col, nodes) == bindings + tail + body + rest,
{
}

// ---------------------------------------------------------------------------
// What the aligner does, stated by what the output shows
// ---------------------------------------------------------------------------

/// The forms that the aligner takes are exactly the lists whose first form
/// (comments and discarded forms aside) is one of `let`, `when-let`, `if-let`,
/// `binding`, `loop`, `with-open` and `with-redefs`.
pub proof fn lemma_let_like_heads(src: Seq<char>, nodes: Seq<SyntaxNode>, node: int)
    ensures
        is_let_like(src, nodes, node) <==> {
            &&& nodes[node].kind@ == "list_lit"@
            &&& content_children(nodes, node).len() > 0
            &&& {
                let head = node_chars(src, nodes[content_children(nodes, node)[0]]);
                ||| head == "with-redefs"@
                ||| head == "with-open"@
                ||| head == "loop"@
                ||| head == "binding"@
                ||| head == "if-let"@
                ||| head == "when-let"@
                ||| head == "let"@
            }
        },
{
}

/// A list headed by `letfn` (or by any symbol of a length that none of the
/// let-like heads has) is not taken by the aligner.
pub proof fn lemma_other_heads_not_let_like(src: Seq<char>, nodes: Seq<SyntaxNode>, node: int)
    requires
        content_children(nodes, node).len() > 0,
        ({
            let n = node_chars(src, nodes[content_children(nodes, node)[0]]).len();
            n != 3 && n != 4 && n != 6 && n != 7 && n != 8 && n != 9 && n != 11
        }),
    ensures
        !is_let_like(src, nodes, node),
{
    reveal_strlit("let");
    reveal_strlit("when-let");
    reveal_strlit("if-let");
    reveal_strlit("binding");
    reveal_strlit("loop");
    reveal_strlit("with-open");
    reveal_strlit("with-redefs");
}

/// `letfn` is not one of the let-like heads.
pub proof fn lemma_letfn_not_let_like(src: Seq<char>, nodes: Seq<SyntaxNode>, node: int)
    requires
        content_children(nodes, node).len() > 0,
        node_chars(src, nodes[content_children(nodes, node)[0]]) == "letfn"@,
    ensures
        !is_let_like(src, nodes, node),
{
    reveal_strlit("letfn");
    lemma_other_heads_not_let_like(src, nodes, node);
}

/// The width that extraction gives a name: its number of characters when it
/// is one line; when it spans several lines (and does not end with a line
/// feed), the number of characters after its last line feed.
pub proof fn lemma_name_width(p: Pair, src: Seq<char>, lhs: SyntaxNode, rhs: SyntaxNode, col: int)
    requires
        is_binding_pair(p, src, lhs, rhs, col),
    ensures
        ({
            let t = node_chars(src, lhs);
            &&& !t.contains('\n') ==> p.lh_width == t.len()
            &&& forall|k: int|
                0 <= k < t.len() && t[k] == '\n' && t.last() != '\n' && (forall|j: int|
                    k < j < t.len() ==> t[j] != '\n') ==> p.lh_width == t.len() - k - 1
        }),
{
    let t = node_chars(src, lhs);
    assert forall|k: int|
        0 <= k < t.len() && t[k] == '\n' && t.last() != '\n' && (forall|j: int|
            k < j < t.len() ==> t[j] != '\n') implies p.lh_width == t.len() - k - 1 by {
        assert(t.contains('\n'));
        crate::helpers::lemma_line_start_at(t, k + 1, t.len() as int);
    }
}

/// The text of binding `i` starts with what it keeps of the text before it,
/// then its name.
proof fn lemma_binding_row_head(src: Seq<char>, pairs: Seq<Pair>, base_col: int, last0: int, i: int)
    ensures
        binding_row(src, pairs, base_col, last0, i).take(
            (binding_lead(src, pairs, base_col, last0, i).len() + pairs[i].lh_string@.len()) as int,
        ) == binding_lead(src, pairs, base_col, last0, i) + pairs[i].lh_string@,
        binding_lead(src, pairs, base_col, last0, i).len() + pairs[i].lh_string@.len()
            <= binding_row(src, pairs, base_col, last0, i).len(),
{
    reveal(binding_row);
    let lead = binding_lead(src, pairs, base_col, last0, i);
    let row = binding_row(src, pairs, base_col, last0, i);
    assert(row.take((lead.len() + pairs[i].lh_string@.len()) as int) =~= lead + pairs[i].lh_string@);
}

/// Binding `i` stands at its place in the text of the first `n` bindings.
proof fn lemma_binding_rows_at(src: Seq<char>, pairs: Seq<Pair>, base_col: int, last0: int, i: int, n: int)
    requires
        0 <= i < n,
    ensures
        binding_rows(src, pairs, base_col, last0, i).len() + binding_row(src, pairs, base_col, last0, i).len()
            <= binding_rows(src, pairs, base_col, last0, n).len(),
        forall|t: int|
            0 <= t < binding_row(src, pairs, base_col, last0, i).len() ==> binding_rows(
                src,
                pairs,
                base_col,
                last0,
                n,
            )[binding_rows(src, pairs, base_col, last0, i).len() + t] == #[trigger] binding_row(
                src,
                pairs,
                base_col,
                last0,
                i,
            )[t],
{
    let big = binding_rows(src, pairs, base_col, last0, n);
    let pi = binding_rows(src, pairs, base_col, last0, i).len() as int;
    let row = binding_row(src, pairs, base_col, last0, i);
    let pn = binding_rows(src, pairs, base_col, last0, i + 1).len() as int;
    lemma_binding_rows_prefix(src, pairs, base_col, last0, i + 1, n);
    assert(binding_rows(src, pairs, base_col, last0, i + 1) == binding_rows(src, pairs, base_col, last0, i) + row);
    assert forall|t: int| 0 <= t < row.len() implies big[pi + t] == row[t] by {
        assert(big.take(pn)[pi + t] == binding_rows(src, pairs, base_col, last0, i + 1)[pi + t]);
    }
}

/// What the law of the names' column assumes of the bindings: in order, each
/// name and value the text of its span with only whitespace between them, the
/// value not empty and not ending with a line feed.
pub open spec fn bindings_placed_in_text(src: Seq<char>, pairs: Seq<Pair>) -> bool {
    &&& pairs.len() > 0
    &&& bindings_in_order(src, pairs, 0)
    &&& forall|i: int|
        0 <= i < pairs.len() ==> {
            &&& crate::alignable::pair_spans_text(src, #[trigger] pairs[i])
            &&& binding_is_text(src, pairs[i])
            &&& pairs[i].rh_string@.len() > 0
            &&& pairs[i].rh_string@.last() != '\n'
        }
}

/// Binding `i > 0` keeps a text before it that ends a line.
proof fn lemma_binding_seg_ends_line(src: Seq<char>, pairs: Seq<Pair>, i: int)
    requires
        bindings_placed_in_text(src, pairs),
        0 < i < pairs.len(),
    ensures
        ({
            let seg = src.subrange(binding_end(src, pairs[i - 1]), row_line(src, pairs[i]));
            seg.len() > 0 && seg.last() == '\n'
        }),
{
    let p = pairs[i];
    let q = pairs[i - 1];
    assert(!binding_overlap(src, pairs, 0, i));
    assert(crate::alignable::pair_spans_text(src, p));
    assert(crate::alignable::pair_spans_text(src, q) && binding_is_text(src, q));
    lemma_char_index_facts(src, p.lh_start_byte as int);
    lemma_char_index_facts(src, q.rh_start_byte as int);
    lemma_char_index_facts(src, q.rh_end_byte as int);
    let e = binding_end(src, q);
    let l = row_line(src, p);
    crate::helpers::lemma_line_start_props(src, lhs_pos(src, p));
    assert(src[e - 1] == q.rh_string@[q.rh_string@.len() - 1]);
    assert(e < l);
}

/// Names line up: in the aligned binding vector, the name of every binding
/// stands at the column, counted from the column `base_col` at which the form
/// starts, where the first name stands in `src`.
#[verifier::spinoff_prover]
#[verifier::rlimit(40)]
pub proof fn lemma_names_line_up(src: Seq<char>, pairs: Seq<Pair>, base_col: int, i: int)
    requires
        0 <= base_col,
        bindings_placed_in_text(src, pairs),
        0 <= i < pairs.len(),
    ensures
        ({
            let out = binding_rows(src, pairs, base_col, 0, pairs.len() as int);
            let q = aligned_name_pos(src, pairs, base_col, i);
            let name = pairs[i].lh_string@;
            &&& 0 <= q
            &&& q + name.len() <= out.len()
            &&& out.subrange(q, q + name.len()) == name
            &&& absolute_col(out, base_col, q) == absolute_col(src, base_col, lhs_pos(src, pairs[0]))
        }),
{
    let n = pairs.len() as int;
    let out = binding_rows(src, pairs, base_col, 0, n);
    let q = aligned_name_pos(src, pairs, base_col, i);
    let name = pairs[i].lh_string@;
    let pi = binding_rows(src, pairs, base_col, 0, i).len() as int;
    let row = binding_row(src, pairs, base_col, 0, i);
    let lead = binding_lead(src, pairs, base_col, 0, i);
    lemma_binding_rows_at(src, pairs, base_col, 0, i, n);
    lemma_binding_row_head(src, pairs, base_col, 0, i);
    assert forall|t: int| 0 <= t < lead.len() + name.len() implies out[pi + t] == (lead + name)[t] by {
        assert(row.take((lead.len() + name.len()) as int)[t] == row[t]);
    }
    assert(out.subrange(q, q + name.len()) =~= name) by {
        assert forall|t: int| 0 <= t < name.len() implies out.subrange(q, q + name.len())[t] == name[t] by {
            assert(out[pi + (lead.len() + t)] == (lead + name)[lead.len() + t]);
        }
    }
    let p0 = pairs[0];
    assert(crate::alignable::pair_spans_text(src, p0));
    lemma_char_index_facts(src, p0.lh_start_byte as int);
    let ls0 = lhs_pos(src, p0);
    let c = absolute_col(src, base_col, ls0);
    lemma_line_start_bounds(src, ls0);
    if i == 0 {
        assert(lead == src.subrange(0, ls0));
        assert(out.take(ls0) =~= src.take(ls0)) by {
            assert forall|t: int| 0 <= t < ls0 implies out.take(ls0)[t] == src.take(ls0)[t] by {
                assert(out[0 + t] == (lead + name)[t]);
            }
        }
        crate::helpers::lemma_line_start_prefix(out, src, base_col, ls0);
    } else {
        lemma_binding_seg_ends_line(src, pairs, i);
        let seg = src.subrange(binding_end(src, pairs[i - 1]), row_line(src, pairs[i]));
        assert(c >= 0);
        assert(lead == seg + spaces(c as nat));
        let x = pi + seg.len();
        assert(out[pi + (seg.len() - 1)] == (lead + name)[seg.len() - 1]);
        assert forall|t: int| x <= t < q implies out[t] != '\n' by {
            assert(out[pi + (t - pi)] == (lead + name)[t - pi]);
        }
        crate::helpers::lemma_line_start_at(out, x, q);
    }
}

/// Body forms keep their shape: in the aligned body, form `j` comes after the
/// indentation to column `base_col + 2`, and every later line of it moves by
/// as many columns as its first line, from the form's column in `src` to
/// `base_col + 2` (see `keeps_lines`).
pub proof fn lemma_body_form_moves_whole(
    src: Seq<char>,
    nodes: Seq<SyntaxNode>,
    children: Seq<usize>,
    base_col: int,
    last0: int,
    j: int,
)
    ensures
        exists|placed: Seq<char>|
            body_row(src, nodes, children, base_col, last0, j) == body_lead(src, nodes, children, last0, j)
                + spaces((base_col + 2) as nat) + placed && #[trigger] keeps_lines(
                node_chars(src, nodes[children[j] as int]),
                placed,
                base_col + 2 - absolute_col(src, base_col, body_start(src, nodes, children, j)),
            ),
{
    reveal(body_row);
    let t = node_chars(src, nodes[children[j] as int]);
    let d = base_col + 2 - absolute_col(src, base_col, body_start(src, nodes, children, j));
    crate::helpers::lemma_shift_block_keeps_lines(t, d);
    let placed = shift_block(t, d);
    assert(body_row(src, nodes, children, base_col, last0, j) == body_lead(src, nodes, children, last0, j)
        + spaces((base_col + 2) as nat) + placed);
}

/// Values keep their shape: in the aligned binding vector, binding `i` is its
/// kept text, its name, spaces, and its value; a value of one line loses its
/// leading whitespace, and every later line of a value that spans several
/// moves by as many columns as its first, from its column in `src` to the
/// values' column (see `keeps_lines`).
pub proof fn lemma_binding_value_moves_whole(src: Seq<char>, pairs: Seq<Pair>, base_col: int, last0: int, i: int)
    ensures
        exists|g: nat, v: Seq<char>|
            {
                &&& binding_row(src, pairs, base_col, last0, i) == binding_lead(src, pairs, base_col, last0, i)
                    + pairs[i].lh_string@ + spaces(g) + v
                &&& pairs[i].rh_string@.contains('\n') ==> keeps_lines(
                    pairs[i].rh_string@,
                    v,
                    binding_value_col(src, pairs, base_col) - absolute_col(src, base_col, rhs_pos(src, pairs[i])),
                )
                &&& !pairs[i].rh_string@.contains('\n') ==> v == trim_start_ws(pairs[i].rh_string@)
            },
{
    reveal(binding_row);
    let p = pairs[i];
    let d = binding_value_col(src, pairs, base_col) - absolute_col(src, base_col, rhs_pos(src, p));
    crate::helpers::lemma_shift_block_keeps_lines(p.rh_string@, d);
    let lhs_col = binding_lhs_col(src, pairs, base_col);
    let value_col = binding_value_col(src, pairs, base_col);
    let anchor = if lhs_multiline(p) {
        p.lh_width as int
    } else {
        lhs_col + p.lh_width
    };
    let g: nat = if value_col > anchor {
        (value_col - anchor) as nat
    } else {
        0
    };
    let v = if p.rh_string@.contains('\n') {
        shift_block(p.rh_string@, d)
    } else {
        trim_start_ws(p.rh_string@)
    };
    assert(binding_row(src, pairs, base_col, last0, i) == binding_lead(src, pairs, base_col, last0, i)
        + p.lh_string@ + spaces(g) + v);
}

/// The widest of the first `k` names is the width of one of them.
proof fn lemma_max_lh_width_attained(pairs: Seq<Pair>, k: int)
    requires
        0 < k <= pairs.len(),
    ensures
        exists|w: int| 0 <= w < k && max_lh_width(pairs, k) == pairs[w].lh_width,
    decreases k,
{
    if k > 1 {
        lemma_max_lh_width_attained(pairs, k - 1);
        let w = choose|w: int| 0 <= w < k - 1 && max_lh_width(pairs, k - 1) == pairs[w].lh_width;
        if pairs[k - 1].lh_width > max_lh_width(pairs, k - 1) {
            assert(max_lh_width(pairs, k) == pairs[k - 1].lh_width);
        } else {
            assert(max_lh_width(pairs, k) == pairs[w].lh_width);
        }
    } else {
        lemma_max_lh_width_nonneg(pairs, 0);
        assert(max_lh_width(pairs, 1) == pairs[0].lh_width);
    }
}

/// The values' column is one past the widest name, counted from the column
/// where the first name stands in `src` (the form starting at `base_col`): it
/// is `c + w + 1` for the width `w` of some name that no name is wider than.
pub proof fn lemma_value_column(src: Seq<char>, pairs: Seq<Pair>, base_col: int)
    requires
        pairs.len() > 0,
    ensures
        exists|k: int|
            0 <= k < pairs.len() && binding_value_col(src, pairs, base_col) == absolute_col(
                src,
                base_col,
                lhs_pos(src, pairs[0]),
            ) + pairs[k].lh_width + 1 && (forall|j: int|
                0 <= j < pairs.len() ==> #[trigger] pairs[j].lh_width <= pairs[k].lh_width),
{
    let n = pairs.len() as int;
    lemma_max_lh_width_attained(pairs, n);
    let k = choose|w: int| 0 <= w < n && max_lh_width(pairs, n) == pairs[w].lh_width;
    assert forall|j: int| 0 <= j < n implies #[trigger] pairs[j].lh_width <= pairs[k].lh_width by {
        lemma_max_lh_width(pairs, n, j);
    }
}

/// Body forms start two columns in from the form: when the body is in order
/// and the text before each body form ends a line (as it does when the
/// binding vector and the forms do not end with a line feed), form `j` stands
/// in the aligned body at column `base_col + 2` of its line.
pub proof fn lemma_body_form_column(
    src: Seq<char>,
    nodes: Seq<SyntaxNode>,
    children: Seq<usize>,
    base_col: int,
    last0: int,
    j: int,
)
    requires
        0 <= base_col,
        2 <= j,
        body_lead(src, nodes, children, last0, j).len() > 0,
        body_lead(src, nodes, children, last0, j).last() == '\n',
    ensures
        ({
            let row = body_row(src, nodes, children, base_col, last0, j);
            let q = body_lead(src, nodes, children, last0, j).len() + base_col + 2;
            &&& q <= row.len()
            &&& absolute_col(row, base_col, q) == base_col + 2
            &&& row.subrange(q, row.len() as int).len() > 0 ==> row[q] == node_chars(
                src,
                nodes[children[j] as int],
            )[0]
        }),
{
    reveal(body_row);
    let lead = body_lead(src, nodes, children, last0, j);
    let row = body_row(src, nodes, children, base_col, last0, j);
    let t = node_chars(src, nodes[children[j] as int]);
    let d = base_col + 2 - absolute_col(src, base_col, body_start(src, nodes, children, j));
    let x = lead.len() as int;
    let q = x + base_col + 2;
    assert(row == lead + spaces((base_col + 2) as nat) + shift_block(t, d));
    assert(row[x - 1] == '\n');
    assert forall|i: int| x <= i < q implies row[i] != '\n' by {
        assert(row[i] == spaces((base_col + 2) as nat)[i - x]);
    }
    crate::helpers::lemma_line_start_at(row, x, q);
    if row.subrange(q, row.len() as int).len() > 0 {
        crate::helpers::lemma_next_newline_bounds(t, 0);
        let e = crate::helpers::next_newline(t, 0);
        if e < t.len() {
            assert(shift_block(t, d)[0] == t[0]) by {
                if e == 0 {
                    assert(shift_block(t, d)[0] == '\n');
                }
            }
        }
    }
}

} // verus!
