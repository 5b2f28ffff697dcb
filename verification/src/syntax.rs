//! The syntax tree of a Clojure text, as tree-sitter's Clojure grammar parses
//! it, held as plain values: the nodes in preorder, each with the index of its
//! parent.
use vstd::prelude::*;
use crate::helpers::{
    byte_offset, byte_offset_of, char_index, char_pos, chars_of, is_char_boundary, lemma_char_index,
    lemma_line_start_bounds, lemma_utf8_len_take_step, lemma_utf8_len_take_strict, line_start,
    line_start_of, push_range, utf8_len, utf8_width_of,
};

verus! {

/// A node of the syntax tree.
#[derive(Clone, Copy, Debug)]
pub struct SyntaxNode {
    /// The grammar's name for the node, such as `list_lit` or `sym_lit`.
    pub kind: &'static str,
    /// Named nodes stand for rules of the grammar; the others for punctuation.
    pub named: bool,
    /// Byte offset where the node starts.
    pub start_byte: usize,
    /// Byte offset where the node ends.
    pub end_byte: usize,
    /// Index of the parent node, `None` for the root.
    pub parent: Option<usize>,
}

/// A syntax tree: its nodes in preorder, the root first, and the children of
/// each node in the order of the text.
#[derive(Debug)]
pub struct SyntaxTree {
    pub nodes: Vec<SyntaxNode>,
}

/// The preorder nodes of the tree that tree-sitter's Clojure grammar gives for
/// a text, or `None` when the parser gives no tree.
pub uninterp spec fn clojure_tree(src: Seq<char>) -> Option<Seq<SyntaxNode>>;

/// Parses `src` with tree-sitter (`Parser::parse`, with the language of the
/// `tree-sitter-clojure` crate) and lists the nodes of the tree in preorder,
/// each with its kind, whether it is named, its byte span and the index of its
/// parent. The contract claims only that the outcome is the
/// one that `clojure_tree` names for `src`: it is a function of the text.
#[verifier::external_body]
pub fn get_tree(src: &str) -> (res: Option<SyntaxTree>)
    ensures
        res is None ==> clojure_tree(src@) is None,
        res matches Some(t) ==> clojure_tree(src@) == Some(t.nodes@),
{
    let mut parser = tree_sitter::Parser::new();
    parser.set_language(&tree_sitter_clojure::LANGUAGE.into()).ok()?;
    let tree = parser.parse(src, None)?;
    let mut nodes = Vec::new();
    let mut stack = vec![(tree.root_node(), None)];
    while let Some((n, parent)) = stack.pop() {
        let children: Vec<_> = n.children(&mut n.walk()).map(|c| (c, Some(nodes.len()))).collect();
        stack.extend(children.into_iter().rev());
        nodes.push(SyntaxNode { kind: n.kind(), named: n.is_named(), start_byte: n.start_byte(), end_byte: n.end_byte(), parent });
    }
    Some(SyntaxTree { nodes })
}

/// The node holds a comment or a form that the reader discards (`#_`).
pub open spec fn is_ignored_kind(n: SyntaxNode) -> bool {
    n.kind@ == "comment"@ || n.kind@ == "dis_expr"@
}

/// A named node that is neither a comment nor a discarded form.
pub open spec fn is_content(n: SyntaxNode) -> bool {
    n.named && !is_ignored_kind(n)
}

/// The indices, in order, of the nodes among the first `k` whose parent is
/// `parent` and that `keep` selects.
pub open spec fn children_upto(
    nodes: Seq<SyntaxNode>,
    parent: int,
    k: int,
    keep: spec_fn(SyntaxNode) -> bool,
) -> Seq<int>
    decreases k,
{
    if k <= 0 {
        Seq::empty()
    } else {
        let rest = children_upto(nodes, parent, k - 1, keep);
        let n = nodes[k - 1];
        if n.parent == Some(parent as usize) && keep(n) {
            rest.push(k - 1)
        } else {
            rest
        }
    }
}

/// The named children of node `parent`, in order.
pub open spec fn named_children(nodes: Seq<SyntaxNode>, parent: int) -> Seq<int> {
    children_upto(nodes, parent, nodes.len() as int, |n: SyntaxNode| n.named)
}

/// The named children of node `parent` that are neither comments nor
/// discarded forms, in order.
pub open spec fn content_children(nodes: Seq<SyntaxNode>, parent: int) -> Seq<int> {
    children_upto(nodes, parent, nodes.len() as int, |n: SyntaxNode| is_content(n))
}

/// Every node of `nodes` spans characters of `src`: both ends stand on
/// character boundaries, the start before the end.
pub open spec fn tree_in_text(src: Seq<char>, nodes: Seq<SyntaxNode>) -> bool {
    forall|i: int| 0 <= i < nodes.len() ==> node_in_text(src, #[trigger] nodes[i])
}

/// Every node comes after its parent and lies inside the parent's span.
pub open spec fn tree_nested(nodes: Seq<SyntaxNode>) -> bool {
    forall|i: int|
        0 <= i < nodes.len() ==> match (#[trigger] nodes[i]).parent {
            Some(p) => p < i && nodes[p as int].start_byte <= nodes[i].start_byte && nodes[i].end_byte
                <= nodes[p as int].end_byte,
            None => true,
        }
}

/// `nodes` is a tree of `src`: its nodes span characters of `src`, each inside
/// its parent.
pub open spec fn tree_of_text(src: Seq<char>, nodes: Seq<SyntaxNode>) -> bool {
    tree_in_text(src, nodes) && tree_nested(nodes)
}

/// `n` spans characters of `src`.
pub open spec fn node_in_text(src: Seq<char>, n: SyntaxNode) -> bool {
    &&& is_char_boundary(src, n.start_byte as int)
    &&& is_char_boundary(src, n.end_byte as int)
    &&& char_index(src, n.start_byte as int) <= char_index(src, n.end_byte as int)
}

/// The text of node `n` in `src`.
pub open spec fn node_chars(src: Seq<char>, n: SyntaxNode) -> Seq<char> {
    src.subrange(char_index(src, n.start_byte as int), char_index(src, n.end_byte as int))
}

/// Column of node `n` in `src`, counted in bytes from the start of its line
/// (as tree-sitter counts columns).
pub open spec fn node_byte_column(src: Seq<char>, n: SyntaxNode) -> int {
    n.start_byte - byte_offset(src, line_start(src, char_index(src, n.start_byte as int)))
}

/// The column of node `n` in `text`, counted in bytes from the start of its line.
pub fn node_column(text: &[char], n: &SyntaxNode) -> (r: usize)
    requires
        is_char_boundary(text@, n.start_byte as int),
    ensures
        r == node_byte_column(text@, *n),
{
    let k = char_pos(text, n.start_byte);
    let ls = line_start_of(text, k);
    proof {
        lemma_line_start_bounds(text@, k as int);
        if ls < k {
            lemma_utf8_len_take_strict(text@, ls as int, k as int);
        }
    }
    let sum = byte_offset_of(text, ls, n.start_byte);
    n.start_byte - sum
}

/// Whether `a` and `b` hold the same characters.
pub fn same_text(a: &str, b: &str) -> (r: bool)
    ensures
        r == (a@ == b@),
{
    let x = chars_of(a);
    let y = chars_of(b);
    if x.len() != y.len() {
        return false;
    }
    let mut i: usize = 0;
    while i < x.len()
        invariant
            x@ == a@,
            y@ == b@,
            x@.len() == y@.len(),
            i <= x@.len(),
            forall|j: int| 0 <= j < i ==> x@[j] == y@[j],
        decreases x.len() - i,
    {
        if x[i] != y[i] {
            return false;
        }
        i = i + 1;
    }
    assert(x@ =~= y@);
    true
}

/// Whether node `n` is neither a comment nor a discarded form, and is named.
pub fn is_content_node(n: &SyntaxNode) -> (r: bool)
    ensures
        r == is_content(*n),
{
    n.named && !same_text(n.kind, "comment") && !same_text(n.kind, "dis_expr")
}

/// The root of the tree: its first node, if any.
pub fn get_root_node(tree: &SyntaxTree) -> (r: Option<usize>)
    ensures
        r == (if tree.nodes@.len() == 0 {
            None::<usize>
        } else {
            Some(0usize)
        }),
{
    if tree.nodes.len() == 0 {
        None
    } else {
        Some(0)
    }
}

/// The named children of node `node`, in order.
pub fn named_children_of(tree: &SyntaxTree, node: usize) -> (r: Vec<usize>)
    ensures
        r@.len() == named_children(tree.nodes@, node as int).len(),
        forall|j: int| 0 <= j < r@.len() ==> r@[j] as int == named_children(tree.nodes@, node as int)[j],
{
    let ghost keep = |n: SyntaxNode| n.named;
    let mut r: Vec<usize> = Vec::new();
    let mut k: usize = 0;
    while k < tree.nodes.len()
        invariant
            k <= tree.nodes@.len(),
            keep == (|n: SyntaxNode| n.named),
            r@.len() == children_upto(tree.nodes@, node as int, k as int, keep).len(),
            forall|j: int| 0 <= j < r@.len() ==> r@[j] as int == children_upto(tree.nodes@, node as int, k as int, keep)[j],
        decreases tree.nodes.len() - k,
    {
        let n = &tree.nodes[k];
        if n.parent == Some(node) && n.named {
            r.push(k);
        }
        k = k + 1;
    }
    r
}

/// The `i`-th named child of node `node`, if there is one.
pub fn named_child(tree: &SyntaxTree, node: usize, i: usize) -> (r: Option<usize>)
    ensures
        r is Some <==> i < named_children(tree.nodes@, node as int).len(),
        r matches Some(c) ==> c as int == named_children(tree.nodes@, node as int)[i as int],
{
    let children = named_children_of(tree, node);
    if i < children.len() {
        Some(children[i])
    } else {
        None
    }
}

/// The children of node `node` that are named and neither comments nor
/// discarded forms (`#_`), in order.
pub fn non_comment_children(tree: &SyntaxTree, node: usize) -> (r: Vec<usize>)
    ensures
        r@.len() == content_children(tree.nodes@, node as int).len(),
        forall|j: int| 0 <= j < r@.len() ==> r@[j] as int == content_children(tree.nodes@, node as int)[j],
{
    let ghost keep = |n: SyntaxNode| is_content(n);
    let mut r: Vec<usize> = Vec::new();
    let mut k: usize = 0;
    while k < tree.nodes.len()
        invariant
            k <= tree.nodes@.len(),
            keep == (|n: SyntaxNode| is_content(n)),
            r@.len() == children_upto(tree.nodes@, node as int, k as int, keep).len(),
            forall|j: int| 0 <= j < r@.len() ==> r@[j] as int == children_upto(tree.nodes@, node as int, k as int, keep)[j],
        decreases tree.nodes.len() - k,
    {
        let n = &tree.nodes[k];
        if n.parent == Some(node) && is_content_node(n) {
            r.push(k);
        }
        k = k + 1;
    }
    r
}

/// The character position of byte offset `b` of `text`, when `b` stands on a
/// character boundary.
#[verifier::spinoff_prover]
#[verifier::rlimit(40)]
pub fn checked_char_pos(text: &[char], b: usize) -> (r: Option<usize>)
    ensures
        r is Some <==> is_char_boundary(text@, b as int),
        r matches Some(k) ==> k == char_index(text@, b as int),
{
    let mut k: usize = 0;
    let mut sum: usize = 0;
    while sum < b && k < text.len()
        invariant
            k <= text@.len(),
            sum <= b,
            sum == utf8_len(text@.take(k as int)),
        decreases text.len() - k,
    {
        proof {
            lemma_utf8_len_take_step(text@, k as int);
        }
        let w = utf8_width_of(text[k]);
        if w > b - sum {
            // `sum + w > b`: the boundary that follows `k` lies past `b`
            proof {
                assert(!is_char_boundary(text@, b as int)) by {
                    if is_char_boundary(text@, b as int) {
                        let c = choose|c: int| 0 <= c <= text@.len() && #[trigger] utf8_len(text@.take(c)) == b;
                        if c <= k {
                            if c < k {
                                lemma_utf8_len_take_strict(text@, c, k as int);
                            }
                        } else if c > k + 1 {
                            lemma_utf8_len_take_strict(text@, k + 1, c);
                        }
                    }
                }
            }
            return None;
        }
        sum = sum + w;
        k = k + 1;
    }
    if sum == b {
        proof {
            lemma_char_index(text@, b as int, k as int);
        }
        Some(k)
    } else {
        proof {
            assert(!is_char_boundary(text@, b as int)) by {
                if is_char_boundary(text@, b as int) {
                    let c = choose|c: int| 0 <= c <= text@.len() && #[trigger] utf8_len(text@.take(c)) == b;
                    if c < k {
                        lemma_utf8_len_take_strict(text@, c, k as int);
                    } else if c > k {
                        lemma_utf8_len_take_strict(text@, k as int, c);
                    }
                }
            }
        }
        None
    }
}

/// Whether every node of `tree` spans characters of `text`, inside its parent.
pub fn tree_fits_text(text: &[char], tree: &SyntaxTree) -> (r: bool)
    ensures
        r == tree_of_text(text@, tree.nodes@),
{
    if !tree_spans_text(text, tree) {
        return false;
    }
    let mut i: usize = 0;
    while i < tree.nodes.len()
        invariant
            i <= tree.nodes@.len(),
            forall|j: int|
                0 <= j < i ==> match (#[trigger] tree.nodes@[j]).parent {
                    Some(p) => p < j && tree.nodes@[p as int].start_byte <= tree.nodes@[j].start_byte
                        && tree.nodes@[j].end_byte <= tree.nodes@[p as int].end_byte,
                    None => true,
                },
        decreases tree.nodes.len() - i,
    {
        let n = &tree.nodes[i];
        match n.parent {
            Some(p) => {
                if p >= i {
                    return false;
                }
                let q = &tree.nodes[p];
                if q.start_byte > n.start_byte || n.end_byte > q.end_byte {
                    return false;
                }
            },
            None => {},
        }
        i = i + 1;
    }
    true
}

/// The byte offsets of the character positions of `text`, in order: those
/// of positions `0..offs.len()`, as far as they fit in `usize`.
pub open spec fn prefix_offsets(text: Seq<char>, offs: Seq<usize>) -> bool {
    &&& 1 <= offs.len() <= text.len() + 1
    &&& forall|k: int| 0 <= k < offs.len() ==> #[trigger] offs[k] == utf8_len(text.take(k))
    &&& offs.len() <= text.len() ==> utf8_len(text.take(offs.len() as int)) > usize::MAX
}

/// The byte offsets of the character positions of `text`, in one pass.
fn prefix_offsets_of(text: &[char]) -> (offs: Vec<usize>)
    ensures
        prefix_offsets(text@, offs@),
{
    let mut offs: Vec<usize> = Vec::new();
    offs.push(0);
    assert(text@.take(0) =~= Seq::<char>::empty());
    let mut k: usize = 0;
    let mut sum: usize = 0;
    while k < text.len()
        invariant
            k <= text@.len(),
            offs@.len() == k + 1,
            sum == utf8_len(text@.take(k as int)),
            forall|j: int| 0 <= j <= k ==> #[trigger] offs@[j] == utf8_len(text@.take(j)),
        decreases text.len() - k,
    {
        proof {
            lemma_utf8_len_take_step(text@, k as int);
        }
        let w = utf8_width_of(text[k]);
        if w > usize::MAX - sum {
            return offs;
        }
        sum = sum + w;
        k = k + 1;
        offs.push(sum);
    }
    offs
}

/// The character position of byte offset `b` of `text`, looked up among the
/// offsets `offs` of its positions.
#[verifier::spinoff_prover]
#[verifier::rlimit(40)]
fn lookup_char_pos(text: &[char], offs: &[usize], b: usize) -> (r: Option<usize>)
    requires
        prefix_offsets(text@, offs@),
    ensures
        r is Some <==> is_char_boundary(text@, b as int),
        r matches Some(k) ==> k == char_index(text@, b as int),
{
    let mut lo: usize = 0;
    let mut hi: usize = offs.len();
    while lo < hi
        invariant
            prefix_offsets(text@, offs@),
            lo <= hi <= offs@.len(),
            forall|j: int| 0 <= j < lo ==> offs@[j] < b,
            forall|j: int| hi <= j < offs@.len() ==> offs@[j] > b,
        decreases hi - lo,
    {
        let mid = lo + (hi - lo) / 2;
        let v = offs[mid];
        if v == b {
            proof {
                lemma_char_index(text@, b as int, mid as int);
            }
            return Some(mid);
        } else if v < b {
            proof {
                assert forall|j: int| 0 <= j <= mid implies offs@[j] < b by {
                    if j < mid {
                        lemma_utf8_len_take_strict(text@, j, mid as int);
                    }
                }
            }
            lo = mid + 1;
        } else {
            proof {
                assert forall|j: int| mid <= j < offs@.len() implies offs@[j] > b by {
                    if mid < j {
                        lemma_utf8_len_take_strict(text@, mid as int, j);
                    }
                }
            }
            hi = mid;
        }
    }
    proof {
        assert(!is_char_boundary(text@, b as int)) by {
            if is_char_boundary(text@, b as int) {
                let c = choose|c: int| 0 <= c <= text@.len() && #[trigger] utf8_len(text@.take(c)) == b;
                if c < offs@.len() {
                    assert(offs@[c] == b);
                } else {
                    let m = offs@.len() as int;
                    if m < c {
                        lemma_utf8_len_take_strict(text@, m, c);
                    }
                }
            }
        }
    }
    None
}

/// Whether every node of `tree` spans characters of `text`.
fn tree_spans_text(text: &[char], tree: &SyntaxTree) -> (r: bool)
    ensures
        r == tree_in_text(text@, tree.nodes@),
{
    let offs = prefix_offsets_of(text);
    let mut i: usize = 0;
    while i < tree.nodes.len()
        invariant
            prefix_offsets(text@, offs@),
            i <= tree.nodes@.len(),
            forall|j: int| 0 <= j < i ==> node_in_text(text@, #[trigger] tree.nodes@[j]),
        decreases tree.nodes.len() - i,
    {
        let n = &tree.nodes[i];
        match (lookup_char_pos(text, &offs, n.start_byte), lookup_char_pos(text, &offs, n.end_byte)) {
            (Some(s), Some(e)) => {
                if s > e {
                    assert(!node_in_text(text@, tree.nodes@[i as int]));
                    return false;
                }
            },
            _ => {
                assert(!node_in_text(text@, tree.nodes@[i as int]));
                return false;
            },
        }
        i = i + 1;
    }
    true
}

/// The text of node `node` of `tree` in `src`.
pub fn node_text(tree: &SyntaxTree, node: usize, src: &str) -> (r: String)
    requires
        node < tree.nodes@.len(),
        node_in_text(src@, tree.nodes@[node as int]),
    ensures
        r@ == node_chars(src@, tree.nodes@[node as int]),
{
    let text = chars_of(src);
    node_text_in(&text, &tree.nodes[node])
}

/// The text of node `n` in `text`.
pub fn node_text_in(text: &[char], n: &SyntaxNode) -> (r: String)
    requires
        node_in_text(text@, *n),
    ensures
        r@ == node_chars(text@, *n),
{
    let s = char_pos(text, n.start_byte);
    let e = char_pos(text, n.end_byte);
    let mut r = String::new();
    push_range(&mut r, text, s, e);
    assert(r@ =~= node_chars(text@, *n));
    r
}

/// The children that `children_upto` lists are among the first `k` nodes,
/// in increasing order.
pub proof fn lemma_children_upto_in_range(
    nodes: Seq<SyntaxNode>,
    parent: int,
    k: int,
    keep: spec_fn(SyntaxNode) -> bool,
)
    requires
        k <= nodes.len(),
    ensures
        forall|j: int|
            0 <= j < children_upto(nodes, parent, k, keep).len() ==> 0 <= #[trigger] children_upto(
                nodes,
                parent,
                k,
                keep,
            )[j] < k,
    decreases k,
{
    if k > 0 {
        lemma_children_upto_in_range(nodes, parent, k - 1, keep);
        let rest = children_upto(nodes, parent, k - 1, keep);
        let all = children_upto(nodes, parent, k, keep);
        assert forall|j: int| 0 <= j < all.len() implies 0 <= #[trigger] all[j] < k by {
            if j < rest.len() {
                assert(all[j] == rest[j]);
            }
        }
    }
}

/// The children that `children_upto` lists are exactly the nodes among the
/// first `k` whose parent is `parent` and that `keep` selects, in increasing
/// order.
#[verifier::spinoff_prover]
#[verifier::rlimit(40)]
pub proof fn lemma_children_upto_exact(
    nodes: Seq<SyntaxNode>,
    parent: int,
    k: int,
    keep: spec_fn(SyntaxNode) -> bool,
)
    requires
        0 <= k <= nodes.len(),
    ensures
        ({
            let c = children_upto(nodes, parent, k, keep);
            &&& forall|j: int|
                0 <= j < c.len() ==> 0 <= #[trigger] c[j] < k && nodes[c[j]].parent == Some(
                    parent as usize,
                ) && keep(nodes[c[j]])
            &&& forall|i: int|
                0 <= i < k && (#[trigger] nodes[i]).parent == Some(parent as usize) && keep(
                    nodes[i],
                ) ==> c.contains(i)
            &&& forall|j1: int, j2: int| 0 <= j1 < j2 < c.len() ==> c[j1] < c[j2]
        }),
    decreases k,
{
    if k > 0 {
        lemma_children_upto_exact(nodes, parent, k - 1, keep);
        let rest = children_upto(nodes, parent, k - 1, keep);
        let c = children_upto(nodes, parent, k, keep);
        if nodes[k - 1].parent == Some(parent as usize) && keep(nodes[k - 1]) {
            assert(c == rest.push(k - 1));
            assert(c[c.len() - 1] == k - 1);
            assert forall|i: int|
                0 <= i < k && (#[trigger] nodes[i]).parent == Some(parent as usize) && keep(
                    nodes[i],
                ) implies c.contains(i) by {
                if i < k - 1 {
                    let j = choose|j: int| 0 <= j < rest.len() && rest[j] == i;
                    assert(c[j] == i);
                } else {
                    assert(c[c.len() - 1] == i);
                }
            }
            assert forall|j: int| 0 <= j < c.len() implies 0 <= #[trigger] c[j] < k && nodes[c[j]].parent
                == Some(parent as usize) && keep(nodes[c[j]]) by {
                if j < rest.len() {
                    assert(c[j] == rest[j]);
                }
            }
            assert forall|j1: int, j2: int| 0 <= j1 < j2 < c.len() implies c[j1] < c[j2] by {
                if j2 < rest.len() {
                    assert(c[j1] == rest[j1] && c[j2] == rest[j2]);
                } else {
                    assert(c[j1] == rest[j1]);
                }
            }
        } else {
            assert forall|i: int|
                0 <= i < k && (#[trigger] nodes[i]).parent == Some(parent as usize) && keep(
                    nodes[i],
                ) implies c.contains(i) by {
                if i == k - 1 {
                    assert(false);
                }
            }
        }
    }
}

/// Comments and discarded forms (`#_`) are left out of the children that the
/// aligners see: `content_children` lists exactly the named children of `node`
/// that are neither, in the order of the text.
pub proof fn lemma_content_children_exact(nodes: Seq<SyntaxNode>, node: int)
    ensures
        ({
            let c = content_children(nodes, node);
            &&& forall|j: int|
                0 <= j < c.len() ==> 0 <= #[trigger] c[j] < nodes.len() && nodes[c[j]].parent
                    == Some(node as usize) && nodes[c[j]].named && !is_ignored_kind(nodes[c[j]])
            &&& forall|i: int|
                0 <= i < nodes.len() && (#[trigger] nodes[i]).parent == Some(node as usize)
                    && nodes[i].named && !is_ignored_kind(nodes[i]) ==> c.contains(i)
            &&& forall|j1: int, j2: int| 0 <= j1 < j2 < c.len() ==> c[j1] < c[j2]
        }),
{
    lemma_children_upto_exact(
        nodes,
        node,
        nodes.len() as int,
        |n: SyntaxNode| is_content(n),
    );
}

} // verus!
