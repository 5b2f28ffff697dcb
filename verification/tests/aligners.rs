use cljvindent_core::alignable::Alignable;
use cljvindent_core::aligners::generic_builder::{build_aligned_string, rendered_last_line_width};
use cljvindent_core::aligners::let_like::{
    build_aligned_let_binding_vec, build_aligned_let_body, build_aligned_let_string,
    extract_let_like_pairs, last_line_width, LetLikeAligner,
};
use cljvindent_core::engine::align_first_form;
use cljvindent_core::model::{AlignKind, Extracted, Pair};
use cljvindent_core::syntax::{get_tree, named_child, non_comment_children, SyntaxTree};

/// A pair for `lhs` and `rhs` as they stand in `src`, searched from byte `from`.
fn pair(src: &str, lhs: &str, rhs: &str, from: usize) -> Pair {
    let ls = src[from..].find(lhs).unwrap() + from;
    let le = ls + lhs.len();
    let (rs, re) = if rhs.is_empty() {
        (le, le)
    } else {
        let rs = src[le..].find(rhs).unwrap() + le;
        (rs, rs + rhs.len())
    };
    Pair {
        lh_width: lhs.chars().count(),
        lh_start_col: 0,
        lh_string: lhs.to_string(),
        rh_string: rhs.to_string(),
        lh_start_byte: ls,
        lh_end_byte: le,
        rh_start_byte: rs,
        rh_end_byte: re,
    }
}

/// The tree of `src` and the index of its first form.
fn tree_and_form(src: &str) -> (SyntaxTree, usize) {
    let tree = get_tree(src).unwrap();
    let form = named_child(&tree, 0, 0).unwrap();
    (tree, form)
}

/// Extracts the pairs of the `let`-like form `src` and aligns it.
fn align_let(src: &str, base_col: usize) -> String {
    let (tree, form) = tree_and_form(src);
    let pairs = extract_let_like_pairs(&tree, form, src).unwrap();
    build_aligned_let_string(src, &pairs, base_col)
}

#[test]
fn generic_aligns_map_entries() {
    let src = "{:a 1\n :bbb 2}";
    let pairs = vec![pair(src, ":a", "1", 0), pair(src, ":bbb", "2", 5)];
    assert_eq!(build_aligned_string(src, &pairs, 0), "{\n  :a   1\n  :bbb 2}");
}

#[test]
fn generic_indents_from_base_column() {
    let src = "{:a 1\n :bbb 2}";
    let pairs = vec![pair(src, ":a", "1", 0), pair(src, ":bbb", "2", 5)];
    assert_eq!(build_aligned_string(src, &pairs, 4), "{\n      :a   1\n      :bbb 2}");
}

#[test]
fn generic_without_pairs_keeps_text() {
    let src = "{:a 1\n :b 2}";
    assert_eq!(build_aligned_string(src, &[], 0), src);
}

#[test]
fn generic_rows_on_one_line_keep_text() {
    let src = "{:a 1 :b 2}";
    let pairs = vec![pair(src, ":a", "1", 0), pair(src, ":b", "2", 5)];
    assert_eq!(build_aligned_string(src, &pairs, 0), src);
}

#[test]
fn generic_reversed_rows_keep_text() {
    let src = "{:a 1\n :b 2}";
    let pairs = vec![pair(src, ":b", "2", 0), pair(src, ":a", "1", 0)];
    assert_eq!(build_aligned_string(src, &pairs, 0), src);
}

#[test]
fn generic_row_without_rhs() {
    let src = "(cond\n x 1\n :else)";
    let pairs = vec![pair(src, "x", "1", 0), pair(src, ":else", "", 0)];
    assert_eq!(build_aligned_string(src, &pairs, 0), "(cond\n  x 1\n  :else)");
}

#[test]
fn generic_no_rhs_at_all_uses_three_past_base() {
    let src = "[a\n b]";
    let pairs = vec![pair(src, "a", "", 0), pair(src, "b", "", 2)];
    assert_eq!(build_aligned_string(src, &pairs, 0), "[\n  a\n  b]");
}

#[test]
fn generic_multiline_lhs_and_rhs() {
    let src = "{(f\n x) (g\n y)}";
    let pairs = vec![pair(src, "(f\n x)", "(g\n y)", 0)];
    // the left-hand side moves from column 1 to 2, so its second line gains a
    // column; the right-hand side goes on the next line at column 4, where it
    // already stood, so its second line stays.
    assert_eq!(build_aligned_string(src, &pairs, 0), "{\n  (f\n  x)\n    (g\n y)}");
}

#[test]
fn generic_multiline_lhs_single_rhs() {
    let src = "{(f\n x) 1\n :b 2}";
    let pairs = vec![pair(src, "(f\n x)", "1", 0), pair(src, ":b", "2", 0)];
    // anchors: the last line of "(f\n x)" is 3 wide, ":b" ends at 4: values at
    // 5; the moved left-hand side ends at 4, one space before
    assert_eq!(build_aligned_string(src, &pairs, 0), "{\n  (f\n  x) 1\n  :b 2}");
}

#[test]
fn generic_trims_whitespace_before_first_row() {
    let src = "(cond   \n  a 1)";
    let pairs = vec![pair(src, "a", "1", 0)];
    assert_eq!(build_aligned_string(src, &pairs, 0), "(cond\n  a 1)");
}

#[test]
fn generic_counts_characters_not_bytes() {
    let src = "{:λ 1\n :bb 2}";
    let pairs = vec![pair(src, ":λ", "1", 0), pair(src, ":bb", "2", 0)];
    assert_eq!(build_aligned_string(src, &pairs, 0), "{\n  :λ  1\n  :bb 2}");
}

#[test]
fn last_line_widths() {
    assert_eq!(rendered_last_line_width("ab\ncde"), 3);
    assert_eq!(rendered_last_line_width("ab\r\n"), 2);
    assert_eq!(rendered_last_line_width("abc\n"), 3);
    assert_eq!(rendered_last_line_width(""), 0);
    assert_eq!(rendered_last_line_width("a\r"), 2);
    assert_eq!(last_line_width("x\nλλ"), 2);
    assert_eq!(last_line_width("\n"), 0);
}

#[test]
fn let_aligns_bindings_and_body() {
    let src = "(let [a 1\n      bbb 2]\n  (+ a bbb))";
    let pairs = vec![pair(src, "a", "1", 6), pair(src, "bbb", "2", 10)];
    assert_eq!(
        build_aligned_let_string(src, &pairs, 0),
        "(let [a   1\n      bbb 2]\n  (+ a bbb))"
    );
}

#[test]
fn let_realigns_ragged_bindings() {
    let src = "(let [x 1\n  yy   2\n z 3]\n    (println x))";
    assert_eq!(align_let(src, 0), "(let [x  1\n      yy 2\n      z  3]\n  (println x))");
}

#[test]
fn let_keeps_comments_between_bindings() {
    let src = "(let [a 1 ; one\n      b 2]\n  a)";
    assert_eq!(align_let(src, 0), src);
}

#[test]
fn let_skips_discarded_bindings() {
    let src = "(let [a 1\n #_ zz\n c 3]\n c)";
    let (tree, form) = tree_and_form(src);
    let pairs = extract_let_like_pairs(&tree, form, src).unwrap();
    assert_eq!(pairs.len(), 2);
    assert_eq!(pairs[1].lh_string, "c");
    assert_eq!(pairs[1].rh_string, "3");
}

#[test]
fn let_moves_multiline_values() {
    let src = "(let [a (f\n x)\n bb 2]\n a)";
    assert_eq!(align_let(src, 0), "(let [a  (f\n  x)\n      bb 2]\n  a)");
}

#[test]
fn loop_is_aligned_like_let() {
    let src = "(loop [i 0\n acc []]\n (recur i acc))";
    assert_eq!(align_let(src, 0), "(loop [i   0\n       acc []]\n  (recur i acc))");
}

#[test]
fn let_counts_characters_not_bytes() {
    let src = "(let [λ 1\n  xs 2]\n λ)";
    assert_eq!(align_let(src, 0), "(let [λ  1\n      xs 2]\n  λ)");
}

#[test]
fn let_indents_body_from_base_column() {
    let src = "(let [a 1]\n a)";
    assert_eq!(align_let(src, 3), "(let [a 1]\n     a)");
}

#[test]
fn let_without_pairs_keeps_text() {
    let src = "(let [a 1]\n a)";
    assert_eq!(build_aligned_let_string(src, &[], 0), src);
}

#[test]
fn let_builder_needs_a_list_with_a_vector() {
    let src = "[a 1\n b 2]";
    let pairs = vec![pair(src, "a", "1", 0), pair(src, "b", "2", 0)];
    assert_eq!(build_aligned_let_string(src, &pairs, 0), src);
    let src = "(let {a 1\n b 2})";
    let pairs = vec![pair(src, "a", "1", 0), pair(src, "b", "2", 0)];
    assert_eq!(build_aligned_let_string(src, &pairs, 0), src);
}

#[test]
fn let_bindings_on_one_line_keep_text() {
    let src = "(let [a 1 b 2]\n a)";
    assert_eq!(align_let(src, 0), src);
}

#[test]
fn extract_refuses_forms_without_bindings() {
    for src in ["(let [a] a)", "(let [] a)", "(let a)", "[let [a 1]]", "(let)"] {
        let (tree, form) = tree_and_form(src);
        assert!(extract_let_like_pairs(&tree, form, src).is_none(), "{}", src);
    }
}

#[test]
fn extract_gives_spans_and_widths() {
    let src = "(let [ab (f\n x)\n c 2] c)";
    let (tree, form) = tree_and_form(src);
    let pairs = extract_let_like_pairs(&tree, form, src).unwrap();
    assert_eq!(pairs.len(), 2);
    assert_eq!(pairs[0].lh_string, "ab");
    assert_eq!(pairs[0].lh_width, 2);
    assert_eq!(pairs[0].lh_start_col, 6);
    assert_eq!(pairs[0].rh_string, "(f\n x)");
    assert_eq!((pairs[0].lh_start_byte, pairs[0].lh_end_byte), (6, 8));
    assert_eq!((pairs[0].rh_start_byte, pairs[0].rh_end_byte), (9, 15));
    assert_eq!(pairs[1].lh_start_col, 6);
}

#[test]
fn binding_vec_builder_appends_and_returns_vector_end() {
    let src = "(let [a 1\n  bb 2]\n a)";
    let (tree, form) = tree_and_form(src);
    let children = non_comment_children(&tree, form);
    let binding_vec = tree.nodes[children[1]];
    let pairs = extract_let_like_pairs(&tree, form, src).unwrap();
    let mut out = String::from(">");
    let last = build_aligned_let_binding_vec(src, &pairs, 0, &mut out, 0, &binding_vec);
    assert_eq!(last, Some(binding_vec.end_byte));
    assert_eq!(out, ">(let [a  1\n      bb 2]");
    let end = build_aligned_let_body(src, 0, &mut out, &tree, &children, last.unwrap());
    assert_eq!(end, Some(tree.nodes[children[2]].end_byte));
    assert_eq!(out, ">(let [a  1\n      bb 2]\n  a)");
}

#[test]
fn binding_vec_builder_stops_at_a_binding_on_the_same_line() {
    let src = "(let [a 1\n b 2 c 3]\n a)";
    let (tree, form) = tree_and_form(src);
    let children = non_comment_children(&tree, form);
    let binding_vec = tree.nodes[children[1]];
    let pairs = extract_let_like_pairs(&tree, form, src).unwrap();
    let mut out = String::new();
    let last = build_aligned_let_binding_vec(src, &pairs, 0, &mut out, 0, &binding_vec);
    assert_eq!(last, None);
    // the first two bindings were written before the third was refused
    assert_eq!(out, "(let [a 1\n      b 2");
}

#[test]
fn body_builder_refuses_forms_out_of_order() {
    let src = "(let [a 1]\n a)";
    let (tree, form) = tree_and_form(src);
    let children = non_comment_children(&tree, form);
    let mut out = String::new();
    // starting past the body form
    let end = build_aligned_let_body(src, 0, &mut out, &tree, &children, src.len());
    assert_eq!(end, None);
    assert_eq!(out, "");
}

#[test]
fn body_builder_without_body_returns_start() {
    let src = "(let [a 1])";
    let (tree, form) = tree_and_form(src);
    let children = non_comment_children(&tree, form);
    let mut out = String::new();
    let end = build_aligned_let_body(src, 0, &mut out, &tree, &children, 10);
    assert_eq!(end, Some(10));
    assert_eq!(out, ")");
}

#[test]
fn aligner_matches_let_like_forms() {
    let aligner = LetLikeAligner;
    assert_eq!(aligner.kind(), AlignKind::LetLike);
    for (src, expected) in [
        ("(let [a 1] a)", true),
        ("(when-let [a 1] a)", true),
        ("(if-let [a 1] a b)", true),
        ("(binding [*a* 1] a)", true),
        ("(loop [a 1] a)", true),
        ("(with-open [a 1] a)", true),
        ("(with-redefs [a 1] a)", true),
        ("(; note\n let [a 1] a)", true),
        ("(defn f [a] a)", false),
        ("(lets [a 1] a)", false),
        ("[let [a 1] a]", false),
        ("()", false),
    ] {
        let (tree, form) = tree_and_form(src);
        assert_eq!(aligner.matches(&tree, form, src), expected, "{}", src);
    }
}

#[test]
fn aligner_extracts_and_builds() {
    let aligner = LetLikeAligner;
    let src = "(with-redefs [f g\n  hh i]\n (f))";
    let (tree, form) = tree_and_form(src);
    let extracted = aligner.extract(&tree, form, src).unwrap();
    let Extracted::Pairs(pairs) = &extracted;
    assert_eq!(pairs.len(), 2);
    assert_eq!(
        aligner.build(src, extracted, 0),
        "(with-redefs [f  g\n              hh i]\n  (f))"
    );
    let src = "(let [a] a)";
    let (tree, form) = tree_and_form(src);
    assert!(aligner.extract(&tree, form, src).is_none());
}

/// The text of `s` without its whitespace.
fn code_of(s: &str) -> String {
    s.chars().filter(|c| !c.is_whitespace()).collect()
}

/// The column, in characters, at which the first `needle` after byte `from`
/// of `s` starts.
fn column_of(s: &str, needle: &str, from: usize) -> usize {
    let at = s[from..].find(needle).unwrap() + from;
    let line = s[..at].rfind('\n').map(|i| i + 1).unwrap_or(0);
    s[line..at].chars().count()
}

#[test]
fn generic_alignment_changes_only_whitespace() {
    let src = "{:a 1\n   :bbb (f\n x)\n :c 3}";
    let pairs = vec![
        pair(src, ":a", "1", 0),
        pair(src, ":bbb", "(f\n x)", 0),
        pair(src, ":c", "3", 0),
    ];
    let out = build_aligned_string(src, &pairs, 2);
    assert_ne!(out, src);
    assert_eq!(code_of(&out), code_of(src));
}

#[test]
fn generic_values_start_in_one_column() {
    let src = "{:a 1\n   :bbbb 2\n :cc 3}";
    let pairs = vec![
        pair(src, ":a", "1", 0),
        pair(src, ":bbbb", "2", 0),
        pair(src, ":cc", "3", 0),
    ];
    let out = build_aligned_string(src, &pairs, 0);
    assert_eq!(out, "{\n  :a    1\n  :bbbb 2\n  :cc   3}");
    let c1 = column_of(&out, "1", 0);
    assert_eq!(c1, 8);
    assert_eq!(column_of(&out, "2", 0), c1);
    assert_eq!(column_of(&out, "3", 0), c1);
}

#[test]
fn let_alignment_changes_only_whitespace() {
    let src = "(let [x 1\n  yyy (g\n      z)\n z 3]\n    (println x)\n (f z))";
    let out = align_let(src, 0);
    assert_ne!(out, src);
    assert_eq!(code_of(&out), code_of(src));
}

#[test]
fn let_values_start_in_one_column() {
    let src = "(let [x 1\n  yyy 2\n z 3]\n x)";
    let out = align_let(src, 0);
    let c1 = column_of(&out, "1", 0);
    assert_eq!(c1, 10);
    assert_eq!(column_of(&out, "2", 0), c1);
    assert_eq!(column_of(&out, "3", 0), c1);
}

#[test]
fn generic_realigning_changes_nothing() {
    let src = "{:a 1\n   :bbbb 2\n :cc 3}";
    let pairs = vec![pair(src, ":a", "1", 0), pair(src, ":bbbb", "2", 0), pair(src, ":cc", "3", 0)];
    let out = build_aligned_string(src, &pairs, 0);
    let moved = vec![pair(&out, ":a", "1", 0), pair(&out, ":bbbb", "2", 0), pair(&out, ":cc", "3", 0)];
    assert_eq!(build_aligned_string(&out, &moved, 0), out);
}

#[test]
fn let_realigning_changes_nothing() {
    let src = "(let [x 1\n  yyy 2\n z 3]\n    (println x)\n (f z))";
    let out = align_let(src, 2);
    assert_ne!(out, src);
    assert_eq!(align_let(&out, 2), out);
}

#[test]
fn first_form_is_aligned_when_let_like() {
    let src = "(let [x 1\n  yyy 2]\n    x)";
    assert_eq!(align_first_form(src, 0), "(let [x   1\n      yyy 2]\n  x)");
    assert_eq!(align_first_form(src, 0), align_let(src, 0));
}

#[test]
fn first_form_other_forms_keep_text() {
    for src in ["(defn f [a]\n   a)", "{:a 1\n   :bb 2}", "", "(let [a] a)", "; only a comment"] {
        assert_eq!(align_first_form(src, 0), src, "{}", src);
    }
}

#[test]
fn first_form_without_room_for_columns_keeps_text() {
    let src = "(let [x 1\n  yyy 2]\n    x)";
    assert_eq!(align_first_form(src, usize::MAX - 10), src);
}
