use cljvindent_core::helpers::{
    absolute_col_in_slice, char_pos, chars_of, contains_newline, is_whitespace_char,
    line_start_byte, shift_multiline_block, utf8_width_of,
};
use cljvindent_core::syntax::{
    checked_char_pos, get_root_node, get_tree, named_child, node_column, node_text,
    non_comment_children, same_text, tree_fits_text, SyntaxNode, SyntaxTree,
};

#[test]
fn shift_moves_later_lines_right() {
    assert_eq!(shift_multiline_block("(a\n b\n\n c)", 2), "(a\n   b\n\n   c)");
}

#[test]
fn shift_moves_later_lines_left_over_spaces_only() {
    assert_eq!(shift_multiline_block("(a\n    b\n c\nd)", -2), "(a\n  b\nc\nd)");
}

#[test]
fn shift_by_zero_and_single_lines_keep_text() {
    assert_eq!(shift_multiline_block("(a\n b)", 0), "(a\n b)");
    assert_eq!(shift_multiline_block("  abc", 5), "  abc");
    assert_eq!(shift_multiline_block("", -3), "");
}

#[test]
fn shift_right_then_left_restores_block() {
    let block = "(f\n  x\n\n    y)";
    let moved = shift_multiline_block(block, 3);
    assert_eq!(moved, "(f\n     x\n\n       y)");
    assert_eq!(shift_multiline_block(&moved, -3), block);
}

#[test]
fn shift_by_most_negative_delta() {
    assert_eq!(shift_multiline_block("a\n   b", isize::MIN), "a\nb");
}

#[test]
fn byte_offsets_map_to_characters() {
    let text = chars_of("aλb");
    assert_eq!(text, vec!['a', 'λ', 'b']);
    assert_eq!(char_pos(&text, 0), 0);
    assert_eq!(char_pos(&text, 1), 1);
    assert_eq!(char_pos(&text, 3), 2);
    assert_eq!(char_pos(&text, 4), 3);
    assert_eq!(checked_char_pos(&text, 2), None);
    assert_eq!(checked_char_pos(&text, 3), Some(2));
    assert_eq!(checked_char_pos(&text, 5), None);
    assert_eq!(utf8_width_of('a'), 1);
    assert_eq!(utf8_width_of('λ'), 2);
    assert_eq!(utf8_width_of('€'), 3);
    assert_eq!(utf8_width_of('😀'), 4);
}

#[test]
fn line_starts_and_columns() {
    let src = "ab\nλc";
    assert_eq!(line_start_byte(src, 5), 3);
    assert_eq!(line_start_byte(src, 1), 0);
    assert_eq!(absolute_col_in_slice(src, 4, 5), 1);
    assert_eq!(absolute_col_in_slice(src, 4, 1), 5);
}

#[test]
fn whitespace_and_newlines() {
    assert!(is_whitespace_char(' '));
    assert!(is_whitespace_char('\t'));
    assert!(is_whitespace_char('\u{3000}'));
    assert!(is_whitespace_char('\u{a0}'));
    assert!(!is_whitespace_char('a'));
    assert!(!is_whitespace_char('\u{200b}'));
    assert!(contains_newline(&chars_of("a\nb")));
    assert!(!contains_newline(&chars_of("ab")));
}

#[test]
fn tree_of_a_let_form() {
    let src = "(let [a 1] ; c\n #_ x a)";
    let tree = get_tree(src).unwrap();
    let root = get_root_node(&tree).unwrap();
    assert_eq!(root, 0);
    assert_eq!(tree.nodes[root].kind, "source");
    let form = named_child(&tree, root, 0).unwrap();
    assert_eq!(tree.nodes[form].kind, "list_lit");
    assert_eq!(named_child(&tree, root, 1), None);
    let children = non_comment_children(&tree, form);
    let texts: Vec<String> = children.iter().map(|&c| node_text(&tree, c, src)).collect();
    assert_eq!(texts, vec!["let", "[a 1]", "a"]);
    assert!(tree_fits_text(&chars_of(src), &tree));
    let a = *children.last().unwrap();
    assert_eq!(node_column(&chars_of(src), &tree.nodes[a]), 6);
}

#[test]
fn tree_spans_checked_against_text() {
    let tree = get_tree("(a λ)").unwrap();
    assert!(tree_fits_text(&chars_of("(a λ)"), &tree));
    assert!(!tree_fits_text(&chars_of("(a"), &tree));
}

#[test]
fn texts_compare_by_characters() {
    assert!(same_text("let", "let"));
    assert!(!same_text("let", "lets"));
    assert!(!same_text("lef", "let"));
}

#[test]
fn empty_text_has_a_root() {
    let tree = get_tree("").unwrap();
    assert_eq!(get_root_node(&tree), Some(0));
    assert_eq!(named_child(&tree, 0, 0), None);
}

#[test]
fn tree_nodes_must_lie_inside_their_parents() {
    let text = chars_of("(a b)");
    let node = |kind: &'static str, start: usize, end: usize, parent: Option<usize>| SyntaxNode {
        kind,
        named: true,
        start_byte: start,
        end_byte: end,
        parent,
    };
    let good = SyntaxTree { nodes: vec![node("source", 0, 5, None), node("list_lit", 0, 5, Some(0)), node("sym_lit", 1, 2, Some(1))] };
    assert!(tree_fits_text(&text, &good));
    let outside = SyntaxTree { nodes: vec![node("source", 0, 5, None), node("list_lit", 1, 3, Some(0)), node("sym_lit", 3, 4, Some(1))] };
    assert!(!tree_fits_text(&text, &outside));
    let parent_after = SyntaxTree { nodes: vec![node("sym_lit", 1, 2, Some(1)), node("list_lit", 0, 5, None)] };
    assert!(!tree_fits_text(&text, &parent_after));
}
