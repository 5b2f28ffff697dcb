//! The generic builder: rows of left-hand and right-hand sides, one row per
//! line, the left-hand sides two columns in from the form and the right-hand
//! sides one column past the widest left-hand side.
use vstd::prelude::*;
use crate::helpers::{
    absolute_col, absolute_col_of, all_ws, lemma_char_index_facts, lemma_line_start_bounds,
    lemma_non_ws_add, lemma_non_ws_all_ws, lemma_non_ws_shift_block, lemma_non_ws_spaces,
    lemma_non_ws_split, lemma_non_ws_trim_end, non_ws, char_index, char_pos, chars_of, contains_newline,
    is_char_boundary, last_line, lemma_shift_block_keeps_newline, last_line_width_of, line_start, line_start_of,
    push_all, push_char, push_range, push_range_trim_end, push_shifted_block, push_spaces,
    shift_block, spaces, trim_end_ws, keeps_lines,
};
use crate::model::Pair;

verus! {

/// The left-hand side of `p` spans several lines.
pub open spec fn lhs_multiline(p: Pair) -> bool {
    p.lh_string@.contains('\n')
}

/// Character position where the left-hand side of `p` starts in `src`.
pub open spec fn lhs_pos(src: Seq<char>, p: Pair) -> int {
    char_index(src, p.lh_start_byte as int)
}

/// Character position where the right-hand side of `p` starts in `src`.
pub open spec fn rhs_pos(src: Seq<char>, p: Pair) -> int {
    char_index(src, p.rh_start_byte as int)
}

/// Character position where the row of `p` ends in `src`: the end of its
/// right-hand side, or of its left-hand side when it has no right-hand side.
pub open spec fn row_end(src: Seq<char>, p: Pair) -> int {
    if p.rh_string@.len() == 0 {
        char_index(src, p.lh_end_byte as int)
    } else {
        char_index(src, p.rh_end_byte as int)
    }
}

/// Position of the line on which the row of `p` starts.
pub open spec fn row_line(src: Seq<char>, p: Pair) -> int {
    line_start(src, lhs_pos(src, p))
}

/// The byte offsets of `p` that the builders read stand on character
/// boundaries of `src`.
pub open spec fn pair_in_text(src: Seq<char>, p: Pair) -> bool {
    &&& is_char_boundary(src, p.lh_start_byte as int)
    &&& if p.rh_string@.len() == 0 {
        is_char_boundary(src, p.lh_end_byte as int)
    } else {
        is_char_boundary(src, p.rh_start_byte as int) && is_char_boundary(
            src,
            p.rh_end_byte as int,
        )
    }
}

/// Where the right-hand side of `p` would start, before alignment: right after
/// its left-hand side.
pub open spec fn rhs_anchor(p: Pair, base_col: int) -> int {
    if lhs_multiline(p) {
        last_line(p.lh_string@).len() as int
    } else {
        base_col + 2 + p.lh_width
    }
}

/// The largest anchor among the first `k` pairs that have a right-hand side.
pub open spec fn max_rhs_anchor(pairs: Seq<Pair>, base_col: int, k: int) -> Option<int>
    decreases k,
{
    if k <= 0 {
        None
    } else {
        let m = max_rhs_anchor(pairs, base_col, k - 1);
        let p = pairs[k - 1];
        if p.rh_string@.len() == 0 {
            m
        } else {
            let a = rhs_anchor(p, base_col);
            match m {
                None => Some(a),
                Some(x) => Some(
                    if a > x {
                        a
                    } else {
                        x
                    },
                ),
            }
        }
    }
}

/// Column of the right-hand sides: one past the largest anchor, or three past
/// the form's column when no pair has a right-hand side.
pub open spec fn rhs_target(pairs: Seq<Pair>, base_col: int) -> int {
    match max_rhs_anchor(pairs, base_col, pairs.len() as int) {
        Some(m) => m + 1,
        None => base_col + 3,
    }
}

/// Row `i` starts before the end of the row before it, or on the same line.
pub open spec fn rows_overlap(src: Seq<char>, pairs: Seq<Pair>, i: int) -> bool {
    let last = if i == 0 {
        0
    } else {
        row_end(src, pairs[i - 1])
    };
    ||| lhs_pos(src, pairs[i]) < last
    ||| row_line(src, pairs[i]) < last
    ||| (i > 0 && row_line(src, pairs[i]) == row_line(src, pairs[i - 1]))
}

/// Every row starts on a line of its own, after the end of the row before it.
pub open spec fn rows_in_order(src: Seq<char>, pairs: Seq<Pair>) -> bool {
    forall|i: int| 0 <= i < pairs.len() ==> !rows_overlap(src, pairs, i)
}

/// The left-hand side of `p` as placed at column `base_col + 2`.
pub open spec fn placed_lhs(src: Seq<char>, p: Pair, base_col: int) -> Seq<char> {
    if lhs_multiline(p) {
        shift_block(p.lh_string@, base_col + 2 - absolute_col(src, base_col, lhs_pos(src, p)))
    } else {
        p.lh_string@
    }
}

/// What follows the left-hand side of `p` in its row.
pub open spec fn placed_rhs(src: Seq<char>, pairs: Seq<Pair>, p: Pair, base_col: int) -> Seq<
    char,
> {
    let rhs = p.rh_string@;
    if rhs.len() == 0 {
        Seq::empty()
    } else if lhs_multiline(p) && rhs.contains('\n') {
        let col = base_col + 4;
        seq!['\n'] + spaces(col as nat) + shift_block(
            rhs,
            col - absolute_col(src, base_col, rhs_pos(src, p)),
        )
    } else {
        let target = rhs_target(pairs, base_col);
        let anchor = if lhs_multiline(p) {
            last_line(placed_lhs(src, p, base_col)).len() as int
        } else {
            base_col + 2 + p.lh_width
        };
        let gap: nat = if target > anchor {
            (target - anchor) as nat
        } else {
            0
        };
        spaces(gap) + shift_block(rhs, target - absolute_col(src, base_col, rhs_pos(src, p)))
    }
}

/// What row `i` keeps of the text before it: for the first row, the text
/// before it without trailing whitespace and a line break; for the others, the
/// text from the end of the row before it to the start of its line.
pub open spec fn row_lead(src: Seq<char>, pairs: Seq<Pair>, i: int) -> Seq<char> {
    if i == 0 {
        trim_end_ws(src.take(lhs_pos(src, pairs[i]))) + seq!['\n']
    } else {
        src.subrange(row_end(src, pairs[i - 1]), row_line(src, pairs[i]))
    }
}

/// The text that row `i` contributes: what stands before it in `src` (for the
/// first row, the text before it without trailing whitespace and a line break),
/// the indentation, the left-hand side and what follows it.
#[verifier::opaque]
pub open spec fn row_text(src: Seq<char>, pairs: Seq<Pair>, base_col: int, i: int) -> Seq<char> {
    let p = pairs[i];
    row_lead(src, pairs, i) + spaces((base_col + 2) as nat) + placed_lhs(src, p, base_col) + placed_rhs(
        src,
        pairs,
        p,
        base_col,
    )
}

/// The text of the first `k` rows.
pub open spec fn rows_text(src: Seq<char>, pairs: Seq<Pair>, base_col: int, k: int) -> Seq<char>
    decreases k,
{
    if k <= 0 {
        Seq::empty()
    } else {
        rows_text(src, pairs, base_col, k - 1) + row_text(src, pairs, base_col, k - 1)
    }
}

/// The aligned text: unchanged when there are no pairs or when the rows are
/// not one per line in order; otherwise the rows, then the rest of `src`.
pub open spec fn aligned_text(src: Seq<char>, pairs: Seq<Pair>, base_col: int) -> Seq<char> {
    if pairs.len() == 0 || !rows_in_order(src, pairs) {
        src
    } else {
        rows_text(src, pairs, base_col, pairs.len() as int) + src.skip(
            row_end(src, pairs.last()),
        )
    }
}

/// The sizes that the builder computes with fit in `usize`.
pub open spec fn columns_fit(src: Seq<char>, pairs: Seq<Pair>, base_col: int) -> bool {
    &&& base_col + src.len() + 4 <= usize::MAX
    &&& forall|i: int|
        0 <= i < pairs.len() && (#[trigger] pairs[i]).rh_string@.len() > 0 ==> rhs_anchor(
            pairs[i],
            base_col,
        ) < usize::MAX
}

/// Number of characters of the last line of `s`.
pub fn rendered_last_line_width(s: &str) -> (r: usize)
    ensures
        r == last_line(s@).len(),
{
    last_line_width_of(&chars_of(s))
}

/// The column of the right-hand sides (see `rhs_target`).
#[verifier::spinoff_prover]
#[verifier::rlimit(40)]
fn target_rhs_col(pairs: &[Pair], base_col: usize) -> (r: usize)
    requires
        base_col + 3 <= usize::MAX,
        forall|i: int|
            0 <= i < pairs@.len() && (#[trigger] pairs@[i]).rh_string@.len() > 0 ==> rhs_anchor(
                pairs@[i],
                base_col as int,
            ) < usize::MAX,
    ensures
        r == rhs_target(pairs@, base_col as int),
{
    let mut best: Option<usize> = None;
    let mut i: usize = 0;
    while i < pairs.len()
        invariant
            i <= pairs@.len(),
            base_col + 3 <= usize::MAX,
            forall|j: int|
                0 <= j < pairs@.len() && (#[trigger] pairs@[j]).rh_string@.len() > 0
                    ==> rhs_anchor(pairs@[j], base_col as int) < usize::MAX,
            best is None ==> max_rhs_anchor(pairs@, base_col as int, i as int) is None,
            best matches Some(b) ==> max_rhs_anchor(pairs@, base_col as int, i as int) == Some(
                b as int,
            ) && b < usize::MAX,
        decreases pairs.len() - i,
    {
        let p = &pairs[i];
        let rh = chars_of(p.rh_string.as_str());
        if rh.len() > 0 {
            assert(pairs@[i as int].rh_string@.len() > 0);
            let lh = chars_of(p.lh_string.as_str());
            let a = if contains_newline(&lh) {
                last_line_width_of(&lh)
            } else {
                base_col + 2 + p.lh_width
            };
            assert(a == rhs_anchor(pairs@[i as int], base_col as int));
            best = match best {
                None => Some(a),
                Some(x) => Some(
                    if a > x {
                        a
                    } else {
                        x
                    },
                ),
            };
        }
        i = i + 1;
    }
    match best {
        None => base_col + 3,
        Some(m) => m + 1,
    }
}

/// The left-hand side of `p` as placed at column `base_col + 2`.
fn placed_lhs_chars(text: &[char], p: &Pair, base_col: usize, lhs_start: usize) -> (r: Vec<char>)
    requires
        lhs_start == lhs_pos(text@, *p),
        lhs_start <= text@.len(),
        base_col + text@.len() + 4 <= usize::MAX,
    ensures
        r@ == placed_lhs(text@, *p, base_col as int),
        r@.contains('\n') == lhs_multiline(*p),
{
    let lh = chars_of(p.lh_string.as_str());
    let mut placed = String::new();
    if contains_newline(&lh) {
        let old_lhs_col = absolute_col_of(text, base_col, lhs_start);
        push_shifted_block(&mut placed, &lh, 0, lh.len(), base_col + 2, old_lhs_col);
        assert(lh@.subrange(0, lh@.len() as int) =~= lh@);
        proof {
            lemma_shift_block_keeps_newline(lh@, base_col + 2 - old_lhs_col);
        }
    } else {
        push_all(&mut placed, &lh);
    }
    let r = chars_of(placed.as_str());
    assert(r@ =~= placed_lhs(text@, *p, base_col as int));
    r
}

/// Appends what follows the left-hand side of `p` in its row.
#[verifier::spinoff_prover]
#[verifier::rlimit(40)]
fn push_placed_rhs(
    out: &mut String,
    text: &[char],
    pairs: &[Pair],
    p: &Pair,
    base_col: usize,
    target_rhs_col: usize,
    placed: &[char],
)
    requires
        pair_in_text(text@, *p),
        base_col + text@.len() + 4 <= usize::MAX,
        target_rhs_col == rhs_target(pairs@, base_col as int),
        placed@ == placed_lhs(text@, *p, base_col as int),
        p.rh_string@.len() > 0 ==> rhs_anchor(*p, base_col as int) < usize::MAX,
    ensures
        final(out)@ == old(out)@ + placed_rhs(text@, pairs@, *p, base_col as int),
{
    let rh = chars_of(p.rh_string.as_str());
    if rh.len() == 0 {
        return;
    }
    let rhs_start = char_pos(text, p.rh_start_byte);
    let old_rhs_col = absolute_col_of(text, base_col, rhs_start);
    assert(rh@.subrange(0, rh@.len() as int) =~= rh@);
    let lh = chars_of(p.lh_string.as_str());
    let lh_multi = contains_newline(&lh);
    if lh_multi && contains_newline(&rh) {
        let rhs_col = base_col + 4;
        push_char(out, '\n');
        push_spaces(out, rhs_col);
        push_shifted_block(out, &rh, 0, rh.len(), rhs_col, old_rhs_col);
        assert(final(out)@ =~= old(out)@ + placed_rhs(text@, pairs@, *p, base_col as int));
    } else {
        let anchor = if lh_multi {
            last_line_width_of(placed)
        } else {
            base_col + 2 + p.lh_width
        };
        let gap = if target_rhs_col > anchor {
            target_rhs_col - anchor
        } else {
            0
        };
        push_spaces(out, gap);
        push_shifted_block(out, &rh, 0, rh.len(), target_rhs_col, old_rhs_col);
        assert(final(out)@ =~= old(out)@ + placed_rhs(text@, pairs@, *p, base_col as int));
    }
}

/// Appends the text of row `i` (see `row_text`), given where the row before it
/// ends and where row `i` starts.
#[verifier::spinoff_prover]
#[verifier::rlimit(40)]
fn push_row(
    out: &mut String,
    text: &[char],
    pairs: &[Pair],
    i: usize,
    base_col: usize,
    target_rhs_col: usize,
    last: usize,
    lhs_start: usize,
    line: usize,
)
    requires
        i < pairs@.len(),
        pair_in_text(text@, pairs@[i as int]),
        columns_fit(text@, pairs@, base_col as int),
        target_rhs_col == rhs_target(pairs@, base_col as int),
        lhs_start == lhs_pos(text@, pairs@[i as int]),
        lhs_start <= text@.len(),
        line == row_line(text@, pairs@[i as int]),
        last <= line,
        line <= lhs_start,
        i > 0 ==> last == row_end(text@, pairs@[i - 1]),
    ensures
        final(out)@ == old(out)@ + row_text(text@, pairs@, base_col as int, i as int),
{
    reveal(row_text);
    let p = &pairs[i];
    if i == 0 {
        push_range_trim_end(out, text, 0, lhs_start);
        push_char(out, '\n');
        assert(text@.take(lhs_start as int) =~= text@.subrange(0, lhs_start as int));
    } else {
        push_range(out, text, last, line);
    }
    push_spaces(out, base_col + 2);
    let placed = placed_lhs_chars(text, p, base_col, lhs_start);
    push_all(out, &placed);
    assert(pairs@[i as int].rh_string@.len() > 0 ==> rhs_anchor(pairs@[i as int], base_col as int)
        < usize::MAX);
    push_placed_rhs(out, text, pairs, p, base_col, target_rhs_col, &placed);
    assert(final(out)@ =~= old(out)@ + row_text(text@, pairs@, base_col as int, i as int));
}

/// Aligns the rows of a form: the text before the first row loses its trailing
/// whitespace and ends the line; each row starts on a line of its own at two
/// columns past `base_col`, and the right-hand sides start one column past the
/// widest left-hand side (a right-hand side that spans several lines after a
/// multi-line left-hand side goes on the next line, two columns further in).
/// Later lines of the multi-line sides move with them. `src` comes back
/// unchanged when there are no pairs, or when a row starts before the end of
/// the row before it or on the same line.
#[verifier::spinoff_prover]
#[verifier::rlimit(60)]
pub fn build_aligned_string(src: &str, pairs: &[Pair], base_col: usize) -> (out: String)
    requires
        forall|i: int| 0 <= i < pairs@.len() ==> pair_in_text(src@, #[trigger] pairs@[i]),
        pairs@.len() > 0 ==> columns_fit(src@, pairs@, base_col as int),
    ensures
        out@ == aligned_text(src@, pairs@, base_col as int),
{
    if pairs.len() == 0 {
        return src.to_owned();
    }
    let text = chars_of(src);
    let target_rhs_col = target_rhs_col(pairs, base_col);
    let mut out = String::new();
    let mut last: usize = 0;
    let mut prev_line: usize = 0;
    let mut i: usize = 0;
    while i < pairs.len()
        invariant
            text@ == src@,
            target_rhs_col == rhs_target(pairs@, base_col as int),
            forall|j: int| 0 <= j < pairs@.len() ==> pair_in_text(src@, #[trigger] pairs@[j]),
            columns_fit(src@, pairs@, base_col as int),
            i <= pairs@.len(),
            last <= src@.len(),
            i == 0 ==> last == 0,
            i > 0 ==> last == row_end(src@, pairs@[i - 1]),
            i > 0 ==> prev_line == row_line(src@, pairs@[i - 1]),
            forall|j: int| 0 <= j < i ==> !rows_overlap(src@, pairs@, j),
            out@ == rows_text(src@, pairs@, base_col as int, i as int),
        decreases pairs.len() - i,
    {
        let p = &pairs[i];
        assert(pair_in_text(src@, pairs@[i as int]));
        let lhs_start = char_pos(&text, p.lh_start_byte);
        let line = line_start_of(&text, lhs_start);
        assert(line == row_line(src@, pairs@[i as int]));
        if lhs_start < last || line < last || (i > 0 && line == prev_line) {
            assert(rows_overlap(src@, pairs@, i as int));
            return src.to_owned();
        }
        push_row(&mut out, &text, pairs, i, base_col, target_rhs_col, last, lhs_start, line);
        if p.rh_string.as_str().is_empty() {
            last = char_pos(&text, p.lh_end_byte);
        } else {
            last = char_pos(&text, p.rh_end_byte);
        }
        prev_line = line;
        i = i + 1;
    }
    assert(rows_in_order(src@, pairs@));
    push_range(&mut out, &text, last, text.len());
    assert(src@.subrange(last as int, src@.len() as int) =~= src@.skip(last as int));
    out
}

/// The largest anchor is at least the anchor of every pair with a right-hand side.
pub proof fn lemma_max_rhs_anchor(pairs: Seq<Pair>, base_col: int, k: int, i: int)
    requires
        0 <= i < k <= pairs.len(),
        pairs[i].rh_string@.len() > 0,
    ensures
        max_rhs_anchor(pairs, base_col, k) matches Some(m) && rhs_anchor(pairs[i], base_col) <= m,
    decreases k,
{
    if i < k - 1 {
        lemma_max_rhs_anchor(pairs, base_col, k - 1, i);
    }
}

/// Right-hand sides line up: in every row whose left-hand side is one line of
/// `lh_width` characters and whose right-hand side does not move to the next
/// line, the left-hand side comes right after the indentation to column
/// `base_col + 2`, and the right-hand side starts at column `rhs_target`, at
/// least one space past it.
pub proof fn lemma_rhs_line_up(src: Seq<char>, pairs: Seq<Pair>, base_col: int, i: int) -> (parts: (
    Seq<char>,
    Seq<char>,
))
    requires
        0 <= i < pairs.len(),
        !lhs_multiline(pairs[i]),
        pairs[i].lh_width == pairs[i].lh_string@.len(),
        pairs[i].rh_string@.len() > 0,
    ensures
        ({
            let gap = rhs_target(pairs, base_col) - (base_col + 2 + pairs[i].lh_width);
            &&& gap >= 1
            &&& row_text(src, pairs, base_col, i) == parts.0 + spaces((base_col + 2) as nat)
                + pairs[i].lh_string@ + spaces(gap as nat) + parts.1
        }),
{
    reveal(row_text);
    lemma_max_rhs_anchor(pairs, base_col, pairs.len() as int, i);
    let p = pairs[i];
    let lead = if i == 0 {
        trim_end_ws(src.take(lhs_pos(src, p))) + seq!['\n']
    } else {
        src.subrange(row_end(src, pairs[i - 1]), row_line(src, p))
    };
    let value = shift_block(
        p.rh_string@,
        rhs_target(pairs, base_col) - absolute_col(src, base_col, rhs_pos(src, p)),
    );
    assert(row_text(src, pairs, base_col, i) == lead + spaces((base_col + 2) as nat)
        + pairs[i].lh_string@ + spaces(
        (rhs_target(pairs, base_col) - (base_col + 2 + pairs[i].lh_width)) as nat,
    ) + value);
    (lead, value)
}

/// The sides of `p` are the text of their spans in `src`, the left-hand side
/// first, and only whitespace stands between them.
pub open spec fn pair_is_text(src: Seq<char>, p: Pair) -> bool {
    let ls = lhs_pos(src, p);
    let le = char_index(src, p.lh_end_byte as int);
    &&& ls <= le
    &&& p.lh_string@ == src.subrange(ls, le)
    &&& p.rh_string@.len() > 0 ==> {
        let rs = rhs_pos(src, p);
        let re = char_index(src, p.rh_end_byte as int);
        &&& le <= rs <= re
        &&& all_ws(src.subrange(le, rs))
        &&& p.rh_string@ == src.subrange(rs, re)
    }
}

/// What the law on whitespace asks of the pairs: they are the text of `src`,
/// and every row after the first has only indentation before it on its line.
pub open spec fn pairs_are_text(src: Seq<char>, pairs: Seq<Pair>) -> bool {
    &&& forall|i: int|
        0 <= i < pairs.len() ==> pair_in_text(src, #[trigger] pairs[i]) && is_char_boundary(
            src,
            pairs[i].lh_end_byte as int,
        ) && pair_is_text(src, pairs[i])
    &&& forall|i: int|
        0 < i < pairs.len() ==> all_ws(
            src.subrange(row_line(src, #[trigger] pairs[i]), lhs_pos(src, pairs[i])),
        )
}

/// Row `i` holds, apart from whitespace, the text of `src` from the end of the
/// row before it to its own end.
#[verifier::spinoff_prover]
#[verifier::rlimit(40)]
proof fn lemma_row_non_ws(src: Seq<char>, pairs: Seq<Pair>, base_col: int, i: int)
    requires
        0 <= i < pairs.len(),
        pairs_are_text(src, pairs),
        rows_in_order(src, pairs),
    ensures
        ({
            let prev = if i == 0 {
                0
            } else {
                row_end(src, pairs[i - 1])
            };
            &&& 0 <= prev <= row_end(src, pairs[i]) <= src.len()
            &&& non_ws(row_text(src, pairs, base_col, i)) == non_ws(
                src.subrange(prev, row_end(src, pairs[i])),
            )
        }),
{
    reveal(row_text);
    let p = pairs[i];
    assert(pair_in_text(src, p) && is_char_boundary(src, p.lh_end_byte as int) && pair_is_text(
        src,
        p,
    ));
    assert(!rows_overlap(src, pairs, i));
    lemma_char_index_facts(src, p.lh_start_byte as int);
    lemma_char_index_facts(src, p.lh_end_byte as int);
    if p.rh_string@.len() > 0 {
        lemma_char_index_facts(src, p.rh_start_byte as int);
        lemma_char_index_facts(src, p.rh_end_byte as int);
    }
    let ls = lhs_pos(src, p);
    let le = char_index(src, p.lh_end_byte as int);
    let line = row_line(src, p);
    lemma_line_start_bounds(src, ls);
    let prev = if i == 0 {
        0
    } else {
        row_end(src, pairs[i - 1])
    };
    if i > 0 {
        assert(pair_in_text(src, pairs[i - 1]) && is_char_boundary(
            src,
            pairs[i - 1].lh_end_byte as int,
        ));
        lemma_char_index_facts(src, pairs[i - 1].lh_end_byte as int);
        if pairs[i - 1].rh_string@.len() > 0 {
            lemma_char_index_facts(src, pairs[i - 1].rh_end_byte as int);
        }
    }
    // what comes before the left-hand side
    let lead = if i == 0 {
        trim_end_ws(src.take(ls)) + seq!['\n']
    } else {
        src.subrange(prev, line)
    };
    assert(non_ws(lead) == non_ws(src.subrange(prev, ls))) by {
        if i == 0 {
            lemma_non_ws_add(trim_end_ws(src.take(ls)), seq!['\n']);
            lemma_non_ws_trim_end(src.take(ls));
            lemma_non_ws_all_ws(seq!['\n']);
            assert(src.take(ls) =~= src.subrange(0, ls));
        } else {
            assert(all_ws(src.subrange(line, ls)));
            lemma_non_ws_split(src, prev, line, ls);
            lemma_non_ws_all_ws(src.subrange(line, ls));
        }
    }
    // the left-hand side
    assert(non_ws(placed_lhs(src, p, base_col)) == non_ws(src.subrange(ls, le))) by {
        if lhs_multiline(p) {
            lemma_non_ws_shift_block(
                p.lh_string@,
                base_col + 2 - absolute_col(src, base_col, ls),
            );
        }
    }
    // the right-hand side
    let end = row_end(src, p);
    assert(non_ws(placed_rhs(src, pairs, p, base_col)) == non_ws(src.subrange(le, end))) by {
        if p.rh_string@.len() == 0 {
            assert(src.subrange(le, end) =~= Seq::<char>::empty());
        } else {
            let rs = rhs_pos(src, p);
            let rhs = p.rh_string@;
            lemma_non_ws_split(src, le, rs, end);
            lemma_non_ws_all_ws(src.subrange(le, rs));
            if lhs_multiline(p) && rhs.contains('\n') {
                let col = base_col + 4;
                let sh = shift_block(rhs, col - absolute_col(src, base_col, rs));
                lemma_non_ws_shift_block(rhs, col - absolute_col(src, base_col, rs));
                lemma_non_ws_add(seq!['\n'] + spaces(col as nat), sh);
                lemma_non_ws_add(seq!['\n'], spaces(col as nat));
                lemma_non_ws_all_ws(seq!['\n']);
                lemma_non_ws_spaces(col as nat);
            } else {
                let target = rhs_target(pairs, base_col);
                let anchor = if lhs_multiline(p) {
                    last_line(placed_lhs(src, p, base_col)).len() as int
                } else {
                    base_col + 2 + p.lh_width
                };
                let gap: nat = if target > anchor {
                    (target - anchor) as nat
                } else {
                    0
                };
                lemma_non_ws_shift_block(rhs, target - absolute_col(src, base_col, rs));
                lemma_non_ws_add(
                    spaces(gap),
                    shift_block(rhs, target - absolute_col(src, base_col, rs)),
                );
                lemma_non_ws_spaces(gap);
            }
        }
    }
    lemma_non_ws_add(lead + spaces((base_col + 2) as nat), placed_lhs(src, p, base_col));
    lemma_non_ws_add(lead, spaces((base_col + 2) as nat));
    lemma_non_ws_spaces((base_col + 2) as nat);
    lemma_non_ws_add(
        lead + spaces((base_col + 2) as nat) + placed_lhs(src, p, base_col),
        placed_rhs(src, pairs, p, base_col),
    );
    lemma_non_ws_split(src, prev, ls, end);
    lemma_non_ws_split(src, ls, le, end);
    assert(non_ws(row_text(src, pairs, base_col, i)) =~= non_ws(src.subrange(prev, ls)) + non_ws(
        src.subrange(ls, le),
    ) + non_ws(src.subrange(le, end)));
}

/// The first `k` rows hold, apart from whitespace, the text of `src` up to the
/// end of row `k - 1`.
#[verifier::spinoff_prover]
#[verifier::rlimit(40)]
proof fn lemma_rows_non_ws(src: Seq<char>, pairs: Seq<Pair>, base_col: int, k: int)
    requires
        1 <= k <= pairs.len(),
        pairs_are_text(src, pairs),
        rows_in_order(src, pairs),
    ensures
        0 <= row_end(src, pairs[k - 1]) <= src.len(),
        non_ws(rows_text(src, pairs, base_col, k)) == non_ws(
            src.subrange(0, row_end(src, pairs[k - 1])),
        ),
    decreases k,
{
    lemma_row_non_ws(src, pairs, base_col, k - 1);
    lemma_non_ws_add(
        rows_text(src, pairs, base_col, k - 1),
        row_text(src, pairs, base_col, k - 1),
    );
    if k == 1 {
        assert(rows_text(src, pairs, base_col, 0) =~= Seq::<char>::empty());
        assert(non_ws(Seq::<char>::empty()) =~= Seq::<char>::empty()) by {
            lemma_non_ws_all_ws(Seq::<char>::empty());
        }
    } else {
        lemma_rows_non_ws(src, pairs, base_col, k - 1);
        lemma_non_ws_split(src, 0, row_end(src, pairs[k - 2]), row_end(src, pairs[k - 1]));
    }
}

/// Alignment changes only whitespace: when the pairs are the text of `src`
/// (each side the text of its span, only whitespace between the sides, only
/// indentation before every row after the first), the aligned text holds the
/// same characters other than whitespace as `src`, in the same order.
pub proof fn lemma_alignment_keeps_code(src: Seq<char>, pairs: Seq<Pair>, base_col: int)
    requires
        pairs_are_text(src, pairs),
    ensures
        non_ws(aligned_text(src, pairs, base_col)) == non_ws(src),
{
    if pairs.len() > 0 && rows_in_order(src, pairs) {
        let n = pairs.len() as int;
        lemma_rows_non_ws(src, pairs, base_col, n);
        let end = row_end(src, pairs[n - 1]);
        lemma_non_ws_add(rows_text(src, pairs, base_col, n), src.skip(end));
        lemma_non_ws_split(src, 0, end, src.len() as int);
        assert(src.subrange(0, src.len() as int) =~= src);
        assert(src.skip(end) =~= src.subrange(end, src.len() as int));
    }
}


// ---------------------------------------------------------------------------
// Aligning aligned text
// ---------------------------------------------------------------------------

/// The spaces between a one-line left-hand side of `p` and its right-hand side.
pub open spec fn row_gap(pairs: Seq<Pair>, base_col: int, p: Pair) -> int {
    let target = rhs_target(pairs, base_col);
    let anchor = base_col + 2 + p.lh_width;
    if target > anchor {
        target - anchor
    } else {
        0
    }
}

/// Character position where the left-hand side of row `i` stands in the
/// aligned text.
pub open spec fn aligned_lhs_pos(src: Seq<char>, pairs: Seq<Pair>, base_col: int, i: int) -> int {
    rows_text(src, pairs, base_col, i).len() + row_lead(src, pairs, i).len() + base_col + 2
}

/// `q` is the pair `p` of `pairs` as it stands in the aligned text `out`: the
/// same sides and width, the left-hand side at position `ls`, the right-hand
/// side `row_gap` spaces after it.
pub open spec fn moved_pair(out: Seq<char>, pairs: Seq<Pair>, base_col: int, p: Pair, q: Pair, ls: int) -> bool {
    let le = ls + p.lh_string@.len();
    let rs = le + row_gap(pairs, base_col, p);
    &&& q.lh_string@ == p.lh_string@
    &&& q.rh_string@ == p.rh_string@
    &&& q.lh_width == p.lh_width
    &&& is_char_boundary(out, q.lh_start_byte as int)
    &&& char_index(out, q.lh_start_byte as int) == ls
    &&& is_char_boundary(out, q.lh_end_byte as int)
    &&& char_index(out, q.lh_end_byte as int) == le
    &&& p.rh_string@.len() > 0 ==> {
        &&& is_char_boundary(out, q.rh_start_byte as int)
        &&& char_index(out, q.rh_start_byte as int) == rs
        &&& is_char_boundary(out, q.rh_end_byte as int)
        &&& char_index(out, q.rh_end_byte as int) == rs + p.rh_string@.len()
    }
}

/// A row of one line: both sides are one line, each the text of its span in
/// `src`, with only whitespace between them.
pub open spec fn one_line_row(src: Seq<char>, p: Pair) -> bool {
    &&& pair_in_text(src, p)
    &&& is_char_boundary(src, p.lh_end_byte as int)
    &&& pair_is_text(src, p)
    &&& !p.lh_string@.contains('\n')
    &&& !p.rh_string@.contains('\n')
}

/// The column of the right-hand sides depends only on the sides and widths.
proof fn lemma_max_rhs_anchor_same(a: Seq<Pair>, b: Seq<Pair>, base_col: int, k: int)
    requires
        a.len() == b.len(),
        0 <= k <= a.len(),
        forall|i: int|
            0 <= i < a.len() ==> (#[trigger] a[i]).lh_string@ == b[i].lh_string@ && a[i].rh_string@
                == b[i].rh_string@ && a[i].lh_width == b[i].lh_width,
    ensures
        max_rhs_anchor(a, base_col, k) == max_rhs_anchor(b, base_col, k),
    decreases k,
{
    if k > 0 {
        lemma_max_rhs_anchor_same(a, b, base_col, k - 1);
        assert(a[k - 1].lh_string@ == b[k - 1].lh_string@);
    }
}

/// The text of the first `k` rows begins the text of the first `n`.
proof fn lemma_rows_text_prefix(src: Seq<char>, pairs: Seq<Pair>, base_col: int, k: int, n: int)
    requires
        0 <= k <= n,
    ensures
        rows_text(src, pairs, base_col, k).len() <= rows_text(src, pairs, base_col, n).len(),
        rows_text(src, pairs, base_col, n).take(rows_text(src, pairs, base_col, k).len() as int)
            == rows_text(src, pairs, base_col, k),
    decreases n,
{
    let rk = rows_text(src, pairs, base_col, k);
    if n > k {
        lemma_rows_text_prefix(src, pairs, base_col, k, n - 1);
        let a = rows_text(src, pairs, base_col, n - 1);
        assert(rows_text(src, pairs, base_col, n) == a + row_text(src, pairs, base_col, n - 1));
        assert((a + row_text(src, pairs, base_col, n - 1)).take(rk.len() as int) =~= a.take(
            rk.len() as int,
        ));
    } else {
        assert(rk.take(rk.len() as int) =~= rk);
    }
}

/// The text of a row whose sides are one line each.
proof fn lemma_one_line_row_text(src: Seq<char>, pairs: Seq<Pair>, base_col: int, i: int)
    requires
        0 <= i < pairs.len(),
        !pairs[i].lh_string@.contains('\n'),
        !pairs[i].rh_string@.contains('\n'),
    ensures
        row_text(src, pairs, base_col, i) == row_lead(src, pairs, i) + spaces((base_col + 2) as nat)
            + pairs[i].lh_string@ + (if pairs[i].rh_string@.len() > 0 {
            spaces(row_gap(pairs, base_col, pairs[i]) as nat) + pairs[i].rh_string@
        } else {
            Seq::empty()
        }),
{
    reveal(row_text);
    let p = pairs[i];
    crate::helpers::lemma_shift_block_one_line(
        p.rh_string@,
        rhs_target(pairs, base_col) - absolute_col(src, base_col, rhs_pos(src, p)),
    );
    if p.rh_string@.len() == 0 {
        assert(row_text(src, pairs, base_col, i) =~= row_lead(src, pairs, i) + spaces(
            (base_col + 2) as nat,
        ) + pairs[i].lh_string@ + Seq::<char>::empty());
    }
}

/// What the law of re-alignment assumes of `src`, `pairs` and `moved`.
pub open spec fn realign_input(src: Seq<char>, pairs: Seq<Pair>, base_col: int, moved: Seq<Pair>) -> bool {
    &&& 0 <= base_col
    &&& rows_in_order(src, pairs)
    &&& forall|j: int| 0 <= j < pairs.len() ==> one_line_row(src, #[trigger] pairs[j])
    &&& moved.len() == pairs.len()
    &&& forall|j: int|
        0 <= j < moved.len() ==> moved_pair(
            aligned_text(src, pairs, base_col),
            pairs,
            base_col,
            pairs[j],
            #[trigger] moved[j],
            aligned_lhs_pos(src, pairs, base_col, j),
        )
}

/// Where row `i` of `moved` ends in the aligned text: where row `i` of the
/// aligned text ends.
proof fn lemma_moved_row_end(src: Seq<char>, pairs: Seq<Pair>, base_col: int, moved: Seq<Pair>, i: int)
    requires
        realign_input(src, pairs, base_col, moved),
        0 <= i < pairs.len(),
    ensures
        row_end(aligned_text(src, pairs, base_col), moved[i]) == rows_text(
            src,
            pairs,
            base_col,
            i + 1,
        ).len(),
        lhs_pos(aligned_text(src, pairs, base_col), moved[i]) == aligned_lhs_pos(
            src,
            pairs,
            base_col,
            i,
        ),
        aligned_lhs_pos(src, pairs, base_col, i) <= rows_text(src, pairs, base_col, i + 1).len(),
{
    assert(one_line_row(src, pairs[i]));
    lemma_one_line_row_text(src, pairs, base_col, i);
    assert(moved_pair(
        aligned_text(src, pairs, base_col),
        pairs,
        base_col,
        pairs[i],
        moved[i],
        aligned_lhs_pos(src, pairs, base_col, i),
    ));
}

/// The text before every row after the first ends with a line feed.
#[verifier::spinoff_prover]
proof fn lemma_lead_ends_line(src: Seq<char>, pairs: Seq<Pair>, i: int)
    requires
        0 < i < pairs.len(),
        rows_in_order(src, pairs),
        one_line_row(src, pairs[i]),
        one_line_row(src, pairs[i - 1]),
    ensures
        row_lead(src, pairs, i).len() > 0,
        row_lead(src, pairs, i).last() == '\n',
{
    let p = pairs[i];
    let q = pairs[i - 1];
    assert(!rows_overlap(src, pairs, i));
    lemma_char_index_facts(src, p.lh_start_byte as int);
    lemma_char_index_facts(src, q.lh_start_byte as int);
    lemma_char_index_facts(src, q.lh_end_byte as int);
    if q.rh_string@.len() > 0 {
        lemma_char_index_facts(src, q.rh_start_byte as int);
        lemma_char_index_facts(src, q.rh_end_byte as int);
    }
    let e = row_end(src, q);
    let l = row_line(src, p);
    let lq = row_line(src, q);
    crate::helpers::lemma_line_start_props(src, lhs_pos(src, p));
    crate::helpers::lemma_line_start_props(src, lhs_pos(src, q));
    assert(lhs_pos(src, q) <= e);
    assert(l > 0);
    if e == l {
        if q.rh_string@.len() > 0 {
            assert(src[e - 1] == q.rh_string@[q.rh_string@.len() - 1]);
        } else if lhs_pos(src, q) < e {
            assert(src[e - 1] == q.lh_string@[q.lh_string@.len() - 1]);
        } else {
            assert(lq == l);
        }
        assert(false);
    }
    assert(row_lead(src, pairs, i).last() == src[l - 1]);
}

/// Row `i` of the aligned text stands at its place in it.
proof fn lemma_row_in_output(src: Seq<char>, pairs: Seq<Pair>, base_col: int, i: int)
    requires
        rows_in_order(src, pairs),
        0 <= i < pairs.len(),
    ensures
        rows_text(src, pairs, base_col, i + 1).len() <= aligned_text(src, pairs, base_col).len(),
        rows_text(src, pairs, base_col, i + 1).len() == rows_text(src, pairs, base_col, i).len()
            + row_text(src, pairs, base_col, i).len(),
        forall|t: int|
            0 <= t < row_text(src, pairs, base_col, i).len() ==> aligned_text(src, pairs, base_col)[rows_text(
                src,
                pairs,
                base_col,
                i,
            ).len() + t] == #[trigger] row_text(src, pairs, base_col, i)[t],
{
    let n = pairs.len() as int;
    let out = aligned_text(src, pairs, base_col);
    let big = rows_text(src, pairs, base_col, n);
    let pi = rows_text(src, pairs, base_col, i).len() as int;
    let pn = rows_text(src, pairs, base_col, i + 1).len() as int;
    let row = row_text(src, pairs, base_col, i);
    assert(out == big + src.skip(row_end(src, pairs.last())));
    lemma_rows_text_prefix(src, pairs, base_col, i + 1, n);
    assert(rows_text(src, pairs, base_col, i + 1) == rows_text(src, pairs, base_col, i) + row);
    assert forall|t: int| 0 <= t < row.len() implies out[pi + t] == row[t] by {
        assert(big.take(pn)[pi + t] == rows_text(src, pairs, base_col, i + 1)[pi + t]);
    }
}

/// In the aligned text, row `i` of `moved` starts its line where row `i` of
/// the aligned text puts its indentation.
#[verifier::spinoff_prover]
#[verifier::rlimit(40)]
proof fn lemma_realigned_line(src: Seq<char>, pairs: Seq<Pair>, base_col: int, moved: Seq<Pair>, i: int)
    requires
        realign_input(src, pairs, base_col, moved),
        0 <= i < pairs.len(),
    ensures
        row_line(aligned_text(src, pairs, base_col), moved[i]) == rows_text(
            src,
            pairs,
            base_col,
            i,
        ).len() + row_lead(src, pairs, i).len(),
{
    let out = aligned_text(src, pairs, base_col);
    let pi = rows_text(src, pairs, base_col, i).len() as int;
    let lead = row_lead(src, pairs, i);
    let row = row_text(src, pairs, base_col, i);
    lemma_row_in_output(src, pairs, base_col, i);
    assert(one_line_row(src, pairs[i]));
    lemma_one_line_row_text(src, pairs, base_col, i);
    lemma_moved_row_end(src, pairs, base_col, moved, i);
    let x = pi + lead.len();
    let ls2 = x + base_col + 2;
    assert forall|t: int| x <= t < ls2 implies out[t] != '\n' by {
        assert(out[pi + (t - pi)] == row[t - pi]);
        assert(row[t - pi] == spaces((base_col + 2) as nat)[t - x]);
    }
    assert(x == 0 || out[x - 1] == '\n') by {
        if i > 0 {
            assert(one_line_row(src, pairs[i - 1]));
            lemma_lead_ends_line(src, pairs, i);
        }
        assert(out[pi + (lead.len() - 1)] == row[lead.len() - 1]);
    }
    crate::helpers::lemma_line_start_at(out, x, ls2);
}

/// Row `i`, aligned again, is the same text.
#[verifier::spinoff_prover]
#[verifier::rlimit(40)]
proof fn lemma_realigned_row(src: Seq<char>, pairs: Seq<Pair>, base_col: int, moved: Seq<Pair>, i: int)
    requires
        realign_input(src, pairs, base_col, moved),
        0 <= i < pairs.len(),
    ensures
        row_text(aligned_text(src, pairs, base_col), moved, base_col, i) == row_text(
            src,
            pairs,
            base_col,
            i,
        ),
{
    let n = pairs.len() as int;
    let out = aligned_text(src, pairs, base_col);
    let pi = rows_text(src, pairs, base_col, i).len() as int;
    let p = pairs[i];
    let lead = row_lead(src, pairs, i);
    let row = row_text(src, pairs, base_col, i);
    lemma_row_in_output(src, pairs, base_col, i);
    assert(one_line_row(src, p));
    lemma_one_line_row_text(src, pairs, base_col, i);
    lemma_moved_row_end(src, pairs, base_col, moved, i);
    lemma_realigned_line(src, pairs, base_col, moved, i);
    let x = pi + lead.len();
    let ls2 = x + base_col + 2;
    assert(row_lead(out, moved, i) == lead) by {
        if i == 0 {
            let tr = trim_end_ws(src.take(lhs_pos(src, p)));
            assert forall|t: int| 0 <= t < ls2 implies out[t] == row[t] by {
                assert(out[0 + t] == row[t]);
            }
            assert(out.take(ls2) =~= tr + (seq!['\n'] + spaces((base_col + 2) as nat)));
            crate::helpers::lemma_trim_end_ws_append(tr, seq!['\n'] + spaces((base_col + 2) as nat));
            crate::helpers::lemma_trim_end_ws_idem(src.take(lhs_pos(src, p)));
        } else {
            lemma_moved_row_end(src, pairs, base_col, moved, i - 1);
            assert forall|t: int| 0 <= t < lead.len() implies out.subrange(pi, x)[t] == lead[t] by {
                assert(out[pi + t] == row[t]);
            }
            assert(out.subrange(pi, x) =~= lead);
        }
    }
    assert(moved[i].lh_string@ == p.lh_string@);
    lemma_one_line_row_text(out, moved, base_col, i);
    lemma_max_rhs_anchor_same(pairs, moved, base_col, n);
}

/// The first `k` rows, aligned again, are the same text.
proof fn lemma_realigned_rows(src: Seq<char>, pairs: Seq<Pair>, base_col: int, moved: Seq<Pair>, k: int)
    requires
        realign_input(src, pairs, base_col, moved),
        0 <= k <= pairs.len(),
    ensures
        rows_text(aligned_text(src, pairs, base_col), moved, base_col, k) == rows_text(
            src,
            pairs,
            base_col,
            k,
        ),
    decreases k,
{
    if k > 0 {
        lemma_realigned_rows(src, pairs, base_col, moved, k - 1);
        lemma_realigned_row(src, pairs, base_col, moved, k - 1);
    }
}

/// Aligning aligned text changes nothing: when every row is one line (each
/// side the text of its span, only whitespace between them) and the rows are
/// in order, the aligned text, aligned again with the pairs moved to where
/// their sides now stand (`moved_pair`), is the same text.
#[verifier::spinoff_prover]
#[verifier::rlimit(40)]
pub proof fn lemma_realign_keeps_text(src: Seq<char>, pairs: Seq<Pair>, base_col: int, moved: Seq<Pair>)
    requires
        realign_input(src, pairs, base_col, moved),
    ensures
        aligned_text(aligned_text(src, pairs, base_col), moved, base_col) == aligned_text(
            src,
            pairs,
            base_col,
        ),
{
    let n = pairs.len() as int;
    if n > 0 {
        let out = aligned_text(src, pairs, base_col);
        assert forall|i: int| 0 <= i < n implies !rows_overlap(out, moved, i) by {
            lemma_realigned_line(src, pairs, base_col, moved, i);
            lemma_moved_row_end(src, pairs, base_col, moved, i);
            lemma_row_in_output(src, pairs, base_col, i);
            if i > 0 {
                lemma_realigned_line(src, pairs, base_col, moved, i - 1);
                lemma_moved_row_end(src, pairs, base_col, moved, i - 1);
                lemma_row_in_output(src, pairs, base_col, i - 1);
            }
        }
        lemma_realigned_rows(src, pairs, base_col, moved, n);
        lemma_moved_row_end(src, pairs, base_col, moved, n - 1);
        let big = rows_text(src, pairs, base_col, n);
        assert(out.skip(big.len() as int) =~= src.skip(row_end(src, pairs.last())));
    }
}

/// Sides keep their shape: row `i` is its kept text, the indentation to column
/// `base_col + 2`, the left-hand side, then what follows it. Every later line
/// of the left-hand side moves by as many columns as its first, from its
/// column in `src` to `base_col + 2`. A right-hand side that stays on the
/// line comes after spaces, and every later line of it moves by as many
/// columns as its first, from its column in `src` to `rhs_target`; one that
/// goes on the next line (after a multi-line left-hand side) starts there at
/// column `base_col + 4`, its later lines moved as much (see `keeps_lines`).
pub proof fn lemma_row_sides_move_whole(src: Seq<char>, pairs: Seq<Pair>, base_col: int, i: int)
    requires
        0 <= base_col,
        0 <= i < pairs.len(),
    ensures
        ({
            let p = pairs[i];
            let rh = p.rh_string@;
            let old_rhs_col = absolute_col(src, base_col, rhs_pos(src, p));
            let pl = placed_lhs(src, p, base_col);
            let pr = placed_rhs(src, pairs, p, base_col);
            {
                    &&& row_text(src, pairs, base_col, i) == row_lead(src, pairs, i) + spaces(
                        (base_col + 2) as nat,
                    ) + pl + pr
                    &&& keeps_lines(
                        p.lh_string@,
                        pl,
                        base_col + 2 - absolute_col(src, base_col, lhs_pos(src, p)),
                    )
                    &&& rh.len() == 0 ==> pr.len() == 0
                    &&& rh.len() > 0 && !(lhs_multiline(p) && rh.contains('\n')) ==> exists|
                        g: nat,
                        v: Seq<char>,
                    | pr == spaces(g) + v && keeps_lines(
                        rh,
                        v,
                        rhs_target(pairs, base_col) - old_rhs_col,
                    )
                    &&& rh.len() > 0 && lhs_multiline(p) && rh.contains('\n') ==> exists|
                        v: Seq<char>,
                    | pr == seq!['\n'] + spaces((base_col + 4) as nat) + v && #[trigger] keeps_lines(
                        rh,
                        v,
                        base_col + 4 - old_rhs_col,
                    )
                }
        }),
{
    reveal(row_text);
    let p = pairs[i];
    let rh = p.rh_string@;
    let old_rhs_col = absolute_col(src, base_col, rhs_pos(src, p));
    let dl = base_col + 2 - absolute_col(src, base_col, lhs_pos(src, p));
    crate::helpers::lemma_shift_block_keeps_lines(p.lh_string@, dl);
    let pl = placed_lhs(src, p, base_col);
    if !lhs_multiline(p) {
        crate::helpers::lemma_lines_of_single(p.lh_string@);
    }
    assert(crate::helpers::keeps_lines(p.lh_string@, pl, dl));
    let pr = placed_rhs(src, pairs, p, base_col);
    if rh.len() > 0 {
        if lhs_multiline(p) && rh.contains('\n') {
            let v = shift_block(rh, base_col + 4 - old_rhs_col);
            crate::helpers::lemma_shift_block_keeps_lines(rh, base_col + 4 - old_rhs_col);
            assert(pr == seq!['\n'] + spaces((base_col + 4) as nat) + v);
        } else {
            let target = rhs_target(pairs, base_col);
            let anchor = if lhs_multiline(p) {
                last_line(placed_lhs(src, p, base_col)).len() as int
            } else {
                base_col + 2 + p.lh_width
            };
            let g: nat = if target > anchor {
                (target - anchor) as nat
            } else {
                0
            };
            let v = shift_block(rh, target - old_rhs_col);
            crate::helpers::lemma_shift_block_keeps_lines(rh, target - old_rhs_col);
            assert(pr == spaces(g) + v);
        }
    }
    assert(row_text(src, pairs, base_col, i) == row_lead(src, pairs, i) + spaces((base_col + 2) as nat)
        + pl + pr);
}

/// The largest anchor is that of one of the rows with a right-hand side, and
/// there is none exactly when no row has one.
proof fn lemma_max_rhs_anchor_attained(pairs: Seq<Pair>, base_col: int, k: int)
    requires
        0 <= k <= pairs.len(),
    ensures
        max_rhs_anchor(pairs, base_col, k) is None <==> (forall|j: int|
            0 <= j < k ==> (#[trigger] pairs[j]).rh_string@.len() == 0),
        max_rhs_anchor(pairs, base_col, k) matches Some(m) ==> exists|w: int|
            0 <= w < k && pairs[w].rh_string@.len() > 0 && m == rhs_anchor(pairs[w], base_col),
    decreases k,
{
    if k > 0 {
        lemma_max_rhs_anchor_attained(pairs, base_col, k - 1);
    }
}

/// The column of the right-hand sides: three past the form's column when no
/// row has a right-hand side; otherwise one past the largest anchor among the
/// rows that have one, a row's anchor being where its left-hand side ends
/// (`base_col + 2 + lh_width` for a one-line left-hand side, the length of
/// its last line otherwise).
pub proof fn lemma_rhs_target_widest(pairs: Seq<Pair>, base_col: int)
    ensures
        (forall|j: int| 0 <= j < pairs.len() ==> (#[trigger] pairs[j]).rh_string@.len() == 0)
            ==> rhs_target(pairs, base_col) == base_col + 3,
        (exists|j: int| 0 <= j < pairs.len() && (#[trigger] pairs[j]).rh_string@.len() > 0)
            ==> exists|k: int|
            {
                &&& 0 <= k < pairs.len()
                &&& pairs[k].rh_string@.len() > 0
                &&& rhs_target(pairs, base_col) == (if pairs[k].lh_string@.contains('\n') {
                    last_line(pairs[k].lh_string@).len() as int
                } else {
                    base_col + 2 + pairs[k].lh_width
                }) + 1
                &&& forall|j: int|
                    0 <= j < pairs.len() && (#[trigger] pairs[j]).rh_string@.len() > 0 ==> (if pairs[j].lh_string@.contains('\n') {
                        last_line(pairs[j].lh_string@).len() as int
                    } else {
                        base_col + 2 + pairs[j].lh_width
                    }) <= (if pairs[k].lh_string@.contains('\n') {
                        last_line(pairs[k].lh_string@).len() as int
                    } else {
                        base_col + 2 + pairs[k].lh_width
                    })
            },
{
    let n = pairs.len() as int;
    lemma_max_rhs_anchor_attained(pairs, base_col, n);
    if exists|j: int| 0 <= j < n && (#[trigger] pairs[j]).rh_string@.len() > 0 {
        let j0 = choose|j: int| 0 <= j < n && (#[trigger] pairs[j]).rh_string@.len() > 0;
        assert(!(pairs[j0].rh_string@.len() == 0));
        let m = max_rhs_anchor(pairs, base_col, n)->0;
        let k = choose|w: int| 0 <= w < n && pairs[w].rh_string@.len() > 0 && m == rhs_anchor(pairs[w], base_col);
        assert forall|j: int| 0 <= j < n && (#[trigger] pairs[j]).rh_string@.len() > 0 implies rhs_anchor(pairs[j], base_col) <= rhs_anchor(pairs[k], base_col) by {
            lemma_max_rhs_anchor(pairs, base_col, n, j);
        }
    }
}

/// The first row starts a line of its own: what comes before it is the text of
/// `src` before its left-hand side, up to the last character that is not
/// whitespace (all that follows that character there being whitespace), then
/// a line feed.
pub proof fn lemma_first_row_starts_line(src: Seq<char>, pairs: Seq<Pair>)
    requires
        pairs.len() > 0,
    ensures
        ({
            let before = src.take(lhs_pos(src, pairs[0]));
            let lead = row_lead(src, pairs, 0);
            let kept = lead.len() - 1;
            &&& lead.len() >= 1
            &&& lead.last() == '\n'
            &&& kept <= before.len()
            &&& lead.take(kept) == before.take(kept)
            &&& all_ws(before.skip(kept))
            &&& kept == 0 || !crate::helpers::is_whitespace(before[kept - 1])
        }),
{
    let before = src.take(lhs_pos(src, pairs[0]));
    crate::helpers::lemma_trim_end_ws_shape(before);
    let t = trim_end_ws(before);
    assert((t + seq!['\n']).take(t.len() as int) =~= t);
}

} // verus!
