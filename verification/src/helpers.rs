//! Text primitives of the aligners: byte offsets and character positions,
//! line starts, columns, widths of last lines, whitespace trimming and the
//! shifting of multi-line blocks.
use vstd::prelude::*;

verus! {

// ---------------------------------------------------------------------------
// Byte offsets and character positions
// ---------------------------------------------------------------------------

/// Number of bytes that UTF-8 uses for `c`.
pub open spec fn utf8_width(c: char) -> nat {
    let u = c as u32;
    if u < 0x80 {
        1
    } else if u < 0x800 {
        2
    } else if u < 0x10000 {
        3
    } else {
        4
    }
}

/// Number of bytes of the UTF-8 encoding of `s`.
pub open spec fn utf8_len(s: Seq<char>) -> nat
    decreases s.len(),
{
    if s.len() == 0 {
        0
    } else {
        utf8_len(s.drop_last()) + utf8_width(s.last())
    }
}

/// `b` is the byte offset of a character boundary of `s` (its end included).
pub open spec fn is_char_boundary(s: Seq<char>, b: int) -> bool {
    exists|k: int| 0 <= k <= s.len() && #[trigger] utf8_len(s.take(k)) == b
}

/// The character position that the byte offset `b` stands for.
pub open spec fn char_index(s: Seq<char>, b: int) -> int {
    choose|k: int| 0 <= k <= s.len() && #[trigger] utf8_len(s.take(k)) == b
}

/// The byte offset of character position `k`.
pub open spec fn byte_offset(s: Seq<char>, k: int) -> int {
    utf8_len(s.take(k)) as int
}

pub proof fn lemma_utf8_len_take_step(s: Seq<char>, k: int)
    requires
        0 <= k < s.len(),
    ensures
        utf8_len(s.take(k + 1)) == utf8_len(s.take(k)) + utf8_width(s[k]),
{
    assert(s.take(k + 1).drop_last() =~= s.take(k));
}

/// Longer prefixes have longer encodings.
pub proof fn lemma_utf8_len_take_strict(s: Seq<char>, i: int, j: int)
    requires
        0 <= i < j <= s.len(),
    ensures
        utf8_len(s.take(i)) < utf8_len(s.take(j)),
    decreases j - i,
{
    lemma_utf8_len_take_step(s, j - 1);
    if i < j - 1 {
        lemma_utf8_len_take_strict(s, i, j - 1);
    }
}

/// A boundary names exactly one character position.
pub proof fn lemma_char_index(s: Seq<char>, b: int, k: int)
    requires
        0 <= k <= s.len(),
        utf8_len(s.take(k)) == b,
    ensures
        is_char_boundary(s, b),
        char_index(s, b) == k,
{
    assert(is_char_boundary(s, b));
    let c = char_index(s, b);
    if c < k {
        lemma_utf8_len_take_strict(s, c, k);
    } else if k < c {
        lemma_utf8_len_take_strict(s, k, c);
    }
}

/// Facts about the position of a boundary.
pub proof fn lemma_char_index_facts(s: Seq<char>, b: int)
    requires
        is_char_boundary(s, b),
    ensures
        0 <= char_index(s, b) <= s.len(),
        utf8_len(s.take(char_index(s, b))) == b,
{
}

/// The UTF-8 width of `c`.
pub fn utf8_width_of(c: char) -> (w: usize)
    ensures
        w == utf8_width(c),
{
    let u = c as u32;
    if u < 0x80 {
        1
    } else if u < 0x800 {
        2
    } else if u < 0x10000 {
        3
    } else {
        4
    }
}

/// The character position of the byte offset `b` in `text`.
#[verifier::spinoff_prover]
#[verifier::rlimit(40)]
pub fn char_pos(text: &[char], b: usize) -> (k: usize)
    requires
        is_char_boundary(text@, b as int),
    ensures
        k == char_index(text@, b as int),
        k <= text@.len(),
{
    let ghost target = char_index(text@, b as int);
    let mut k: usize = 0;
    let mut sum: usize = 0;
    while sum < b
        invariant
            0 <= target <= text@.len(),
            utf8_len(text@.take(target)) == b,
            k <= target,
            sum == utf8_len(text@.take(k as int)),
            sum <= b,
        decreases b - sum,
    {
        proof {
            if k == target {
                assert(false);
            }
            lemma_utf8_len_take_step(text@, k as int);
            if k + 1 < target {
                lemma_utf8_len_take_strict(text@, k + 1, target);
            }
        }
        let w = utf8_width_of(text[k]);
        sum = sum + w;
        k = k + 1;
    }
    proof {
        if k < target {
            lemma_utf8_len_take_strict(text@, k as int, target);
        }
        lemma_char_index(text@, b as int, k as int);
    }
    k
}

// ---------------------------------------------------------------------------
// Lines and columns
// ---------------------------------------------------------------------------

/// Position of the first character of the line that holds position `k`.
pub open spec fn line_start(s: Seq<char>, k: int) -> int
    decreases k,
{
    if k <= 0 {
        0
    } else if s[k - 1] == '\n' {
        k
    } else {
        line_start(s, k - 1)
    }
}

/// Column of position `k` in a text whose first character stands at column
/// `base_col`: lines after the first start at column 0.
pub open spec fn absolute_col(s: Seq<char>, base_col: int, k: int) -> int {
    let ls = line_start(s, k);
    if ls == 0 {
        base_col + k
    } else {
        k - ls
    }
}

/// The last line of `s`, as `str::lines` yields it: a final line ending
/// ("\n" or "\r\n") ends the last line and does not open a new one.
pub open spec fn last_line(s: Seq<char>) -> Seq<char> {
    if s.len() == 0 {
        Seq::empty()
    } else if s.last() == '\n' {
        let e = s.len() - 1;
        let l = s.subrange(line_start(s, e), e);
        if l.len() > 0 && l.last() == '\r' {
            l.drop_last()
        } else {
            l
        }
    } else {
        s.subrange(line_start(s, s.len() as int), s.len() as int)
    }
}

/// `n` spaces.
pub open spec fn spaces(n: nat) -> Seq<char> {
    Seq::new(n, |i: int| ' ')
}

/// The White_Space characters of Unicode, as `char::is_whitespace` tells them.
pub open spec fn is_whitespace(c: char) -> bool {
    let u = c as u32;
    (0x9 <= u <= 0xd) || u == 0x20 || u == 0x85 || u == 0xa0 || u == 0x1680 || (0x2000 <= u
        <= 0x200a) || u == 0x2028 || u == 0x2029 || u == 0x202f || u == 0x205f || u == 0x3000
}

/// `s` without its trailing whitespace.
pub open spec fn trim_end_ws(s: Seq<char>) -> Seq<char>
    decreases s.len(),
{
    if s.len() > 0 && is_whitespace(s.last()) {
        trim_end_ws(s.drop_last())
    } else {
        s
    }
}

/// `s` without its leading whitespace.
pub open spec fn trim_start_ws(s: Seq<char>) -> Seq<char>
    decreases s.len(),
{
    if s.len() > 0 && is_whitespace(s[0]) {
        trim_start_ws(s.drop_first())
    } else {
        s
    }
}

/// Position of the first line feed at or after `from`, or the length of `s`.
pub open spec fn next_newline(s: Seq<char>, from: int) -> int
    decreases s.len() - from,
{
    if from >= s.len() {
        s.len() as int
    } else if s[from] == '\n' {
        from
    } else {
        next_newline(s, from + 1)
    }
}

/// `line` without up to `n` of its leading spaces.
pub open spec fn strip_spaces(line: Seq<char>, n: nat) -> Seq<char>
    decreases n,
{
    if n > 0 && line.len() > 0 && line[0] == ' ' {
        strip_spaces(line.drop_first(), (n - 1) as nat)
    } else {
        line
    }
}

/// A line moved `d` columns: to the right by `d` added spaces, to the left by
/// removing up to `-d` leading spaces. Empty lines stay empty.
pub open spec fn shift_line(line: Seq<char>, d: int) -> Seq<char> {
    if line.len() == 0 {
        line
    } else if d >= 0 {
        spaces(d as nat) + line
    } else {
        strip_spaces(line, (-d) as nat)
    }
}

/// The lines of `s` from position `from` on, each moved `d` columns.
pub open spec fn shift_lines_from(s: Seq<char>, d: int, from: int) -> Seq<char>
    decreases s.len() - from,
{
    if from < 0 || from > s.len() {
        Seq::empty()
    } else {
        let e = next_newline(s, from);
        if e < from || e >= s.len() {
            shift_line(s.subrange(from, s.len() as int), d)
        } else {
            shift_line(s.subrange(from, e), d) + seq!['\n'] + shift_lines_from(s, d, e + 1)
        }
    }
}

/// A block of text moved `d` columns: its first line stays as it is (it is
/// placed by the caller) and every later line moves.
pub open spec fn shift_block(s: Seq<char>, d: int) -> Seq<char> {
    let e = next_newline(s, 0);
    if e >= s.len() {
        s
    } else {
        s.take(e) + seq!['\n'] + shift_lines_from(s, d, e + 1)
    }
}

pub proof fn lemma_line_start_bounds(s: Seq<char>, k: int)
    requires
        0 <= k,
    ensures
        0 <= line_start(s, k) <= k,
    decreases k,
{
    if k > 0 && s[k - 1] != '\n' {
        lemma_line_start_bounds(s, k - 1);
    }
}

pub proof fn lemma_next_newline_bounds(s: Seq<char>, from: int)
    requires
        0 <= from <= s.len(),
    ensures
        from <= next_newline(s, from) <= s.len(),
        next_newline(s, from) < s.len() ==> s[next_newline(s, from)] == '\n',
        forall|i: int| from <= i < next_newline(s, from) ==> s[i] != '\n',
    decreases s.len() - from,
{
    if from < s.len() && s[from] != '\n' {
        lemma_next_newline_bounds(s, from + 1);
    }
}

/// Shifting keeps the line breaks of a block.
pub proof fn lemma_shift_block_keeps_newline(s: Seq<char>, d: int)
    requires
        s.contains('\n'),
    ensures
        shift_block(s, d).contains('\n'),
{
    lemma_next_newline_bounds(s, 0);
    let e = next_newline(s, 0);
    if e >= s.len() {
        let j = choose|j: int| 0 <= j < s.len() && s[j] == '\n';
        assert(false);
    }
    let r = shift_block(s, d);
    assert(r[e] == '\n');
}

/// Removing `n` leading spaces undoes adding them.
pub proof fn lemma_strip_added_spaces(line: Seq<char>, n: nat)
    ensures
        strip_spaces(spaces(n) + line, n) == line,
    decreases n,
{
    if n > 0 {
        assert((spaces(n) + line).drop_first() =~= spaces((n - 1) as nat) + line);
        lemma_strip_added_spaces(line, (n - 1) as nat);
    } else {
        assert(spaces(0) + line =~= line);
    }
}

/// Moving a line right by `d` columns and back restores it.
pub proof fn lemma_shift_line_round_trip(line: Seq<char>, d: int)
    requires
        d >= 0,
    ensures
        shift_line(shift_line(line, d), -d) == line,
{
    if line.len() > 0 {
        if d == 0 {
            assert(spaces(0) + line =~= line);
        } else {
            lemma_strip_added_spaces(line, d as nat);
        }
    }
}

/// Shifting adds no line feed to a line.
pub proof fn lemma_shift_line_no_newline(line: Seq<char>, d: int)
    requires
        !line.contains('\n'),
    ensures
        !shift_line(line, d).contains('\n'),
{
    if line.len() > 0 {
        if d >= 0 {
            let r = spaces(d as nat) + line;
            assert forall|i: int| 0 <= i < r.len() implies r[i] != '\n' by {
                if i >= d {
                    assert(r[i] == line[i - d]);
                }
            }
        } else {
            lemma_strip_spaces_subrange(line, (-d) as nat);
        }
    }
}

/// Stripping spaces leaves a suffix of the line.
pub proof fn lemma_strip_spaces_subrange(line: Seq<char>, n: nat)
    ensures
        exists|k: int|
            0 <= k <= line.len() && strip_spaces(line, n) == line.subrange(k, line.len() as int),
    decreases n,
{
    if n > 0 && line.len() > 0 && line[0] == ' ' {
        lemma_strip_spaces_subrange(line.drop_first(), (n - 1) as nat);
        let k = choose|k: int|
            0 <= k <= line.drop_first().len() && strip_spaces(line.drop_first(), (n - 1) as nat)
                == line.drop_first().subrange(k, line.drop_first().len() as int);
        assert(line.drop_first().subrange(k, line.drop_first().len() as int) =~= line.subrange(
            k + 1,
            line.len() as int,
        ));
    } else {
        assert(line.subrange(0, line.len() as int) =~= line);
    }
}

/// The first line feed in `a + b` at or after `a.len() + k` is the first one
/// of `b` at or after `k`, moved by `a.len()`.
pub proof fn lemma_next_newline_suffix(a: Seq<char>, b: Seq<char>, k: int)
    requires
        0 <= k <= b.len(),
    ensures
        next_newline(a + b, a.len() + k) == a.len() + next_newline(b, k),
    decreases b.len() - k,
{
    if k < b.len() && b[k] != '\n' {
        assert((a + b)[a.len() + k] == b[k]);
        lemma_next_newline_suffix(a, b, k + 1);
    } else if k < b.len() {
        assert((a + b)[a.len() + k] == b[k]);
    }
}

/// The lines of `a + b` from a position in `b` on are those of `b`.
pub proof fn lemma_shift_lines_suffix(a: Seq<char>, b: Seq<char>, d: int, k: int)
    requires
        0 <= k <= b.len(),
    ensures
        shift_lines_from(a + b, d, a.len() + k) == shift_lines_from(b, d, k),
    decreases b.len() - k,
{
    let s = a + b;
    lemma_next_newline_suffix(a, b, k);
    lemma_next_newline_bounds(b, k);
    let e = next_newline(b, k);
    if e >= b.len() {
        assert(s.subrange(a.len() + k, s.len() as int) =~= b.subrange(k, b.len() as int));
    } else {
        assert(s.subrange(a.len() + k, a.len() + e) =~= b.subrange(k, e));
        lemma_shift_lines_suffix(a, b, d, e + 1);
    }
}

/// Shifting the lines of `t` from `from` on by `d` and then the result back by
/// `-d` gives those lines back.
#[verifier::spinoff_prover]
#[verifier::rlimit(40)]
pub proof fn lemma_shift_lines_round_trip(t: Seq<char>, d: int, from: int)
    requires
        d >= 0,
        0 <= from <= t.len(),
    ensures
        shift_lines_from(shift_lines_from(t, d, from), -d, 0) == t.subrange(from, t.len() as int),
    decreases t.len() - from,
{
    lemma_next_newline_bounds(t, from);
    let e = next_newline(t, from);
    let line = t.subrange(from, e);
    let sl = shift_line(line, d);
    assert(!line.contains('\n')) by {
        assert forall|i: int| 0 <= i < line.len() implies line[i] != '\n' by {
            assert(line[i] == t[from + i]);
        }
    }
    lemma_shift_line_no_newline(line, d);
    lemma_shift_line_round_trip(line, d);
    if e >= t.len() {
        assert(line =~= t.subrange(from, t.len() as int));
        let w = shift_lines_from(t, d, from);
        assert(w == sl);
        lemma_no_newline_next(sl, 0);
        assert(sl.subrange(0, sl.len() as int) =~= sl);
    } else {
        let rest = shift_lines_from(t, d, e + 1);
        let w = shift_lines_from(t, d, from);
        assert(w == sl + seq!['\n'] + rest);
        let head = sl + seq!['\n'];
        assert(w =~= head + rest);
        lemma_no_newline_next(sl, 0);
        lemma_next_newline_prefix(sl, rest);
        assert(next_newline(w, 0) == sl.len());
        assert(w.subrange(0, sl.len() as int) =~= sl);
        lemma_shift_lines_suffix(head, rest, -d, 0);
        assert(shift_lines_from(w, -d, (sl.len() + 1) as int) == shift_lines_from(rest, -d, 0));
        lemma_shift_lines_round_trip(t, d, e + 1);
        assert(t.subrange(from, t.len() as int) =~= line + seq!['\n'] + t.subrange(
            e + 1,
            t.len() as int,
        ));
    }
}

/// A line without line feeds has none up to its end.
pub proof fn lemma_no_newline_next(s: Seq<char>, k: int)
    requires
        !s.contains('\n'),
        0 <= k <= s.len(),
    ensures
        next_newline(s, k) == s.len(),
    decreases s.len() - k,
{
    if k < s.len() {
        assert(s[k] != '\n');
        lemma_no_newline_next(s, k + 1);
    }
}

/// The first line feed of `sl + ['\n'] + rest` ends `sl` when `sl` has none.
pub proof fn lemma_next_newline_prefix(sl: Seq<char>, rest: Seq<char>)
    requires
        !sl.contains('\n'),
    ensures
        next_newline(sl + seq!['\n'] + rest, 0) == sl.len(),
{
    let w = sl + seq!['\n'] + rest;
    assert(w.subrange(0, sl.len() as int) =~= sl);
    assert forall|k: int| 0 <= k <= sl.len() implies next_newline(w, k) == sl.len() by {
        lemma_next_newline_at(w, sl, k);
    }
}

proof fn lemma_next_newline_at(w: Seq<char>, sl: Seq<char>, k: int)
    requires
        !sl.contains('\n'),
        w.len() > sl.len(),
        w.subrange(0, sl.len() as int) == sl,
        w[sl.len() as int] == '\n',
        0 <= k <= sl.len(),
    ensures
        next_newline(w, k) == sl.len(),
    decreases sl.len() - k,
{
    if k < sl.len() {
        assert(w[k] == sl[k]);
        lemma_next_newline_at(w, sl, k + 1);
    }
}

/// Moving the later lines of a block `d` columns to the right and then back
/// gives the block back.
pub proof fn lemma_shift_block_round_trip(t: Seq<char>, d: int)
    requires
        d >= 0,
    ensures
        shift_block(shift_block(t, d), -d) == t,
{
    lemma_next_newline_bounds(t, 0);
    let e = next_newline(t, 0);
    if e < t.len() {
        let first = t.take(e);
        let rest = shift_lines_from(t, d, e + 1);
        let u = shift_block(t, d);
        assert(u == first + seq!['\n'] + rest);
        assert(!first.contains('\n')) by {
            assert forall|i: int| 0 <= i < first.len() implies first[i] != '\n' by {
                assert(first[i] == t[i]);
            }
        }
        lemma_next_newline_prefix(first, rest);
        assert(u.take(e) =~= first);
        let head = first + seq!['\n'];
        assert(u =~= head + rest);
        lemma_shift_lines_suffix(head, rest, -d, 0);
        lemma_shift_lines_round_trip(t, d, e + 1);
        assert(t =~= first + seq!['\n'] + t.subrange(e + 1, t.len() as int));
    }
}

/// Position of the line that holds position `k` of `text`.
pub fn line_start_of(text: &[char], k: usize) -> (r: usize)
    requires
        k <= text@.len(),
    ensures
        r == line_start(text@, k as int),
        r <= k,
{
    let mut j = k;
    while j > 0 && text[j - 1] != '\n'
        invariant
            j <= k <= text@.len(),
            line_start(text@, j as int) == line_start(text@, k as int),
        decreases j,
    {
        j = j - 1;
    }
    j
}

/// Column of position `k` of `text`, whose first character stands at `base_col`.
pub fn absolute_col_of(text: &[char], base_col: usize, k: usize) -> (r: usize)
    requires
        k <= text@.len(),
        base_col + k <= usize::MAX,
    ensures
        r == absolute_col(text@, base_col as int, k as int),
{
    let ls = line_start_of(text, k);
    if ls == 0 {
        base_col + k
    } else {
        k - ls
    }
}

/// Whether `c` is White_Space in Unicode.
pub fn is_whitespace_char(c: char) -> (r: bool)
    ensures
        r == is_whitespace(c),
{
    let u = c as u32;
    (0x9 <= u && u <= 0xd) || u == 0x20 || u == 0x85 || u == 0xa0 || u == 0x1680 || (0x2000 <= u
        && u <= 0x200a) || u == 0x2028 || u == 0x2029 || u == 0x202f || u == 0x205f || u == 0x3000
}

/// Whether `text` holds a line feed.
pub fn contains_newline(text: &[char]) -> (r: bool)
    ensures
        r == text@.contains('\n'),
{
    let mut i: usize = 0;
    while i < text.len()
        invariant
            i <= text@.len(),
            forall|j: int| 0 <= j < i ==> text@[j] != '\n',
        decreases text.len() - i,
    {
        if text[i] == '\n' {
            assert(text@[i as int] == '\n');
            return true;
        }
        i = i + 1;
    }
    false
}

/// Number of characters of the last line of `text`.
pub fn last_line_width_of(text: &[char]) -> (r: usize)
    ensures
        r == last_line(text@).len(),
{
    let n = text.len();
    if n == 0 {
        return 0;
    }
    if text[n - 1] == '\n' {
        let e = n - 1;
        let ls = line_start_of(text, e);
        if e > ls && text[e - 1] == '\r' {
            e - 1 - ls
        } else {
            e - ls
        }
    } else {
        let ls = line_start_of(text, n);
        n - ls
    }
}

// ---------------------------------------------------------------------------
// Strings
// ---------------------------------------------------------------------------

/// Appends `n` spaces.
pub fn push_spaces(out: &mut String, n: usize)
    ensures
        final(out)@ == old(out)@ + spaces(n as nat),
{
    let mut i: usize = 0;
    while i < n
        invariant
            i <= n,
            out@ == old(out)@ + spaces(i as nat),
        decreases n - i,
    {
        push_char(out, ' ');
        i = i + 1;
        assert(spaces(i as nat) =~= spaces((i - 1) as nat).push(' '));
    }
}

/// Appends the characters of `text` from position `a` to position `b`.
pub fn push_range(out: &mut String, text: &[char], a: usize, b: usize)
    requires
        a <= b <= text@.len(),
    ensures
        final(out)@ == old(out)@ + text@.subrange(a as int, b as int),
{
    let mut i = a;
    while i < b
        invariant
            a <= i <= b <= text@.len(),
            out@ == old(out)@ + text@.subrange(a as int, i as int),
        decreases b - i,
    {
        push_char(out, text[i]);
        assert(text@.subrange(a as int, i + 1) =~= text@.subrange(a as int, i as int).push(
            text@[i as int],
        ));
        i = i + 1;
    }
}

/// Appends the characters of `text` from `a` to `b`, without their trailing whitespace.
pub fn push_range_trim_end(out: &mut String, text: &[char], a: usize, b: usize)
    requires
        a <= b <= text@.len(),
    ensures
        final(out)@ == old(out)@ + trim_end_ws(text@.subrange(a as int, b as int)),
{
    let mut e = b;
    while e > a && is_whitespace_char(text[e - 1])
        invariant
            a <= e <= b <= text@.len(),
            trim_end_ws(text@.subrange(a as int, b as int)) == trim_end_ws(
                text@.subrange(a as int, e as int),
            ),
        decreases e,
    {
        assert(text@.subrange(a as int, e - 1) =~= text@.subrange(a as int, e as int).drop_last());
        e = e - 1;
    }
    assert(e > a ==> text@.subrange(a as int, e as int).last() == text@[e - 1]);
    push_range(out, text, a, e);
}

/// Appends the characters of `text` without their leading whitespace.
pub fn push_trim_start(out: &mut String, text: &[char])
    ensures
        final(out)@ == old(out)@ + trim_start_ws(text@),
{
    let n = text.len();
    let mut s: usize = 0;
    assert(text@.subrange(0, n as int) =~= text@);
    while s < n && is_whitespace_char(text[s])
        invariant
            s <= n == text@.len(),
            trim_start_ws(text@) == trim_start_ws(text@.subrange(s as int, n as int)),
        decreases n - s,
    {
        assert(text@.subrange(s + 1, n as int) =~= text@.subrange(s as int, n as int).drop_first());
        s = s + 1;
    }
    push_range(out, text, s, n);
}

/// Appends the line `text[a..b]` moved from column `old_col` to column `target_col`.
fn push_shifted_line(out: &mut String, text: &[char], a: usize, b: usize, target_col: usize, old_col: usize)
    requires
        a <= b <= text@.len(),
    ensures
        final(out)@ == old(out)@ + shift_line(text@.subrange(a as int, b as int), target_col - old_col),
{
    if a == b {
        return;
    }
    if target_col >= old_col {
        push_spaces(out, target_col - old_col);
        push_range(out, text, a, b);
    } else {
        let n = old_col - target_col;
        let mut i = a;
        while i < b && i - a < n && text[i] == ' '
            invariant
                a <= i <= b <= text@.len(),
                i - a <= n,
                strip_spaces(text@.subrange(a as int, b as int), n as nat) == strip_spaces(
                    text@.subrange(i as int, b as int),
                    (n - (i - a)) as nat,
                ),
            decreases b - i,
        {
            assert(text@.subrange(i + 1, b as int) =~= text@.subrange(i as int, b as int).drop_first());
            i = i + 1;
        }
        push_range(out, text, i, b);
    }
}

/// Appends the block `text[a..b]`, every line after its first moved from
/// column `old_col` to column `target_col`.
#[verifier::spinoff_prover]
#[verifier::rlimit(40)]
pub fn push_shifted_block(out: &mut String, text: &[char], a: usize, b: usize, target_col: usize, old_col: usize)
    requires
        a <= b <= text@.len(),
    ensures
        final(out)@ == old(out)@ + shift_block(text@.subrange(a as int, b as int), target_col - old_col),
{
    let ghost t = text@.subrange(a as int, b as int);
    let ghost d: int = target_col - old_col;
    let e = find_newline(text, a, b);
    assert(next_newline(text@.subrange(a as int, b as int), 0) == e - a);
    if e == b {
        assert(t.subrange(0, t.len() as int) =~= t);
        push_range(out, text, a, b);
        return;
    }
    push_range(out, text, a, e);
    push_char(out, '\n');
    assert(t.take(e - a) =~= text@.subrange(a as int, e as int));
    assert(out@ + shift_lines_from(t, d, e + 1 - a) =~= old(out)@ + shift_block(t, d));
    let mut pos = e + 1;
    while pos <= b
        invariant
            a < pos <= b + 1,
            b <= text@.len(),
            t == text@.subrange(a as int, b as int),
            d == target_col - old_col,
            out@ + shift_lines_from(t, d, pos - a) == old(out)@ + shift_block(t, d),
        decreases b + 1 - pos,
    {
        let ghost before: Seq<char> = out@;
        let f = find_newline(text, pos, b);
        assert(next_newline(text@.subrange(a as int, b as int), pos - a) == f - a);
        assert(t.subrange(pos - a, f - a) =~= text@.subrange(pos as int, f as int));
        push_shifted_line(out, text, pos, f, target_col, old_col);
        if f == b {
            assert(t.subrange(pos - a, t.len() as int) =~= text@.subrange(pos as int, f as int));
            assert(out@ =~= before + shift_lines_from(t, d, pos - a));
            return;
        }
        push_char(out, '\n');
        assert(out@ + shift_lines_from(t, d, f + 1 - a) =~= before + shift_lines_from(t, d, pos - a));
        pos = f + 1;
    }
    assert(shift_lines_from(t, d, pos - a) =~= Seq::<char>::empty());
    assert(out@ =~= out@ + shift_lines_from(t, d, pos - a));
}

/// Position of the first line feed of `text` in `[a, b)`, or `b`.
fn find_newline(text: &[char], a: usize, b: usize) -> (f: usize)
    requires
        a <= b <= text@.len(),
    ensures
        a <= f <= b,
        f < b ==> text@[f as int] == '\n',
        forall|i: int| a <= i < f ==> text@[i] != '\n',
        forall|c: int| 0 <= c <= a ==> next_newline(text@.subrange(c, b as int), a - c) == f - c,
{
    let mut f = a;
    while f < b && text[f] != '\n'
        invariant
            a <= f <= b <= text@.len(),
            forall|i: int| a <= i < f ==> text@[i] != '\n',
            forall|c: int|
                0 <= c <= a ==> next_newline(text@.subrange(c, b as int), a - c) == next_newline(
                    text@.subrange(c, b as int),
                    f - c,
                ),
        decreases b - f,
    {
        assert forall|c: int| 0 <= c <= a implies next_newline(text@.subrange(c, b as int), f - c)
            == next_newline(text@.subrange(c, b as int), f + 1 - c) by {
            assert(text@.subrange(c, b as int)[f - c] == text@[f as int]);
        }
        f = f + 1;
    }
    f
}

/// Appends all the characters of `text`.
pub fn push_all(out: &mut String, text: &[char])
    ensures
        final(out)@ == old(out)@ + text@,
{
    assert(text@.subrange(0, text@.len() as int) =~= text@);
    push_range(out, text, 0, text.len());
}

/// A string that holds the characters of `text`.
pub fn string_of(text: &[char]) -> (s: String)
    ensures
        s@ == text@,
{
    let mut s = String::new();
    push_all(&mut s, text);
    assert(s@ =~= text@);
    s
}

// ---------------------------------------------------------------------------
// Characters and strings
// ---------------------------------------------------------------------------

/// Appends one character to a string (`String::push`).
#[verifier::external_body]
pub(crate) fn push_char(out: &mut String, c: char)
    ensures
        final(out)@ == old(out)@.push(c),
{
    out.push(c);
}

/// The characters of `s`, in order.
pub fn chars_of(s: &str) -> (res: Vec<char>)
    ensures
        res@ == s@,
{
    let mut res: Vec<char> = Vec::new();
    for c in it: s.chars()
        invariant
            res@ == it.seq().take(it.index()),
    {
        res.push(c);
    }
    res
}

// ---------------------------------------------------------------------------
// Text without whitespace
// ---------------------------------------------------------------------------

/// The characters of `s` that are not whitespace, in order.
pub open spec fn non_ws(s: Seq<char>) -> Seq<char> {
    s.filter(|c: char| !is_whitespace(c))
}

/// Every character of `s` is whitespace.
pub open spec fn all_ws(s: Seq<char>) -> bool {
    forall|i: int| 0 <= i < s.len() ==> is_whitespace(#[trigger] s[i])
}

pub proof fn lemma_non_ws_add(a: Seq<char>, b: Seq<char>)
    ensures
        non_ws(a + b) == non_ws(a) + non_ws(b),
{
    Seq::filter_distributes_over_add(a, b, |c: char| !is_whitespace(c));
}

/// Whitespace has no characters that are not whitespace.
pub proof fn lemma_non_ws_all_ws(s: Seq<char>)
    requires
        all_ws(s),
    ensures
        non_ws(s) == Seq::<char>::empty(),
    decreases s.len(),
{
    reveal_with_fuel(Seq::<_>::filter, 1);
    if s.len() > 0 {
        assert(all_ws(s.drop_last()));
        lemma_non_ws_all_ws(s.drop_last());
        assert(is_whitespace(s[s.len() - 1]));
    }
}

pub proof fn lemma_non_ws_spaces(n: nat)
    ensures
        non_ws(spaces(n)) == Seq::<char>::empty(),
{
    lemma_non_ws_all_ws(spaces(n));
}

/// Splitting `s` at `i` and `j` splits what is not whitespace in it.
pub proof fn lemma_non_ws_split(s: Seq<char>, i: int, j: int, k: int)
    requires
        0 <= i <= j <= k <= s.len(),
    ensures
        non_ws(s.subrange(i, k)) == non_ws(s.subrange(i, j)) + non_ws(s.subrange(j, k)),
{
    assert(s.subrange(i, k) =~= s.subrange(i, j) + s.subrange(j, k));
    lemma_non_ws_add(s.subrange(i, j), s.subrange(j, k));
}

pub proof fn lemma_non_ws_trim_end(s: Seq<char>)
    ensures
        non_ws(trim_end_ws(s)) == non_ws(s),
    decreases s.len(),
{
    reveal_with_fuel(Seq::<_>::filter, 1);
    if s.len() > 0 && is_whitespace(s.last()) {
        lemma_non_ws_trim_end(s.drop_last());
    }
}

pub proof fn lemma_non_ws_trim_start(s: Seq<char>)
    ensures
        non_ws(trim_start_ws(s)) == non_ws(s),
    decreases s.len(),
{
    if s.len() > 0 && is_whitespace(s[0]) {
        lemma_non_ws_trim_start(s.drop_first());
        assert(s =~= seq![s[0]] + s.drop_first());
        lemma_non_ws_add(seq![s[0]], s.drop_first());
        lemma_non_ws_all_ws(seq![s[0]]);
    }
}

pub proof fn lemma_non_ws_strip_spaces(line: Seq<char>, n: nat)
    ensures
        non_ws(strip_spaces(line, n)) == non_ws(line),
    decreases n,
{
    if n > 0 && line.len() > 0 && line[0] == ' ' {
        lemma_non_ws_strip_spaces(line.drop_first(), (n - 1) as nat);
        assert(line =~= seq![line[0]] + line.drop_first());
        lemma_non_ws_add(seq![line[0]], line.drop_first());
        lemma_non_ws_all_ws(seq![line[0]]);
    }
}

pub proof fn lemma_non_ws_shift_line(line: Seq<char>, d: int)
    ensures
        non_ws(shift_line(line, d)) == non_ws(line),
{
    if line.len() > 0 {
        if d >= 0 {
            lemma_non_ws_add(spaces(d as nat), line);
            lemma_non_ws_spaces(d as nat);
            assert(Seq::<char>::empty() + non_ws(line) =~= non_ws(line));
        } else {
            lemma_non_ws_strip_spaces(line, (-d) as nat);
        }
    }
}

pub proof fn lemma_non_ws_shift_lines(s: Seq<char>, d: int, from: int)
    requires
        0 <= from <= s.len(),
    ensures
        non_ws(shift_lines_from(s, d, from)) == non_ws(s.subrange(from, s.len() as int)),
    decreases s.len() - from,
{
    lemma_next_newline_bounds(s, from);
    let e = next_newline(s, from);
    let line = s.subrange(from, e);
    lemma_non_ws_shift_line(line, d);
    if e < s.len() {
        lemma_non_ws_shift_lines(s, d, e + 1);
        let nl = seq!['\n'];
        let rest = shift_lines_from(s, d, e + 1);
        lemma_non_ws_add(shift_line(line, d) + nl, rest);
        lemma_non_ws_add(shift_line(line, d), nl);
        lemma_non_ws_all_ws(nl);
        lemma_non_ws_split(s, from, e, s.len() as int);
        lemma_non_ws_split(s, e, e + 1, s.len() as int);
        assert(s.subrange(e, e + 1) =~= nl);
        assert(non_ws(s.subrange(from, s.len() as int)) =~= non_ws(line) + non_ws(nl) + non_ws(
            s.subrange(e + 1, s.len() as int),
        ));
        assert(shift_lines_from(s, d, from) == shift_line(line, d) + nl + rest);
    }
}

/// Moving the lines of a block changes only whitespace.
pub proof fn lemma_non_ws_shift_block(s: Seq<char>, d: int)
    ensures
        non_ws(shift_block(s, d)) == non_ws(s),
{
    lemma_next_newline_bounds(s, 0);
    let e = next_newline(s, 0);
    if e < s.len() {
        let nl = seq!['\n'];
        lemma_non_ws_shift_lines(s, d, e + 1);
        lemma_non_ws_add(s.take(e) + nl, shift_lines_from(s, d, e + 1));
        lemma_non_ws_add(s.take(e), nl);
        lemma_non_ws_all_ws(nl);
        assert(s =~= s.take(e) + nl + s.subrange(e + 1, s.len() as int));
        lemma_non_ws_add(s.take(e) + nl, s.subrange(e + 1, s.len() as int));
    }
}

// ---------------------------------------------------------------------------
// Byte-offset forms of the primitives
// ---------------------------------------------------------------------------

/// The byte offset of character position `k` of `text`.
pub fn byte_offset_of(text: &[char], k: usize, bound: usize) -> (r: usize)
    requires
        k <= text@.len(),
        utf8_len(text@.take(k as int)) <= bound,
    ensures
        r == byte_offset(text@, k as int),
{
    let mut i: usize = 0;
    let mut sum: usize = 0;
    while i < k
        invariant
            i <= k <= text@.len(),
            utf8_len(text@.take(k as int)) <= bound,
            sum == utf8_len(text@.take(i as int)),
        decreases k - i,
    {
        proof {
            lemma_utf8_len_take_step(text@, i as int);
            if i + 1 < k {
                lemma_utf8_len_take_strict(text@, i + 1, k as int);
            }
        }
        sum = sum + utf8_width_of(text[i]);
        i = i + 1;
    }
    sum
}

/// Byte offset where the line that holds byte `byte` of `src` starts.
pub fn line_start_byte(src: &str, byte: usize) -> (r: usize)
    requires
        is_char_boundary(src@, byte as int),
    ensures
        r == byte_offset(src@, line_start(src@, char_index(src@, byte as int))),
{
    let text = chars_of(src);
    let k = char_pos(&text, byte);
    let ls = line_start_of(&text, k);
    proof {
        lemma_line_start_bounds(text@, k as int);
        if ls < k {
            lemma_utf8_len_take_strict(text@, ls as int, k as int);
        }
    }
    byte_offset_of(&text, ls, byte)
}

/// Column of byte `byte` of `src`, a slice of a file that starts at column
/// `base_col` (see `absolute_col`).
pub fn absolute_col_in_slice(src: &str, base_col: usize, byte: usize) -> (r: usize)
    requires
        is_char_boundary(src@, byte as int),
        base_col + src@.len() <= usize::MAX,
    ensures
        r == absolute_col(src@, base_col as int, char_index(src@, byte as int)),
{
    let text = chars_of(src);
    let k = char_pos(&text, byte);
    absolute_col_of(&text, base_col, k)
}

/// The block `s` with every line after its first moved `delta` columns (see
/// `shift_block`).
pub fn shift_multiline_block(s: &str, delta: isize) -> (r: String)
    ensures
        r@ == shift_block(s@, delta as int),
{
    let text = chars_of(s);
    let (target, old) = if delta >= 0 {
        (delta as usize, 0usize)
    } else {
        (0usize, (-(delta + 1)) as usize + 1)
    };
    let mut r = String::new();
    push_shifted_block(&mut r, &text, 0, text.len(), target, old);
    assert(text@.subrange(0, text@.len() as int) =~= text@);
    assert(r@ =~= shift_block(s@, delta as int));
    r
}


// ---------------------------------------------------------------------------
// Facts for aligning text that is already aligned
// ---------------------------------------------------------------------------

/// The line of position `k` starts at `x` when `x` starts a line and no line
/// feed stands between `x` and `k`.
pub proof fn lemma_line_start_at(s: Seq<char>, x: int, k: int)
    requires
        0 <= x <= k <= s.len(),
        x == 0 || s[x - 1] == '\n',
        forall|i: int| x <= i < k ==> s[i] != '\n',
    ensures
        line_start(s, k) == x,
    decreases k,
{
    if k > x {
        lemma_line_start_at(s, x, k - 1);
    }
}

/// The line of position `k` starts at the text's start or right after a line
/// feed, and holds no line feed up to `k`.
pub proof fn lemma_line_start_props(s: Seq<char>, k: int)
    requires
        0 <= k <= s.len(),
    ensures
        0 <= line_start(s, k) <= k,
        line_start(s, k) > 0 ==> s[line_start(s, k) - 1] == '\n',
        forall|i: int| line_start(s, k) <= i < k ==> s[i] != '\n',
    decreases k,
{
    if k > 0 && s[k - 1] != '\n' {
        lemma_line_start_props(s, k - 1);
    }
}

/// Where a line starts depends only on the text before the position.
pub proof fn lemma_line_start_prefix(s: Seq<char>, t: Seq<char>, base_col: int, k: int)
    requires
        0 <= k <= s.len(),
        k <= t.len(),
        s.take(k) == t.take(k),
    ensures
        line_start(s, k) == line_start(t, k),
        absolute_col(s, base_col, k) == absolute_col(t, base_col, k),
    decreases k,
{
    if k > 0 {
        assert(s[k - 1] == s.take(k)[k - 1]);
        assert(t[k - 1] == t.take(k)[k - 1]);
        assert(s.take(k - 1) =~= s.take(k).take(k - 1));
        assert(t.take(k - 1) =~= t.take(k).take(k - 1));
        lemma_line_start_prefix(s, t, base_col, k - 1);
    }
}

/// A block of one line is left as it is.
pub proof fn lemma_shift_block_one_line(s: Seq<char>, d: int)
    requires
        !s.contains('\n'),
    ensures
        shift_block(s, d) == s,
{
    lemma_no_newline_next(s, 0);
}

/// Whitespace added at the end is trimmed away again.
pub proof fn lemma_trim_end_ws_append(a: Seq<char>, w: Seq<char>)
    requires
        all_ws(w),
    ensures
        trim_end_ws(a + w) == trim_end_ws(a),
    decreases w.len(),
{
    if w.len() == 0 {
        assert(a + w =~= a);
    } else {
        assert((a + w).drop_last() =~= a + w.drop_last());
        assert(is_whitespace((a + w).last()));
        lemma_trim_end_ws_append(a, w.drop_last());
    }
}

/// Trimming twice trims no more.
pub proof fn lemma_trim_end_ws_idem(a: Seq<char>)
    ensures
        trim_end_ws(trim_end_ws(a)) == trim_end_ws(a),
    decreases a.len(),
{
    if a.len() > 0 && is_whitespace(a.last()) {
        lemma_trim_end_ws_idem(a.drop_last());
    }
}

/// The last line is no longer than the text.
pub proof fn lemma_last_line_len(s: Seq<char>)
    ensures
        last_line(s).len() <= s.len(),
{
    if s.len() > 0 {
        lemma_line_start_bounds(s, s.len() - 1);
        lemma_line_start_bounds(s, s.len() as int);
    }
}

// ---------------------------------------------------------------------------
// The lines of a block, and how moving the block changes them
// ---------------------------------------------------------------------------

/// The lines of `s`: the texts between its line feeds, in order (one more
/// than the number of line feeds).
pub open spec fn lines_of(s: Seq<char>) -> Seq<Seq<char>>
    decreases s.len(),
{
    let e = next_newline(s, 0);
    if e < 0 || e >= s.len() {
        seq![s]
    } else {
        seq![s.take(e)] + lines_of(s.skip(e + 1))
    }
}

/// Number of spaces at the start of `line`.
pub open spec fn lead_spaces(line: Seq<char>) -> nat
    decreases line.len(),
{
    if line.len() > 0 && line[0] == ' ' {
        1 + lead_spaces(line.drop_first())
    } else {
        0
    }
}

/// `line` moved `d` columns: `d` spaces put before it when `d >= 0`, as many
/// of its leading spaces as there are, up to `-d`, taken away otherwise;
/// an empty line stays empty.
pub open spec fn moved_line(line: Seq<char>, d: int) -> Seq<char> {
    if line.len() == 0 {
        line
    } else if d >= 0 {
        spaces(d as nat) + line
    } else {
        let n = if -d < lead_spaces(line) {
            -d
        } else {
            lead_spaces(line) as int
        };
        line.skip(n)
    }
}

/// `placed` is the block `orig` moved `d` columns: the same lines, the first
/// as it was, every later one moved `d` columns (see `moved_line`).
pub open spec fn keeps_lines(orig: Seq<char>, placed: Seq<char>, d: int) -> bool {
    let a = lines_of(orig);
    let b = lines_of(placed);
    &&& b.len() == a.len()
    &&& b[0] == a[0]
    &&& forall|k: int| 1 <= k < a.len() ==> #[trigger] b[k] == moved_line(a[k], d)
}

/// The lines of `x`, a line feed, then `y`: `x`, then the lines of `y`.
proof fn lemma_lines_of_cons(x: Seq<char>, y: Seq<char>)
    requires
        !x.contains('\n'),
    ensures
        lines_of(x + seq!['\n'] + y) == seq![x] + lines_of(y),
{
    let w = x + seq!['\n'] + y;
    lemma_next_newline_prefix(x, y);
    assert(w.take(x.len() as int) =~= x);
    assert(w.skip(x.len() + 1int) =~= y);
}

/// A text without line feeds is one line, and a block of one line is itself.
pub proof fn lemma_lines_of_single(x: Seq<char>)
    requires
        !x.contains('\n'),
    ensures
        keeps_lines(x, x, 0),
        forall|d: int| #[trigger] shift_block(x, d) == x,
{
    lemma_lines_of_one(x);
    assert forall|d: int| #[trigger] shift_block(x, d) == x by {
        lemma_shift_block_one_line(x, d);
    }
}

/// A text without line feeds is one line.
proof fn lemma_lines_of_one(x: Seq<char>)
    requires
        !x.contains('\n'),
    ensures
        lines_of(x) == seq![x],
{
    lemma_no_newline_next(x, 0);
}

/// A line has no more leading spaces than characters.
proof fn lemma_lead_spaces_len(line: Seq<char>)
    ensures
        lead_spaces(line) <= line.len(),
    decreases line.len(),
{
    if line.len() > 0 && line[0] == ' ' {
        lemma_lead_spaces_len(line.drop_first());
    }
}

/// Taking away up to `n` leading spaces skips as many as there are, up to `n`.
proof fn lemma_strip_spaces_skip(line: Seq<char>, n: nat)
    ensures
        strip_spaces(line, n) == line.skip(if n < lead_spaces(line) { n as int } else { lead_spaces(line) as int }),
    decreases n,
{
    if n > 0 && line.len() > 0 && line[0] == ' ' {
        lemma_strip_spaces_skip(line.drop_first(), (n - 1) as nat);
        assert(lead_spaces(line) == 1 + lead_spaces(line.drop_first()));
        let m = if n < lead_spaces(line) { n as int } else { lead_spaces(line) as int };
        assert(m >= 1);
        lemma_lead_spaces_len(line);
        assert(line.drop_first().skip(m - 1) =~= line.skip(m));
    } else {
        assert(line.skip(0) =~= line);
    }
}

/// Moving a line `d` columns is `moved_line`.
proof fn lemma_shift_line_moved(line: Seq<char>, d: int)
    ensures
        shift_line(line, d) == moved_line(line, d),
{
    if line.len() > 0 && d < 0 {
        lemma_strip_spaces_skip(line, (-d) as nat);
    }
}

/// The lines from `from` on, each moved `d` columns, are the lines of the text
/// from `from` on, each moved.
#[verifier::spinoff_prover]
#[verifier::rlimit(40)]
proof fn lemma_shift_lines_from_lines(t: Seq<char>, d: int, from: int)
    requires
        0 <= from <= t.len(),
    ensures
        lines_of(shift_lines_from(t, d, from)).len() == lines_of(t.subrange(from, t.len() as int)).len(),
        forall|k: int|
            0 <= k < lines_of(t.subrange(from, t.len() as int)).len() ==> #[trigger] lines_of(
                shift_lines_from(t, d, from),
            )[k] == moved_line(lines_of(t.subrange(from, t.len() as int))[k], d),
    decreases t.len() - from,
{
    lemma_next_newline_bounds(t, from);
    let e = next_newline(t, from);
    let line = t.subrange(from, e);
    let sl = shift_line(line, d);
    assert(!line.contains('\n')) by {
        assert forall|i: int| 0 <= i < line.len() implies line[i] != '\n' by {
            assert(line[i] == t[from + i]);
        }
    }
    lemma_shift_line_no_newline(line, d);
    lemma_shift_line_moved(line, d);
    if e >= t.len() {
        assert(line =~= t.subrange(from, t.len() as int));
        lemma_lines_of_one(line);
        lemma_lines_of_one(sl);
    } else {
        let rest = shift_lines_from(t, d, e + 1);
        assert(shift_lines_from(t, d, from) == sl + seq!['\n'] + rest);
        lemma_lines_of_cons(sl, rest);
        let tail = t.subrange(e + 1, t.len() as int);
        assert(t.subrange(from, t.len() as int) =~= line + seq!['\n'] + tail);
        lemma_lines_of_cons(line, tail);
        lemma_shift_lines_from_lines(t, d, e + 1);
        let a = lines_of(t.subrange(from, t.len() as int));
        let b = lines_of(shift_lines_from(t, d, from));
        assert forall|k: int| 0 <= k < a.len() implies #[trigger] b[k] == moved_line(a[k], d) by {
            if k > 0 {
                assert(b[k] == lines_of(rest)[k - 1]);
                assert(a[k] == lines_of(tail)[k - 1]);
            }
        }
    }
}

/// Moving a block `d` columns keeps its first line and moves each later line
/// `d` columns: `shift_block(t, d)` is `t` moved, in the sense of `keeps_lines`.
pub proof fn lemma_shift_block_keeps_lines(t: Seq<char>, d: int)
    ensures
        keeps_lines(t, shift_block(t, d), d),
{
    lemma_next_newline_bounds(t, 0);
    let e = next_newline(t, 0);
    if e < t.len() {
        let first = t.take(e);
        let rest = shift_lines_from(t, d, e + 1);
        assert(!first.contains('\n')) by {
            assert forall|i: int| 0 <= i < first.len() implies first[i] != '\n' by {
                assert(first[i] == t[i]);
            }
        }
        lemma_lines_of_cons(first, rest);
        let tail = t.subrange(e + 1, t.len() as int);
        assert(t =~= first + seq!['\n'] + tail);
        lemma_lines_of_cons(first, tail);
        lemma_shift_lines_from_lines(t, d, e + 1);
        let a = lines_of(t);
        let b = lines_of(shift_block(t, d));
        assert forall|k: int| 1 <= k < a.len() implies #[trigger] b[k] == moved_line(a[k], d) by {
            assert(b[k] == lines_of(rest)[k - 1]);
            assert(a[k] == lines_of(tail)[k - 1]);
        }
    }
}

/// Trimming the end of `s` leaves a prefix of `s` that is empty or ends with
/// a character other than whitespace, followed in `s` only by whitespace.
pub proof fn lemma_trim_end_ws_shape(s: Seq<char>)
    ensures
        trim_end_ws(s).len() <= s.len(),
        s.take(trim_end_ws(s).len() as int) == trim_end_ws(s),
        all_ws(s.skip(trim_end_ws(s).len() as int)),
        trim_end_ws(s).len() == 0 || !is_whitespace(trim_end_ws(s).last()),
    decreases s.len(),
{
    if s.len() > 0 && is_whitespace(s.last()) {
        let d = s.drop_last();
        lemma_trim_end_ws_shape(d);
        let n = trim_end_ws(d).len() as int;
        assert(s.take(n) =~= d.take(n));
        assert forall|i: int| 0 <= i < s.skip(n).len() implies is_whitespace(#[trigger] s.skip(n)[i]) by {
            if n + i < s.len() - 1 {
                assert(s.skip(n)[i] == d.skip(n)[i]);
            }
        }
    } else {
        assert(s.take(s.len() as int) =~= s);
    }
}

} // verus!
