//! The text that shows one step of a solution: the board before it, with
//! the cells that the step fills shaded, and the piece in its original
//! orientation beside it.
use vstd::prelude::*;
use crate::grid::{Grid, rotated_n, placed};
use crate::colorize::{OwoColorize, decimal, push_decimal};
use crate::pattern::push_char;
use crate::shape::Shape;
use crate::solver::Step;

verus! {

/// Appends the characters of `s`.
pub(crate) fn push_str(out: &mut String, s: &str)
    ensures
        final(out)@ == old(out)@ + s@,
{
    let n = s.unicode_len();
    let mut i: usize = 0;
    while i < n
        invariant
            n == s@.len(),
            i <= n,
            out@ == old(out)@ + s@.take(i as int),
        decreases n - i,
    {
        let c = s.get_char(i);
        push_char(out, c);
        assert(s@.take(i + 1) =~= s@.take(i as int).push(c));
        i = i + 1;
    }
    assert(s@.take(n as int) =~= s@);
}

/// `t` right-aligned in two columns.
pub open spec fn pad2(t: Seq<char>) -> Seq<char> {
    if t.len() < 2 {
        Seq::new((2 - t.len()) as nat, |i: int| ' ') + t
    } else {
        t
    }
}

/// `n` box-drawing horizontal lines.
pub open spec fn rule(n: nat) -> Seq<char> {
    Seq::new(n, |i: int| '\u{2500}')
}

/// The labels of the first `n` columns: each column whose index has the
/// given parity shows its index, the others are blank.
pub open spec fn labels(n: nat, parity: nat) -> Seq<char>
    decreases n,
{
    if n == 0 {
        Seq::empty()
    } else {
        labels((n - 1) as nat, parity) + if (n - 1) % 2 == parity {
            pad2(decimal((n - 1) as nat))
        } else {
            seq![' ', ' ']
        }
    }
}

/// A board cell: solid when filled before the step, shaded when the step
/// fills it, blank otherwise.
pub open spec fn board_mark(before: bool, after: bool) -> Seq<char> {
    if before {
        seq!['\u{2588}', '\u{2588}']
    } else if after {
        seq!['\u{2592}', '\u{2592}']
    } else {
        seq![' ', ' ']
    }
}

/// The first `n` cells of row `y` of the board.
pub open spec fn board_cells(before: Grid, after: Grid, y: int, n: nat) -> Seq<char>
    decreases n,
{
    if n == 0 {
        Seq::empty()
    } else {
        board_cells(before, after, y, (n - 1) as nat) + board_mark(
            before.at(n - 1, y),
            after.at(n - 1, y),
        )
    }
}

/// The first `n` cells of row `y` of the piece.
pub open spec fn piece_cells(p: Grid, y: int, n: nat) -> Seq<char>
    decreases n,
{
    if n == 0 {
        Seq::empty()
    } else {
        piece_cells(p, y, (n - 1) as nat) + if p.at(n - 1, y) {
            seq!['\u{2588}', '\u{2588}']
        } else {
            seq![' ', ' ']
        }
    }
}

/// Row `y`: its number, the board row, and the piece row where the piece has one.
pub open spec fn row_line(before: Grid, after: Grid, piece: Grid, y: int) -> Seq<char> {
    pad2(decimal(y as nat)) + seq!['\u{2502}'] + board_cells(before, after, y, before.width)
        + seq!['\u{2502}'] + (if y < piece.height {
        seq![' '] + piece_cells(piece, y, piece.width)
    } else {
        Seq::empty()
    }) + seq!['\n']
}

/// The first `n` rows.
pub open spec fn row_lines(before: Grid, after: Grid, piece: Grid, n: nat) -> Seq<char>
    decreases n,
{
    if n == 0 {
        Seq::empty()
    } else {
        row_lines(before, after, piece, (n - 1) as nat) + row_line(before, after, piece, n - 1)
    }
}

/// The line of odd column numbers and the step's position.
pub open spec fn top_line(width: nat, x: nat, y: nat) -> Seq<char> {
    seq!['\u{2572}', 'x', '\u{2502}'] + labels(width, 1) + "\u{2502} place at x="@ + decimal(x)
        + ", y="@ + decimal(y) + seq!['\n']
}

/// The line of even column numbers and the step's rotation count.
pub open spec fn second_line(width: nat, r: nat) -> Seq<char> {
    seq!['y', '\u{2572}', '\u{2502}'] + labels(width, 0) + "\u{2502} rotate "@ + decimal(r)
        + " time"@ + (if r == 1 {
        Seq::empty()
    } else {
        seq!['s']
    }) + seq!['\n']
}

/// The line under the column numbers.
pub open spec fn rule_line(width: nat) -> Seq<char> {
    seq!['\u{2500}', '\u{2500}', '\u{253C}'] + rule(2 * width) + seq!['\u{2524}', '\n']
}

/// The line under the board.
pub open spec fn bottom_line(width: nat) -> Seq<char> {
    seq![' ', ' ', '\u{2514}'] + rule(2 * width) + seq!['\u{2518}', '\n']
}

/// The text of a step laid on `board`.
pub open spec fn step_text(board: Grid, x: nat, y: nat, piece: Grid, r: nat) -> Seq<char> {
    top_line(board.width, x, y) + second_line(board.width, r) + rule_line(board.width) + row_lines(
        board,
        placed(board, x as int, y as int, piece),
        rotated_n(piece, (4 - r) as nat),
        board.height,
    ) + bottom_line(board.width)
}

proof fn lemma_decimal_len(n: nat)
    ensures
        n < 10 ==> decimal(n).len() == 1,
        n >= 10 ==> decimal(n).len() >= 2,
    decreases n,
{
    if n >= 10 {
        lemma_decimal_len(n / 10);
    }
}

/// Appends `n` right-aligned in two columns, highlighted when asked.
fn push_label(out: &mut String, n: usize, highlight: bool)
    ensures
        final(out)@ == old(out)@ + pad2(decimal(n as nat)),
{
    proof {
        lemma_decimal_len(n as nat);
    }
    if n < 10 {
        push_char(out, ' ');
    }
    if highlight {
        let t = n.green();
        push_str(out, t.as_str());
    } else {
        push_decimal(out, n);
    }
    proof {
        if n < 10 {
            assert(Seq::new(1nat, |i: int| ' ') =~= seq![' ']);
            assert(old(out)@ + pad2(decimal(n as nat)) =~= old(out)@.push(' ') + decimal(n as nat));
        }
    }
}

/// Appends the labels of the first `n` columns, highlighting column `x`.
fn push_labels(out: &mut String, n: usize, parity: usize, x: usize)
    requires
        parity < 2,
    ensures
        final(out)@ == old(out)@ + labels(n as nat, parity as nat),
{
    let mut j: usize = 0;
    while j < n
        invariant
            parity < 2,
            j <= n,
            out@ == old(out)@ + labels(j as nat, parity as nat),
        decreases n - j,
    {
        if j % 2 == parity {
            push_label(out, j, j == x);
        } else {
            push_char(out, ' ');
            push_char(out, ' ');
        }
        assert(out@ =~= old(out)@ + labels((j + 1) as nat, parity as nat));
        j = j + 1;
    }
}

/// Appends `2 * n` horizontal lines.
fn push_rule(out: &mut String, n: usize)
    ensures
        final(out)@ == old(out)@ + rule(2 * n as nat),
{
    let mut j: usize = 0;
    while j < n
        invariant
            j <= n,
            out@ == old(out)@ + rule(2 * j as nat),
        decreases n - j,
    {
        push_char(out, '\u{2500}');
        push_char(out, '\u{2500}');
        assert(out@ =~= old(out)@ + rule(2 * (j + 1) as nat));
        j = j + 1;
    }
}

/// Appends row `y`.
fn push_row(out: &mut String, board: &Shape, after: &Shape, piece: &Shape, y: usize)
    requires
        y < board@.height,
        after@.width == board@.width,
        after@.height == board@.height,
    ensures
        final(out)@ == old(out)@ + row_line(board@, after@, piece@, y as int),
{
    push_label(out, y, false);
    push_char(out, '\u{2502}');
    let ghost start = out@;
    let w = board.width();
    let mut j: usize = 0;
    while j < w
        invariant
            w == board@.width,
            after@.width == board@.width,
            after@.height == board@.height,
            y < board@.height,
            j <= w,
            out@ == start + board_cells(board@, after@, y as int, j as nat),
        decreases w - j,
    {
        if board.at(j, y) {
            push_char(out, '\u{2588}');
            push_char(out, '\u{2588}');
        } else if after.at(j, y) {
            push_char(out, '\u{2592}');
            push_char(out, '\u{2592}');
        } else {
            push_char(out, ' ');
            push_char(out, ' ');
        }
        assert(out@ =~= start + board_cells(board@, after@, y as int, (j + 1) as nat));
        j = j + 1;
    }
    push_char(out, '\u{2502}');
    if y < piece.height() {
        push_char(out, ' ');
        let ghost start2 = out@;
        let pw = piece.width();
        let mut k: usize = 0;
        while k < pw
            invariant
                pw == piece@.width,
                y < piece@.height,
                k <= pw,
                out@ == start2 + piece_cells(piece@, y as int, k as nat),
            decreases pw - k,
        {
            if piece.at(k, y) {
                push_char(out, '\u{2588}');
                push_char(out, '\u{2588}');
            } else {
                push_char(out, ' ');
                push_char(out, ' ');
            }
            assert(out@ =~= start2 + piece_cells(piece@, y as int, (k + 1) as nat));
            k = k + 1;
        }
    }
    push_char(out, '\n');
    assert(out@ =~= old(out)@ + row_line(board@, after@, piece@, y as int));
}

/// The text of `step` laid on `board`: column and row numbers with the
/// step's column highlighted, the board before the step with the cells it
/// fills shaded, and the piece in its original orientation beside it.
pub fn render_step(board: &Shape, step: &Step) -> (r: String)
    requires
        step.x + step.piece@.width <= board@.width,
        step.y + step.piece@.height <= board@.height,
        step.r <= 4,
    ensures
        r@ == step_text(board@, step.x as nat, step.y as nat, step.piece@, step.r as nat),
{
    let w = board.width();
    let mut result = String::new();
    push_str(&mut result, "\u{2572}x\u{2502}");
    push_labels(&mut result, w, 1, step.x);
    push_str(&mut result, "\u{2502} place at x=");
    push_decimal(&mut result, step.x);
    push_str(&mut result, ", y=");
    push_decimal(&mut result, step.y);
    push_char(&mut result, '\n');
    proof {
        reveal_strlit("\u{2572}x\u{2502}");
    }
    assert(result@ =~= top_line(w as nat, step.x as nat, step.y as nat));
    let ghost first = result@;
    push_str(&mut result, "y\u{2572}\u{2502}");
    push_labels(&mut result, w, 0, step.x);
    push_str(&mut result, "\u{2502} rotate ");
    push_decimal(&mut result, step.r);
    push_str(&mut result, " time");
    if step.r != 1 {
        push_char(&mut result, 's');
    }
    push_char(&mut result, '\n');
    proof {
        reveal_strlit("y\u{2572}\u{2502}");
    }
    assert(result@ =~= first + second_line(w as nat, step.r as nat));
    let ghost second = result@;
    push_str(&mut result, "\u{2500}\u{2500}\u{253C}");
    push_rule(&mut result, w);
    push_char(&mut result, '\u{2524}');
    push_char(&mut result, '\n');
    proof {
        reveal_strlit("\u{2500}\u{2500}\u{253C}");
    }
    assert(result@ =~= second + rule_line(w as nat));
    let ghost head = result@;

    let mut orig_piece = step.piece.clone();
    let mut k: usize = 0;
    while k < 4 - step.r
        invariant
            step.r <= 4,
            k <= 4 - step.r,
            orig_piece@ == rotated_n(step.piece@, k as nat),
        decreases 4 - step.r - k,
    {
        orig_piece = orig_piece.rot();
        k = k + 1;
    }
    let board_after = board.put(step.x, step.y, &step.piece);

    let h = board.height();
    let mut i: usize = 0;
    while i < h
        invariant
            h == board@.height,
            board_after@ == placed(board@, step.x as int, step.y as int, step.piece@),
            orig_piece@ == rotated_n(step.piece@, (4 - step.r) as nat),
            i <= h,
            result@ == head + row_lines(board@, board_after@, orig_piece@, i as nat),
        decreases h - i,
    {
        push_row(&mut result, board, &board_after, &orig_piece, i);
        assert(result@ =~= head + row_lines(board@, board_after@, orig_piece@, (i + 1) as nat));
        i = i + 1;
    }
    let ghost body = result@;
    push_str(&mut result, "  \u{2514}");
    push_rule(&mut result, w);
    push_char(&mut result, '\u{2518}');
    push_char(&mut result, '\n');
    proof {
        reveal_strlit("  \u{2514}");
    }
    assert(result@ =~= body + bottom_line(w as nat));
    result
}

} // verus!
