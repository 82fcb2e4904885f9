//! The model of a rectangular grid of cells and the laws of its operations.
use vstd::prelude::*;

verus! {

/// A `width` by `height` grid, stored row by row; `true` marks a filled cell.
pub struct Grid {
    pub width: nat,
    pub height: nat,
    pub rows: Seq<Seq<bool>>,
}

impl Grid {
    /// There are `height` rows of `width` cells each.
    pub open spec fn wf(self) -> bool {
        &&& self.rows.len() == self.height
        &&& forall|y: int| 0 <= y < self.height ==> #[trigger] self.rows[y].len() == self.width
    }

    pub open spec fn in_bounds(self, x: int, y: int) -> bool {
        0 <= x < self.width && 0 <= y < self.height
    }

    /// The cell in column `x` of row `y`.
    pub open spec fn at(self, x: int, y: int) -> bool {
        self.rows[y][x]
    }

    /// The cell is inside the grid and empty.
    pub open spec fn open_at(self, x: int, y: int) -> bool {
        self.in_bounds(x, y) && !self.at(x, y)
    }

    pub open spec fn is_full(self) -> bool {
        forall|x: int, y: int| self.in_bounds(x, y) ==> #[trigger] self.at(x, y)
    }
}

/// The grid whose cell `(x, y)` is `f(x, y)`.
pub open spec fn grid_of(width: nat, height: nat, f: spec_fn(int, int) -> bool) -> Grid {
    Grid {
        width,
        height,
        rows: Seq::new(height, |y: int| Seq::new(width, |x: int| f(x, y))),
    }
}

pub open spec fn empty_grid(width: nat, height: nat) -> Grid {
    grid_of(width, height, |x: int, y: int| false)
}

/// A clockwise quarter turn: the result is `height` wide and `width` high,
/// and its cell `(x, y)` is the source cell `(y, height - 1 - x)`.
pub open spec fn rotated(g: Grid) -> Grid {
    grid_of(g.height, g.width, |x: int, y: int| g.at(y, g.height - 1 - x))
}

/// `n` clockwise quarter turns.
pub open spec fn rotated_n(g: Grid, n: nat) -> Grid
    decreases n,
{
    if n == 0 {
        g
    } else {
        rotated(rotated_n(g, (n - 1) as nat))
    }
}

/// Each row reversed.
pub open spec fn reflected(g: Grid) -> Grid {
    grid_of(g.width, g.height, |x: int, y: int| g.at(g.width - 1 - x, y))
}

/// Cell `(x, y)` of a board is a filled cell of `p` laid with its corner at `(ox, oy)`.
pub open spec fn covers(p: Grid, ox: int, oy: int, x: int, y: int) -> bool {
    p.in_bounds(x - ox, y - oy) && p.at(x - ox, y - oy)
}

/// `p` laid at `(ox, oy)` stays inside `g` and meets no filled cell of it.
pub open spec fn fits(g: Grid, ox: int, oy: int, p: Grid) -> bool {
    &&& ox + p.width <= g.width
    &&& oy + p.height <= g.height
    &&& forall|x: int, y: int|
        p.in_bounds(x, y) && #[trigger] p.at(x, y) ==> !g.at(ox + x, oy + y)
}

/// `g` with every filled cell of `p`, laid at `(ox, oy)`, filled as well.
pub open spec fn placed(g: Grid, ox: int, oy: int, p: Grid) -> Grid {
    grid_of(g.width, g.height, |x: int, y: int| g.at(x, y) || covers(p, ox, oy, x, y))
}

/// The cells of the grid.
pub open spec fn cells(g: Grid) -> Set<(int, int)> {
    Set::new(|c: (int, int)| g.in_bounds(c.0, c.1))
}

/// The filled cells of the grid.
pub open spec fn filled_cells(g: Grid) -> Set<(int, int)> {
    Set::new(|c: (int, int)| g.in_bounds(c.0, c.1) && g.at(c.0, c.1))
}

/// The filled cells of the grid that come before `(x, y)` in reading order.
pub open spec fn filled_before(g: Grid, x: int, y: int) -> Set<(int, int)> {
    Set::new(
        |c: (int, int)|
            g.in_bounds(c.0, c.1) && g.at(c.0, c.1) && (c.1 < y || (c.1 == y && c.0 < x)),
    )
}

/// The number of filled cells of a grid.
pub open spec fn filled_count(g: Grid) -> nat {
    filled_cells(g).len()
}

/// A set of empty cells of `g` that holds every empty cell next to one of its
/// cells (up, down, left or right): a union of empty regions.
pub open spec fn closed_region(g: Grid, s: Set<(int, int)>) -> bool {
    forall|c: (int, int)|
        #[trigger] s.contains(c) ==> {
            &&& g.open_at(c.0, c.1)
            &&& g.open_at(c.0, c.1 + 1) ==> s.contains((c.0, c.1 + 1))
            &&& g.open_at(c.0 + 1, c.1) ==> s.contains((c.0 + 1, c.1))
            &&& g.open_at(c.0, c.1 - 1) ==> s.contains((c.0, c.1 - 1))
            &&& g.open_at(c.0 - 1, c.1) ==> s.contains((c.0 - 1, c.1))
        }
}

/// The empty region around `(x, y)` has at most three cells: too small for a
/// piece of four.
pub open spec fn is_pocket(g: Grid, x: int, y: int) -> bool {
    exists|s: Set<(int, int)>|
        #![trigger closed_region(g, s), s.contains((x, y))]
        s.finite() && s.len() <= 3 && s.contains((x, y)) && closed_region(g, s)
}

/// Some empty cell of `g` lies in a pocket.
pub open spec fn has_pocket(g: Grid) -> bool {
    exists|x: int, y: int| g.open_at(x, y) && #[trigger] is_pocket(g, x, y)
}

/// The first filled cell of the top row at or after column `j`.
pub open spec fn top_anchor_from(g: Grid, j: int) -> Option<(usize, usize)>
    decreases g.width - j,
{
    if 0 <= j < g.width {
        if g.at(j, 0) {
            Some((j as usize, 0usize))
        } else {
            top_anchor_from(g, j + 1)
        }
    } else {
        None
    }
}

/// The first filled cell of the left column at or after row `i`.
pub open spec fn left_anchor_from(g: Grid, i: int) -> Option<(usize, usize)>
    decreases g.height - i,
{
    if 0 <= i < g.height {
        if g.at(0, i) {
            Some((0usize, i as usize))
        } else {
            left_anchor_from(g, i + 1)
        }
    } else {
        None
    }
}

/// The cells of a piece that may be aligned with the board cell being
/// filled: the corner when it is filled; otherwise the first filled cell of
/// the top row and the first filled cell of the left column, where there are
/// such cells.
pub open spec fn anchors(g: Grid) -> Seq<Option<(usize, usize)>> {
    if g.width == 0 || g.height == 0 {
        seq![None, None]
    } else if g.at(0, 0) {
        seq![Some((0usize, 0usize)), None]
    } else {
        seq![top_anchor_from(g, 0), left_anchor_from(g, 0)]
    }
}

/// Grids of one extent whose cells agree are equal.
pub proof fn lemma_grid_ext(a: Grid, b: Grid)
    requires
        a.wf(),
        b.wf(),
        a.width == b.width,
        a.height == b.height,
        forall|x: int, y: int| a.in_bounds(x, y) ==> #[trigger] a.at(x, y) == b.at(x, y),
    ensures
        a == b,
{
    assert forall|y: int| 0 <= y < a.height implies #[trigger] a.rows[y] == b.rows[y] by {
        assert forall|x: int| 0 <= x < a.width implies a.rows[y][x] == b.rows[y][x] by {
            assert(a.at(x, y) == b.at(x, y));
        }
        assert(a.rows[y] =~= b.rows[y]);
    }
    assert(a.rows =~= b.rows);
}

/// Rotating a grid four times gives the grid back.
pub proof fn lemma_rotate_four(g: Grid)
    requires
        g.wf(),
    ensures
        rotated_n(g, 4) == g,
{
    let r1 = rotated(g);
    let r2 = rotated(r1);
    let r3 = rotated(r2);
    let r4 = rotated(r3);
    reveal_with_fuel(rotated_n, 5);
    assert forall|x: int, y: int| g.in_bounds(x, y) implies #[trigger] r4.at(x, y) == g.at(x, y) by {
        assert(r4.at(x, y) == r3.at(y, r3.height - 1 - x));
        assert(r3.at(y, r3.height - 1 - x) == r2.at(r3.height - 1 - x, r2.height - 1 - y));
    }
    lemma_grid_ext(r4, g);
}

/// Reflecting a grid twice gives the grid back.
pub proof fn lemma_reflect_twice(g: Grid)
    requires
        g.wf(),
    ensures
        reflected(reflected(g)) == g,
{
    let f2 = reflected(reflected(g));
    assert forall|x: int, y: int| g.in_bounds(x, y) implies #[trigger] f2.at(x, y) == g.at(x, y) by {}
    lemma_grid_ext(f2, g);
}

/// Laying a piece at the corner of an empty board of its own extent gives the piece.
pub proof fn lemma_place_on_empty(p: Grid)
    requires
        p.wf(),
    ensures
        fits(empty_grid(p.width, p.height), 0, 0, p),
        placed(empty_grid(p.width, p.height), 0, 0, p) == p,
{
    let q = placed(empty_grid(p.width, p.height), 0, 0, p);
    assert forall|x: int, y: int| p.in_bounds(x, y) implies #[trigger] q.at(x, y) == p.at(x, y) by {}
    lemma_grid_ext(q, p);
}

} // verus!
