//! Piece and board shapes: construction, transforms and placement.
use vstd::prelude::*;
use crate::grid::{
    Grid,
    grid_of,
    empty_grid,
    rotated,
    reflected,
    fits,
    placed,
    covers,
    filled_count,
    filled_cells,
    filled_before,
    closed_region,
    is_pocket,
    has_pocket,
    anchors,
    top_anchor_from,
    left_anchor_from,
    lemma_grid_ext,
};
use crate::matrix::BitMatrix;
use crate::pattern::{pattern_grid, grid_text, row_text, rows_text, cell_text, read_pattern, rows_view, push_char};

verus! {

/// Why a shape could not be made.
#[derive(Debug, Clone, Copy, PartialEq, Eq, Structural)]
pub enum ShapeError {
    /// The text is no pattern: no cell at all, rows of different lengths, a
    /// blank line between rows, or a character other than `#`, `_`, a blank
    /// or a line end.
    MalformedPattern,
    /// An extent is zero, or the cell count does not fit in `usize`.
    InvalidDimensions,
}

/// A rectangular grid of filled and empty cells: a piece, or a board whose
/// filled cells are the pieces placed on it so far.
#[derive(Debug)]
pub struct Shape(BitMatrix);

impl View for Shape {
    type V = Grid;

    closed spec fn view(&self) -> Grid {
        self.0@
    }
}

impl Shape {
    pub fn new(matrix: BitMatrix) -> (r: Self)
        ensures
            r@ == matrix@,
    {
        Shape(matrix)
    }

    /// The width; the view of a shape is always a well-formed grid.
    pub fn width(&self) -> (r: usize)
        ensures
            r == self@.width,
            self@.wf(),
    {
        self.0.extent().0
    }

    pub fn height(&self) -> (r: usize)
        ensures
            r == self@.height,
    {
        self.0.height()
    }

    /// The cell `(x, y)`.
    pub fn at(&self, x: usize, y: usize) -> (r: bool)
        requires
            self@.in_bounds(x as int, y as int),
        ensures
            r == self@.at(x as int, y as int),
    {
        self.0.at(x, y)
    }

    /// The shape turned a quarter clockwise.
    pub fn rot(&self) -> (r: Self)
        ensures
            r@ == rotated(self@),
    {
        let (w, h) = self.0.extent();
        if w == 0 {
            let r = Shape(BitMatrix::new());
            proof {
                lemma_grid_ext(r@, rotated(self@));
            }
            return r;
        }
        let ghost g = self@;
        assert(h * w == w * h) by (nonlinear_arith);
        let mut new = BitMatrix::with_size(h, w);
        let mut i: usize = 0;
        while i < h
            invariant
                g == self@,
                w == g.width,
                h == g.height,
                w >= 1,
                i <= h,
                new@.wf(),
                new@.width == h,
                new@.height == w,
                forall|x: int, y: int|
                    new@.in_bounds(x, y) ==> #[trigger] new@.at(x, y) == (h - 1 - x < i
                        && g.at(y, h - 1 - x)),
            decreases h - i,
        {
            let mut j: usize = 0;
            while j < w
                invariant
                    g == self@,
                    w == g.width,
                    h == g.height,
                    i < h,
                    j <= w,
                    new@.wf(),
                    new@.width == h,
                    new@.height == w,
                    forall|x: int, y: int|
                        new@.in_bounds(x, y) ==> #[trigger] new@.at(x, y) == ((h - 1 - x < i || (h
                            - 1 - x == i && y < j)) && g.at(y, h - 1 - x)),
                decreases w - j,
            {
                let v = self.0.at(j, i);
                new.set(h - i - 1, j, v);
                j = j + 1;
            }
            i = i + 1;
        }
        let r = Shape(new);
        proof {
            lemma_grid_ext(r@, rotated(g));
        }
        r
    }

    /// The shape with each row reversed.
    pub fn flip(&self) -> (r: Self)
        ensures
            r@ == reflected(self@),
    {
        let (w, h) = self.0.extent();
        if w == 0 {
            let r = Shape(BitMatrix::new());
            proof {
                lemma_grid_ext(r@, reflected(self@));
            }
            return r;
        }
        let ghost g = self@;
        let mut new = BitMatrix::with_size(w, h);
        let mut i: usize = 0;
        while i < h
            invariant
                g == self@,
                w == g.width,
                h == g.height,
                w >= 1,
                i <= h,
                new@.wf(),
                new@.width == w,
                new@.height == h,
                forall|x: int, y: int|
                    new@.in_bounds(x, y) ==> #[trigger] new@.at(x, y) == (y < i && g.at(
                        w - 1 - x,
                        y,
                    )),
            decreases h - i,
        {
            let mut j: usize = 0;
            while j < w
                invariant
                    g == self@,
                    w == g.width,
                    h == g.height,
                    i < h,
                    j <= w,
                    new@.wf(),
                    new@.width == w,
                    new@.height == h,
                    forall|x: int, y: int|
                        new@.in_bounds(x, y) ==> #[trigger] new@.at(x, y) == ((y < i || (y == i
                            && w - 1 - x < j)) && g.at(w - 1 - x, y)),
                decreases w - j,
            {
                let v = self.0.at(j, i);
                new.set(w - j - 1, i, v);
                j = j + 1;
            }
            i = i + 1;
        }
        let r = Shape(new);
        proof {
            lemma_grid_ext(r@, reflected(g));
        }
        r
    }

    /// Whether `other`, laid with its corner at `(x, y)`, stays inside this
    /// shape and meets none of its filled cells.
    pub fn can_put(&self, x: usize, y: usize, other: &Self) -> (r: bool)
        ensures
            r == fits(self@, x as int, y as int, other@),
    {
        let w = self.width();
        let h = self.height();
        let ow = other.width();
        let oh = other.height();
        if ow > w || x > w - ow || oh > h || y > h - oh {
            return false;
        }
        let mut i: usize = 0;
        while i < oh
            invariant
                w == self@.width,
                h == self@.height,
                ow == other@.width,
                oh == other@.height,
                x + ow <= self@.width,
                y + oh <= self@.height,
                i <= oh,
                forall|a: int, b: int|
                    0 <= a < ow && 0 <= b < i && #[trigger] other@.at(a, b) ==> !self@.at(
                        x + a,
                        y + b,
                    ),
            decreases oh - i,
        {
            let mut j: usize = 0;
            while j < ow
                invariant
                    w == self@.width,
                    h == self@.height,
                    ow == other@.width,
                    oh == other@.height,
                    x + ow <= self@.width,
                    y + oh <= self@.height,
                    i < oh,
                    j <= ow,
                    forall|a: int, b: int|
                        0 <= a < ow && 0 <= b < i && #[trigger] other@.at(a, b) ==> !self@.at(
                            x + a,
                            y + b,
                        ),
                    forall|a: int|
                        0 <= a < j && #[trigger] other@.at(a, i as int) ==> !self@.at(
                            x + a,
                            y + i,
                        ),
                decreases ow - j,
            {
                if other.at(j, i) && self.at(x + j, y + i) {
                    return false;
                }
                j = j + 1;
            }
            i = i + 1;
        }
        true
    }

    /// This shape with every filled cell of `other`, laid with its corner at
    /// `(x, y)`, filled as well. Cells filled in both stay filled.
    pub fn put(&self, x: usize, y: usize, other: &Self) -> (r: Self)
        requires
            x + other@.width <= self@.width,
            y + other@.height <= self@.height,
        ensures
            r@ == placed(self@, x as int, y as int, other@),
    {
        let ghost g = self@;
        let ghost p = other@;
        let mut new = self.0.clone();
        let (w, h) = self.0.extent();
        let ow = other.width();
        let oh = other.height();
        let mut i: usize = 0;
        while i < oh
            invariant
                g == self@,
                p == other@,
                w == g.width,
                h == g.height,
                ow == p.width,
                oh == p.height,
                x + ow <= g.width,
                y + oh <= g.height,
                i <= oh,
                new@.wf(),
                new@.width == g.width,
                new@.height == g.height,
                forall|a: int, b: int|
                    g.in_bounds(a, b) ==> #[trigger] new@.at(a, b) == (g.at(a, b) || (b - y < i
                        && covers(p, x as int, y as int, a, b))),
            decreases oh - i,
        {
            let mut j: usize = 0;
            while j < ow
                invariant
                    g == self@,
                    p == other@,
                    w == g.width,
                    h == g.height,
                    ow == p.width,
                    oh == p.height,
                    x + ow <= g.width,
                    y + oh <= g.height,
                    i < oh,
                    j <= ow,
                    new@.wf(),
                    new@.width == g.width,
                    new@.height == g.height,
                    forall|a: int, b: int|
                        g.in_bounds(a, b) ==> #[trigger] new@.at(a, b) == (g.at(a, b) || ((b - y
                            < i || (b - y == i && a - x < j)) && covers(
                            p,
                            x as int,
                            y as int,
                            a,
                            b,
                        ))),
                decreases ow - j,
            {
                if other.at(j, i) {
                    new.set(x + j, y + i, true);
                }
                j = j + 1;
            }
            i = i + 1;
        }
        let r = Shape(new);
        proof {
            lemma_grid_ext(r@, placed(g, x as int, y as int, p));
        }
        r
    }
}

impl Clone for Shape {
    fn clone(&self) -> (r: Self)
        ensures
            r@ == self@,
            r@.wf(),
    {
        Shape(self.0.clone())
    }
}

impl PartialEq for Shape {
    /// Two shapes are equal when they have one extent and agree on every cell.
    fn eq(&self, other: &Self) -> (r: bool) {
        self.0 == other.0
    }
}

impl vstd::std_specs::cmp::PartialEqSpecImpl for Shape {
    open spec fn obeys_eq_spec() -> bool {
        true
    }

    open spec fn eq_spec(&self, other: &Shape) -> bool {
        self@ == other@
    }
}

} // verus!

verus! {

/// Whether `v` holds the cell `c`.
fn holds_cell(v: &Vec<(usize, usize)>, c: (usize, usize)) -> (r: bool)
    ensures
        r == cells_of(v@).contains(cell_of(c)),
{
    let mut i: usize = 0;
    while i < v.len()
        invariant
            i <= v@.len(),
            forall|k: int| 0 <= k < i ==> cells_of(v@)[k] != cell_of(c),
        decreases v@.len() - i,
    {
        if v[i].0 == c.0 && v[i].1 == c.1 {
            assert(cells_of(v@)[i as int] == cell_of(c));
            return true;
        }
        i = i + 1;
    }
    false
}

/// The cell `c` as a pair of integers.
pub open spec fn cell_of(c: (usize, usize)) -> (int, int) {
    (c.0 as int, c.1 as int)
}

pub open spec fn cells_of(e: Seq<(usize, usize)>) -> Seq<(int, int)> {
    e.map_values(|c: (usize, usize)| cell_of(c))
}

/// Every empty neighbour of `c` is in `s`.
pub open spec fn expanded(g: Grid, s: Seq<(int, int)>, c: (int, int)) -> bool {
    &&& g.open_at(c.0, c.1 + 1) ==> s.contains((c.0, c.1 + 1))
    &&& g.open_at(c.0 + 1, c.1) ==> s.contains((c.0 + 1, c.1))
    &&& g.open_at(c.0, c.1 - 1) ==> s.contains((c.0, c.1 - 1))
    &&& g.open_at(c.0 - 1, c.1) ==> s.contains((c.0 - 1, c.1))
}

/// Three distinct cells that every closed region around `seed` holds, and a
/// fourth that it holds too: the region around `seed` is no pocket.
proof fn lemma_region_too_big(g: Grid, e: Seq<(int, int)>, n: (int, int), seed: (int, int))
    requires
        e.len() == 3,
        forall|i: int, j: int| 0 <= i < j < e.len() ==> e[i] != e[j],
        !e.contains(n),
        forall|s: Set<(int, int)>| #[trigger] closed_region(g, s) && s.contains(seed) ==>
            forall|i: int| 0 <= i < e.len() ==> s.contains(#[trigger] e[i]),
        forall|s: Set<(int, int)>| #[trigger] closed_region(g, s) && s.contains(seed) ==>
            s.contains(n),
    ensures
        !is_pocket(g, seed.0, seed.1),
{
    if is_pocket(g, seed.0, seed.1) {
        let s = choose|s: Set<(int, int)>|
            #![trigger closed_region(g, s), s.contains((seed.0, seed.1))]
            s.finite() && s.len() <= 3 && s.contains((seed.0, seed.1)) && closed_region(g, s);
        assert(s.contains(e[0]));
        assert(s.contains(e[1]));
        assert(s.contains(e[2]));
        assert(n != e[0] && n != e[1] && n != e[2]) by {
            if n == e[0] { assert(e.contains(n)); }
            if n == e[1] { assert(e.contains(n)); }
            if n == e[2] { assert(e.contains(n)); }
        }
        let t = Set::<(int, int)>::empty().insert(e[0]).insert(e[1]).insert(e[2]).insert(n);
        assert(t.len() == 4);
        vstd::set_lib::lemma_len_subset(t, s);
    }
}

/// Explored cells that hold every empty neighbour of each of them form a
/// closed region of at most three cells around `seed`.
proof fn lemma_pocket_found(g: Grid, e: Seq<(int, int)>, seed: (int, int))
    requires
        1 <= e.len() <= 3,
        e[0] == seed,
        forall|i: int| 0 <= i < e.len() ==> g.open_at(#[trigger] e[i].0, e[i].1),
        forall|i: int| 0 <= i < e.len() ==> expanded(g, e, #[trigger] e[i]),
    ensures
        is_pocket(g, seed.0, seed.1),
{
    let s = e.to_set();
    e.lemma_cardinality_of_set();
    vstd::seq_lib::seq_to_set_is_finite(e);
    assert(s.contains(e[0]));
    assert forall|c: (int, int)| #[trigger] s.contains(c) implies {
        &&& g.open_at(c.0, c.1)
        &&& g.open_at(c.0, c.1 + 1) ==> s.contains((c.0, c.1 + 1))
        &&& g.open_at(c.0 + 1, c.1) ==> s.contains((c.0 + 1, c.1))
        &&& g.open_at(c.0, c.1 - 1) ==> s.contains((c.0, c.1 - 1))
        &&& g.open_at(c.0 - 1, c.1) ==> s.contains((c.0 - 1, c.1))
    } by {
        let i = choose|i: int| 0 <= i < e.len() && e[i] == c;
        assert(g.open_at(e[i].0, e[i].1));
        assert(expanded(g, e, e[i]));
    }
    assert(closed_region(g, s));
    assert(s.contains((seed.0, seed.1)));
}

impl Shape {
    /// The number of filled cells.
    pub fn len(&self) -> (r: usize)
        ensures
            r == filled_count(self@),
            filled_cells(self@).finite(),
    {
        let (w, h) = self.0.extent();
        let ghost g = self@;
        let mut total: usize = 0;
        let mut y: usize = 0;
        assert(filled_before(g, 0, 0) =~= Set::<(int, int)>::empty());
        while y < h
            invariant
                g == self@,
                w == g.width,
                h == g.height,
                w * h <= usize::MAX,
                y <= h,
                filled_before(g, 0, y as int).finite(),
                total == filled_before(g, 0, y as int).len(),
                total <= y * w,
            decreases h - y,
        {
            let mut x: usize = 0;
            while x < w
                invariant
                    g == self@,
                    w == g.width,
                    h == g.height,
                    w * h <= usize::MAX,
                    y < h,
                    x <= w,
                    filled_before(g, x as int, y as int).finite(),
                    total == filled_before(g, x as int, y as int).len(),
                    total <= y * w + x,
                decreases w - x,
            {
                proof {
                    assert(y * w + x < w * h) by (nonlinear_arith)
                        requires x < w, y < h;
                }
                let ghost before = filled_before(g, x as int, y as int);
                if self.at(x, y) {
                    assert(filled_before(g, x + 1, y as int) =~= before.insert((x as int, y as int)));
                    total = total + 1;
                } else {
                    assert(filled_before(g, x + 1, y as int) =~= before);
                }
                x = x + 1;
            }
            assert(filled_before(g, 0, y + 1) =~= filled_before(g, w as int, y as int));
            assert((y + 1) * w == y * w + w) by (nonlinear_arith);
            y = y + 1;
        }
        assert(filled_before(g, 0, h as int) =~= filled_cells(g));
        total
    }

    /// Whether `(x, y)` is a cell of the shape and empty.
    pub fn is_open(&self, x: isize, y: isize) -> (r: bool)
        ensures
            r == self@.open_at(x as int, y as int),
    {
        0 <= x && (x as usize) < self.width() && 0 <= y && (y as usize) < self.height() && !self.at(
            x as usize,
            y as usize,
        )
    }

    /// Whether the empty cell `(x, y)` lies in a pocket: an empty region of at
    /// most three cells, too small for a piece of four.
    ///
    /// The region is explored breadth first from `(x, y)` while at most three
    /// cells are tracked; the search gives up, reporting no pocket, as soon as
    /// a fourth cell is found. When every tracked cell has been expanded the
    /// tracked cells are the whole region, and further rounds add nothing.
    pub fn is_dead(&self, x: usize, y: usize) -> (r: bool)
        requires
            self@.open_at(x as int, y as int),
        ensures
            r == is_pocket(self@, x as int, y as int),
    {
        let ghost g = self@;
        let ghost seed = (x as int, y as int);
        let (w, h) = self.0.extent();
        let mut explored: Vec<(usize, usize)> = Vec::new();
        explored.push((x, y));
        let mut k: usize = 0;
        while k < explored.len()
            invariant
                g == self@,
                w == g.width,
                h == g.height,
                1 <= explored@.len() <= 3,
                k <= explored@.len(),
                seed == (x as int, y as int),
                cells_of(explored@)[0] == seed,
                forall|i: int| 0 <= i < explored@.len() ==> g.open_at(
                    #[trigger] cells_of(explored@)[i].0,
                    cells_of(explored@)[i].1,
                ),
                forall|i: int, j: int|
                    0 <= i < j < explored@.len() ==> cells_of(explored@)[i] != cells_of(
                        explored@,
                    )[j],
                forall|s: Set<(int, int)>| #[trigger] closed_region(g, s) && s.contains(seed) ==>
                    forall|i: int| 0 <= i < explored@.len() ==> s.contains(
                        #[trigger] cells_of(explored@)[i],
                    ),
                forall|i: int| 0 <= i < k ==> expanded(
                    g,
                    cells_of(explored@),
                    #[trigger] cells_of(explored@)[i],
                ),
            decreases 3 - k,
        {
            let (cx, cy) = explored[k];
            assert(cells_of(explored@)[k as int] == (cx as int, cy as int));
            let mut d: usize = 0;
            while d < 4
                invariant
                    g == self@,
                    w == g.width,
                    h == g.height,
                    1 <= explored@.len() <= 3,
                    k < explored@.len(),
                    cells_of(explored@)[k as int] == (cx as int, cy as int),
                    cx < w,
                    cy < h,
                    seed == (x as int, y as int),
                cells_of(explored@)[0] == seed,
                    forall|i: int| 0 <= i < explored@.len() ==> g.open_at(
                        #[trigger] cells_of(explored@)[i].0,
                        cells_of(explored@)[i].1,
                    ),
                    forall|i: int, j: int|
                        0 <= i < j < explored@.len() ==> cells_of(explored@)[i] != cells_of(
                            explored@,
                        )[j],
                    forall|s: Set<(int, int)>| #[trigger] closed_region(g, s) && s.contains(seed)
                        ==> forall|i: int| 0 <= i < explored@.len() ==> s.contains(
                        #[trigger] cells_of(explored@)[i],
                    ),
                    forall|i: int| 0 <= i < k ==> expanded(
                        g,
                        cells_of(explored@),
                        #[trigger] cells_of(explored@)[i],
                    ),
                    d >= 1 && g.open_at(cx as int, cy + 1) ==> cells_of(explored@).contains(
                        (cx as int, cy + 1),
                    ),
                    d >= 2 && g.open_at(cx + 1, cy as int) ==> cells_of(explored@).contains(
                        (cx + 1, cy as int),
                    ),
                    d >= 3 && g.open_at(cx as int, cy - 1) ==> cells_of(explored@).contains(
                        (cx as int, cy - 1),
                    ),
                    d >= 4 && g.open_at(cx - 1, cy as int) ==> cells_of(explored@).contains(
                        (cx - 1, cy as int),
                    ),
                decreases 4 - d,
            {
                let next: Option<(usize, usize)> = if d == 0 {
                    if cy + 1 < h { Some((cx, cy + 1)) } else { None }
                } else if d == 1 {
                    if cx + 1 < w { Some((cx + 1, cy)) } else { None }
                } else if d == 2 {
                    if cy > 0 { Some((cx, cy - 1)) } else { None }
                } else {
                    if cx > 0 { Some((cx - 1, cy)) } else { None }
                };
                if let Some((nx, ny)) = next {
                    if !self.at(nx, ny) && !holds_cell(&explored, (nx, ny)) {
                        let ghost n = cell_of((nx, ny));
                        proof {
                            assert forall|s: Set<(int, int)>| #[trigger] closed_region(g, s) && s.contains(seed) implies
                                s.contains(n) by {
                                assert(s.contains(cells_of(explored@)[k as int]));
                            }
                        }
                        if explored.len() == 3 {
                            proof {
                                lemma_region_too_big(g, cells_of(explored@), n, seed);
                            }
                            return false;
                        }
                        let ghost before = explored@;
                        explored.push((nx, ny));
                        proof {
                            assert(cells_of(explored@) =~= cells_of(before).push(n));
                            assert forall|c: (int, int)| cells_of(before).contains(c) implies cells_of(explored@).contains(c) by {
                                let i = choose|i: int| 0 <= i < before.len() && cells_of(before)[i] == c;
                                assert(cells_of(explored@)[i] == c);
                            }
                            assert(cells_of(explored@)[before.len() as int] == n);
                        }
                    }
                }
                d = d + 1;
            }
            k = k + 1;
        }
        proof {
            lemma_pocket_found(g, cells_of(explored@), seed);
        }
        true
    }

    /// Whether some empty cell lies in a pocket (see `is_dead`).
    pub fn has_dead_zones(&self) -> (r: bool)
        ensures
            r == has_pocket(self@),
    {
        let (w, h) = self.0.extent();
        let mut y: usize = 0;
        while y < h
            invariant
                w == self@.width,
                h == self@.height,
                y <= h,
                forall|a: int, b: int|
                    0 <= b < y && self@.open_at(a, b) ==> !#[trigger] is_pocket(self@, a, b),
            decreases h - y,
        {
            let mut x: usize = 0;
            while x < w
                invariant
                    w == self@.width,
                    h == self@.height,
                    y < h,
                    x <= w,
                    forall|a: int, b: int|
                        0 <= b < y && self@.open_at(a, b) ==> !#[trigger] is_pocket(self@, a, b),
                    forall|a: int|
                        0 <= a < x && self@.open_at(a, y as int) ==> !#[trigger] is_pocket(
                            self@,
                            a,
                            y as int,
                        ),
                decreases w - x,
            {
                if !self.at(x, y) && self.is_dead(x, y) {
                    return true;
                }
                x = x + 1;
            }
            y = y + 1;
        }
        false
    }

    /// The offsets, within this shape, of the cells that may be aligned with
    /// the empty board cell being filled: the corner cell when it is filled;
    /// otherwise the first filled cell of the top row and the first filled
    /// cell of the left column, each when there is one.
    ///
    /// Two offsets serve small simply connected pieces; a piece of a more
    /// intricate outline may fit in places that these offsets never try.
    pub fn fit_cells_to_orig(&self) -> (r: [Option<(usize, usize)>; 2])
        ensures
            r@ == anchors(self@),
    {
        let (w, h) = self.0.extent();
        if w == 0 {
            let r = [None, None];
            assert(r@ =~= anchors(self@));
            return r;
        }
        if self.at(0, 0) {
            let r = [Some((0, 0)), None];
            assert(r@ =~= anchors(self@));
            return r;
        }
        let mut hx: Option<(usize, usize)> = None;
        let mut j: usize = 0;
        while hx.is_none() && j < w
            invariant
                w == self@.width,
                h == self@.height,
                h > 0,
                j <= w,
                hx is None ==> top_anchor_from(self@, j as int) == top_anchor_from(self@, 0),
                hx is Some ==> hx == top_anchor_from(self@, 0),
            decreases w - j + if hx is None { 1int } else { 0int },
        {
            if self.at(j, 0) {
                hx = Some((j, 0));
            } else {
                j = j + 1;
            }
        }
        let mut hy: Option<(usize, usize)> = None;
        let mut i: usize = 0;
        while hy.is_none() && i < h
            invariant
                w == self@.width,
                h == self@.height,
                w > 0,
                i <= h,
                hy is None ==> left_anchor_from(self@, i as int) == left_anchor_from(self@, 0),
                hy is Some ==> hy == left_anchor_from(self@, 0),
            decreases h - i + if hy is None { 1int } else { 0int },
        {
            if self.at(0, i) {
                hy = Some((0, i));
            } else {
                i = i + 1;
            }
        }
        let r = [hx, hy];
        assert(r@ =~= anchors(self@));
        r
    }
}

} // verus!

verus! {

impl Shape {
    /// An all-empty shape of the given extent.
    pub fn with_size(width: usize, height: usize) -> (r: Result<Self, ShapeError>)
        ensures
            width >= 1 && height >= 1 && width * height <= usize::MAX ==> r is Ok && r->Ok_0@
                == empty_grid(width as nat, height as nat),
            !(width >= 1 && height >= 1 && width * height <= usize::MAX) ==> r == Err::<
                Self,
                ShapeError,
            >(ShapeError::InvalidDimensions),
    {
        if width < 1 || height < 1 {
            return Err(ShapeError::InvalidDimensions);
        }
        match width.checked_mul(height) {
            Some(_) => Ok(Shape(BitMatrix::with_size(width, height))),
            None => Err(ShapeError::InvalidDimensions),
        }
    }

    /// The shape that the pattern text describes: one line per row, `#` for
    /// a filled cell and `_` for an empty one, blanks between them ignored.
    pub fn from_str(string: &str) -> (r: Result<Self, ShapeError>)
        ensures
            match pattern_grid(string@) {
                Some(g) => r is Ok && r->Ok_0@ == g,
                None => r == Err::<Self, ShapeError>(ShapeError::MalformedPattern),
            },
    {
        let rows = match read_pattern(string) {
            Some(rows) => rows,
            None => return Err(ShapeError::MalformedPattern),
        };
        let ghost want = pattern_grid(string@)->Some_0;
        let h = rows.len();
        let w = rows[0].len();
        assert(w * h == h * w) by (nonlinear_arith);
        let mut m = BitMatrix::with_size(w, h);
        let mut y: usize = 0;
        while y < h
            invariant
                want.width == w,
                want.height == h,
                want.rows == rows_view(rows@),
                rows@.len() == h,
                forall|b: int| 0 <= b < rows@.len() ==> #[trigger] rows@[b]@.len() == w,
                y <= h,
                m@.wf(),
                m@.width == w,
                m@.height == h,
                forall|a: int, b: int|
                    m@.in_bounds(a, b) ==> #[trigger] m@.at(a, b) == (b < y && want.at(a, b)),
            decreases h - y,
        {
            let mut x: usize = 0;
            while x < w
                invariant
                    want.width == w,
                    want.height == h,
                    want.rows == rows_view(rows@),
                    rows@.len() == h,
                    forall|b: int| 0 <= b < rows@.len() ==> #[trigger] rows@[b]@.len() == w,
                    y < h,
                    x <= w,
                    m@.wf(),
                    m@.width == w,
                    m@.height == h,
                    forall|a: int, b: int|
                        m@.in_bounds(a, b) ==> #[trigger] m@.at(a, b) == ((b < y || (b == y && a
                            < x)) && want.at(a, b)),
                decreases w - x,
            {
                let v = rows[y][x];
                assert(want.at(x as int, y as int) == v);
                m.set(x, y, v);
                x = x + 1;
            }
            y = y + 1;
        }
        let r = Shape(m);
        proof {
            assert forall|b: int| 0 <= b < want.height implies #[trigger] want.rows[b].len()
                == want.width by {
                assert(rows@[b]@.len() == w);
            }
            lemma_grid_ext(r@, want);
        }
        Ok(r)
    }

    /// The pattern text of the shape: a line per row, `# ` for each filled
    /// cell and `_ ` for each empty one.
    pub fn render(&self) -> (r: String)
        ensures
            r@ == grid_text(self@),
    {
        let (w, h) = self.0.extent();
        let ghost g = self@;
        let mut out = String::new();
        let mut y: usize = 0;
        while y < h
            invariant
                g == self@,
                g.wf(),
                w == g.width,
                h == g.height,
                y <= h,
                out@ == rows_text(g.rows.take(y as int)),
            decreases h - y,
        {
            let mut x: usize = 0;
            while x < w
                invariant
                    g == self@,
                    g.wf(),
                    w == g.width,
                    h == g.height,
                    y < h,
                    x <= w,
                    out@ == rows_text(g.rows.take(y as int)) + row_text(g.rows[y as int].take(x as int)),
                decreases w - x,
            {
                let ghost before = out@;
                let filled = self.at(x, y);
                push_char(&mut out, if filled { '#' } else { '_' });
                push_char(&mut out, ' ');
                proof {
                    let r = g.rows[y as int].take(x + 1);
                    assert(r.drop_last() =~= g.rows[y as int].take(x as int));
                    assert(out@ =~= before + cell_text(r.last()));
                }
                x = x + 1;
            }
            let ghost before = out@;
            push_char(&mut out, '\n');
            proof {
                assert(g.rows[y as int].take(w as int) =~= g.rows[y as int]);
                let t = g.rows.take(y + 1);
                assert(t.drop_last() =~= g.rows.take(y as int));
                assert(out@ =~= rows_text(t));
            }
            y = y + 1;
        }
        assert(g.rows.take(h as int) =~= g.rows);
        out
    }
}

} // verus!
