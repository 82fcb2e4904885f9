//! A grid of cells stored flat, row by row.
use vstd::prelude::*;
use crate::grid::{Grid, grid_of, empty_grid, lemma_grid_ext};

verus! {

/// The cell `(x, y)` of a `width`-wide grid sits at `y * width + x`, inside
/// the storage of `width * height` cells.
proof fn lemma_index(x: int, y: int, width: int, height: int)
    requires
        0 <= x < width,
        0 <= y < height,
    ensures
        0 <= y * width + x < width * height,
        0 <= y * width,
{
    assert(0 <= y * width) by (nonlinear_arith)
        requires 0 <= y, 0 <= width;
    assert(y * width + x < width * height) by (nonlinear_arith)
        requires 0 <= x < width, 0 <= y < height;
}

/// Two cells of a `width`-wide grid share a storage index only if they are the same cell.
proof fn lemma_index_unique(x: int, y: int, x2: int, y2: int, width: int)
    requires
        0 <= x < width,
        0 <= x2 < width,
        0 <= y,
        0 <= y2,
        y * width + x == y2 * width + x2,
    ensures
        x == x2,
        y == y2,
{
    if y < y2 {
        assert(y * width + x < y2 * width + x2) by (nonlinear_arith)
            requires 0 <= x < width, 0 <= x2, y < y2;
    } else if y2 < y {
        assert(y2 * width + x2 < y * width + x) by (nonlinear_arith)
            requires 0 <= x2 < width, 0 <= x, y2 < y;
    }
}

/// An extent of `n` grown, where needed, to reach index `i`.
pub open spec fn grown_to(n: nat, i: int) -> nat {
    if n > i + 1 {
        n
    } else {
        (i + 1) as nat
    }
}

/// A `width` by `height` grid of cells.
#[derive(Debug)]
pub struct BitMatrix {
    cells: Vec<bool>,
    width: usize,
    height: usize,
}

impl View for BitMatrix {
    type V = Grid;

    closed spec fn view(&self) -> Grid {
        grid_of(
            self.width as nat,
            self.height as nat,
            |x: int, y: int| self.cells@[y * self.width + x],
        )
    }
}

impl BitMatrix {
    #[verifier::type_invariant]
    spec fn inv(self) -> bool {
        &&& self.cells@.len() == self.width * self.height
        &&& self.width * self.height <= usize::MAX
        &&& (self.width == 0) == (self.height == 0)
    }


    /// The matrix with no cells.
    pub fn new() -> (r: Self)
        ensures
            r@ == empty_grid(0, 0),
    {
        let r = BitMatrix { cells: Vec::new(), width: 0, height: 0 };
        assert(r@.rows =~= empty_grid(0, 0).rows);
        r
    }

    /// An all-empty matrix of the given extent.
    pub fn with_size(width: usize, height: usize) -> (r: Self)
        requires
            width >= 1,
            height >= 1,
            width * height <= usize::MAX,
        ensures
            r@ == empty_grid(width as nat, height as nat),
    {
        let mut matrix = Self::new();
        matrix.expand_to(width - 1, height - 1, false);
        let ghost g = matrix@;
        let ghost e = empty_grid(width as nat, height as nat);
        assert(g.rows =~= e.rows) by {
            assert forall|y: int| 0 <= y < height implies #[trigger] g.rows[y] == e.rows[y] by {
                assert(g.rows[y] =~= e.rows[y]);
            }
        }
        matrix
    }

    /// Width and height; their product, the cell count, fits in `usize`,
    /// and a matrix with no rows has no columns.
    pub fn extent(&self) -> (r: (usize, usize))
        ensures
            r.0 == self@.width,
            r.1 == self@.height,
            r.0 * r.1 <= usize::MAX,
            (r.0 == 0) == (r.1 == 0),
            self@.wf(),
    {
        proof {
            use_type_invariant(self);
        }
        (self.width, self.height)
    }

    pub fn width(&self) -> (r: usize)
        ensures
            r == self@.width,
    {
        self.width
    }

    pub fn height(&self) -> (r: usize)
        ensures
            r == self@.height,
    {
        self.height
    }

    /// The cell `(x, y)`.
    pub fn at(&self, x: usize, y: usize) -> (r: bool)
        requires
            self@.in_bounds(x as int, y as int),
        ensures
            r == self@.at(x as int, y as int),
    {
        proof {
            use_type_invariant(self);
            lemma_index(x as int, y as int, self.width as int, self.height as int);
        }
        self.cells[y * self.width + x]
    }

    /// Sets the cell `(x, y)` to `bit`, leaving the others as they are.
    pub fn set(&mut self, x: usize, y: usize, bit: bool)
        requires
            old(self)@.in_bounds(x as int, y as int),
        ensures
            final(self)@ == grid_of(
                old(self)@.width,
                old(self)@.height,
                |i: int, j: int| if i == x && j == y { bit } else { old(self)@.at(i, j) },
            ),
    {
        proof {
            use_type_invariant(&*self);
            lemma_index(x as int, y as int, self.width as int, self.height as int);
        }
        let ghost before = self@;
        let i = y * self.width + x;
        self.cells[i] = bit;
        let ghost after = self@;
        let ghost want = grid_of(
            before.width,
            before.height,
            |i: int, j: int| if i == x && j == y { bit } else { before.at(i, j) },
        );
        assert(after.rows =~= want.rows) by {
            assert forall|j: int| 0 <= j < before.height implies #[trigger] after.rows[j]
                == want.rows[j] by {
                assert forall|i2: int| 0 <= i2 < before.width implies after.rows[j][i2]
                    == want.rows[j][i2] by {
                    lemma_index(i2, j, self.width as int, self.height as int);
                    if j * self.width + i2 == y * self.width + x {
                        lemma_index_unique(i2, j, x as int, y as int, self.width as int);
                    }
                }
                assert(after.rows[j] =~= want.rows[j]);
            }
        }
    }

    /// Grows the matrix to hold the cell `(x, y)` and sets that cell to `bit`.
    /// The cells it held keep their places; the cells it gains are empty.
    pub fn expand_to(&mut self, x: usize, y: usize, bit: bool)
        requires
            x < usize::MAX,
            y < usize::MAX,
            grown_to(old(self)@.width, x as int)
                * grown_to(old(self)@.height, y as int)
                <= usize::MAX,
        ensures
            final(self)@ == grid_of(
                grown_to(old(self)@.width, x as int),
                grown_to(old(self)@.height, y as int),
                |i: int, j: int|
                    if i == x && j == y {
                        bit
                    } else {
                        old(self)@.in_bounds(i, j) && old(self)@.at(i, j)
                    },
            ),
    {
        proof {
            use_type_invariant(&*self);
        }
        let ghost before = self@;
        let width = if self.width > x + 1 { self.width } else { x + 1 };
        let height = if self.height > y + 1 { self.height } else { y + 1 };
        let mut cells: Vec<bool> = vec![false; width * height];
        assert forall|i: int, k: int| 0 <= i < width && 0 <= k < height implies !#[trigger] cells@[k
            * width + i] by {
            lemma_index(i, k, width as int, height as int);
        }
        let mut j: usize = 0;
        while j < self.height
            invariant
                self@ == before,
                self.cells@.len() == self.width * self.height,
                self.width * self.height <= usize::MAX,
                self.width <= width,
                self.height <= height,
                width * height <= usize::MAX,
                j <= self.height,
                cells@.len() == width * height,
                forall|i: int, k: int|
                    0 <= i < width && 0 <= k < height ==> #[trigger] cells@[k * width + i]
                        == (k < j && before.in_bounds(i, k) && before.at(i, k)),
            decreases self.height - j,
        {
            let mut i: usize = 0;
            while i < self.width
                invariant
                    self@ == before,
                    self.cells@.len() == self.width * self.height,
                    self.width * self.height <= usize::MAX,
                    self.width <= width,
                    self.height <= height,
                    width * height <= usize::MAX,
                    j < self.height,
                    i <= self.width,
                    cells@.len() == width * height,
                    forall|i2: int, k: int|
                        0 <= i2 < width && 0 <= k < height ==> #[trigger] cells@[k * width + i2]
                            == ((k < j || (k == j && i2 < i)) && before.in_bounds(i2, k)
                            && before.at(i2, k)),
                decreases self.width - i,
            {
                proof {
                    lemma_index(i as int, j as int, width as int, height as int);
                    lemma_index(i as int, j as int, self.width as int, self.height as int);
                }
                let v = self.cells[j * self.width + i];
                let ghost prev = cells@;
                cells.set(j * width + i, v);
                proof {
                    assert forall|i2: int, k: int|
                        0 <= i2 < width && 0 <= k < height implies #[trigger] cells@[k * width
                            + i2] == ((k < j || (k == j && i2 < i + 1)) && before.in_bounds(i2, k)
                            && before.at(i2, k)) by {
                        lemma_index(i2, k, width as int, height as int);
                        if k * width + i2 == j * width + i {
                            lemma_index_unique(i2, k, i as int, j as int, width as int);
                        } else {
                            assert(cells@[k * width + i2] == prev[k * width + i2]);
                        }
                    }
                }
                i = i + 1;
            }
            j = j + 1;
        }
        proof {
            lemma_index(x as int, y as int, width as int, height as int);
        }
        let ghost prev = cells@;
        cells.set(y * width + x, bit);
        *self = BitMatrix { cells, width, height };
        let ghost after = self@;
        let ghost want = grid_of(
            width as nat,
            height as nat,
            |i: int, j: int|
                if i == x && j == y {
                    bit
                } else {
                    before.in_bounds(i, j) && before.at(i, j)
                },
        );
        assert(after.rows =~= want.rows) by {
            assert forall|k: int| 0 <= k < height implies #[trigger] after.rows[k]
                == want.rows[k] by {
                assert forall|i2: int| 0 <= i2 < width implies after.rows[k][i2]
                    == want.rows[k][i2] by {
                    lemma_index(i2, k, width as int, height as int);
                    if k * width + i2 == y * width + x {
                        lemma_index_unique(i2, k, x as int, y as int, width as int);
                    } else {
                        assert(after.rows[k][i2] == prev[k * width + i2]);
                    }
                }
                assert(after.rows[k] =~= want.rows[k]);
            }
        }
    }
}

} // verus!

verus! {

impl Clone for BitMatrix {
    fn clone(&self) -> (r: Self)
        ensures
            r@ == self@,
            r@.wf(),
    {
        proof {
            use_type_invariant(self);
        }
        let cells = self.cells.clone();
        assert(cells@ =~= self.cells@);
        BitMatrix { cells, width: self.width, height: self.height }
    }
}

impl PartialEq for BitMatrix {
    /// Two matrices are equal when they have one extent and agree on every cell.
    fn eq(&self, other: &Self) -> (r: bool) {
        if self.width != other.width || self.height != other.height {
            return false;
        }
        let mut y: usize = 0;
        while y < self.height
            invariant
                self@.width == other@.width,
                self@.height == other@.height,
                y <= self.height,
                forall|i: int, j: int|
                    0 <= i < self@.width && 0 <= j < y ==> #[trigger] self@.at(i, j) == other@.at(
                        i,
                        j,
                    ),
            decreases self.height - y,
        {
            let mut x: usize = 0;
            while x < self.width
                invariant
                    self@.width == other@.width,
                    self@.height == other@.height,
                    y < self.height,
                    x <= self.width,
                    forall|i: int, j: int|
                        0 <= i < self@.width && 0 <= j < y ==> #[trigger] self@.at(i, j)
                            == other@.at(i, j),
                    forall|i: int| 0 <= i < x ==> #[trigger] self@.at(i, y as int) == other@.at(
                        i,
                        y as int,
                    ),
                decreases self.width - x,
            {
                if self.at(x, y) != other.at(x, y) {
                    return false;
                }
                x = x + 1;
            }
            y = y + 1;
        }
        proof {
            lemma_grid_ext(self@, other@);
        }
        true
    }
}

impl vstd::std_specs::cmp::PartialEqSpecImpl for BitMatrix {
    open spec fn obeys_eq_spec() -> bool {
        true
    }

    open spec fn eq_spec(&self, other: &BitMatrix) -> bool {
        self@ == other@
    }
}

} // verus!
