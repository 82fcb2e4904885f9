//! Counting cells: how rotation and placement change the number of filled
//! cells, and when a count shows that a grid is full.
use vstd::prelude::*;
use vstd::set_lib::{set_int_range, lemma_int_range, lemma_map_size, lemma_set_disjoint_lens, lemma_len_subset, lemma_subset_equality};
use crate::grid::{Grid, cells, filled_cells, filled_count, rotated, rotated_n, fits, placed, covers};

verus! {

/// The cells of a `w` by `k` rectangle.
pub open spec fn rect(w: nat, k: nat) -> Set<(int, int)> {
    Set::new(|c: (int, int)| 0 <= c.0 < w && 0 <= c.1 < k)
}

proof fn lemma_rect_len(w: nat, k: nat)
    ensures
        rect(w, k).finite(),
        rect(w, k).len() == w * k,
    decreases k,
{
    if k == 0 {
        assert(rect(w, k) =~= Set::<(int, int)>::empty());
    } else {
        let k1 = (k - 1) as nat;
        lemma_rect_len(w, k1);
        let f = |x: int| (x, k1 as int);
        let row = set_int_range(0, w as int).map(f);
        lemma_int_range(0, w as int);
        lemma_map_size(set_int_range(0, w as int), row, f);
        assert(rect(w, k) =~= rect(w, k1) + row) by {
            assert forall|c: (int, int)| rect(w, k).contains(c) && c.1 == k1 implies row.contains(c) by {
                assert(set_int_range(0, w as int).contains(c.0));
                assert(f(c.0) == c);
            }
        }
        assert(rect(w, k1).disjoint(row));
        lemma_set_disjoint_lens(rect(w, k1), row);
        assert(w * k1 + w == w * k) by (nonlinear_arith)
            requires k1 + 1 == k;
    }
}

/// A grid has `width * height` cells; its filled cells are a finite set of
/// at most that many.
pub proof fn lemma_cells_len(g: Grid)
    ensures
        cells(g).finite(),
        cells(g).len() == g.width * g.height,
        filled_cells(g).finite(),
        filled_count(g) <= g.width * g.height,
{
    lemma_rect_len(g.width, g.height);
    assert(cells(g) =~= rect(g.width, g.height));
    lemma_len_subset(filled_cells(g), cells(g));
}

/// A grid with as many filled cells as cells is full.
pub proof fn lemma_full_by_count(g: Grid)
    requires
        filled_count(g) == g.width * g.height,
    ensures
        g.is_full(),
{
    lemma_cells_len(g);
    lemma_subset_equality(filled_cells(g), cells(g));
    assert forall|x: int, y: int| g.in_bounds(x, y) implies #[trigger] g.at(x, y) by {
        assert(cells(g).contains((x, y)));
    }
}

/// A quarter turn keeps the number of filled cells.
pub proof fn lemma_rotated_count(g: Grid)
    ensures
        filled_count(rotated(g)) == filled_count(g),
{
    let r = rotated(g);
    let h = g.height as int;
    let f = |c: (int, int)| (h - 1 - c.1, c.0);
    lemma_cells_len(g);
    assert(filled_cells(g).map(f) =~= filled_cells(r)) by {
        assert forall|c: (int, int)| filled_cells(r).contains(c) implies filled_cells(g).map(f).contains(c) by {
            let a = (c.1, h - 1 - c.0);
            assert(filled_cells(g).contains(a));
            assert(f(a) == c);
        }
    }
    assert(vstd::relations::injective_on(f, filled_cells(g)));
    lemma_map_size(filled_cells(g), filled_cells(r), f);
}

/// Any number of quarter turns keeps the number of filled cells.
pub proof fn lemma_rotated_n_count(g: Grid, n: nat)
    ensures
        filled_count(rotated_n(g, n)) == filled_count(g),
    decreases n,
{
    if n > 0 {
        lemma_rotated_n_count(g, (n - 1) as nat);
        lemma_rotated_count(rotated_n(g, (n - 1) as nat));
    }
}

/// Laying a piece where it fits adds its filled cells to those of the board.
pub proof fn lemma_placed_count(g: Grid, ox: int, oy: int, p: Grid)
    requires
        0 <= ox,
        0 <= oy,
        fits(g, ox, oy, p),
    ensures
        filled_count(placed(g, ox, oy, p)) == filled_count(g) + filled_count(p),
        placed(g, ox, oy, p).width == g.width,
        placed(g, ox, oy, p).height == g.height,
{
    let q = placed(g, ox, oy, p);
    let f = |c: (int, int)| (c.0 + ox, c.1 + oy);
    let shifted = filled_cells(p).map(f);
    lemma_cells_len(g);
    lemma_cells_len(p);
    assert(filled_cells(q) =~= filled_cells(g) + shifted) by {
        assert forall|c: (int, int)| filled_cells(q).contains(c) && !filled_cells(g).contains(c)
            implies shifted.contains(c) by {
            let a = (c.0 - ox, c.1 - oy);
            assert(covers(p, ox, oy, c.0, c.1));
            assert(filled_cells(p).contains(a));
            assert(f(a) == c);
        }
        assert forall|c: (int, int)| shifted.contains(c) implies filled_cells(q).contains(c) by {
            let a = choose|a: (int, int)| filled_cells(p).contains(a) && f(a) == c;
            assert(p.at(a.0, a.1));
            assert(c.0 - ox == a.0 && c.1 - oy == a.1);
        }
    }
    assert(vstd::relations::injective_on(f, filled_cells(p)));
    lemma_map_size(filled_cells(p), shifted, f);
    assert(filled_cells(g).disjoint(shifted)) by {
        assert forall|c: (int, int)| shifted.contains(c) implies !filled_cells(g).contains(c) by {
            let a = choose|a: (int, int)| filled_cells(p).contains(a) && f(a) == c;
            assert(p.at(a.0, a.1));
            assert(!g.at(ox + a.0, oy + a.1));
        }
    }
    lemma_set_disjoint_lens(filled_cells(g), shifted);
}

} // verus!
