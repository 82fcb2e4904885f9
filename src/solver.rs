//! The backtracking search that tiles a board with a multiset of pieces.
use vstd::prelude::*;
use crate::grid::{Grid, rotated, rotated_n, fits, placed, filled_count, has_pocket, anchors, lemma_rotate_four};
use crate::area::{lemma_rotated_n_count, lemma_placed_count, lemma_full_by_count};
use crate::shape::Shape;

verus! {

/// One placement: `piece`, which is the original piece turned `r` quarter
/// turns clockwise, laid with its corner at `(x, y)`.
#[derive(Debug)]
pub struct Step {
    pub x: usize,
    pub y: usize,
    pub piece: Shape,
    pub r: usize,
}

impl Clone for Step {
    fn clone(&self) -> (r: Self)
        ensures
            r.x == self.x,
            r.y == self.y,
            r.piece@ == self.piece@,
            r.r == self.r,
    {
        Step { x: self.x, y: self.y, piece: self.piece.clone(), r: self.r }
    }
}

/// A step as the search sees it: a position, a grid and a rotation count.
pub struct Placement {
    pub x: usize,
    pub y: usize,
    pub piece: Grid,
    pub r: usize,
}

pub open spec fn placement_of(s: Step) -> Placement {
    Placement { x: s.x, y: s.y, piece: s.piece@, r: s.r }
}

pub open spec fn placements(steps: Seq<Step>) -> Seq<Placement> {
    steps.map_values(|s: Step| placement_of(s))
}

/// `c` is empty and every cell before it in reading order (rows top to
/// bottom, each left to right) is filled.
pub open spec fn is_first_open(g: Grid, c: (usize, usize)) -> bool {
    &&& g.open_at(c.0 as int, c.1 as int)
    &&& forall|a: int, b: int|
        g.in_bounds(a, b) && (b < c.1 || (b == c.1 && a < c.0)) ==> #[trigger] g.at(a, b)
}

/// The first empty cell in reading order, or `None` when the grid is full.
pub open spec fn first_open_cell(g: Grid) -> Option<(usize, usize)> {
    if exists|c: (usize, usize)| is_first_open(g, c) {
        Some(choose|c: (usize, usize)| is_first_open(g, c))
    } else {
        None
    }
}

/// There is only one first empty cell.
proof fn lemma_first_open_unique(g: Grid, c: (usize, usize), d: (usize, usize))
    requires
        is_first_open(g, c),
        is_first_open(g, d),
    ensures
        c == d,
{
    if c.1 < d.1 || (c.1 == d.1 && c.0 < d.0) {
        assert(g.at(c.0 as int, c.1 as int));
    } else if d.1 < c.1 || (d.1 == c.1 && d.0 < c.0) {
        assert(g.at(d.0 as int, d.1 as int));
    }
}

/// The pieces with the entry `i` taken out: the last entry takes its place.
pub open spec fn swap_removed(s: Seq<Grid>, i: int) -> Seq<Grid> {
    s.update(i, s.last()).drop_last()
}

/// The solution that the search finds for `board` and `pieces`, or `None`.
///
/// With no piece left the board is solved. Otherwise the first empty cell
/// `c` must be filled: see `try_pieces`.
pub open spec fn search(board: Grid, pieces: Seq<Grid>) -> Option<Seq<Placement>>
    decreases pieces.len(), pieces.len() + 1, 0int, 0int,
{
    if pieces.len() == 0 {
        Some(Seq::empty())
    } else {
        match first_open_cell(board) {
            None => None,
            Some(c) => try_pieces(board, pieces, c, 0, Seq::empty()),
        }
    }
}

/// The pieces from the entry `i` on, tried in order at the cell `c`;
/// `tried` holds the orientations already tried there.
pub open spec fn try_pieces(
    board: Grid,
    pieces: Seq<Grid>,
    c: (usize, usize),
    i: int,
    tried: Seq<Grid>,
) -> Option<Seq<Placement>>
    decreases pieces.len(), pieces.len() - i, 5int, 3int,
{
    if 0 <= i < pieces.len() {
        try_turns(board, pieces, c, i, 0, pieces[i], tried)
    } else {
        None
    }
}

/// The piece `i` from its orientation `piece`, turned `r` times, on: an
/// orientation already tried at `c` is skipped.
pub open spec fn try_turns(
    board: Grid,
    pieces: Seq<Grid>,
    c: (usize, usize),
    i: int,
    r: int,
    piece: Grid,
    tried: Seq<Grid>,
) -> Option<Seq<Placement>>
    decreases pieces.len(), pieces.len() - i, 4 - r, 3int,
{
    if !(0 <= i < pieces.len()) || r < 0 {
        None
    } else if r >= 4 {
        try_pieces(board, pieces, c, i + 1, tried)
    } else if tried.contains(piece) {
        try_turns(board, pieces, c, i, r + 1, rotated(piece), tried)
    } else {
        try_anchors(board, pieces, c, i, r, piece, tried.push(piece), 0)
    }
}

/// The anchors of `piece` from the entry `k` on: the piece is laid so that
/// the anchor meets `c` (or as near as the board's edge allows); where it
/// fits and leaves no pocket, the search goes on with the piece taken out.
pub open spec fn try_anchors(
    board: Grid,
    pieces: Seq<Grid>,
    c: (usize, usize),
    i: int,
    r: int,
    piece: Grid,
    tried: Seq<Grid>,
    k: int,
) -> Option<Seq<Placement>>
    decreases pieces.len(), pieces.len() - i, 4 - r, 2 - k,
{
    if !(0 <= i < pieces.len()) || !(0 <= r < 4) || k < 0 {
        None
    } else if k >= 2 {
        try_turns(board, pieces, c, i, r + 1, rotated(piece), tried)
    } else {
        match anchors(piece)[k] {
            Some(a) => {
                let ox = if c.0 >= a.0 { (c.0 - a.0) as usize } else { 0usize };
                let oy = if c.1 >= a.1 { (c.1 - a.1) as usize } else { 0usize };
                let next = placed(board, ox as int, oy as int, piece);
                if fits(board, ox as int, oy as int, piece) && !has_pocket(next) {
                    match search(next, swap_removed(pieces, i)) {
                        Some(rest) => Some(
                            seq![Placement { x: ox, y: oy, piece, r: r as usize }] + rest,
                        ),
                        None => try_anchors(board, pieces, c, i, r, piece, tried, k + 1),
                    }
                } else {
                    try_anchors(board, pieces, c, i, r, piece, tried, k + 1)
                }
            },
            None => try_anchors(board, pieces, c, i, r, piece, tried, k + 1),
        }
    }
}

/// The grids of a sequence of shapes.
pub open spec fn shape_views(s: Seq<Shape>) -> Seq<Grid> {
    s.map_values(|p: Shape| p@)
}

/// The board after the steps, each laid on the board that the ones before left.
pub open spec fn replay(board: Grid, steps: Seq<Step>) -> Grid
    decreases steps.len(),
{
    if steps.len() == 0 {
        board
    } else {
        replay(
            placed(board, steps[0].x as int, steps[0].y as int, steps[0].piece@),
            steps.drop_first(),
        )
    }
}

/// Each step lays its piece inside the board left by the ones before, on
/// empty cells only.
pub open spec fn steps_fit(board: Grid, steps: Seq<Step>) -> bool
    decreases steps.len(),
{
    steps.len() == 0 || (fits(board, steps[0].x as int, steps[0].y as int, steps[0].piece@)
        && steps_fit(
        placed(board, steps[0].x as int, steps[0].y as int, steps[0].piece@),
        steps.drop_first(),
    ))
}

/// The piece of a step turned back to its original orientation.
pub open spec fn unturned(s: Step) -> Grid {
    rotated_n(s.piece@, (4 - s.r) as nat)
}

/// The steps lay each of the pieces exactly once, each turned by its
/// step's rotation count.
pub open spec fn uses_pieces(steps: Seq<Step>, pieces: Seq<Grid>) -> bool {
    &&& forall|k: int| 0 <= k < steps.len() ==> #[trigger] steps[k].r < 4
    &&& steps.map_values(|s: Step| unturned(s)).to_multiset() == pieces.to_multiset()
}

/// The number of filled cells over all the pieces.
pub open spec fn total_filled(pieces: Seq<Grid>) -> nat
    decreases pieces.len(),
{
    if pieces.len() == 0 {
        0
    } else {
        total_filled(pieces.drop_last()) + filled_count(pieces.last())
    }
}

/// A prefix of the pieces has no more filled cells than all of them.
proof fn lemma_total_filled_prefix(pieces: Seq<Grid>, j: int)
    requires
        0 <= j <= pieces.len(),
    ensures
        total_filled(pieces.take(j)) <= total_filled(pieces),
    decreases pieces.len(),
{
    if j < pieces.len() {
        lemma_total_filled_prefix(pieces.drop_last(), j);
        assert(pieces.drop_last().take(j) =~= pieces.take(j));
    } else {
        assert(pieces.take(j) =~= pieces);
    }
}

/// Taking one piece out takes its filled cells out of the total.
proof fn lemma_total_filled_remove(s: Seq<Grid>, j: int)
    requires
        0 <= j < s.len(),
    ensures
        total_filled(s) == total_filled(s.remove(j)) + filled_count(s[j]),
    decreases s.len(),
{
    if j == s.len() - 1 {
        assert(s.remove(j) =~= s.drop_last());
    } else {
        lemma_total_filled_remove(s.drop_last(), j);
        assert(s.remove(j).drop_last() =~= s.drop_last().remove(j));
        assert(s.remove(j).last() == s.last());
    }
}

/// The total depends only on which pieces there are, not on their order.
proof fn lemma_total_filled_multiset(s1: Seq<Grid>, s2: Seq<Grid>)
    requires
        s1.to_multiset() == s2.to_multiset(),
    ensures
        total_filled(s1) == total_filled(s2),
    decreases s1.len(),
{
    broadcast use vstd::seq_lib::group_to_multiset_ensures;
    if s1.len() == 0 {
        assert(s2.to_multiset().len() == 0);
    } else {
        let l = s1.last();
        assert(s1.contains(l)) by {
            assert(s1[s1.len() - 1] == l);
        }
        assert(s2.to_multiset().count(l) > 0);
        assert(s2.contains(l));
        let j = choose|j: int| 0 <= j < s2.len() && s2[j] == l;
        assert(s1.remove(s1.len() - 1) =~= s1.drop_last());
        assert(s1.drop_last().to_multiset() == s1.to_multiset().remove(l));
        assert(s2.remove(j).to_multiset() == s2.to_multiset().remove(l));
        lemma_total_filled_multiset(s1.drop_last(), s2.remove(j));
        lemma_total_filled_remove(s2, j);
    }
}

/// Sequences whose entries have the same counts, one by one, have the same total.
proof fn lemma_total_filled_pointwise(s1: Seq<Grid>, s2: Seq<Grid>)
    requires
        s1.len() == s2.len(),
        forall|k: int| 0 <= k < s1.len() ==> filled_count(#[trigger] s1[k]) == filled_count(s2[k]),
    ensures
        total_filled(s1) == total_filled(s2),
    decreases s1.len(),
{
    if s1.len() > 0 {
        lemma_total_filled_pointwise(s1.drop_last(), s2.drop_last());
        assert(filled_count(s1[s1.len() - 1]) == filled_count(s2[s2.len() - 1]));
    }
}

/// The grids that the steps lay.
pub open spec fn step_pieces(steps: Seq<Step>) -> Seq<Grid> {
    steps.map_values(|s: Step| s.piece@)
}

/// Steps that fit add the filled cells of their pieces to the board.
proof fn lemma_replay_count(board: Grid, steps: Seq<Step>)
    requires
        steps_fit(board, steps),
    ensures
        filled_count(replay(board, steps)) == filled_count(board) + total_filled(step_pieces(steps)),
        replay(board, steps).width == board.width,
        replay(board, steps).height == board.height,
    decreases steps.len(),
{
    if steps.len() == 0 {
        assert(step_pieces(steps) =~= Seq::<Grid>::empty());
    } else {
        let s0 = steps[0];
        let next = placed(board, s0.x as int, s0.y as int, s0.piece@);
        lemma_placed_count(board, s0.x as int, s0.y as int, s0.piece@);
        lemma_replay_count(next, steps.drop_first());
        lemma_total_filled_remove(step_pieces(steps), 0);
        assert(step_pieces(steps).remove(0) =~= step_pieces(steps.drop_first()));
    }
}

/// A solution lays every piece on empty cells only; so when the pieces have,
/// all together, as many filled cells as the board has empty ones, the board
/// that the solution leaves is full: every cell covered exactly once.
pub proof fn lemma_solution_fills_board(board: Grid, pieces: Seq<Grid>, steps: Seq<Step>)
    requires
        steps_fit(board, steps),
        uses_pieces(steps, pieces),
        filled_count(board) + total_filled(pieces) == board.width * board.height,
    ensures
        replay(board, steps).width == board.width,
        replay(board, steps).height == board.height,
        replay(board, steps).is_full(),
{
    let back = steps.map_values(|s: Step| unturned(s));
    lemma_total_filled_multiset(back, pieces);
    assert forall|k: int| 0 <= k < back.len() implies filled_count(#[trigger] back[k])
        == filled_count(step_pieces(steps)[k]) by {
        lemma_rotated_n_count(steps[k].piece@, (4 - steps[k].r) as nat);
    }
    lemma_total_filled_pointwise(back, step_pieces(steps));
    lemma_replay_count(board, steps);
    lemma_full_by_count(replay(board, steps));
}

/// Whether the pieces have, all together, exactly as many filled cells as a
/// `width` by `height` board has cells: the check a caller makes before
/// `solve`, without which no exact tiling can exist.
pub fn pieces_fill_area(width: usize, height: usize, pieces: &Vec<Shape>) -> (r: bool)
    ensures
        r == (total_filled(shape_views(pieces@)) == width * height),
{
    let ghost views = shape_views(pieces@);
    assert((width as u128) * (height as u128) <= u128::MAX) by (nonlinear_arith)
        requires width <= u64::MAX, height <= u64::MAX;
    let area: u128 = (width as u128) * (height as u128);
    let mut total: u128 = 0;
    let mut k: usize = 0;
    while k < pieces.len()
        invariant
            views == shape_views(pieces@),
            area == width * height,
            k <= pieces@.len(),
            total == total_filled(views.take(k as int)),
            total <= area,
        decreases pieces@.len() - k,
    {
        let n = pieces[k].len() as u128;
        assert(views.take(k + 1).drop_last() =~= views.take(k as int));
        if n > area - total {
            proof {
                lemma_total_filled_prefix(views, k + 1);
            }
            return false;
        }
        total = total + n;
        k = k + 1;
    }
    assert(views.take(k as int) =~= views);
    total == area
}

/// Turning by `a` then by `b` quarter turns is turning by `a + b`.
pub proof fn lemma_rotated_add(g: Grid, a: nat, b: nat)
    ensures
        rotated_n(rotated_n(g, a), b) == rotated_n(g, a + b),
    decreases b,
{
    if b > 0 {
        lemma_rotated_add(g, a, (b - 1) as nat);
        assert((a + b - 1) as nat == a + (b - 1) as nat);
    }
}

/// Removing the entry `i` by moving the last entry into its place leaves the
/// other entries.
proof fn lemma_swap_remove_multiset<A>(s: Seq<A>, i: int)
    requires
        0 <= i < s.len(),
    ensures
        s.update(i, s.last()).drop_last().to_multiset().insert(s[i]) == s.to_multiset(),
{
    broadcast use vstd::seq_lib::group_to_multiset_ensures;
    let t = s.update(i, s.last());
    let d = t.drop_last();
    assert(d.push(t.last()) =~= t);
    vstd::seq_lib::to_multiset_build(d, t.last());
    vstd::seq_lib::to_multiset_update(s, i, s.last());
    assert(s.contains(s[i]));
    assert(s.to_multiset().count(s[i]) > 0);
    assert forall|v: A| #[trigger] d.to_multiset().insert(s[i]).count(v) == s.to_multiset().count(v) by {
        assert(t.to_multiset().count(v) == d.to_multiset().count(v) + if v == s.last() { 1int } else { 0int });
        assert(t.to_multiset().count(v) == s.to_multiset().insert(s.last()).remove(s[i]).count(v));
    }
    assert(d.to_multiset().insert(s[i]) =~= s.to_multiset());
}

/// A solution for the board after `step`, with the piece of `step` taken
/// out, gives a solution for the board before it.
proof fn lemma_solution_extended(
    board: Grid,
    pieces: Seq<Grid>,
    i: int,
    remaining: Seq<Grid>,
    step: Step,
    rest: Seq<Step>,
    all: Seq<Step>,
)
    requires
        0 <= i < pieces.len(),
        pieces[i].wf(),
        remaining == pieces.update(i, pieces.last()).drop_last(),
        step.r < 4,
        step.piece@ == rotated_n(pieces[i], step.r as nat),
        fits(board, step.x as int, step.y as int, step.piece@),
        steps_fit(placed(board, step.x as int, step.y as int, step.piece@), rest),
        uses_pieces(rest, remaining),
        all == rest.insert(0, step),
    ensures
        steps_fit(board, all),
        uses_pieces(all, pieces),
{
    broadcast use vstd::seq_lib::group_to_multiset_ensures;
    assert(all.drop_first() =~= rest);
    assert(all[0] == step);
    lemma_rotated_add(pieces[i], step.r as nat, (4 - step.r) as nat);
    lemma_rotate_four(pieces[i]);
    assert(unturned(step) == pieces[i]);
    let ms = all.map_values(|s: Step| unturned(s));
    let rs = rest.map_values(|s: Step| unturned(s));
    assert(ms.remove(0) =~= rs);
    assert(ms[0] == pieces[i]);
    assert(ms.to_multiset().count(pieces[i]) > 0) by {
        assert(ms.contains(pieces[i]));
    }
    assert(ms.to_multiset() =~= rs.to_multiset().insert(pieces[i]));
    lemma_swap_remove_multiset(pieces, i);
    assert forall|k: int| 0 <= k < all.len() implies #[trigger] all[k].r < 4 by {
        if k > 0 {
            assert(all[k] == rest[k - 1]);
        }
    }
}

/// The first empty cell in reading order (rows top to bottom, each left to
/// right), or `None` when the board is full.
fn first_open(board: &Shape) -> (r: Option<(usize, usize)>)
    ensures
        r == first_open_cell(board@),
        r is None ==> board@.is_full(),
        r matches Some(c) ==> board@.open_at(c.0 as int, c.1 as int) && forall|a: int, b: int|
            board@.in_bounds(a, b) && (b < c.1 || (b == c.1 && a < c.0)) ==> #[trigger] board@.at(a, b),
{
    let w = board.width();
    let h = board.height();
    let mut y: usize = 0;
    while y < h
        invariant
            w == board@.width,
            h == board@.height,
            y <= h,
            forall|a: int, b: int| board@.in_bounds(a, b) && b < y ==> #[trigger] board@.at(a, b),
        decreases h - y,
    {
        let mut x: usize = 0;
        while x < w
            invariant
                w == board@.width,
                h == board@.height,
                y < h,
                x <= w,
                forall|a: int, b: int|
                    board@.in_bounds(a, b) && (b < y || (b == y && a < x)) ==> #[trigger] board@.at(a, b),
            decreases w - x,
        {
            if !board.at(x, y) {
                proof {
                    assert(is_first_open(board@, (x, y)));
                    let d = choose|d: (usize, usize)| is_first_open(board@, d);
                    lemma_first_open_unique(board@, (x, y), d);
                }
                return Some((x, y));
            }
            x = x + 1;
        }
        y = y + 1;
    }
    proof {
        if exists|c: (usize, usize)| is_first_open(board@, c) {
            let c = choose|c: (usize, usize)| is_first_open(board@, c);
            assert(board@.at(c.0 as int, c.1 as int));
        }
    }
    None
}

/// Whether `tried` holds a shape equal to `piece`.
fn holds_shape(tried: &Vec<Shape>, piece: &Shape) -> (r: bool)
    ensures
        r == shape_views(tried@).contains(piece@),
{
    let mut k: usize = 0;
    while k < tried.len()
        invariant
            k <= tried@.len(),
            forall|j: int| 0 <= j < k ==> shape_views(tried@)[j] != piece@,
        decreases tried@.len() - k,
    {
        if tried[k] == *piece {
            assert(shape_views(tried@)[k as int] == piece@);
            return true;
        }
        k = k + 1;
    }
    false
}

/// Tiles the board with the pieces: every piece laid once, turned by some
/// number of quarter turns, inside the board and on empty cells only.
///
/// The search fills the first empty cell in reading order. It tries the
/// pieces in order, each in its distinct orientations (turned 0 to 3 times),
/// and for each the offsets of `Shape::fit_cells_to_orig`; a placement that
/// leaves a pocket (see `Shape::has_dead_zones`) is dropped, and otherwise
/// the search goes on with that piece taken out. When nothing fits the
/// first empty cell, this branch fails. The first solution found is returned.
pub fn solve(board: Shape, pieces: Vec<Shape>) -> (r: Option<Vec<Step>>)
    ensures
        match search(board@, shape_views(pieces@)) {
            Some(s) => r is Some && placements(r->0@) == s,
            None => r is None,
        },
        pieces@.len() == 0 ==> r is Some && r->0@.len() == 0,
        pieces@.len() > 0 && board@.is_full() ==> r is None,
        r matches Some(steps) ==> steps_fit(board@, steps@) && uses_pieces(
            steps@,
            shape_views(pieces@),
        ),
    decreases pieces@.len(),
{
    if pieces.len() == 0 {
        let steps: Vec<Step> = Vec::new();
        proof {
            assert(placements(steps@) =~= Seq::<Placement>::empty());
            assert(steps@.map_values(|s: Step| unturned(s)) =~= Seq::<Grid>::empty());
            assert(shape_views(pieces@) =~= Seq::<Grid>::empty());
        }
        return Some(steps);
    }
    let (x, y) = match first_open(&board) {
        Some(c) => c,
        None => return None,
    };
    let ghost old_board = board@;
    let ghost old_pieces = pieces@;
    let ghost pv = shape_views(pieces@);
    let ghost goal = search(board@, pv);
    let mut tried: Vec<Shape> = Vec::new();
    assert(shape_views(tried@) =~= Seq::<Grid>::empty());
    let mut i: usize = 0;
    while i < pieces.len()
        invariant
            board@ == old_board,
            pieces@ == old_pieces,
            pv == shape_views(pieces@),
            pieces@.len() > 0,
            board@.open_at(x as int, y as int),
            first_open_cell(board@) == Some((x, y)),
            goal == search(board@, pv),
            try_pieces(board@, pv, (x, y), i as int, shape_views(tried@)) == goal,
            i <= pieces@.len(),
        decreases pieces@.len() - i,
    {
        let mut piece = pieces[i].clone();
        let mut r: usize = 0;
        while r < 4
            invariant
                board@ == old_board,
                pieces@ == old_pieces,
                pv == shape_views(pieces@),
                pieces@.len() > 0,
                board@.open_at(x as int, y as int),
                first_open_cell(board@) == Some((x, y)),
                goal == search(board@, pv),
                try_turns(board@, pv, (x, y), i as int, r as int, piece@, shape_views(tried@))
                    == goal,
                i < pieces@.len(),
                pieces@[i as int]@.wf(),
                r <= 4,
                piece@ == rotated_n(pieces@[i as int]@, r as nat),
            decreases 4 - r,
        {
            if !holds_shape(&tried, &piece) {
                let ghost before = tried@;
                tried.push(piece.clone());
                assert(shape_views(tried@) =~= shape_views(before).push(piece@));
                let offsets = piece.fit_cells_to_orig();
                let mut k: usize = 0;
                while k < 2
                    invariant
                        board@ == old_board,
                        pieces@ == old_pieces,
                        pv == shape_views(pieces@),
                        pieces@.len() > 0,
                        board@.open_at(x as int, y as int),
                        first_open_cell(board@) == Some((x, y)),
                        goal == search(board@, pv),
                        offsets@ == anchors(piece@),
                        try_anchors(
                            board@,
                            pv,
                            (x, y),
                            i as int,
                            r as int,
                            piece@,
                            shape_views(tried@),
                            k as int,
                        ) == goal,
                        k <= 2,
                        i < pieces@.len(),
                        pieces@[i as int]@.wf(),
                        r < 4,
                        piece@ == rotated_n(pieces@[i as int]@, r as nat),
                    decreases 2 - k,
                {
                    if let Some((dx, dy)) = offsets[k] {
                        let ox = if x >= dx { x - dx } else { 0 };
                        let oy = if y >= dy { y - dy } else { 0 };
                        if board.can_put(ox, oy, &piece) {
                            let new = board.put(ox, oy, &piece);
                            if !new.has_dead_zones() {
                                let mut remaining = pieces.clone();
                                proof {
                                    assert(shape_views(remaining@) =~= shape_views(pieces@));
                                }
                                let ghost cloned = remaining@;
                                remaining.swap_remove(i);
                                proof {
                                    assert(shape_views(remaining@) =~= shape_views(pieces@).update(
                                        i as int,
                                        shape_views(pieces@).last(),
                                    ).drop_last());
                                }
                                if let Some(mut steps) = solve(new, remaining) {
                                    let ghost rest = steps@;
                                    let step = Step { x: ox, y: oy, piece: piece.clone(), r };
                                    steps.insert(0, step);
                                    proof {
                                        assert(placements(steps@) =~= seq![placement_of(step)]
                                            + placements(rest));
                                        lemma_solution_extended(
                                            board@,
                                            shape_views(pieces@),
                                            i as int,
                                            shape_views(remaining@),
                                            step,
                                            rest,
                                            steps@,
                                        );
                                    }
                                    return Some(steps);
                                }
                            }
                        }
                    }
                    k = k + 1;
                }
            }
            piece = piece.rot();
            r = r + 1;
        }
        i = i + 1;
    }
    None
}

} // verus!
