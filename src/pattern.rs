//! The text form of a shape: one line per row, `#` for a filled cell and `_`
//! for an empty one, with any blank characters between them.
//!
//! Blank lines before the first row and after the last are ignored; every
//! row must have the same number of cells, and no blank line may stand
//! between rows.
use vstd::prelude::*;
use crate::grid::Grid;

verus! {

/// The characters that Unicode calls white space.
pub open spec fn is_blank(c: char) -> bool {
    ||| '\t' <= c <= '\r'
    ||| c == ' '
    ||| c == '\u{85}'
    ||| c == '\u{A0}'
    ||| c == '\u{1680}'
    ||| '\u{2000}' <= c <= '\u{200A}'
    ||| c == '\u{2028}'
    ||| c == '\u{2029}'
    ||| c == '\u{202F}'
    ||| c == '\u{205F}'
    ||| c == '\u{3000}'
}

pub fn blank(c: char) -> (r: bool)
    ensures
        r == is_blank(c),
{
    ('\t' <= c && c <= '\r') || c == ' ' || c == '\u{85}' || c == '\u{A0}' || c == '\u{1680}' || (
    '\u{2000}' <= c && c <= '\u{200A}') || c == '\u{2028}' || c == '\u{2029}' || c == '\u{202F}'
        || c == '\u{205F}' || c == '\u{3000}'
}

/// How far a pattern has been read: the finished rows, the cells of the row
/// being read, whether a blank line has followed the rows, and whether the
/// text has already been found malformed.
pub struct Scan {
    pub done: Seq<Seq<bool>>,
    pub cur: Seq<bool>,
    pub gap: bool,
    pub bad: bool,
}

pub open spec fn scan_start() -> Scan {
    Scan { done: Seq::empty(), cur: Seq::empty(), gap: false, bad: false }
}

/// The end of a line (or of the text): the row read so far is finished.
pub open spec fn end_row(st: Scan) -> Scan {
    if st.bad {
        st
    } else if st.cur.len() == 0 {
        if st.done.len() > 0 {
            Scan { gap: true, ..st }
        } else {
            st
        }
    } else if st.done.len() > 0 && st.cur.len() != st.done[0].len() {
        Scan { bad: true, ..st }
    } else {
        Scan { done: st.done.push(st.cur), cur: Seq::empty(), ..st }
    }
}

/// One more character read.
pub open spec fn scan_char(st: Scan, c: char) -> Scan {
    if st.bad {
        st
    } else if c == '\n' {
        end_row(st)
    } else if is_blank(c) {
        st
    } else if c == '#' || c == '_' {
        if st.gap || (st.done.len() > 0 && st.cur.len() >= st.done[0].len()) {
            Scan { bad: true, ..st }
        } else {
            Scan { cur: st.cur.push(c == '#'), ..st }
        }
    } else {
        Scan { bad: true, ..st }
    }
}

/// The characters of `s` read in order, from `st`.
pub open spec fn scan(st: Scan, s: Seq<char>) -> Scan
    decreases s.len(),
{
    if s.len() == 0 {
        st
    } else {
        scan(scan_char(st, s[0]), s.drop_first())
    }
}

/// The grid that the text `s` describes, or `None` when it is malformed:
/// no cell at all, rows of different lengths, a blank line between rows, or
/// a character other than `#`, `_`, a blank or a line end.
pub open spec fn pattern_grid(s: Seq<char>) -> Option<Grid> {
    let st = end_row(scan(scan_start(), s));
    if st.bad || st.done.len() == 0 {
        None
    } else {
        Some(Grid { width: st.done[0].len(), height: st.done.len(), rows: st.done })
    }
}

/// Reading `a` then `b` is reading `a + b`.
pub proof fn lemma_scan_concat(st: Scan, a: Seq<char>, b: Seq<char>)
    ensures
        scan(st, a + b) == scan(scan(st, a), b),
    decreases a.len(),
{
    if a.len() == 0 {
        assert(a + b =~= b);
    } else {
        assert((a + b).drop_first() =~= a.drop_first() + b);
        lemma_scan_concat(scan_char(st, a[0]), a.drop_first(), b);
    }
}

pub proof fn lemma_scan_one(st: Scan, c: char)
    ensures
        scan(st, seq![c]) == scan_char(st, c),
{
    assert(seq![c].drop_first() =~= Seq::<char>::empty());
    assert(scan(scan_char(st, c), seq![c].drop_first()) == scan_char(st, c));
}

/// The text of one cell.
pub open spec fn cell_text(b: bool) -> Seq<char> {
    if b {
        seq!['#', ' ']
    } else {
        seq!['_', ' ']
    }
}

/// The text of a row, without its line end.
pub open spec fn row_text(r: Seq<bool>) -> Seq<char>
    decreases r.len(),
{
    if r.len() == 0 {
        Seq::empty()
    } else {
        row_text(r.drop_last()) + cell_text(r.last())
    }
}

/// The text of rows, each ended by a line end.
pub open spec fn rows_text(rows: Seq<Seq<bool>>) -> Seq<char>
    decreases rows.len(),
{
    if rows.len() == 0 {
        Seq::empty()
    } else {
        rows_text(rows.drop_last()) + row_text(rows.last()) + seq!['\n']
    }
}

/// The text of a grid.
pub open spec fn grid_text(g: Grid) -> Seq<char> {
    rows_text(g.rows)
}

/// Reading the text of a row adds its cells to the row being read.
proof fn lemma_scan_row(st: Scan, r: Seq<bool>)
    requires
        !st.bad,
        !st.gap,
        st.cur.len() == 0,
        st.done.len() > 0 ==> r.len() <= st.done[0].len(),
    ensures
        scan(st, row_text(r)) == (Scan { cur: r, ..st }),
    decreases r.len(),
{
    if r.len() == 0 {
        assert(st.cur =~= r);
        assert(row_text(r) =~= Seq::<char>::empty());
    } else {
        let p = r.drop_last();
        lemma_scan_row(st, p);
        let c = if r.last() { '#' } else { '_' };
        lemma_scan_concat(st, row_text(p), cell_text(r.last()));
        assert(cell_text(r.last()) =~= seq![c] + seq![' ']);
        lemma_scan_concat(Scan { cur: p, ..st }, seq![c], seq![' ']);
        lemma_scan_one(Scan { cur: p, ..st }, c);
        let mid = Scan { cur: p.push(c == '#'), ..st };
        assert(p.push(c == '#') =~= r);
        lemma_scan_one(mid, ' ');
    }
}

/// Reading the text of well-formed rows of one width yields those rows.
proof fn lemma_scan_rows(rows: Seq<Seq<bool>>, width: nat)
    requires
        forall|y: int| 0 <= y < rows.len() ==> #[trigger] rows[y].len() == width,
        width > 0,
    ensures
        scan(scan_start(), rows_text(rows)) == (Scan { done: rows, ..scan_start() }),
    decreases rows.len(),
{
    if rows.len() == 0 {
        assert(rows =~= Seq::<Seq<bool>>::empty());
    } else {
        let p = rows.drop_last();
        lemma_scan_rows(p, width);
        let st = Scan { done: p, ..scan_start() };
        lemma_scan_concat(scan_start(), rows_text(p) + row_text(rows.last()), seq!['\n']);
        lemma_scan_concat(scan_start(), rows_text(p), row_text(rows.last()));
        assert(rows[rows.len() - 1].len() == width);
        if p.len() > 0 {
            assert(p[0].len() == width);
        }
        lemma_scan_row(st, rows.last());
        lemma_scan_one(Scan { cur: rows.last(), ..st }, '\n');
        assert(p.push(rows.last()) =~= rows);
    }
}

/// Reading the text of a grid with at least one cell gives the grid back.
pub proof fn lemma_pattern_round_trip(g: Grid)
    requires
        g.wf(),
        g.width >= 1,
        g.height >= 1,
    ensures
        pattern_grid(grid_text(g)) == Some(g),
{
    lemma_scan_rows(g.rows, g.width);
    assert(g.rows[0].len() == g.width);
}

} // verus!

verus! {

/// Relies on `String::push`: the character is appended to the string.
#[verifier::external_body]
pub(crate) fn push_char(s: &mut String, c: char)
    ensures
        final(s)@ == old(s)@.push(c),
{
    s.push(c);
}

pub open spec fn rows_view(v: Seq<Vec<bool>>) -> Seq<Seq<bool>> {
    v.map_values(|r: Vec<bool>| r@)
}

/// A pattern being read, character by character.
pub(crate) struct Reader {
    done: Vec<Vec<bool>>,
    cur: Vec<bool>,
    gap: bool,
    bad: bool,
    /// The number of cells read so far.
    cells: usize,
}

impl Reader {
    pub(crate) closed spec fn state(&self) -> Scan {
        Scan { done: rows_view(self.done@), cur: self.cur@, gap: self.gap, bad: self.bad }
    }

    pub(crate) closed spec fn width(&self) -> nat {
        if self.done@.len() == 0 {
            0
        } else {
            self.done@[0]@.len()
        }
    }

    pub(crate) closed spec fn count(&self) -> nat {
        self.cells as nat
    }

    /// The finished rows all have one width, and the cells read are the
    /// cells of the finished rows and of the row being read.
    pub(crate) closed spec fn wf(&self) -> bool {
        &&& forall|y: int| 0 <= y < self.done@.len() ==> #[trigger] self.done@[y]@.len() == self.width()
        &&& self.cells == self.done@.len() * self.width() + self.cur@.len()
        &&& self.done@.len() > 0 ==> self.width() > 0
    }

    pub(crate) fn new() -> (r: Self)
        ensures
            r.wf(),
            r.state() == scan_start(),
            r.count() == 0,
    {
        let r = Reader { done: Vec::new(), cur: Vec::new(), gap: false, bad: false, cells: 0 };
        assert(r.state().done =~= scan_start().done);
        assert(r.state().cur =~= scan_start().cur);
        r
    }

    pub(crate) fn end_row(&mut self)
        requires
            old(self).wf(),
        ensures
            final(self).wf(),
            final(self).state() == end_row(old(self).state()),
            final(self).count() == old(self).count(),
    {
        if self.bad {
            return;
        }
        if self.cur.len() == 0 {
            if self.done.len() > 0 {
                self.gap = true;
            }
        } else if self.done.len() > 0 && self.cur.len() != self.done[0].len() {
            self.bad = true;
        } else {
            let ghost before = *self;
            let ghost w = self.cur@.len();
            let mut row: Vec<bool> = Vec::new();
            std::mem::swap(&mut row, &mut self.cur);
            self.done.push(row);
            proof {
                assert(rows_view(self.done@) =~= rows_view(before.done@).push(row@));
                assert(self.width() == w);
                assert(self.done@.len() * w == before.done@.len() * w + w) by (nonlinear_arith)
                    requires self.done@.len() == before.done@.len() + 1;
                assert(self.cur@ =~= Seq::<bool>::empty());
            }
        }
    }

    pub(crate) fn read_char(&mut self, c: char)
        requires
            old(self).wf(),
            old(self).count() < usize::MAX,
        ensures
            final(self).wf(),
            final(self).state() == scan_char(old(self).state(), c),
            final(self).count() <= old(self).count() + 1,
    {
        if self.bad {
            return;
        }
        if c == '\n' {
            self.end_row();
        } else if blank(c) {
        } else if c == '#' || c == '_' {
            if self.gap || (self.done.len() > 0 && self.cur.len() >= self.done[0].len()) {
                self.bad = true;
            } else {
                self.cur.push(c == '#');
                self.cells = self.cells + 1;
            }
        } else {
            self.bad = true;
        }
    }

    /// The rows read, once the text is over; `None` where it was malformed.
    pub(crate) fn finish(self) -> (r: Option<Vec<Vec<bool>>>)
        requires
            self.wf(),
        ensures
            match pattern_from(self.state()) {
                Some(g) => r is Some && rows_view(r->0@) == g.rows,
                None => r is None,
            },
            r is Some ==> forall|y: int| 0 <= y < r->0@.len() ==> #[trigger] r->0@[y]@.len() == r->0@[0]@.len(),
            r is Some ==> r->0@.len() * r->0@[0]@.len() <= self.count(),
            r is Some ==> r->0@.len() >= 1 && r->0@[0]@.len() >= 1,
    {
        let mut me = self;
        me.end_row();
        if me.bad || me.done.len() == 0 {
            None
        } else {
            Some(me.done)
        }
    }
}

/// The grid that a fully read text describes, or `None` when it is malformed.
pub open spec fn pattern_from(st: Scan) -> Option<Grid> {
    let e = end_row(st);
    if e.bad || e.done.len() == 0 {
        None
    } else {
        Some(Grid { width: e.done[0].len(), height: e.done.len(), rows: e.done })
    }
}

/// Reads the text `s` to its end.
pub(crate) fn read_pattern(s: &str) -> (r: Option<Vec<Vec<bool>>>)
    ensures
        match pattern_grid(s@) {
            Some(g) => r is Some && rows_view(r->0@) == g.rows,
            None => r is None,
        },
        r is Some ==> forall|y: int| 0 <= y < r->0@.len() ==> #[trigger] r->0@[y]@.len() == r->0@[0]@.len(),
        r is Some ==> r->0@.len() * r->0@[0]@.len() <= usize::MAX,
        r is Some ==> r->0@.len() >= 1 && r->0@[0]@.len() >= 1,
{
    let n = s.unicode_len();
    let mut reader = Reader::new();
    let mut i: usize = 0;
    while i < n
        invariant
            n == s@.len(),
            i <= n,
            reader.wf(),
            reader.state() == scan(scan_start(), s@.take(i as int)),
            reader.count() <= i,
        decreases n - i,
    {
        let c = s.get_char(i);
        proof {
            assert(s@.take(i + 1) =~= s@.take(i as int) + seq![c]);
            lemma_scan_concat(scan_start(), s@.take(i as int), seq![c]);
            lemma_scan_one(reader.state(), c);
        }
        reader.read_char(c);
        i = i + 1;
    }
    assert(s@.take(n as int) =~= s@);
    reader.finish()
}

} // verus!
