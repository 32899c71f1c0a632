//! Growing and trimming the board's void border.
//!
//! Growing inserts one void cell or row on every edge and shifts the roots
//! south-east; trimming removes the maximal void-only border rows and
//! columns, each edge measured independently on the original grid, and
//! clamps the roots by the trimmed amounts.

use vstd::prelude::*;

use crate::board::Board;
use crate::board::GridModel;
use crate::board::grid_is_rect;
use crate::board::grown_grid;
use crate::board::rows_view;
use crate::board::shifted_roots;
use crate::board::uniform_row;
use crate::geometry::Coordinate;
use crate::square::Square;

verus! {

impl Board {
    /// Adds a void ring: one new cell on each end of every row, plus a void
    /// row above and below, shifting every root by (+1, +1).
    pub fn grow(&mut self)
        requires
            old(self).grid().len() > 0,
            old(self).grid()[0].len() <= usize::MAX - 2,
            forall|k: int|
                0 <= k < old(self).roots@.len() ==> (#[trigger] old(self).roots@[k]).x
                    < usize::MAX && old(self).roots@[k].y < usize::MAX,
        ensures
            final(self).grid() == grown_grid(old(self).grid()),
            final(self).roots@ == shifted_roots(old(self).roots@),
            final(self).orientations == old(self).orientations,
    {
        let new_width = self.squares[0].len() + 2;
        let mut new_squares: Vec<Vec<Option<Square>>> = Vec::new();
        new_squares.push(crate::board::make_row(new_width, None));
        let mut i: usize = 0;
        while i < self.squares.len()
            invariant
                i <= self.squares@.len(),
                new_squares@.len() == i + 1,
                new_squares@[0]@ == uniform_row(new_width as int, None),
                new_width == self.grid()[0].len() + 2,
                forall|k: int|
                    0 <= k < i ==> #[trigger] new_squares@[k + 1]@ == seq![None::<Square>]
                        + self.grid()[k] + seq![None::<Square>],
            decreases self.squares@.len() - i,
        {
            let row = &self.squares[i];
            let mut nr: Vec<Option<Square>> = Vec::new();
            nr.push(None);
            let mut j: usize = 0;
            while j < row.len()
                invariant
                    j <= row@.len(),
                    nr@ =~= seq![None::<Square>] + row@.take(j as int),
                decreases row@.len() - j,
            {
                nr.push(row[j]);
                proof {
                    assert(nr@ =~= seq![None::<Square>] + row@.take(j + 1 as int));
                }
                j = j + 1;
            }
            nr.push(None);
            proof {
                assert(row@.take(row@.len() as int) =~= row@);
                assert(nr@ =~= seq![None::<Square>] + self.grid()[i as int] + seq![None::<Square>]);
            }
            new_squares.push(nr);
            i = i + 1;
        }
        new_squares.push(crate::board::make_row(new_width, None));
        proof {
            let g = old(self).grid();
            let gg = grown_grid(g);
            assert(gg.len() == g.len() + 2);
            assert forall|j: int| 0 <= j < gg.len() implies rows_view(new_squares@)[j] == gg[j] by {
                if j == 0 {
                    assert(gg[0] == uniform_row(g[0].len() as int + 2, None));
                } else if j <= g.len() {
                    assert(gg[j] == g.map_values(
                        |row: Seq<Option<Square>>| seq![None::<Square>] + row + seq![
                            None::<Square>,
                        ],
                    )[j - 1]);
                    assert(new_squares@[(j - 1) + 1]@ == seq![None::<Square>] + g[j - 1] + seq![
                        None::<Square>,
                    ]);
                } else {
                    assert(gg[j] == uniform_row(g[0].len() as int + 2, None));
                }
            }
            assert(rows_view(new_squares@) =~= grown_grid(g));
        }
        self.squares = new_squares;

        let mut new_roots: Vec<Coordinate> = Vec::new();
        let mut k: usize = 0;
        while k < self.roots.len()
            invariant
                k <= self.roots@.len(),
                self.roots@ == old(self).roots@,
                forall|m: int|
                    0 <= m < old(self).roots@.len() ==> (#[trigger] old(self).roots@[m]).x
                        < usize::MAX && old(self).roots@[m].y < usize::MAX,
                new_roots@ =~= shifted_roots(old(self).roots@).take(k as int),
            decreases self.roots@.len() - k,
        {
            let c = self.roots[k];
            new_roots.push(Coordinate { x: c.x + 1, y: c.y + 1 });
            proof {
                assert(new_roots@ =~= shifted_roots(old(self).roots@).take(k + 1 as int));
            }
            k = k + 1;
        }
        proof {
            assert(new_roots@ =~= shifted_roots(old(self).roots@));
        }
        self.roots = new_roots;
    }

    /// Removes the maximal void-only border rows and columns, each edge
    /// measured independently on the grid as it stands at entry, and clamps
    /// every root by the trimmed amounts (saturating at zero).
    pub fn trim(&mut self)
        requires
            old(self).is_rect(),
        ensures
            final(self).grid() == trimmed_grid(old(self).grid()),
            final(self).roots@ == trimmed_roots(
                old(self).roots@,
                trim_left(old(self).grid()),
                trim_top(old(self).grid()),
            ),
            final(self).orientations == old(self).orientations,
    {
        let ghost g = self.grid();
        let h = self.squares.len();
        let w = self.squares[0].len();

        // How many void rows lead the grid.
        let mut i: usize = 0;
        while i < h && !row_any(&self.squares[i])
            invariant
                i <= h,
                h == g.len(),
                *self == *old(self),
                g == self.grid(),
                first_content_row(g, 0) == first_content_row(g, i as int),
            decreases h - i,
        {
            proof {
                assert(first_content_row(g, i as int) == first_content_row(g, i + 1 as int));
            }
            i = i + 1;
        }
        let tt: usize = if i < h {
            i
        } else {
            0
        };
        proof {
            assert(tt == trim_top(g));
        }

        // How many void rows trail it.
        let mut i2: usize = h;
        while i2 > 0 && !row_any(&self.squares[i2 - 1])
            invariant
                i2 <= h,
                h == g.len(),
                *self == *old(self),
                g == self.grid(),
                void_rows_below(g, h as int) == void_rows_below(g, i2 as int),
            decreases i2,
        {
            proof {
                assert(void_rows_below(g, i2 as int) == void_rows_below(g, i2 - 1 as int));
            }
            i2 = i2 - 1;
        }
        let tb: usize = if i2 > 0 {
            h - i2
        } else {
            0
        };
        proof {
            assert(tb == trim_bottom(g));
        }

        // How many void columns lead and trail each row.
        let mut j: usize = 0;
        while j < w && !self.col_any(j)
            invariant
                j <= w,
                h == g.len(),
                w == g[0].len(),
                *self == *old(self),
                g == self.grid(),
                self.is_rect(),
                first_content_col(g, 0, w as int) == first_content_col(g, j as int, w as int),
            decreases w - j,
        {
            proof {
                assert(first_content_col(g, j as int, w as int) == first_content_col(
                    g,
                    j + 1 as int,
                    w as int,
                ));
            }
            j = j + 1;
        }
        let tl: usize = if j < w {
            j
        } else {
            0
        };
        proof {
            assert(tl == trim_left(g));
        }

        let mut j2: usize = w;
        while j2 > 0 && !self.col_any(j2 - 1)
            invariant
                j2 <= w,
                h == g.len(),
                w == g[0].len(),
                *self == *old(self),
                g == self.grid(),
                self.is_rect(),
                void_cols_right(g, w as int, w as int) == void_cols_right(g, j2 as int, w as int),
            decreases j2,
        {
            proof {
                assert(void_cols_right(g, j2 as int, w as int) == void_cols_right(
                    g,
                    j2 - 1 as int,
                    w as int,
                ));
            }
            j2 = j2 - 1;
        }
        let tr: usize = if j2 > 0 {
            w - j2
        } else {
            0
        };
        proof {
            assert(tr == trim_right(g));
            lemma_trim_amounts(g);
        }

        // Rebuild the grid without the trimmed border.
        let mut new_squares: Vec<Vec<Option<Square>>> = Vec::new();
        let mut r: usize = tt;
        while r < h - tb
            invariant
                tt <= r <= h - tb,
                tt == trim_top(g),
                tb == trim_bottom(g),
                tl == trim_left(g),
                tr == trim_right(g),
                tl + tr <= w,
                tt + tb <= h,
                h == g.len(),
                w == g[0].len(),
                grid_is_rect(g),
                *self == *old(self),
                g == self.grid(),
                rows_view(new_squares@) =~= Seq::new(
                    (r - tt) as nat,
                    |k: int| g[k + tt].subrange(tl as int, w - tr),
                ),
            decreases h - tb - r,
        {
            proof {
                assert(g[r as int].len() == g[0].len());
            }
            let row = &self.squares[r];
            let mut nr: Vec<Option<Square>> = Vec::new();
            let mut c: usize = tl;
            while c < w - tr
                invariant
                    tr <= w,
                    tl <= c <= w - tr,
                    w - tr <= row@.len(),
                    row@ == g[r as int],
                    r < g.len(),
                    nr@ =~= g[r as int].subrange(tl as int, c as int),
                decreases w - tr - c,
            {
                nr.push(row[c]);
                proof {
                    assert(nr@ =~= g[r as int].subrange(tl as int, c + 1 as int));
                }
                c = c + 1;
            }
            let ghost nrv = nr@;
            let ghost old_ns = new_squares@;
            new_squares.push(nr);
            proof {
                assert(nrv == g[r as int].subrange(tl as int, w - tr));
                let mapped = rows_view(new_squares@);
                assert(mapped.len() == new_squares@.len());
                assert(rows_view(old_ns).len() == old_ns.len());
                assert(old_ns.len() == r - tt);
                assert(new_squares@.len() == r + 1 - tt);
                assert(forall|k: int| 0 <= k < new_squares@.len() ==> mapped[k] == #[trigger] new_squares@[k]@);
                assert forall|k: int| 0 <= k < (r + 1 - tt) implies mapped[k] == g[k
                    + tt].subrange(tl as int, w - tr) by {
                    if k < r - tt {
                        assert(mapped[k] == new_squares@[k]@);
                        assert(new_squares@[k] == old_ns[k]);
                        assert(rows_view(old_ns)[k] == old_ns[k]@);
                        assert(rows_view(old_ns)[k] == g[k + tt].subrange(tl as int, w - tr));
                    } else {
                        assert(mapped[k] == nrv);
                        assert(k + tt == r as int);
                    }
                }
                assert(mapped =~= Seq::new(
                    (r + 1 - tt) as nat,
                    |k: int| g[k + tt].subrange(tl as int, w - tr),
                ));
            }
            r = r + 1;
        }
        self.squares = new_squares;
        proof {
            assert(self.grid() =~= trimmed_grid(g));
        }

        // Clamp the roots by the trimmed amounts.
        let mut new_roots: Vec<Coordinate> = Vec::new();
        let mut k: usize = 0;
        while k < self.roots.len()
            invariant
                k <= self.roots@.len(),
                self.roots@ == old(self).roots@,
                tl == trim_left(g),
                tt == trim_top(g),
                new_roots@ =~= trimmed_roots(old(self).roots@, tl as int, tt as int).take(k as int),
            decreases self.roots@.len() - k,
        {
            let c = self.roots[k];
            let nx = if c.x >= tl {
                c.x - tl
            } else {
                0
            };
            let ny = if c.y >= tt {
                c.y - tt
            } else {
                0
            };
            new_roots.push(Coordinate { x: nx, y: ny });
            proof {
                assert(new_roots@ =~= trimmed_roots(old(self).roots@, tl as int, tt as int).take(
                    k + 1 as int,
                ));
            }
            k = k + 1;
        }
        proof {
            assert(new_roots@ =~= trimmed_roots(old(self).roots@, tl as int, tt as int));
        }
        self.roots = new_roots;
    }

    /// Whether any row holds a non-void cell in column `j`.
    fn col_any(&self, j: usize) -> (r: bool)
        requires
            self.is_rect(),
            j < self.grid()[0].len(),
        ensures
            r == col_has_content(self.grid(), j as int),
    {
        let mut i: usize = 0;
        while i < self.squares.len()
            invariant
                i <= self.grid().len(),
                self.is_rect(),
                j < self.grid()[0].len(),
                forall|k: int| 0 <= k < i ==> !(#[trigger] self.grid()[k][j as int] is Some),
            decreases self.grid().len() - i,
        {
            proof {
                assert(self.grid()[i as int].len() == self.grid()[0].len());
            }
            if self.squares[i][j].is_some() {
                proof {
                    assert(self.grid()[i as int][j as int] is Some);
                }
                return true;
            }
            i = i + 1;
        }
        false
    }
}

/// Whether the row holds any non-void cell.
fn row_any(row: &Vec<Option<Square>>) -> (r: bool)
    ensures
        r == row_has_content(row@),
{
    let mut j: usize = 0;
    while j < row.len()
        invariant
            j <= row@.len(),
            forall|k: int| 0 <= k < j ==> !(#[trigger] row@[k] is Some),
        decreases row@.len() - j,
    {
        if row[j].is_some() {
            return true;
        }
        j = j + 1;
    }
    false
}

pub open spec fn row_has_content(row: Seq<Option<Square>>) -> bool {
    exists|j: int| 0 <= j < row.len() && row[j] is Some
}

pub open spec fn col_has_content(g: GridModel, j: int) -> bool {
    exists|i: int| 0 <= i < g.len() && 0 <= j < g[i].len() && g[i][j] is Some
}

/// The index of the first row at or after `i` that holds content, or zero
/// when no such row exists.
pub open spec fn first_content_row(g: GridModel, i: int) -> int
    decreases g.len() - i,
{
    if i >= g.len() {
        0
    } else if row_has_content(g[i]) {
        i
    } else {
        first_content_row(g, i + 1)
    }
}

/// The number of rows after the last content row strictly below row `i`,
/// or zero when no row up to `i` holds content.
pub open spec fn void_rows_below(g: GridModel, i: int) -> int
    decreases i,
{
    if i <= 0 {
        0
    } else if row_has_content(g[i - 1]) {
        g.len() - i
    } else {
        void_rows_below(g, i - 1)
    }
}

pub open spec fn first_content_col(g: GridModel, j: int, w: int) -> int
    decreases w - j,
{
    if j >= w {
        0
    } else if col_has_content(g, j) {
        j
    } else {
        first_content_col(g, j + 1, w)
    }
}

pub open spec fn void_cols_right(g: GridModel, j: int, w: int) -> int
    decreases j,
{
    if j <= 0 {
        0
    } else if col_has_content(g, j - 1) {
        w - j
    } else {
        void_cols_right(g, j - 1, w)
    }
}

pub open spec fn trim_top(g: GridModel) -> int {
    first_content_row(g, 0)
}

pub open spec fn trim_bottom(g: GridModel) -> int {
    void_rows_below(g, g.len() as int)
}

pub open spec fn trim_left(g: GridModel) -> int {
    first_content_col(g, 0, g[0].len() as int)
}

pub open spec fn trim_right(g: GridModel) -> int {
    void_cols_right(g, g[0].len() as int, g[0].len() as int)
}

pub open spec fn sat_sub(a: int, b: int) -> int {
    if a >= b {
        a - b
    } else {
        0
    }
}

/// The grid after trimming: the content rows, each cut down to the content
/// columns.
pub open spec fn trimmed_grid(g: GridModel) -> GridModel {
    Seq::new(
        (g.len() - trim_top(g) - trim_bottom(g)) as nat,
        |i: int| g[i + trim_top(g)].subrange(trim_left(g), g[0].len() - trim_right(g)),
    )
}

pub open spec fn trimmed_roots(rs: Seq<Coordinate>, tl: int, tt: int) -> Seq<Coordinate> {
    rs.map_values(
        |c: Coordinate| Coordinate { x: sat_sub(c.x as int, tl) as usize, y: sat_sub(c.y as int, tt) as usize },
    )
}

proof fn lemma_first_content_row_le(g: GridModel, i: int, i0: int)
    requires
        0 <= i <= i0 < g.len(),
        row_has_content(g[i0]),
    ensures
        i <= first_content_row(g, i) <= i0,
    decreases i0 - i,
{
    if !row_has_content(g[i]) {
        lemma_first_content_row_le(g, i + 1, i0);
    }
}

proof fn lemma_void_rows_below_le(g: GridModel, i: int, i0: int)
    requires
        0 <= i0 < i <= g.len(),
        row_has_content(g[i0]),
    ensures
        g.len() - i <= void_rows_below(g, i) <= g.len() - i0 - 1,
    decreases i,
{
    if !row_has_content(g[i - 1]) {
        lemma_void_rows_below_le(g, i - 1, i0);
    }
}

proof fn lemma_first_content_col_le(g: GridModel, j: int, j0: int, w: int)
    requires
        0 <= j <= j0 < w,
        col_has_content(g, j0),
    ensures
        j <= first_content_col(g, j, w) <= j0,
    decreases j0 - j,
{
    if !col_has_content(g, j) {
        lemma_first_content_col_le(g, j + 1, j0, w);
    }
}

proof fn lemma_void_cols_right_le(g: GridModel, j: int, j0: int, w: int)
    requires
        0 <= j0 < j <= w,
        col_has_content(g, j0),
    ensures
        w - j <= void_cols_right(g, j, w) <= w - j0 - 1,
    decreases j,
{
    if !col_has_content(g, j - 1) {
        lemma_void_cols_right_le(g, j - 1, j0, w);
    }
}

proof fn lemma_no_content_rows(g: GridModel, i: int)
    requires
        0 <= i <= g.len(),
        forall|k: int| 0 <= k < g.len() ==> !row_has_content(#[trigger] g[k]),
    ensures
        first_content_row(g, i) == 0,
    decreases g.len() - i,
{
    if i < g.len() {
        lemma_no_content_rows(g, i + 1);
    }
}

proof fn lemma_no_content_rows_down(g: GridModel, i: int)
    requires
        0 <= i <= g.len(),
        forall|k: int| 0 <= k < g.len() ==> !row_has_content(#[trigger] g[k]),
    ensures
        void_rows_below(g, i) == 0,
    decreases i,
{
    if i > 0 {
        lemma_no_content_rows_down(g, i - 1);
    }
}

proof fn lemma_no_content_cols(g: GridModel, j: int, w: int)
    requires
        0 <= j <= w,
        forall|k: int| 0 <= k < w ==> !col_has_content(g, k),
    ensures
        first_content_col(g, j, w) == 0,
    decreases w - j,
{
    if j < w {
        lemma_no_content_cols(g, j + 1, w);
    }
}

proof fn lemma_no_content_cols_down(g: GridModel, j: int, w: int)
    requires
        0 <= j <= w,
        forall|k: int| 0 <= k < w ==> !col_has_content(g, k),
    ensures
        void_cols_right(g, j, w) == 0,
    decreases j,
{
    if j > 0 {
        lemma_no_content_cols_down(g, j - 1, w);
    }
}

/// On a grown grid whose original border rows and columns each held
/// content, every trim amount is exactly the one added ring.
proof fn lemma_grown_trim_amounts(g: GridModel)
    requires
        grid_is_rect(g),
        row_has_content(g[0]),
        row_has_content(g[g.len() - 1]),
        col_has_content(g, 0),
        col_has_content(g, g[0].len() as int - 1),
    ensures
        trim_top(grown_grid(g)) == 1,
        trim_bottom(grown_grid(g)) == 1,
        trim_left(grown_grid(g)) == 1,
        trim_right(grown_grid(g)) == 1,
        grown_grid(g).len() == g.len() + 2,
        grown_grid(g)[0].len() == g[0].len() + 2,
{
    let gg = grown_grid(g);
    let h = g.len() as int;
    let w = g[0].len() as int;
    assert(gg.len() == h + 2);
    assert(gg[0] == uniform_row(w + 2, None));
    assert(gg[h + 1] == uniform_row(w + 2, None));
    assert forall|i: int| 1 <= i <= h implies gg[i] == seq![None::<Square>] + g[i - 1] + seq![
        None::<Square>,
    ] by {
        assert(gg[i] == g.map_values(
            |row: Seq<Option<Square>>| seq![None::<Square>] + row + seq![None::<Square>],
        )[i - 1]);
    }
    assert forall|i: int| 1 <= i <= h implies gg[i].len() == w + 2 by {
        assert(g[i - 1].len() == w);
    }

    // Rows: the new top and bottom rows are void, the rows beside them are not.
    assert(!row_has_content(gg[0])) by {
        assert(forall|j: int| 0 <= j < w + 2 ==> !(#[trigger] gg[0][j] is Some));
    }
    assert(!row_has_content(gg[h + 1])) by {
        assert(forall|j: int| 0 <= j < w + 2 ==> !(#[trigger] gg[h + 1][j] is Some));
    }
    let j0 = choose|j: int| 0 <= j < g[0].len() && #[trigger] g[0][j] is Some;
    assert(gg[1][j0 + 1] == g[0][j0]);
    assert(row_has_content(gg[1]));
    let jh = choose|j: int| 0 <= j < g[h - 1].len() && #[trigger] g[h - 1][j] is Some;
    assert(gg[h][jh + 1] == g[h - 1][jh]);
    assert(row_has_content(gg[h]));
    assert(first_content_row(gg, 0) == first_content_row(gg, 1));
    assert(first_content_row(gg, 1) == 1);
    assert(void_rows_below(gg, h + 2) == void_rows_below(gg, h + 1));
    assert(void_rows_below(gg, h + 1) == (h + 2) - (h + 1));

    // Columns: the new outermost columns are void, the ones beside them not.
    assert(!col_has_content(gg, 0)) by {
        assert forall|i: int| 0 <= i < gg.len() implies !(#[trigger] gg[i][0] is Some) by {
            if 1 <= i <= h {
                assert(gg[i][0] == (seq![None::<Square>] + g[i - 1] + seq![None::<Square>])[0]);
            }
        }
    }
    assert(!col_has_content(gg, w + 1)) by {
        assert forall|i: int| 0 <= i < gg.len() implies !(#[trigger] gg[i][w + 1] is Some) by {
            if 1 <= i <= h {
                assert(g[i - 1].len() == w);
                assert(gg[i][w + 1] == (seq![None::<Square>] + g[i - 1] + seq![
                    None::<Square>,
                ])[w + 1]);
            }
        }
    }
    let i0 = choose|i: int| 0 <= i < g.len() && 0 <= 0 < g[i].len() && #[trigger] g[i][0] is Some;
    assert(gg[i0 + 1][1] == g[i0][0]);
    assert(col_has_content(gg, 1));
    let iw = choose|i: int|
        0 <= i < g.len() && 0 <= w - 1 < g[i].len() && #[trigger] g[i][w - 1] is Some;
    assert(gg[iw + 1][w] == g[iw][w - 1]);
    assert(col_has_content(gg, w));
    assert(gg[0].len() == w + 2);
    assert(first_content_col(gg, 0, w + 2) == first_content_col(gg, 1, w + 2));
    assert(first_content_col(gg, 1, w + 2) == 1);
    assert(void_cols_right(gg, w + 2, w + 2) == void_cols_right(gg, w + 1, w + 2));
    assert(void_cols_right(gg, w + 1, w + 2) == (w + 2) - (w + 1));
}

/// Law: trimming a freshly grown board restores it, provided the original
/// board is rectangular and each of its border rows and columns holds at
/// least one non-void cell: trimming removes exactly the ring growing added
/// and shifts every root back to where it was.
pub proof fn lemma_trim_undoes_grow(before: Board, grown: Board, after: Board)
    requires
        before.is_rect(),
        row_has_content(before.grid()[0]),
        row_has_content(before.grid()[before.grid().len() - 1]),
        col_has_content(before.grid(), 0),
        col_has_content(before.grid(), before.grid()[0].len() as int - 1),
        forall|k: int|
            0 <= k < before.roots@.len() ==> (#[trigger] before.roots@[k]).x < usize::MAX
                && before.roots@[k].y < usize::MAX,
        grown.grid() == grown_grid(before.grid()),
        grown.roots@ == shifted_roots(before.roots@),
        after.grid() == trimmed_grid(grown.grid()),
        after.roots@ == trimmed_roots(
            grown.roots@,
            trim_left(grown.grid()),
            trim_top(grown.grid()),
        ),
    ensures
        after.grid() == before.grid(),
        after.roots@ == before.roots@,
{
    let g = before.grid();
    let gg = grown.grid();
    let h = g.len() as int;
    let w = g[0].len() as int;
    lemma_grown_trim_amounts(g);
    assert forall|i: int| 1 <= i <= h implies gg[i] == seq![None::<Square>] + g[i - 1] + seq![
        None::<Square>,
    ] by {
        assert(gg[i] == g.map_values(
            |row: Seq<Option<Square>>| seq![None::<Square>] + row + seq![None::<Square>],
        )[i - 1]);
    }
    assert forall|i: int| 0 <= i < h implies trimmed_grid(gg)[i] == g[i] by {
        assert(gg[i + 1] == seq![None::<Square>] + g[i] + seq![None::<Square>]);
        assert(g[i].len() == w);
        assert(gg[i + 1].subrange(1, (w + 2) - 1) =~= g[i]);
    }
    assert(after.grid() =~= g);
    assert forall|k: int| 0 <= k < before.roots@.len() implies after.roots@[k]
        == before.roots@[k] by {
        assert(grown.roots@[k] == (Coordinate {
            x: (before.roots@[k].x + 1) as usize,
            y: (before.roots@[k].y + 1) as usize,
        }));
        assert(after.roots@[k] == (Coordinate {
            x: sat_sub(grown.roots@[k].x as int, 1) as usize,
            y: sat_sub(grown.roots@[k].y as int, 1) as usize,
        }));
    }
    assert(after.roots@ =~= before.roots@);
}

/// The four trim amounts are non-negative and never overlap: together they
/// remove at most the whole grid.
pub proof fn lemma_trim_amounts(g: GridModel)
    requires
        grid_is_rect(g),
    ensures
        0 <= trim_top(g),
        0 <= trim_bottom(g),
        trim_top(g) + trim_bottom(g) <= g.len(),
        0 <= trim_left(g),
        0 <= trim_right(g),
        trim_left(g) + trim_right(g) <= g[0].len(),
{
    let h = g.len() as int;
    let w = g[0].len() as int;
    if exists|k: int| 0 <= k < h && row_has_content(#[trigger] g[k]) {
        let i0 = choose|k: int| 0 <= k < h && row_has_content(#[trigger] g[k]);
        lemma_first_content_row_le(g, 0, i0);
        lemma_void_rows_below_le(g, h, i0);
    } else {
        lemma_no_content_rows(g, 0);
        lemma_no_content_rows_down(g, h);
    }
    if exists|k: int| 0 <= k < w && col_has_content(g, k) {
        let j0 = choose|k: int| 0 <= k < w && col_has_content(g, k);
        lemma_first_content_col_le(g, 0, j0, w);
        lemma_void_cols_right_le(g, w, j0, w);
    } else {
        lemma_no_content_cols(g, 0, w);
        lemma_no_content_cols_down(g, w, w);
    }
}

} // verus!
