//! Connectivity: contiguous single-player groups, flood fill, and
//! truncation of territory disconnected from every root.
//!
//! A group is described by paths: a path is a sequence of coordinates in
//! which each step moves to an orthogonal neighbour occupied by the same
//! player. `reaches` — membership of a coordinate in the group of another —
//! is the specification the flood fill is proved against.

use vstd::prelude::*;

use crate::board::Board;
use crate::board::GridModel;
use crate::board::grid_get;
use crate::geometry::Coordinate;
use crate::geometry::Direction;
use crate::square::Square;

verus! {

/// The player occupying a coordinate, if any.
pub open spec fn owner_of(g: GridModel, c: Coordinate) -> Option<usize> {
    match grid_get(g, c) {
        Ok(Square::Occupied(p, _)) => Some(p),
        _ => None::<usize>,
    }
}

/// Two coordinates are neighbours when one is an orthogonal step of the
/// other; steps off the west or north edge clamp in place, so a border
/// cell counts among its own neighbours.
pub open spec fn adjacent(a: Coordinate, b: Coordinate) -> bool {
    a.spec_neighbors_4().contains(b)
}

/// One flood-fill step: from an occupied cell to an adjacent cell occupied
/// by the same player.
pub open spec fn same_owner_step(g: GridModel, a: Coordinate, b: Coordinate) -> bool {
    owner_of(g, a) is Some && owner_of(g, b) == owner_of(g, a) && adjacent(a, b)
}

pub open spec fn is_path(g: GridModel, p: Seq<Coordinate>) -> bool {
    forall|i: int| 0 <= i < p.len() - 1 ==> #[trigger] same_owner_step(g, p[i], p[i + 1])
}

/// A grid whose dimensions fit the machine: every view of a real board's
/// vector-backed grid satisfies this.
pub open spec fn grid_bounded(g: GridModel) -> bool {
    g.len() <= usize::MAX && (forall|i: int|
        0 <= i < g.len() ==> (#[trigger] g[i]).len() <= usize::MAX)
}

/// `b` belongs to the contiguous same-player group containing `a`.
pub open spec fn reaches(g: GridModel, a: Coordinate, b: Coordinate) -> bool {
    owner_of(g, a) is Some && exists|p: Seq<Coordinate>|
        p.len() > 0 && p.first() == a && p.last() == b && is_path(g, p)
}

pub proof fn lemma_reaches_refl(g: GridModel, a: Coordinate)
    requires
        owner_of(g, a) is Some,
    ensures
        reaches(g, a, a),
{
    let p = seq![a];
    assert(p.len() > 0 && p.first() == a && p.last() == a && is_path(g, p));
}

/// Every coordinate on a path has the owner of the path's start.
proof fn lemma_path_owner(g: GridModel, p: Seq<Coordinate>, i: int)
    requires
        is_path(g, p),
        0 <= i < p.len(),
    ensures
        i > 0 ==> owner_of(g, p[i]) == owner_of(g, p[0]),
    decreases i,
{
    if i > 0 {
        lemma_path_owner(g, p, i - 1);
        assert(same_owner_step(g, p[i - 1], p[(i - 1) + 1]));
    }
}

/// Whoever is reached lies in the same player's territory as the start.
pub proof fn lemma_reaches_owner(g: GridModel, a: Coordinate, b: Coordinate)
    requires
        reaches(g, a, b),
    ensures
        owner_of(g, b) == owner_of(g, a),
        owner_of(g, b) is Some,
{
    let p = choose|p: Seq<Coordinate>|
        p.len() > 0 && p.first() == a && p.last() == b && is_path(g, p);
    lemma_path_owner(g, p, p.len() - 1);
}

proof fn lemma_adjacent_sym(a: Coordinate, b: Coordinate)
    requires
        adjacent(a, b),
        a.x < usize::MAX,
        a.y < usize::MAX,
    ensures
        adjacent(b, a),
{
    let ns = a.spec_neighbors_4();
    let i = choose|i: int| 0 <= i < ns.len() && ns[i] == b;
    assert(i == 0 || i == 1 || i == 2 || i == 3);
    if i == 0 {
        // b is the step north of a.
        if a.y == 0 {
            assert(b == a);
            assert(b.spec_neighbors_4()[0] == a);
        } else {
            assert(b.spec_neighbors_4()[2] == a);
        }
    } else if i == 1 {
        assert(b.spec_neighbors_4()[3] == a);
    } else if i == 2 {
        assert(b.spec_neighbors_4()[0] == a);
    } else {
        if a.x == 0 {
            assert(b == a);
            assert(b.spec_neighbors_4()[3] == a);
        } else {
            assert(b.spec_neighbors_4()[1] == a);
        }
    }
}

proof fn lemma_step_sym(g: GridModel, a: Coordinate, b: Coordinate)
    requires
        same_owner_step(g, a, b),
        grid_bounded(g),
    ensures
        same_owner_step(g, b, a),
{
    assert(a.y < g.len() && a.x < g[a.y as int].len());
    assert(g[a.y as int].len() <= usize::MAX);
    lemma_adjacent_sym(a, b);
}

proof fn lemma_path_reverse(g: GridModel, p: Seq<Coordinate>)
    requires
        is_path(g, p),
        grid_bounded(g),
    ensures
        is_path(g, p.reverse()),
{
    let q = p.reverse();
    assert forall|i: int| 0 <= i < q.len() - 1 implies #[trigger] same_owner_step(g, q[i], q[i + 1]) by {
        let n = p.len() as int;
        assert(q[i] == p[n - 1 - i]);
        assert(q[i + 1] == p[n - 2 - i]);
        assert(same_owner_step(g, p[n - 2 - i], p[(n - 2 - i) + 1]));
        lemma_step_sym(g, p[n - 2 - i], p[n - 1 - i]);
    }
}

/// Group membership is symmetric.
pub proof fn lemma_reaches_sym(g: GridModel, a: Coordinate, b: Coordinate)
    requires
        reaches(g, a, b),
        grid_bounded(g),
    ensures
        reaches(g, b, a),
{
    lemma_reaches_owner(g, a, b);
    let p = choose|p: Seq<Coordinate>|
        p.len() > 0 && p.first() == a && p.last() == b && is_path(g, p);
    lemma_path_reverse(g, p);
    let q = p.reverse();
    assert(q.len() > 0 && q.first() == b && q.last() == a && is_path(g, q));
}

/// Group membership is transitive.
pub proof fn lemma_reaches_trans(g: GridModel, a: Coordinate, b: Coordinate, c: Coordinate)
    requires
        reaches(g, a, b),
        reaches(g, b, c),
    ensures
        reaches(g, a, c),
{
    let p1 = choose|p: Seq<Coordinate>|
        p.len() > 0 && p.first() == a && p.last() == b && is_path(g, p);
    let p2 = choose|p: Seq<Coordinate>|
        p.len() > 0 && p.first() == b && p.last() == c && is_path(g, p);
    let q = p1 + p2.subrange(1, p2.len() as int);
    assert(q.len() > 0);
    assert(q.first() == a);
    if p2.len() == 1 {
        assert(q =~= p1);
        assert(q.last() == c);
    } else {
        assert(q.last() == p2[p2.len() - 1]);
    }
    assert forall|i: int| 0 <= i < q.len() - 1 implies #[trigger] same_owner_step(g, q[i], q[i + 1]) by {
        let n1 = p1.len() as int;
        if i < n1 - 1 {
            assert(q[i] == p1[i]);
            assert(q[i + 1] == p1[i + 1]);
            assert(same_owner_step(g, p1[i], p1[i + 1]));
        } else if i == n1 - 1 {
            assert(q[i] == p1[n1 - 1]);
            assert(q[i + 1] == p2[1]);
            assert(same_owner_step(g, p2[0], p2[0int + 1]));
        } else {
            assert(q[i] == p2[i - n1 + 1]);
            assert(q[i + 1] == p2[i - n1 + 2]);
            assert(same_owner_step(g, p2[i - n1 + 1], p2[(i - n1 + 1) + 1]));
        }
    }
}

/// Law: within one player's contiguous group, flood fill is symmetric and
/// transitive — any two mutually reachable coordinates determine the same
/// group, so searching from either visits exactly the same set.
pub proof fn lemma_groups_of_connected_cells_equal(g: GridModel, a: Coordinate, b: Coordinate)
    requires
        reaches(g, a, b),
        grid_bounded(g),
    ensures
        forall|c: Coordinate| reaches(g, a, c) <==> reaches(g, b, c),
{
    assert forall|c: Coordinate| reaches(g, a, c) <==> reaches(g, b, c) by {
        if reaches(g, a, c) {
            lemma_reaches_sym(g, a, b);
            lemma_reaches_trans(g, b, a, c);
        }
        if reaches(g, b, c) {
            lemma_reaches_trans(g, a, b, c);
        }
    }
}

/// Group membership depends only on who occupies each cell: two grids with
/// the same owner at every coordinate have the same groups.
pub proof fn lemma_reaches_same_owners(g1: GridModel, g2: GridModel)
    requires
        forall|c: Coordinate| owner_of(g1, c) == owner_of(g2, c),
    ensures
        forall|a: Coordinate, b: Coordinate| reaches(g1, a, b) == reaches(g2, a, b),
{
    assert forall|a: Coordinate, b: Coordinate| reaches(g1, a, b) == reaches(g2, a, b) by {
        if reaches(g1, a, b) {
            let p = choose|p: Seq<Coordinate>|
                p.len() > 0 && p.first() == a && p.last() == b && is_path(g1, p);
            assert forall|i: int| 0 <= i < p.len() - 1 implies #[trigger] same_owner_step(g2, p[i], p[i + 1]) by {
                assert(same_owner_step(g1, p[i], p[i + 1]));
            }
            assert(is_path(g2, p));
            assert(reaches(g2, a, b));
        }
        if reaches(g2, a, b) {
            let p = choose|p: Seq<Coordinate>|
                p.len() > 0 && p.first() == a && p.last() == b && is_path(g2, p);
            assert forall|i: int| 0 <= i < p.len() - 1 implies #[trigger] same_owner_step(g1, p[i], p[i + 1]) by {
                assert(same_owner_step(g2, p[i], p[i + 1]));
            }
            assert(is_path(g1, p));
            assert(reaches(g1, a, b));
        }
    }
}

/// One more step out of a reachable cell stays reachable.
proof fn lemma_reaches_step(g: GridModel, a: Coordinate, b: Coordinate, d: Coordinate)
    requires
        reaches(g, a, b),
        same_owner_step(g, b, d),
    ensures
        reaches(g, a, d),
{
    let p = choose|p: Seq<Coordinate>|
        p.len() > 0 && p.first() == a && p.last() == b && is_path(g, p);
    let q = p.push(d);
    assert forall|i: int| 0 <= i < q.len() - 1 implies #[trigger] same_owner_step(g, q[i], q[i + 1]) by {
        if i < p.len() - 1 {
            assert(same_owner_step(g, p[i], p[i + 1]));
        } else {
            assert(q[i] == b && q[i + 1] == d);
        }
    }
    assert(q.len() > 0 && q.first() == a && q.last() == d && is_path(g, q));
}

/// Every coordinate reachable from a member of a step-closed set lies in
/// the set.
proof fn lemma_closed_set_catches_path(
    g: GridModel,
    p: Seq<Coordinate>,
    vs: Seq<Coordinate>,
)
    requires
        is_path(g, p),
        p.len() > 0,
        vs.contains(p.first()),
        forall|x: Coordinate, y: Coordinate|
            vs.contains(x) && same_owner_step(g, x, y) ==> vs.contains(y),
    ensures
        vs.contains(p.last()),
    decreases p.len(),
{
    if p.len() > 1 {
        assert(same_owner_step(g, p[0], p[0int + 1]));
        let q = p.subrange(1, p.len() as int);
        assert forall|i: int| 0 <= i < q.len() - 1 implies #[trigger] same_owner_step(g, q[i], q[i + 1]) by {
            assert(same_owner_step(g, p[i + 1], p[(i + 1) + 1]));
        }
        assert(vs.contains(q.first()));
        lemma_closed_set_catches_path(g, q, vs);
        assert(q.last() == p.last());
    }
}

/// Every entry the neighbour listing yields is a readable orthogonal
/// neighbour, distinct from the centre, paired with its own square.
pub(crate) proof fn lemma_neighbour_entries_facts(g: GridModel, c: Coordinate)
    ensures
        forall|m: int|
            0 <= m < spec_neighbouring_squares(g, c).len() ==> {
                let e = #[trigger] spec_neighbouring_squares(g, c)[m];
                adjacent(c, e.0) && e.0 != c && grid_get(g, e.0) == Ok::<Square, GamePlayError>(
                    e.1,
                )
            },
{
    let e0 = crate::board::step_entry(g, c, Direction::South);
    let e1 = crate::board::step_entry(g, c, Direction::East);
    let e2 = crate::board::step_entry(g, c, Direction::North);
    let e3 = crate::board::step_entry(g, c, Direction::West);
    let all = spec_neighbouring_squares(g, c);
    assert(all == e0 + e1 + e2 + e3);
    assert(c.spec_neighbors_4()[2] == c.spec_add(Direction::South));
    assert(c.spec_neighbors_4()[1] == c.spec_add(Direction::East));
    assert(c.spec_neighbors_4()[0] == c.spec_add(Direction::North));
    assert(c.spec_neighbors_4()[3] == c.spec_add(Direction::West));
    assert forall|m: int|
        0 <= m < all.len() implies {
            let e = #[trigger] all[m];
            adjacent(c, e.0) && e.0 != c && grid_get(g, e.0) == Ok::<Square, GamePlayError>(e.1)
        } by {
        let n0 = e0.len() as int;
        let n1 = e1.len() as int;
        let n2 = e2.len() as int;
        if m < n0 {
            assert(all[m] == e0[m]);
        } else if m < n0 + n1 {
            assert(all[m] == e1[m - n0]);
        } else if m < n0 + n1 + n2 {
            assert(all[m] == e2[m - n0 - n1]);
        } else {
            assert(all[m] == e3[m - n0 - n1 - n2]);
        }
    }
}

/// Every readable orthogonal neighbour other than the centre itself
/// appears in the neighbour listing.
pub(crate) proof fn lemma_neighbour_entry_index(g: GridModel, c: Coordinate, n: Coordinate)
    requires
        adjacent(c, n),
        n != c,
        grid_get(g, n) is Ok,
    ensures
        spec_neighbouring_squares(g, c).contains((n, crate::board::square_at(g, n))),
{
    let ns = c.spec_neighbors_4();
    let e0 = crate::board::step_entry(g, c, Direction::South);
    let e1 = crate::board::step_entry(g, c, Direction::East);
    let e2 = crate::board::step_entry(g, c, Direction::North);
    let e3 = crate::board::step_entry(g, c, Direction::West);
    let all = spec_neighbouring_squares(g, c);
    assert(all == e0 + e1 + e2 + e3);
    let entry = (n, crate::board::square_at(g, n));
    let i = choose|i: int| 0 <= i < ns.len() && ns[i] == n;
    assert(i == 0 || i == 1 || i == 2 || i == 3);
    let n0 = e0.len() as int;
    let n1 = e1.len() as int;
    let n2 = e2.len() as int;
    if i == 2 {
        assert(n == c.spec_add(Direction::South));
        assert(e0 == seq![entry]);
        assert(all[0] == entry);
    } else if i == 1 {
        assert(n == c.spec_add(Direction::East));
        assert(e1 == seq![entry]);
        assert(all[n0] == entry);
    } else if i == 0 {
        assert(n == c.spec_add(Direction::North));
        assert(e2 == seq![entry]);
        assert(all[n0 + n1] == entry);
    } else {
        assert(n == c.spec_add(Direction::West));
        assert(e3 == seq![entry]);
        assert(all[n0 + n1 + n2] == entry);
    }
}

/// The view of a boolean mask: rows of marks.
pub open spec fn bool_rows_view(rows: Seq<Vec<bool>>) -> Seq<Seq<bool>> {
    rows.map_values(|row: Vec<bool>| row@)
}

/// The mask has exactly the grid's shape.
pub open spec fn mask_fits(m: Seq<Seq<bool>>, g: GridModel) -> bool {
    m.len() == g.len() && (forall|i: int| 0 <= i < m.len() ==> (#[trigger] m[i]).len() == g[i].len())
}

pub open spec fn marked(m: Seq<Seq<bool>>, c: Coordinate) -> bool {
    c.y < m.len() && c.x < m[c.y as int].len() && m[c.y as int][c.x as int]
}

spec fn row_true_count(row: Seq<bool>) -> int
    decreases row.len(),
{
    if row.len() == 0 {
        0
    } else {
        row_true_count(row.drop_last()) + if row.last() {
            1int
        } else {
            0int
        }
    }
}

spec fn mask_true_count(m: Seq<Seq<bool>>) -> int
    decreases m.len(),
{
    if m.len() == 0 {
        0
    } else {
        mask_true_count(m.drop_last()) + row_true_count(m.last())
    }
}

spec fn grid_cell_count(g: GridModel) -> int
    decreases g.len(),
{
    if g.len() == 0 {
        0
    } else {
        grid_cell_count(g.drop_last()) + g.last().len()
    }
}

proof fn lemma_row_true_count_le(row: Seq<bool>)
    ensures
        0 <= row_true_count(row) <= row.len(),
    decreases row.len(),
{
    if row.len() > 0 {
        lemma_row_true_count_le(row.drop_last());
    }
}

proof fn lemma_mask_true_count_le(m: Seq<Seq<bool>>, g: GridModel)
    requires
        mask_fits(m, g),
    ensures
        0 <= mask_true_count(m) <= grid_cell_count(g),
    decreases m.len(),
{
    if m.len() > 0 {
        assert(mask_fits(m.drop_last(), g.drop_last()));
        lemma_mask_true_count_le(m.drop_last(), g.drop_last());
        lemma_row_true_count_le(m.last());
        assert(m.last().len() == g.last().len());
    }
}

proof fn lemma_row_true_count_all_false(row: Seq<bool>)
    requires
        forall|j: int| 0 <= j < row.len() ==> !row[j],
    ensures
        row_true_count(row) == 0,
    decreases row.len(),
{
    if row.len() > 0 {
        lemma_row_true_count_all_false(row.drop_last());
    }
}

proof fn lemma_mask_true_count_all_false(m: Seq<Seq<bool>>)
    requires
        forall|i: int, j: int| 0 <= i < m.len() && 0 <= j < m[i].len() ==> !(#[trigger] m[i][j]),
    ensures
        mask_true_count(m) == 0,
    decreases m.len(),
{
    if m.len() > 0 {
        lemma_mask_true_count_all_false(m.drop_last());
        lemma_row_true_count_all_false(m.last());
    }
}

proof fn lemma_row_true_count_update(row: Seq<bool>, j: int)
    requires
        0 <= j < row.len(),
        !row[j],
    ensures
        row_true_count(row.update(j, true)) == row_true_count(row) + 1,
    decreases row.len(),
{
    let r2 = row.update(j, true);
    if j == row.len() - 1 {
        assert(r2.drop_last() =~= row.drop_last());
    } else {
        assert(r2.drop_last() =~= row.drop_last().update(j, true));
        lemma_row_true_count_update(row.drop_last(), j);
        assert(r2.last() == row.last());
    }
}

proof fn lemma_mask_true_count_update(m: Seq<Seq<bool>>, i: int, j: int)
    requires
        0 <= i < m.len(),
        0 <= j < m[i].len(),
        !m[i][j],
    ensures
        mask_true_count(m.update(i, m[i].update(j, true))) == mask_true_count(m) + 1,
    decreases m.len(),
{
    let m2 = m.update(i, m[i].update(j, true));
    if i == m.len() - 1 {
        assert(m2.drop_last() =~= m.drop_last());
        assert(m2.last() == m[i].update(j, true));
        lemma_row_true_count_update(m[i], j);
    } else {
        assert(m2.drop_last() =~= m.drop_last().update(i, m.drop_last()[i].update(j, true)));
        lemma_mask_true_count_update(m.drop_last(), i, j);
        assert(m2.last() == m.last());
    }
}

/// Builds a row of `w` unmarked cells.
pub(crate) fn make_bool_row(w: usize) -> (r: Vec<bool>)
    ensures
        r@.len() == w,
        forall|j: int| 0 <= j < w ==> !r@[j],
{
    let mut r: Vec<bool> = Vec::new();
    let mut i: usize = 0;
    while i < w
        invariant
            i <= w,
            r@.len() == i,
            forall|j: int| 0 <= j < i ==> !r@[j],
        decreases w - i,
    {
        r.push(false);
        i = i + 1;
    }
    r
}

use crate::board::spec_neighbouring_squares;
use crate::board::readable_entry;
use crate::error::GamePlayError;

impl Board {
    /// The contiguous same-player group containing `position`: all cells
    /// transitively connected to it through orthogonal neighbours occupied
    /// by the same player, `position` included when itself occupied, and
    /// nothing at all otherwise. The result lists each member once.
    pub fn depth_first_search(&self, position: Coordinate) -> (r: Vec<Coordinate>)
        ensures
            r@.no_duplicates(),
            forall|c: Coordinate| r@.contains(c) <==> reaches(self.grid(), position, c),
    {
        let ghost g = self.grid();
        let owner: usize;
        match self.get(position) {
            Ok(Square::Occupied(p, _)) => {
                owner = p;
            },
            _ => {
                let r: Vec<Coordinate> = Vec::new();
                proof {
                    assert(!(owner_of(g, position) is Some));
                }
                return r;
            },
        }
        proof {
            assert(owner_of(g, position) == Some(owner));
        }

        let mut mask: Vec<Vec<bool>> = Vec::new();
        let mut mi: usize = 0;
        while mi < self.squares.len()
            invariant
                mi <= self.grid().len(),
                g == self.grid(),
                bool_rows_view(mask@).len() == mi,
                forall|i: int|
                    0 <= i < mi ==> (#[trigger] bool_rows_view(mask@)[i]).len() == g[i].len(),
                forall|i: int, j: int|
                    0 <= i < mi && 0 <= j < bool_rows_view(mask@)[i].len() ==> !(
                    #[trigger] bool_rows_view(mask@)[i][j]),
            decreases self.grid().len() - mi,
        {
            let ghost mb = bool_rows_view(mask@);
            let row = make_bool_row(self.squares[mi].len());
            let ghost rowv = row@;
            mask.push(row);
            proof {
                assert(bool_rows_view(mask@) =~= mb.push(rowv));
            }
            mi = mi + 1;
        }
        proof {
            assert(mask_fits(bool_rows_view(mask@), g));
            lemma_mask_true_count_all_false(bool_rows_view(mask@));
            lemma_mask_true_count_le(bool_rows_view(mask@), g);
            lemma_reaches_refl(g, position);
        }

        let mut visited: Vec<Coordinate> = Vec::new();
        let mut work: Vec<Coordinate> = Vec::new();
        work.push(position);
        proof {
            assert(work@[0] == position);
            assert(work@.contains(position));
        }

        while work.len() > 0
            invariant
                g == self.grid(),
                owner_of(g, position) == Some(owner),
                mask_fits(bool_rows_view(mask@), g),
                mask_true_count(bool_rows_view(mask@)) == visited@.len(),
                mask_true_count(bool_rows_view(mask@)) <= grid_cell_count(g),
                visited@.no_duplicates(),
                forall|c: Coordinate|
                    visited@.contains(c) <==> marked(bool_rows_view(mask@), c),
                forall|k: int|
                    0 <= k < visited@.len() ==> reaches(g, position, #[trigger] visited@[k]),
                forall|k: int|
                    0 <= k < work@.len() ==> reaches(g, position, #[trigger] work@[k]),
                forall|x: Coordinate, y: Coordinate|
                    visited@.contains(x) && #[trigger] same_owner_step(g, x, y)
                        ==> visited@.contains(y) || work@.contains(y),
                visited@.contains(position) || work@.contains(position),
            decreases grid_cell_count(g) - mask_true_count(bool_rows_view(mask@)), work@.len(),
        {
            let ghost work0 = work@;
            let c_opt = work.pop();
            let c: Coordinate = match c_opt {
                Some(cc) => cc,
                None => {
                    proof {
                        assert(false);
                    }
                    position
                },
            };
            proof {
                assert(c == work0.last());
                assert(reaches(g, position, c));
                lemma_reaches_owner(g, position, c);
                assert(owner_of(g, c) == Some(owner));
                assert(c.y < g.len() && c.x < g[c.y as int].len());
                assert(bool_rows_view(mask@)[c.y as int].len() == g[c.y as int].len());
            }
            if !mask[c.y][c.x] {
                let ghost m0 = bool_rows_view(mask@);
                mask[c.y][c.x] = true;
                proof {
                    assert(bool_rows_view(mask@) =~= m0.update(
                        c.y as int,
                        m0[c.y as int].update(c.x as int, true),
                    ));
                    lemma_mask_true_count_update(m0, c.y as int, c.x as int);
                    assert(!visited@.contains(c));
                }
                let ghost v0 = visited@;
                visited.push(c);
                proof {
                    assert forall|i: int, j: int| 0 <= i < j < visited@.len() implies visited@[i]
                        != visited@[j] by {
                        if j < v0.len() {
                        } else {
                            assert(visited@[j] == c);
                            assert(v0.contains(v0[i]));
                        }
                    }
                    assert forall|d: Coordinate|
                        visited@.contains(d) <==> marked(bool_rows_view(mask@), d) by {
                        if d == c {
                            assert(visited@[v0.len() as int] == c);
                        } else {
                            if visited@.contains(d) {
                                let k = choose|k: int|
                                    0 <= k < visited@.len() && visited@[k] == d;
                                assert(v0[k] == d);
                                assert(v0.contains(d));
                            }
                            if v0.contains(d) {
                                let k = choose|k: int| 0 <= k < v0.len() && v0[k] == d;
                                assert(visited@[k] == d);
                                assert(visited@.contains(d));
                            }
                            assert(marked(bool_rows_view(mask@), d) == marked(m0, d));
                        }
                    }
                    lemma_mask_true_count_le(bool_rows_view(mask@), g);
                }

                let nrows = self.squares.len();
                let rowlen = self.squares[c.y].len();
                proof {
                    assert(c.y < nrows);
                    assert(c.x < rowlen);
                }
                let ns = self.neighbouring_squares(c);
                let ghost work1 = work@;
                let mut ni: usize = 0;
                while ni < ns.len()
                    invariant
                        g == self.grid(),
                        owner_of(g, position) == Some(owner),
                        owner_of(g, c) == Some(owner),
                        reaches(g, position, c),
                        ns@ == spec_neighbouring_squares(g, c),
                        ni <= ns@.len(),
                        work1.len() <= work@.len(),
                        work@.take(work1.len() as int) == work1,
                        forall|k: int|
                            0 <= k < work@.len() ==> reaches(g, position, #[trigger] work@[k]),
                        forall|m: int|
                            0 <= m < ni ==> ((#[trigger] ns@[m]).1 matches Square::Occupied(np, _)
                                && np == owner ==> work@.contains(ns@[m].0)),
                    decreases ns@.len() - ni,
                {
                    let (n, sq) = ns[ni];
                    let push_it: bool = match sq {
                        Square::Occupied(np, _) => np == owner,
                        _ => false,
                    };
                    if push_it {
                        proof {
                            lemma_neighbour_entries_facts(g, c);
                            assert(adjacent(c, n) && grid_get(g, n) == Ok::<
                                Square,
                                GamePlayError,
                            >(sq));
                            assert(same_owner_step(g, c, n));
                            lemma_reaches_step(g, position, c, n);
                        }
                        let ghost wbefore = work@;
                        work.push(n);
                        proof {
                            assert(work@.take(work1.len() as int) =~= wbefore.take(
                                work1.len() as int,
                            ));
                            assert forall|m: int|
                                0 <= m < ni + 1 implies ((#[trigger] ns@[m]).1 matches
                                Square::Occupied(np, _) && np == owner ==> work@.contains(
                                ns@[m].0,
                            )) by {
                                if m < ni {
                                    if ns@[m].1 matches Square::Occupied(np, _) && np == owner {
                                        let k = choose|k: int|
                                            0 <= k < wbefore.len() && wbefore[k] == ns@[m].0;
                                        assert(work@[k] == ns@[m].0);
                                    }
                                } else {
                                    assert(work@.last() == n);
                                }
                            }
                        }
                    }
                    ni = ni + 1;
                }

                proof {
                    // The new visited set stays closed: every same-player
                    // neighbour of `c` was just pushed, and older cells keep
                    // their witnesses.
                    assert forall|x: Coordinate, y: Coordinate|
                        visited@.contains(x) && #[trigger] same_owner_step(g, x, y)
                            implies visited@.contains(y) || work@.contains(y) by {
                        if x == c && y == c {
                            assert(visited@.contains(c));
                        } else if x == c {
                            lemma_neighbour_entry_index(g, c, y);
                            let e = (y, crate::board::square_at(g, y));
                            let m = choose|m: int|
                                0 <= m < ns@.len() && ns@[m] == e;
                            assert(owner_of(g, y) == Some(owner));
                            assert(ns@[m].1 matches Square::Occupied(np, _) && np == owner);
                            assert(work@.contains(ns@[m].0));
                        } else {
                            assert(v0.contains(x));
                            assert(visited@.contains(y) || work0.contains(y));
                            if !visited@.contains(y) {
                                let k = choose|k: int|
                                    0 <= k < work0.len() && work0[k] == y;
                                if k < work0.len() - 1 {
                                    assert(work1[k] == y);
                                    assert(work@.take(work1.len() as int)[k] == y);
                                    assert(work@[k] == y);
                                } else {
                                    assert(y == c);
                                }
                            }
                        }
                    }
                    if position == c {
                    } else if visited@.contains(position) {
                    } else {
                        let k = choose|k: int| 0 <= k < work0.len() && work0[k] == position;
                        if k < work0.len() - 1 {
                            assert(work1[k] == position);
                            assert(work@.take(work1.len() as int)[k] == position);
                            assert(work@[k] == position);
                        }
                    }
                }
            } else {
                proof {
                    assert(marked(bool_rows_view(mask@), c));
                    assert(visited@.contains(c));
                    assert forall|x: Coordinate, y: Coordinate|
                        visited@.contains(x) && #[trigger] same_owner_step(g, x, y)
                            implies visited@.contains(y) || work@.contains(y) by {
                        if !visited@.contains(y) {
                            let k = choose|k: int|
                                0 <= k < work0.len() && work0[k] == y;
                            if k < work0.len() - 1 {
                                assert(work@[k] == y);
                            } else {
                                assert(y == c);
                            }
                        }
                    }
                    if !visited@.contains(position) {
                        let k = choose|k: int| 0 <= k < work0.len() && work0[k] == position;
                        if k < work0.len() - 1 {
                            assert(work@[k] == position);
                        } else {
                            assert(position == c);
                        }
                    }
                }
            }
        }

        proof {
            assert forall|c: Coordinate|
                visited@.contains(c) <==> reaches(g, position, c) by {
                if visited@.contains(c) {
                    let k = choose|k: int| 0 <= k < visited@.len() && visited@[k] == c;
                    assert(reaches(g, position, visited@[k]));
                }
                if reaches(g, position, c) {
                    let p = choose|p: Seq<Coordinate>|
                        p.len() > 0 && p.first() == position && p.last() == c && is_path(g, p);
                    assert forall|x: Coordinate, y: Coordinate|
                        visited@.contains(x) && same_owner_step(g, x, y) implies visited@.contains(
                        y,
                    ) by {
                        assert(!work@.contains(y) || visited@.contains(y) || work@.len() == 0);
                    }
                    lemma_closed_set_catches_path(g, p, visited@);
                }
            }
        }
        visited
    }
}

/// The cell is attached: some root's group contains it.
pub open spec fn root_reachable(g: GridModel, roots: Seq<Coordinate>, c: Coordinate) -> bool {
    exists|k: int| 0 <= k < roots.len() && reaches(g, #[trigger] roots[k], c)
}

/// Truncation removes exactly the occupied cells attached to no root.
pub open spec fn removed_at(g: GridModel, roots: Seq<Coordinate>, c: Coordinate) -> bool {
    owner_of(g, c) is Some && !root_reachable(g, roots, c)
}

/// The letter an occupied coordinate holds.
pub open spec fn letter_of(g: GridModel, c: Coordinate) -> char {
    match crate::board::square_at(g, c) {
        Square::Occupied(_, letter) => letter,
        Square::Empty => ' ',
    }
}

/// The change event truncation reports for one removed cell: the cell's
/// prior occupied square.
pub open spec fn truncated_change(g: GridModel, c: Coordinate) -> Change {
    Change::Board(
        BoardChange {
            detail: BoardChangeDetail {
                square: crate::board::square_at(g, c),
                coordinate: c,
            },
            action: BoardChangeAction::Truncated,
        },
    )
}

pub open spec fn removal_mark(g: GridModel, roots: Seq<Coordinate>, x: int, y: int) -> Seq<Coordinate> {
    let c = Coordinate { x: x as usize, y: y as usize };
    if removed_at(g, roots, c) {
        seq![c]
    } else {
        seq![]
    }
}

/// The removed coordinates among the cells scanned before column `x` of row
/// `y`, in scan order: row-major, top row first, left to right.
pub open spec fn removed_prefix(
    g: GridModel,
    roots: Seq<Coordinate>,
    y: int,
    x: int,
    w: int,
) -> Seq<Coordinate>
    decreases y, x,
{
    if x > 0 {
        removed_prefix(g, roots, y, x - 1, w) + removal_mark(g, roots, x - 1, y)
    } else if y > 0 {
        removed_prefix(g, roots, y - 1, w, w)
    } else {
        seq![]
    }
}

/// All coordinates truncation removes, in the order it visits them.
pub open spec fn removed_cells(g: GridModel, roots: Seq<Coordinate>, h: int, w: int) -> Seq<
    Coordinate,
> {
    removed_prefix(g, roots, h, 0, w)
}

/// Every prefix of a path stays within reach of its start.
proof fn lemma_path_prefix_reaches(g: GridModel, p: Seq<Coordinate>, i: int)
    requires
        is_path(g, p),
        p.len() > 0,
        owner_of(g, p[0]) is Some,
        0 <= i < p.len(),
    ensures
        reaches(g, p[0], p[i]),
{
    let q = p.subrange(0, i + 1);
    assert forall|m: int| 0 <= m < q.len() - 1 implies #[trigger] same_owner_step(g, q[m], q[m + 1]) by {
        assert(same_owner_step(g, p[m], p[m + 1]));
    }
    assert(q.len() > 0 && q.first() == p[0] && q.last() == p[i] && is_path(g, q));
}

/// After removing exactly the unattached occupied cells, every cell that is
/// still occupied is attached on the resulting grid: the removal never cuts
/// a surviving cell off, because every cell on a root path is itself
/// attached and therefore survives.
proof fn lemma_removal_preserves_attachment(g1: GridModel, g2: GridModel, roots: Seq<Coordinate>)
    requires
        forall|c: Coordinate|
            #[trigger] owner_of(g2, c) == if removed_at(g1, roots, c) {
                None::<usize>
            } else {
                owner_of(g1, c)
            },
    ensures
        forall|c: Coordinate| owner_of(g2, c) is Some ==> root_reachable(g2, roots, c),
{
    assert forall|c: Coordinate| owner_of(g2, c) is Some implies root_reachable(g2, roots, c) by {
        assert(owner_of(g2, c) == owner_of(g1, c));
        assert(root_reachable(g1, roots, c));
        let k = choose|k: int| 0 <= k < roots.len() && reaches(g1, #[trigger] roots[k], c);
        let p = choose|p: Seq<Coordinate>|
            p.len() > 0 && p.first() == roots[k] && p.last() == c && is_path(g1, p);
        assert forall|i: int| 0 <= i < p.len() implies owner_of(g2, #[trigger] p[i]) == owner_of(
            g1,
            p[i],
        ) by {
            lemma_path_prefix_reaches(g1, p, i);
            assert(reaches(g1, roots[k], p[i]));
            assert(root_reachable(g1, roots, p[i]));
        }
        assert forall|i: int| 0 <= i < p.len() - 1 implies #[trigger] same_owner_step(
            g2,
            p[i],
            p[i + 1],
        ) by {
            assert(same_owner_step(g1, p[i], p[i + 1]));
        }
        assert(is_path(g2, p));
        assert(owner_of(g2, roots[k]) is Some);
        assert(reaches(g2, roots[k], c));
    }
}

use crate::bag::TileBag;
use crate::board::grid_update;
use crate::reporting::BoardChange;
use crate::reporting::BoardChangeAction;
use crate::reporting::BoardChangeDetail;
use crate::reporting::Change;

impl Board {
    /// Clears every occupied cell that is not connected to any player's
    /// root, returning each reclaimed letter to the supply and reporting one
    /// truncation event per cleared cell, in scan order. On a rectangular
    /// board, every cell still occupied afterwards is connected to a root.
    pub fn truncate(&mut self, bag: &mut TileBag) -> (r: Vec<Change>)
        requires
            old(self).grid().len() > 0,
        ensures
            final(self).roots == old(self).roots,
            final(self).orientations == old(self).orientations,
            final(self).grid().len() == old(self).grid().len(),
            forall|i: int|
                0 <= i < old(self).grid().len() ==> (#[trigger] final(self).grid()[i]).len() == old(
                    self,
                ).grid()[i].len(),
            forall|i: int, j: int|
                0 <= i < old(self).grid().len() && 0 <= j < old(self).grid()[i].len()
                    ==> #[trigger] final(self).grid()[i][j] == (if j < old(self).spec_width()
                    && removed_at(
                    old(self).grid(),
                    old(self).roots@,
                    Coordinate { x: j as usize, y: i as usize },
                ) {
                    Some(Square::Empty)
                } else {
                    old(self).grid()[i][j]
                }),
            r@ == removed_cells(
                old(self).grid(),
                old(self).roots@,
                old(self).spec_height(),
                old(self).spec_width(),
            ).map_values(|c: Coordinate| truncated_change(old(self).grid(), c)),
            final(bag)@ == old(bag)@ + removed_cells(
                old(self).grid(),
                old(self).roots@,
                old(self).spec_height(),
                old(self).spec_width(),
            ).map_values(|c: Coordinate| letter_of(old(self).grid(), c)),
            old(self).is_rect() ==> forall|c: Coordinate|
                owner_of(final(self).grid(), c) is Some ==> root_reachable(
                    final(self).grid(),
                    final(self).roots@,
                    c,
                ),
    {
        let ghost g = self.grid();
        let ghost roots_v = self.roots@;
        let h = self.squares.len();
        let w = self.squares[0].len();

        // Mark every cell attached to some root.
        let mut mask: Vec<Vec<bool>> = Vec::new();
        let mut mi: usize = 0;
        while mi < self.squares.len()
            invariant
                mi <= self.grid().len(),
                g == self.grid(),
                bool_rows_view(mask@).len() == mi,
                forall|i: int|
                    0 <= i < mi ==> (#[trigger] bool_rows_view(mask@)[i]).len() == g[i].len(),
                forall|i: int, j: int|
                    0 <= i < mi && 0 <= j < bool_rows_view(mask@)[i].len() ==> !(
                    #[trigger] bool_rows_view(mask@)[i][j]),
            decreases self.grid().len() - mi,
        {
            let ghost mb = bool_rows_view(mask@);
            let row = make_bool_row(self.squares[mi].len());
            let ghost rowv = row@;
            mask.push(row);
            proof {
                assert(bool_rows_view(mask@) =~= mb.push(rowv));
            }
            mi = mi + 1;
        }
        proof {
            assert(mask_fits(bool_rows_view(mask@), g));
        }

        let mut k: usize = 0;
        while k < self.roots.len()
            invariant
                g == self.grid(),
                roots_v == self.roots@,
                k <= roots_v.len(),
                mask_fits(bool_rows_view(mask@), g),
                forall|c: Coordinate|
                    marked(bool_rows_view(mask@), c) <==> exists|m: int|
                        0 <= m < k && reaches(g, #[trigger] roots_v[m], c),
            decreases roots_v.len() - k,
        {
            let group = self.depth_first_search(self.roots[k]);
            let mut gi: usize = 0;
            while gi < group.len()
                invariant
                    g == self.grid(),
                    roots_v == self.roots@,
                    k < roots_v.len(),
                    gi <= group@.len(),
                    mask_fits(bool_rows_view(mask@), g),
                    forall|c: Coordinate| group@.contains(c) <==> reaches(g, roots_v[k as int], c),
                    forall|c: Coordinate|
                        marked(bool_rows_view(mask@), c) <==> (exists|m: int|
                            0 <= m < k && reaches(g, #[trigger] roots_v[m], c)) || group@.take(
                            gi as int,
                        ).contains(c),
                decreases group@.len() - gi,
            {
                let c = group[gi];
                proof {
                    assert(group@.contains(c));
                    lemma_reaches_owner(g, roots_v[k as int], c);
                    assert(c.y < g.len() && c.x < g[c.y as int].len());
                    assert(bool_rows_view(mask@)[c.y as int].len() == g[c.y as int].len());
                }
                let ghost m0 = bool_rows_view(mask@);
                mask[c.y][c.x] = true;
                proof {
                    assert(bool_rows_view(mask@) =~= m0.update(
                        c.y as int,
                        m0[c.y as int].update(c.x as int, true),
                    ));
                    assert forall|d: Coordinate|
                        marked(bool_rows_view(mask@), d) <==> (exists|m: int|
                            0 <= m < k && reaches(g, #[trigger] roots_v[m], d)) || group@.take(
                            gi + 1 as int,
                        ).contains(d) by {
                        if d == c {
                            assert(group@.take(gi + 1 as int)[gi as int] == c);
                            assert(group@.take(gi + 1 as int).contains(c));
                            assert(marked(bool_rows_view(mask@), c));
                        } else {
                            assert(marked(bool_rows_view(mask@), d) == marked(m0, d));
                            assert(group@.take(gi + 1 as int).contains(d) == group@.take(
                                gi as int,
                            ).contains(d)) by {
                                if group@.take(gi + 1 as int).contains(d) {
                                    let t = choose|t: int|
                                        0 <= t < gi + 1 && #[trigger] group@.take(gi + 1 as int)[t]
                                            == d;
                                    assert(t < gi);
                                    assert(group@.take(gi as int)[t] == d);
                                }
                                if group@.take(gi as int).contains(d) {
                                    let t = choose|t: int|
                                        0 <= t < gi && #[trigger] group@.take(gi as int)[t] == d;
                                    assert(group@.take(gi + 1 as int)[t] == d);
                                }
                            }
                        }
                    }
                }
                gi = gi + 1;
            }
            proof {
                assert(group@.take(group@.len() as int) =~= group@);
                assert forall|c: Coordinate|
                    marked(bool_rows_view(mask@), c) <==> exists|m: int|
                        0 <= m < k + 1 && reaches(g, #[trigger] roots_v[m], c) by {
                    if marked(bool_rows_view(mask@), c) {
                        if group@.contains(c) {
                            assert(reaches(g, roots_v[k as int], c));
                        }
                    }
                    if exists|m: int| 0 <= m < k + 1 && reaches(g, #[trigger] roots_v[m], c) {
                        let m = choose|m: int|
                            0 <= m < k + 1 && reaches(g, #[trigger] roots_v[m], c);
                        if m == k {
                            assert(group@.contains(c));
                        }
                    }
                }
            }
            k = k + 1;
        }
        proof {
            assert forall|c: Coordinate|
                marked(bool_rows_view(mask@), c) <==> root_reachable(g, roots_v, c) by {}
        }

        // Clear what is not attached, reclaiming each letter.
        let mut changes: Vec<Change> = Vec::new();
        let mut y: usize = 0;
        while y < h
            invariant
                y <= h,
                h == g.len(),
                w == g[0].len(),
                roots_v == old(self).roots@,
                g == old(self).grid(),
                self.roots == old(self).roots,
                self.orientations == old(self).orientations,
                mask_fits(bool_rows_view(mask@), g),
                forall|c: Coordinate| marked(bool_rows_view(mask@), c) <==> root_reachable(
                    g,
                    roots_v,
                    c,
                ),
                self.grid().len() == h,
                forall|i: int|
                    0 <= i < h ==> (#[trigger] self.grid()[i]).len() == g[i].len(),
                forall|i: int, j: int|
                    0 <= i < h && 0 <= j < g[i].len() ==> #[trigger] self.grid()[i][j] == (if (i
                        < y) && j < w && removed_at(
                        g,
                        roots_v,
                        Coordinate { x: j as usize, y: i as usize },
                    ) {
                        Some(Square::Empty)
                    } else {
                        g[i][j]
                    }),
                changes@ == removed_prefix(g, roots_v, y as int, 0, w as int).map_values(
                    |c: Coordinate| truncated_change(g, c),
                ),
                bag@ == old(bag)@ + removed_prefix(g, roots_v, y as int, 0, w as int).map_values(
                    |c: Coordinate| letter_of(g, c),
                ),
            decreases h - y,
        {
            let mut x: usize = 0;
            while x < w
                invariant
                    x <= w,
                    y < h,
                    h == g.len(),
                    w == g[0].len(),
                    roots_v == old(self).roots@,
                    g == old(self).grid(),
                    self.roots == old(self).roots,
                    self.orientations == old(self).orientations,
                    mask_fits(bool_rows_view(mask@), g),
                    forall|c: Coordinate| marked(bool_rows_view(mask@), c) <==> root_reachable(
                        g,
                        roots_v,
                        c,
                    ),
                    self.grid().len() == h,
                    forall|i: int|
                        0 <= i < h ==> (#[trigger] self.grid()[i]).len() == g[i].len(),
                    forall|i: int, j: int|
                        0 <= i < h && 0 <= j < g[i].len() ==> #[trigger] self.grid()[i][j] == (if (
                        i < y || (i == y && j < x)) && j < w && removed_at(
                            g,
                            roots_v,
                            Coordinate { x: j as usize, y: i as usize },
                        ) {
                            Some(Square::Empty)
                        } else {
                            g[i][j]
                        }),
                    changes@ == removed_prefix(g, roots_v, y as int, x as int, w as int).map_values(
                        |c: Coordinate| truncated_change(g, c),
                    ),
                    bag@ == old(bag)@ + removed_prefix(
                        g,
                        roots_v,
                        y as int,
                        x as int,
                        w as int,
                    ).map_values(|c: Coordinate| letter_of(g, c)),
                decreases w - x,
            {
                let c = Coordinate { x, y };
                let row_len = mask[y].len();
                let attached = x < row_len && mask[y][x];
                proof {
                    assert(marked(bool_rows_view(mask@), c) == attached);
                    if x < g[y as int].len() {
                        assert(self.grid()[y as int][x as int] == g[y as int][x as int]);
                    }
                    assert(grid_get(self.grid(), c) == grid_get(g, c));
                }
                if !attached {
                    match self.get(c) {
                        Ok(Square::Occupied(_, letter)) => {
                            proof {
                                assert(owner_of(g, c) is Some);
                                assert(!root_reachable(g, roots_v, c));
                                assert(removed_at(g, roots_v, c));
                            }
                            bag.return_tile(letter);
                            let ghost before = self.grid();
                            let detail_opt = self.clear(c);
                            proof {
                                assert(self.grid() == grid_update(before, c, Square::Empty));
                            }
                            match detail_opt {
                                Some(detail) => {
                                    changes.push(
                                        Change::Board(
                                            BoardChange {
                                                detail,
                                                action: BoardChangeAction::Truncated,
                                            },
                                        ),
                                    );
                                },
                                None => {
                                    proof {
                                        assert(false);
                                    }
                                },
                            }
                            proof {
                                assert(removed_prefix(g, roots_v, y as int, x + 1 as int, w as int)
                                    =~= removed_prefix(g, roots_v, y as int, x as int, w as int)
                                    + seq![c]);
                                assert(changes@ =~= removed_prefix(
                                    g,
                                    roots_v,
                                    y as int,
                                    x + 1 as int,
                                    w as int,
                                ).map_values(|cc: Coordinate| truncated_change(g, cc)));
                                assert(bag@ =~= old(bag)@ + removed_prefix(
                                    g,
                                    roots_v,
                                    y as int,
                                    x + 1 as int,
                                    w as int,
                                ).map_values(|cc: Coordinate| letter_of(g, cc)));
                            }
                        },
                        _ => {
                            proof {
                                assert(!removed_at(g, roots_v, c));
                                assert(removed_prefix(g, roots_v, y as int, x + 1 as int, w as int)
                                    =~= removed_prefix(g, roots_v, y as int, x as int, w as int));
                            }
                        },
                    }
                } else {
                    proof {
                        assert(root_reachable(g, roots_v, c));
                        assert(!removed_at(g, roots_v, c));
                        assert(removed_prefix(g, roots_v, y as int, x + 1 as int, w as int)
                            =~= removed_prefix(g, roots_v, y as int, x as int, w as int));
                    }
                }
                x = x + 1;
            }
            proof {
                assert(removed_prefix(g, roots_v, y + 1 as int, 0, w as int) == removed_prefix(
                    g,
                    roots_v,
                    y as int,
                    w as int,
                    w as int,
                ));
            }
            y = y + 1;
        }

        proof {
            if old(self).is_rect() {
                let g2 = self.grid();
                assert forall|c: Coordinate|
                    #[trigger] owner_of(g2, c) == (if removed_at(g, roots_v, c) {
                        None::<usize>
                    } else {
                        owner_of(g, c)
                    }) by {
                    if c.y < g.len() && c.x < g[c.y as int].len() {
                        assert(g[c.y as int].len() == g[0].len());
                        assert(self.grid()[c.y as int][c.x as int] == (if removed_at(
                            g,
                            roots_v,
                            c,
                        ) {
                            Some(Square::Empty)
                        } else {
                            g[c.y as int][c.x as int]
                        }));
                    }
                }
                lemma_removal_preserves_attachment(g, g2, roots_v);
            }
        }
        changes
    }
}

} // verus!
