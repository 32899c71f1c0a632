//! The board: a rectangular grid of cells, per-player root coordinates, and
//! per-player reading orientations.
//!
//! The grid is a vector of rows; a `None` cell is void (permanently
//! unplayable), `Some(Square::Empty)` is playable, and
//! `Some(Square::Occupied(..))` holds a player's letter. Contracts speak of
//! the grid through its view, a sequence of rows of optional squares.

use vstd::prelude::*;

use crate::error::GamePlayError;
use crate::geometry::Coordinate;
use crate::geometry::Direction;
use crate::reporting::BoardChangeDetail;
use crate::square::Square;

verus! {

/// The mathematical model of a grid: rows of optional squares.
pub type GridModel = Seq<Seq<Option<Square>>>;

/// What reading one coordinate yields: the square, or the exact error.
pub open spec fn grid_get(g: GridModel, c: Coordinate) -> Result<Square, GamePlayError> {
    if c.y < g.len() && c.x < g[c.y as int].len() {
        match g[c.y as int][c.x as int] {
            Some(sq) => Ok(sq),
            None => Err(GamePlayError::InvalidPosition { position: c }),
        }
    } else {
        Err(GamePlayError::OutSideBoardDimensions { position: c })
    }
}

/// The square a readable coordinate holds (empty when unreadable).
pub open spec fn square_at(g: GridModel, c: Coordinate) -> Square {
    match grid_get(g, c) {
        Ok(sq) => sq,
        Err(_) => Square::Empty,
    }
}

/// The grid with one (in-range) cell replaced by an occupied or empty square.
pub open spec fn grid_update(g: GridModel, c: Coordinate, sq: Square) -> GridModel {
    g.update(c.y as int, g[c.y as int].update(c.x as int, Some(sq)))
}

pub open spec fn grid_is_rect(g: GridModel) -> bool {
    g.len() > 0 && (forall|i: int| 0 <= i < g.len() ==> #[trigger] g[i].len() == g[0].len())
}

/// A row of `w` identical cells.
pub open spec fn uniform_row(w: int, cell: Option<Square>) -> Seq<Option<Square>> {
    Seq::new(w as nat, |x: int| cell)
}

/// The unpadded starting grid: `h` empty interior rows of width `w`, framed
/// by one void row above and below, each pierced by one root cell.
pub open spec fn spec_new_grid(w: int, h: int) -> GridModel {
    Seq::new(
        (h + 2) as nat,
        |y: int|
            if y == 0 {
                uniform_row(w, None).update(w / 2 + w % 2 - 1, Some(Square::Empty))
            } else if y == h + 1 {
                uniform_row(w, None).update(w / 2, Some(Square::Empty))
            } else {
                uniform_row(w, Some(Square::Empty))
            },
    )
}

/// Root coordinates of the unpadded starting grid: player 0 centred in the
/// top void row, player 1 centred in the bottom one.
pub open spec fn spec_new_roots(w: int, h: int) -> Seq<Coordinate> {
    seq![
        Coordinate { x: (w / 2 + w % 2 - 1) as usize, y: 0 },
        Coordinate { x: (w / 2) as usize, y: (h + 1) as usize },
    ]
}

/// The grid after one void ring is added on every edge.
pub open spec fn grown_grid(g: GridModel) -> GridModel {
    seq![uniform_row(g[0].len() as int + 2, None)] + g.map_values(
        |row: Seq<Option<Square>>| seq![None::<Square>] + row + seq![None::<Square>],
    ) + seq![uniform_row(g[0].len() as int + 2, None)]
}

/// Every root shifted one step south-east, as growing the board does.
pub open spec fn shifted_roots(rs: Seq<Coordinate>) -> Seq<Coordinate> {
    rs.map_values(|c: Coordinate| Coordinate { x: (c.x + 1) as usize, y: (c.y + 1) as usize })
}

#[derive(Clone, Debug, PartialEq, Eq)]
pub struct Board {
    pub squares: Vec<Vec<Option<Square>>>,
    pub roots: Vec<Coordinate>,
    pub orientations: Vec<Direction>,
}

/// The grid model of a vector of rows: each row replaced by its view.
pub open spec fn rows_view(rows: Seq<Vec<Option<Square>>>) -> GridModel {
    rows.map_values(|row: Vec<Option<Square>>| row@)
}

/// Appending a row to the vector appends its view to the grid model.
pub(crate) proof fn lemma_rows_view_push(rows: Seq<Vec<Option<Square>>>, v: Vec<Option<Square>>)
    ensures
        rows_view(rows.push(v)) == rows_view(rows).push(v@),
{
    assert(rows_view(rows.push(v)) =~= rows_view(rows).push(v@));
}

impl Board {
    pub open spec fn grid(&self) -> GridModel {
        rows_view(self.squares@)
    }

    pub open spec fn spec_get(&self, position: Coordinate) -> Result<Square, GamePlayError> {
        grid_get(self.grid(), position)
    }

    pub open spec fn is_rect(&self) -> bool {
        grid_is_rect(self.grid())
    }

    pub open spec fn spec_width(&self) -> int {
        self.grid()[0].len() as int
    }

    pub open spec fn spec_height(&self) -> int {
        self.grid().len() as int
    }

    /// A fresh game board: a `width` by `height` empty interior, one root
    /// row above and below, and optionally a further void ring on all edges.
    pub fn new(width: usize, height: usize, padded: bool) -> (r: Self)
        requires
            1 <= width <= usize::MAX - 2,
            height <= usize::MAX - 2,
        ensures
            !padded ==> r.grid() == spec_new_grid(width as int, height as int),
            !padded ==> r.roots@ == spec_new_roots(width as int, height as int),
            padded ==> r.grid() == grown_grid(spec_new_grid(width as int, height as int)),
            padded ==> r.roots@ == shifted_roots(spec_new_roots(width as int, height as int)),
            r.orientations@ == seq![Direction::North, Direction::South],
    {
        let root0 = Coordinate { x: width / 2 + width % 2 - 1, y: 0 };
        let root1 = Coordinate { x: width / 2, y: height + 1 };

        let mut squares: Vec<Vec<Option<Square>>> = Vec::new();
        let mut top = make_row(width, None);
        top[root0.x] = Some(Square::Empty);
        squares.push(top);
        let mut i: usize = 0;
        while i < height
            invariant
                i <= height,
                squares@.len() == i + 1,
                squares@[0]@ == uniform_row(width as int, None).update(
                    width as int / 2 + width as int % 2 - 1,
                    Some(Square::Empty),
                ),
                forall|k: int|
                    1 <= k <= i ==> #[trigger] squares@[k]@ == uniform_row(
                        width as int,
                        Some(Square::Empty),
                    ),
            decreases height - i,
        {
            squares.push(make_row(width, Some(Square::Empty)));
            i = i + 1;
        }
        let mut bottom = make_row(width, None);
        bottom[root1.x] = Some(Square::Empty);
        squares.push(bottom);

        let mut roots: Vec<Coordinate> = Vec::new();
        roots.push(root0);
        roots.push(root1);

        let mut orientations: Vec<Direction> = Vec::new();
        orientations.push(Direction::North);
        orientations.push(Direction::South);

        let mut board = Board { squares, roots, orientations };
        proof {
            assert(board.grid() =~= spec_new_grid(width as int, height as int));
            assert(board.roots@ =~= spec_new_roots(width as int, height as int));
            assert(board.orientations@ =~= seq![Direction::North, Direction::South]);
        }
        if padded {
            board.grow();
        }
        board
    }

    pub fn get_orientations(&self) -> (r: &Vec<Direction>)
        ensures
            r@ == self.orientations@,
    {
        &self.orientations
    }

    pub fn width(&self) -> (r: usize)
        requires
            self.grid().len() > 0,
        ensures
            r == self.spec_width(),
    {
        self.squares[0].len()
    }

    pub fn height(&self) -> (r: usize)
        ensures
            r == self.spec_height(),
    {
        self.squares.len()
    }

    /// The square at a coordinate, or exactly which way the lookup failed.
    pub fn get(&self, position: Coordinate) -> (r: Result<Square, GamePlayError>)
        ensures
            r == self.spec_get(position),
    {
        if position.y < self.squares.len() {
            if position.x < self.squares[position.y].len() {
                match self.squares[position.y][position.x] {
                    Some(square) => Ok(square),
                    None => Err(GamePlayError::InvalidPosition { position }),
                }
            } else {
                Err(GamePlayError::OutSideBoardDimensions { position })
            }
        } else {
            Err(GamePlayError::OutSideBoardDimensions { position })
        }
    }

    /// Writes an occupied square over an existing (non-void) cell. Succeeds
    /// exactly when the player index is configured and the coordinate reads
    /// back a square; it never creates territory.
    pub fn set(&mut self, position: Coordinate, player: usize, value: char) -> (r: Result<
        BoardChangeDetail,
        GamePlayError,
    >)
        ensures
            final(self).roots == old(self).roots,
            final(self).orientations == old(self).orientations,
            player >= old(self).roots@.len() ==> r == Err::<BoardChangeDetail, GamePlayError>(
                GamePlayError::NonExistentPlayer { index: player },
            ) && *final(self) == *old(self),
            player < old(self).roots@.len() ==> match old(self).spec_get(position) {
                Ok(_) => r == Ok::<BoardChangeDetail, GamePlayError>(
                    BoardChangeDetail {
                        square: Square::Occupied(player, value),
                        coordinate: position,
                    },
                ) && final(self).grid() == grid_update(
                    old(self).grid(),
                    position,
                    Square::Occupied(player, value),
                ),
                Err(e) => r == Err::<BoardChangeDetail, GamePlayError>(e) && *final(self) == *old(
                    self,
                ),
            },
    {
        if player >= self.roots.len() {
            return Err(GamePlayError::NonExistentPlayer { index: player });
        }
        if position.y < self.squares.len() {
            if position.x < self.squares[position.y].len() {
                match self.squares[position.y][position.x] {
                    Some(_) => {
                        self.squares[position.y][position.x] = Some(
                            Square::Occupied(player, value),
                        );
                        proof {
                            assert(final(self).grid() =~= grid_update(
                                old(self).grid(),
                                position,
                                Square::Occupied(player, value),
                            ));
                        }
                        Ok(BoardChangeDetail {
                            square: Square::Occupied(player, value),
                            coordinate: position,
                        })
                    },
                    None => Err(GamePlayError::InvalidPosition { position }),
                }
            } else {
                Err(GamePlayError::OutSideBoardDimensions { position })
            }
        } else {
            Err(GamePlayError::OutSideBoardDimensions { position })
        }
    }

    /// Empties an occupied cell in place, returning its prior detail; void,
    /// empty, and out-of-range coordinates are left alone.
    pub fn clear(&mut self, position: Coordinate) -> (r: Option<BoardChangeDetail>)
        ensures
            final(self).roots == old(self).roots,
            final(self).orientations == old(self).orientations,
            match old(self).spec_get(position) {
                Ok(Square::Occupied(player, tile)) => r == Some(
                    BoardChangeDetail {
                        square: Square::Occupied(player, tile),
                        coordinate: position,
                    },
                ) && final(self).grid() == grid_update(old(self).grid(), position, Square::Empty),
                _ => r == None::<BoardChangeDetail> && *final(self) == *old(self),
            },
    {
        if position.y < self.squares.len() {
            if position.x < self.squares[position.y].len() {
                match self.squares[position.y][position.x] {
                    Some(Square::Occupied(player, tile)) => {
                        self.squares[position.y][position.x] = Some(Square::Empty);
                        proof {
                            assert(final(self).grid() =~= grid_update(
                                old(self).grid(),
                                position,
                                Square::Empty,
                            ));
                        }
                        Some(
                            BoardChangeDetail {
                                square: Square::Occupied(player, tile),
                                coordinate: position,
                            },
                        )
                    },
                    _ => None,
                }
            } else {
                None
            }
        } else {
            None
        }
    }

    pub fn get_root(&self, player: usize) -> (r: Result<Coordinate, GamePlayError>)
        ensures
            r == if player < self.roots@.len() {
                Ok::<Coordinate, GamePlayError>(self.roots@[player as int])
            } else {
                Err::<Coordinate, GamePlayError>(GamePlayError::NonExistentPlayer { index: player })
            },
    {
        if player < self.roots.len() {
            Ok(self.roots[player])
        } else {
            Err(GamePlayError::NonExistentPlayer { index: player })
        }
    }

    /// The orthogonal neighbours that address a readable (non-void,
    /// in-range) square, paired with their squares, in South, East, North,
    /// West order; a step clamped at the board edge moves nowhere and
    /// yields no neighbour.
    pub fn neighbouring_squares(&self, position: Coordinate) -> (r: Vec<(Coordinate, Square)>)
        requires
            position.x < usize::MAX,
            position.y < usize::MAX,
        ensures
            r@ == spec_neighbouring_squares(self.grid(), position),
    {
        let mut r: Vec<(Coordinate, Square)> = Vec::new();
        let south = position.add(Direction::South);
        if let Ok(sq) = self.get(south) {
            r.push((south, sq));
        }
        let east = position.add(Direction::East);
        if let Ok(sq) = self.get(east) {
            r.push((east, sq));
        }
        let north = position.add(Direction::North);
        if !(north.x == position.x && north.y == position.y) {
            if let Ok(sq) = self.get(north) {
                r.push((north, sq));
            }
        }
        let west = position.add(Direction::West);
        if !(west.x == position.x && west.y == position.y) {
            if let Ok(sq) = self.get(west) {
                r.push((west, sq));
            }
        }
        proof {
            assert(r@ =~= spec_neighbouring_squares(self.grid(), position));
        }
        r
    }
}

/// The entry `neighbouring_squares` contributes for one candidate
/// coordinate: the coordinate paired with its square if readable, nothing
/// otherwise.
pub open spec fn readable_entry(g: GridModel, c: Coordinate) -> Seq<(Coordinate, Square)> {
    match grid_get(g, c) {
        Ok(sq) => seq![(c, sq)],
        Err(_) => seq![],
    }
}

/// The neighbour entry one directional step contributes: nothing when the
/// step clamps in place.
pub open spec fn step_entry(g: GridModel, p: Coordinate, dir: Direction) -> Seq<
    (Coordinate, Square),
> {
    if p.spec_add(dir) == p {
        seq![]
    } else {
        readable_entry(g, p.spec_add(dir))
    }
}

pub open spec fn spec_neighbouring_squares(g: GridModel, p: Coordinate) -> Seq<
    (Coordinate, Square),
> {
    step_entry(g, p, Direction::South) + step_entry(g, p, Direction::East) + step_entry(
        g,
        p,
        Direction::North,
    ) + step_entry(g, p, Direction::West)
}

/// Builds a row of `w` copies of one cell value.
pub(crate) fn make_row(w: usize, cell: Option<Square>) -> (r: Vec<Option<Square>>)
    ensures
        r@ == uniform_row(w as int, cell),
{
    let mut r: Vec<Option<Square>> = Vec::new();
    let mut i: usize = 0;
    while i < w
        invariant
            i <= w,
            r@ =~= uniform_row(i as int, cell),
        decreases w - i,
    {
        r.push(cell);
        proof {
            assert(r@ =~= uniform_row(i + 1 as int, cell));
        }
        i = i + 1;
    }
    proof {
        assert(r@ =~= uniform_row(w as int, cell));
    }
    r
}

impl Default for Board {
    /// The standard game board: a nine-by-nine interior with root rows,
    /// padded by one extra void ring.
    fn default() -> (r: Self)
        ensures
            r.grid() == grown_grid(spec_new_grid(9, 9)),
            r.roots@ == shifted_roots(spec_new_roots(9, 9)),
            r.orientations@ == seq![Direction::North, Direction::South],
    {
        Self::new(9, 9, true)
    }
}

} // verus!
