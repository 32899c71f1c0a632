//! Word extraction and combat-candidate assembly.
//!
//! A word through an occupied cell runs along one axis in both directions
//! while consecutive cells are occupied by the same player, and is then
//! re-oriented to its owner's reading direction. Single letters only count
//! when the cell is isolated on both axes.

use vstd::prelude::*;

use crate::board::Board;
use crate::board::GridModel;
use crate::board::grid_get;
use crate::board::spec_neighbouring_squares;
use crate::connect::owner_of;
use crate::error::GamePlayError;
use crate::geometry::Coordinate;
use crate::geometry::Direction;
use crate::square::Square;

verus! {

/// The list of words as sequences of their coordinates.
pub open spec fn words_view(ws: Seq<Vec<Coordinate>>) -> Seq<Seq<Coordinate>> {
    ws.map_values(|w: Vec<Coordinate>| w@)
}

/// How many more steps a walk in `dir` can take from `c` before it must
/// leave the grid.
pub open spec fn run_measure(g: GridModel, c: Coordinate, dir: Direction) -> int {
    match dir {
        Direction::South => g.len() - c.y,
        Direction::North => c.y as int,
        Direction::East => if c.y < g.len() {
            g[c.y as int].len() - c.x
        } else {
            0
        },
        Direction::West => c.x as int,
        _ => 0,
    }
}

/// The cells strictly beyond `from` in direction `dir` that continue the
/// owner's word, in walk order: the walk stops at the first cell that is
/// void, empty, another player's, off the grid, or reached by a clamped
/// step that did not move.
pub open spec fn word_run(g: GridModel, owner: usize, from: Coordinate, dir: Direction) -> Seq<
    Coordinate,
>
    decreases run_measure(g, from, dir),
{
    let next = from.spec_add(dir);
    if next == from {
        seq![]
    } else {
        match grid_get(g, next) {
            Ok(Square::Occupied(p, _)) => if p == owner && 0 <= run_measure(g, next, dir)
                && run_measure(g, next, dir) < run_measure(g, from, dir) {
                seq![next] + word_run(g, owner, next, dir)
            } else {
                seq![]
            },
            _ => seq![],
        }
    }
}

/// The whole vertical word through an occupied cell, top to bottom.
pub open spec fn natural_vertical_word(g: GridModel, owner: usize, pos: Coordinate) -> Seq<
    Coordinate,
> {
    word_run(g, owner, pos, Direction::North).reverse() + seq![pos] + word_run(
        g,
        owner,
        pos,
        Direction::South,
    )
}

/// The whole horizontal word through an occupied cell, left to right.
pub open spec fn natural_horizontal_word(g: GridModel, owner: usize, pos: Coordinate) -> Seq<
    Coordinate,
> {
    word_run(g, owner, pos, Direction::West).reverse() + seq![pos] + word_run(
        g,
        owner,
        pos,
        Direction::East,
    )
}

/// The words through a coordinate: nothing for an unoccupied cell;
/// otherwise the vertical then the horizontal word, each mirrored unless
/// the owner reads that axis in the natural order, with one-letter words
/// dropped unless both are one letter.
pub open spec fn spec_words(g: GridModel, orientations: Seq<Direction>, pos: Coordinate) -> Seq<
    Seq<Coordinate>,
> {
    match grid_get(g, pos) {
        Ok(Square::Occupied(owner, _)) => {
            let v0 = natural_vertical_word(g, owner, pos);
            let h0 = natural_horizontal_word(g, owner, pos);
            let v = if orientations[owner as int].spec_read_top_to_bottom() {
                v0
            } else {
                v0.reverse()
            };
            let h = if orientations[owner as int].spec_read_left_to_right() {
                h0
            } else {
                h0.reverse()
            };
            if v.len() == 1 && h.len() == 1 {
                seq![v, h]
            } else {
                (if v.len() > 1 {
                    seq![v]
                } else {
                    seq![]
                }) + (if h.len() > 1 {
                    seq![h]
                } else {
                    seq![]
                })
            }
        },
        _ => seq![],
    }
}

/// Copies a list of coordinates.
pub(crate) fn copy_coords(v: &Vec<Coordinate>) -> (r: Vec<Coordinate>)
    ensures
        r@ == v@,
{
    let mut r: Vec<Coordinate> = Vec::new();
    let mut i: usize = 0;
    while i < v.len()
        invariant
            i <= v@.len(),
            r@ =~= v@.take(i as int),
        decreases v@.len() - i,
    {
        r.push(v[i]);
        proof {
            assert(r@ =~= v@.take(i + 1 as int));
        }
        i = i + 1;
    }
    proof {
        assert(v@.take(v@.len() as int) =~= v@);
    }
    r
}

/// Reverses a list of coordinates.
fn reverse_coords(v: &Vec<Coordinate>) -> (r: Vec<Coordinate>)
    ensures
        r@ == v@.reverse(),
{
    let mut r: Vec<Coordinate> = Vec::new();
    let mut i: usize = v.len();
    while i > 0
        invariant
            i <= v@.len(),
            r@.len() == v@.len() - i,
            forall|k: int| 0 <= k < r@.len() ==> r@[k] == v@[v@.len() - 1 - k],
        decreases i,
    {
        i = i - 1;
        r.push(v[i]);
    }
    proof {
        assert(r@ =~= v@.reverse());
    }
    r
}

impl Board {
    /// Walks one direction from an occupied cell, collecting the run of
    /// same-owner cells beyond it.
    fn word_walk(&self, owner: usize, start: Coordinate, dir: Direction) -> (r: Vec<Coordinate>)
        requires
            owner_of(self.grid(), start) == Some(owner),
            dir == Direction::North || dir == Direction::South || dir == Direction::East || dir
                == Direction::West,
        ensures
            r@ == word_run(self.grid(), owner, start, dir),
    {
        let ghost g = self.grid();
        let mut run: Vec<Coordinate> = Vec::new();
        let mut cur = start;
        loop
            invariant_except_break
                g == self.grid(),
                dir == Direction::North || dir == Direction::South || dir == Direction::East || dir
                    == Direction::West,
                owner_of(g, cur) == Some(owner),
                word_run(g, owner, start, dir) == run@ + word_run(g, owner, cur, dir),
            ensures
                run@ == word_run(g, owner, start, dir),
            decreases run_measure(g, cur, dir),
        {
            proof {
                assert(cur.y < g.len() && cur.x < g[cur.y as int].len());
            }
            let nrows = self.squares.len();
            let rowlen = self.squares[cur.y].len();
            let next = cur.add(dir);
            if next.x == cur.x && next.y == cur.y {
                proof {
                    assert(word_run(g, owner, cur, dir) =~= Seq::<Coordinate>::empty());
                    assert(run@ =~= run@ + word_run(g, owner, cur, dir));
                }
                break ;
            }
            match self.get(next) {
                Ok(Square::Occupied(p, _)) if p == owner => {
                    proof {
                        assert(next.y < g.len() && next.x < g[next.y as int].len());
                        match dir {
                            Direction::South => {
                                assert(next.y == cur.y + 1);
                            },
                            Direction::North => {
                                assert(next.y == cur.y - 1);
                            },
                            Direction::East => {
                                assert(next.y == cur.y && next.x == cur.x + 1);
                            },
                            Direction::West => {
                                assert(next.y == cur.y && next.x == cur.x - 1);
                            },
                            _ => {
                                assert(false);
                            },
                        }
                        assert(0 <= run_measure(g, next, dir) && run_measure(g, next, dir)
                            < run_measure(g, cur, dir));
                        assert(word_run(g, owner, cur, dir) == seq![next] + word_run(
                            g,
                            owner,
                            next,
                            dir,
                        ));
                    }
                    run.push(next);
                    proof {
                        assert(run@ + word_run(g, owner, next, dir) =~= run@.drop_last() + (seq![
                            next,
                        ] + word_run(g, owner, next, dir)));
                    }
                    cur = next;
                },
                _ => {
                    proof {
                        assert(word_run(g, owner, cur, dir) =~= Seq::<Coordinate>::empty());
                        assert(run@ =~= run@ + word_run(g, owner, cur, dir));
                    }
                    break ;
                },
            }
        }
        run
    }

    /// The words through `position`, re-oriented to their owner's reading
    /// direction: nothing for an unoccupied cell, otherwise the vertical
    /// and horizontal words with one-letter words dropped unless the cell
    /// is isolated on both axes.
    pub fn get_words(&self, position: Coordinate) -> (r: Vec<Vec<Coordinate>>)
        requires
            self.spec_get(position) matches Ok(Square::Occupied(p, _)) ==> p
                < self.orientations@.len(),
        ensures
            words_view(r@) == spec_words(self.grid(), self.orientations@, position),
    {
        let ghost g = self.grid();
        let owner: usize;
        match self.get(position) {
            Ok(Square::Occupied(p, _)) => {
                owner = p;
            },
            _ => {
                let r: Vec<Vec<Coordinate>> = Vec::new();
                proof {
                    assert(words_view(r@) =~= spec_words(g, self.orientations@, position));
                }
                return r;
            },
        }

        let north = self.word_walk(owner, position, Direction::North);
        let south = self.word_walk(owner, position, Direction::South);
        let west = self.word_walk(owner, position, Direction::West);
        let east = self.word_walk(owner, position, Direction::East);

        let mut vertical = reverse_coords(&north);
        vertical.push(position);
        let mut si: usize = 0;
        while si < south.len()
            invariant
                si <= south@.len(),
                vertical@ == north@.reverse() + seq![position] + south@.take(si as int),
            decreases south@.len() - si,
        {
            vertical.push(south[si]);
            proof {
                assert(vertical@ =~= north@.reverse() + seq![position] + south@.take(si + 1 as int));
            }
            si = si + 1;
        }
        proof {
            assert(south@.take(south@.len() as int) =~= south@);
            assert(vertical@ == natural_vertical_word(g, owner, position));
        }

        let mut horizontal = reverse_coords(&west);
        horizontal.push(position);
        let mut ei: usize = 0;
        while ei < east.len()
            invariant
                ei <= east@.len(),
                horizontal@ == west@.reverse() + seq![position] + east@.take(ei as int),
            decreases east@.len() - ei,
        {
            horizontal.push(east[ei]);
            proof {
                assert(horizontal@ =~= west@.reverse() + seq![position] + east@.take(
                    ei + 1 as int,
                ));
            }
            ei = ei + 1;
        }
        proof {
            assert(east@.take(east@.len() as int) =~= east@);
            assert(horizontal@ == natural_horizontal_word(g, owner, position));
        }

        let orientation = self.orientations[owner];
        let vfinal: Vec<Coordinate> = if orientation.read_top_to_bottom() {
            vertical
        } else {
            reverse_coords(&vertical)
        };
        let hfinal: Vec<Coordinate> = if orientation.read_left_to_right() {
            horizontal
        } else {
            reverse_coords(&horizontal)
        };

        let mut words: Vec<Vec<Coordinate>> = Vec::new();
        if vfinal.len() == 1 && hfinal.len() == 1 {
            words.push(vfinal);
            words.push(hfinal);
        } else {
            if vfinal.len() > 1 {
                words.push(vfinal);
            }
            if hfinal.len() > 1 {
                words.push(hfinal);
            }
        }
        proof {
            assert(words_view(words@) =~= spec_words(g, self.orientations@, position));
        }
        words
    }
}

/// Every occupied cell's owner has a configured orientation.
pub open spec fn owners_oriented(g: GridModel, orientations: Seq<Direction>) -> bool {
    forall|c: Coordinate| #[trigger] owner_of(g, c) matches Some(p) ==> p < orientations.len()
}

/// The defender words contributed by a list of neighbouring squares: the
/// words through every listed cell occupied by a player other than
/// `player`, in listing order.
pub open spec fn spec_defenders(
    g: GridModel,
    orientations: Seq<Direction>,
    player: usize,
    entries: Seq<(Coordinate, Square)>,
) -> Seq<Seq<Coordinate>>
    decreases entries.len(),
{
    if entries.len() == 0 {
        seq![]
    } else {
        (match entries[0].1 {
            Square::Occupied(p, _) => if p != player {
                spec_words(g, orientations, entries[0].0)
            } else {
                seq![]
            },
            Square::Empty => seq![],
        }) + spec_defenders(g, orientations, player, entries.drop_first())
    }
}

/// The character a word string takes from a coordinate: its letter when
/// occupied, a placeholder otherwise.
pub open spec fn cell_char(g: GridModel, c: Coordinate) -> char {
    match grid_get(g, c) {
        Ok(Square::Occupied(_, letter)) => letter,
        _ => '_',
    }
}

/// A coordinate feeds a word string only when it holds a tile: an empty
/// cell, a void cell, and an out-of-range coordinate are all defects.
pub open spec fn cell_readable(g: GridModel, c: Coordinate) -> bool {
    grid_get(g, c) matches Ok(Square::Occupied(_, _))
}

/// Every coordinate of every word holds a tile.
pub open spec fn words_all_readable(g: GridModel, ws: Seq<Seq<Coordinate>>) -> bool {
    forall|k: int, i: int|
        0 <= k < ws.len() && 0 <= i < ws[k].len() ==> cell_readable(g, #[trigger] ws[k][i])
}

/// The letters of one word.
pub open spec fn word_chars(g: GridModel, w: Seq<Coordinate>) -> Seq<char> {
    w.map_values(|c: Coordinate| cell_char(g, c))
}

/// The strings of a list of words.
pub open spec fn strings_view(ss: Seq<String>) -> Seq<Seq<char>> {
    ss.map_values(|s: String| s@)
}

impl Board {
    /// The combat candidates for a tile at `position`: the attacker words
    /// through the tile itself, and the defender words through every
    /// neighbouring cell occupied by another player.
    pub fn collect_combanants(&self, player: usize, position: Coordinate) -> (r: (
        Vec<Vec<Coordinate>>,
        Vec<Vec<Coordinate>>,
    ))
        requires
            position.x < usize::MAX,
            position.y < usize::MAX,
            owners_oriented(self.grid(), self.orientations@),
        ensures
            words_view(r.0@) == spec_words(self.grid(), self.orientations@, position),
            words_view(r.1@) == spec_defenders(
                self.grid(),
                self.orientations@,
                player,
                spec_neighbouring_squares(self.grid(), position),
            ),
    {
        let ghost g = self.grid();
        let ghost orients = self.orientations@;
        proof {
            match grid_get(g, position) {
                Ok(Square::Occupied(op, _)) => {
                    assert(owner_of(g, position) == Some(op));
                },
                _ => {},
            }
        }
        let attackers = self.get_words(position);
        let ns = self.neighbouring_squares(position);
        let mut defenders: Vec<Vec<Coordinate>> = Vec::new();
        proof {
            assert(ns@.subrange(0, ns@.len() as int) =~= ns@);
            assert(words_view(defenders@) =~= Seq::<Seq<Coordinate>>::empty());
        }
        let mut i: usize = 0;
        while i < ns.len()
            invariant
                g == self.grid(),
                orients == self.orientations@,
                owners_oriented(g, orients),
                i <= ns@.len(),
                ns@ == spec_neighbouring_squares(g, position),
                spec_defenders(g, orients, player, ns@) == words_view(defenders@)
                    + spec_defenders(g, orients, player, ns@.subrange(i as int, ns@.len() as int)),
            decreases ns@.len() - i,
        {
            let ghost rest = ns@.subrange(i as int, ns@.len() as int);
            proof {
                assert(rest[0] == ns@[i as int]);
                assert(rest.drop_first() =~= ns@.subrange(i + 1 as int, ns@.len() as int));
                assert(spec_defenders(g, orients, player, rest) == (match ns@[i as int].1 {
                    Square::Occupied(p, _) => if p != player {
                        spec_words(g, orients, ns@[i as int].0)
                    } else {
                        Seq::<Seq<Coordinate>>::empty()
                    },
                    Square::Empty => Seq::<Seq<Coordinate>>::empty(),
                }) + spec_defenders(g, orients, player, rest.drop_first()));
            }
            let (c, sq) = ns[i];
            let fight = match sq {
                Square::Occupied(p, _) => p != player,
                Square::Empty => false,
            };
            if fight {
                proof {
                    match grid_get(g, c) {
                        Ok(Square::Occupied(op, _)) => {
                            assert(owner_of(g, c) == Some(op));
                        },
                        _ => {},
                    }
                }
                let words = self.get_words(c);
                let ghost d0 = defenders@;
                let mut wi: usize = 0;
                while wi < words.len()
                    invariant
                        wi <= words@.len(),
                        words_view(defenders@) =~= words_view(d0) + words_view(
                            words@.take(wi as int),
                        ),
                    decreases words@.len() - wi,
                {
                    let nv = copy_coords(&words[wi]);
                    let ghost nvv = nv@;
                    let ghost dprev = defenders@;
                    defenders.push(nv);
                    proof {
                        assert(nvv == words@[wi as int]@);
                        assert(words_view(dprev).len() == dprev.len());
                        assert(words_view(d0).len() == d0.len());
                        assert(words_view(words@.take(wi as int)).len() == wi);
                        assert(words_view(words@.take(wi + 1 as int)).len() == wi + 1);
                        assert(dprev.len() == d0.len() + wi);
                        assert(defenders@.len() == dprev.len() + 1);
                        assert(words_view(defenders@).len() == defenders@.len());
                        assert(words@.take(wi + 1 as int) =~= words@.take(wi as int).push(
                            words@[wi as int],
                        ));
                        assert forall|k: int| 0 <= k < defenders@.len() implies words_view(
                            defenders@,
                        )[k] == (words_view(d0) + words_view(words@.take(wi + 1 as int)))[k] by {
                            if k < dprev.len() {
                                assert(words_view(defenders@)[k] == dprev[k]@);
                                assert(words_view(dprev)[k] == dprev[k]@);
                            } else {
                                assert(words_view(defenders@)[k] == nvv);
                            }
                        }
                        assert(words_view(defenders@) =~= words_view(d0) + words_view(
                            words@.take(wi + 1 as int),
                        ));
                    }
                    wi = wi + 1;
                }
                proof {
                    assert(words@.take(words@.len() as int) =~= words@);
                    assert(words_view(defenders@) =~= words_view(d0) + spec_words(g, orients, c));
                }
            }
            i = i + 1;
        }
        proof {
            assert(ns@.subrange(ns@.len() as int, ns@.len() as int) =~= Seq::<
                (Coordinate, Square),
            >::empty());
        }
        (attackers, defenders)
    }
}


impl Board {
    /// Converts coordinate words to letter strings for dictionary lookup.
    /// Succeeds exactly when every coordinate of every word holds a tile;
    /// a word containing an empty cell, a void cell, or an out-of-range
    /// coordinate fails the whole call with the empty-square error.
    pub fn word_strings(&self, coordinates: &Vec<Vec<Coordinate>>) -> (r: Result<
        Vec<String>,
        GamePlayError,
    >)
        ensures
            r is Ok <==> words_all_readable(self.grid(), words_view(coordinates@)),
            !words_all_readable(self.grid(), words_view(coordinates@)) ==> r == Err::<
                Vec<String>,
                GamePlayError,
            >(GamePlayError::EmptySquareInWord),
            r matches Ok(ss) ==> strings_view(ss@) == words_view(coordinates@).map_values(
                |w: Seq<Coordinate>| word_chars(self.grid(), w),
            ),
    {
        let ghost g = self.grid();
        let ghost ws = words_view(coordinates@);
        let mut err: Option<GamePlayError> = None;
        let mut strings: Vec<String> = Vec::new();
        proof {
            assert(strings_view(strings@) =~= Seq::<Seq<char>>::empty());
        }
        let mut i: usize = 0;
        while i < coordinates.len()
            invariant
                g == self.grid(),
                ws == words_view(coordinates@),
                i <= ws.len(),
                err is None <==> (forall|k: int, m: int|
                    0 <= k < i && 0 <= m < ws[k].len() ==> cell_readable(g, #[trigger] ws[k][m])),
                err is None || err == Some(GamePlayError::EmptySquareInWord),
                strings_view(strings@) =~= ws.subrange(0, i as int).map_values(
                    |w: Seq<Coordinate>| word_chars(g, w),
                ),
            decreases ws.len() - i,
        {
            let word = &coordinates[i];
            let ghost err_at_word = err;
            let mut s = String::new();
            let mut j: usize = 0;
            while j < word.len()
                invariant
                    g == self.grid(),
                    word@ == words_view(coordinates@)[i as int],
                    i < words_view(coordinates@).len(),
                    j <= word@.len(),
                    err is None <==> (err_at_word is None && (forall|m: int|
                        0 <= m < j ==> cell_readable(g, #[trigger] word@[m]))),
                    err is None || err == Some(GamePlayError::EmptySquareInWord),
                    err_at_word is None || err_at_word == Some(GamePlayError::EmptySquareInWord),
                    s@ =~= word_chars(g, word@.take(j as int)),
                decreases word@.len() - j,
            {
                let c = word[j];
                match self.get(c) {
                    Ok(Square::Occupied(_, letter)) => {
                        crate::strutil::push_char(&mut s, letter);
                        proof {
                            assert(cell_readable(g, word@[j as int]));
                        }
                    },
                    _ => {
                        err = Some(GamePlayError::EmptySquareInWord);
                        crate::strutil::push_char(&mut s, '_');
                        proof {
                            assert(!cell_readable(g, word@[j as int]));
                        }
                    },
                }
                proof {
                    assert(s@ =~= word_chars(g, word@.take(j + 1 as int)));
                    assert((err is None) <==> (err_at_word is None && (forall|m: int|
                        0 <= m < j + 1 ==> cell_readable(g, #[trigger] word@[m])))) by {
                        if err is None {
                            assert(cell_readable(g, word@[j as int]));
                            assert forall|m: int| 0 <= m < j + 1 implies cell_readable(
                                g,
                                #[trigger] word@[m],
                            ) by {}
                        }
                    }
                }
                j = j + 1;
            }
            proof {
                assert(word@.take(word@.len() as int) =~= word@);
                assert((err is None) <==> (forall|k: int, m: int|
                    0 <= k < i + 1 && 0 <= m < ws[k].len() ==> cell_readable(
                        g,
                        #[trigger] ws[k][m],
                    ))) by {
                    assert(ws[i as int] == word@);
                    if err is None {
                        assert forall|k: int, m: int|
                            0 <= k < i + 1 && 0 <= m < ws[k].len() implies cell_readable(
                            g,
                            #[trigger] ws[k][m],
                        ) by {
                            if k == i {
                                assert(cell_readable(g, word@[m]));
                            }
                        }
                    } else {
                        if err_at_word is None {
                            let m = choose|m: int|
                                0 <= m < word@.len() && !cell_readable(g, #[trigger] word@[m]);
                            assert(!cell_readable(g, ws[i as int][m]));
                        } else {
                            let (k, m) = choose|k: int, m: int|
                                0 <= k < i && 0 <= m < ws[k].len() && !cell_readable(
                                    g,
                                    #[trigger] ws[k][m],
                                );
                            assert(!cell_readable(g, ws[k][m]));
                        }
                    }
                }
            }
            let ghost sv = s@;
            let ghost sprev = strings@;
            proof {
                assert(strings_view(sprev).len() == sprev.len());
                assert(sprev.len() == i);
            }
            strings.push(s);
            proof {
                assert(strings_view(strings@).len() == strings@.len());
                assert(strings@.len() == i + 1);
                assert forall|k: int| 0 <= k < strings@.len() implies strings_view(strings@)[k]
                    == ws.subrange(0, i + 1 as int).map_values(
                    |w: Seq<Coordinate>| word_chars(g, w),
                )[k] by {
                    if k < i {
                        assert(strings_view(strings@)[k] == strings@[k]@);
                        assert(strings@[k] == sprev[k]);
                        assert(strings_view(sprev)[k] == sprev[k]@);
                        assert(ws.subrange(0, i + 1 as int)[k] == ws.subrange(0, i as int)[k]);
                    } else {
                        assert(strings_view(strings@)[k] == sv);
                        assert(ws.subrange(0, i + 1 as int)[k] == word@);
                    }
                }
                assert(strings_view(strings@) =~= ws.subrange(0, i + 1 as int).map_values(
                    |w: Seq<Coordinate>| word_chars(g, w),
                ));
            }
            i = i + 1;
        }
        proof {
            assert(ws.subrange(0, ws.len() as int) =~= ws);
            assert((err is None) <==> words_all_readable(g, ws));
        }
        match err {
            Some(e) => {
                proof {
                    assert(e == GamePlayError::EmptySquareInWord);
                }
                Err(e)
            },
            None => Ok(strings),
        }
    }

    /// The row or column of cells one step inside the given edge: for the
    /// east and west edges the coordinates still number one per column of
    /// the board, as wide boards read them; diagonals yield nothing.
    pub fn get_near_edge(&self, side: Direction) -> (r: Vec<Coordinate>)
        requires
            self.grid().len() > 0,
            side == Direction::South ==> self.grid().len() >= 2,
            side == Direction::East ==> self.grid()[0].len() >= 2,
        ensures
            r@ == spec_near_edge(self.grid(), side),
    {
        let ghost g = self.grid();
        let w = self.width();
        let h = self.height();
        let mut r: Vec<Coordinate> = Vec::new();
        match side {
            Direction::North => {
                let mut x: usize = 0;
                while x < w
                    invariant
                        x <= w,
                        r@ =~= Seq::new(x as nat, |k: int| Coordinate { x: k as usize, y: 1 }),
                    decreases w - x,
                {
                    r.push(Coordinate { x, y: 1 });
                    proof {
                        assert(r@ =~= Seq::new(
                            (x + 1) as nat,
                            |k: int| Coordinate { x: k as usize, y: 1 },
                        ));
                    }
                    x = x + 1;
                }
            },
            Direction::South => {
                let mut x: usize = 0;
                while x < w
                    invariant
                        x <= w,
                        h == g.len() && h >= 2,
                        r@ =~= Seq::new(
                            x as nat,
                            |k: int| Coordinate { x: k as usize, y: (g.len() - 2) as usize },
                        ),
                    decreases w - x,
                {
                    r.push(Coordinate { x, y: h - 2 });
                    proof {
                        assert(r@ =~= Seq::new(
                            (x + 1) as nat,
                            |k: int| Coordinate { x: k as usize, y: (g.len() - 2) as usize },
                        ));
                    }
                    x = x + 1;
                }
            },
            Direction::East => {
                let mut y: usize = 0;
                while y < w
                    invariant
                        y <= w,
                        w == g[0].len() && w >= 2,
                        r@ =~= Seq::new(
                            y as nat,
                            |k: int| Coordinate { x: (g[0].len() - 2) as usize, y: k as usize },
                        ),
                    decreases w - y,
                {
                    r.push(Coordinate { x: w - 2, y });
                    proof {
                        assert(r@ =~= Seq::new(
                            (y + 1) as nat,
                            |k: int| Coordinate { x: (g[0].len() - 2) as usize, y: k as usize },
                        ));
                    }
                    y = y + 1;
                }
            },
            Direction::West => {
                let mut y: usize = 0;
                while y < w
                    invariant
                        y <= w,
                        r@ =~= Seq::new(y as nat, |k: int| Coordinate { x: 1, y: k as usize }),
                    decreases w - y,
                {
                    r.push(Coordinate { x: 1, y });
                    proof {
                        assert(r@ =~= Seq::new(
                            (y + 1) as nat,
                            |k: int| Coordinate { x: 1, y: k as usize },
                        ));
                    }
                    y = y + 1;
                }
            },
            _ => {},
        }
        proof {
            assert(r@ =~= spec_near_edge(g, side));
        }
        r
    }
}

/// The coordinates `get_near_edge` returns for each side.
pub open spec fn spec_near_edge(g: GridModel, side: Direction) -> Seq<Coordinate> {
    match side {
        Direction::North => Seq::new(g[0].len(), |k: int| Coordinate { x: k as usize, y: 1 }),
        Direction::South => Seq::new(
            g[0].len(),
            |k: int| Coordinate { x: k as usize, y: (g.len() - 2) as usize },
        ),
        Direction::East => Seq::new(
            g[0].len(),
            |k: int| Coordinate { x: (g[0].len() - 2) as usize, y: k as usize },
        ),
        Direction::West => Seq::new(g[0].len(), |k: int| Coordinate { x: 1, y: k as usize }),
        _ => seq![],
    }
}

} // verus!