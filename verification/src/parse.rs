//! The board-from-string importer: the inverse of the snapshot rendering,
//! used by tooling and tests.
//!
//! Rows are lines of single characters separated by spaces: a blank is a
//! void cell, an underscore an empty one, anything else a letter owned by
//! player zero. After parsing, the letters connected to each declared root
//! are reassigned to that root's player, in root order.

use vstd::prelude::*;
use vstd::std_specs::iter::IteratorSpec;

use crate::board::Board;
use crate::board::GridModel;
use crate::board::grid_get;
use crate::board::rows_view;
use crate::connect::letter_of;
use crate::connect::reaches;
use crate::geometry::Coordinate;
use crate::geometry::Direction;
use crate::square::Square;

verus! {

broadcast use vstd::string::group_string_axioms;

/// The lines of a character sequence, split on newlines; one empty line
/// for the empty sequence, matching how strings split.
pub open spec fn split_acc(cs: Seq<char>) -> Seq<Seq<char>>
    decreases cs.len(),
{
    if cs.len() == 0 {
        seq![Seq::<char>::empty()]
    } else if cs.last() == '\n' {
        split_acc(cs.drop_last()).push(Seq::<char>::empty())
    } else {
        let r = split_acc(cs.drop_last());
        r.update(r.len() - 1, r.last().push(cs.last()))
    }
}

pub proof fn lemma_split_acc_nonempty(cs: Seq<char>)
    ensures
        split_acc(cs).len() >= 1,
    decreases cs.len(),
{
    if cs.len() > 0 {
        lemma_split_acc_nonempty(cs.drop_last());
    }
}

/// Every character at an odd position of the line is the space separator.
pub open spec fn line_ok(line: Seq<char>) -> bool {
    forall|i: int| 0 <= i < line.len() && i % 2 == 1 ==> #[trigger] line[i] == ' '
}

pub open spec fn all_seps_ok(lines: Seq<Seq<char>>) -> bool {
    forall|l: int| 0 <= l < lines.len() ==> line_ok(#[trigger] lines[l])
}

/// The cell one glyph denotes.
pub open spec fn cell_of(c: char) -> Option<Square> {
    if c == ' ' {
        None
    } else if c == '_' {
        Some(Square::Empty)
    } else {
        Some(Square::Occupied(0usize, c))
    }
}

/// The cells of one line: the characters at even positions.
pub open spec fn parse_line(line: Seq<char>) -> Seq<Option<Square>> {
    Seq::new(((line.len() + 1) / 2) as nat, |k: int| cell_of(line[2 * k]))
}

pub open spec fn parsed_lines(lines: Seq<Seq<char>>) -> GridModel {
    lines.map_values(|l: Seq<char>| parse_line(l))
}

/// Rows of unequal length.
pub open spec fn jagged(g: GridModel) -> bool {
    exists|k: int| 1 <= k < g.len() && (#[trigger] g[k]).len() != g[0].len()
}

/// One player's reassignment pass: every cell in the group of `root` (on
/// the grid as it stands) becomes that player's, keeping its letter.
pub open spec fn grid_assign(g: GridModel, root: Coordinate, player: usize) -> GridModel {
    Seq::new(
        g.len(),
        |i: int|
            Seq::new(
                g[i].len(),
                |j: int|
                    if reaches(g, root, Coordinate { x: j as usize, y: i as usize }) {
                        Some(
                            Square::Occupied(
                                player,
                                letter_of(g, Coordinate { x: j as usize, y: i as usize }),
                            ),
                        )
                    } else {
                        g[i][j]
                    },
            ),
    )
}

/// The grid after the reassignment passes of players one through
/// `player_count - 1`, in order; player zero's cells are the default.
pub open spec fn reassigned(g: GridModel, roots: Seq<Coordinate>, player_count: int) -> GridModel
    decreases player_count,
{
    if player_count <= 1 {
        g
    } else {
        grid_assign(
            reassigned(g, roots, player_count - 1),
            roots[player_count - 1],
            (player_count - 1) as usize,
        )
    }
}

/// The reassignment passes keep every row's length.
proof fn lemma_reassigned_dims(g: GridModel, roots: Seq<Coordinate>, player_count: int)
    ensures
        reassigned(g, roots, player_count).len() == g.len(),
        forall|i: int|
            0 <= i < g.len() ==> (#[trigger] reassigned(g, roots, player_count)[i]).len()
                == g[i].len(),
    decreases player_count,
{
    if player_count > 1 {
        lemma_reassigned_dims(g, roots, player_count - 1);
    }
}

/// Establishes that a grid held in vectors has machine-bounded dimensions.
fn note_grid_bounded(v: &Vec<Vec<Option<Square>>>)
    ensures
        crate::connect::grid_bounded(rows_view(v@)),
{
    let mut i: usize = 0;
    while i < v.len()
        invariant
            i <= v@.len(),
            forall|k: int|
                0 <= k < i ==> (#[trigger] rows_view(v@)[k]).len() <= usize::MAX,
        decreases v@.len() - i,
    {
        let l = v[i].len();
        proof {
            assert(rows_view(v@)[i as int].len() == l);
        }
        i = i + 1;
    }
}

/// Collects a string's characters.
fn str_chars(s: &str) -> (r: Vec<char>)
    ensures
        r@ == s@,
{
    let mut it = s.chars();
    let mut r: Vec<char> = Vec::new();
    loop
        invariant_except_break
            it.obeys_prophetic_iter_laws(),
            it.decrease() is Some,
            r@ + it.remaining() == s@,
        ensures
            r@ == s@,
        decreases it.decrease()->0,
    {
        match it.next() {
            Some(c) => {
                r.push(c);
                proof {
                    assert(r@ + it.remaining() =~= s@);
                }
            },
            None => {
                proof {
                    assert(r@ =~= s@);
                }
                break ;
            },
        }
    }
    r
}

/// Imports a board from its snapshot grid text (without the root line),
/// with the players' roots and orientations supplied separately. Parsing
/// fails on a missing root or orientation, a missing separator, or jagged
/// rows, in that order of checks; otherwise letters connected to each root
/// are reassigned to its player, in root order, and the board is returned.
#[verifier::loop_isolation(false)]
pub fn from_string(s: String, roots: Vec<Coordinate>, orientations: Vec<Direction>) -> (r: Result<
    Board,
    &'static str,
>)
    ensures
        roots@.len() != orientations@.len() ==> (r matches Err(m) && m@
            == "Every player needs a root and orientation"@),
        roots@.len() == orientations@.len() && !all_seps_ok(split_acc(s@)) ==> (r matches Err(m)
            && m@ == "board strings should have spaces to separate each tile"@),
        roots@.len() == orientations@.len() && all_seps_ok(split_acc(s@)) && jagged(
            parsed_lines(split_acc(s@)),
        ) ==> (r matches Err(m) && m@ == "Unequal line lengths"@),
        roots@.len() == orientations@.len() && all_seps_ok(split_acc(s@)) && !jagged(
            parsed_lines(split_acc(s@)),
        ) ==> (r matches Ok(b) && b.grid() == reassigned(
            parsed_lines(split_acc(s@)),
            roots@,
            roots@.len() as int,
        ) && b.roots@ == roots@ && b.orientations@ == orientations@),
{
    if roots.len() != orientations.len() {
        return Err("Every player needs a root and orientation");
    }

    let cs = str_chars(s.as_str());
    let ghost full = s@;
    let mut rows: Vec<Vec<Option<Square>>> = Vec::new();
    let mut cur: Vec<Option<Square>> = Vec::new();
    let mut pos: usize = 0;
    let mut bad = false;
    let mut ci: usize = 0;
    proof {
        assert(cs@.take(0) =~= Seq::<char>::empty());
        assert(split_acc(cs@.take(0)) == seq![Seq::<char>::empty()]);
        assert(parse_line(Seq::<char>::empty()) =~= Seq::<Option<Square>>::empty());
        assert(rows_view(rows@) =~= parsed_lines(split_acc(cs@.take(0)).drop_last()));
    }
    while ci < cs.len()
        invariant
            ci <= cs@.len(),
            cs@ == full,
            ({
                let lines = split_acc(cs@.take(ci as int));
                &&& lines.len() >= 1
                &&& rows@.len() + 1 == lines.len()
                &&& rows_view(rows@) == parsed_lines(lines.drop_last())
                &&& cur@ == parse_line(lines.last())
                &&& pos == lines.last().len()
                &&& pos <= ci
                &&& bad == !all_seps_ok(lines)
            }),
        decreases cs@.len() - ci,
    {
        let ghost prefix = cs@.take(ci as int);
        let ghost lines = split_acc(prefix);
        let ghost prefix1 = cs@.take(ci + 1 as int);
        proof {
            assert(prefix1.drop_last() =~= prefix);
            assert(prefix1.last() == cs@[ci as int]);
            lemma_split_acc_nonempty(prefix);
        }
        let c = cs[ci];
        if c == '\n' {
            let ghost lines1 = split_acc(prefix1);
            proof {
                assert(lines1 == lines.push(Seq::<char>::empty()));
            }
            let done = cur;
            cur = Vec::new();
            let ghost prev_rows = rows@;
            rows.push(done);
            pos = 0;
            proof {
                crate::board::lemma_rows_view_push(prev_rows, rows@[rows@.len() - 1]);
                assert(lines1.drop_last() =~= lines);
                assert forall|k: int| 0 <= k < lines.len() implies parsed_lines(lines)[k]
                    == rows_view(rows@)[k] by {
                    if k < lines.len() - 1 {
                        assert(parsed_lines(lines.drop_last())[k] == parse_line(
                            lines.drop_last()[k],
                        ));
                        assert(rows_view(prev_rows)[k] == parsed_lines(lines.drop_last())[k]);
                    } else {
                        assert(parsed_lines(lines)[k] == parse_line(lines.last()));
                    }
                }
                assert(rows_view(rows@) =~= parsed_lines(lines1.drop_last()));
                assert(parse_line(Seq::<char>::empty()) =~= Seq::<Option<Square>>::empty());
                assert(cur@ == parse_line(lines1.last()));
                // An empty new line violates no separator rule.
                assert(line_ok(Seq::<char>::empty()));
                assert(all_seps_ok(lines1) <==> all_seps_ok(lines)) by {
                    if all_seps_ok(lines) {
                        assert forall|l: int| 0 <= l < lines1.len() implies line_ok(
                            #[trigger] lines1[l],
                        ) by {
                            if l < lines.len() {
                                assert(lines1[l] == lines[l]);
                            } else {
                                assert(lines1[l] =~= Seq::<char>::empty());
                            }
                        }
                    }
                    if all_seps_ok(lines1) {
                        assert forall|l: int| 0 <= l < lines.len() implies line_ok(
                            #[trigger] lines[l],
                        ) by {
                            assert(lines1[l] == lines[l]);
                        }
                    }
                }
            }
        } else {
            let ghost lines1 = split_acc(prefix1);
            let ghost oldlast = lines.last();
            let ghost newlast = lines.last().push(cs@[ci as int]);
            proof {
                assert(lines1 == lines.update(lines.len() - 1, newlast));
                assert(lines1.drop_last() =~= lines.drop_last());
                assert(lines1.last() == newlast);
                assert(lines1.len() == lines.len());
            }
            if pos % 2 == 0 {
                let cell: Option<Square> = if c == ' ' {
                    None
                } else if c == '_' {
                    Some(Square::Empty)
                } else {
                    Some(Square::Occupied(0, c))
                };
                cur.push(cell);
                proof {
                    assert(cell == cell_of(cs@[ci as int]));
                    assert(parse_line(newlast) =~= parse_line(oldlast).push(
                        cell_of(cs@[ci as int]),
                    )) by {
                        assert(parse_line(newlast).len() == (oldlast.len() + 2) / 2);
                        assert forall|k: int|
                            0 <= k < parse_line(newlast).len() implies parse_line(newlast)[k] == (
                            parse_line(oldlast).push(cell_of(cs@[ci as int])))[k] by {
                            if 2 * k < oldlast.len() {
                                assert(newlast[2 * k] == oldlast[2 * k]);
                            } else {
                                assert(2 * k == oldlast.len());
                                assert(newlast[2 * k] == cs@[ci as int]);
                            }
                        }
                    }
                    assert(cur@ == parse_line(lines1.last()));
                    // The new character sits at an even position: separators
                    // are untouched.
                    assert(all_seps_ok(lines1) <==> all_seps_ok(lines)) by {
                        if all_seps_ok(lines) {
                            assert forall|l: int| 0 <= l < lines1.len() implies line_ok(
                                #[trigger] lines1[l],
                            ) by {
                                if l < lines.len() - 1 {
                                    assert(lines1[l] == lines[l]);
                                } else {
                                    assert(lines1[l] == newlast);
                                    assert(line_ok(oldlast));
                                    assert forall|i: int|
                                        0 <= i < newlast.len() && i % 2 == 1 implies #[trigger] newlast[i]
                                        == ' ' by {
                                        assert(i != oldlast.len());
                                        assert(newlast[i] == oldlast[i]);
                                    }
                                }
                            }
                        }
                        if all_seps_ok(lines1) {
                            assert forall|l: int| 0 <= l < lines.len() implies line_ok(
                                #[trigger] lines[l],
                            ) by {
                                if l < lines.len() - 1 {
                                    assert(lines1[l] == lines[l]);
                                } else {
                                    assert(line_ok(newlast));
                                    assert forall|i: int|
                                        0 <= i < oldlast.len() && i % 2 == 1 implies #[trigger] oldlast[i]
                                        == ' ' by {
                                        assert(newlast[i] == oldlast[i]);
                                        assert(newlast[i] == ' ');
                                    }
                                }
                            }
                        }
                    }
                }
            } else {
                if c != ' ' {
                    bad = true;
                }
                proof {
                    assert(parse_line(newlast) =~= parse_line(oldlast)) by {
                        assert(parse_line(newlast).len() == (oldlast.len() + 2) / 2);
                        assert(parse_line(oldlast).len() == (oldlast.len() + 1) / 2);
                        assert forall|k: int|
                            0 <= k < parse_line(newlast).len() implies parse_line(newlast)[k]
                            == parse_line(oldlast)[k] by {
                            assert(2 * k < oldlast.len());
                            assert(newlast[2 * k] == oldlast[2 * k]);
                        }
                    }
                    assert(cur@ == parse_line(lines1.last()));
                    // The new character sits at an odd position: it must be
                    // the separator.
                    if cs@[ci as int] == ' ' {
                        assert(all_seps_ok(lines1) <==> all_seps_ok(lines)) by {
                            if all_seps_ok(lines) {
                                assert forall|l: int| 0 <= l < lines1.len() implies line_ok(
                                    #[trigger] lines1[l],
                                ) by {
                                    if l < lines.len() - 1 {
                                        assert(lines1[l] == lines[l]);
                                    } else {
                                        assert(line_ok(oldlast));
                                        assert forall|i: int|
                                            0 <= i < newlast.len() && i % 2 == 1 implies #[trigger] newlast[i]
                                            == ' ' by {
                                            if i < oldlast.len() {
                                                assert(newlast[i] == oldlast[i]);
                                            } else {
                                                assert(newlast[i] == ' ');
                                            }
                                        }
                                    }
                                }
                            }
                            if all_seps_ok(lines1) {
                                assert forall|l: int| 0 <= l < lines.len() implies line_ok(
                                    #[trigger] lines[l],
                                ) by {
                                    if l < lines.len() - 1 {
                                        assert(lines1[l] == lines[l]);
                                    } else {
                                        assert(line_ok(newlast));
                                        assert forall|i: int|
                                            0 <= i < oldlast.len() && i % 2 == 1 implies #[trigger] oldlast[i]
                                            == ' ' by {
                                            assert(newlast[i] == oldlast[i]);
                                            assert(newlast[i] == ' ');
                                        }
                                    }
                                }
                            }
                        }
                    } else {
                        assert(!all_seps_ok(lines1)) by {
                            assert(lines1[lines1.len() - 1] == newlast);
                            assert(newlast[oldlast.len() as int] == cs@[ci as int]);
                            assert(oldlast.len() % 2 == 1);
                            assert(!line_ok(newlast));
                        }
                    }
                }
            }
            pos = pos + 1;
        }
        ci = ci + 1;
    }
    proof {
        assert(cs@.take(cs@.len() as int) =~= cs@);
    }
    let ghost lines = split_acc(full);
    let ghost prev_rows = rows@;
    rows.push(cur);
    proof {
        crate::board::lemma_rows_view_push(prev_rows, rows@[rows@.len() - 1]);
        assert forall|k: int| 0 <= k < lines.len() implies parsed_lines(lines)[k] == rows_view(
            rows@,
        )[k] by {
            if k < lines.len() - 1 {
                assert(parsed_lines(lines.drop_last())[k] == parse_line(lines.drop_last()[k]));
                assert(rows_view(prev_rows)[k] == parsed_lines(lines.drop_last())[k]);
            } else {
                assert(parsed_lines(lines)[k] == parse_line(lines.last()));
            }
        }
        assert(rows_view(rows@) =~= parsed_lines(lines));
    }

    if bad {
        return Err("board strings should have spaces to separate each tile");
    }

    // Reject jagged grids.
    let w0 = rows[0].len();
    let mut k: usize = 1;
    while k < rows.len()
        invariant
            1 <= k <= rows@.len(),
            rows_view(rows@) == parsed_lines(split_acc(full)),
            w0 == rows_view(rows@)[0].len(),
            forall|m: int| 1 <= m < k ==> (#[trigger] rows_view(rows@)[m]).len() == w0,
        decreases rows@.len() - k,
    {
        if rows[k].len() != w0 {
            proof {
                assert(rows_view(rows@)[k as int].len() != w0);
                assert(jagged(parsed_lines(split_acc(full))));
            }
            return Err("Unequal line lengths");
        }
        k = k + 1;
    }
    proof {
        assert(!jagged(parsed_lines(split_acc(full))));
    }

    // Reassign letters connected to each later player's root.
    note_grid_bounded(&rows);
    let ghost g0 = parsed_lines(split_acc(full));
    let ghost roots_v = roots@;
    let ghost orients_v = orientations@;
    let mut board = Board { squares: rows, roots, orientations };
    proof {
        assert(board.grid() == reassigned(g0, roots_v, 1));
        if board.roots@.len() == 0 {
            assert(board.grid() == reassigned(g0, roots_v, 0));
        }
    }
    let mut p: usize = 1;
    while p < board.roots.len()
        invariant
            1 <= p,
            roots_v.len() == 0 ==> p == 1,
            board.roots@.len() > 0 ==> p <= board.roots@.len(),
            board.roots@ == roots_v,
            board.orientations@ == orients_v,
            board.grid() == reassigned(g0, roots_v, p as int),
            crate::connect::grid_bounded(g0),
        decreases board.roots@.len() - p,
    {
        let root = board.roots[p];
        let ghost gp = board.grid();
        proof {
            lemma_reassigned_dims(g0, roots_v, p as int);
            assert(crate::connect::grid_bounded(gp)) by {
                assert forall|i: int| 0 <= i < gp.len() implies (#[trigger] gp[i]).len()
                    <= usize::MAX by {
                    assert(gp[i].len() == g0[i].len());
                }
            }
        }
        let group = board.depth_first_search(root);
        let mut gi: usize = 0;
        while gi < group.len()
            invariant
                gi <= group@.len(),
                board.roots@ == roots_v,
                board.orientations@ == orients_v,
                p < roots_v.len(),
                root == roots_v[p as int],
                group@.no_duplicates(),
                forall|c: Coordinate| group@.contains(c) <==> reaches(gp, root, c),
                board.grid().len() == gp.len(),
                forall|i: int| 0 <= i < gp.len() ==> (#[trigger] board.grid()[i]).len()
                    == gp[i].len(),
                forall|i: int, j: int|
                    0 <= i < gp.len() && 0 <= j < gp[i].len() ==> #[trigger] board.grid()[i][j] == (
                    if group@.take(gi as int).contains(Coordinate { x: j as usize, y: i as usize }) {
                        Some(
                            Square::Occupied(
                                p,
                                letter_of(gp, Coordinate { x: j as usize, y: i as usize }),
                            ),
                        )
                    } else {
                        gp[i][j]
                    }),
            decreases group@.len() - gi,
        {
            let c = group[gi];
            proof {
                assert(group@.contains(c));
                crate::connect::lemma_reaches_owner(gp, root, c);
                assert(c.y < gp.len() && c.x < gp[c.y as int].len());
                if group@.take(gi as int).contains(c) {
                    let t = choose|t: int|
                        0 <= t < gi && #[trigger] group@.take(gi as int)[t] == c;
                    assert(group@[t] == group@[gi as int]);
                    assert(false);
                }
                assert(board.grid()[c.y as int][c.x as int] == gp[c.y as int][c.x as int]);
                assert(grid_get(board.grid(), c) == grid_get(gp, c));
            }
            match board.get(c) {
                Ok(Square::Occupied(_, letter)) => {
                    proof {
                        assert(letter == letter_of(gp, c));
                    }
                    let ghost gb = board.grid();
                    match board.set(c, p, letter) {
                        Ok(_) => {},
                        Err(_) => {
                            proof {
                                assert(false);
                            }
                        },
                    }
                    proof {
                        assert(board.grid() == crate::board::grid_update(
                            gb,
                            c,
                            Square::Occupied(p, letter),
                        ));
                        assert(group@.take(gi + 1 as int) =~= group@.take(gi as int).push(c));
                        assert forall|i: int, j: int|
                            0 <= i < gp.len() && 0 <= j < gp[i].len() implies #[trigger] board.grid()[i][j]
                            == (if group@.take(gi + 1 as int).contains(
                            Coordinate { x: j as usize, y: i as usize },
                        ) {
                            Some(
                                Square::Occupied(
                                    p,
                                    letter_of(gp, Coordinate { x: j as usize, y: i as usize }),
                                ),
                            )
                        } else {
                            gp[i][j]
                        }) by {
                            let d = Coordinate { x: j as usize, y: i as usize };
                            if d == c {
                                assert(group@.take(gi + 1 as int).contains(c)) by {
                                    assert(group@.take(gi + 1 as int)[gi as int] == c);
                                }
                            } else {
                                assert(board.grid()[i][j] == gb[i][j]);
                                assert(group@.take(gi + 1 as int).contains(d) == group@.take(
                                    gi as int,
                                ).contains(d)) by {
                                    if group@.take(gi + 1 as int).contains(d) {
                                        let t = choose|t: int|
                                            0 <= t < gi + 1 && #[trigger] group@.take(
                                                gi + 1 as int,
                                            )[t] == d;
                                        assert(t < gi);
                                        assert(group@.take(gi as int)[t] == d);
                                    }
                                    if group@.take(gi as int).contains(d) {
                                        let t = choose|t: int|
                                            0 <= t < gi && #[trigger] group@.take(gi as int)[t]
                                                == d;
                                        assert(group@.take(gi + 1 as int)[t] == d);
                                    }
                                }
                            }
                        }
                    }
                },
                _ => {
                    proof {
                        assert(false);
                    }
                },
            }
            gi = gi + 1;
        }
        proof {
            assert(group@.take(group@.len() as int) =~= group@);
            let ga = grid_assign(gp, root, p);
            assert(ga.len() == gp.len());
            assert forall|i: int| 0 <= i < gp.len() implies board.grid()[i] == ga[i] by {
                assert(ga[i].len() == gp[i].len());
                assert forall|j: int| 0 <= j < gp[i].len() implies board.grid()[i][j] == ga[i][j] by {
                    let d = Coordinate { x: j as usize, y: i as usize };
                    assert(board.grid()[i][j] == (if group@.contains(d) {
                        Some(Square::Occupied(p, letter_of(gp, d)))
                    } else {
                        gp[i][j]
                    }));
                }
                assert(board.grid()[i] =~= ga[i]);
            }
            assert(board.grid() =~= ga);
            assert(reassigned(g0, roots_v, p + 1 as int) == grid_assign(
                reassigned(g0, roots_v, p as int),
                roots_v[p as int],
                p,
            ));
        }
        p = p + 1;
    }
    proof {
        if roots_v.len() == 0 {
            assert(reassigned(g0, roots_v, 0) == g0);
            assert(board.grid() == reassigned(g0, roots_v, 1));
            assert(reassigned(g0, roots_v, 1) == g0);
        }
        assert(board.grid() == reassigned(g0, roots_v, roots_v.len() as int));
    }
    Ok(board)
}

/// No cell of the grid holds a tile.
pub open spec fn grid_unoccupied(g: GridModel) -> bool {
    forall|i: int, j: int|
        0 <= i < g.len() && 0 <= j < g[i].len() ==> !((#[trigger] g[i][j]) matches Some(
            Square::Occupied(_, _),
        ))
}

/// The rendered rows of a grid, one line each.
pub open spec fn rendered_lines(g: GridModel) -> Seq<Seq<char>> {
    Seq::new(g.len(), |i: int| crate::display::row_chars(g[i]))
}

/// Shape of a rendered row: glyphs at even positions, spaces between.
proof fn lemma_row_chars_shape(row: Seq<Option<Square>>)
    ensures
        crate::display::row_chars(row).len() == if row.len() == 0 {
            0int
        } else {
            2 * row.len() - 1
        },
        forall|i: int|
            0 <= i < crate::display::row_chars(row).len()
                ==> #[trigger] crate::display::row_chars(row)[i] == (if i % 2 == 1 {
                ' '
            } else {
                crate::display::glyph(row[i / 2])
            }),
    decreases row.len(),
{
    if row.len() > 1 {
        lemma_row_chars_shape(row.drop_last());
        let rc = crate::display::row_chars(row);
        let prev = crate::display::row_chars(row.drop_last());
        assert(rc == prev + seq![' ', crate::display::glyph(row.last())]);
        assert forall|i: int|
            0 <= i < rc.len() implies #[trigger] rc[i] == (if i % 2 == 1 {
            ' '
        } else {
            crate::display::glyph(row[i / 2])
        }) by {
            if i < prev.len() {
                assert(rc[i] == prev[i]);
                assert(row.drop_last()[i / 2] == row[i / 2]);
            } else if i == prev.len() {
                assert(i == 2 * row.len() - 3);
                assert(i % 2 == 1);
                assert(rc[i] == ' ');
            } else {
                assert(i == 2 * row.len() - 2);
                assert(i / 2 == row.len() - 1);
            }
        }
    }
}

/// A rendered unoccupied row contains no newline.
proof fn lemma_row_chars_no_newline(row: Seq<Option<Square>>)
    requires
        forall|j: int|
            0 <= j < row.len() ==> !((#[trigger] row[j]) matches Some(Square::Occupied(_, _))),
    ensures
        forall|i: int|
            0 <= i < crate::display::row_chars(row).len()
                ==> #[trigger] crate::display::row_chars(row)[i] != '\n',
{
    lemma_row_chars_shape(row);
}

/// Splitting a newline-free sequence yields that one line.
proof fn lemma_split_single_line(y: Seq<char>)
    requires
        forall|i: int| 0 <= i < y.len() ==> #[trigger] y[i] != '\n',
    ensures
        split_acc(y) == seq![y],
    decreases y.len(),
{
    if y.len() == 0 {
        assert(y =~= Seq::<char>::empty());
        assert(split_acc(y) == seq![Seq::<char>::empty()]);
        assert(seq![Seq::<char>::empty()] =~= seq![y]);
    } else {
        lemma_split_single_line(y.drop_last());
        assert(y.last() != '\n');
        let r = split_acc(y.drop_last());
        assert(r == seq![y.drop_last()]);
        assert(y.drop_last().push(y.last()) =~= y);
        assert(split_acc(y) == r.update(0, r.last().push(y.last())));
        assert(r.last() == y.drop_last());
        assert(split_acc(y) =~= seq![y]);
    }
}

/// Appending a newline and a newline-free line appends one line to the
/// split.
proof fn lemma_split_append_line(x: Seq<char>, y: Seq<char>)
    requires
        forall|i: int| 0 <= i < y.len() ==> #[trigger] y[i] != '\n',
    ensures
        split_acc(x + seq!['\n'] + y) == split_acc(x).push(y),
    decreases y.len(),
{
    lemma_split_acc_nonempty(x);
    if y.len() == 0 {
        let cs = x + seq!['\n'] + y;
        assert(cs =~= x + seq!['\n']);
        assert(cs.len() == x.len() + 1);
        assert(cs.last() == '\n');
        assert(cs.drop_last() =~= x);
        assert(split_acc(cs) == split_acc(cs.drop_last()).push(Seq::<char>::empty()));
        assert(y =~= Seq::<char>::empty());
        assert(split_acc(cs) =~= split_acc(x).push(y));
    } else {
        lemma_split_append_line(x, y.drop_last());
        let cs = x + seq!['\n'] + y;
        assert(cs.last() == y.last());
        assert(y.last() != '\n');
        assert(cs.drop_last() =~= x + seq!['\n'] + y.drop_last());
        let r = split_acc(x + seq!['\n'] + y.drop_last());
        assert(r == split_acc(x).push(y.drop_last()));
        assert(r.len() == split_acc(x).len() + 1);
        assert(r.last() == y.drop_last());
        assert(cs.len() > 0);
        assert(split_acc(cs) == split_acc(cs.drop_last()).update(
            split_acc(cs.drop_last()).len() - 1,
            split_acc(cs.drop_last()).last().push(cs.last()),
        ));
        assert(split_acc(cs.drop_last()) == r);
        assert(r.last().push(y.last()) =~= y);
        assert(split_acc(cs) == r.update(r.len() - 1, y));
        assert(r.update(r.len() - 1, y) =~= split_acc(x).push(y));
        assert(split_acc(cs) =~= split_acc(x).push(y));
    }
}

/// Splitting a rendered unoccupied grid recovers exactly the rendered rows.
proof fn lemma_grid_chars_lines(g: GridModel)
    requires
        g.len() >= 1,
        grid_unoccupied(g),
    ensures
        split_acc(crate::display::grid_chars(g)) == rendered_lines(g),
    decreases g.len(),
{
    if g.len() == 1 {
        lemma_row_chars_no_newline(g[0]);
        lemma_split_single_line(crate::display::row_chars(g[0]));
        assert(split_acc(crate::display::grid_chars(g)) =~= rendered_lines(g));
    } else {
        assert(grid_unoccupied(g.drop_last())) by {
            assert forall|i: int, j: int|
                0 <= i < g.drop_last().len() && 0 <= j < g.drop_last()[i].len() implies !((
            #[trigger] g.drop_last()[i][j]) matches Some(Square::Occupied(_, _))) by {
                assert(g.drop_last()[i] == g[i]);
                assert(!(g[i][j] matches Some(Square::Occupied(_, _))));
            }
        }
        lemma_grid_chars_lines(g.drop_last());
        lemma_row_chars_no_newline(g.last());
        lemma_split_append_line(
            crate::display::grid_chars(g.drop_last()),
            crate::display::row_chars(g.last()),
        );
        assert(crate::display::grid_chars(g) == crate::display::grid_chars(g.drop_last()) + seq![
            '\n',
        ] + crate::display::row_chars(g.last()));
        assert(split_acc(crate::display::grid_chars(g)) == rendered_lines(g.drop_last()).push(
            crate::display::row_chars(g.last()),
        ));
        assert(rendered_lines(g.drop_last()).push(crate::display::row_chars(g.last()))
            =~= rendered_lines(g));
    }
}

/// Parsing a rendered unoccupied row recovers it.
proof fn lemma_parse_rendered_row(row: Seq<Option<Square>>)
    requires
        forall|j: int|
            0 <= j < row.len() ==> !((#[trigger] row[j]) matches Some(Square::Occupied(_, _))),
    ensures
        line_ok(crate::display::row_chars(row)),
        parse_line(crate::display::row_chars(row)) == row,
{
    lemma_row_chars_shape(row);
    let rc = crate::display::row_chars(row);
    assert(parse_line(rc).len() == row.len());
    assert forall|k: int| 0 <= k < row.len() implies parse_line(rc)[k] == row[k] by {
        assert(rc[2 * k] == crate::display::glyph(row[k]));
        assert(!(row[k] matches Some(Square::Occupied(_, _))));
    }
    assert(parse_line(rc) =~= row);
}

/// Reassignment does nothing on a board without tiles.
proof fn lemma_reassign_unoccupied(g: GridModel, roots: Seq<Coordinate>, player_count: int)
    requires
        grid_unoccupied(g),
    ensures
        reassigned(g, roots, player_count) == g,
    decreases player_count,
{
    if player_count > 1 {
        lemma_reassign_unoccupied(g, roots, player_count - 1);
        let root = roots[player_count - 1];
        assert forall|c: Coordinate| !reaches(g, root, c) by {
            if crate::connect::owner_of(g, root) is Some {
                assert(grid_get(g, root) matches Ok(Square::Occupied(_, _)));
                assert(false);
            }
        }
        let ga = grid_assign(g, root, (player_count - 1) as usize);
        assert forall|i: int| 0 <= i < g.len() implies ga[i] == g[i] by {
            assert(ga[i] =~= g[i]);
        }
        assert(ga =~= g);
    }
}

/// Law: a board built by `new` survives the snapshot round trip. Rendering
/// its grid and importing the text with the board's own roots and
/// orientations hits no import error and reproduces the grid exactly: the
/// separators are in place, the rows parse back cell for cell, and — the
/// board holding no tiles — the root reassignment passes change nothing.
/// Together with the importer's contract this says the import returns a
/// board with the same grid, roots and orientations.
pub proof fn lemma_new_board_round_trips(b: Board, width: int, height: int, padded: bool)
    requires
        1 <= width,
        0 <= height,
        !padded ==> b.grid() == crate::board::spec_new_grid(width, height),
        padded ==> b.grid() == crate::board::grown_grid(crate::board::spec_new_grid(width, height)),
    ensures
        all_seps_ok(split_acc(crate::display::grid_chars(b.grid()))),
        !jagged(parsed_lines(split_acc(crate::display::grid_chars(b.grid())))),
        parsed_lines(split_acc(crate::display::grid_chars(b.grid()))) == b.grid(),
        reassigned(b.grid(), b.roots@, b.roots@.len() as int) == b.grid(),
{
    let g = b.grid();
    let base = crate::board::spec_new_grid(width, height);
    assert(base.len() == height + 2);
    assert forall|i: int, j: int|
        0 <= i < base.len() && 0 <= j < base[i].len() implies !((#[trigger] base[i][j]) matches Some(
        Square::Occupied(_, _),
    )) by {
        assert(base[i].len() == width);
    }
    assert(grid_unoccupied(base));
    if padded {
        let gg = crate::board::grown_grid(base);
        assert forall|i: int| 1 <= i <= base.len() implies gg[i] == seq![None::<Square>] + base[i
            - 1] + seq![None::<Square>] by {
            assert(gg[i] == base.map_values(
                |row: Seq<Option<Square>>| seq![None::<Square>] + row + seq![None::<Square>],
            )[i - 1]);
        }
        assert(grid_unoccupied(gg)) by {
            assert forall|i: int, j: int|
                0 <= i < gg.len() && 0 <= j < gg[i].len() implies !((#[trigger] gg[i][j]) matches Some(
                Square::Occupied(_, _),
            )) by {
                if i == 0 || i == base.len() + 1 {
                    assert(gg[i] == crate::board::uniform_row(base[0].len() as int + 2, None));
                } else {
                    assert(gg[i] == seq![None::<Square>] + base[i - 1] + seq![None::<Square>]);
                    if 1 <= j <= base[i - 1].len() {
                        assert(gg[i][j] == base[i - 1][j - 1]);
                    }
                }
            }
        }
        assert(g.len() >= 1);
    } else {
        assert(g.len() >= 1);
    }
    assert(grid_unoccupied(g));
    lemma_grid_chars_lines(g);
    let lines = split_acc(crate::display::grid_chars(g));
    assert(lines == rendered_lines(g));
    assert forall|l: int| 0 <= l < lines.len() implies line_ok(#[trigger] lines[l]) by {
        assert(lines[l] == crate::display::row_chars(g[l]));
        lemma_parse_rendered_row(g[l]);
    }
    assert forall|k: int| 0 <= k < lines.len() implies #[trigger] parsed_lines(lines)[k]
        == g[k] by {
        assert(lines[k] == crate::display::row_chars(g[k]));
        lemma_parse_rendered_row(g[k]);
    }
    assert(parsed_lines(lines) =~= g);
    assert(!jagged(parsed_lines(lines))) by {
        if padded {
            assert forall|k: int| 0 <= k < g.len() implies (#[trigger] g[k]).len() == width + 2 by {
                let gg = crate::board::grown_grid(base);
                if k == 0 || k == base.len() + 1 {
                    assert(gg[k] == crate::board::uniform_row(base[0].len() as int + 2, None));
                } else {
                    assert(gg[k] == base.map_values(
                        |row: Seq<Option<Square>>| seq![None::<Square>] + row + seq![
                            None::<Square>,
                        ],
                    )[k - 1]);
                    assert(base[k - 1].len() == width);
                }
            }
        } else {
            assert(forall|k: int| 0 <= k < g.len() ==> (#[trigger] g[k]).len() == width);
        }
    }
    lemma_reassign_unoccupied(g, b.roots@, b.roots@.len() as int);
}

} // verus!