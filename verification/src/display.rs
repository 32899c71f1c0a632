//! The textual board snapshot: grid rows of `_`, letters and blanks joined
//! with spaces, one row per line, followed by the root coordinate list.
//! This is also the format the string importer accepts.

use vstd::prelude::*;

use crate::board::Board;
use crate::board::GridModel;
use crate::geometry::Coordinate;
use crate::square::Square;
use crate::strutil::dec_chars;
use crate::strutil::push_char;
use crate::strutil::push_decimal;

verus! {

/// The single character a cell shows: blank for void, an underscore for
/// empty, the stored letter for an occupied cell.
pub open spec fn glyph(cell: Option<Square>) -> char {
    match cell {
        None => ' ',
        Some(Square::Empty) => '_',
        Some(Square::Occupied(_, tile)) => tile,
    }
}

/// One rendered row: cell glyphs separated by single spaces.
pub open spec fn row_chars(row: Seq<Option<Square>>) -> Seq<char>
    decreases row.len(),
{
    if row.len() == 0 {
        seq![]
    } else if row.len() == 1 {
        seq![glyph(row[0])]
    } else {
        row_chars(row.drop_last()) + seq![' ', glyph(row.last())]
    }
}

/// The rendered grid: rows joined with newlines.
pub open spec fn grid_chars(g: GridModel) -> Seq<char>
    decreases g.len(),
{
    if g.len() == 0 {
        seq![]
    } else if g.len() == 1 {
        row_chars(g[0])
    } else {
        grid_chars(g.drop_last()) + seq!['\n'] + row_chars(g.last())
    }
}

/// A coordinate rendered as a parenthesised pair.
pub open spec fn coord_chars(c: Coordinate) -> Seq<char> {
    seq!['('] + dec_chars(c.x as int) + seq![',', ' '] + dec_chars(c.y as int) + seq![')']
}

/// The root list: coordinates joined with slashes.
pub open spec fn roots_chars(rs: Seq<Coordinate>) -> Seq<char>
    decreases rs.len(),
{
    if rs.len() == 0 {
        seq![]
    } else if rs.len() == 1 {
        coord_chars(rs[0])
    } else {
        roots_chars(rs.drop_last()) + seq![' ', '/', ' '] + coord_chars(rs.last())
    }
}

pub open spec fn roots_label() -> Seq<char> {
    seq!['R', 'o', 'o', 't', 's', ':', ' ']
}

/// The whole snapshot: the grid, a newline, and the labelled root list.
pub open spec fn board_chars(g: GridModel, roots: Seq<Coordinate>) -> Seq<char> {
    grid_chars(g) + seq!['\n'] + roots_label() + roots_chars(roots)
}

impl Board {
    /// Renders the board snapshot: the grid rows, then the line
    /// `Roots: (x, y) / ...`.
    pub fn to_board_string(&self) -> (r: String)
        ensures
            r@ == board_chars(self.grid(), self.roots@),
    {
        let ghost g = self.grid();
        let mut s = String::new();
        proof {
            assert(s@ =~= grid_chars(g.take(0)));
        }
        let mut i: usize = 0;
        while i < self.squares.len()
            invariant
                i <= g.len(),
                g == self.grid(),
                s@ == grid_chars(g.take(i as int)),
            decreases g.len() - i,
        {
            if i > 0 {
                push_char(&mut s, '\n');
            }
            let row = &self.squares[i];
            let ghost line_start = s@;
            let mut j: usize = 0;
            while j < row.len()
                invariant
                    j <= row@.len(),
                    row@ == g[i as int],
                    i < g.len(),
                    g == self.grid(),
                    s@ == line_start + row_chars(row@.take(j as int)),
                decreases row@.len() - j,
            {
                if j > 0 {
                    push_char(&mut s, ' ');
                }
                let ch = match row[j] {
                    None => ' ',
                    Some(Square::Empty) => '_',
                    Some(Square::Occupied(_, tile)) => tile,
                };
                push_char(&mut s, ch);
                proof {
                    let t = row@.take(j + 1 as int);
                    assert(t.drop_last() =~= row@.take(j as int));
                    assert(t.last() == row@[j as int]);
                    if j == 0 {
                        assert(row_chars(t) =~= seq![glyph(row@[0])]);
                    } else {
                        assert(row_chars(t) =~= row_chars(row@.take(j as int)) + seq![
                            ' ',
                            glyph(row@[j as int]),
                        ]);
                    }
                    assert(s@ =~= line_start + row_chars(row@.take(j + 1 as int)));
                }
                j = j + 1;
            }
            proof {
                assert(row@.take(row@.len() as int) =~= row@);
                let t = g.take(i + 1 as int);
                assert(t.drop_last() =~= g.take(i as int));
                assert(t.last() == g[i as int]);
                if i == 0 {
                    assert(grid_chars(t) =~= row_chars(g[0]));
                    assert(s@ =~= grid_chars(g.take(i + 1 as int)));
                } else {
                    assert(grid_chars(t) =~= grid_chars(g.take(i as int)) + seq!['\n'] + row_chars(
                        g[i as int],
                    ));
                    assert(s@ =~= grid_chars(g.take(i + 1 as int)));
                }
            }
            i = i + 1;
        }
        proof {
            assert(g.take(g.len() as int) =~= g);
        }

        push_char(&mut s, '\n');
        push_char(&mut s, 'R');
        push_char(&mut s, 'o');
        push_char(&mut s, 'o');
        push_char(&mut s, 't');
        push_char(&mut s, 's');
        push_char(&mut s, ':');
        push_char(&mut s, ' ');
        proof {
            assert(s@ =~= grid_chars(g) + seq!['\n'] + roots_label());
            assert(s@ =~= grid_chars(g) + seq!['\n'] + roots_label() + roots_chars(
                self.roots@.take(0),
            ));
        }
        let ghost roots_start = s@;
        let mut k: usize = 0;
        while k < self.roots.len()
            invariant
                k <= self.roots@.len(),
                roots_start == grid_chars(g) + seq!['\n'] + roots_label(),
                s@ == roots_start + roots_chars(self.roots@.take(k as int)),
            decreases self.roots@.len() - k,
        {
            if k > 0 {
                push_char(&mut s, ' ');
                push_char(&mut s, '/');
                push_char(&mut s, ' ');
            }
            let c = self.roots[k];
            push_char(&mut s, '(');
            push_decimal(&mut s, c.x);
            push_char(&mut s, ',');
            push_char(&mut s, ' ');
            push_decimal(&mut s, c.y);
            push_char(&mut s, ')');
            proof {
                let t = self.roots@.take(k + 1 as int);
                assert(t.drop_last() =~= self.roots@.take(k as int));
                assert(t.last() == self.roots@[k as int]);
                if k == 0 {
                    assert(roots_chars(t) =~= coord_chars(self.roots@[0]));
                } else {
                    assert(roots_chars(t) =~= roots_chars(self.roots@.take(k as int)) + seq![
                        ' ',
                        '/',
                        ' ',
                    ] + coord_chars(self.roots@[k as int]));
                }
                assert(s@ =~= roots_start + roots_chars(self.roots@.take(k + 1 as int)));
            }
            k = k + 1;
        }
        proof {
            assert(self.roots@.take(self.roots@.len() as int) =~= self.roots@);
            assert(s@ =~= board_chars(g, self.roots@));
        }
        s
    }
}

} // verus!