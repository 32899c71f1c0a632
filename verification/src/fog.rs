//! Fog of war: per-player visibility filtering.
//!
//! A viewer sees their own cells always. Around every cell they occupy,
//! the two-hop orthogonal frontier is probed; wherever it lands on another
//! player's cell, the whole words through that contact cell are revealed.
//! Every other enemy cell is cleared in an independent copy of the board.

use vstd::prelude::*;

use crate::board::Board;
use crate::board::GridModel;
use crate::board::grid_get;
use crate::board::spec_neighbouring_squares;
use crate::connect::bool_rows_view;
use crate::connect::marked;
use crate::connect::mask_fits;
use crate::connect::owner_of;
use crate::geometry::Coordinate;
use crate::geometry::Direction;
use crate::rules::Visibility;
use crate::square::Square;
use crate::words::owners_oriented;
use crate::words::spec_words;
use crate::words::words_view;

verus! {

/// The coordinate addresses an existing grid cell (void or not).
pub open spec fn in_dims(g: GridModel, c: Coordinate) -> bool {
    c.y < g.len() && c.x < g[c.y as int].len()
}

/// Some word in the list passes through the coordinate.
pub open spec fn word_list_contains(ws: Seq<Seq<Coordinate>>, d: Coordinate) -> bool {
    exists|k: int| 0 <= k < ws.len() && #[trigger] ws[k].contains(d)
}

/// `d` is revealed through a contact at a neighbour `c2` of `n`: `c2` is
/// occupied by a player other than the viewer, and some word through `c2`
/// passes through `d`.
pub open spec fn contact_via(
    g: GridModel,
    orientations: Seq<Direction>,
    viewer: usize,
    n: Coordinate,
    d: Coordinate,
) -> bool {
    exists|c2: Coordinate|
        #![trigger n.spec_neighbors_4().contains(c2)]
        n.spec_neighbors_4().contains(c2) && c2 != n && (match grid_get(g, c2) {
            Ok(Square::Occupied(p2, _)) => p2 != viewer,
            _ => false,
        }) && word_list_contains(spec_words(g, orientations, c2), d)
}

/// `d` is revealed by the viewer's cell `m`: some readable neighbour of
/// `m` has a contact that reveals `d`.
pub open spec fn viewer_cell_reveals(
    g: GridModel,
    orientations: Seq<Direction>,
    viewer: usize,
    m: Coordinate,
    d: Coordinate,
) -> bool {
    exists|n: Coordinate|
        #![trigger m.spec_neighbors_4().contains(n)]
        m.spec_neighbors_4().contains(n) && n != m && grid_get(g, n) is Ok && contact_via(
            g,
            orientations,
            viewer,
            n,
            d,
        )
}

/// `d` is visible to the viewer beyond their own cells: revealed by some
/// viewer cell within the scanned board area.
pub open spec fn fog_visible(
    g: GridModel,
    orientations: Seq<Direction>,
    viewer: usize,
    d: Coordinate,
) -> bool {
    exists|m: Coordinate|
        #![trigger viewer_cell_reveals(g, orientations, viewer, m, d)]
        m.y < g.len() && m.x < g[0].len() && owner_of(g, m) == Some(viewer)
            && viewer_cell_reveals(g, orientations, viewer, m, d)
}

/// Visibility restricted to viewer cells scanned before column `x` of row
/// `y`.
pub open spec fn fog_visible_upto(
    g: GridModel,
    orientations: Seq<Direction>,
    viewer: usize,
    d: Coordinate,
    y: int,
    x: int,
) -> bool {
    exists|m: Coordinate|
        #![trigger viewer_cell_reveals(g, orientations, viewer, m, d)]
        (m.y < y || (m.y == y && m.x < x)) && m.y < g.len() && m.x < g[0].len() && owner_of(g, m)
            == Some(viewer) && viewer_cell_reveals(g, orientations, viewer, m, d)
}

/// The grid as the viewer sees it: every cell of another player that the
/// fog hides is cleared to an empty square; everything else is unchanged.
pub open spec fn fogged_grid(g: GridModel, orientations: Seq<Direction>, viewer: usize) -> GridModel {
    Seq::new(
        g.len(),
        |i: int|
            Seq::new(
                g[i].len(),
                |j: int|
                    if j < g[0].len() && (match g[i][j] {
                        Some(Square::Occupied(p, _)) => p != viewer,
                        _ => false,
                    }) && !fog_visible(
                        g,
                        orientations,
                        viewer,
                        Coordinate { x: j as usize, y: i as usize },
                    ) {
                        Some(Square::Empty)
                    } else {
                        g[i][j]
                    },
            ),
    )
}

impl Board {
    /// Marks every in-grid coordinate of one word.
    fn mark_word(&self, mask: &mut Vec<Vec<bool>>, word: &Vec<Coordinate>)
        requires
            mask_fits(bool_rows_view(old(mask)@), self.grid()),
        ensures
            mask_fits(bool_rows_view(final(mask)@), self.grid()),
            forall|d: Coordinate|
                #![trigger marked(bool_rows_view(final(mask)@), d)]
                marked(bool_rows_view(final(mask)@), d) <==> marked(bool_rows_view(old(mask)@), d)
                    || (in_dims(self.grid(), d) && word@.contains(d)),
    {
        let ghost g = self.grid();
        let mut ci: usize = 0;
        while ci < word.len()
            invariant
                g == self.grid(),
                ci <= word@.len(),
                mask_fits(bool_rows_view(mask@), g),
                forall|d: Coordinate|
                    #![trigger marked(bool_rows_view(mask@), d)]
                    marked(bool_rows_view(mask@), d) <==> marked(bool_rows_view(old(mask)@), d)
                        || (in_dims(g, d) && word@.take(ci as int).contains(d)),
            decreases word@.len() - ci,
        {
            let cc = word[ci];
            let ghost mprev = bool_rows_view(mask@);
            let in_grid = cc.y < mask.len() && cc.x < mask[cc.y].len();
            if in_grid {
                mask[cc.y][cc.x] = true;
                proof {
                    assert(bool_rows_view(mask@) =~= mprev.update(
                        cc.y as int,
                        mprev[cc.y as int].update(cc.x as int, true),
                    ));
                }
            }
            proof {
                assert(word@.take(ci + 1 as int) =~= word@.take(ci as int).push(
                    word@[ci as int],
                ));
                if !in_grid {
                    if cc.y < g.len() {
                        assert(bool_rows_view(mask@)[cc.y as int].len() == g[cc.y as int].len());
                    }
                    assert(!in_dims(g, cc));
                }
                assert forall|d: Coordinate|
                    #![trigger marked(bool_rows_view(mask@), d)]
                    marked(bool_rows_view(mask@), d) <==> marked(bool_rows_view(old(mask)@), d)
                        || (in_dims(g, d) && word@.take(ci + 1 as int).contains(d)) by {
                    if d == cc {
                        if in_grid {
                            assert(marked(bool_rows_view(mask@), cc));
                            assert(word@.take(ci + 1 as int)[ci as int] == cc);
                            assert(word@.take(ci + 1 as int).contains(cc));
                            assert(in_dims(g, cc));
                        } else {
                            assert(marked(bool_rows_view(mask@), d) == marked(mprev, d));
                        }
                    } else {
                        assert(marked(bool_rows_view(mask@), d) == marked(mprev, d));
                        if word@.take(ci + 1 as int).contains(d) {
                            let t = choose|t: int|
                                0 <= t < ci + 1 && #[trigger] word@.take(ci + 1 as int)[t] == d;
                            assert(t < ci);
                            assert(word@.take(ci as int)[t] == d);
                            assert(word@.take(ci as int).contains(d));
                        }
                        if word@.take(ci as int).contains(d) {
                            let t = choose|t: int|
                                0 <= t < ci && #[trigger] word@.take(ci as int)[t] == d;
                            assert(word@.take(ci + 1 as int)[t] == d);
                            assert(word@.take(ci + 1 as int).contains(d));
                        }
                    }
                }
            }
            ci = ci + 1;
        }
        proof {
            assert(word@.take(word@.len() as int) =~= word@);
        }
    }

    /// Marks every coordinate of every word through a contact cell.
    fn mark_words_through(&self, mask: &mut Vec<Vec<bool>>, c2: Coordinate)
        requires
            mask_fits(bool_rows_view(old(mask)@), self.grid()),
            owners_oriented(self.grid(), self.orientations@),
        ensures
            mask_fits(bool_rows_view(final(mask)@), self.grid()),
            forall|d: Coordinate|
                #![trigger marked(bool_rows_view(final(mask)@), d)]
                marked(bool_rows_view(final(mask)@), d) <==> marked(bool_rows_view(old(mask)@), d)
                    || (in_dims(self.grid(), d) && word_list_contains(
                    spec_words(self.grid(), self.orientations@, c2),
                    d,
                )),
    {
        let ghost g = self.grid();
        let ghost orients = self.orientations@;
        proof {
            match grid_get(g, c2) {
                Ok(Square::Occupied(op, _)) => {
                    assert(owner_of(g, c2) == Some(op));
                },
                _ => {},
            }
        }
        let words = self.get_words(c2);
        let ghost ws = words_view(words@);
        let mut wi: usize = 0;
        while wi < words.len()
            invariant
                g == self.grid(),
                wi <= words@.len(),
                ws == words_view(words@),
                ws == spec_words(g, orients, c2),
                mask_fits(bool_rows_view(mask@), g),
                forall|d: Coordinate|
                    #![trigger marked(bool_rows_view(mask@), d)]
                    marked(bool_rows_view(mask@), d) <==> marked(bool_rows_view(old(mask)@), d)
                        || (in_dims(g, d) && word_list_contains(ws.take(wi as int), d)),
            decreases words@.len() - wi,
        {
            let ghost mprev = bool_rows_view(mask@);
            let word = &words[wi];
            self.mark_word(mask, word);
            proof {
                assert(word@ == ws[wi as int]);
                assert forall|d: Coordinate|
                    #![trigger marked(bool_rows_view(mask@), d)]
                    marked(bool_rows_view(mask@), d) <==> marked(bool_rows_view(old(mask)@), d)
                        || (in_dims(g, d) && word_list_contains(ws.take(wi + 1 as int), d)) by {
                    if word_list_contains(ws.take(wi + 1 as int), d) {
                        let k = choose|k: int|
                            0 <= k < wi + 1 && #[trigger] ws.take(wi + 1 as int)[k].contains(d);
                        if k < wi {
                            assert(ws.take(wi as int)[k].contains(d));
                            assert(word_list_contains(ws.take(wi as int), d));
                        } else {
                            assert(ws[wi as int].contains(d));
                        }
                    }
                    if word_list_contains(ws.take(wi as int), d) {
                        let k = choose|k: int|
                            0 <= k < wi && #[trigger] ws.take(wi as int)[k].contains(d);
                        assert(ws.take(wi + 1 as int)[k].contains(d));
                        assert(word_list_contains(ws.take(wi + 1 as int), d));
                    }
                    if word@.contains(d) {
                        assert(ws.take(wi + 1 as int)[wi as int].contains(d));
                        assert(word_list_contains(ws.take(wi + 1 as int), d));
                    }
                }
            }
            wi = wi + 1;
        }
        proof {
            assert(ws.take(ws.len() as int) =~= ws);
        }
    }

    /// Marks everything revealed through the contacts around one readable
    /// neighbour of a viewer cell.
    fn mark_contacts_around(&self, mask: &mut Vec<Vec<bool>>, viewer: usize, n: Coordinate)
        requires
            mask_fits(bool_rows_view(old(mask)@), self.grid()),
            owners_oriented(self.grid(), self.orientations@),
            n.x < usize::MAX,
            n.y < usize::MAX,
        ensures
            mask_fits(bool_rows_view(final(mask)@), self.grid()),
            forall|d: Coordinate|
                #![trigger marked(bool_rows_view(final(mask)@), d)]
                marked(bool_rows_view(final(mask)@), d) <==> marked(bool_rows_view(old(mask)@), d)
                    || (in_dims(self.grid(), d) && contact_via(
                    self.grid(),
                    self.orientations@,
                    viewer,
                    n,
                    d,
                )),
    {
        let ghost g = self.grid();
        let ghost orients = self.orientations@;
        let ns2 = self.neighbouring_squares(n);
        let ghost entries = ns2@;
        let mut ei: usize = 0;
        while ei < ns2.len()
            invariant
                g == self.grid(),
                orients == self.orientations@,
                owners_oriented(g, orients),
                ei <= entries.len(),
                entries == ns2@,
                entries == spec_neighbouring_squares(g, n),
                mask_fits(bool_rows_view(mask@), g),
                forall|d: Coordinate|
                    #![trigger marked(bool_rows_view(mask@), d)]
                    marked(bool_rows_view(mask@), d) <==> marked(bool_rows_view(old(mask)@), d)
                        || (in_dims(g, d) && exists|k: int|
                        0 <= k < ei && (match (#[trigger] entries[k]).1 {
                            Square::Occupied(p2, _) => p2 != viewer,
                            _ => false,
                        }) && word_list_contains(spec_words(g, orients, entries[k].0), d)),
            decreases entries.len() - ei,
        {
            let (c2, sq2) = ns2[ei];
            let enemy = match sq2 {
                Square::Occupied(p2, _) => p2 != viewer,
                Square::Empty => false,
            };
            if enemy {
                let ghost mprev = bool_rows_view(mask@);
                self.mark_words_through(mask, c2);
                proof {
                    assert forall|d: Coordinate|
                        #![trigger marked(bool_rows_view(mask@), d)]
                        marked(bool_rows_view(mask@), d) <==> marked(
                            bool_rows_view(old(mask)@),
                            d,
                        ) || (in_dims(g, d) && exists|k: int|
                            0 <= k < ei + 1 && (match (#[trigger] entries[k]).1 {
                                Square::Occupied(p2, _) => p2 != viewer,
                                _ => false,
                            }) && word_list_contains(spec_words(g, orients, entries[k].0), d)) by {
                        if in_dims(g, d) && word_list_contains(spec_words(g, orients, c2), d) {
                            assert((match entries[ei as int].1 {
                                Square::Occupied(p2, _) => p2 != viewer,
                                _ => false,
                            }) && word_list_contains(
                                spec_words(g, orients, entries[ei as int].0),
                                d,
                            ));
                        }
                    }
                }
            } else {
                proof {
                    assert forall|d: Coordinate|
                        #![trigger marked(bool_rows_view(mask@), d)]
                        marked(bool_rows_view(mask@), d) <==> marked(
                            bool_rows_view(old(mask)@),
                            d,
                        ) || (in_dims(g, d) && exists|k: int|
                            0 <= k < ei + 1 && (match (#[trigger] entries[k]).1 {
                                Square::Occupied(p2, _) => p2 != viewer,
                                _ => false,
                            }) && word_list_contains(spec_words(g, orients, entries[k].0), d)) by {
                        if exists|k: int|
                            0 <= k < ei + 1 && (match (#[trigger] entries[k]).1 {
                                Square::Occupied(p2, _) => p2 != viewer,
                                _ => false,
                            }) && word_list_contains(spec_words(g, orients, entries[k].0), d) {
                            let k = choose|k: int|
                                0 <= k < ei + 1 && (match (#[trigger] entries[k]).1 {
                                    Square::Occupied(p2, _) => p2 != viewer,
                                    _ => false,
                                }) && word_list_contains(spec_words(g, orients, entries[k].0), d);
                            assert(k < ei);
                        }
                    }
                }
            }
            ei = ei + 1;
        }
        proof {
            crate::connect::lemma_neighbour_entries_facts(g, n);
            assert forall|d: Coordinate|
                #![trigger marked(bool_rows_view(mask@), d)]
                marked(bool_rows_view(mask@), d) <==> marked(bool_rows_view(old(mask)@), d) || (
                in_dims(g, d) && contact_via(g, orients, viewer, n, d)) by {
                if in_dims(g, d) && (exists|k: int|
                    0 <= k < entries.len() && (match (#[trigger] entries[k]).1 {
                        Square::Occupied(p2, _) => p2 != viewer,
                        _ => false,
                    }) && word_list_contains(spec_words(g, orients, entries[k].0), d)) {
                    let k = choose|k: int|
                        0 <= k < entries.len() && (match (#[trigger] entries[k]).1 {
                            Square::Occupied(p2, _) => p2 != viewer,
                            _ => false,
                        }) && word_list_contains(spec_words(g, orients, entries[k].0), d);
                    assert(n.spec_neighbors_4().contains(entries[k].0) && grid_get(g, entries[k].0)
                        == Ok::<Square, crate::error::GamePlayError>(entries[k].1));
                    assert(contact_via(g, orients, viewer, n, d));
                }
                if in_dims(g, d) && contact_via(g, orients, viewer, n, d) {
                    let c2 = choose|c2: Coordinate|
                        #![trigger n.spec_neighbors_4().contains(c2)]
                        n.spec_neighbors_4().contains(c2) && c2 != n && (match grid_get(g, c2) {
                            Ok(Square::Occupied(p2, _)) => p2 != viewer,
                            _ => false,
                        }) && word_list_contains(spec_words(g, orients, c2), d);
                    crate::connect::lemma_neighbour_entry_index(g, n, c2);
                    let k = choose|k: int|
                        0 <= k < entries.len() && #[trigger] entries[k] == (
                            c2,
                            crate::board::square_at(g, c2),
                        );
                    assert((match entries[k].1 {
                        Square::Occupied(p2, _) => p2 != viewer,
                        _ => false,
                    }) && word_list_contains(spec_words(g, orients, entries[k].0), d));
                }
            }
        }
    }

    /// Marks everything one viewer cell reveals.
    fn mark_viewer_cell(&self, mask: &mut Vec<Vec<bool>>, viewer: usize, m: Coordinate)
        requires
            mask_fits(bool_rows_view(old(mask)@), self.grid()),
            owners_oriented(self.grid(), self.orientations@),
            owner_of(self.grid(), m) == Some(viewer),
        ensures
            mask_fits(bool_rows_view(final(mask)@), self.grid()),
            forall|d: Coordinate|
                #![trigger marked(bool_rows_view(final(mask)@), d)]
                marked(bool_rows_view(final(mask)@), d) <==> marked(bool_rows_view(old(mask)@), d)
                    || (in_dims(self.grid(), d) && viewer_cell_reveals(
                    self.grid(),
                    self.orientations@,
                    viewer,
                    m,
                    d,
                )),
    {
        let ghost g = self.grid();
        let ghost orients = self.orientations@;
        proof {
            assert(m.y < g.len() && m.x < g[m.y as int].len());
        }
        let nrows = self.squares.len();
        let rowlen = self.squares[m.y].len();
        let ns = self.neighbouring_squares(m);
        let ghost entries = ns@;
        let mut ni: usize = 0;
        while ni < ns.len()
            invariant
                g == self.grid(),
                orients == self.orientations@,
                owners_oriented(g, orients),
                nrows == g.len(),
                ni <= entries.len(),
                entries == ns@,
                entries == spec_neighbouring_squares(g, m),
                mask_fits(bool_rows_view(mask@), g),
                forall|d: Coordinate|
                    #![trigger marked(bool_rows_view(mask@), d)]
                    marked(bool_rows_view(mask@), d) <==> marked(bool_rows_view(old(mask)@), d)
                        || (in_dims(g, d) && exists|k: int|
                        0 <= k < ni && contact_via(g, orients, viewer, (#[trigger] entries[k]).0, d)),
            decreases entries.len() - ni,
        {
            let (n, _sq) = ns[ni];
            proof {
                crate::connect::lemma_neighbour_entries_facts(g, n);
                crate::connect::lemma_neighbour_entries_facts(g, m);
                assert(grid_get(g, n) is Ok);
                assert(n.y < g.len() && n.x < g[n.y as int].len());
            }
            let n_rowlen = self.squares[n.y].len();
            proof {
                assert(n.y < nrows);
                assert(n.x < n_rowlen);
            }
            self.mark_contacts_around(mask, viewer, n);
            proof {
                assert forall|d: Coordinate|
                    #![trigger marked(bool_rows_view(mask@), d)]
                    marked(bool_rows_view(mask@), d) <==> marked(bool_rows_view(old(mask)@), d)
                        || (in_dims(g, d) && exists|k: int|
                        0 <= k < ni + 1 && contact_via(
                            g,
                            orients,
                            viewer,
                            (#[trigger] entries[k]).0,
                            d,
                        )) by {
                    if in_dims(g, d) && contact_via(g, orients, viewer, n, d) {
                        assert(contact_via(g, orients, viewer, entries[ni as int].0, d));
                    }
                    if exists|k: int|
                        0 <= k < ni + 1 && contact_via(
                            g,
                            orients,
                            viewer,
                            (#[trigger] entries[k]).0,
                            d,
                        ) {
                        let k = choose|k: int|
                            0 <= k < ni + 1 && contact_via(
                                g,
                                orients,
                                viewer,
                                (#[trigger] entries[k]).0,
                                d,
                            );
                        assert(k < ni || entries[k].0 == n);
                    }
                }
            }
            ni = ni + 1;
        }
        proof {
            crate::connect::lemma_neighbour_entries_facts(g, m);
            assert forall|d: Coordinate|
                #![trigger marked(bool_rows_view(mask@), d)]
                marked(bool_rows_view(mask@), d) <==> marked(bool_rows_view(old(mask)@), d) || (
                in_dims(g, d) && viewer_cell_reveals(g, orients, viewer, m, d)) by {
                if in_dims(g, d) && (exists|k: int|
                    0 <= k < entries.len() && contact_via(
                        g,
                        orients,
                        viewer,
                        (#[trigger] entries[k]).0,
                        d,
                    )) {
                    let k = choose|k: int|
                        0 <= k < entries.len() && contact_via(
                            g,
                            orients,
                            viewer,
                            (#[trigger] entries[k]).0,
                            d,
                        );
                    assert(m.spec_neighbors_4().contains(entries[k].0) && grid_get(
                        g,
                        entries[k].0,
                    ) is Ok);
                    assert(viewer_cell_reveals(g, orients, viewer, m, d));
                }
                if in_dims(g, d) && viewer_cell_reveals(g, orients, viewer, m, d) {
                    let n2 = choose|n2: Coordinate|
                        #![trigger m.spec_neighbors_4().contains(n2)]
                        m.spec_neighbors_4().contains(n2) && n2 != m && grid_get(g, n2) is Ok
                            && contact_via(g, orients, viewer, n2, d);
                    crate::connect::lemma_neighbour_entry_index(g, m, n2);
                    let k = choose|k: int|
                        0 <= k < entries.len() && #[trigger] entries[k] == (
                            n2,
                            crate::board::square_at(g, n2),
                        );
                    assert(contact_via(g, orients, viewer, entries[k].0, d));
                }
            }
        }
    }

    /// The board as `player_index` may see it: an independent copy in which
    /// every cell of another player that is neither contested nor part of a
    /// word through a contested contact has been cleared.
    pub fn fog_of_war(&self, player_index: usize) -> (r: Board)
        requires
            self.grid().len() > 0,
            owners_oriented(self.grid(), self.orientations@),
        ensures
            r.grid() == fogged_grid(self.grid(), self.orientations@, player_index),
            r.roots@ == self.roots@,
            r.orientations@ == self.orientations@,
    {
        let ghost g = self.grid();
        let ghost orients = self.orientations@;
        let h = self.squares.len();
        let w = self.squares[0].len();

        let mut mask: Vec<Vec<bool>> = Vec::new();
        let mut mi: usize = 0;
        while mi < self.squares.len()
            invariant
                mi <= self.grid().len(),
                g == self.grid(),
                bool_rows_view(mask@).len() == mi,
                forall|i: int|
                    0 <= i < mi ==> (#[trigger] bool_rows_view(mask@)[i]).len() == g[i].len(),
                forall|i: int, j: int|
                    0 <= i < mi && 0 <= j < bool_rows_view(mask@)[i].len() ==> !(
                    #[trigger] bool_rows_view(mask@)[i][j]),
            decreases self.grid().len() - mi,
        {
            let ghost mb = bool_rows_view(mask@);
            let row = crate::connect::make_bool_row(self.squares[mi].len());
            let ghost rowv = row@;
            mask.push(row);
            proof {
                assert(bool_rows_view(mask@) =~= mb.push(rowv));
            }
            mi = mi + 1;
        }
        proof {
            assert(mask_fits(bool_rows_view(mask@), g));
        }

        let mut y: usize = 0;
        while y < h
            invariant
                y <= h,
                h == g.len(),
                w == g[0].len(),
                g == self.grid(),
                orients == self.orientations@,
                owners_oriented(g, orients),
                mask_fits(bool_rows_view(mask@), g),
                forall|d: Coordinate|
                    #![trigger marked(bool_rows_view(mask@), d)]
                    marked(bool_rows_view(mask@), d) <==> (in_dims(g, d) && fog_visible_upto(
                        g,
                        orients,
                        player_index,
                        d,
                        y as int,
                        0,
                    )),
            decreases h - y,
        {
            let mut x: usize = 0;
            while x < w
                invariant
                    x <= w,
                    y < h,
                    h == g.len(),
                    w == g[0].len(),
                    g == self.grid(),
                    orients == self.orientations@,
                    owners_oriented(g, orients),
                    mask_fits(bool_rows_view(mask@), g),
                    forall|d: Coordinate|
                        #![trigger marked(bool_rows_view(mask@), d)]
                        marked(bool_rows_view(mask@), d) <==> (in_dims(g, d) && fog_visible_upto(
                            g,
                            orients,
                            player_index,
                            d,
                            y as int,
                            x as int,
                        )),
                decreases w - x,
            {
                let m = Coordinate { x, y };
                let mut is_viewer = false;
                match self.get(m) {
                    Ok(Square::Occupied(p, _)) => {
                        if p == player_index {
                            is_viewer = true;
                        }
                    },
                    _ => {},
                }
                if is_viewer {
                    let ghost mprev = bool_rows_view(mask@);
                    self.mark_viewer_cell(&mut mask, player_index, m);
                    proof {
                        assert forall|d: Coordinate|
                            #![trigger marked(bool_rows_view(mask@), d)]
                            marked(bool_rows_view(mask@), d) <==> (in_dims(g, d)
                                && fog_visible_upto(
                                g,
                                orients,
                                player_index,
                                d,
                                y as int,
                                x + 1 as int,
                            )) by {
                            if in_dims(g, d) && fog_visible_upto(
                                g,
                                orients,
                                player_index,
                                d,
                                y as int,
                                x + 1 as int,
                            ) {
                                let mm = choose|mm: Coordinate|
                                    #![trigger viewer_cell_reveals(g, orients, player_index, mm, d)]
                                    (mm.y < y || (mm.y == y && mm.x < x + 1)) && mm.y < g.len()
                                        && mm.x < g[0].len() && owner_of(g, mm) == Some(
                                        player_index,
                                    ) && viewer_cell_reveals(g, orients, player_index, mm, d);
                                if mm.y < y || (mm.y == y && mm.x < x) {
                                    assert(fog_visible_upto(
                                        g,
                                        orients,
                                        player_index,
                                        d,
                                        y as int,
                                        x as int,
                                    ));
                                } else {
                                    assert(mm == m);
                                }
                            }
                            if marked(bool_rows_view(mask@), d) {
                                if marked(mprev, d) {
                                    let mm = choose|mm: Coordinate|
                                        #![trigger viewer_cell_reveals(
                                            g,
                                            orients,
                                            player_index,
                                            mm,
                                            d,
                                        )]
                                        (mm.y < y || (mm.y == y && mm.x < x)) && mm.y < g.len()
                                            && mm.x < g[0].len() && owner_of(g, mm) == Some(
                                            player_index,
                                        ) && viewer_cell_reveals(g, orients, player_index, mm, d);
                                    assert(mm.y < y || (mm.y == y && mm.x < x + 1));
                                    assert(fog_visible_upto(
                                        g,
                                        orients,
                                        player_index,
                                        d,
                                        y as int,
                                        x + 1 as int,
                                    ));
                                } else {
                                    assert(viewer_cell_reveals(g, orients, player_index, m, d));
                                    assert(m.y < g.len() && m.x < g[0].len());
                                    assert(fog_visible_upto(
                                        g,
                                        orients,
                                        player_index,
                                        d,
                                        y as int,
                                        x + 1 as int,
                                    ));
                                }
                            }
                        }
                    }
                } else {
                    proof {
                        assert forall|d: Coordinate|
                            #![trigger marked(bool_rows_view(mask@), d)]
                            marked(bool_rows_view(mask@), d) <==> (in_dims(g, d)
                                && fog_visible_upto(
                                g,
                                orients,
                                player_index,
                                d,
                                y as int,
                                x + 1 as int,
                            )) by {
                            if in_dims(g, d) && fog_visible_upto(
                                g,
                                orients,
                                player_index,
                                d,
                                y as int,
                                x + 1 as int,
                            ) {
                                let mm = choose|mm: Coordinate|
                                    #![trigger viewer_cell_reveals(g, orients, player_index, mm, d)]
                                    (mm.y < y || (mm.y == y && mm.x < x + 1)) && mm.y < g.len()
                                        && mm.x < g[0].len() && owner_of(g, mm) == Some(
                                        player_index,
                                    ) && viewer_cell_reveals(g, orients, player_index, mm, d);
                                assert(mm != m);
                                assert(fog_visible_upto(
                                    g,
                                    orients,
                                    player_index,
                                    d,
                                    y as int,
                                    x as int,
                                ));
                            }
                        }
                    }
                }
                x = x + 1;
            }
            proof {
                assert forall|d: Coordinate|
                    (in_dims(g, d) && fog_visible_upto(g, orients, player_index, d, y as int, w as int))
                        <==> (in_dims(g, d) && fog_visible_upto(
                        g,
                        orients,
                        player_index,
                        d,
                        y + 1 as int,
                        0,
                    )) by {
                    if fog_visible_upto(g, orients, player_index, d, y as int, w as int) {
                        let mm = choose|mm: Coordinate|
                            #![trigger viewer_cell_reveals(g, orients, player_index, mm, d)]
                            (mm.y < y || (mm.y == y && mm.x < w)) && mm.y < g.len() && mm.x < g[0].len()
                                && owner_of(g, mm) == Some(player_index) && viewer_cell_reveals(
                                g,
                                orients,
                                player_index,
                                mm,
                                d,
                            );
                        assert(mm.y < y + 1);
                        assert(fog_visible_upto(g, orients, player_index, d, y + 1 as int, 0));
                    }
                    if fog_visible_upto(g, orients, player_index, d, y + 1 as int, 0) {
                        let mm = choose|mm: Coordinate|
                            #![trigger viewer_cell_reveals(g, orients, player_index, mm, d)]
                            (mm.y < y + 1 || (mm.y == y + 1 && mm.x < 0)) && mm.y < g.len() && mm.x
                                < g[0].len() && owner_of(g, mm) == Some(player_index)
                                && viewer_cell_reveals(g, orients, player_index, mm, d);
                        assert(mm.y < y || (mm.y == y && mm.x < w));
                        assert(fog_visible_upto(g, orients, player_index, d, y as int, w as int));
                    }
                }
            }
            y = y + 1;
        }
        proof {
            assert forall|d: Coordinate|
                #![trigger marked(bool_rows_view(mask@), d)]
                marked(bool_rows_view(mask@), d) <==> (in_dims(g, d) && fog_visible(
                    g,
                    orients,
                    player_index,
                    d,
                )) by {
                if marked(bool_rows_view(mask@), d) {
                    let mm = choose|mm: Coordinate|
                        #![trigger viewer_cell_reveals(g, orients, player_index, mm, d)]
                        (mm.y < h || (mm.y == h && mm.x < 0)) && mm.y < g.len() && mm.x < g[0].len()
                            && owner_of(g, mm) == Some(player_index) && viewer_cell_reveals(
                            g,
                            orients,
                            player_index,
                            mm,
                            d,
                        );
                    assert(fog_visible(g, orients, player_index, d));
                }
                if in_dims(g, d) && fog_visible(g, orients, player_index, d) {
                    let mm = choose|mm: Coordinate|
                        #![trigger viewer_cell_reveals(g, orients, player_index, mm, d)]
                        mm.y < g.len() && mm.x < g[0].len() && owner_of(g, mm) == Some(player_index)
                            && viewer_cell_reveals(g, orients, player_index, mm, d);
                    assert(mm.y < h || (mm.y == h && mm.x < 0));
                    assert(fog_visible_upto(g, orients, player_index, d, h as int, 0));
                }
            }
        }

        // Build the filtered copy.
        let mut new_squares: Vec<Vec<Option<Square>>> = Vec::new();
        let mut i: usize = 0;
        while i < self.squares.len()
            invariant
                i <= g.len(),
                h == g.len(),
                w == g[0].len(),
                g == self.grid(),
                orients == self.orientations@,
                mask_fits(bool_rows_view(mask@), g),
                forall|d: Coordinate|
                    #![trigger marked(bool_rows_view(mask@), d)]
                    marked(bool_rows_view(mask@), d) <==> (in_dims(g, d) && fog_visible(
                        g,
                        orients,
                        player_index,
                        d,
                    )),
                crate::board::rows_view(new_squares@) =~= fogged_grid(
                    g,
                    orients,
                    player_index,
                ).take(i as int),
            decreases g.len() - i,
        {
            let row = &self.squares[i];
            let mut nr: Vec<Option<Square>> = Vec::new();
            let mut j: usize = 0;
            while j < row.len()
                invariant
                    j <= row@.len(),
                    i < g.len(),
                    h == g.len(),
                    w == g[0].len(),
                    g == self.grid(),
                    orients == self.orientations@,
                    row@ == g[i as int],
                    mask_fits(bool_rows_view(mask@), g),
                    forall|d: Coordinate|
                        #![trigger marked(bool_rows_view(mask@), d)]
                        marked(bool_rows_view(mask@), d) <==> (in_dims(g, d) && fog_visible(
                            g,
                            orients,
                            player_index,
                            d,
                        )),
                    nr@ =~= fogged_grid(g, orients, player_index)[i as int].take(j as int),
                decreases row@.len() - j,
            {
                let d = Coordinate { x: j, y: i };
                proof {
                    assert(bool_rows_view(mask@).len() == g.len());
                    assert(bool_rows_view(mask@)[i as int].len() == g[i as int].len());
                    assert(bool_rows_view(mask@)[i as int] == mask@[i as int]@);
                    assert(in_dims(g, d));
                }
                let enemy = match row[j] {
                    Some(Square::Occupied(p, _)) => p != player_index,
                    _ => false,
                };
                let cell: Option<Square> = if j < w && enemy && !mask[i][j] {
                    proof {
                        assert(!marked(bool_rows_view(mask@), d));
                        assert(!fog_visible(g, orients, player_index, d));
                    }
                    Some(Square::Empty)
                } else {
                    row[j]
                };
                proof {
                    if j < w && enemy {
                        if marked(bool_rows_view(mask@), d) {
                            assert(fog_visible(g, orients, player_index, d));
                        }
                    }
                    assert(cell == fogged_grid(g, orients, player_index)[i as int][j as int]);
                }
                nr.push(cell);
                proof {
                    assert(nr@ =~= fogged_grid(g, orients, player_index)[i as int].take(
                        j + 1 as int,
                    ));
                }
                j = j + 1;
            }
            let ghost nrv = nr@;
            let ghost prev_rows = new_squares@;
            new_squares.push(nr);
            proof {
                crate::board::lemma_rows_view_push(prev_rows, new_squares@[i as int]);
                assert(fogged_grid(g, orients, player_index)[i as int].len() == g[i as int].len());
                assert(nrv =~= fogged_grid(g, orients, player_index)[i as int]);
                assert(fogged_grid(g, orients, player_index).take(i + 1 as int) =~= fogged_grid(
                    g,
                    orients,
                    player_index,
                ).take(i as int).push(fogged_grid(g, orients, player_index)[i as int]));
                assert(crate::board::rows_view(new_squares@) =~= fogged_grid(
                    g,
                    orients,
                    player_index,
                ).take(i + 1 as int));
            }
            i = i + 1;
        }

        let roots = crate::words::copy_coords(&self.roots);
        let mut orientations: Vec<Direction> = Vec::new();
        let mut oi: usize = 0;
        while oi < self.orientations.len()
            invariant
                oi <= self.orientations@.len(),
                orients == self.orientations@,
                orientations@ =~= orients.take(oi as int),
            decreases self.orientations@.len() - oi,
        {
            orientations.push(self.orientations[oi]);
            proof {
                assert(orientations@ =~= orients.take(oi + 1 as int));
            }
            oi = oi + 1;
        }
        proof {
            assert(orients.take(orients.len() as int) =~= orients);
        }
        let r = Board { squares: new_squares, roots, orientations };
        proof {
            assert(fogged_grid(g, orients, player_index).take(g.len() as int) =~= fogged_grid(
                g,
                orients,
                player_index,
            ));
            assert(r.grid() =~= fogged_grid(g, orients, player_index));
        }
        r
    }

    /// An independent copy of the board.
    fn duplicate(&self) -> (r: Board)
        ensures
            r.grid() == self.grid(),
            r.roots@ == self.roots@,
            r.orientations@ == self.orientations@,
    {
        let mut new_squares: Vec<Vec<Option<Square>>> = Vec::new();
        let ghost g = self.grid();
        let mut i: usize = 0;
        while i < self.squares.len()
            invariant
                i <= g.len(),
                g == self.grid(),
                crate::board::rows_view(new_squares@) =~= g.take(i as int),
            decreases g.len() - i,
        {
            let row = &self.squares[i];
            let mut nr: Vec<Option<Square>> = Vec::new();
            let mut j: usize = 0;
            while j < row.len()
                invariant
                    j <= row@.len(),
                    nr@ =~= row@.take(j as int),
                decreases row@.len() - j,
            {
                nr.push(row[j]);
                proof {
                    assert(nr@ =~= row@.take(j + 1 as int));
                }
                j = j + 1;
            }
            let ghost nrv = nr@;
            let ghost prev_rows = new_squares@;
            new_squares.push(nr);
            proof {
                crate::board::lemma_rows_view_push(prev_rows, new_squares@[i as int]);
                assert(row@.take(row@.len() as int) =~= row@);
                assert(nrv =~= g[i as int]);
                assert(g.take(i + 1 as int) =~= g.take(i as int).push(g[i as int]));
                assert(crate::board::rows_view(new_squares@) =~= g.take(i + 1 as int));
            }
            i = i + 1;
        }
        let roots = crate::words::copy_coords(&self.roots);
        let mut orientations: Vec<Direction> = Vec::new();
        let mut oi: usize = 0;
        while oi < self.orientations.len()
            invariant
                oi <= self.orientations@.len(),
                orientations@ =~= self.orientations@.take(oi as int),
            decreases self.orientations@.len() - oi,
        {
            orientations.push(self.orientations[oi]);
            proof {
                assert(orientations@ =~= self.orientations@.take(oi + 1 as int));
            }
            oi = oi + 1;
        }
        proof {
            assert(self.orientations@.take(self.orientations@.len() as int)
                =~= self.orientations@);
            assert(g.take(g.len() as int) =~= g);
        }
        let r = Board { squares: new_squares, roots, orientations };
        proof {
            assert(r.grid() =~= g);
        }
        r
    }

    /// The view of the board for one player under the configured
    /// visibility: an unfiltered copy once a winner exists or under the
    /// standard policy, the fog-filtered copy otherwise.
    pub fn filter_to_player(
        &self,
        player_index: usize,
        visibility: &Visibility,
        winner: &Option<usize>,
    ) -> (r: Board)
        requires
            self.grid().len() > 0,
            owners_oriented(self.grid(), self.orientations@),
        ensures
            r.roots@ == self.roots@,
            r.orientations@ == self.orientations@,
            r.grid() == (if winner is Some || visibility is Standard {
                self.grid()
            } else {
                fogged_grid(self.grid(), self.orientations@, player_index)
            }),
    {
        if winner.is_some() {
            return self.duplicate();
        }
        match visibility {
            Visibility::Standard => self.duplicate(),
            Visibility::FogOfWar => self.fog_of_war(player_index),
        }
    }
}

} // verus!