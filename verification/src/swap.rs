//! Swapping the letters of two of a player's own occupied cells, gated by
//! the configured swap policy.

use vstd::prelude::*;

use crate::board::Board;
use crate::board::GridModel;
use crate::board::grid_get;
use crate::board::grid_update;
use crate::connect::letter_of;
use crate::connect::owner_of;
use crate::connect::reaches;
use crate::error::GamePlayError;
use crate::geometry::Coordinate;
use crate::reporting::BoardChange;
use crate::reporting::BoardChangeAction;
use crate::reporting::BoardChangeDetail;
use crate::reporting::Change;
use crate::rules::Swapping;
use crate::square::Square;

verus! {

/// Exactly why a swap fails, or `None` when it succeeds: identical targets
/// first, then the policy gate, then position and ownership checks on each
/// target in order, and finally the player index itself.
pub open spec fn spec_swap_err(
    g: GridModel,
    player_count: int,
    player: usize,
    a: Coordinate,
    b: Coordinate,
    policy: Swapping,
) -> Option<GamePlayError> {
    if a == b {
        Some(GamePlayError::SelfSwap)
    } else if (policy matches Swapping::Disabled) {
        Some(GamePlayError::NoSwapping)
    } else if (policy matches Swapping::Contiguous(_)) && !reaches(g, a, b) {
        Some(GamePlayError::DisjointSwap)
    } else {
        match grid_get(g, a) {
            Err(e) => Some(e),
            Ok(Square::Empty) => Some(GamePlayError::UnoccupiedSwap),
            Ok(Square::Occupied(p, _)) => if p != player {
                Some(GamePlayError::UnownedSwap)
            } else {
                match grid_get(g, b) {
                    Err(e) => Some(e),
                    Ok(Square::Empty) => Some(GamePlayError::UnoccupiedSwap),
                    Ok(Square::Occupied(p2, _)) => if p2 != player {
                        Some(GamePlayError::UnownedSwap)
                    } else if player >= player_count {
                        Some(GamePlayError::NonExistentPlayer { index: player })
                    } else {
                        None::<GamePlayError>
                    },
                }
            },
        }
    }
}

/// The grid after the letters of two occupied cells change places.
pub open spec fn swapped_grid(g: GridModel, player: usize, a: Coordinate, b: Coordinate) -> GridModel {
    grid_update(
        grid_update(g, a, Square::Occupied(player, letter_of(g, b))),
        b,
        Square::Occupied(player, letter_of(g, a)),
    )
}

impl Board {
    /// Exchanges the letters at two cells the player owns, if the policy
    /// allows it; on failure the board is untouched, and the exact failure
    /// is the one `spec_swap_err` names.
    pub fn swap(&mut self, player: usize, positions: [Coordinate; 2], swap_rules: &Swapping) -> (r:
        Result<Vec<Change>, GamePlayError>)
        ensures
            final(self).roots == old(self).roots,
            final(self).orientations == old(self).orientations,
            match spec_swap_err(
                old(self).grid(),
                old(self).roots@.len() as int,
                player,
                positions@[0],
                positions@[1],
                *swap_rules,
            ) {
                Some(e) => r == Err::<Vec<Change>, GamePlayError>(e) && *final(self) == *old(self),
                None => {
                    &&& r matches Ok(changes)
                    &&& r matches Ok(changes) ==> changes@ == seq![
                        Change::Board(
                            BoardChange {
                                detail: BoardChangeDetail {
                                    square: Square::Occupied(
                                        player,
                                        letter_of(old(self).grid(), positions@[1]),
                                    ),
                                    coordinate: positions@[0],
                                },
                                action: BoardChangeAction::Swapped,
                            },
                        ),
                        Change::Board(
                            BoardChange {
                                detail: BoardChangeDetail {
                                    square: Square::Occupied(
                                        player,
                                        letter_of(old(self).grid(), positions@[0]),
                                    ),
                                    coordinate: positions@[1],
                                },
                                action: BoardChangeAction::Swapped,
                            },
                        ),
                    ]
                    &&& final(self).grid() == swapped_grid(
                        old(self).grid(),
                        player,
                        positions@[0],
                        positions@[1],
                    )
                },
            },
    {
        let a = positions[0];
        let b = positions[1];
        if a == b {
            return Err(GamePlayError::SelfSwap);
        }
        match swap_rules {
            Swapping::Contiguous(_) => {
                let group = self.depth_first_search(a);
                let mut found = false;
                let mut gi: usize = 0;
                while gi < group.len()
                    invariant
                        gi <= group@.len(),
                        found == group@.take(gi as int).contains(b),
                    decreases group@.len() - gi,
                {
                    if group[gi] == b {
                        found = true;
                        proof {
                            assert(group@.take(gi + 1 as int)[gi as int] == b);
                        }
                    }
                    proof {
                        if group@.take(gi as int).contains(b) {
                            let t = choose|t: int|
                                0 <= t < gi && #[trigger] group@.take(gi as int)[t] == b;
                            assert(group@.take(gi + 1 as int)[t] == b);
                        }
                        if !found && group@.take(gi + 1 as int).contains(b) {
                            let t = choose|t: int|
                                0 <= t < gi + 1 && #[trigger] group@.take(gi + 1 as int)[t] == b;
                            assert(group@[t] == b);
                            assert(t == gi || group@.take(gi as int)[t] == b);
                        }
                    }
                    gi = gi + 1;
                }
                proof {
                    assert(group@.take(group@.len() as int) =~= group@);
                }
                if !found {
                    return Err(GamePlayError::DisjointSwap);
                }
            },
            Swapping::Universal(_) => {},
            Swapping::Disabled => {
                return Err(GamePlayError::NoSwapping);
            },
        }

        let tile_a: char;
        match self.get(a) {
            Err(e) => {
                return Err(e);
            },
            Ok(Square::Empty) => {
                return Err(GamePlayError::UnoccupiedSwap);
            },
            Ok(Square::Occupied(p, t)) => {
                if p != player {
                    return Err(GamePlayError::UnownedSwap);
                }
                tile_a = t;
            },
        }
        let tile_b: char;
        match self.get(b) {
            Err(e) => {
                return Err(e);
            },
            Ok(Square::Empty) => {
                return Err(GamePlayError::UnoccupiedSwap);
            },
            Ok(Square::Occupied(p, t)) => {
                if p != player {
                    return Err(GamePlayError::UnownedSwap);
                }
                tile_b = t;
            },
        }
        if player >= self.roots.len() {
            return Err(GamePlayError::NonExistentPlayer { index: player });
        }

        let mut changes: Vec<Change> = Vec::new();
        let detail_a: BoardChangeDetail;
        match self.set(a, player, tile_b) {
            Ok(d) => {
                detail_a = d;
            },
            Err(_) => {
                proof {
                    assert(false);
                }
                return Err(GamePlayError::SelfSwap);
            },
        }
        proof {
            assert(grid_get(self.grid(), b) == grid_get(old(self).grid(), b));
        }
        let detail_b: BoardChangeDetail;
        match self.set(b, player, tile_a) {
            Ok(d) => {
                detail_b = d;
            },
            Err(_) => {
                proof {
                    assert(false);
                }
                return Err(GamePlayError::SelfSwap);
            },
        }
        changes.push(Change::Board(BoardChange { detail: detail_a, action: BoardChangeAction::Swapped }));
        changes.push(Change::Board(BoardChange { detail: detail_b, action: BoardChangeAction::Swapped }));
        proof {
            assert(changes@ =~= seq![
                Change::Board(
                    BoardChange {
                        detail: detail_a,
                        action: BoardChangeAction::Swapped,
                    },
                ),
                Change::Board(
                    BoardChange {
                        detail: detail_b,
                        action: BoardChangeAction::Swapped,
                    },
                ),
            ]);
        }
        Ok(changes)
    }
}

/// Law: a swap that succeeds can be undone by swapping the same pair again
/// under the same policy — the second swap also succeeds and restores the
/// original grid. (Swapping a cell with itself always fails with the
/// self-swap error whatever the policy: `spec_swap_err` names it first.)
pub proof fn lemma_swap_twice_restores(
    before: Board,
    after: Board,
    player: usize,
    a: Coordinate,
    b: Coordinate,
    policy: Swapping,
)
    requires
        spec_swap_err(before.grid(), before.roots@.len() as int, player, a, b, policy) is None,
        after.grid() == swapped_grid(before.grid(), player, a, b),
        after.roots@ == before.roots@,
    ensures
        spec_swap_err(after.grid(), after.roots@.len() as int, player, a, b, policy) is None,
        swapped_grid(after.grid(), player, a, b) == before.grid(),
{
    let g0 = before.grid();
    let g1 = after.grid();
    let la = letter_of(g0, a);
    let lb = letter_of(g0, b);
    assert(grid_get(g0, a) == Ok::<Square, GamePlayError>(Square::Occupied(player, la)));
    assert(grid_get(g0, b) == Ok::<Square, GamePlayError>(Square::Occupied(player, lb)));
    assert(grid_get(g1, a) == Ok::<Square, GamePlayError>(Square::Occupied(player, lb)));
    assert(grid_get(g1, b) == Ok::<Square, GamePlayError>(Square::Occupied(player, la)));
    assert forall|c: Coordinate| owner_of(g1, c) == owner_of(g0, c) by {
        if c != a && c != b {
            if c.y < g0.len() && c.x < g0[c.y as int].len() {
                assert(g1[c.y as int][c.x as int] == g0[c.y as int][c.x as int]);
            } else {
                assert(grid_get(g1, c) is Err && grid_get(g0, c) is Err);
            }
        }
    }
    if (policy matches Swapping::Contiguous(_)) {
        crate::connect::lemma_reaches_same_owners(g0, g1);
        assert(reaches(g1, a, b));
    }
    assert(letter_of(g1, a) == lb && letter_of(g1, b) == la);
    let g2 = swapped_grid(g1, player, a, b);
    assert forall|i: int| 0 <= i < g0.len() implies g2[i] == g0[i] by {
        assert(g2[i] =~= g0[i]);
    }
    assert(g2 =~= g0);
}

} // verus!