//! Rule parameters supplied at game setup.
//!
//! The board consumes these but never owns or mutates them; only the swap
//! policy and the visibility policy influence board operations directly.

use vstd::prelude::*;

verus! {

#[derive(Clone, Copy, Debug, PartialEq, Eq, Structural)]
pub enum WinCondition {
    Destination,
    Elimination,
}

#[derive(Clone, Copy, Debug, PartialEq, Eq, Structural)]
pub enum Visibility {
    Standard,
    FogOfWar,
}

#[derive(Clone, Copy, Debug, PartialEq, Eq, Structural)]
pub enum Truncation {
    Root,
    Larger,
    Disabled,
}

#[derive(Clone, Copy, Debug, PartialEq, Eq, Structural)]
pub enum OvertimeRule {
    FreeWildcard { period: usize },
    RemoveTiles { period: usize, phase_time: usize },
    Elimination,
}

#[derive(Clone, Copy, Debug, PartialEq, Eq, Structural)]
pub enum Timing {
    PerPlayer { time_allowance: usize, overtime_rule: OvertimeRule },
    PerTurn { time_allowance: usize },
    Periodic { turn_delay: usize },
    Untimed,
}

#[derive(Clone, Copy, Debug, PartialEq, Eq, Structural)]
pub enum TileDistribution {
    Standard,
}

#[derive(Clone, Copy, Debug, PartialEq, Eq, Structural)]
pub enum TileBagBehaviour {
    Standard,
    Infinite,
}

#[derive(Clone, Copy, Debug, PartialEq, Eq, Structural)]
pub struct BattleRules {
    pub length_delta: isize,
}

/// The penalty schedule applied by the turn resolver to repeated swaps; the
/// board itself never reads it.
#[derive(Clone, Debug, PartialEq, Eq)]
pub struct SwapPenalty {
    pub swap_threshold: usize,
    pub penalties: Vec<usize>,
}

#[derive(Clone, Debug, PartialEq, Eq)]
pub enum Swapping {
    Contiguous(SwapPenalty),
    Universal(SwapPenalty),
    Disabled,
}

#[derive(Clone, Debug, PartialEq, Eq)]
pub struct GameRules {
    pub win_condition: WinCondition,
    pub visibility: Visibility,
    pub truncation: Truncation,
    pub timing: Timing,
    pub hand_size: usize,
    pub tile_distribution: TileDistribution,
    pub tile_bag_behaviour: TileBagBehaviour,
    pub battle_rules: BattleRules,
    pub swapping: Swapping,
}

impl Default for GameRules {
    fn default() -> (r: Self)
        ensures
            r.win_condition == WinCondition::Destination,
            r.visibility == Visibility::FogOfWar,
            r.truncation == Truncation::Disabled,
            r.timing == (Timing::PerPlayer {
                time_allowance: 600,
                overtime_rule: OvertimeRule::FreeWildcard { period: 60 },
            }),
            r.hand_size == 7,
            r.tile_distribution == TileDistribution::Standard,
            r.tile_bag_behaviour == TileBagBehaviour::Standard,
            r.battle_rules == (BattleRules { length_delta: 2 }),
            r.swapping matches Swapping::Contiguous(p) && p.swap_threshold == 2 && p.penalties@
                =~= seq![5usize, 10, 30, 60, 120, 240],
    {
        Self {
            win_condition: WinCondition::Destination,
            visibility: Visibility::FogOfWar,
            truncation: Truncation::Disabled,
            timing: Timing::PerPlayer {
                time_allowance: 600,
                overtime_rule: OvertimeRule::FreeWildcard { period: 60 },
            },
            hand_size: 7,
            tile_distribution: TileDistribution::Standard,
            tile_bag_behaviour: TileBagBehaviour::Standard,
            battle_rules: BattleRules { length_delta: 2 },
            swapping: Swapping::Contiguous(
                SwapPenalty { swap_threshold: 2, penalties: vec![5, 10, 30, 60, 120, 240] },
            ),
        }
    }
}

} // verus!
