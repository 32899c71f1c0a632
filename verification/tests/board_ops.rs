use truncate_core::board::Board;
use truncate_core::error::GamePlayError;
use truncate_core::geometry::Coordinate;
use truncate_core::geometry::Direction;
use truncate_core::parse::from_string;
use truncate_core::reporting::BoardChange;
use truncate_core::reporting::BoardChangeAction;
use truncate_core::reporting::BoardChangeDetail;
use truncate_core::reporting::Change;
use truncate_core::rules::SwapPenalty;
use truncate_core::rules::Swapping;
use truncate_core::square::Square;

fn penalty() -> SwapPenalty {
    SwapPenalty { swap_threshold: 2, penalties: vec![5, 10, 30, 60, 120, 240] }
}

#[test]
fn makes_default_boards() {
    assert_eq!(
        Board::new(3, 1, false).to_board_string(),
        ["  _  ", "_ _ _", "  _  ", "Roots: (1, 0) / (1, 2)"].join("\n")
    );

    assert_eq!(
        Board::new(3, 1, true).to_board_string(),
        [
            "         ",
            "    _    ",
            "  _ _ _  ",
            "    _    ",
            "         ",
            "Roots: (2, 1) / (2, 3)"
        ]
        .join("\n")
    );

    assert_eq!(
        Board::new(3, 2, false).to_board_string(),
        ["  _  ", "_ _ _", "_ _ _", "  _  ", "Roots: (1, 0) / (1, 3)"].join("\n")
    );

    assert_eq!(
        Board::new(2, 1, false).to_board_string(),
        ["_  ", "_ _", "  _", "Roots: (0, 0) / (1, 2)"].join("\n")
    );

    assert_eq!(
        Board::new(5, 1, false).to_board_string(),
        [
            "    _    ",
            "_ _ _ _ _",
            "    _    ",
            "Roots: (2, 0) / (2, 2)"
        ]
        .join("\n")
    );

    assert_eq!(
        Board::new(6, 1, false).to_board_string(),
        [
            "    _      ",
            "_ _ _ _ _ _",
            "      _    ",
            "Roots: (2, 0) / (3, 2)"
        ]
        .join("\n")
    );
}

#[test]
fn trim_board() {
    fn assert_board_trim(before: (String, Coordinate), after: (String, Coordinate)) {
        let mut b = from_string(before.0, vec![before.1], vec![Direction::South]).unwrap();

        b.trim();

        assert_eq!(b.to_board_string(), after.0);
        assert_eq!(b.roots[0], after.1);
    }

    // Nothing to trim
    assert_board_trim(
        (
            [
                "_ _ _ _ _",
                "_ _ R _ _",
                "_ W O R _",
                "_ _ S _ _",
                "_ _ _ _ _",
            ]
            .join("\n"),
            Coordinate::new(2, 2),
        ),
        (
            [
                "_ _ _ _ _",
                "_ _ R _ _",
                "_ W O R _",
                "_ _ S _ _",
                "_ _ _ _ _",
                "Roots: (2, 2)",
            ]
            .join("\n"),
            Coordinate::new(2, 2),
        ),
    );

    // Edges to trim
    assert_board_trim(
        (
            [
                "         ",
                "  _ R _  ",
                "  W O R  ",
                "  _ S _  ",
                "         ",
            ]
            .join("\n"),
            Coordinate::new(2, 1),
        ),
        (
            ["_ R _", "W O R", "_ S _", "Roots: (1, 0)"].join("\n"),
            Coordinate::new(1, 0),
        ),
    );

    // Don't trim inners
    assert_board_trim(
        (
            [
                "_ _ _   _",
                "_ _ R   _",
                "         ",
                "_ _ S   _",
                "         ",
            ]
            .join("\n"),
            Coordinate::new(0, 0),
        ),
        (
            [
                "_ _ _   _",
                "_ _ R   _",
                "         ",
                "_ _ S   _",
                "Roots: (0, 0)",
            ]
            .join("\n"),
            Coordinate::new(0, 0),
        ),
    );
}

#[test]
fn width_height() {
    let b = Board::new(6, 1, false);
    assert_eq!(b.width(), 6);
    assert_eq!(b.height(), 3);
}

#[test]
fn getset_errors_out_of_bounds() {
    let mut b = Board::new(1, 1, false); // Note, height is 3 from home rows
    for position in [Coordinate { x: 1, y: 0 }, Coordinate { x: 0, y: 3 }] {
        assert_eq!(
            b.get(position),
            Err(GamePlayError::OutSideBoardDimensions { position })
        );
        assert_eq!(
            b.set(position, 0, 'a'),
            Err(GamePlayError::OutSideBoardDimensions { position })
        );
    }
}

#[test]
fn getset_errors_for_dead_squares() {
    let mut b = Board::new(2, 1, false); // Note, height is 3 from home rows

    for position in [Coordinate { x: 1, y: 0 }, Coordinate { x: 0, y: 2 }] {
        assert_eq!(
            b.get(position),
            Err(GamePlayError::InvalidPosition { position })
        );
        assert_eq!(
            b.set(position, 0, 'a'),
            Err(GamePlayError::InvalidPosition { position })
        );
    }
}

#[test]
fn getset_handles_empty_squares() {
    let mut b = Board::new(2, 1, false); // Note, height is 3 from home rows
    assert_eq!(b.get(Coordinate { x: 0, y: 0 }), Ok(Square::Empty));
    assert_eq!(b.get(Coordinate { x: 0, y: 1 }), Ok(Square::Empty));
    assert_eq!(b.get(Coordinate { x: 1, y: 1 }), Ok(Square::Empty));
    assert_eq!(b.get(Coordinate { x: 1, y: 2 }), Ok(Square::Empty));

    assert_eq!(
        b.set(Coordinate { x: 0, y: 0 }, 0, 'a'),
        Ok(BoardChangeDetail {
            square: Square::Occupied(0, 'a'),
            coordinate: Coordinate { x: 0, y: 0 },
        })
    );
    assert_eq!(
        b.set(Coordinate { x: 0, y: 1 }, 0, 'a'),
        Ok(BoardChangeDetail {
            square: Square::Occupied(0, 'a'),
            coordinate: Coordinate { x: 0, y: 1 },
        })
    );
    assert_eq!(
        b.set(Coordinate { x: 1, y: 1 }, 0, 'a'),
        Ok(BoardChangeDetail {
            square: Square::Occupied(0, 'a'),
            coordinate: Coordinate { x: 1, y: 1 },
        })
    );
    assert_eq!(
        b.set(Coordinate { x: 1, y: 2 }, 0, 'a'),
        Ok(BoardChangeDetail {
            square: Square::Occupied(0, 'a'),
            coordinate: Coordinate { x: 1, y: 2 },
        })
    );
}

#[test]
fn set_requires_valid_player() {
    let mut b = Board::new(2, 1, false);
    assert_eq!(
        b.set(Coordinate { x: 1, y: 2 }, 0, 'a'),
        Ok(BoardChangeDetail {
            square: Square::Occupied(0, 'a'),
            coordinate: Coordinate { x: 1, y: 2 },
        })
    );
    assert_eq!(
        b.set(Coordinate { x: 1, y: 2 }, 1, 'a'),
        Ok(BoardChangeDetail {
            square: Square::Occupied(1, 'a'),
            coordinate: Coordinate { x: 1, y: 2 },
        })
    );
    assert_eq!(
        b.set(Coordinate { x: 1, y: 2 }, 2, 'a'),
        Err(GamePlayError::NonExistentPlayer { index: 2 })
    );
    assert_eq!(
        b.set(Coordinate { x: 1, y: 2 }, 3, 'a'),
        Err(GamePlayError::NonExistentPlayer { index: 3 })
    );
    assert_eq!(
        b.set(Coordinate { x: 1, y: 2 }, 100, 'a'),
        Err(GamePlayError::NonExistentPlayer { index: 100 })
    );
}

#[test]
fn set_changes_get() {
    let mut b = Board::new(1, 1, false); // Note, height is 3 from home rows
    assert_eq!(b.get(Coordinate { x: 0, y: 0 }), Ok(Square::Empty));
    assert_eq!(
        b.set(Coordinate { x: 0, y: 0 }, 0, 'a'),
        Ok(BoardChangeDetail {
            square: Square::Occupied(0, 'a'),
            coordinate: Coordinate { x: 0, y: 0 },
        })
    );
    assert_eq!(
        b.get(Coordinate { x: 0, y: 0 }),
        Ok(Square::Occupied(0, 'a'))
    );
}

fn same_coordinate_set(found: &[Coordinate], expected: &[Coordinate]) -> bool {
    expected.iter().all(|c| found.contains(c)) && found.iter().all(|c| expected.contains(c))
}

#[test]
fn depth_first_search() {
    let mut b = Board::new(3, 1, false);

    // Create a connected tree
    let parts = [
        Coordinate { x: 2, y: 1 },
        Coordinate { x: 1, y: 1 },
        Coordinate { x: 1, y: 0 },
        Coordinate { x: 0, y: 1 },
    ];
    for part in parts {
        assert_eq!(
            b.set(part, 0, 'a'),
            Ok(BoardChangeDetail {
                square: Square::Occupied(0, 'a'),
                coordinate: part,
            })
        );
    }

    // The tree should be returned no matter where in the tree we start from
    for part in parts {
        assert!(same_coordinate_set(&b.depth_first_search(part), &parts));
    }

    // Set the remaining unoccupied square on the board to be occupied by another player
    let other = Coordinate { x: 1, y: 2 };
    // When unoccupied it should give the empty set, when occupied, just itself
    assert!(b.depth_first_search(other).is_empty());
    assert_eq!(
        b.set(other, 1, 'a'),
        Ok(BoardChangeDetail {
            square: Square::Occupied(1, 'a'),
            coordinate: other,
        })
    );
    assert!(same_coordinate_set(&b.depth_first_search(other), &[other]));

    // The result on the main tree should not have changed
    for part in parts {
        assert!(same_coordinate_set(&b.depth_first_search(part), &parts));
    }
}

#[test]
fn get_neighbours() {
    // (0,0) (1,0) (2,0)
    // (0,1) (1,1) (2,1)
    // (0,2) (1,2) (2,2)
    // (0,3) (1,3) (2,3)
    // (0,4) (1,4) (2,4)
    let b = Board::new(3, 3, false);

    assert_eq!(
        b.neighbouring_squares(Coordinate { x: 0, y: 0 }),
        [
            (Coordinate { x: 0, y: 1 }, Square::Empty),
            (Coordinate { x: 1, y: 0 }, Square::Empty),
        ]
    );

    assert_eq!(
        b.neighbouring_squares(Coordinate { x: 1, y: 0 }),
        [(Coordinate { x: 1, y: 1 }, Square::Empty),]
    );

    assert_eq!(
        b.neighbouring_squares(Coordinate { x: 1, y: 2 }),
        [
            (Coordinate { x: 1, y: 3 }, Square::Empty),
            (Coordinate { x: 2, y: 2 }, Square::Empty),
            (Coordinate { x: 1, y: 1 }, Square::Empty),
            (Coordinate { x: 0, y: 2 }, Square::Empty),
        ]
    );

    assert_eq!(
        b.neighbouring_squares(Coordinate { x: 1, y: 4 }),
        [(Coordinate { x: 1, y: 3 }, Square::Empty),]
    );
}

#[test]
fn swap() {
    let mut b = Board::new(3, 1, false);
    let c0_1 = Coordinate { x: 0, y: 1 };
    let c1_1 = Coordinate { x: 1, y: 1 };
    let c2_1 = Coordinate { x: 2, y: 1 };
    assert_eq!(
        b.set(c0_1, 0, 'a'),
        Ok(BoardChangeDetail {
            square: Square::Occupied(0, 'a'),
            coordinate: c0_1,
        })
    );
    assert_eq!(
        b.set(c1_1, 0, 'b'),
        Ok(BoardChangeDetail {
            square: Square::Occupied(0, 'b'),
            coordinate: c1_1,
        })
    );
    assert_eq!(
        b.set(c2_1, 1, 'c'),
        Ok(BoardChangeDetail {
            square: Square::Occupied(1, 'c'),
            coordinate: c2_1,
        })
    );

    assert_eq!(b.get(c0_1), Ok(Square::Occupied(0, 'a')));
    assert_eq!(b.get(c1_1), Ok(Square::Occupied(0, 'b')));
    assert_eq!(
        b.swap(0, [c0_1, c1_1], &Swapping::Contiguous(penalty())),
        Ok(vec![
            Change::Board(BoardChange {
                detail: BoardChangeDetail {
                    square: Square::Occupied(0, 'b'),
                    coordinate: c0_1,
                },
                action: BoardChangeAction::Swapped
            }),
            Change::Board(BoardChange {
                detail: BoardChangeDetail {
                    square: Square::Occupied(0, 'a'),
                    coordinate: c1_1,
                },
                action: BoardChangeAction::Swapped
            })
        ])
    );
    assert_eq!(b.get(c0_1), Ok(Square::Occupied(0, 'b')));
    assert_eq!(b.get(c1_1), Ok(Square::Occupied(0, 'a')));
    assert_eq!(
        b.swap(0, [c0_1, c0_1], &Swapping::Contiguous(penalty())),
        Err(GamePlayError::SelfSwap)
    );
    assert_eq!(
        b.swap(0, [c0_1, c2_1], &Swapping::Contiguous(penalty())),
        Err(GamePlayError::DisjointSwap)
    );
    assert_eq!(
        b.swap(0, [c0_1, c2_1], &Swapping::Universal(penalty())),
        Err(GamePlayError::UnownedSwap)
    );
    assert_eq!(
        b.swap(1, [c0_1, c1_1], &Swapping::Contiguous(penalty())),
        Err(GamePlayError::UnownedSwap)
    );
}

#[test]
fn disjoint_swapping() {
    let mut b = from_string(
        [
            "_ _ C _ _",
            "_ _ R _ _",
            "_ _ _ _ _",
            "_ _ S _ _",
            "_ _ S _ _",
        ]
        .join("\n"),
        vec![Coordinate { x: 0, y: 0 }],
        vec![Direction::South],
    )
    .unwrap();

    let pos1 = Coordinate { x: 2, y: 1 };
    let pos2 = Coordinate { x: 2, y: 3 };

    assert_eq!(
        b.swap(0, [pos1, pos2], &Swapping::Disabled),
        Err(GamePlayError::NoSwapping)
    );

    assert_eq!(
        b.swap(0, [pos1, pos2], &Swapping::Contiguous(penalty())),
        Err(GamePlayError::DisjointSwap)
    );

    assert_eq!(
        b.swap(0, [pos1, pos2], &Swapping::Universal(penalty())),
        Ok(vec![
            Change::Board(BoardChange {
                detail: BoardChangeDetail {
                    square: Square::Occupied(0, 'S'),
                    coordinate: pos1,
                },
                action: BoardChangeAction::Swapped
            }),
            Change::Board(BoardChange {
                detail: BoardChangeDetail {
                    square: Square::Occupied(0, 'R'),
                    coordinate: pos2,
                },
                action: BoardChangeAction::Swapped
            })
        ])
    );
}

#[test]
fn swapping_twice_restores_letters() {
    let mut b = Board::new(3, 1, false);
    let a = Coordinate { x: 0, y: 1 };
    let c = Coordinate { x: 1, y: 1 };
    b.set(a, 0, 'x').unwrap();
    b.set(c, 0, 'y').unwrap();

    let before = b.clone();
    b.swap(0, [a, c], &Swapping::Contiguous(penalty())).unwrap();
    assert_eq!(b.get(a), Ok(Square::Occupied(0, 'y')));
    b.swap(0, [a, c], &Swapping::Contiguous(penalty())).unwrap();
    assert_eq!(b, before);

    // A self-swap fails whatever the policy allows.
    assert_eq!(
        b.swap(0, [a, a], &Swapping::Universal(penalty())),
        Err(GamePlayError::SelfSwap)
    );
    assert_eq!(
        b.swap(0, [a, a], &Swapping::Disabled),
        Err(GamePlayError::SelfSwap)
    );
}

#[test]
fn clear_returns_prior_tile() {
    let mut b = Board::new(2, 1, false);
    let spot = Coordinate { x: 0, y: 1 };
    assert_eq!(b.clear(spot), None);
    b.set(spot, 0, 'q').unwrap();
    assert_eq!(
        b.clear(spot),
        Some(BoardChangeDetail {
            square: Square::Occupied(0, 'q'),
            coordinate: spot,
        })
    );
    assert_eq!(b.get(spot), Ok(Square::Empty));
    // Void and out-of-range cells are left alone.
    assert_eq!(b.clear(Coordinate { x: 1, y: 0 }), None);
    assert_eq!(b.clear(Coordinate { x: 9, y: 9 }), None);
}

#[test]
fn roots_and_orientations() {
    let b = Board::new(3, 1, false);
    assert_eq!(b.get_root(0), Ok(Coordinate { x: 1, y: 0 }));
    assert_eq!(b.get_root(1), Ok(Coordinate { x: 1, y: 2 }));
    assert_eq!(
        b.get_root(2),
        Err(GamePlayError::NonExistentPlayer { index: 2 })
    );
    assert_eq!(
        b.get_orientations(),
        &vec![Direction::North, Direction::South]
    );
}

#[test]
fn coordinate_steps_clamp_at_zero() {
    let origin = Coordinate::new(0, 0);
    assert_eq!(origin.add(Direction::North), origin);
    assert_eq!(origin.add(Direction::West), origin);
    assert_eq!(origin.add(Direction::East), Coordinate::new(1, 0));
    assert_eq!(origin.add(Direction::South), Coordinate::new(0, 1));
    assert_eq!(
        Coordinate::new(2, 2).neighbors_4(),
        [
            Coordinate::new(2, 1),
            Coordinate::new(3, 2),
            Coordinate::new(2, 3),
            Coordinate::new(1, 2),
        ]
    );
    assert_eq!(
        Coordinate::new(1, 1).neighbors_8(),
        [
            Coordinate::new(0, 0),
            Coordinate::new(1, 0),
            Coordinate::new(2, 0),
            Coordinate::new(2, 1),
            Coordinate::new(2, 2),
            Coordinate::new(1, 2),
            Coordinate::new(0, 2),
            Coordinate::new(0, 1),
        ]
    );
    assert_eq!(Direction::NorthEast.opposite(), Direction::SouthWest);
    assert_eq!(Direction::North.opposite(), Direction::South);
}
