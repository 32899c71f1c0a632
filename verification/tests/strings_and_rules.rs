use truncate_core::bag::TileBag;
use truncate_core::board::Board;
use truncate_core::error::GamePlayError;
use truncate_core::geometry::Coordinate;
use truncate_core::geometry::Direction;
use truncate_core::parse::from_string;
use truncate_core::rules::GameRules;
use truncate_core::rules::Swapping;
use truncate_core::rules::TileBagBehaviour;
use truncate_core::rules::TileDistribution;
use truncate_core::rules::Truncation;
use truncate_core::rules::Visibility;
use truncate_core::rules::WinCondition;
use truncate_core::square::Square;
use truncate_core::ui::CharacterOrient;
use truncate_core::ui::CharacterUI;
use truncate_core::ui::HandSquareUI;
use truncate_core::ui::SquareUI;

#[test]
fn from_string_fails() {
    assert_eq!(
        from_string(
            ["AXB"].join("\n"),
            vec![Coordinate { x: 0, y: 0 }],
            vec![Direction::North],
        ),
        Err("board strings should have spaces to separate each tile")
    );
}

#[test]
fn from_string_succeeds() {
    // Checks that our default boards come out the same after being
    // stringified and parsed
    let boards = [Board::default(), Board::new(34, 28, false)];
    for b in boards {
        assert_eq!(
            from_string(
                b.to_board_string()
                    .split("\nRoots")
                    .next()
                    .unwrap()
                    .to_string(),
                b.roots.clone(),
                b.orientations.clone()
            ),
            Ok(b)
        );
    }

    // Checks that various strings are the same when parsed and stringified
    let strings = [
        ["_ _ _", "_   _", "_ _ _"].join("\n"),
        ["_ X _", "_   A", "V _ _"].join("\n"),
        ["_ X _ _", "_ B A _", "V _ _ _", "  _ J _"].join("\n"),
    ];
    for s in strings {
        let s1 = s.clone();
        assert_eq!(
            from_string(s, vec![Coordinate { x: 0, y: 0 }], vec![Direction::South])
                .unwrap()
                .to_board_string()
                .split("\nRoots")
                .next()
                .unwrap()
                .to_string(),
            s1
        );
    }

    // Checks that various complex boards have the correct players assigned to them
    // Donut board
    let top_left = Coordinate { x: 0, y: 0 };
    let top_right = Coordinate { x: 4, y: 0 };
    let bottom_left = Coordinate { x: 0, y: 4 };
    let bottom_right = Coordinate { x: 4, y: 4 };
    let dangling = Coordinate { x: 2, y: 3 };
    let hole = Coordinate { x: 2, y: 2 };
    let donut = from_string(
        [
            "A _ _ _ B",
            "_ _ _ _ _",
            "_ _   _ _",
            "_ _ D _ _",
            "C _ _ _ _",
        ]
        .join("\n"),
        vec![top_left, top_right, bottom_left, bottom_right],
        vec![Direction::North; 4],
    )
    .unwrap();
    assert_eq!(donut.get(top_left), Ok(Square::Occupied(0, 'A')));
    assert_eq!(donut.get(top_right), Ok(Square::Occupied(1, 'B')));
    assert_eq!(donut.get(bottom_left), Ok(Square::Occupied(2, 'C')));
    assert_eq!(
        donut.get(hole),
        Err(GamePlayError::InvalidPosition { position: hole })
    );
    assert_eq!(donut.get(dangling), Ok(Square::Occupied(0, 'D')));
    assert_eq!(donut.get(Coordinate { x: 1, y: 1 }), Ok(Square::Empty));

    // Complex trees
    let player_1 = [
        Coordinate { x: 2, y: 0 }, // First row
        Coordinate { x: 0, y: 1 }, // Second row
        Coordinate { x: 1, y: 1 },
        Coordinate { x: 2, y: 1 },
        Coordinate { x: 3, y: 1 },
        Coordinate { x: 4, y: 1 },
        Coordinate { x: 0, y: 2 }, // Third row
        Coordinate { x: 0, y: 3 }, // Fourth row
        Coordinate { x: 0, y: 4 }, // Fifth row
        Coordinate { x: 1, y: 4 },
        Coordinate { x: 0, y: 5 }, // Sixth row
    ];
    let player_2 = [
        Coordinate { x: 2, y: 6 }, // Seventh row
        Coordinate { x: 2, y: 5 }, // Sixth row
        Coordinate { x: 3, y: 5 },
        Coordinate { x: 3, y: 4 }, // Fifth row
        Coordinate { x: 2, y: 3 }, // Fourth row
        Coordinate { x: 3, y: 3 },
        Coordinate { x: 4, y: 3 },
    ];
    let complex_tree = from_string(
        [
            "    A    ",
            "A A A A A",
            "A _ _ _ _",
            "A _ B B B",
            "A A _ B _",
            "A _ B B _",
            "    B    ",
        ]
        .join("\n"),
        vec![player_1[0], player_2[0]],
        vec![Direction::North; 2],
    )
    .unwrap();

    for square in player_1 {
        assert_eq!(complex_tree.get(square), Ok(Square::Occupied(0, 'A')));
    }
    for square in player_2 {
        assert_eq!(complex_tree.get(square), Ok(Square::Occupied(1, 'B')));
    }
}

#[test]
fn from_string_rejects_mismatched_players() {
    assert_eq!(
        from_string(
            "_ _".to_string(),
            vec![Coordinate { x: 0, y: 0 }],
            vec![Direction::North, Direction::South],
        ),
        Err("Every player needs a root and orientation")
    );
}

#[test]
fn from_string_rejects_jagged_grids() {
    assert_eq!(
        from_string(
            ["_ _ _", "_ _"].join("\n"),
            vec![Coordinate { x: 0, y: 0 }],
            vec![Direction::North],
        ),
        Err("Unequal line lengths")
    );
}

#[test]
fn trim_undoes_grow() {
    // A rectangular board with content on every border row and column.
    let source = [
        "_ _ C _ _",
        "_ _ R _ _",
        "S W O R D",
        "_ _ S _ _",
        "_ _ S _ _",
    ]
    .join("\n");
    let mut b = from_string(
        source,
        vec![Coordinate { x: 0, y: 0 }],
        vec![Direction::South],
    )
    .unwrap();
    let before = b.clone();
    b.grow();
    assert_eq!(b.width(), 7);
    assert_eq!(b.height(), 7);
    assert_eq!(b.roots[0], Coordinate { x: 1, y: 1 });
    b.trim();
    assert_eq!(b, before);
}

#[test]
fn grown_boards_shift_roots() {
    let mut b = Board::new(3, 1, false);
    b.grow();
    assert_eq!(
        b.to_board_string(),
        [
            "         ",
            "    _    ",
            "  _ _ _  ",
            "    _    ",
            "         ",
            "Roots: (2, 1) / (2, 3)"
        ]
        .join("\n")
    );
}

#[test]
fn searches_from_connected_cells_agree() {
    let b = from_string(
        [
            "_ A _",
            "A A _",
            "_ A _",
        ]
        .join("\n"),
        vec![Coordinate { x: 0, y: 0 }],
        vec![Direction::South],
    )
    .unwrap();
    let from_top = b.depth_first_search(Coordinate { x: 1, y: 0 });
    let from_left = b.depth_first_search(Coordinate { x: 0, y: 1 });
    assert_eq!(from_top.len(), 4);
    assert_eq!(from_left.len(), 4);
    for c in &from_top {
        assert!(from_left.contains(c));
    }
    for c in &from_left {
        assert!(from_top.contains(c));
    }
}

#[test]
fn truncate_keeps_attached_territory_only() {
    let mut board = from_string(
        [
            "_ A _ D",
            "_ A _ D",
            "_ _ _ _",
            "_ _ C C",
        ]
        .join("\n"),
        vec![Coordinate { x: 1, y: 0 }],
        vec![Direction::South],
    )
    .unwrap();
    let mut bag = TileBag::new();
    let changes = board.truncate(&mut bag);
    // One event and one reclaimed letter per removed cell, in scan order.
    assert_eq!(changes.len(), 4);
    assert_eq!(bag.returned_tiles(), &vec!['D', 'D', 'C', 'C']);
    assert_eq!(
        board.to_board_string(),
        ["_ A _ _", "_ A _ _", "_ _ _ _", "_ _ _ _", "Roots: (1, 0)"].join("\n")
    );
}

#[test]
fn default_game_rules() {
    let rules = GameRules::default();
    assert!(matches!(rules.win_condition, WinCondition::Destination));
    assert!(matches!(rules.visibility, Visibility::FogOfWar));
    assert!(matches!(rules.truncation, Truncation::Disabled));
    assert_eq!(rules.hand_size, 7);
    assert!(matches!(rules.tile_distribution, TileDistribution::Standard));
    assert!(matches!(rules.tile_bag_behaviour, TileBagBehaviour::Standard));
    assert_eq!(rules.battle_rules.length_delta, 2);
    match rules.swapping {
        Swapping::Contiguous(penalty) => {
            assert_eq!(penalty.swap_threshold, 2);
            assert_eq!(penalty.penalties, vec![5, 10, 30, 60, 120, 240]);
        }
        _ => panic!("default swapping should be contiguous"),
    }
}

#[test]
fn ui_builders_set_flags() {
    let tile = CharacterUI::new('A', CharacterOrient::North)
        .hovered(true)
        .selected(true)
        .active(false)
        .ghosted(true)
        .truncated(true)
        .defeated(true)
        .gone(true);
    assert_eq!(tile.letter, 'A');
    assert!(tile.hovered && tile.selected && !tile.active);
    assert!(tile.ghosted && tile.truncated && tile.defeated && tile.gone);

    let square = SquareUI::new(Coordinate::new(1, 2))
        .enabled(false)
        .empty(true)
        .selected(true)
        .overlay(Some('Z'));
    assert_eq!(square.coord, Coordinate::new(1, 2));
    assert!(!square.enabled && square.empty && square.selected);
    assert_eq!(square.overlay, Some('Z'));

    let hand = HandSquareUI::new().empty(true);
    assert!(hand.empty);

    let board = Board::new(3, 1, false);
    let board_ui = truncate_core::ui::BoardUI::new(&board);
    assert_eq!(board_ui.board.width(), 3);
}

#[test]
fn snapshot_renders_multi_digit_roots() {
    let b = Board::new(34, 28, false);
    assert_eq!(b.get_root(0), Ok(Coordinate { x: 16, y: 0 }));
    assert_eq!(b.get_root(1), Ok(Coordinate { x: 17, y: 29 }));
    let snapshot = b.to_board_string();
    assert!(snapshot.ends_with("Roots: (16, 0) / (17, 29)"));
}
