use truncate_core::bag::TileBag;
use truncate_core::board::Board;
use truncate_core::error::GamePlayError;
use truncate_core::geometry::Coordinate;
use truncate_core::geometry::Direction;
use truncate_core::parse::from_string;
use truncate_core::reporting::BoardChangeAction;
use truncate_core::reporting::Change;
use truncate_core::rules::Visibility;
use truncate_core::square::Square;

#[test]
fn get_words() {
    // Should return an empty list of words for all points on an empty board,
    // and for positions off the board
    let empty: Vec<Vec<Coordinate>> = vec![];
    let b = Board::default();
    for x in 0..12 {
        for y in 0..12 {
            assert_eq!(
                b.get_words(Coordinate {
                    x: usize::wrapping_sub(x, 2),
                    y: usize::wrapping_sub(y, 2)
                }),
                empty
            );
        }
    }

    // Gets two words in the middle of a cross
    let b = from_string(
        [
            "_ _ C _ _",
            "_ _ R _ _",
            "S W O R D",
            "_ _ S _ _",
            "_ _ S _ _",
        ]
        .join("\n"),
        vec![Coordinate { x: 0, y: 0 }],
        vec![Direction::South],
    )
    .unwrap();
    let cross = ([0, 1, 2, 3, 4]).map(|y| Coordinate { x: 2, y });
    let sword = ([0, 1, 2, 3, 4]).map(|x| Coordinate { x, y: 2 });
    assert_eq!(b.get_words(Coordinate { x: 2, y: 2 }), vec![cross, sword]);

    let just_cross = ([0, 1, 3, 4]).map(|y| Coordinate { x: 2, y });
    for square in just_cross {
        assert_eq!(b.get_words(square), vec![cross]);
    }

    let just_sword = ([0, 1, 3, 4]).map(|x| Coordinate { x, y: 2 });
    for square in just_sword {
        assert_eq!(b.get_words(square), vec![sword]);
    }

    // Doesn't cross other players
    let mut b = from_string(
        [
            "_ _ C _ _",
            "_ _ R _ _",
            "_ _ O _ _",
            "_ _ S _ _",
            "_ _ S _ _",
        ]
        .join("\n"),
        vec![Coordinate { x: 0, y: 0 }, Coordinate { x: 4, y: 4 }],
        vec![Direction::South, Direction::North],
    )
    .unwrap();
    assert_eq!(
        b.get(Coordinate { x: 2, y: 4 }),
        Ok(Square::Occupied(0, 'S'))
    );
    assert_eq!(
        b.set(Coordinate { x: 3, y: 4 }, 1, 'O'),
        Ok(truncate_core::reporting::BoardChangeDetail {
            square: Square::Occupied(1, 'O'),
            coordinate: Coordinate { x: 3, y: 4 },
        })
    );
    assert_eq!(b.get_words(Coordinate { x: 2, y: 4 }), vec![cross]);
}

#[test]
fn get_words_orientations() {
    let corners = vec![
        Coordinate { x: 0, y: 0 }, // Anti-clockwise from the top left
        Coordinate { x: 0, y: 6 },
        Coordinate { x: 6, y: 6 },
        Coordinate { x: 6, y: 0 },
    ];
    let cc = corners.clone();

    let b = from_string(
        [
            "N E Z _ G A N",
            "A _ _ _ _ _ E",
            "G _ _ _ _ _ Z",
            "_ _ _ _ _ _ _",
            "Z _ _ _ _ _ G",
            "E _ _ _ _ _ A",
            "N A G _ Z E N",
        ]
        .join("\n"),
        corners,
        vec![
            Direction::West,
            Direction::South,
            Direction::East,
            Direction::North,
        ],
    )
    .unwrap();

    for corner in cc {
        let mut words = b.word_strings(&b.get_words(corner)).unwrap();
        words.sort();
        assert_eq!(words, vec!["NAG", "ZEN"]);
    }
}

#[test]
fn get_near_edge() {
    let b = Board::new(3, 1, false);
    assert_eq!(
        b.get_near_edge(Direction::North),
        vec![
            Coordinate { x: 0, y: 1 },
            Coordinate { x: 1, y: 1 },
            Coordinate { x: 2, y: 1 }
        ]
    );

    assert_eq!(
        b.get_near_edge(Direction::South),
        vec![
            Coordinate { x: 0, y: 1 },
            Coordinate { x: 1, y: 1 },
            Coordinate { x: 2, y: 1 }
        ]
    );
    assert_eq!(
        b.get_near_edge(Direction::East),
        vec![
            Coordinate { y: 0, x: 1 },
            Coordinate { y: 1, x: 1 },
            Coordinate { y: 2, x: 1 }
        ]
    );

    assert_eq!(
        b.get_near_edge(Direction::West),
        vec![
            Coordinate { y: 0, x: 1 },
            Coordinate { y: 1, x: 1 },
            Coordinate { y: 2, x: 1 }
        ]
    );
}

#[test]
fn apply_fog_of_war() {
    let board = from_string(
        [
            "    A    ",
            "A A A A A",
            "A _ _ A _",
            "A _ _ _ _",
            "A A _ B _",
            "A _ B B _",
            "    B    ",
        ]
        .join("\n"),
        vec![Coordinate { x: 2, y: 0 }, Coordinate { x: 2, y: 6 }],
        vec![Direction::North; 2],
    )
    .unwrap();

    let foggy = board.fog_of_war(1);
    assert_eq!(
        foggy.to_board_string(),
        [
            "    _    ",
            "A _ _ A _",
            "A _ _ A _",
            "A _ _ _ _",
            "A A _ B _",
            "A _ B B _",
            "    B    ",
            "Roots: (2, 0) / (2, 6)",
        ]
        .join("\n")
    );
}

#[test]
fn apply_disjoint_fog_of_war() {
    let board = from_string(
        [
            "    A    ",
            "A A A _ A",
            "A _ _ A _",
            "A _ _ _ _",
            "_ B _ B _",
            "_ B B B _",
            "    B    ",
        ]
        .join("\n"),
        vec![Coordinate { x: 2, y: 0 }, Coordinate { x: 2, y: 6 }],
        vec![Direction::North; 2],
    )
    .unwrap();

    let foggy = board.fog_of_war(0);
    assert_eq!(
        foggy.to_board_string(),
        [
            "    A    ",
            "A A A _ A",
            "A _ _ A _",
            "A _ _ _ _",
            "_ B _ B _",
            "_ B _ B _",
            "    _    ",
            "Roots: (2, 0) / (2, 6)",
        ]
        .join("\n")
    );
}

#[test]
fn filter_to_player_lifts_fog() {
    let board = from_string(
        [
            "    A    ",
            "A A A A A",
            "A _ _ A _",
            "A _ _ _ _",
            "A A _ B _",
            "A _ B B _",
            "    B    ",
        ]
        .join("\n"),
        vec![Coordinate { x: 2, y: 0 }, Coordinate { x: 2, y: 6 }],
        vec![Direction::North; 2],
    )
    .unwrap();

    // Standard visibility and a finished game both return the whole board.
    let standard = board.filter_to_player(1, &Visibility::Standard, &None);
    assert_eq!(standard, board);
    let finished = board.filter_to_player(1, &Visibility::FogOfWar, &Some(0));
    assert_eq!(finished, board);
    // Fog of war during play filters.
    let fogged = board.filter_to_player(1, &Visibility::FogOfWar, &None);
    assert_eq!(fogged.to_board_string(), board.fog_of_war(1).to_board_string());
    assert_ne!(fogged, board);
}

#[test]
fn truncate_prunes_detached_territory() {
    // The second root sits on the lone B, so it becomes player 1's tile.
    let mut board = from_string(
        [
            "_ A _",
            "_ A _",
            "_ _ _",
            "B _ C",
        ]
        .join("\n"),
        vec![Coordinate { x: 1, y: 0 }, Coordinate { x: 0, y: 3 }],
        vec![Direction::South, Direction::North],
    )
    .unwrap();
    assert_eq!(board.get(Coordinate { x: 0, y: 3 }), Ok(Square::Occupied(1, 'B')));

    let mut bag = TileBag::new();
    let changes = board.truncate(&mut bag);

    // The column attached to player 0's root stays; so does player 1's own
    // rooted tile; the stray C is reclaimed with exactly one event.
    assert_eq!(
        board.to_board_string(),
        ["_ A _", "_ A _", "_ _ _", "B _ _", "Roots: (1, 0) / (0, 3)"].join("\n")
    );
    assert_eq!(bag.returned_tiles(), &vec!['C']);
    assert_eq!(changes.len(), 1);
    match &changes[0] {
        Change::Board(change) => {
            assert_eq!(change.action, BoardChangeAction::Truncated);
            assert_eq!(change.detail.coordinate, Coordinate { x: 2, y: 3 });
            assert_eq!(change.detail.square, Square::Occupied(0, 'C'));
        }
    }
}

#[test]
fn word_strings_report_empty_squares() {
    let b = from_string(
        ["W O R D", "_ _ _ _"].join("\n"),
        vec![Coordinate { x: 0, y: 0 }],
        vec![Direction::South],
    )
    .unwrap();
    let word: Vec<Coordinate> = (0..4).map(|x| Coordinate { x, y: 0 }).collect();
    assert_eq!(b.word_strings(&vec![word.clone()]), Ok(vec!["WORD".to_string()]));
    let with_empty = vec![vec![Coordinate { x: 0, y: 1 }]];
    assert_eq!(
        b.word_strings(&with_empty),
        Err(GamePlayError::EmptySquareInWord)
    );
    // Void and out-of-range coordinates fail the same way as empty cells.
    let out_of_range = Coordinate { x: 9, y: 9 };
    assert_eq!(
        b.word_strings(&vec![vec![out_of_range]]),
        Err(GamePlayError::EmptySquareInWord)
    );
}

#[test]
fn collect_combanants_assembles_both_sides() {
    let mut b = from_string(
        [
            "_ _ C _ _",
            "_ _ R _ _",
            "_ _ O _ _",
            "_ _ S _ _",
            "_ _ _ _ _",
        ]
        .join("\n"),
        vec![Coordinate { x: 2, y: 0 }, Coordinate { x: 2, y: 4 }],
        vec![Direction::South, Direction::North],
    )
    .unwrap();
    // Player 1 places an X against the end of player 0's word.
    b.set(Coordinate { x: 2, y: 4 }, 1, 'X').unwrap();
    let (attackers, defenders) = b.collect_combanants(0, Coordinate { x: 2, y: 3 });
    let attacker_words = b.word_strings(&attackers).unwrap();
    assert_eq!(attacker_words, vec!["CROS"]);
    // An isolated single tile still counts as its own word on both axes.
    let defender_words = b.word_strings(&defenders).unwrap();
    assert_eq!(defender_words, vec!["X", "X"]);
}

#[test]
fn oriented_squares_mirror_for_north_players() {
    let orientations = vec![Direction::North, Direction::South];
    assert_eq!(Square::Empty.to_oriented_string(&orientations), "_");
    assert_eq!(
        Square::Occupied(0, 'A').to_oriented_string(&orientations),
        "∀"
    );
    assert_eq!(
        Square::Occupied(1, 'A').to_oriented_string(&orientations),
        "A"
    );
}

#[test]
fn flipped() {
    assert_eq!(Square::flip(&'A'), '∀');
    assert_eq!(Square::flip(&'J'), 'ᒋ');
    assert_eq!(Square::flip(&'Z'), 'Z');
}
