use lib::game::{Board, Cell, Color, PASS};

fn grid(rows: [&str; 8]) -> [Cell; 64] {
    let mut cells = [Cell::Empty; 64];
    for (r, line) in rows.iter().enumerate() {
        for (c, ch) in line.chars().enumerate() {
            cells[r * 8 + c] = match ch {
                'w' => Cell::Filled(Color::White),
                'b' => Cell::Filled(Color::Black),
                _ => Cell::Empty,
            };
        }
    }
    cells
}

#[test]
fn simple_moves_are_ok() {
    let starter = Board::starter(Color::Black);
    let moves = starter.moves();
    assert_eq!(4, moves.len());

    let e = Cell::Empty;
    let w = Cell::Filled(Color::White);
    let b = Cell::Filled(Color::Black);
    assert_eq!(4, Board { player:Color::Black, cells: [
        e,e,e,e,e,e,e,e,
        e,e,e,e,e,e,e,e,
        e,e,e,e,e,e,e,e,
        e,e,e,w,b,e,e,e,
        e,e,e,b,w,e,e,e,
        e,e,e,e,e,e,e,e,
        e,e,e,e,e,e,e,e,
        e,e,e,e,e,e,e,e,
    ] }.moves().len());

    assert_eq!(5, Board { player:Color::Black, cells: [
        e,e,e,e,e,e,e,e,
        e,e,e,e,e,e,e,e,
        e,e,w,w,w,e,e,e,
        e,e,e,w,b,e,e,e,
        e,e,e,b,b,e,e,e,
        e,e,e,e,b,e,e,e,
        e,e,e,e,e,e,e,e,
        e,e,e,e,e,e,e,e,
    ] }.moves().len());
}

#[test]
fn pass_move_is_detected() {
    let e = Cell::Empty;
    let w = Cell::Filled(Color::White);
    let b = Cell::Filled(Color::Black);
    assert_eq!(1, Board { player:Color::Black, cells: [
        e,e,e,e,e,e,e,e,
        e,e,e,e,e,e,e,e,
        e,e,e,e,e,e,e,e,
        e,e,e,b,e,e,e,e,
        e,e,e,w,w,e,e,e,
        e,e,e,w,e,w,e,e,
        e,e,e,w,e,e,w,e,
        e,e,e,w,e,e,e,w,
    ] }.moves().len());
    assert_eq!(0, Board { player:Color::Black, cells: [
        w,e,e,w,e,e,e,e,
        e,w,e,w,e,e,e,e,
        e,e,w,w,e,e,e,e,
        e,e,e,b,e,e,e,e,
        e,e,e,w,w,e,e,e,
        e,e,e,w,e,w,e,e,
        e,e,e,w,e,e,w,e,
        e,e,e,w,e,e,e,w,
    ] }.moves().len());
}

#[test]
fn simple_minimax_invariant() {
    let starter = Board::starter(Color::Black);
    assert_eq!(0, starter.minimax(&Color::Black,0));
    assert_eq!(3, starter.minimax(&Color::Black,1));
    assert_eq!(0, starter.minimax(&Color::Black,2));

    assert_eq!(0, starter.minimax(&Color::White,0));
    assert_eq!(-3, starter.minimax(&Color::White,1));
    assert_eq!(0, starter.minimax(&Color::White,2));
}

#[test]
fn starter_moves_are_the_four_classic_squares() {
    let starter = Board::starter(Color::Black);
    assert_eq!(vec![19, 26, 37, 44], starter.moves());
    let starter = Board::starter(Color::White);
    assert_eq!(vec![20, 29, 34, 43], starter.moves());
}

#[test]
fn pass_is_the_only_move_when_stuck() {
    let board = Board {
        player: Color::Black,
        cells: grid([
            "........",
            "........",
            "........",
            "...b....",
            "...ww...",
            "...w.w..",
            "...w..w.",
            "...w...w",
        ]),
    };
    assert_eq!(vec![PASS], board.moves());
}

#[test]
fn no_move_for_anyone_gives_empty_list() {
    let board = Board { player: Color::White, cells: grid(["w", "", "", "", "", "", "", ""]) };
    assert!(board.moves().is_empty());
}

#[test]
fn starter_counts_two_each() {
    let board = Board::starter(Color::White);
    assert_eq!((2, 2), board.count());
}

#[test]
fn count_is_player_first() {
    let board = Board {
        player: Color::White,
        cells: grid(["bbb.....", "w.......", "", "", "", "", "", ""]),
    };
    assert_eq!((1, 3), board.count());
    assert_eq!((3, 1), board.count_for(&Color::Black));
}

#[test]
fn play_move_flips_and_switches_player() {
    let mut board = Board::starter(Color::Black);
    let swapped = board.play_move(19);
    assert_eq!(vec![27], swapped);
    assert_eq!(Color::White, board.player);
    assert_eq!(Cell::Filled(Color::Black), board.cells[19]);
    assert_eq!(Cell::Filled(Color::Black), board.cells[27]);
    assert_eq!((1, 4), board.count());
}

#[test]
fn play_move_flips_several_directions_in_order() {
    let mut board = Board {
        player: Color::Black,
        cells: grid([
            "b.b.b...",
            ".www....",
            "bw.wb...",
            ".www....",
            "b.b.b...",
            "", "", "",
        ]),
    };
    let swapped = board.play_move(18);
    // directions in the order (-1,-1), (-1,0), (-1,1), (0,-1), (0,1), (1,-1), (1,0), (1,1)
    assert_eq!(vec![9, 17, 25, 10, 26, 11, 19, 27], swapped);
    for n in swapped {
        assert_eq!(Cell::Filled(Color::Black), board.cells[n]);
    }
    assert_eq!(Cell::Filled(Color::Black), board.cells[18]);
}

#[test]
fn play_move_on_occupied_square_does_nothing() {
    let mut board = Board::starter(Color::Black);
    let before = board.cells;
    let swapped = board.play_move(27);
    assert!(swapped.is_empty());
    assert_eq!(Color::Black, board.player);
    assert_eq!(before, board.cells);
}

#[test]
fn play_pass_only_switches_player() {
    let mut board = Board::starter(Color::Black);
    let before = board.cells;
    let swapped = board.play_move(PASS);
    assert!(swapped.is_empty());
    assert_eq!(Color::White, board.player);
    assert_eq!(before, board.cells);
}

#[test]
fn unplay_restores_after_play() {
    let initial = Board::starter(Color::Black);
    for mv in initial.moves() {
        let mut board = initial;
        let swapped = board.play_move(mv);
        board.unplay(Color::Black, mv, swapped);
        assert_eq!(initial.cells, board.cells);
        assert_eq!(initial.player, board.player);
    }
}

#[test]
fn unplay_leaves_square_63_filled() {
    let initial = Board {
        player: Color::Black,
        cells: grid(["", "", "", "", "", ".......b", ".......w", ""]),
    };
    let mut board = initial;
    let swapped = board.play_move(63);
    assert_eq!(vec![55], swapped);
    board.unplay(Color::Black, 63, swapped);
    assert_eq!(Cell::Filled(Color::Black), board.cells[63]);
    assert_eq!(Cell::Filled(Color::White), board.cells[55]);
    assert_eq!(Color::Black, board.player);
}

#[test]
fn note_weights_corners_and_c_squares() {
    let board = Board {
        player: Color::Black,
        cells: grid(["bb......", "b.......", "...w....", "", "", "", "", ".......w"]),
    };
    // black: corner 10, two C squares -1 each; white: 1 and corner 10
    assert_eq!(8 - 11, board.note_for(Color::Black));
    assert_eq!(11 - 8, board.note_for(Color::White));
}

#[test]
fn minimax_depth_zero_is_the_note() {
    let board = Board::starter(Color::White);
    assert_eq!(board.note_for(Color::Black), board.minimax(&Color::Black, 0));
    assert_eq!(board.note_for(Color::Black), board.minimax(&Color::Black, -3));
}

#[test]
fn minimax_leaves_board_unchanged() {
    let board = Board::starter(Color::Black);
    let copy = board;
    let _ = board.minimax(&Color::Black, 3);
    assert_eq!(copy.cells, board.cells);
}

#[test]
fn from_bytes_reads_digits() {
    let mut bytes = vec![b'0'; 64];
    bytes[0] = b'1';
    bytes[1] = b'2';
    bytes[2] = b'x';
    let board = Board::from_bytes(bytes, Color::White);
    assert_eq!(Color::White, board.player);
    assert_eq!(Cell::Filled(Color::White), board.cells[0]);
    assert_eq!(Cell::Filled(Color::Black), board.cells[1]);
    assert_eq!(Cell::Empty, board.cells[2]);
    assert_eq!(Cell::Empty, board.cells[63]);
}

#[test]
fn texts_of_colors_cells_and_board() {
    assert_eq!("Black", Color::Black.to_string());
    assert_eq!("White", Color::White.to_string());
    assert_eq!(" ", Cell::Empty.to_string());
    assert_eq!("○", Cell::Filled(Color::White).to_string());
    assert_eq!("●", Cell::Filled(Color::Black).to_string());
    let text = Board::starter(Color::White).to_string();
    let expected = "[White\n [        ]\n [        ]\n [        ]\n [   ○●   ]\n [   ●○   ]\n [        ]\n [        ]\n [        ]]";
    assert_eq!(expected, text);
}

#[test]
fn to_bytes_writes_digits_and_reads_back() {
    let board = Board::starter(Color::Black);
    let bytes = board.to_bytes();
    assert_eq!(64, bytes.len());
    assert_eq!(b'1', bytes[27]);
    assert_eq!(b'2', bytes[28]);
    assert_eq!(b'0', bytes[0]);
    let back = Board::from_bytes(bytes, Color::Black);
    assert_eq!(board.cells, back.cells);
}

#[test]
fn legal_move_gains_one_more_than_it_flips() {
    let mut board = Board {
        player: Color::Black,
        cells: grid([
            "b.b.b...",
            ".www....",
            "bw.wb...",
            ".www....",
            "b.b.b...",
            "", "", "",
        ]),
    };
    let (mine, theirs) = board.count();
    let swapped = board.play_move(18);
    let (theirs_after, mine_after) = board.count();
    assert_eq!(mine + 1 + swapped.len() as i32, mine_after);
    assert_eq!(theirs - swapped.len() as i32, theirs_after);
}

#[test]
fn minimax_at_depth_one_takes_the_best_reply() {
    // Black's four opening moves each turn one pawn over: 4 against 1, all
    // on plain squares, so the best note for black is 3.
    let starter = Board::starter(Color::Black);
    assert_eq!(3, starter.minimax(&Color::Black, 1));
}
