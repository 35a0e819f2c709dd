use sliding_puzzle::puzzle::Puzzle;

fn board_of(game: &Puzzle) -> Vec<Vec<i16>> {
    game.get_board().clone()
}

#[test]
fn create_game_and_move() {
    let mut game = Puzzle::new(4);
    let empty = game.empty_cell();
    let click = (
        if empty.0 == 0 { empty.0 + 1 } else { empty.0 - 1 },
        empty.1,
    );

    let v = game.get_board()[click.0][click.1];
    game.do_move(click);

    assert_eq!(game.get_board()[empty.0][empty.1], v);
    assert_eq!(game.empty_cell(), click);
}

#[test]
fn move_illegal() {
    let mut game = Puzzle::new(4);
    let empty = game.empty_cell();
    let click = (
        if empty.0 == 0 { empty.0 + 1 } else { empty.0 - 1 },
        if empty.1 == 0 { empty.1 + 1 } else { empty.1 - 1 },
    );
    game.do_move(click);
    assert_eq!(game.empty_cell(), empty);
}

#[test]
fn permutation_after_create() {
    for n in [1i16, 2, 3, 4, 5, 10] {
        let game = Puzzle::new(n);
        let board = board_of(&game);
        assert_eq!(board.len(), n as usize);
        let mut values: Vec<i16> = Vec::new();
        for row in &board {
            assert_eq!(row.len(), n as usize);
            values.extend_from_slice(row);
        }
        values.sort();
        let expected: Vec<i16> = (0..n * n).collect();
        assert_eq!(values, expected);
    }
}

#[test]
fn empty_cell_holds_zero() {
    let mut game = Puzzle::new(4);
    let e = game.empty_cell();
    assert_eq!(game.get_board()[e.0][e.1], 0);
    // Still true after legal and illegal moves alike.
    for target in [(0usize, 0usize), (1, 1), (0, 1), (2, 1), (3, 3), (9, 9)] {
        game.do_move(target);
        let e = game.empty_cell();
        assert_eq!(game.get_board()[e.0][e.1], 0);
    }
}

#[test]
fn round_trip_example() {
    let mut game = Puzzle::new(4);
    let e = game.empty_cell();
    let neighbor = if e.0 > 0 { (e.0 - 1, e.1) } else { (e.0 + 1, e.1) };
    let v = game.get_board()[neighbor.0][neighbor.1];
    game.do_move(neighbor);
    assert_eq!(game.get_board()[e.0][e.1], v);
    assert_eq!(game.empty_cell(), neighbor);
}

#[test]
fn diagonal_rejection_example() {
    let mut game = Puzzle::new(4);
    let e = game.empty_cell();
    let diagonal = (
        if e.0 == 0 { e.0 + 1 } else { e.0 - 1 },
        if e.1 == 0 { e.1 + 1 } else { e.1 - 1 },
    );
    let before = board_of(&game);
    game.do_move(diagonal);
    assert_eq!(game.empty_cell(), e);
    assert_eq!(board_of(&game), before);
}

#[test]
fn boundary_example() {
    let mut game = Puzzle::new(4);
    let e = game.empty_cell();
    let before = board_of(&game);
    // One past the last valid index in both dimensions.
    game.do_move((4, 4));
    assert_eq!(game.empty_cell(), e);
    assert_eq!(board_of(&game), before);
}

#[test]
fn illegal_move_repeated_is_noop() {
    let mut game = Puzzle::new(4);
    let e = game.empty_cell();
    let diagonal = (
        if e.0 == 0 { e.0 + 1 } else { e.0 - 1 },
        if e.1 == 0 { e.1 + 1 } else { e.1 - 1 },
    );
    let before = board_of(&game);
    for _ in 0..3 {
        game.do_move(diagonal);
        assert_eq!(game.empty_cell(), e);
        assert_eq!(board_of(&game), before);
    }
}

#[test]
fn single_cell_board() {
    let mut game = Puzzle::new(1);
    assert_eq!(board_of(&game), vec![vec![0i16]]);
    assert_eq!(game.empty_cell(), (0, 0));
    // No cell is adjacent to the empty cell, so every move is a no-op.
    game.do_move((0, 0));
    game.do_move((0, 1));
    game.do_move((1, 0));
    assert_eq!(board_of(&game), vec![vec![0i16]]);
    assert_eq!(game.empty_cell(), (0, 0));
}

#[test]
fn moving_empty_cell_itself_is_rejected() {
    let mut game = Puzzle::new(3);
    let e = game.empty_cell();
    let before = board_of(&game);
    game.do_move(e);
    assert_eq!(game.empty_cell(), e);
    assert_eq!(board_of(&game), before);
}

#[test]
fn legal_move_changes_only_two_cells() {
    let mut game = Puzzle::new(4);
    let e = game.empty_cell();
    let neighbor = if e.1 > 0 { (e.0, e.1 - 1) } else { (e.0, e.1 + 1) };
    let before = board_of(&game);
    game.do_move(neighbor);
    let after = board_of(&game);
    assert_eq!(after[e.0][e.1], before[neighbor.0][neighbor.1]);
    assert_eq!(after[neighbor.0][neighbor.1], 0);
    for r in 0..4 {
        for c in 0..4 {
            if (r, c) != e && (r, c) != neighbor {
                assert_eq!(after[r][c], before[r][c]);
            }
        }
    }
}
