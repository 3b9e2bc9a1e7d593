use reversi::Board;
use reversi::Player;
use reversi::Point;
use reversi::State;

fn snapshot(board: &Board) -> Vec<Option<State>> {
    let mut cells = Vec::new();
    for y in 0..8 {
        for x in 0..8 {
            cells.push(board.state(Point::new(x, y)));
        }
    }
    cells
}

fn counts(board: &Board) -> (usize, usize, usize) {
    let mut first = 0;
    let mut second = 0;
    let mut empty = 0;
    for y in 0..8 {
        for x in 0..8 {
            match board.state(Point::new(x, y)) {
                Some(State::Player(Player::Player1)) => first += 1,
                Some(State::Player(Player::Player2)) => second += 1,
                Some(State::Empty) => empty += 1,
                None => panic!("coordinate unexpectedly off the board"),
            }
        }
    }
    (first, second, empty)
}

#[test]
fn switch_involution() {
    assert_eq!(Player::Player1.switch().switch(), Player::Player1);
    assert_eq!(Player::Player2.switch().switch(), Player::Player2);
    assert_ne!(Player::Player1.switch(), Player::Player1);
    assert_ne!(Player::Player2.switch(), Player::Player2);
}

#[test]
fn opening_legal_moves_player1() {
    let board = Board::new();
    let actual = board.actionable(Player::Player1);
    let expect = vec![
        Point::new(4, 2),
        Point::new(5, 3),
        Point::new(2, 4),
        Point::new(3, 5),
    ];
    assert_eq!(actual, expect);
}

#[test]
fn opening_capture_scenario() {
    // The player holding the anti-diagonal centre stones moves at (3, 2);
    // the sandwiched stone at (3, 3) must change colour, nothing else.
    let board = Board::new();
    let after = board.action(Player::Player2, Point::new(3, 2)).unwrap();
    for y in 0..8 {
        for x in 0..8 {
            let expect = if (x == 3 && y == 2) || (x == 3 && y == 3) || (x == 4 && y == 3) || (x == 3 && y == 4) {
                State::Player(Player::Player2)
            } else if x == 4 && y == 4 {
                State::Player(Player::Player1)
            } else {
                State::Empty
            };
            assert_eq!(after.state(Point::new(x, y)), Some(expect));
        }
    }
}

#[test]
fn legal_iff_listed_iff_applies() {
    // Each coordinate is legal exactly when it appears among the legal
    // moves, and exactly when applying the move succeeds.
    let board = Board::new();
    for player in [Player::Player1, Player::Player2] {
        let listed = board.actionable(player);
        for y in 0..8 {
            for x in 0..8 {
                let p = Point::new(x, y);
                let legal = board.is_act(player, p);
                assert_eq!(listed.contains(&p), legal);
                assert_eq!(board.action(player, p).is_ok(), legal);
            }
        }
    }
}

#[test]
fn occupied_cell_rejected() {
    let board = Board::new();
    for p in [
        Point::new(3, 3),
        Point::new(4, 4),
        Point::new(4, 3),
        Point::new(3, 4),
    ] {
        assert_eq!(board.action(Player::Player1, p), Err("failed action"));
        assert_eq!(board.action(Player::Player2, p), Err("failed action"));
    }
}

#[test]
fn off_board_move_rejected() {
    let board = Board::new();
    assert_eq!(board.action(Player::Player1, Point::new(-1, -1)), Err("failed action"));
    assert_eq!(board.action(Player::Player2, Point::new(8, 0)), Err("failed action"));
}

#[test]
fn action_preserves_receiver() {
    let board = Board::new();
    let before = snapshot(&board);
    let result = board.action(Player::Player2, Point::new(3, 2));
    assert!(result.is_ok());
    assert_eq!(snapshot(&board), before);
}

#[test]
fn queries_idempotent() {
    let board = Board::new();
    for player in [Player::Player1, Player::Player2] {
        assert_eq!(board.actionable(player), board.actionable(player));
        for y in 0..8 {
            for x in 0..8 {
                let p = Point::new(x, y);
                assert_eq!(board.is_act(player, p), board.is_act(player, p));
            }
        }
    }
}

#[test]
fn stone_counts_after_move() {
    let board = Board::new();
    assert_eq!(counts(&board), (2, 2, 60));
    let after = board.action(Player::Player2, Point::new(3, 2)).unwrap();
    // one stone placed, one flipped: the actor gains two, the opponent
    // loses one, exactly one empty cell is filled
    assert_eq!(counts(&after), (1, 4, 59));
}

#[test]
fn boundary_absent() {
    let board = Board::new();
    for p in [
        Point::new(-1, 0),
        Point::new(0, -1),
        Point::new(8, 0),
        Point::new(0, 8),
        Point::new(-5, -5),
        Point::new(100, 3),
        Point::new(i32::MIN, i32::MIN),
        Point::new(i32::MAX, i32::MAX),
    ] {
        assert_eq!(board.state(p), None);
    }
    assert_eq!(board.state(Point::new(0, 0)), Some(State::Empty));
    assert_eq!(board.state(Point::new(7, 7)), Some(State::Empty));
}
