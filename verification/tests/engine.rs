use reversi::Board;
use reversi::Player;
use reversi::Point;
use reversi::State;
use reversi::Vector;

#[test]
fn move_point() {
    let p = Point::new(0, 0);
    assert_eq!(p.move_point(Vector::TopLeft), Point::new(-1, -1));
    assert_eq!(p.move_point(Vector::Top), Point::new(0, -1));
    assert_eq!(p.move_point(Vector::TopRight), Point::new(1, -1));
    assert_eq!(p.move_point(Vector::Right), Point::new(1, 0));
    assert_eq!(p.move_point(Vector::BottomRight), Point::new(1, 1));
    assert_eq!(p.move_point(Vector::Bottom), Point::new(0, 1));
    assert_eq!(p.move_point(Vector::BottomLeft), Point::new(-1, 1));
    assert_eq!(p.move_point(Vector::Left), Point::new(-1, 0));
}

#[test]
fn board_table() {
    let source = [
        // y = 0
        State::Empty,
        State::Empty,
        State::Empty,
        State::Empty,
        State::Empty,
        State::Empty,
        State::Empty,
        State::Empty,
        // y = 1
        State::Empty,
        State::Empty,
        State::Empty,
        State::Empty,
        State::Empty,
        State::Empty,
        State::Empty,
        State::Empty,
        // y = 2
        State::Empty,
        State::Empty,
        State::Empty,
        State::Empty,
        State::Empty,
        State::Empty,
        State::Empty,
        State::Empty,
        // y = 3
        State::Empty,
        State::Empty,
        State::Empty,
        State::Player(Player::Player1),
        State::Player(Player::Player2),
        State::Empty,
        State::Empty,
        State::Empty,
        // y = 4
        State::Empty,
        State::Empty,
        State::Empty,
        State::Player(Player::Player2),
        State::Player(Player::Player1),
        State::Empty,
        State::Empty,
        State::Empty,
        // y = 5
        State::Empty,
        State::Empty,
        State::Empty,
        State::Empty,
        State::Empty,
        State::Empty,
        State::Empty,
        State::Empty,
        // y = 6
        State::Empty,
        State::Empty,
        State::Empty,
        State::Empty,
        State::Empty,
        State::Empty,
        State::Empty,
        State::Empty,
        // y = 7
        State::Empty,
        State::Empty,
        State::Empty,
        State::Empty,
        State::Empty,
        State::Empty,
        State::Empty,
        State::Empty,
    ];

    let expect = vec![
        &source[0..8],
        &source[8..16],
        &source[16..24],
        &source[24..32],
        &source[32..40],
        &source[40..48],
        &source[48..56],
        &source[56..64],
    ];

    let board = Board::new();
    let actual = board.table();

    assert_eq!(actual.len(), expect.len());
    for y in 0..8 {
        for x in 0..8 {
            assert_eq!(actual[y][x], expect[y][x]);
        }
    }
}

#[test]
fn actionable_player2() {
    let board = Board::new();

    let actual = board.actionable(Player::Player2);
    let expect = vec![
        Point::new(3, 2),
        Point::new(2, 3),
        Point::new(5, 4),
        Point::new(4, 5),
    ];

    assert_eq!(actual.len(), expect.len());
    for i in 0..expect.len() {
        assert_eq!(actual[i], expect[i]);
    }
}

#[test]
fn is_act_vector_player2() {
    let board = Board::new();

    assert_eq!(
        board.is_act_vector(Player::Player2, Point::new(3, 2), Vector::TopLeft),
        false
    );
    assert_eq!(
        board.is_act_vector(Player::Player2, Point::new(3, 2), Vector::Top),
        false
    );
    assert_eq!(
        board.is_act_vector(Player::Player2, Point::new(3, 2), Vector::TopRight),
        false
    );
    assert_eq!(
        board.is_act_vector(Player::Player2, Point::new(3, 2), Vector::Right),
        false
    );
    assert_eq!(
        board.is_act_vector(Player::Player2, Point::new(3, 2), Vector::BottomRight),
        false
    );
    assert_eq!(
        board.is_act_vector(Player::Player2, Point::new(3, 2), Vector::Bottom),
        true
    );
    assert_eq!(
        board.is_act_vector(Player::Player2, Point::new(3, 2), Vector::BottomLeft),
        false
    );
    assert_eq!(
        board.is_act_vector(Player::Player2, Point::new(3, 2), Vector::Left),
        false
    );
}

#[test]
fn is_act_player2() {
    let board = Board::new();

    assert_eq!(board.is_act(Player::Player2, Point::new(2, 3)), true);
    assert_eq!(board.is_act(Player::Player2, Point::new(2, 2)), false);
    assert_eq!(board.is_act(Player::Player2, Point::new(3, 2)), true);
    assert_eq!(board.is_act(Player::Player2, Point::new(3, 3)), false);
}

#[test]
fn action_player2() {
    let board = Board::new();
    assert_eq!(
        board.action(Player::Player2, Point::new(2, 3)),
        Result::Ok(Board {
            x: 8,
            y: 8,
            source: vec![
                // y = 0
                State::Empty,
                State::Empty,
                State::Empty,
                State::Empty,
                State::Empty,
                State::Empty,
                State::Empty,
                State::Empty,
                // y = 1
                State::Empty,
                State::Empty,
                State::Empty,
                State::Empty,
                State::Empty,
                State::Empty,
                State::Empty,
                State::Empty,
                // y = 2
                State::Empty,
                State::Empty,
                State::Empty,
                State::Empty,
                State::Empty,
                State::Empty,
                State::Empty,
                State::Empty,
                // y = 3
                State::Empty,
                State::Empty,
                State::Player(Player::Player2),
                State::Player(Player::Player2),
                State::Player(Player::Player2),
                State::Empty,
                State::Empty,
                State::Empty,
                // y = 4
                State::Empty,
                State::Empty,
                State::Empty,
                State::Player(Player::Player2),
                State::Player(Player::Player1),
                State::Empty,
                State::Empty,
                State::Empty,
                // y = 5
                State::Empty,
                State::Empty,
                State::Empty,
                State::Empty,
                State::Empty,
                State::Empty,
                State::Empty,
                State::Empty,
                // y = 6
                State::Empty,
                State::Empty,
                State::Empty,
                State::Empty,
                State::Empty,
                State::Empty,
                State::Empty,
                State::Empty,
                // y = 7
                State::Empty,
                State::Empty,
                State::Empty,
                State::Empty,
                State::Empty,
                State::Empty,
                State::Empty,
                State::Empty,
            ],
        }),
    );
}
