use txgraph::life::update;
use txgraph::point::Point;

#[test]
fn testme_int() {
    let p = Point { x: 1, y: 0 };
    let q = p.clockwise();
    let r = p.counterclockwise();
    assert_eq!(q.x, 0);
    assert_eq!(q.y, -1);
    assert_eq!(r.x, 0);
    assert_eq!(r.y, 1);
}

#[test]
fn testme() {
    let mut testboard = vec![vec![0; 3]; 3];
    testboard[0][0] = 1;
    testboard[1][1] = 1;
    testboard[2][1] = 1;

    let updated_testboard = update(&testboard);

    let answerkey = vec![vec![1; 3]; 3];

    assert_eq!(updated_testboard, answerkey, "Something is wrong");
}

#[test]
fn blinker_oscillates() {
    let mut board = vec![vec![0; 5]; 5];
    board[2][1] = 1;
    board[2][2] = 1;
    board[2][3] = 1;
    let step1 = update(&board);
    let mut vertical = vec![vec![0; 5]; 5];
    vertical[1][2] = 1;
    vertical[2][2] = 1;
    vertical[3][2] = 1;
    assert_eq!(step1, vertical);
    let step2 = update(&step1);
    assert_eq!(step2, board);
}

#[test]
fn rotations_compose_to_identity() {
    let p = Point { x: 5, y: -7 };
    let q = p.clockwise().counterclockwise();
    assert_eq!(q.x, p.x);
    assert_eq!(q.y, p.y);
}
