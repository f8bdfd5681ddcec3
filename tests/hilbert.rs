use std::collections::HashSet;

use hilbert_curve::hilbert::{
    hilbert_curve_positions, move_forward, turn, Direction, HilbertCurvePath, HilbertCurvePixels,
    Movement, Position, Turn,
};

fn pos(x: u32, y: u32) -> Position {
    Position { x, y }
}

fn drain(order: u32) -> Vec<Position> {
    let mut pixels = HilbertCurvePixels::new(order);
    let mut out = Vec::new();
    while let Some(p) = pixels.next() {
        out.push(p);
    }
    out
}

/// Check turning the Direction enum clockwise and counterclockwise.
#[test]
fn test_turn() {
    let mut directions_rotating_right = vec![Direction::Left];

    // Perform a full clockwise step-by-step rotation, saving all intermediate
    // directions:
    for _ in 0..4 {
        let rotated_right = turn(*directions_rotating_right.last().unwrap(), Turn::Right);
        directions_rotating_right.push(rotated_right);
    }
    assert!(
        directions_rotating_right
            == vec![Direction::Left, Direction::Up, Direction::Right, Direction::Down, Direction::Left]
    );

    // Rotate counterclockwise, starting facing just where the previous
    // rotation ended:
    let mut directions_rotating_left = vec![Direction::Left];
    for _ in 0..4 {
        let rotated_left = turn(*directions_rotating_left.last().unwrap(), Turn::Left);
        directions_rotating_left.push(rotated_left);
    }
    // The counterclockwise rotation should be the clockwise one in reverse.
    directions_rotating_right.reverse();
    assert!(directions_rotating_left == directions_rotating_right);
}

#[test]
fn four_right_turns_close_from_every_direction() {
    for d in [Direction::Up, Direction::Right, Direction::Down, Direction::Left] {
        let mut seen = vec![d];
        for _ in 0..4 {
            seen.push(turn(*seen.last().unwrap(), Turn::Right));
        }
        assert_eq!(seen[4], d);
        let mut left = vec![d];
        for _ in 0..4 {
            left.push(turn(*left.last().unwrap(), Turn::Left));
        }
        seen.reverse();
        assert_eq!(left, seen);
    }
}

#[test]
fn turn_table() {
    assert_eq!(turn(Direction::Up, Turn::Right), Direction::Right);
    assert_eq!(turn(Direction::Up, Turn::Left), Direction::Left);
    assert_eq!(turn(Direction::Right, Turn::Right), Direction::Down);
    assert_eq!(turn(Direction::Right, Turn::Left), Direction::Up);
    assert_eq!(turn(Direction::Down, Turn::Right), Direction::Left);
    assert_eq!(turn(Direction::Down, Turn::Left), Direction::Right);
    assert_eq!(turn(Direction::Left, Turn::Right), Direction::Up);
    assert_eq!(turn(Direction::Left, Turn::Left), Direction::Down);
}

#[test]
fn move_forward_steps_one_unit() {
    let p = pos(5, 7);
    assert_eq!(move_forward(p, Direction::Up), pos(5, 6));
    assert_eq!(move_forward(p, Direction::Right), pos(6, 7));
    assert_eq!(move_forward(p, Direction::Down), pos(5, 8));
    assert_eq!(move_forward(p, Direction::Left), pos(4, 7));
}

#[test]
fn path_of_order_one() {
    let mut path = HilbertCurvePath::new(1);
    let mut moves = Vec::new();
    while let Some(m) = path.next() {
        moves.push(m);
    }
    let l = Movement::Turn(Turn::Left);
    let r = Movement::Turn(Turn::Right);
    let f = Movement::Forward;
    assert_eq!(moves, vec![l, f, r, f, r, f, l]);
    assert_eq!(path.next(), None);
    assert_eq!(path.next(), None);
}

#[test]
fn path_of_order_two_has_fifteen_forward_moves() {
    let mut path = HilbertCurvePath::new(2);
    let mut moves = Vec::new();
    while let Some(m) = path.next() {
        moves.push(m);
    }
    assert_eq!(moves.len(), 35);
    assert_eq!(moves.iter().filter(|m| **m == Movement::Forward).count(), 15);
}

#[test]
fn pixels_of_order_one() {
    assert_eq!(drain(1), vec![pos(0, 0), pos(1, 0), pos(1, 1), pos(0, 1)]);
}

#[test]
fn pixels_of_order_two() {
    let all = drain(2);
    let expected = vec![
        pos(0, 0),
        pos(0, 1),
        pos(1, 1),
        pos(1, 0),
        pos(2, 0),
        pos(3, 0),
        pos(3, 1),
        pos(2, 1),
        pos(2, 2),
        pos(3, 2),
        pos(3, 3),
        pos(2, 3),
        pos(1, 3),
        pos(1, 2),
        pos(0, 2),
        pos(0, 3),
    ];
    assert_eq!(all, expected);
    let scaled: Vec<Position> = drain(1).iter().map(|p| pos(p.x * 2, p.y * 2)).collect();
    assert_ne!(all[0..4].to_vec(), drain(1));
    assert_ne!(all[0..4].to_vec(), scaled);
}

#[test]
fn pixels_stop_after_the_last_one() {
    let mut pixels = HilbertCurvePixels::new(1);
    for _ in 0..4 {
        assert!(pixels.next().is_some());
    }
    assert_eq!(pixels.next(), None);
    assert_eq!(pixels.next(), None);
}

#[test]
fn pixels_fill_the_grid_once() {
    for order in 1..=7u32 {
        let all = drain(order);
        let side = 1u32 << order;
        assert_eq!(all.len(), (side as usize) * (side as usize));
        let distinct: HashSet<(u32, u32)> = all.iter().map(|p| (p.x, p.y)).collect();
        assert_eq!(distinct.len(), all.len());
        assert!(all.iter().all(|p| p.x < side && p.y < side));
    }
}

#[test]
fn consecutive_pixels_are_neighbours() {
    for order in 1..=7u32 {
        let all = drain(order);
        for pair in all.windows(2) {
            let dx = (pair[0].x as i64 - pair[1].x as i64).abs();
            let dy = (pair[0].y as i64 - pair[1].y as i64).abs();
            assert_eq!(dx + dy, 1);
        }
    }
}

#[test]
fn two_generators_agree() {
    for order in 1..=5u32 {
        assert_eq!(drain(order), drain(order));
        assert_eq!(hilbert_curve_positions(order), drain(order));
    }
}

#[test]
fn positions_of_order_one() {
    assert_eq!(hilbert_curve_positions(1), vec![pos(0, 0), pos(1, 0), pos(1, 1), pos(0, 1)]);
}
