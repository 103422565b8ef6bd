use moore_curve::curve::CurveError;
use moore_curve::hilbert::Hilbert;
use moore_curve::moore::Moore;
use moore_curve::turtle::{Direction, GridTurtle};

fn manhattan(a: (usize, usize), b: (usize, usize)) -> usize {
    a.0.abs_diff(b.0) + a.1.abs_diff(b.1)
}

#[test]
fn direction_turns_are_four_cycles() {
    assert!(matches!(Direction::Up.turn_left(), Direction::Left));
    assert!(matches!(Direction::Left.turn_left(), Direction::Down));
    assert!(matches!(Direction::Down.turn_left(), Direction::Right));
    assert!(matches!(Direction::Right.turn_left(), Direction::Up));
    assert!(matches!(Direction::Up.turn_right(), Direction::Right));
    assert!(matches!(Direction::Right.turn_right(), Direction::Down));
    assert!(matches!(Direction::Down.turn_right(), Direction::Left));
    assert!(matches!(Direction::Left.turn_right(), Direction::Up));
    assert_eq!(Direction::Up.offsets(), (0, 1));
    assert_eq!(Direction::Down.offsets(), (0, -1));
    assert_eq!(Direction::Left.offsets(), (-1, 0));
    assert_eq!(Direction::Right.offsets(), (1, 0));
}

#[test]
fn turtle_steps_and_inverted_turns() {
    let mut t = GridTurtle::new(0, 0, Direction::Up);
    t.forward();
    assert_eq!(t.pos(), (0, 1));
    t.turn_right(false);
    t.forward();
    assert_eq!(t.pos(), (1, 1));
    // an inverted right turn is a left turn
    t.turn_right(true);
    t.forward();
    assert_eq!(t.pos(), (1, 2));
    t.turn_left(true);
    t.forward();
    assert_eq!(t.pos(), (2, 2));
}

#[test]
fn hilbert_order_zero_is_single_cell() {
    let h = Hilbert::new(0);
    assert_eq!(h.dim_size, 1);
    assert_eq!(h.total_size, 1);
    assert_eq!(h.forward, vec![(0, 0)]);
    assert_eq!(h.backward[0][0], 0);
}

#[test]
fn hilbert_order_one_sequence() {
    let h = Hilbert::new(1);
    assert_eq!(h.dim_size, 2);
    assert_eq!(h.total_size, 4);
    assert_eq!(h.forward, vec![(0, 0), (1, 0), (1, 1), (0, 1)]);
}

#[test]
fn hilbert_bijection_order_three() {
    let h = Hilbert::new(3);
    assert_eq!(h.dim_size, 8);
    assert_eq!(h.total_size, 64);
    let mut seen = vec![vec![false; h.dim_size]; h.dim_size];
    for (i, &(x, y)) in h.forward.iter().enumerate() {
        assert!(x < h.dim_size && y < h.dim_size);
        assert!(!seen[x][y], "cell visited twice");
        seen[x][y] = true;
        assert_eq!(h.backward[x][y], i);
    }
    assert!(seen.iter().all(|row| row.iter().all(|&v| v)));
}

#[test]
fn hilbert_adjacency_order_three() {
    let h = Hilbert::new(3);
    for i in 0..h.total_size - 1 {
        assert_eq!(manhattan(h.forward[i], h.forward[i + 1]), 1);
    }
}

#[test]
fn moore_rejects_small_orders() {
    assert!(matches!(Moore::new(0), Err(CurveError::OrderTooSmall)));
    assert!(matches!(Moore::new(1), Err(CurveError::OrderTooSmall)));
    assert!(Moore::new(2).is_ok());
}

#[test]
fn moore_order_two_quadrant_zero() {
    let m = Moore::new(2).unwrap();
    assert_eq!(m.dim_size, 4);
    assert_eq!(m.total_size, 16);
    assert_eq!(&m.forward[0..4], &[(2, 0), (3, 0), (3, 1), (2, 1)]);
}

#[test]
fn moore_order_two_full_sequence() {
    let m = Moore::new(2).unwrap();
    let expected = vec![
        (2, 0),
        (3, 0),
        (3, 1),
        (2, 1),
        (2, 2),
        (3, 2),
        (3, 3),
        (2, 3),
        (1, 3),
        (0, 3),
        (0, 2),
        (1, 2),
        (1, 1),
        (0, 1),
        (0, 0),
        (1, 0),
    ];
    assert_eq!(m.forward, expected);
}

#[test]
fn moore_bijection_and_coverage() {
    let m = Moore::new(3).unwrap();
    let mut seen = vec![vec![false; m.dim_size]; m.dim_size];
    for (i, &(x, y)) in m.forward.iter().enumerate() {
        assert!(x < m.dim_size && y < m.dim_size);
        assert!(!seen[x][y], "cell visited twice");
        seen[x][y] = true;
        assert_eq!(m.backward(x, y), Some(i));
    }
    assert!(seen.iter().all(|row| row.iter().all(|&v| v)));
}

#[test]
fn moore_adjacency_and_closure() {
    let m = Moore::new(4).unwrap();
    for i in 0..m.total_size - 1 {
        assert_eq!(manhattan(m.forward[i], m.forward[i + 1]), 1);
    }
    assert_eq!(manhattan(m.forward[m.total_size - 1], m.forward[0]), 1);
}

#[test]
fn moore_forward_out_of_range() {
    let m = Moore::new(2).unwrap();
    assert_eq!(m.forward(m.total_size), None);
    assert_eq!(m.forward(m.total_size + 7), None);
    assert_eq!(m.forward(m.total_size - 1), Some((1, 0)));
    assert_eq!(m.forward(0), Some((2, 0)));
}

#[test]
fn moore_backward_out_of_range() {
    let m = Moore::new(2).unwrap();
    assert_eq!(m.backward(m.dim_size, 0), None);
    assert_eq!(m.backward(0, m.dim_size), None);
    assert_eq!(m.backward(2, 0), Some(0));
    assert_eq!(m.backward(1, 0), Some(15));
}

#[test]
fn moore_forward_slice_keeps_order_and_absences() {
    let m = Moore::new(2).unwrap();
    let out = m.forward_slice(&[0, 3, 16, 1]);
    assert_eq!(out, vec![Some((2, 0)), Some((2, 1)), None, Some((3, 0))]);
}

#[test]
fn moore_backward_slice_keeps_order_and_absences() {
    let m = Moore::new(2).unwrap();
    let out = m.backward_slice(&[(2, 0), (4, 0), (1, 0)]);
    assert_eq!(out, vec![Some(0), None, Some(15)]);
}

#[test]
fn moore_forward_circular_wraps_both_ways() {
    let m = Moore::new(3).unwrap();
    let size = m.total_size as isize;
    for &i in &[0isize, 1, 5, size - 1] {
        assert_eq!(Some(m.forward_circular(i)), m.forward(i as usize));
        // one lap forward or backward lands on the same cell
        assert_eq!(m.forward_circular(i), m.forward_circular(i + size));
        assert_eq!(m.forward_circular(i), m.forward_circular(i - size));
        assert_eq!(m.forward_circular(i), m.forward_circular(i + 3 * size));
        assert_eq!(m.forward_circular(i), m.forward_circular(i - 2 * size));
    }
    assert_eq!(m.forward_circular(-1), m.forward(m.total_size - 1).unwrap());
    assert_eq!(m.forward_circular(size), m.forward(0).unwrap());
}

#[test]
fn moore_forward_circular_slice_matches_elementwise() {
    let m = Moore::new(2).unwrap();
    let indices = [-1isize, 0, 16, 17, -16];
    let out = m.forward_circular_slice(&indices);
    let expected: Vec<(usize, usize)> = indices.iter().map(|&i| m.forward_circular(i)).collect();
    assert_eq!(out, expected);
}

#[test]
fn moore_forward_field_spreads_by_step() {
    let m = Moore::new(2).unwrap();
    let mut values: Vec<i64> = Vec::new();
    for i in 0..m.total_size {
        values.push(i as i64 * 10);
    }
    let grid = m.forward_field(values).unwrap();
    for i in 0..m.total_size {
        let (x, y) = m.forward(i).unwrap();
        assert_eq!(grid[x][y], i as i64 * 10);
    }
    // the first visited cell of the order-two curve is (2, 0)
    assert_eq!(grid[2][0], 0);
    assert_eq!(grid[3][0], 10);
}

#[test]
fn moore_forward_field_rejects_wrong_length() {
    let m = Moore::new(2).unwrap();
    let values: Vec<i64> = vec![1, 2, 3];
    assert!(m.forward_field(values).is_none());
    let too_long: Vec<i64> = vec![0; 17];
    assert!(m.forward_field(too_long).is_none());
}

#[test]
fn moore_field_round_trip() {
    let m = Moore::new(3).unwrap();
    let mut values: Vec<String> = Vec::new();
    for i in 0..m.total_size {
        values.push(format!("v{}", i));
    }
    let grid = m.forward_field(values.clone()).unwrap();
    let back = m.backward_grid(grid);
    assert_eq!(back, values);
}

#[test]
fn moore_backward_grid_orders_by_step() {
    let m = Moore::new(2).unwrap();
    // grid[x][y] holds its own coordinates
    let mut grid: Vec<Vec<(usize, usize)>> = Vec::new();
    for x in 0..m.dim_size {
        let mut row = Vec::new();
        for y in 0..m.dim_size {
            row.push((x, y));
        }
        grid.push(row);
    }
    let field = m.backward_grid(grid);
    assert_eq!(field.len(), m.total_size);
    for i in 0..m.total_size {
        assert_eq!(field[i], m.forward(i).unwrap());
    }
}

#[test]
fn moore_is_deterministic() {
    let a = Moore::new(3).unwrap();
    let b = Moore::new(3).unwrap();
    assert_eq!(a.forward, b.forward);
    assert_eq!(a.backward, b.backward);
}
