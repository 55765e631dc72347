//! Tests for coordinates, cells, the grid and the pixel buffer.

use maze_solver::cell::{MyCell, Position};
use maze_solver::matrix::{Matrix, MatrixIterator};
use maze_solver::pixels::PixelBuffer;

#[test]
fn position_accessors() {
    let p = Position::new(3, 7);
    assert_eq!(p.y(), 3);
    assert_eq!(p.x(), 7);
    assert_eq!(p.i32y(), 3);
    assert_eq!(p.i32x(), 7);
    assert_eq!(p.position, (3, 7));
}

#[test]
fn position_equality() {
    assert_eq!(Position::new(2, 5), Position::new(2, 5));
    assert_ne!(Position::new(2, 5), Position::new(5, 2));
}

#[test]
fn chebyshev_distance_values() {
    let a = Position::new(0, 0);
    assert_eq!(a.distance(&Position::new(0, 0)), 0);
    assert_eq!(a.distance(&Position::new(1, 1)), 1);
    assert_eq!(a.distance(&Position::new(3, 1)), 3);
    assert_eq!(a.distance(&Position::new(1, 3)), 3);
    assert_eq!(Position::new(5, 2).distance(&Position::new(2, 6)), 4);
}

#[test]
fn cell_new_defaults() {
    let c = MyCell::new(4, 9, 2);
    assert_eq!(c.y(), 4);
    assert_eq!(c.x(), 9);
    assert_eq!(c.get_type(), 2);
    assert_eq!(c.get_distance(), 0);
    assert_eq!(c.get_heuristics(), 0);
    assert!(!c.get_visited());
    assert!(c.get_parent().is_none());
    assert!(!c.walk);
    assert!(!c.is_wall());
}

#[test]
fn cell_setters() {
    let mut c = MyCell::new(0, 0, 0);
    c.set_visited(true);
    assert!(c.get_visited());
    c.set_distance(11);
    assert_eq!(c.get_distance(), 11);
    c.set_heuristics(4);
    assert_eq!(c.get_heuristics(), 4);
    assert_eq!(c.get_combined(), 15);
    c.set_walk(true);
    assert!(c.walk);
    let parent = MyCell::new(2, 3, 0);
    c.set_parent(parent);
    assert_eq!(*c.get_parent(), Some((2, 3)));
}

#[test]
fn cell_wall_kind() {
    assert!(MyCell::new(0, 0, 1).is_wall());
    assert!(!MyCell::new(0, 0, 0).is_wall());
    assert!(!MyCell::new(0, 0, 2).is_wall());
    assert!(!MyCell::new(0, 0, 3).is_wall());
}

#[test]
fn matrix_sizes() {
    let m = Matrix::new(7, 4);
    assert_eq!(m.x_size(), 7);
    assert_eq!(m.y_size(), 4);
    let c = m.at(3, 6);
    assert_eq!(c.get_type(), 0);
    assert_eq!(c.get_position().position, (0, 0));
}

fn filled_matrix(x_size: usize, y_size: usize) -> Matrix {
    let mut m = Matrix::new(x_size, y_size);
    for y in 0..y_size {
        for x in 0..x_size {
            m.set(y, x, MyCell::new(y as u32, x as u32, 0));
        }
    }
    m
}

#[test]
fn neighbours_center_has_eight() {
    let m = filled_matrix(5, 5);
    let center = *m.at(2, 2);
    let ns = m.get_neighbours(&center);
    assert_eq!(ns.len(), 8);
    let mut coords: Vec<(u32, u32)> = ns
        .iter()
        .map(|r| match r {
            Ok(c) => (c.y(), c.x()),
            Err(_) => panic!("neighbour entry was Err"),
        })
        .collect();
    coords.sort();
    assert_eq!(
        coords,
        vec![(1, 1), (1, 2), (1, 3), (2, 1), (2, 3), (3, 1), (3, 2), (3, 3)]
    );
}

#[test]
fn neighbours_corner_has_three() {
    let m = filled_matrix(5, 5);
    let corner = *m.at(0, 0);
    let ns = m.get_neighbours(&corner);
    assert_eq!(ns.len(), 3);
    let mut coords: Vec<(u32, u32)> = ns
        .iter()
        .map(|r| match r {
            Ok(c) => (c.y(), c.x()),
            Err(_) => panic!("neighbour entry was Err"),
        })
        .collect();
    coords.sort();
    assert_eq!(coords, vec![(0, 1), (1, 0), (1, 1)]);
}

#[test]
fn neighbours_edge_has_five() {
    let m = filled_matrix(5, 5);
    let edge = *m.at(0, 2);
    assert_eq!(m.get_neighbours(&edge).len(), 5);
}

#[test]
fn iterator_row_major_order() {
    let m = filled_matrix(3, 2);
    let mut it = m.iterate();
    let mut seen: Vec<(u32, u32)> = Vec::new();
    while let Some(c) = it.next() {
        seen.push((c.y(), c.x()));
    }
    assert_eq!(
        seen,
        vec![(0, 0), (0, 1), (0, 2), (1, 0), (1, 1), (1, 2)]
    );
    assert!(it.next().is_none());
    // restartable: a fresh iterator walks the same cells again
    let mut it2 = m.iterate();
    assert_eq!(it2.next().map(|c| (c.y(), c.x())), Some((0, 0)));
}

#[test]
fn pixel_buffer_checks_byte_count() {
    assert!(PixelBuffer::new(2, 2, vec![0; 12]).is_some());
    assert!(PixelBuffer::new(2, 2, vec![0; 11]).is_none());
    assert!(PixelBuffer::new(2, 2, vec![0; 13]).is_none());
}

#[test]
fn pixel_buffer_roundtrip() {
    let mut data = vec![0u8; 27];
    data[3 * (1 * 3 + 2)] = 9;
    data[3 * (1 * 3 + 2) + 1] = 8;
    data[3 * (1 * 3 + 2) + 2] = 7;
    let mut b = PixelBuffer::new(3, 3, data).unwrap();
    assert_eq!(b.pixel(2, 1), (9, 8, 7));
    assert_eq!(b.width(), 3);
    assert_eq!(b.height(), 3);
    b.set_pixel(0, 2, (1, 2, 3));
    assert_eq!(b.pixel(0, 2), (1, 2, 3));
    assert_eq!(b.pixel(2, 1), (9, 8, 7));
}

#[test]
fn iterator_from_raw_rows() {
    let rows = vec![
        vec![MyCell::new(0, 0, 1), MyCell::new(0, 1, 0)],
        vec![MyCell::new(1, 0, 2), MyCell::new(1, 1, 3)],
    ];
    let mut it = MatrixIterator::new(rows);
    assert_eq!(it.next().map(|c| c.get_type()), Some(1));
    assert_eq!(it.next().map(|c| c.get_type()), Some(0));
    assert_eq!(it.next().map(|c| c.get_type()), Some(2));
    assert_eq!(it.next().map(|c| c.get_type()), Some(3));
    assert!(it.next().is_none());
    assert!(it.next().is_none());
}
