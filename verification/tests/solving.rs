//! Tests for the best-first search, path reconstruction and the
//! rendered overlay.

use maze_solver::backend::get_data;
use maze_solver::cell::{MyCell, Position};
use maze_solver::djikstra::{find_shortest, heuristic};
use maze_solver::errors::MazeError;
use maze_solver::matrix::Matrix;
use maze_solver::pixels::PixelBuffer;

/// Builds a grid from rows of `#` (wall) and anything else open, with
/// every cell carrying its own coordinate and cleared search state.
fn grid_of(rows: &[&str]) -> Matrix {
    let h = rows.len();
    let w = rows[0].len();
    let mut m = Matrix::new(w, h);
    for (y, row) in rows.iter().enumerate() {
        assert_eq!(row.len(), w);
        for (x, ch) in row.chars().enumerate() {
            let t = if ch == '#' { 1 } else { 0 };
            m.set(y, x, MyCell::new(y as u32, x as u32, t));
        }
    }
    m
}

fn solver_image(rows: &[&str]) -> PixelBuffer {
    let h = rows.len() as u32;
    let w = rows[0].len() as u32;
    let mut data: Vec<u8> = Vec::new();
    for row in rows {
        for ch in row.chars() {
            let (r, g, b) = match ch {
                '#' => (0, 0, 0),
                'S' => (250, 60, 70),
                'E' => (60, 70, 250),
                _ => (255, 255, 255),
            };
            data.push(r);
            data.push(g);
            data.push(b);
        }
    }
    PixelBuffer::new(w, h, data).unwrap()
}

#[test]
fn heuristic_is_chebyshev() {
    assert_eq!(heuristic(&Position::new(1, 1), &Position::new(4, 2)), 3);
    assert_eq!(heuristic(&Position::new(1, 1), &Position::new(1, 1)), 0);
    assert_eq!(heuristic(&Position::new(5, 9), &Position::new(4, 2)), 7);
}

#[test]
fn straight_corridor_path_length_equals_chebyshev() {
    let mut m = grid_of(&[
        "############",
        "#..........#",
        "############",
    ]);
    let start = Position::new(1, 1);
    let end = Position::new(1, 10);
    let path = find_shortest(&mut m, &start, &end).unwrap();
    assert_eq!(path.len(), start.distance(&end) as usize);
    assert_eq!(path.len(), 9);
    assert_eq!(path[0].get_position().position, (1, 10));
}

#[test]
fn open_room_single_diagonal_step() {
    let mut m = grid_of(&[
        "#####",
        "#...#",
        "#...#",
        "#...#",
        "#####",
    ]);
    let start = Position::new(1, 1);
    let end = Position::new(2, 2);
    let path = find_shortest(&mut m, &start, &end).unwrap();
    assert_eq!(path.len(), 1);
    assert_eq!(path[0].get_position().position, (2, 2));
}

#[test]
fn start_equals_end_gives_empty_path() {
    let mut m = grid_of(&[
        "#####",
        "#...#",
        "#####",
    ]);
    let p = Position::new(1, 2);
    let path = find_shortest(&mut m, &p, &p).unwrap();
    assert!(path.is_empty());
    // no search iteration was required: the grid is untouched
    assert!(!m.at(1, 2).get_visited());
}

#[test]
fn enclosed_end_is_unreachable() {
    let mut m = grid_of(&[
        "#######",
        "#.....#",
        "#.###.#",
        "#.#.#.#",
        "#.###.#",
        "#.....#",
        "#######",
    ]);
    let start = Position::new(1, 1);
    let end = Position::new(3, 3);
    match find_shortest(&mut m, &start, &end) {
        Err(MazeError::Unreachable) => {}
        _ => panic!("expected Unreachable, not an empty path treated as success"),
    }
    // nothing was walked
    for y in 0..7 {
        for x in 0..7 {
            assert!(!m.at(y, x).walk);
        }
    }
}

#[test]
fn path_excludes_start_includes_end() {
    let mut m = grid_of(&[
        "#######",
        "#.....#",
        "#.....#",
        "#.....#",
        "#######",
    ]);
    let start = Position::new(1, 1);
    let end = Position::new(3, 5);
    let path = find_shortest(&mut m, &start, &end).unwrap();
    assert_eq!(path[0].get_position().position, (3, 5));
    for cell in &path {
        assert_ne!(cell.get_position().position, (1, 1));
    }
}

#[test]
fn walls_are_never_walked() {
    let mut m = grid_of(&[
        "#########",
        "#...#...#",
        "#.#.#.#.#",
        "#.#...#.#",
        "#########",
    ]);
    let start = Position::new(1, 1);
    let end = Position::new(1, 7);
    let path = find_shortest(&mut m, &start, &end);
    assert!(path.is_ok());
    for y in 0..5 {
        for x in 0..9 {
            let c = m.at(y, x);
            if c.is_wall() {
                assert!(!c.walk);
            }
            if c.walk {
                assert!(c.get_visited());
            }
        }
    }
}

#[test]
fn equal_cost_corridors_give_equal_cost() {
    let mut m = grid_of(&[
        "#######",
        "#.....#",
        "#.###.#",
        "#.....#",
        "#######",
    ]);
    let start = Position::new(1, 1);
    let end = Position::new(3, 5);
    let path = find_shortest(&mut m, &start, &end).unwrap();
    // the straight run and the jogged run cost the same; either path is
    // acceptable, but the cost is pinned
    assert_eq!(path.len(), 5);
    assert_eq!(path[0].get_position().position, (3, 5));
}

#[test]
fn path_is_a_chain_of_adjacent_cells() {
    let mut m = grid_of(&[
        "########",
        "#......#",
        "#.####.#",
        "#......#",
        "########",
    ]);
    let start = Position::new(1, 1);
    let end = Position::new(3, 3);
    let path = find_shortest(&mut m, &start, &end).unwrap();
    for i in 0..path.len() {
        let (py, px) = path[i].get_position().position;
        let (qy, qx) = if i + 1 < path.len() {
            path[i + 1].get_position().position
        } else {
            (1, 1)
        };
        let dy = if py >= qy { py - qy } else { qy - py };
        let dx = if px >= qx { px - qx } else { qx - px };
        assert_eq!(if dy >= dx { dy } else { dx }, 1);
        assert!(!path[i].is_wall());
    }
}

#[test]
fn solved_maze_end_to_end() {
    let img = solver_image(&[
        "..........",
        ".########.",
        ".#..S...#.",
        ".#......#.",
        ".#...E..#.",
        ".########.",
        "..........",
        "..........",
    ]);
    let mut d = get_data(String::from("maze"), img).unwrap();
    let start = d.get_start().unwrap();
    let end = d.get_end().unwrap();
    assert_eq!(start.position, (2, 4));
    assert_eq!(end.position, (4, 5));
    let mut m = d.matrix();
    let path = find_shortest(&mut m, &start, &end).unwrap();
    assert_eq!(path.len(), 2);
    assert_eq!(path[0].get_position().position, (4, 5));
    // every wall stays unwalked in the annotated grid
    for y in 0..m.y_size() {
        for x in 0..m.x_size() {
            if m.at(y, x).is_wall() {
                assert!(!m.at(y, x).walk);
            }
        }
    }
    // the overlay paints path cells red and other visited cells green
    d.write_image(&path, &m);
    let (ey, ex) = (4u32, 5u32);
    assert_eq!(d.image.pixel(ex + d.diff_x, ey + d.diff_y), (255, 0, 0));
    let start_visited = m.at(2, 4).get_visited();
    assert!(start_visited);
    assert_eq!(d.image.pixel(4 + d.diff_x, 2 + d.diff_y), (0, 255, 0));
    // a pixel outside the grid keeps its original bytes
    assert_eq!(d.image.pixel(9, 7), (255, 255, 255));
}
