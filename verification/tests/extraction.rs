//! Tests for pixel classification, bounding-box detection, grid
//! extraction and marker resolution.

use maze_solver::backend::{
    get_bottom_corner, get_data, get_top_corner, test_black, test_blue, test_colorus, test_red,
};
use maze_solver::errors::MazeError;
use maze_solver::pixels::PixelBuffer;

const WALL: (u8, u8, u8) = (0, 0, 0);
const OPEN: (u8, u8, u8) = (255, 255, 255);
const RED: (u8, u8, u8) = (250, 60, 70);
const BLUE: (u8, u8, u8) = (60, 70, 250);

/// Builds a pixel buffer from rows of `#` (wall), `S` (red marker),
/// `E` (blue marker) and anything else open.
fn image_of(rows: &[&str]) -> PixelBuffer {
    let h = rows.len() as u32;
    let w = rows[0].len() as u32;
    let mut data: Vec<u8> = Vec::new();
    for row in rows {
        assert_eq!(row.len() as u32, w);
        for ch in row.chars() {
            let (r, g, b) = match ch {
                '#' => WALL,
                'S' => RED,
                'E' => BLUE,
                _ => OPEN,
            };
            data.push(r);
            data.push(g);
            data.push(b);
        }
    }
    PixelBuffer::new(w, h, data).unwrap()
}

#[test]
fn classify_wall_colors() {
    assert!(test_black(&[0, 0, 0]));
    assert!(test_black(&[120, 120, 130])); // two equal, one under 160
    assert!(test_black(&[160, 160, 160]));
    assert!(!test_black(&[200, 200, 200])); // equal but all over 160
    assert!(test_black(&[49, 60, 70])); // darkest channel under 50
    assert!(!test_black(&[50, 60, 70])); // darkest channel not under 50
    assert!(!test_black(&[250, 60, 70]));
}

#[test]
fn classify_markers() {
    assert!(test_red(&[250, 60, 70]));
    assert!(test_red(&[150, 99, 200]));
    assert!(!test_red(&[149, 60, 70]));
    assert!(!test_red(&[250, 120, 120]));
    assert!(test_blue(&[60, 70, 250]));
    assert!(!test_blue(&[60, 70, 149]));
    assert!(!test_blue(&[120, 120, 250]));
}

#[test]
fn classify_priority_order() {
    assert_eq!(test_colorus(&[0, 0, 0]), 1);
    assert_eq!(test_colorus(&[250, 60, 70]), 2);
    assert_eq!(test_colorus(&[60, 70, 250]), 3);
    assert_eq!(test_colorus(&[255, 255, 255]), 0);
    // a pixel that passes both the wall and the red test counts as wall
    assert_eq!(test_colorus(&[200, 50, 50]), 1);
}

#[test]
fn corners_of_simple_box() {
    let img = image_of(&[
        "..........",
        ".########.",
        ".#..S...#.",
        ".#......#.",
        ".#...E..#.",
        ".########.",
        "..........",
        "..........",
    ]);
    let top = get_top_corner(&img).unwrap();
    assert_eq!(top.position, (1, 1));
    let bottom = get_bottom_corner(&img).unwrap();
    assert_eq!(bottom.position, (6, 9));
}

#[test]
fn corners_absent_without_walls() {
    let img = image_of(&["....", "....", "...."]);
    assert!(get_top_corner(&img).is_none());
    assert!(get_bottom_corner(&img).is_none());
}

#[test]
fn extraction_builds_grid_with_margin() {
    let img = image_of(&[
        "..........",
        ".########.",
        ".#..S...#.",
        ".#......#.",
        ".#...E..#.",
        ".########.",
        "..........",
        "..........",
    ]);
    let d = get_data(String::from("box"), img).unwrap();
    assert_eq!(d.diff_y, 0);
    assert_eq!(d.diff_x, 0);
    let m = d.matrix();
    assert_eq!(m.y_size(), 6);
    assert_eq!(m.x_size(), 9);
    // the border wall and the open interior
    assert!(m.at(1, 1).is_wall());
    assert!(m.at(1, 8).is_wall());
    assert!(m.at(5, 4).is_wall());
    assert!(!m.at(0, 0).is_wall()); // margin row stays open
    assert!(!m.at(3, 4).is_wall());
    // the markers keep their kinds
    assert_eq!(m.at(2, 4).get_type(), 2);
    assert_eq!(m.at(4, 5).get_type(), 3);
    // cells carry their own coordinates
    assert_eq!(m.at(3, 4).get_position().position, (3, 4));
}

#[test]
fn diagonal_gap_repair_forces_walls() {
    let img = image_of(&[
        "..........",
        ".########.",
        ".#..S...#.",
        ".#......#.",
        ".#...E..#.",
        ".########.",
        "..........",
        "..........",
    ]);
    let d = get_data(String::from("box"), img).unwrap();
    let m = d.matrix();
    // the cell inside the box's corner has wall-colored pixels to its
    // north and west, so the repair rule closes it
    assert!(m.at(2, 2).is_wall());
    assert!(m.at(2, 7).is_wall());
    assert!(m.at(4, 2).is_wall());
    // a cell with only one orthogonal wall-colored neighbor stays open
    assert!(!m.at(3, 2).is_wall());
}

#[test]
fn extraction_fails_without_walls() {
    let img = image_of(&["....", ".S..", "..E.", "...."]);
    match get_data(String::from("blank"), img) {
        Err(MazeError::ExtractionAmbiguity) => {}
        _ => panic!("expected ExtractionAmbiguity"),
    }
}

#[test]
fn extraction_is_deterministic() {
    let rows = [
        "..........",
        ".########.",
        ".#..S...#.",
        ".#......#.",
        ".#...E..#.",
        ".########.",
        "..........",
        "..........",
    ];
    let d1 = get_data(String::from("a"), image_of(&rows)).unwrap();
    let d2 = get_data(String::from("b"), image_of(&rows)).unwrap();
    assert_eq!(d1.top_corner.position, d2.top_corner.position);
    assert_eq!(d1.bottom_corner.position, d2.bottom_corner.position);
    assert_eq!(d1.diff_x, d2.diff_x);
    assert_eq!(d1.diff_y, d2.diff_y);
    let m1 = d1.matrix();
    let m2 = d2.matrix();
    assert_eq!(m1.y_size(), m2.y_size());
    assert_eq!(m1.x_size(), m2.x_size());
    for y in 0..m1.y_size() {
        for x in 0..m1.x_size() {
            let c1 = m1.at(y, x);
            let c2 = m2.at(y, x);
            assert_eq!(c1.get_type(), c2.get_type());
            assert_eq!(c1.get_position().position, c2.get_position().position);
            assert_eq!(c1.get_distance(), c2.get_distance());
            assert_eq!(c1.get_visited(), c2.get_visited());
        }
    }
}

#[test]
fn markers_resolve_inside_box() {
    let img = image_of(&[
        "..........",
        ".########.",
        ".#..S...#.",
        ".#......#.",
        ".#...E..#.",
        ".########.",
        "..........",
        "..........",
    ]);
    let d = get_data(String::from("box"), img).unwrap();
    let start = d.get_start().unwrap();
    assert_eq!(start.position, (2, 4));
    let end = d.get_end().unwrap();
    assert_eq!(end.position, (4, 5));
}

#[test]
fn create_position_translates_directly() {
    let img = image_of(&[
        "..........",
        ".########.",
        ".#..S...#.",
        ".#......#.",
        ".#...E..#.",
        ".########.",
        "..........",
        "..........",
    ]);
    let d = get_data(String::from("box"), img).unwrap();
    // create_position takes (x, y) in image space
    assert_eq!(d.create_position(4, 2).unwrap().position, (2, 4));
    assert_eq!(d.create_position(5, 4).unwrap().position, (4, 5));
}

#[test]
fn marker_missing_is_reported() {
    let img = image_of(&[
        "........",
        ".######.",
        ".#....#.",
        ".#.E..#.",
        ".######.",
        "........",
    ]);
    let d = get_data(String::from("nored"), img).unwrap();
    match d.get_start() {
        Err(MazeError::MarkerNotFound) => {}
        _ => panic!("expected MarkerNotFound"),
    }
    assert!(d.get_end().is_ok());
}

#[test]
fn marker_above_corridor_resolves_to_its_column() {
    // start marker 3 pixels above the detected box, directly above a
    // 6-pixel-wide open corridor through the top border
    let img = image_of(&[
        "................",
        "......S.........",
        "................",
        "................",
        "..##......####..",
        "..#..........#..",
        "..#..........#..",
        "..#....E.....#..",
        "..#..........#..",
        "..#..........#..",
        "..############..",
        "................",
    ]);
    let d = get_data(String::from("gap"), img).unwrap();
    assert_eq!(d.top_corner.position, (4, 2));
    assert_eq!(d.diff_y, 3);
    assert_eq!(d.diff_x, 1);
    let start = d.get_start().unwrap();
    // grid row 0, and a column within the corridor's span (grid
    // columns 3..=8), not an arbitrary boundary cell
    assert_eq!(start.position.0, 0);
    assert!(start.position.1 >= 3 && start.position.1 <= 8);
    assert_eq!(start.position, (0, 5));
}

#[test]
fn marker_outside_two_sides_is_ambiguous() {
    let img = image_of(&[
        "S.........",
        "..........",
        "..........",
        "...#####..",
        "...#...#..",
        "...#.E.#..",
        "...#####..",
        "..........",
    ]);
    let d = get_data(String::from("corner"), img).unwrap();
    assert_eq!(d.diff_y, 2);
    assert_eq!(d.diff_x, 2);
    match d.get_start() {
        Err(MazeError::MarkerAmbiguous) => {}
        _ => panic!("expected MarkerAmbiguous"),
    }
}

#[test]
fn marker_below_box_scans_bottom_edge() {
    // the start marker sits below the box, left of the bottom border's
    // gap; the forward edge scan crosses the wall run and counts open
    // cells until the gap satisfies the threshold
    let img = image_of(&[
        "..............",
        "..............",
        "..##########..",
        "..#........#..",
        "..#..E.....#..",
        "..#........#..",
        "..#........#..",
        "..#........#..",
        "..###.....##..",
        "..............",
        "...S..........",
        "..............",
    ]);
    let d = get_data(String::from("gapbelow"), img).unwrap();
    assert_eq!(d.diff_y, 1);
    assert_eq!(d.diff_x, 1);
    let m = d.matrix();
    assert_eq!(m.y_size(), 8);
    assert_eq!(m.x_size(), 11);
    let start = d.get_start().unwrap();
    // bottom edge row, fifth open cell after the crossed wall run
    assert_eq!(start.position, (7, 8));
    let end = d.get_end().unwrap();
    assert_eq!(end.position, (3, 4));
}

#[test]
fn edge_scan_restarts_count_at_walls() {
    // below the box, the bottom border holds a two-cell opening, a
    // wall, then a five-cell corridor: the scan must restart its count
    // at the middle wall and resolve inside the five-cell run
    let img = image_of(&[
        "................",
        "................",
        "..############..",
        "..#..........#..",
        "..#...E......#..",
        "..#..........#..",
        "..#..........#..",
        "..#..........#..",
        "..###..#.....#..",
        "................",
        "...S............",
        "................",
    ]);
    let d = get_data(String::from("brokenrun"), img).unwrap();
    assert_eq!(d.diff_y, 1);
    assert_eq!(d.diff_x, 1);
    let m = d.matrix();
    assert_eq!(m.y_size(), 8);
    assert_eq!(m.x_size(), 13);
    let start = d.get_start().unwrap();
    // the fifth consecutive open cell of the second run, not the fifth
    // open cell seen overall
    assert_eq!(start.position, (7, 11));
}
