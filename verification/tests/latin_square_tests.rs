use latin_squares::cell::CubeEntry;
use latin_squares::latin_square::Coordinate;
use latin_squares::latin_square::IncidenceCube;
use latin_squares::latin_square::LatinSquare;
use latin_squares::latin_square::LatinSquareError;
use latin_squares::latin_square::SearchCoord;

fn assert_is_latin(sq: &LatinSquare, n: usize) {
    assert_eq!(sq.square.len(), n);
    for row in &sq.square {
        assert_eq!(row.len(), n);
        for &s in row {
            assert!(s < n);
        }
    }
    for r in 0..n {
        let mut seen = vec![false; n];
        for c in 0..n {
            let s = sq.square[r][c];
            assert!(!seen[s], "row {} repeats symbol {}", r, s);
            seen[s] = true;
        }
    }
    for c in 0..n {
        let mut seen = vec![false; n];
        for r in 0..n {
            let s = sq.square[r][c];
            assert!(!seen[s], "column {} repeats symbol {}", c, s);
            seen[s] = true;
        }
    }
}

#[test]
fn cell_toggles_step_one_at_a_time() {
    assert_eq!(CubeEntry::On.toggle_off(), CubeEntry::Off);
    assert_eq!(CubeEntry::Off.toggle_off(), CubeEntry::Improper);
    assert_eq!(CubeEntry::Improper.toggle_on(), CubeEntry::Off);
    assert_eq!(CubeEntry::Off.toggle_on(), CubeEntry::On);
}

#[test]
fn cell_as_int_values() {
    assert_eq!(CubeEntry::On.as_int(), 1);
    assert_eq!(CubeEntry::Off.as_int(), 0);
    assert_eq!(CubeEntry::Improper.as_int(), -1);
}

#[test]
fn coordinate_increment_steps_one_axis() {
    let mut c = Coordinate { x: 1, y: 2, z: 3 };
    c.increment(SearchCoord::X);
    assert_eq!((c.x, c.y, c.z), (2, 2, 3));
    c.increment(SearchCoord::Y);
    assert_eq!((c.x, c.y, c.z), (2, 3, 3));
    c.increment(SearchCoord::Z);
    assert_eq!((c.x, c.y, c.z), (2, 3, 4));
}

#[test]
fn coordinate_search_axis_reads_component() {
    let c = Coordinate { x: 7, y: 8, z: 9 };
    assert_eq!(c.search_axis(SearchCoord::X), 7);
    assert_eq!(c.search_axis(SearchCoord::Y), 8);
    assert_eq!(c.search_axis(SearchCoord::Z), 9);
}

#[test]
fn coordinate_init_for_search_zeroes_search_axis() {
    let c = Coordinate::init_for_search(4, 5, 6, SearchCoord::X);
    assert_eq!((c.x, c.y, c.z), (0, 5, 6));
    let c = Coordinate::init_for_search(4, 5, 6, SearchCoord::Y);
    assert_eq!((c.x, c.y, c.z), (4, 0, 6));
    let c = Coordinate::init_for_search(4, 5, 6, SearchCoord::Z);
    assert_eq!((c.x, c.y, c.z), (4, 5, 0));
}

#[test]
fn new_empty_is_all_zeros() {
    let sq = LatinSquare::new_empty(3);
    assert_eq!(sq.square, vec![vec![0, 0, 0], vec![0, 0, 0], vec![0, 0, 0]]);
}

#[test]
fn cyclic_square_order_three() {
    let sq = LatinSquare::new_cyclic(3).unwrap();
    assert_eq!(sq.square, vec![vec![0, 1, 2], vec![1, 2, 0], vec![2, 0, 1]]);
    assert_is_latin(&sq, 3);
}

#[test]
fn cyclic_square_rejects_orders_zero_and_one() {
    assert!(matches!(LatinSquare::new_cyclic(0), Err(LatinSquareError::InvalidOrder)));
    assert!(matches!(LatinSquare::new_cyclic(1), Err(LatinSquareError::InvalidOrder)));
}

#[test]
fn cube_rejects_orders_zero_and_one() {
    assert!(matches!(IncidenceCube::new_cyclic(0), Err(LatinSquareError::InvalidOrder)));
    assert!(matches!(IncidenceCube::new_cyclic(1), Err(LatinSquareError::InvalidOrder)));
    assert!(matches!(LatinSquare::new_random(0), Err(LatinSquareError::InvalidOrder)));
    assert!(matches!(LatinSquare::new_random(1), Err(LatinSquareError::InvalidOrder)));
}

#[test]
fn cyclic_cube_projects_to_cyclic_square() {
    let cube = IncidenceCube::new_cyclic(4).unwrap();
    assert!(cube.improper_cell.is_none());
    let sq = cube.as_latin_square();
    for x in 0..4 {
        for y in 0..4 {
            assert_eq!(sq.square[x][y], (x + y) % 4);
        }
    }
    assert_is_latin(&sq, 4);
}

#[test]
fn cyclic_cube_on_cells_in_scan_order() {
    let cube = IncidenceCube::new_cyclic(3).unwrap();
    let cells = cube.find_cyclic_cell().unwrap();
    assert_eq!(cells.len(), 9);
    for w in cells.windows(2) {
        let a = &w[0];
        let b = &w[1];
        assert!(
            a.x < b.x
                || (a.x == b.x && a.y < b.y)
                || (a.x == b.x && a.y == b.y && a.z < b.z)
        );
    }
    for c in &cells {
        assert_eq!(c.z, (c.x + c.y) % 3);
    }
}

#[test]
fn pick_coordinate_finds_the_on_cell() {
    let cube = IncidenceCube::new_cyclic(3).unwrap();
    // symbol of (x, y) is (x + y) % 3: along X with y = 1, z = 0 the On
    // cell sits at x = 2
    assert_eq!(cube.pick_coordinate(0, 1, 0, SearchCoord::X, Some(true)), 2);
    // along Y with x = 1, z = 0 the On cell sits at y = 2
    assert_eq!(cube.pick_coordinate(1, 0, 0, SearchCoord::Y, Some(true)), 2);
    // along Z with x = 1, y = 1 the On cell sits at z = 2
    assert_eq!(cube.pick_coordinate(1, 1, 0, SearchCoord::Z, Some(true)), 2);
}

#[test]
fn find_on_cell_along_axis_scans_upward() {
    let cube = IncidenceCube::new_cyclic(3).unwrap();
    let mut pos = Coordinate::init_for_search(0, 1, 2, SearchCoord::X);
    // the On cell of line (-, 1, 2) is at x = 1
    assert_eq!(cube.find_on_cell_along_axis(&mut pos, SearchCoord::X), Some(1));
    assert_eq!((pos.x, pos.y, pos.z), (1, 1, 2));
    // past the hit there is no second On cell on that line
    pos.increment(SearchCoord::X);
    assert_eq!(cube.find_on_cell_along_axis(&mut pos, SearchCoord::X), None);
    assert_eq!(pos.x, 3);
}

#[test]
fn move_cell_keeps_on_count_and_at_most_one_flaw() {
    let mut cube = IncidenceCube::new_cyclic(4).unwrap();
    for _ in 0..200 {
        cube.move_cell();
        let on_cells = cube.find_cyclic_cell().unwrap();
        let expected = if cube.improper_cell.is_some() { 17 } else { 16 };
        assert_eq!(on_cells.len(), expected);
    }
}

#[test]
fn randomize_ends_proper() {
    for _ in 0..25 {
        let mut cube = IncidenceCube::new_cyclic(4).unwrap();
        assert!(cube.shuffle());
        assert!(cube.improper_cell.is_none());
        assert_is_latin(&cube.as_latin_square(), 4);
    }
}

#[test]
fn random_squares_are_latin() {
    for n in 2..=6 {
        let sq = LatinSquare::new_random(n).unwrap();
        assert_eq!(sq.size, n);
        assert_is_latin(&sq, n);
    }
}

#[test]
fn order_two_random_square_is_one_of_the_two() {
    let sq = LatinSquare::new_random(2).unwrap();
    let a = vec![vec![0, 1], vec![1, 0]];
    let b = vec![vec![1, 0], vec![0, 1]];
    assert!(sq.square == a || sq.square == b);
}

#[test]
fn order_three_squares_roughly_uniform() {
    // there are exactly 12 latin squares of order 3; over 1200 draws each
    // should appear about 100 times, and a floor of 40 leaves roughly six
    // standard deviations of room
    let mut counts: std::collections::HashMap<Vec<Vec<usize>>, usize> =
        std::collections::HashMap::new();
    for _ in 0..1200 {
        let sq = LatinSquare::new_random(3).unwrap();
        *counts.entry(sq.square).or_insert(0) += 1;
    }
    assert_eq!(counts.len(), 12, "saw {} distinct squares", counts.len());
    for (square, count) in &counts {
        assert!(*count >= 40, "square {:?} appeared only {} times", square, count);
    }
}
