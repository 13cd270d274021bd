use reginae::{Board, Boundaries, Cell};

#[test]
fn toggle_works() {
    let mut board = Board::new(8);
    board.toggle(0);
}

#[test]
fn boundary_cases() {
    fn case(index: usize, width: usize, boundaries: [usize; 8]) {
        let computed = Boundaries::new(index, width);
        assert_eq!(boundaries[0], computed.horizontal_min);
        assert_eq!(boundaries[1], computed.horizontal_max);
        assert_eq!(boundaries[2], computed.vertical_min);
        assert_eq!(boundaries[3], computed.vertical_max);
        assert_eq!(boundaries[4], computed.principal_min);
        assert_eq!(boundaries[5], computed.principal_max);
        assert_eq!(boundaries[6], computed.antidiagonal_min);
        assert_eq!(boundaries[7], computed.antidiagonal_max);
    }

    case(0, 8, [0, 7, 0, 56, 0, 63, 0, 0]);
    case(7, 8, [0, 7, 7, 63, 7, 7, 7, 56]);
    case(56, 8, [56, 63, 0, 56, 56, 56, 7, 56]);
    case(63, 8, [56, 63, 7, 63, 0, 63, 63, 63]);
    case(8, 8, [8, 15, 0, 56, 8, 62, 1, 8]);
    case(50, 8, [48, 55, 2, 58, 32, 59, 15, 57]);
    case(37, 8, [32, 39, 5, 61, 1, 55, 23, 58]);
    case(0, 9, [0, 8, 0, 72, 0, 80, 0, 0]);
    case(8, 9, [0, 8, 8, 80, 8, 8, 8, 72]);
    case(72, 9, [72, 80, 0, 72, 72, 72, 8, 72]);
    case(80, 9, [72, 80, 8, 80, 0, 80, 80, 80]);
    case(40, 9, [36, 44, 4, 76, 0, 80, 8, 72]);
    case(30, 9, [27, 35, 3, 75, 0, 80, 6, 54]);
    case(31, 9, [27, 35, 4, 76, 1, 71, 7, 63]);
    case(32, 9, [27, 35, 5, 77, 2, 62, 8, 72]);
    case(41, 9, [36, 44, 5, 77, 1, 71, 17, 73]);
    case(50, 9, [45, 53, 5, 77, 0, 80, 26, 74]);
    case(49, 9, [45, 53, 4, 76, 9, 79, 17, 73]);
    case(48, 9, [45, 53, 3, 75, 18, 78, 8, 72]);
    case(39, 9, [36, 44, 3, 75, 9, 79, 7, 63]);
    case(2, 9, [0, 8, 2, 74, 2, 62, 2, 18]);
    case(52, 9, [45, 53, 7, 79, 2, 62, 44, 76]);
}

#[test]
fn traverse_boundaries_works() {
    fn case<Q>(index: usize, width: usize, values: Q)
    where
        Q: IntoIterator<Item = usize>,
    {
        let computed: Vec<_> = Board::new(width)
            .traverse_boundaries(index)
            .into_iter()
            .map(|(i, _)| i)
            .collect();
        let expected: Vec<_> = values.into_iter().collect();
        assert_eq!(computed, expected);
    }

    case(
        0,
        8,
        (0..8)
            .chain([0, 8, 16, 24, 32, 40, 48, 56].into_iter())
            .chain([0, 9, 18, 27, 36, 45, 54, 63].into_iter())
            .chain([0].into_iter()),
    );
}

#[test]
fn traverse_boundaries_middle() {
    let computed: Vec<_> = Board::new(9)
        .traverse_boundaries(50)
        .into_iter()
        .map(|(i, _)| i)
        .collect();
    let expected: Vec<usize> = (45..=53)
        .chain((5..=77).step_by(9))
        .chain((0..=80).step_by(10))
        .chain((26..=74).step_by(8))
        .collect();
    assert_eq!(computed, expected);
}

#[test]
fn cell_flags() {
    let mut c = Cell::new(0);
    assert!(c.is_free());
    assert!(!c.is_attacked());
    c.put_queen();
    assert!(c.is_queen());
    assert!(c.is_attacked());
    assert!(!c.is_free());
    c.attack_horizontal();
    c.attack_vertical();
    c.attack_principal();
    c.attack_antidiagonal();
    assert!(c.is_attacked_horizontal());
    assert!(c.is_attacked_vertical());
    assert!(c.is_attacked_principal());
    assert!(c.is_attacked_antidiagonal());
    c.remove_queen();
    assert!(!c.is_queen());
    assert!(c.is_attacked_horizontal());
    c.lift_horizontal();
    c.lift_vertical();
    c.lift_principal();
    c.lift_antidiagonal();
    assert!(c.is_free());
    let packed = Cell::new(3);
    assert!(packed.is_queen());
    assert!(packed.is_attacked_horizontal());
    assert!(!packed.is_attacked_vertical());
}

/// Every attack flag is justified by a queen's line, and placing then
/// removing queens leaves exactly the flags of the remaining queens.
#[test]
fn attack_flags_follow_queens() {
    let width = 8;
    let mut board = Board::new(width);
    board.toggle(0);
    board.toggle(11);
    let row = |i: usize| i / width;
    let col = |i: usize| i % width;
    let queens = [0usize, 11];
    let cells = board.cells();
    for (i, c) in cells.iter().enumerate() {
        let h = queens.iter().any(|&q| row(q) == row(i));
        let v = queens.iter().any(|&q| col(q) == col(i));
        let p = queens
            .iter()
            .any(|&q| row(q) as isize - col(q) as isize == row(i) as isize - col(i) as isize);
        let a = queens.iter().any(|&q| row(q) + col(q) == row(i) + col(i));
        assert_eq!(c.is_attacked_horizontal(), h, "horizontal at {i}");
        assert_eq!(c.is_attacked_vertical(), v, "vertical at {i}");
        assert_eq!(c.is_attacked_principal(), p, "principal at {i}");
        assert_eq!(c.is_attacked_antidiagonal(), a, "antidiagonal at {i}");
        assert_eq!(c.is_queen(), queens.contains(&i));
    }
    // removing one queen must not clear the flags the other justifies
    board.toggle(0);
    let cells = board.cells();
    for (i, c) in cells.iter().enumerate() {
        let h = row(11) == row(i);
        let v = col(11) == col(i);
        assert_eq!(c.is_attacked_horizontal(), h, "horizontal at {i}");
        assert_eq!(c.is_attacked_vertical(), v, "vertical at {i}");
    }
}

/// The queen list always has exactly as many entries as there are cells
/// with the queen flag set.
#[test]
fn queen_count_matches_flags() {
    let mut board = Board::new(8);
    for index in [0, 11, 29, 5, 11, 60] {
        board.toggle(index);
        let listed = board.sorted_queens().len();
        let flagged = board.cells().iter().filter(|c| c.is_queen()).count();
        assert_eq!(listed, flagged);
    }
}

#[test]
fn toggle_is_noop_on_attacked_square() {
    let mut board = Board::new(8);
    board.toggle(0);
    let before = board.clone();
    board.toggle(5);
    assert_eq!(board, before);
}

#[test]
fn toggle_with_pair_matches_flat_index() {
    let mut with_pair = Board::new(8);
    with_pair.toggle_with_pair(3, 2);
    let mut flat = Board::new(8);
    flat.toggle(2 * 8 + 3);
    assert_eq!(with_pair, flat);
}

#[test]
fn available_lists_free_squares() {
    let mut board = Board::new(4);
    board.toggle(1);
    let avail = board.available();
    let expected: Vec<usize> = (0..16)
        .filter(|&i| {
            let r = i / 4;
            let c = i % 4;
            !(r == 0 || c == 1 || r as isize - c as isize == -1 || r + c == 1)
        })
        .collect();
    assert_eq!(avail, expected);
    let mut sorted = avail.clone();
    sorted.sort();
    assert_eq!(avail, sorted);
}

#[test]
fn clear_and_take_queens() {
    let mut board = Board::new(5);
    board.toggle(0);
    board.toggle(7);
    assert_eq!(board.sorted_queens(), vec![0, 7]);
    let taken = board.take_queens();
    assert_eq!(taken, vec![0, 7]);
    assert!(board.is_empty());
    assert!(board.cells().iter().all(|c| c.is_free()));
    board.toggle(3);
    board.clear();
    assert!(board.is_empty());
    assert_eq!(board, Board::new(5));
}

#[test]
fn rows_cover_the_grid() {
    let mut board = Board::new(3);
    board.toggle(4);
    let rows = board.rows();
    assert_eq!(rows.len(), 3);
    for (a, row) in rows.iter().enumerate() {
        assert_eq!(row.len(), 3);
        for (b, cell) in row.iter().enumerate() {
            assert_eq!(cell.is_queen(), a * 3 + b == 4);
        }
    }
}

#[test]
fn solved_and_empty_flags() {
    let mut board = Board::new(1);
    assert!(board.is_empty());
    assert!(!board.is_solved());
    board.toggle(0);
    assert!(board.is_solved());
    assert!(board.is_queen(0));
}
