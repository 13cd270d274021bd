use reginae::{Board, NormalizedBoard, PolarScan};

#[test]
fn polar_scan_works() {
    let mut polar = PolarScan::new(5);
    assert_eq!(polar.next(), Some(0));
    assert_eq!(polar.next(), Some(1));
    assert_eq!(polar.next(), Some(6));
    assert_eq!(polar.next(), Some(5));
    assert_eq!(polar.next(), Some(2));
    assert_eq!(polar.next(), Some(7));
    assert_eq!(polar.next(), Some(12));
    assert_eq!(polar.next(), Some(11));
    assert_eq!(polar.next(), Some(10));
    assert_eq!(polar.next(), Some(3));
    assert_eq!(polar.next(), Some(8));
    assert_eq!(polar.next(), Some(13));
    assert_eq!(polar.next(), Some(18));
    assert_eq!(polar.next(), Some(17));
    assert_eq!(polar.next(), Some(16));
    assert_eq!(polar.next(), Some(15));
    assert_eq!(polar.next(), Some(4));
    assert_eq!(polar.next(), Some(9));
    assert_eq!(polar.next(), Some(14));
    assert_eq!(polar.next(), Some(19));
    assert_eq!(polar.next(), Some(24));
    assert_eq!(polar.next(), Some(23));
    assert_eq!(polar.next(), Some(22));
    assert_eq!(polar.next(), Some(21));
    assert_eq!(polar.next(), Some(20));
    assert_eq!(polar.next(), None);

    let mut polar = PolarScan::new(8);
    assert_eq!(polar.next(), Some(0));
    assert_eq!(polar.next(), Some(1));
    assert_eq!(polar.next(), Some(9));
    assert_eq!(polar.next(), Some(8));
    assert_eq!(polar.next(), Some(2));
    assert_eq!(polar.next(), Some(10));
    assert_eq!(polar.next(), Some(18));
    assert_eq!(polar.next(), Some(17));
    assert_eq!(polar.next(), Some(16));
    assert_eq!(polar.next(), Some(3));
    assert_eq!(polar.next(), Some(11));
    assert_eq!(polar.next(), Some(19));
    assert_eq!(polar.next(), Some(27));
    assert_eq!(polar.next(), Some(26));
    assert_eq!(polar.next(), Some(25));
    assert_eq!(polar.next(), Some(24));
    assert_eq!(polar.next(), Some(4));
    assert_eq!(polar.next(), Some(12));
    assert_eq!(polar.next(), Some(20));
    assert_eq!(polar.next(), Some(28));
    assert_eq!(polar.next(), Some(36));
    assert_eq!(polar.next(), Some(35));
    assert_eq!(polar.next(), Some(34));
    assert_eq!(polar.next(), Some(33));
    assert_eq!(polar.next(), Some(32));
    assert_eq!(polar.next(), Some(5));
    assert_eq!(polar.next(), Some(13));
    assert_eq!(polar.next(), Some(21));
    assert_eq!(polar.next(), Some(29));
    assert_eq!(polar.next(), Some(37));
    assert_eq!(polar.next(), Some(45));
    assert_eq!(polar.next(), Some(44));
    assert_eq!(polar.next(), Some(43));
    assert_eq!(polar.next(), Some(42));
    assert_eq!(polar.next(), Some(41));
    assert_eq!(polar.next(), Some(40));
    assert_eq!(polar.next(), Some(6));
    assert_eq!(polar.next(), Some(14));
    assert_eq!(polar.next(), Some(22));
    assert_eq!(polar.next(), Some(30));
    assert_eq!(polar.next(), Some(38));
    assert_eq!(polar.next(), Some(46));
    assert_eq!(polar.next(), Some(54));
    assert_eq!(polar.next(), Some(53));
    assert_eq!(polar.next(), Some(52));
    assert_eq!(polar.next(), Some(51));
    assert_eq!(polar.next(), Some(50));
    assert_eq!(polar.next(), Some(49));
    assert_eq!(polar.next(), Some(48));
    assert_eq!(polar.next(), Some(7));
    assert_eq!(polar.next(), Some(15));
    assert_eq!(polar.next(), Some(23));
    assert_eq!(polar.next(), Some(31));
    assert_eq!(polar.next(), Some(39));
    assert_eq!(polar.next(), Some(47));
    assert_eq!(polar.next(), Some(55));
    assert_eq!(polar.next(), Some(63));
    assert_eq!(polar.next(), Some(62));
    assert_eq!(polar.next(), Some(61));
    assert_eq!(polar.next(), Some(60));
    assert_eq!(polar.next(), Some(59));
    assert_eq!(polar.next(), Some(58));
    assert_eq!(polar.next(), Some(57));
    assert_eq!(polar.next(), Some(56));
    assert_eq!(polar.next(), None);
}

#[test]
fn rotate_cases() {
    fn case<Q>(width: usize, queens: Q, output: Q)
    where
        Q: IntoIterator<Item = usize>,
    {
        let board = Board::new(width);
        let mut board = NormalizedBoard::new(board);
        for q in queens {
            board.toggle(q);
        }
        board.rotate_clockwise();
        let queens = board.sorted_queens();
        let output = output.into_iter().collect::<Vec<_>>();
        assert_eq!(queens, output, "failed for width {width}");
    }

    case(
        8,
        vec![3, 14, 18, 31, 33, 44, 48, 61],
        vec![1, 11, 21, 31, 34, 40, 54, 60],
    );
    case(8, vec![27], vec![28]);
    case(8, vec![28], vec![36]);
    case(8, vec![36], vec![35]);
    case(8, vec![35], vec![27]);
    case(9, vec![40], vec![40]);
    case(9, vec![31], vec![41]);
    case(9, vec![41], vec![49]);
    case(9, vec![49], vec![39]);
    case(9, vec![39], vec![31]);
}

/// Four clockwise quarter turns restore the board cell for cell.
#[test]
fn four_rotations_are_identity() {
    for (width, queens) in [
        (8usize, vec![3usize, 14, 18, 31, 33, 44, 48, 61]),
        (5, vec![0, 7]),
        (9, vec![40]),
        (4, vec![]),
    ] {
        let mut board = Board::new(width);
        for q in &queens {
            board.toggle(*q);
        }
        let mut normalized = NormalizedBoard::new(board.clone());
        let before = normalized.clone();
        normalized.rotate_clockwise();
        normalized.rotate_clockwise();
        normalized.rotate_clockwise();
        normalized.rotate_clockwise();
        assert_eq!(normalized, before, "failed for width {width}");
    }
}

/// Normalizing and converting back restores the original orientation
/// exactly.
#[test]
fn normalize_round_trip() {
    for (width, queens) in [
        (8usize, vec![3usize, 14, 18, 31, 33, 44, 48, 61]),
        (8, vec![61]),
        (5, vec![7, 13]),
        (9, vec![39]),
        (2, vec![3]),
        (4, vec![]),
    ] {
        let mut board = Board::new(width);
        for q in &queens {
            board.toggle(*q);
        }
        let normalized = NormalizedBoard::new(board.clone());
        let back = normalized.to_board();
        assert_eq!(back, board, "failed for width {width}");
    }
}

#[test]
fn merge_sums_rotations() {
    let mut left = Board::new(8);
    left.toggle(61);
    let left = NormalizedBoard::new(left);
    let mut right = Board::new(8);
    right.toggle(14);
    let right = NormalizedBoard::new(right);
    let expected = right.sorted_queens();
    let merged = left.merge(right);
    assert_eq!(merged.sorted_queens(), expected);
}

/// Normalizing twice changes nothing: the canonical orientation is a
/// fixed point.
#[test]
fn normalize_is_idempotent() {
    for (width, queens) in [
        (8usize, vec![3usize, 14, 18, 31, 33, 44, 48, 61]),
        (8, vec![61]),
        (5, vec![7, 13]),
        (9, vec![39]),
        (4, vec![]),
    ] {
        let mut board = Board::new(width);
        for q in &queens {
            board.toggle(*q);
        }
        let normalized = NormalizedBoard::new(board);
        let mut again = normalized.clone();
        again.normalize();
        assert_eq!(again, normalized, "failed for width {width}");
    }
}
