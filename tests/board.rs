use partridge::{Board, Row, BOARD_SIZE, SIZE};

#[test]
fn card_bits() {
    assert_eq!(partridge::card_bits(1), 0b1);
    assert_eq!(partridge::card_bits(2), 0b11);
    assert_eq!(partridge::card_bits(3), 0b111);
    assert_eq!(partridge::card_bits(4), 0b1111);
    assert_eq!(partridge::card_bits(5), 0b11111);
    assert_eq!(partridge::card_bits(6), 0b111111);
    assert_eq!(partridge::card_bits(7), 0b1111111);
    assert_eq!(partridge::card_bits(8), 0b11111111);
    assert_eq!(partridge::card_bits(9), 0b111111111);
}

#[test]
fn row_idenpotent() {
    let mut row = Row::default();
    for card in 1..=SIZE {
        let card_bits = partridge::card_bits(card as u8);
        let can = row.can_place(card_bits, 0);
        assert!(can);

        row.place(card_bits, 0);
        row.remove(card_bits, 0);
        assert_eq!(row.0, 0);
    }
}

#[test]
fn board_idenpotent() {
    let mut board = Board::default();
    for card in 1..=SIZE {
        let can = board.can_place(card as u8, 0, 0);
        assert!(can);

        board.place(card as u8, 0, 0);
        board.remove(card as u8, 0, 0);

        let sum: u64 = board.0.iter().map(|row| row.0).sum();
        assert_eq!(sum, 0);
    }
}

fn rows(board: &Board) -> Vec<u64> {
    board.0.iter().map(|row| row.0).collect()
}

#[test]
fn place_remove_restores_occupied_board() {
    let mut board = Board::default();
    board.place(3, 0, 0);
    board.place(2, 5, 7);
    let before = rows(&board);
    for card in 1..=SIZE as u8 {
        for &(x, y) in &[(3u8, 0u8), (10, 10), (45 - card, 45 - card), (20, 3)] {
            if board.can_place(card, x, y) {
                board.place(card, x, y);
                assert_ne!(rows(&board), before);
                board.remove(card, x, y);
                assert_eq!(rows(&board), before);
            }
        }
    }
}

#[test]
fn place_sets_footprint_bits() {
    let mut board = Board::default();
    board.place(3, 2, 1);
    assert_eq!(board.0[0].0, 0);
    assert_eq!(board.0[1].0, 0b11100);
    assert_eq!(board.0[2].0, 0b11100);
    assert_eq!(board.0[3].0, 0b11100);
    assert_eq!(board.0[4].0, 0);
}

#[test]
fn row_operations() {
    let mut row = Row(0b1000);
    assert!(row.can_place(0b111, 0));
    assert!(!row.can_place(0b11, 2));
    assert!(row.can_place(0b11, 4));
    row.place(0b11, 4);
    assert_eq!(row.0, 0b111000);
    assert!(!row.is_empty(5));
    assert!(row.is_empty(6));
    row.remove(0b11, 4);
    assert_eq!(row.0, 0b1000);
}

#[test]
fn can_place_at_board_edge() {
    let board = Board::default();
    assert!(board.can_place(9, 36, 0));
    assert!(!board.can_place(9, 37, 0));
    assert!(board.can_place(9, 0, 36));
    assert!(!board.can_place(9, 0, 37));
    assert!(board.can_place(1, 44, 44));
    assert!(!board.can_place(1, 45, 0));
    assert!(!board.can_place(2, 255, 255));
}

#[test]
fn can_place_refuses_overlap() {
    let mut board = Board::default();
    board.place(2, 4, 4);
    assert!(!board.can_place(1, 5, 5));
    assert!(!board.can_place(3, 2, 2));
    assert!(board.can_place(2, 2, 2));
    assert!(board.can_place(3, 6, 4));
    assert!(!board.can_place(3, 5, 3));
}

#[test]
fn find_empty_scans_row_major() {
    let mut board = Board::default();
    assert_eq!(board.find_empty(0), Some((0, 0)));
    board.place(3, 0, 0);
    assert_eq!(board.find_empty(0), Some((3, 0)));
    assert_eq!(board.find_empty(1), Some((3, 1)));
    assert_eq!(board.find_empty(3), Some((0, 3)));
    assert_eq!(board.find_empty(44), Some((0, 44)));
}

#[test]
fn find_empty_on_full_rows() {
    let mut board = Board::default();
    for y in 0..BOARD_SIZE {
        board.0[y] = Row(u64::MAX);
    }
    assert_eq!(board.find_empty(0), None);
    board.0[40] = Row(u64::MAX & !(1 << 7));
    assert_eq!(board.find_empty(0), Some((7, 40)));
    assert_eq!(board.find_empty(41), None);
    assert_eq!(board.find_empty(200), None);
}

#[test]
fn place_at_edge_keeps_outer_columns_clear() {
    let mut board = Board::default();
    board.place(9, 36, 36);
    for y in 36..BOARD_SIZE {
        assert_eq!(board.0[y].0, 0b111111111u64 << 36);
        assert_eq!(board.0[y].0 >> BOARD_SIZE, 0);
    }
    board.remove(9, 36, 36);
    assert!(board.0.iter().all(|row| row.0 == 0));
}
