use partridge::parse::{solution_from_bytes, solution_line};
use partridge::replay::placements;
use partridge::solver::Solution;
use partridge::BOARD_SIZE;

fn line_of(sol: &Solution) -> String {
    let mut s = String::new();
    for c in sol {
        s.push_str(&format!("{} ", c));
    }
    s
}

/// Forty-five unit pieces.
fn ones() -> Solution {
    [1u8; BOARD_SIZE]
}

#[test]
fn parse_round_trips_written_line() {
    let mut sol = [0u8; BOARD_SIZE];
    for (i, c) in sol.iter_mut().enumerate() {
        *c = (i % 9) as u8 + 1;
    }
    let line = line_of(&sol);
    assert_eq!(solution_from_bytes(line.as_bytes()), Some(sol));
}

#[test]
fn line_is_decimal_sizes_then_newline() {
    let mut sol = [1u8; BOARD_SIZE];
    sol[0] = 9;
    sol[1] = 42;
    sol[2] = 255;
    sol[3] = 0;
    let line = solution_line(&sol);
    let mut expected = String::from("9 42 255 0 ");
    for _ in 4..BOARD_SIZE {
        expected.push_str("1 ");
    }
    expected.push('\n');
    assert_eq!(line, expected.into_bytes());
}

#[test]
fn written_line_reads_back() {
    let mut sol = [0u8; BOARD_SIZE];
    for (i, c) in sol.iter_mut().enumerate() {
        *c = (i * 37 % 256) as u8;
    }
    assert_eq!(solution_from_bytes(&solution_line(&sol)), Some(sol));
}

#[test]
fn parse_accepts_any_whitespace() {
    let mut line = String::from("\t 9\t");
    for _ in 1..BOARD_SIZE {
        line.push_str("  200\r");
    }
    let parsed = solution_from_bytes(line.as_bytes()).unwrap();
    assert_eq!(parsed[0], 9);
    assert_eq!(parsed[1], 200);
    assert_eq!(parsed[BOARD_SIZE - 1], 200);
}

#[test]
fn parse_rejects_wrong_count() {
    let short = "1 2 3";
    assert_eq!(solution_from_bytes(short.as_bytes()), None);
    let mut long = line_of(&ones());
    long.push_str("1");
    assert_eq!(solution_from_bytes(long.as_bytes()), None);
    assert_eq!(solution_from_bytes(b""), None);
}

#[test]
fn parse_rejects_bad_tokens() {
    let mut line = line_of(&ones());
    line.replace_range(0..1, "x");
    assert_eq!(solution_from_bytes(line.as_bytes()), None);
    let mut big = String::from("256 ");
    for _ in 1..BOARD_SIZE {
        big.push_str("1 ");
    }
    assert_eq!(solution_from_bytes(big.as_bytes()), None);
    let mut neg = String::from("-1 ");
    for _ in 1..BOARD_SIZE {
        neg.push_str("1 ");
    }
    assert_eq!(solution_from_bytes(neg.as_bytes()), None);
}

#[test]
fn replay_of_unit_pieces_walks_the_top_row() {
    let cells = placements(&ones()).unwrap();
    assert_eq!(cells.len(), BOARD_SIZE);
    for (i, &(x, y)) in cells.iter().enumerate() {
        assert_eq!((x as usize, y), (i, 0));
    }
}

#[test]
fn replay_follows_search_order() {
    let mut sol = [1u8; BOARD_SIZE];
    sol[0] = 2;
    let cells = placements(&sol).unwrap();
    assert_eq!(cells[0], (0, 0));
    assert_eq!(cells[1], (2, 0));
    assert_eq!(cells[43], (44, 0));
    assert_eq!(cells[44], (2, 1));
}

#[test]
fn replay_rejects_non_tilings() {
    let mut zero = ones();
    zero[3] = 0;
    assert_eq!(placements(&zero), None);
    let mut ten = ones();
    ten[0] = 10;
    assert_eq!(placements(&ten), None);
    // After forty-four unit pieces the last cell of the top row is left, and a piece
    // of size two there crosses the board's edge.
    let mut edge = ones();
    edge[44] = 2;
    assert_eq!(placements(&edge), None);
    // Six pieces of size nine: five across the top, the sixth below the first.
    let mut wide = ones();
    for c in wide.iter_mut().take(6) {
        *c = 9;
    }
    let cells = placements(&wide).unwrap();
    assert_eq!(cells[4], (36, 0));
    assert_eq!(cells[5], (0, 9));
}
