use partridge::render::{color_of, render_solution, solution_png};
use partridge::replay::placements;
use partridge::solver::Solution;
use partridge::BOARD_SIZE;

const PNG_SIGNATURE: [u8; 8] = [0x89, b'P', b'N', b'G', 0x0d, 0x0a, 0x1a, 0x0a];

fn ones() -> Solution {
    [1u8; BOARD_SIZE]
}

#[test]
fn colors_per_size() {
    assert_eq!(color_of(1), (0xef, 0x44, 0x44));
    assert_eq!(color_of(2), (0xea, 0xb3, 0x08));
    assert_eq!(color_of(5), (0x22, 0xc5, 0x5e));
    assert_eq!(color_of(9), (0xf9, 0x73, 0x16));
}

#[test]
fn png_of_a_replayable_solution() {
    let png = solution_png(&ones());
    assert!(png.len() > PNG_SIGNATURE.len());
    assert_eq!(png[..8], PNG_SIGNATURE);
}

#[test]
fn different_solutions_give_different_pictures() {
    let mut other = ones();
    other[0] = 2;
    let a = solution_png(&ones());
    let b = solution_png(&other);
    assert_ne!(a, b);
    assert_eq!(a, solution_png(&ones()));
}

#[test]
fn picture_only_for_replayable_solutions() {
    let mut bad = ones();
    bad[44] = 2;
    assert!(placements(&bad).is_none());
    assert!(placements(&ones()).is_some());
    let _picture = render_solution(&ones());
}
