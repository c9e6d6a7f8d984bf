use vstd::prelude::*;

use crate::{
    cell_int, cell_occupied, empty_rows, filled_before, first_empty_at, first_empty, fits, full_from, lemma_no_empty_is_full,
    lemma_place_remove_restores, lemma_placed_keeps, placed, covered, lemma_covered_placed,
    lemma_covered_full, lemma_covered_empty, Board, BOARD_SIZE, SIZE,
};

verus! {

/// The sizes of the pieces of a tiling, in the order they were set down.
pub type Solution = [u8; BOARD_SIZE];

/// Depth below which a branch of the search may be handed to a worker of its own.
pub const MAX_PARALLEL_DEPTH: u8 = 10;

/// How many pieces are left over all sizes.
pub open spec fn total(free: Seq<u8>) -> int {
    free[0] + free[1] + free[2] + free[3] + free[4] + free[5] + free[6] + free[7] + free[8]
}

/// A path of piece sizes written out to a full `Solution`, zeros after its end.
pub open spec fn padded(path: Seq<u8>) -> Seq<u8> {
    path + Seq::new((BOARD_SIZE - path.len()) as nat, |i: int| 0u8)
}

/// The tilings reached from the state `(rows, free, path)` with `(x, y)` the cell to fill,
/// trying the sizes from `idx + 1` up, in the order a depth-first search finds them.
pub open spec fn search_from(
    rows: Seq<u64>,
    free: Seq<u8>,
    path: Seq<u8>,
    x: int,
    y: int,
    idx: int,
) -> Seq<Seq<u8>>
    decreases BOARD_SIZE - path.len(), SIZE - idx,
{
    if idx < 0 || idx >= SIZE || path.len() >= BOARD_SIZE {
        Seq::empty()
    } else {
        let rest = search_from(rows, free, path, x, y, idx + 1);
        if free[idx] == 0 || !fits(rows, idx + 1, x, y) {
            rest
        } else {
            let rows2 = placed(rows, idx + 1, x, y);
            let path2 = path.push((idx + 1) as u8);
            let here = match first_empty(rows2, y) {
                None => seq![padded(path2)],
                Some((nx, ny)) => search_from(
                    rows2,
                    free.update(idx, (free[idx] - 1) as u8),
                    path2,
                    nx,
                    ny,
                    0,
                ),
            };
            here + rest
        }
    }
}

/// All tilings reached from the state `(rows, free, path)` with `(x, y)` the cell to fill.
pub open spec fn search(rows: Seq<u64>, free: Seq<u8>, path: Seq<u8>, x: int, y: int) -> Seq<
    Seq<u8>,
> {
    search_from(rows, free, path, x, y, 0)
}

/// A state one piece further on: covered rows, pieces left, path, and the next cell to fill.
pub type BranchModel = (Seq<u64>, Seq<u8>, Seq<u8>, Option<(int, int)>);

/// The states reached from `(rows, free, path)` by setting down, at `(x, y)`, one piece of
/// each size from `idx + 1` up that is left and fits, in order of size.
pub open spec fn branches_from(
    rows: Seq<u64>,
    free: Seq<u8>,
    path: Seq<u8>,
    x: int,
    y: int,
    idx: int,
) -> Seq<BranchModel>
    decreases SIZE - idx,
{
    if idx < 0 || idx >= SIZE || path.len() >= BOARD_SIZE {
        Seq::empty()
    } else {
        let rest = branches_from(rows, free, path, x, y, idx + 1);
        if free[idx] == 0 || !fits(rows, idx + 1, x, y) {
            rest
        } else {
            let rows2 = placed(rows, idx + 1, x, y);
            seq![
                (
                    rows2,
                    free.update(idx, (free[idx] - 1) as u8),
                    path.push((idx + 1) as u8),
                    first_empty(rows2, y),
                ),
            ] + rest
        }
    }
}

/// The tilings that complete one branch: its own path when no cell is left, else those
/// that the search from its next cell finds.
pub open spec fn branch_results(b: BranchModel) -> Seq<Seq<u8>> {
    match b.3 {
        None => seq![padded(b.2)],
        Some((nx, ny)) => search(b.0, b.1, b.2, nx, ny),
    }
}

/// The tilings of each branch in turn, one after the other.
pub open spec fn results_of(bs: Seq<BranchModel>) -> Seq<Seq<u8>>
    decreases bs.len(),
{
    if bs.len() == 0 {
        Seq::empty()
    } else {
        branch_results(bs[0]) + results_of(bs.drop_first())
    }
}

proof fn lemma_branches_from(
    rows: Seq<u64>,
    free: Seq<u8>,
    path: Seq<u8>,
    x: int,
    y: int,
    idx: int,
)
    requires
        0 <= idx <= SIZE,
    ensures
        results_of(branches_from(rows, free, path, x, y, idx)) == search_from(
            rows,
            free,
            path,
            x,
            y,
            idx,
        ),
    decreases SIZE - idx,
{
    if idx < SIZE && path.len() < BOARD_SIZE {
        lemma_branches_from(rows, free, path, x, y, idx + 1);
        let bs = branches_from(rows, free, path, x, y, idx);
        let rest = branches_from(rows, free, path, x, y, idx + 1);
        if !(free[idx] == 0 || !fits(rows, idx + 1, x, y)) {
            assert(bs.drop_first() =~= rest);
        }
    }
}

/// Searching each branch one level below the root on its own, by hand or by a worker,
/// and putting the results side by side in the order of the branches, gives exactly the
/// tilings of the whole search, in the same order.
pub proof fn lemma_branches_cover_search(
    rows: Seq<u64>,
    free: Seq<u8>,
    path: Seq<u8>,
    x: int,
    y: int,
)
    ensures
        results_of(branches_from(rows, free, path, x, y, 0)) == search(rows, free, path, x, y),
{
    lemma_branches_from(rows, free, path, x, y, 0);
}

/// `e` is a full-length tiling that extends `path` and whose next size lies in `lo..=SIZE`.
pub open spec fn extends_with(e: Seq<u8>, path: Seq<u8>, lo: int) -> bool {
    &&& e.len() == BOARD_SIZE
    &&& path.len() < BOARD_SIZE
    &&& forall|k: int| 0 <= k < path.len() ==> #[trigger] e[k] == path[k]
    &&& lo <= e[path.len() as int] <= SIZE
}

proof fn lemma_search_shape(
    rows: Seq<u64>,
    free: Seq<u8>,
    path: Seq<u8>,
    x: int,
    y: int,
    idx: int,
)
    requires
        0 <= idx,
    ensures
        forall|i: int|
            0 <= i < search_from(rows, free, path, x, y, idx).len() ==> extends_with(
                #[trigger] search_from(rows, free, path, x, y, idx)[i],
                path,
                idx + 1,
            ),
        search_from(rows, free, path, x, y, idx).no_duplicates(),
    decreases BOARD_SIZE - path.len(), SIZE - idx,
{
    if idx < SIZE && path.len() < BOARD_SIZE {
        lemma_search_shape(rows, free, path, x, y, idx + 1);
        let rest = search_from(rows, free, path, x, y, idx + 1);
        if !(free[idx] == 0 || !fits(rows, idx + 1, x, y)) {
            let rows2 = placed(rows, idx + 1, x, y);
            let free2 = free.update(idx, (free[idx] - 1) as u8);
            let path2 = path.push((idx + 1) as u8);
            let here = match first_empty(rows2, y) {
                None => seq![padded(path2)],
                Some((nx, ny)) => search_from(rows2, free2, path2, nx, ny, 0),
            };
            match first_empty(rows2, y) {
                None => {
                    assert(padded(path2)[path.len() as int] == path2[path.len() as int]);
                },
                Some((nx, ny)) => {
                    lemma_search_shape(rows2, free2, path2, nx, ny, 0);
                    assert forall|i: int| 0 <= i < here.len() implies extends_with(
                        #[trigger] here[i],
                        path,
                        idx + 1,
                    ) && here[i][path.len() as int] == idx + 1 by {
                        assert(here[i][path.len() as int] == path2[path.len() as int]);
                        assert forall|k: int| 0 <= k < path.len() implies #[trigger] here[i][k]
                            == path[k] by {
                            assert(here[i][k] == path2[k]);
                        }
                    }
                },
            }
            let all = here + rest;
            assert forall|i: int| 0 <= i < here.len() implies #[trigger] here[i][path.len() as int]
                == idx + 1 by {
                if first_empty(rows2, y) is None {
                    assert(padded(path2)[path.len() as int] == path2[path.len() as int]);
                }
            }
            assert forall|i: int, j: int|
                0 <= i < all.len() && 0 <= j < all.len() && i != j implies #[trigger] all[i]
                != #[trigger] all[j] by {
                if i < here.len() && j >= here.len() {
                    assert(all[i][path.len() as int] == idx + 1);
                    assert(extends_with(rest[j - here.len()], path, idx + 2));
                } else if j < here.len() && i >= here.len() {
                    assert(all[j][path.len() as int] == idx + 1);
                    assert(extends_with(rest[i - here.len()], path, idx + 2));
                }
            }
            assert forall|i: int| 0 <= i < all.len() implies extends_with(
                #[trigger] all[i],
                path,
                idx + 1,
            ) by {
                if i >= here.len() {
                    assert(extends_with(rest[i - here.len()], path, idx + 2));
                }
            }
        }
    }
}

/// The search never finds the same tiling twice.
pub proof fn lemma_search_unique(rows: Seq<u64>, free: Seq<u8>, path: Seq<u8>, x: int, y: int)
    ensures
        search(rows, free, path, x, y).no_duplicates(),
{
    lemma_search_shape(rows, free, path, x, y, 0);
}

/// Replaying the sizes `e[k..]` from `rows` with `(x, y)` the cell to fill, each is a
/// size of a piece and fits at the cell to fill, the next cell being the first uncovered
/// one from its row on; when no cell is left, every cell is covered and the rest of `e`
/// is zeros.
pub open spec fn lays(rows: Seq<u64>, e: Seq<u8>, k: int, x: int, y: int) -> bool
    decreases e.len() - k,
{
    if k < 0 || k >= e.len() {
        false
    } else {
        let card = e[k] as int;
        let rows2 = placed(rows, card, x, y);
        &&& 1 <= card <= SIZE
        &&& fits(rows, card, x, y)
        &&& match first_empty(rows2, y) {
            None => full_from(rows2, 0) && forall|j: int| k < j < e.len() ==> #[trigger] e[j] == 0,
            Some((nx, ny)) => lays(rows2, e, k + 1, nx, ny),
        }
    }
}

proof fn lemma_search_from_tiles(
    rows: Seq<u64>,
    free: Seq<u8>,
    path: Seq<u8>,
    x: int,
    y: int,
    idx: int,
)
    requires
        rows.len() == BOARD_SIZE,
        0 <= idx,
        filled_before(rows, x, y),
    ensures
        forall|i: int|
            0 <= i < search_from(rows, free, path, x, y, idx).len() ==> lays(
                rows,
                #[trigger] search_from(rows, free, path, x, y, idx)[i],
                path.len() as int,
                x,
                y,
            ),
    decreases BOARD_SIZE - path.len(), SIZE - idx,
{
    if idx < SIZE && path.len() < BOARD_SIZE {
        lemma_search_from_tiles(rows, free, path, x, y, idx + 1);
        lemma_search_shape(rows, free, path, x, y, idx);
        let rest = search_from(rows, free, path, x, y, idx + 1);
        if !(free[idx] == 0 || !fits(rows, idx + 1, x, y)) {
            let card = idx + 1;
            let rows2 = placed(rows, card, x, y);
            let free2 = free.update(idx, (free[idx] - 1) as u8);
            let path2 = path.push(card as u8);
            let k = path.len() as int;
            lemma_placed_keeps(rows, card, x, y);
            let here = match first_empty(rows2, y) {
                None => seq![padded(path2)],
                Some((nx, ny)) => search_from(rows2, free2, path2, nx, ny, 0),
            };
            assert forall|i: int| 0 <= i < here.len() implies lays(
                rows,
                #[trigger] here[i],
                k,
                x,
                y,
            ) by {
                match first_empty(rows2, y) {
                    None => {
                        lemma_no_empty_is_full(rows2, y);
                        assert(here[i][k] == path2[k]);
                        assert forall|cx: int, cy: int|
                            0 <= cy < BOARD_SIZE && 0 <= cx < BOARD_SIZE implies #[trigger] cell_occupied(
                            rows2,
                            cx,
                            cy,
                        ) by {
                            if cy < y {
                                assert(cell_occupied(rows, cx, cy));
                            }
                        }
                    },
                    Some((nx, ny)) => {
                        assert(first_empty_at(rows2, y, nx, ny)) by {
                            let (ax, ay) = choose|ax: int, ay: int|
                                first_empty_at(rows2, y, ax, ay);
                        }
                        assert forall|cx: int, cy: int|
                            0 <= cy && 0 <= cx < BOARD_SIZE && (cy < ny || (cy == ny && cx < nx))
                                implies #[trigger] cell_occupied(rows2, cx, cy) by {
                            if cy < y {
                                assert(cell_occupied(rows, cx, cy));
                            }
                        }
                        lemma_search_from_tiles(rows2, free2, path2, nx, ny, 0);
                        lemma_search_shape(rows2, free2, path2, nx, ny, 0);
                        assert(extends_with(here[i], path2, 1));
                        assert(here[i][k] == path2[k]);
                    },
                }
            }
            let all = here + rest;
            assert forall|i: int| 0 <= i < all.len() implies lays(
                rows,
                #[trigger] all[i],
                k,
                x,
                y,
            ) by {
                if i >= here.len() {
                    assert(all[i] == rest[i - here.len()]);
                }
            }
        }
    }
}

/// Every tiling that the search finds from a state whose cells before `(x, y)` are all
/// covered, replayed from that state, sets each piece down where it fits, over no
/// covered cell, and ends with every cell of the board covered. From the empty board
/// and `(0, 0)` this holds of every tiling the whole search records.
pub proof fn lemma_search_tiles(rows: Seq<u64>, free: Seq<u8>, path: Seq<u8>, x: int, y: int)
    requires
        rows.len() == BOARD_SIZE,
        filled_before(rows, x, y),
    ensures
        forall|i: int|
            0 <= i < search(rows, free, path, x, y).len() ==> lays(
                rows,
                #[trigger] search(rows, free, path, x, y)[i],
                path.len() as int,
                x,
                y,
            ),
{
    lemma_search_from_tiles(rows, free, path, x, y, 0);
}

/// How many of `e[k..]` equal `s`.
pub open spec fn count_from(e: Seq<u8>, k: int, s: int) -> nat
    decreases e.len() - k,
{
    if k < 0 || k >= e.len() {
        0
    } else {
        (if e[k] == s {
            1nat
        } else {
            0nat
        }) + count_from(e, k + 1, s)
    }
}

/// No size occurs in `e[k..]` more often than `free` has pieces of it.
pub open spec fn within(e: Seq<u8>, k: int, free: Seq<u8>) -> bool {
    forall|s: int| 1 <= s <= SIZE ==> #[trigger] count_from(e, k, s) <= free[s - 1]
}

proof fn lemma_search_from_complete(
    rows: Seq<u64>,
    free: Seq<u8>,
    path: Seq<u8>,
    x: int,
    y: int,
    idx: int,
    e: Seq<u8>,
)
    requires
        rows.len() == BOARD_SIZE,
        free.len() == SIZE,
        e.len() == BOARD_SIZE,
        path.len() < BOARD_SIZE,
        forall|k: int| 0 <= k < path.len() ==> #[trigger] e[k] == path[k],
        lays(rows, e, path.len() as int, x, y),
        within(e, path.len() as int, free),
        0 <= idx < e[path.len() as int],
    ensures
        search_from(rows, free, path, x, y, idx).contains(e),
    decreases BOARD_SIZE - path.len(), SIZE - idx,
{
    let k = path.len() as int;
    let card = e[k] as int;
    let rest = search_from(rows, free, path, x, y, idx + 1);
    if idx + 1 < card {
        lemma_search_from_complete(rows, free, path, x, y, idx + 1, e);
        let i = choose|i: int| 0 <= i < rest.len() && rest[i] == e;
        if !(free[idx] == 0 || !fits(rows, idx + 1, x, y)) {
            let rows2 = placed(rows, idx + 1, x, y);
            let here = match first_empty(rows2, y) {
                None => seq![padded(path.push((idx + 1) as u8))],
                Some((nx, ny)) => search_from(
                    rows2,
                    free.update(idx, (free[idx] - 1) as u8),
                    path.push((idx + 1) as u8),
                    nx,
                    ny,
                    0,
                ),
            };
            assert((here + rest)[here.len() + i] == e);
        }
    } else {
        assert(count_from(e, k, card) >= 1);
        assert(free[idx] >= 1);
        let rows2 = placed(rows, card, x, y);
        let free2 = free.update(idx, (free[idx] - 1) as u8);
        let path2 = path.push(card as u8);
        let here = match first_empty(rows2, y) {
            None => seq![padded(path2)],
            Some((nx, ny)) => search_from(rows2, free2, path2, nx, ny, 0),
        };
        match first_empty(rows2, y) {
            None => {
                assert(padded(path2) =~= e);
                assert(here[0] == e);
            },
            Some((nx, ny)) => {
                assert forall|s: int| 1 <= s <= SIZE implies #[trigger] count_from(e, k + 1, s)
                    <= free2[s - 1] by {
                    assert(count_from(e, k, s) <= free[s - 1]);
                    assert(count_from(e, k, s) == (if e[k] == s {
                        1nat
                    } else {
                        0nat
                    }) + count_from(e, k + 1, s));
                }
                assert(lays(rows2, e, k + 1, nx, ny));
                if k + 1 < BOARD_SIZE {
                    lemma_search_from_complete(rows2, free2, path2, nx, ny, 0, e);
                }
                assert(here.contains(e));
            },
        }
        let i = choose|i: int| 0 <= i < here.len() && here[i] == e;
        assert((here + rest)[i] == e);
    }
}

/// Every sequence of sizes that, set down from the state `(rows, path)` with `(x, y)` the
/// cell to fill, lays pieces until the board is covered, and uses no size more often than
/// `free` holds, is among the tilings that the search finds.
pub proof fn lemma_search_complete(
    rows: Seq<u64>,
    free: Seq<u8>,
    path: Seq<u8>,
    x: int,
    y: int,
    e: Seq<u8>,
)
    requires
        rows.len() == BOARD_SIZE,
        free.len() == SIZE,
        e.len() == BOARD_SIZE,
        forall|k: int| 0 <= k < path.len() ==> #[trigger] e[k] == path[k],
        lays(rows, e, path.len() as int, x, y),
        within(e, path.len() as int, free),
    ensures
        search(rows, free, path, x, y).contains(e),
{
    lemma_search_from_complete(rows, free, path, x, y, 0, e);
}

/// The area of the pieces left: `free[i]` squares of side `i + 1`.
pub open spec fn area(free: Seq<u8>) -> int {
    free[0] * 1 + free[1] * 4 + free[2] * 9 + free[3] * 16 + free[4] * 25 + free[5] * 36 + free[6]
        * 49 + free[7] * 64 + free[8] * 81
}

/// The pieces at the start: `s` of each size `s`.
pub open spec fn initial_free() -> Seq<u8> {
    Seq::new(SIZE as nat, |i: int| (i + 1) as u8)
}

/// `e` holds `BOARD_SIZE` entries, each the size of a piece.
pub open spec fn all_pieces(e: Seq<u8>) -> bool {
    &&& e.len() == BOARD_SIZE
    &&& forall|j: int| 0 <= j < BOARD_SIZE ==> 1 <= #[trigger] e[j] <= SIZE
}

proof fn lemma_search_from_all_pieces(
    rows: Seq<u64>,
    free: Seq<u8>,
    path: Seq<u8>,
    x: int,
    y: int,
    idx: int,
)
    requires
        rows.len() == BOARD_SIZE,
        free.len() == SIZE,
        0 <= idx,
        filled_before(rows, x, y),
        covered(rows) + area(free) == BOARD_SIZE * BOARD_SIZE,
        path.len() + total(free) == BOARD_SIZE,
        forall|k: int| 0 <= k < path.len() ==> 1 <= #[trigger] path[k] <= SIZE,
    ensures
        forall|i: int|
            0 <= i < search_from(rows, free, path, x, y, idx).len() ==> all_pieces(
                #[trigger] search_from(rows, free, path, x, y, idx)[i],
            ),
    decreases BOARD_SIZE - path.len(), SIZE - idx,
{
    if idx < SIZE && path.len() < BOARD_SIZE {
        lemma_search_from_all_pieces(rows, free, path, x, y, idx + 1);
        let rest = search_from(rows, free, path, x, y, idx + 1);
        if !(free[idx] == 0 || !fits(rows, idx + 1, x, y)) {
            let card = idx + 1;
            let rows2 = placed(rows, card, x, y);
            let free2 = free.update(idx, (free[idx] - 1) as u8);
            let path2 = path.push(card as u8);
            lemma_covered_placed(rows, card, x, y);
            lemma_placed_keeps(rows, card, x, y);
            assert(area(free2) + card * card == area(free)) by {
                assert forall|j: int| 0 <= j < SIZE && j != idx implies #[trigger] free2[j]
                    == free[j] by {}
                assert(free2[idx] == free[idx] - 1);
                let sq: int = if idx == 0 {
                    1
                } else if idx == 1 {
                    4
                } else if idx == 2 {
                    9
                } else if idx == 3 {
                    16
                } else if idx == 4 {
                    25
                } else if idx == 5 {
                    36
                } else if idx == 6 {
                    49
                } else if idx == 7 {
                    64
                } else {
                    81
                };
                assert(card * card == sq) by (nonlinear_arith)
                    requires
                        card == idx + 1,
                        0 <= idx < 9,
                        sq == if idx == 0 {
                            1int
                        } else if idx == 1 {
                            4int
                        } else if idx == 2 {
                            9int
                        } else if idx == 3 {
                            16int
                        } else if idx == 4 {
                            25int
                        } else if idx == 5 {
                            36int
                        } else if idx == 6 {
                            49int
                        } else if idx == 7 {
                            64int
                        } else {
                            81int
                        },
                ;
                assert(free2[0] == free[0] || idx == 0);
                assert(free2[1] == free[1] || idx == 1);
                assert(free2[2] == free[2] || idx == 2);
                assert(free2[3] == free[3] || idx == 3);
                assert(free2[4] == free[4] || idx == 4);
                assert(free2[5] == free[5] || idx == 5);
                assert(free2[6] == free[6] || idx == 6);
                assert(free2[7] == free[7] || idx == 7);
                assert(free2[8] == free[8] || idx == 8);
            }
            assert(path2.len() + total(free2) == BOARD_SIZE);
            assert forall|k: int| 0 <= k < path2.len() implies 1 <= #[trigger] path2[k] <= SIZE by {
                if k < path.len() {
                    assert(path2[k] == path[k]);
                }
            }
            let here = match first_empty(rows2, y) {
                None => seq![padded(path2)],
                Some((nx, ny)) => search_from(rows2, free2, path2, nx, ny, 0),
            };
            match first_empty(rows2, y) {
                None => {
                    lemma_no_empty_is_full(rows2, y);
                    assert forall|cx: int, cy: int|
                        0 <= cy < BOARD_SIZE && 0 <= cx < BOARD_SIZE implies #[trigger] cell_occupied(
                        rows2,
                        cx,
                        cy,
                    ) by {
                        if cy < y {
                            assert(cell_occupied(rows, cx, cy));
                        }
                    }
                    lemma_covered_full(rows2);
                    assert(area(free2) == 0);
                    assert(total(free2) == 0);
                    assert(padded(path2) =~= path2);
                    assert(all_pieces(here[0]));
                },
                Some((nx, ny)) => {
                    assert(first_empty_at(rows2, y, nx, ny)) by {
                        let (ax, ay) = choose|ax: int, ay: int| first_empty_at(rows2, y, ax, ay);
                    }
                    assert forall|cx: int, cy: int|
                        0 <= cy && 0 <= cx < BOARD_SIZE && (cy < ny || (cy == ny && cx < nx))
                            implies #[trigger] cell_occupied(rows2, cx, cy) by {
                        if cy < y {
                            assert(cell_occupied(rows, cx, cy));
                        }
                    }
                    lemma_search_from_all_pieces(rows2, free2, path2, nx, ny, 0);
                },
            }
            let all = here + rest;
            assert forall|i: int| 0 <= i < all.len() implies all_pieces(#[trigger] all[i]) by {
                if i >= here.len() {
                    assert(all[i] == rest[i - here.len()]);
                }
            }
        }
    }
}

/// Every tiling that the whole search records, from the empty board with `s` pieces of
/// each size `s` and `(0, 0)` the first cell, uses all `BOARD_SIZE` pieces: each of its
/// entries is the size of a piece, none is zero.
pub proof fn lemma_full_search_uses_all_pieces()
    ensures
        forall|i: int|
            0 <= i < search(empty_rows(), initial_free(), Seq::empty(), 0, 0).len() ==> all_pieces(
                #[trigger] search(empty_rows(), initial_free(), Seq::empty(), 0, 0)[i],
            ),
{
    lemma_covered_empty();
    assert(BOARD_SIZE * BOARD_SIZE == 2025) by (nonlinear_arith)
        requires
            BOARD_SIZE == 45,
    ;
    assert(area(initial_free()) == 2025);
    assert(total(initial_free()) == BOARD_SIZE);
    lemma_search_from_all_pieces(empty_rows(), initial_free(), Seq::empty(), 0, 0, 0);
}

/// The stack of piece sizes along the current path of the search.
#[derive(Clone, Copy)]
struct SolutionBuilder {
    steps: Solution,
    length: usize,
}

impl View for SolutionBuilder {
    type V = Seq<u8>;

    closed spec fn view(&self) -> Seq<u8> {
        self.steps@.subrange(0, self.length as int)
    }
}

impl SolutionBuilder {
    /// Slots past the end hold zero.
    closed spec fn wf(&self) -> bool {
        &&& self.length <= BOARD_SIZE
        &&& self.steps@ == padded(self@)
    }

    fn new() -> (r: Self)
        ensures
            r.wf(),
            r@ == Seq::<u8>::empty(),
    {
        let r = SolutionBuilder { steps: [0u8; BOARD_SIZE], length: 0 };
        assert(r.steps@ =~= padded(r@));
        r
    }

    fn push(&mut self, card: u8)
        requires
            old(self).wf(),
            old(self).length < BOARD_SIZE,
        ensures
            final(self).wf(),
            final(self)@ == old(self)@.push(card),
            final(self).length == old(self).length + 1,
    {
        self.steps[self.length] = card;
        self.length = self.length + 1;
        assert(self@ =~= old(self)@.push(card));
        assert(self.steps@ =~= padded(self@));
    }

    fn pop(&mut self)
        requires
            old(self).wf(),
            old(self).length > 0,
        ensures
            final(self).wf(),
            final(self)@ == old(self)@.drop_last(),
            final(self).length == old(self).length - 1,
    {
        self.length = self.length - 1;
        self.steps[self.length] = 0;
        assert(self@ =~= old(self)@.drop_last());
        assert(self.steps@ =~= padded(self@));
    }
}


/// A depth-first search over tilings, with the state of its current path.
pub struct Solver {
    board: Board,
    free_cards: [u8; SIZE],
    solution: SolutionBuilder,
    depth: u8,
    max_threads: u8,
    /// The tilings found so far, in the order they were found.
    pub solutions: Vec<Solution>,
}

impl Solver {
    /// The covered cells, row by row.
    pub closed spec fn rows(&self) -> Seq<u64> {
        self.board@
    }

    /// How many pieces of size `i + 1` are left, at index `i`.
    pub closed spec fn free(&self) -> Seq<u8> {
        self.free_cards@
    }

    /// The sizes set down along the current path.
    pub closed spec fn path(&self) -> Seq<u8> {
        self.solution@
    }

    /// The bound on workers that this search was made with.
    pub closed spec fn worker_limit(&self) -> u8 {
        self.max_threads
    }

    /// The tilings found so far.
    pub closed spec fn found(&self) -> Seq<Seq<u8>> {
        self.solutions@.map_values(|s: Solution| s@)
    }

    /// The path is no longer than the pieces left allow, and the depth is its length.
    pub closed spec fn wf(&self) -> bool {
        &&& self.solution.wf()
        &&& self.solution.length + total(self.free_cards@) <= BOARD_SIZE
        &&& self.depth as int == self.solution.length
    }

    /// A search at the start: an empty board, `s` pieces of each size `s`, nothing found.
    pub fn new(max_threads: u8) -> (r: Self)
        ensures
            r.wf(),
            r.rows() == empty_rows(),
            r.free() == initial_free(),
            r.path() == Seq::<u8>::empty(),
            r.found() == Seq::<Seq<u8>>::empty(),
            r.worker_limit() == max_threads,
    {
        let mut free_cards = [0u8; SIZE];
        let mut card_idx: usize = 0;
        while card_idx < SIZE
            invariant
                card_idx <= SIZE,
                forall|i: int| 0 <= i < card_idx ==> free_cards[i] == i + 1,
                forall|i: int| card_idx <= i < SIZE ==> free_cards[i] == 0,
            decreases SIZE - card_idx,
        {
            free_cards[card_idx] = card_idx as u8 + 1;
            card_idx = card_idx + 1;
        }
        let r = Self {
            free_cards,
            board: Board::default(),
            solution: SolutionBuilder::new(),
            depth: 0,
            max_threads,
            solutions: Vec::new(),
        };
        assert(r.free() =~= initial_free());
        assert(r.found() =~= Seq::<Seq<u8>>::empty());
        r
    }

    /// Whether the next step of the search may go to a worker of its own, with `active`
    /// workers running: only near the root and while the bound is not reached.
    #[inline]
    pub fn should_parallelise(&self, active: u8) -> (r: bool)
        requires
            self.wf(),
        ensures
            r == (self.path().len() < MAX_PARALLEL_DEPTH && active < self.worker_limit()),
    {
        self.depth < MAX_PARALLEL_DEPTH && active < self.max_threads
    }

    fn add_solution(&mut self, solution: Solution)
        ensures
            final(self).found() == old(self).found().push(solution@),
            final(self).board == old(self).board,
            final(self).free_cards == old(self).free_cards,
            final(self).solution == old(self).solution,
            final(self).depth == old(self).depth,
            final(self).max_threads == old(self).max_threads,
    {
        self.solutions.push(solution);
        assert(self.found() =~= old(self).found().push(solution@));
    }

    /// Finds every tiling that completes the current state with `(x, y)` the next cell to
    /// fill, and appends them to `solutions` in depth-first order; the state is left as it
    /// was.
    pub fn solve(&mut self, x: u8, y: u8)
        requires
            old(self).wf(),
        ensures
            final(self).wf(),
            final(self).rows() == old(self).rows(),
            final(self).free() == old(self).free(),
            final(self).path() == old(self).path(),
            final(self).worker_limit() == old(self).worker_limit(),
            final(self).found() == old(self).found() + search(
                old(self).rows(),
                old(self).free(),
                old(self).path(),
                x as int,
                y as int,
            ),
        decreases BOARD_SIZE - old(self).path().len(),
    {
        let ghost rows0 = self.rows();
        let ghost free0 = self.free();
        let ghost path0 = self.path();
        let ghost found0 = self.found();
        let mut card_idx: usize = 0;
        while card_idx < SIZE
            invariant
                card_idx <= SIZE,
                self.wf(),
                self.rows() == rows0,
                self.free() == free0,
                self.path() == path0,
                self.depth == old(self).depth,
                self.solution.length == old(self).solution.length,
                self.max_threads == old(self).max_threads,
                self.rows().len() == BOARD_SIZE,
                found0 + search_from(rows0, free0, path0, x as int, y as int, 0)
                    == self.found() + search_from(rows0, free0, path0, x as int, y as int, card_idx as int),
            decreases SIZE - card_idx,
        {
            let ghost found1 = self.found();
            let ghost idx = card_idx as int;
            if self.free_cards[card_idx] != 0 {
                let card = (card_idx + 1) as u8;
                if self.board.can_place(card, x, y) {
                    self.solution.push(card);
                    self.free_cards[card_idx] = self.free_cards[card_idx] - 1;
                    self.board.place(card, x, y);
                    self.depth = self.depth + 1;
                    let ghost here: Seq<Seq<u8>>;
                    match self.board.find_empty(y) {
                        None => {
                            let steps = self.solution.steps;
                            self.add_solution(steps);
                            proof {
                                here = seq![padded(path0.push(card))];
                            }
                        },
                        Some((new_x, new_y)) => {
                            self.solve(new_x, new_y);
                            proof {
                                here = search(
                                    placed(rows0, card as int, x as int, y as int),
                                    free0.update(idx, (free0[idx] - 1) as u8),
                                    path0.push(card),
                                    new_x as int,
                                    new_y as int,
                                );
                            }
                        },
                    }
                    self.solution.pop();
                    self.free_cards[card_idx] = self.free_cards[card_idx] + 1;
                    self.board.remove(card, x, y);
                    self.depth = self.depth - 1;
                    proof {
                        lemma_place_remove_restores(rows0, card as int, x as int, y as int);
                        assert(self.free() =~= free0);
                        assert(self.path() =~= path0);
                        assert(self.found() == found1 + here);
                        assert(search_from(rows0, free0, path0, x as int, y as int, idx)
                            == here + search_from(rows0, free0, path0, x as int, y as int, idx + 1));
                    }
                }
            }
            card_idx = card_idx + 1;
        }
        proof {
            assert(found0 + search(rows0, free0, path0, x as int, y as int) =~= self.found());
        }
    }
}


/// A state one piece further on than its parent, with the cell to fill next, if any.
pub struct Branch {
    /// The search state after the piece is set down; it has found nothing yet.
    pub solver: Solver,
    /// The first uncovered cell from the piece's row on, if any is left.
    pub next: Option<(u8, u8)>,
}

impl Branch {
    /// The branch as covered rows, pieces left, path and next cell.
    pub open spec fn model(&self) -> BranchModel {
        (self.solver.rows(), self.solver.free(), self.solver.path(), cell_int(self.next))
    }
}

/// The models of a list of branches.
pub open spec fn models(bs: Seq<Branch>) -> Seq<BranchModel> {
    bs.map_values(|b: Branch| b.model())
}

impl Solver {
    /// A search that starts from `board` with `free_cards[i]` pieces of size `i + 1` left.
    pub fn from_state(board: Board, free_cards: [u8; SIZE], max_threads: u8) -> (r: Self)
        requires
            total(free_cards@) <= BOARD_SIZE,
        ensures
            r.wf(),
            r.rows() == board@,
            r.free() == free_cards@,
            r.path() == Seq::<u8>::empty(),
            r.found() == Seq::<Seq<u8>>::empty(),
            r.worker_limit() == max_threads,
    {
        let r = Self {
            free_cards,
            board,
            solution: SolutionBuilder::new(),
            depth: 0,
            max_threads,
            solutions: Vec::new(),
        };
        assert(r.found() =~= Seq::<Seq<u8>>::empty());
        r
    }

    /// The tilings found so far, as stored in `solutions`.
    pub fn solutions(&self) -> (r: &Vec<Solution>)
        ensures
            r@.map_values(|s: Solution| s@) == self.found(),
    {
        &self.solutions
    }

    /// How many pieces the current path holds.
    pub fn depth(&self) -> (r: u8)
        requires
            self.wf(),
        ensures
            r == self.path().len(),
    {
        self.depth
    }

    /// The current path written out as a full `Solution`, zeros after its end.
    pub fn current_solution(&self) -> (r: Solution)
        requires
            self.wf(),
        ensures
            r@ == padded(self.path()),
    {
        self.solution.steps
    }

    /// The branches one level below the current state, with `(x, y)` the cell to fill: for
    /// each size, smallest first, that is left and fits there, the state with that piece
    /// set down. This state is not changed.
    pub fn branches(&self, x: u8, y: u8) -> (r: Vec<Branch>)
        requires
            self.wf(),
        ensures
            models(r@) == branches_from(self.rows(), self.free(), self.path(), x as int, y as int, 0),
            forall|i: int|
                0 <= i < r@.len() ==> {
                    &&& (#[trigger] r@[i]).solver.wf()
                    &&& r@[i].solver.found() == Seq::<Seq<u8>>::empty()
                    &&& r@[i].solver.worker_limit() == self.worker_limit()
                },
    {
        let ghost rows0 = self.rows();
        let ghost free0 = self.free();
        let ghost path0 = self.path();
        let mut out: Vec<Branch> = Vec::new();
        let mut card_idx: usize = 0;
        while card_idx < SIZE
            invariant
                card_idx <= SIZE,
                self.wf(),
                rows0 == self.rows(),
                free0 == self.free(),
                path0 == self.path(),
                self.rows().len() == BOARD_SIZE,
                branches_from(rows0, free0, path0, x as int, y as int, 0) == models(out@)
                    + branches_from(rows0, free0, path0, x as int, y as int, card_idx as int),
                forall|i: int|
                    0 <= i < out@.len() ==> {
                        &&& (#[trigger] out@[i]).solver.wf()
                        &&& out@[i].solver.found() == Seq::<Seq<u8>>::empty()
                        &&& out@[i].solver.worker_limit() == self.worker_limit()
                    },
            decreases SIZE - card_idx,
        {
            let ghost idx = card_idx as int;
            if self.free_cards[card_idx] != 0 {
                let card = (card_idx + 1) as u8;
                if self.board.can_place(card, x, y) {
                    let mut child = Solver {
                        board: self.board,
                        free_cards: self.free_cards,
                        solution: self.solution,
                        depth: self.depth,
                        max_threads: self.max_threads,
                        solutions: Vec::new(),
                    };
                    child.solution.push(card);
                    child.free_cards[card_idx] = child.free_cards[card_idx] - 1;
                    child.board.place(card, x, y);
                    child.depth = child.depth + 1;
                    let next = child.board.find_empty(y);
                    let b = Branch { solver: child, next };
                    proof {
                        assert(b.solver.found() =~= Seq::<Seq<u8>>::empty());
                        assert(b.solver.free() =~= free0.update(idx, (free0[idx] - 1) as u8));
                    }
                    let ghost before = out@;
                    out.push(b);
                    proof {
                        assert(models(out@) =~= models(before).push(b.model()));
                        let rest = branches_from(rows0, free0, path0, x as int, y as int, idx + 1);
                        assert(branches_from(rows0, free0, path0, x as int, y as int, idx)
                            == seq![b.model()] + rest);
                        assert(models(before) + (seq![b.model()] + rest) =~= models(out@) + rest);
                    }
                }
            }
            card_idx = card_idx + 1;
        }
        proof {
            assert(models(out@) + branches_from(rows0, free0, path0, x as int, y as int, SIZE as int)
                =~= models(out@));
        }
        out
    }
}

} // verus!
