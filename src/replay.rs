use vstd::prelude::*;

use crate::solver::Solution;
use crate::{empty_rows, first_empty, fits, placed, Board, BOARD_SIZE, SIZE};

verus! {

/// Where the pieces `sol[k..]` go when each is set down at the cell to fill, starting
/// at `(x, y)` on `rows`, the next cell being the first uncovered one from the row of
/// the piece before; none when a size is out of range, a piece does not fit, or no cell
/// is left for the pieces that remain.
pub open spec fn replay_from(rows: Seq<u64>, sol: Seq<u8>, k: int, x: int, y: int) -> Option<
    Seq<(int, int)>,
>
    decreases sol.len() - k,
{
    if k < 0 || k >= sol.len() {
        Some(Seq::empty())
    } else {
        let card = sol[k] as int;
        if !(1 <= card <= SIZE) || !fits(rows, card, x, y) {
            None
        } else if k + 1 == sol.len() {
            Some(seq![(x, y)])
        } else {
            let rows2 = placed(rows, card, x, y);
            match first_empty(rows2, y) {
                None => None,
                Some((nx, ny)) => match replay_from(rows2, sol, k + 1, nx, ny) {
                    None => None,
                    Some(rest) => Some(seq![(x, y)] + rest),
                },
            }
        }
    }
}

/// `done` followed by `rest`, if there is a rest.
pub open spec fn prepend(done: Seq<(int, int)>, rest: Option<Seq<(int, int)>>) -> Option<
    Seq<(int, int)>,
> {
    match rest {
        None => None,
        Some(r) => Some(done + r),
    }
}

/// Cells with their coordinates as integers.
pub open spec fn cells_int(v: Seq<(u8, u8)>) -> Seq<(int, int)> {
    v.map_values(|p: (u8, u8)| (p.0 as int, p.1 as int))
}

/// A replay that succeeds gives one cell to each remaining size; each size is a piece's,
/// and each piece's square lies on the board.
pub proof fn lemma_replay_bounds(rows: Seq<u64>, sol: Seq<u8>, k: int, x: int, y: int)
    requires
        0 <= k <= sol.len(),
        replay_from(rows, sol, k, x, y) is Some,
    ensures
        ({
            let r = replay_from(rows, sol, k, x, y)->0;
            &&& r.len() == sol.len() - k
            &&& forall|j: int|
                0 <= j < r.len() ==> {
                    &&& 1 <= #[trigger] sol[k + j] <= SIZE
                    &&& 0 <= r[j].0
                    &&& r[j].0 + sol[k + j] <= BOARD_SIZE
                    &&& 0 <= r[j].1
                    &&& r[j].1 + sol[k + j] <= BOARD_SIZE
                }
        }),
    decreases sol.len() - k,
{
    if k < sol.len() && k + 1 < sol.len() {
        let rows2 = placed(rows, sol[k] as int, x, y);
        let (nx, ny) = first_empty(rows2, y)->0;
        lemma_replay_bounds(rows2, sol, k + 1, nx, ny);
        let rest = replay_from(rows2, sol, k + 1, nx, ny)->0;
        let r = replay_from(rows, sol, k, x, y)->0;
        assert forall|j: int| 1 <= j < r.len() implies r[j] == rest[j - 1] && #[trigger] sol[k + j]
            == sol[(k + 1) + (j - 1)] by {}
    }
}

/// The cell at which each piece of `sol` lies on an empty board, replaying the order of
/// the search; `None` where `sol` is no tiling that the search could have recorded.
pub fn placements(sol: &Solution) -> (r: Option<Vec<(u8, u8)>>)
    ensures
        match r {
            Some(v) => replay_from(empty_rows(), sol@, 0, 0, 0)
                == Some(cells_int(v@)),
            None => replay_from(empty_rows(), sol@, 0, 0, 0)
                is None,
        },
{
    let ghost rows0 = empty_rows();
    let mut board = Board::default();
    let mut out: Vec<(u8, u8)> = Vec::new();
    let mut x: u8 = 0;
    let mut y: u8 = 0;
    let mut k: usize = 0;
    while k < BOARD_SIZE
        invariant
            rows0 == empty_rows(),
            k <= BOARD_SIZE,
            board@.len() == BOARD_SIZE,
            sol@.len() == BOARD_SIZE,
            replay_from(rows0, sol@, 0, 0, 0) == prepend(
                cells_int(out@),
                replay_from(board@, sol@, k as int, x as int, y as int),
            ),
        decreases BOARD_SIZE - k,
    {
        let card = sol[k];
        if card < 1 || card as usize > SIZE || !board.can_place(card, x, y) {
            assert(replay_from(board@, sol@, k as int, x as int, y as int) is None);
            return None;
        }
        let ghost before = out@;
        out.push((x, y));
        proof {
            assert(cells_int(out@) =~= cells_int(before) + seq![(x as int, y as int)]);
        }
        if k + 1 == BOARD_SIZE {
            proof {
                assert(cells_int(before) + seq![(x as int, y as int)] =~= cells_int(out@));
            }
            return Some(out);
        }
        let ghost rows_k = board@;
        board.place(card, x, y);
        match board.find_empty(y) {
            None => {
                assert(replay_from(rows_k, sol@, k as int, x as int, y as int) is None);
                return None;
            },
            Some((nx, ny)) => {
                proof {
                    let rest = replay_from(board@, sol@, k + 1, nx as int, ny as int);
                    if let Some(r) = rest {
                        assert(cells_int(before) + (seq![(x as int, y as int)] + r) =~= cells_int(
                            out@,
                        ) + r);
                    }
                }
                x = nx;
                y = ny;
            },
        }
        k = k + 1;
    }
    Some(out)
}

} // verus!
