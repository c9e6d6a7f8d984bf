use vstd::prelude::*;

pub mod parse;
pub mod render;
pub mod replay;
pub mod solver;

verus! {

/// Largest piece size; the board's side is the sum of all sizes.
pub const SIZE: usize = 9;

/// Side of the square board: the sum of all piece sizes.
pub const BOARD_SIZE: usize = (SIZE * (SIZE + 1)) / 2;

/// Whether bit `i` of `v` is set.
pub open spec fn has_bit(v: u64, i: u64) -> bool {
    (v >> i) & 1u64 == 1u64
}

/// The value whose lowest `n` bits are set and no others.
pub open spec fn low_mask(n: u64) -> u64 {
    ((1u64 << n) - 1u64) as u64
}

proof fn lemma_low_mask_bits(n: u64)
    by (bit_vector)
    requires
        1 <= n < 64,
    ensures
        forall|i: u64| i < 64 ==> (#[trigger] has_bit(low_mask(n), i) <==> i < n),
{
}

/// The row bitmask of a piece of size `card`: its lowest `card` bits set.
pub fn card_bits(card: u8) -> (r: u64)
    requires
        1 <= card < 64,
    ensures
        r == low_mask(card as u64),
        forall|i: u64| i < 64 ==> (#[trigger] has_bit(r, i) <==> i < card),
{
    proof {
        lemma_low_mask_bits(card as u64);
    }
    let one: u64 = 1u64 << (card as u64);
    assert(one >= 1) by (bit_vector)
        requires
            one == 1u64 << (card as u64),
            card < 64,
    ;
    one - 1
}


proof fn lemma_shifted_mask_bits(n: u64, x: u64)
    by (bit_vector)
    requires
        1 <= n < 64,
        x + n <= 64,
    ensures
        forall|i: u64|
            i < 64 ==> (#[trigger] has_bit(low_mask(n) << x, i) <==> (x <= i && i < x + n)),
{
}

proof fn lemma_zero_bits()
    by (bit_vector)
    ensures
        forall|i: u64| i < 64 ==> !#[trigger] has_bit(0u64, i),
{
}

proof fn lemma_clear_bits(v: u64, m: u64)
    by (bit_vector)
    ensures
        forall|i: u64| i < 64 ==> (#[trigger] has_bit(v & !m, i) ==> has_bit(v, i)),
{
}

proof fn lemma_mask_step(v: u64, n: u64, x: u64)
    by (bit_vector)
    requires
        n < 63,
        x + n < 64,
    ensures
        (v & (low_mask((n + 1) as u64) << x) == 0) <==> ((v & (low_mask(n) << x) == 0) && !has_bit(
            v,
            (x + n) as u64,
        )),
{
}

proof fn lemma_empty_mask(v: u64, x: u64)
    by (bit_vector)
    requires
        x < 64,
    ensures
        v & (low_mask(0) << x) == 0,
{
}

/// A row meets the `n` columns from `x` on nowhere iff none of them is covered.
proof fn lemma_row_clear(v: u64, n: u64, x: u64)
    requires
        n < 64,
        x < 64,
        x + n <= 64,
    ensures
        (v & (low_mask(n) << x) == 0) <==> (forall|i: u64| x <= i < x + n ==> !#[trigger] has_bit(v, i)),
    decreases n,
{
    if n == 0 {
        lemma_empty_mask(v, x);
    } else {
        lemma_row_clear(v, (n - 1) as u64, x);
        lemma_mask_step(v, (n - 1) as u64, x);
    }
}

proof fn lemma_or_bits(v: u64, m: u64)
    by (bit_vector)
    ensures
        forall|i: u64| i < 64 ==> (#[trigger] has_bit(v | m, i) <==> (has_bit(v, i) || has_bit(m, i))),
{
}

proof fn lemma_or_then_clear(v: u64, m: u64)
    by (bit_vector)
    requires
        v & m == 0,
    ensures
        (v | m) & !m == v,
{
}

/// One row of the board: bit `i` set means column `i` is covered.
#[derive(Clone, Copy, PartialEq, Eq, Structural, Default)]
pub struct Row(pub u64);

impl Row {
    /// Whether the mask `card_bits`, moved left by `offset`, meets no covered column.
    #[inline]
    pub fn can_place(&self, card_bits: u64, offset: u8) -> (r: bool)
        requires
            offset < 64,
        ensures
            r == (self.0 & (card_bits << (offset as u64)) == 0),
    {
        let v = self.0;
        let r = (card_bits << offset) & v == 0;
        assert(r == (v & (card_bits << (offset as u64)) == 0)) by (bit_vector)
            requires
                r == ((card_bits << offset) & v == 0),
        ;
        r
    }

    /// Covers the columns of `card_bits` moved left by `offset`.
    #[inline]
    pub fn place(&mut self, card_bits: u64, offset: u8)
        requires
            offset < 64,
        ensures
            final(self).0 == old(self).0 | (card_bits << (offset as u64)),
    {
        self.0 = self.0 | (card_bits << offset);
    }

    /// Uncovers the columns of `card_bits` moved left by `offset`.
    #[inline]
    pub fn remove(&mut self, card_bits: u64, offset: u8)
        requires
            offset < 64,
        ensures
            final(self).0 == old(self).0 & !(card_bits << (offset as u64)),
    {
        self.0 = self.0 & !(card_bits << offset);
    }

    /// Whether column `offset` is uncovered.
    #[inline]
    pub fn is_empty(&self, offset: u8) -> (r: bool)
        requires
            offset < 64,
        ensures
            r == !has_bit(self.0, offset as u64),
    {
        let v = self.0;
        let r = v & (1u64 << offset) == 0;
        assert(r == !has_bit(v, offset as u64)) by (bit_vector)
            requires
                r == (v & (1u64 << offset) == 0),
                offset < 64,
        ;
        r
    }
}


/// The row bits covered by a piece of size `card` whose left edge is column `x`.
pub open spec fn footprint_mask(card: int, x: int) -> u64 {
    low_mask(card as u64) << (x as u64)
}

/// Whether cell `(cx, cy)` lies under a piece of size `card` placed at `(x, y)`.
pub open spec fn in_footprint(card: int, x: int, y: int, cx: int, cy: int) -> bool {
    x <= cx < x + card && y <= cy < y + card
}

/// Whether cell `(x, y)` is covered in the rows `rows`.
pub open spec fn cell_occupied(rows: Seq<u64>, x: int, y: int) -> bool {
    has_bit(rows[y], x as u64)
}

/// Whether a piece of size `card` at `(x, y)` stays on the board and covers no covered cell.
pub open spec fn fits(rows: Seq<u64>, card: int, x: int, y: int) -> bool {
    &&& 0 <= x
    &&& 0 <= y
    &&& x + card <= BOARD_SIZE
    &&& y + card <= BOARD_SIZE
    &&& forall|cx: int, cy: int|
        in_footprint(card, x, y, cx, cy) ==> !#[trigger] cell_occupied(rows, cx, cy)
}

/// The rows after a piece of size `card` is set down at `(x, y)`.
pub open spec fn placed(rows: Seq<u64>, card: int, x: int, y: int) -> Seq<u64> {
    Seq::new(
        rows.len(),
        |r: int|
            if y <= r < y + card {
                rows[r] | footprint_mask(card, x)
            } else {
                rows[r]
            },
    )
}

/// The rows after a piece of size `card` at `(x, y)` is taken up.
pub open spec fn removed(rows: Seq<u64>, card: int, x: int, y: int) -> Seq<u64> {
    Seq::new(
        rows.len(),
        |r: int|
            if y <= r < y + card {
                rows[r] & !footprint_mask(card, x)
            } else {
                rows[r]
            },
    )
}

/// `(cx, cy)` is the first uncovered cell, in row-major order, among rows `start` onward.
pub open spec fn first_empty_at(rows: Seq<u64>, start: int, cx: int, cy: int) -> bool {
    &&& start <= cy < BOARD_SIZE
    &&& 0 <= cx < BOARD_SIZE
    &&& !cell_occupied(rows, cx, cy)
    &&& forall|x2: int, y2: int|
        start <= y2 && 0 <= x2 < BOARD_SIZE && (y2 < cy || (y2 == cy && x2 < cx))
            ==> #[trigger] cell_occupied(rows, x2, y2)
}

/// Every cell of rows `start` onward is covered.
pub open spec fn full_from(rows: Seq<u64>, start: int) -> bool {
    forall|cx: int, cy: int|
        start <= cy < BOARD_SIZE && 0 <= cx < BOARD_SIZE ==> #[trigger] cell_occupied(rows, cx, cy)
}

/// The first uncovered cell among rows `start` onward, if any.
pub open spec fn first_empty(rows: Seq<u64>, start: int) -> Option<(int, int)> {
    if exists|cx: int, cy: int| first_empty_at(rows, start, cx, cy) {
        let (cx, cy) = choose|cx: int, cy: int| first_empty_at(rows, start, cx, cy);
        Some((cx, cy))
    } else {
        None
    }
}

/// An optional cell with its coordinates as integers.
pub open spec fn cell_int(c: Option<(u8, u8)>) -> Option<(int, int)> {
    match c {
        Some((x, y)) => Some((x as int, y as int)),
        None => None,
    }
}

proof fn lemma_first_empty_unique(rows: Seq<u64>, start: int, cx: int, cy: int)
    requires
        first_empty_at(rows, start, cx, cy),
    ensures
        first_empty(rows, start) == Some((cx, cy)),
{
    let (ax, ay) = choose|ax: int, ay: int| first_empty_at(rows, start, ax, ay);
    if ay < cy || (ay == cy && ax < cx) {
        assert(cell_occupied(rows, ax, ay));
    }
    if cy < ay || (cy == ay && cx < ax) {
        assert(cell_occupied(rows, cx, cy));
    }
}

/// No row has a column at or past `BOARD_SIZE` covered.
pub open spec fn columns_clear(rows: Seq<u64>) -> bool {
    &&& rows.len() == BOARD_SIZE
    &&& forall|r: int, i: u64|
        0 <= r < BOARD_SIZE && BOARD_SIZE <= i < 64 ==> !#[trigger] has_bit(rows[r], i)
}

/// The rows of a board with nothing on it.
pub open spec fn empty_rows() -> Seq<u64> {
    Seq::new(BOARD_SIZE as nat, |i: int| 0u64)
}

/// The board: `BOARD_SIZE` rows of `BOARD_SIZE` used columns each.
#[derive(Clone, Copy)]
pub struct Board(pub [Row; BOARD_SIZE]);

impl View for Board {
    type V = Seq<u64>;

    open spec fn view(&self) -> Seq<u64> {
        self.0@.map_values(|r: Row| r.0)
    }
}

impl Default for Board {
    fn default() -> (r: Self)
        ensures
            r@ == empty_rows(),
            r.wf(),
    {
        let r = Board([Row(0); BOARD_SIZE]);
        assert(r@ =~= empty_rows());
        proof {
            lemma_zero_bits();
        }
        r
    }
}

impl Board {
    /// Only the board's own `BOARD_SIZE` columns of each row are ever covered.
    pub open spec fn wf(&self) -> bool {
        columns_clear(self@)
    }

    /// Whether a piece of size `card` fits at `(x, y)`: on the board, over uncovered cells only.
    pub fn can_place(&self, card: u8, x: u8, y: u8) -> (r: bool)
        requires
            card >= 1,
        ensures
            r == fits(self@, card as int, x as int, y as int),
    {
        if x as usize + card as usize - 1 >= BOARD_SIZE || y as usize + card as usize - 1
            >= BOARD_SIZE {
            return false;
        }
        let c_bits = card_bits(card);
        let mut dy: u8 = 0;
        while dy < card
            invariant
                1 <= card,
                x as int + card <= BOARD_SIZE,
                y as int + card <= BOARD_SIZE,
                c_bits == low_mask(card as u64),
                dy <= card,
                forall|cx: int, cy: int|
                    in_footprint(card as int, x as int, y as int, cx, cy) && cy < y + dy
                        ==> !#[trigger] cell_occupied(self@, cx, cy),
            decreases card - dy,
        {
            let row = self.0[(y + dy) as usize];
            let ok = row.can_place(c_bits, x);
            proof {
                lemma_row_clear(row.0, card as u64, x as u64);
                assert(self@[y + dy] == row.0);
            }
            if !ok {
                proof {
                    let i = choose|i: u64| x <= i < x + card && #[trigger] has_bit(row.0, i);
                    assert(cell_occupied(self@, i as int, y + dy));
                }
                return false;
            }
            dy = dy + 1;
        }
        true
    }

    /// Sets down a piece of size `card` at `(x, y)`; the footprint must lie on the board.
    pub fn place(&mut self, card: u8, x: u8, y: u8)
        requires
            card >= 1,
            x as int + card <= BOARD_SIZE,
            y as int + card <= BOARD_SIZE,
        ensures
            final(self)@ == placed(old(self)@, card as int, x as int, y as int),
            old(self).wf() ==> final(self).wf(),
    {
        let c_bits = card_bits(card);
        let mut dy: u8 = 0;
        while dy < card
            invariant
                1 <= card,
                x as int + card <= BOARD_SIZE,
                y as int + card <= BOARD_SIZE,
                c_bits == low_mask(card as u64),
                dy <= card,
                self@.len() == BOARD_SIZE,
                forall|r: int|
                    0 <= r < BOARD_SIZE ==> #[trigger] self@[r] == if y <= r < y + dy {
                        old(self)@[r] | footprint_mask(card as int, x as int)
                    } else {
                        old(self)@[r]
                    },
            decreases card - dy,
        {
            let i = (y + dy) as usize;
            let ghost before = self@;
            let mut row = self.0[i];
            assert(row.0 == before[i as int]);
            row.place(c_bits, x);
            self.0[i] = row;
            assert(self@ =~= before.update(i as int, row.0));
            dy = dy + 1;
        }
        assert(self@ =~= placed(old(self)@, card as int, x as int, y as int));
        proof {
            if old(self).wf() {
                let m = footprint_mask(card as int, x as int);
                lemma_shifted_mask_bits(card as u64, x as u64);
                assert forall|r: int, i: u64|
                    0 <= r < BOARD_SIZE && BOARD_SIZE <= i < 64 implies !#[trigger] has_bit(
                    self@[r],
                    i,
                ) by {
                    lemma_or_bits(old(self)@[r], m);
                }
            }
        }
    }

    /// Takes up a piece of size `card` at `(x, y)`; the footprint must lie on the board.
    pub fn remove(&mut self, card: u8, x: u8, y: u8)
        requires
            card >= 1,
            x as int + card <= BOARD_SIZE,
            y as int + card <= BOARD_SIZE,
        ensures
            final(self)@ == removed(old(self)@, card as int, x as int, y as int),
            old(self).wf() ==> final(self).wf(),
    {
        let c_bits = card_bits(card);
        let mut dy: u8 = 0;
        while dy < card
            invariant
                1 <= card,
                x as int + card <= BOARD_SIZE,
                y as int + card <= BOARD_SIZE,
                c_bits == low_mask(card as u64),
                dy <= card,
                self@.len() == BOARD_SIZE,
                forall|r: int|
                    0 <= r < BOARD_SIZE ==> #[trigger] self@[r] == if y <= r < y + dy {
                        old(self)@[r] & !footprint_mask(card as int, x as int)
                    } else {
                        old(self)@[r]
                    },
            decreases card - dy,
        {
            let i = (y + dy) as usize;
            let ghost before = self@;
            let mut row = self.0[i];
            assert(row.0 == before[i as int]);
            row.remove(c_bits, x);
            self.0[i] = row;
            assert(self@ =~= before.update(i as int, row.0));
            dy = dy + 1;
        }
        assert(self@ =~= removed(old(self)@, card as int, x as int, y as int));
        proof {
            if old(self).wf() {
                let m = footprint_mask(card as int, x as int);
                assert forall|r: int, i: u64|
                    0 <= r < BOARD_SIZE && BOARD_SIZE <= i < 64 implies !#[trigger] has_bit(
                    self@[r],
                    i,
                ) by {
                    lemma_clear_bits(old(self)@[r], m);
                }
            }
        }
    }

    /// The first uncovered cell, scanning rows from `y` down and each row left to right.
    pub fn find_empty(&self, y: u8) -> (r: Option<(u8, u8)>)
        ensures
            cell_int(r) == first_empty(self@, y as int),
            match r {
                Some((cx, cy)) => first_empty_at(self@, y as int, cx as int, cy as int),
                None => full_from(self@, y as int),
            },
    {
        let mut cy: u8 = y;
        while cy < BOARD_SIZE as u8
            invariant
                y <= cy,
                forall|x2: int, y2: int|
                    y <= y2 < cy && 0 <= x2 < BOARD_SIZE ==> #[trigger] cell_occupied(self@, x2, y2),
            decreases BOARD_SIZE - cy,
        {
            let row = self.0[cy as usize];
            assert(self@[cy as int] == row.0);
            let mut cx: usize = 0;
            while cx < BOARD_SIZE
                invariant
                    y <= cy < BOARD_SIZE,
                    row.0 == self@[cy as int],
                    cx <= BOARD_SIZE,
                    forall|x2: int, y2: int|
                        y <= y2 && 0 <= x2 < BOARD_SIZE && (y2 < cy || (y2 == cy && x2 < cx))
                            ==> #[trigger] cell_occupied(self@, x2, y2),
                decreases BOARD_SIZE - cx,
            {
                if row.is_empty(cx as u8) {
                    proof {
                        lemma_first_empty_unique(self@, y as int, cx as int, cy as int);
                    }
                    return Some((cx as u8, cy));
                }
                cx = cx + 1;
            }
            cy = cy + 1;
        }
        assert(!exists|cx: int, cy: int| first_empty_at(self@, y as int, cx, cy)) by {
            if exists|cx: int, cy: int| first_empty_at(self@, y as int, cx, cy) {
                let (cx, cy) = choose|cx: int, cy: int| first_empty_at(self@, y as int, cx, cy);
                assert(cell_occupied(self@, cx, cy));
            }
        }
        None
    }
}


/// Every cell before `(x, y)`, in row-major order, is covered.
pub open spec fn filled_before(rows: Seq<u64>, x: int, y: int) -> bool {
    forall|cx: int, cy: int|
        0 <= cy && 0 <= cx < BOARD_SIZE && (cy < y || (cy == y && cx < x))
            ==> #[trigger] cell_occupied(rows, cx, cy)
}

/// Setting a piece down leaves every covered cell covered.
pub proof fn lemma_placed_keeps(rows: Seq<u64>, card: int, x: int, y: int)
    requires
        rows.len() == BOARD_SIZE,
        1 <= card,
        0 <= x,
        x + card <= BOARD_SIZE,
    ensures
        forall|cx: int, cy: int|
            0 <= cx < BOARD_SIZE && 0 <= cy < BOARD_SIZE && cell_occupied(rows, cx, cy)
                ==> #[trigger] cell_occupied(placed(rows, card, x, y), cx, cy),
{
    assert forall|cx: int, cy: int|
        0 <= cx < BOARD_SIZE && 0 <= cy < BOARD_SIZE && cell_occupied(
            rows,
            cx,
            cy,
        ) implies #[trigger] cell_occupied(placed(rows, card, x, y), cx, cy) by {
        lemma_or_bits(rows[cy], footprint_mask(card, x));
    }
}

proof fn lemma_least_empty(rows: Seq<u64>, start: int, cx: int, cy: int)
    requires
        0 <= start <= cy < BOARD_SIZE,
        0 <= cx < BOARD_SIZE,
        !cell_occupied(rows, cx, cy),
    ensures
        exists|ax: int, ay: int| first_empty_at(rows, start, ax, ay),
    decreases cy * BOARD_SIZE + cx,
{
    if !first_empty_at(rows, start, cx, cy) {
        let (ax, ay) = choose|ax: int, ay: int|
            start <= ay && 0 <= ax < BOARD_SIZE && (ay < cy || (ay == cy && ax < cx))
                && !cell_occupied(rows, ax, ay);
        assert(ay * BOARD_SIZE + ax < cy * BOARD_SIZE + cx) by (nonlinear_arith)
            requires
                ay < cy || (ay == cy && ax < cx),
                0 <= ax < BOARD_SIZE,
                0 <= cx,
        ;
        lemma_least_empty(rows, start, ax, ay);
    }
}

/// When no uncovered cell is found from row `start` on, all of those rows are covered.
pub proof fn lemma_no_empty_is_full(rows: Seq<u64>, start: int)
    requires
        0 <= start,
        first_empty(rows, start) is None,
    ensures
        full_from(rows, start),
{
    assert forall|cx: int, cy: int| start <= cy < BOARD_SIZE && 0 <= cx < BOARD_SIZE implies #[trigger] cell_occupied(
        rows,
        cx,
        cy,
    ) by {
        if !cell_occupied(rows, cx, cy) {
            lemma_least_empty(rows, start, cx, cy);
        }
    }
}

/// On one row, covering the columns of a mask that meets no covered column and then
/// uncovering them again leaves the row bit for bit as it was.
pub proof fn lemma_row_place_remove(row: u64, card_bits: u64, offset: u8)
    requires
        offset < 64,
        row & (card_bits << (offset as u64)) == 0,
    ensures
        (row | (card_bits << (offset as u64))) & !(card_bits << (offset as u64)) == row,
{
    lemma_or_then_clear(row, card_bits << (offset as u64));
}

/// How many of the first `n` columns of a row are covered.
pub open spec fn row_count(v: u64, n: int) -> int
    decreases n,
{
    if n <= 0 {
        0
    } else {
        row_count(v, n - 1) + if has_bit(v, (n - 1) as u64) {
            1int
        } else {
            0int
        }
    }
}

/// How many cells of the first `m` rows are covered.
pub open spec fn board_count(rows: Seq<u64>, m: int) -> int
    decreases m,
{
    if m <= 0 {
        0
    } else {
        board_count(rows, m - 1) + row_count(rows[m - 1], BOARD_SIZE as int)
    }
}

/// How many cells of the board are covered.
pub open spec fn covered(rows: Seq<u64>) -> int {
    board_count(rows, BOARD_SIZE as int)
}

/// How many of the first `n` columns lie in `x..x + card`.
pub open spec fn span(n: int, x: int, card: int) -> int {
    if n <= x {
        0
    } else if n >= x + card {
        card
    } else {
        n - x
    }
}

proof fn lemma_row_count_placed(v: u64, card: int, x: int, n: int)
    requires
        1 <= card,
        0 <= x,
        x + card <= BOARD_SIZE,
        0 <= n <= BOARD_SIZE,
        forall|i: u64| x <= i < x + card ==> !#[trigger] has_bit(v, i),
    ensures
        row_count(v | footprint_mask(card, x), n) == row_count(v, n) + span(n, x, card),
    decreases n,
{
    if n > 0 {
        lemma_row_count_placed(v, card, x, n - 1);
        lemma_or_bits(v, footprint_mask(card, x));
        lemma_shifted_mask_bits(card as u64, x as u64);
        assert(has_bit(footprint_mask(card, x), (n - 1) as u64) <==> (x <= n - 1 < x + card));
    }
}

proof fn lemma_board_count_placed(rows: Seq<u64>, card: int, x: int, y: int, m: int)
    requires
        rows.len() == BOARD_SIZE,
        1 <= card,
        fits(rows, card, x, y),
        0 <= m <= BOARD_SIZE,
    ensures
        board_count(placed(rows, card, x, y), m) == board_count(rows, m) + card * span(m, y, card),
    decreases m,
{
    if m > 0 {
        lemma_board_count_placed(rows, card, x, y, m - 1);
        let r = m - 1;
        let c = span(m - 1, y, card);
        if y <= r < y + card {
            assert forall|i: u64| x <= i < x + card implies !#[trigger] has_bit(rows[r], i) by {
                assert(in_footprint(card, x, y, i as int, r));
                assert(!cell_occupied(rows, i as int, r));
            }
            lemma_row_count_placed(rows[r], card, x, BOARD_SIZE as int);
            assert(card * (c + 1) == card * c + card) by (nonlinear_arith);
        }
    }
}

/// Setting down a piece that fits covers exactly `card * card` more cells.
pub proof fn lemma_covered_placed(rows: Seq<u64>, card: int, x: int, y: int)
    requires
        rows.len() == BOARD_SIZE,
        1 <= card,
        fits(rows, card, x, y),
    ensures
        covered(placed(rows, card, x, y)) == covered(rows) + card * card,
{
    lemma_board_count_placed(rows, card, x, y, BOARD_SIZE as int);
}

proof fn lemma_row_count_bounds(v: u64, n: int, full: bool)
    requires
        0 <= n <= BOARD_SIZE,
        full ==> forall|i: u64| i < n ==> #[trigger] has_bit(v, i),
        !full ==> v == 0,
    ensures
        row_count(v, n) == if full {
            n
        } else {
            0
        },
    decreases n,
{
    if n > 0 {
        lemma_row_count_bounds(v, n - 1, full);
        if !full {
            lemma_zero_bits();
        }
    }
}

proof fn lemma_board_count_full(rows: Seq<u64>, m: int)
    requires
        rows.len() == BOARD_SIZE,
        0 <= m <= BOARD_SIZE,
        full_from(rows, 0),
    ensures
        board_count(rows, m) == m * BOARD_SIZE,
    decreases m,
{
    if m > 0 {
        lemma_board_count_full(rows, m - 1);
        assert forall|i: u64| i < BOARD_SIZE implies #[trigger] has_bit(rows[m - 1], i) by {
            assert(cell_occupied(rows, i as int, m - 1));
        }
        lemma_row_count_bounds(rows[m - 1], BOARD_SIZE as int, true);
        assert(m * BOARD_SIZE == (m - 1) * BOARD_SIZE + BOARD_SIZE) by (nonlinear_arith);
    } else {
        assert(m * BOARD_SIZE == 0) by (nonlinear_arith)
            requires
                m == 0,
        ;
    }
}

/// A board with every cell covered has all `BOARD_SIZE * BOARD_SIZE` cells covered.
pub proof fn lemma_covered_full(rows: Seq<u64>)
    requires
        rows.len() == BOARD_SIZE,
        full_from(rows, 0),
    ensures
        covered(rows) == BOARD_SIZE * BOARD_SIZE,
{
    lemma_board_count_full(rows, BOARD_SIZE as int);
}

proof fn lemma_board_count_empty(m: int)
    requires
        0 <= m <= BOARD_SIZE,
    ensures
        board_count(empty_rows(), m) == 0,
    decreases m,
{
    if m > 0 {
        lemma_board_count_empty(m - 1);
        lemma_row_count_bounds(0u64, BOARD_SIZE as int, false);
    }
}

/// The empty board has no cell covered.
pub proof fn lemma_covered_empty()
    ensures
        covered(empty_rows()) == 0,
{
    lemma_board_count_empty(BOARD_SIZE as int);
}

/// Setting down a piece that fits and taking it up again at once leaves every row
/// bit for bit as it was.
pub proof fn lemma_place_remove_restores(rows: Seq<u64>, card: int, x: int, y: int)
    requires
        rows.len() == BOARD_SIZE,
        1 <= card,
        fits(rows, card, x, y),
    ensures
        removed(placed(rows, card, x, y), card, x, y) == rows,
{
    let after = removed(placed(rows, card, x, y), card, x, y);
    assert forall|r: int| 0 <= r < BOARD_SIZE implies #[trigger] after[r] == rows[r] by {
        if y <= r < y + card {
            lemma_row_clear(rows[r], card as u64, x as u64);
            assert forall|i: u64| x <= i < x + card implies !#[trigger] has_bit(rows[r], i) by {
                assert(in_footprint(card, x, y, i as int, r));
                assert(!cell_occupied(rows, i as int, r));
            }
            lemma_or_then_clear(rows[r], footprint_mask(card, x));
        }
    }
    assert(after =~= rows);
}

} // verus!
