use vstd::prelude::*;

use crate::solver::Solution;
use crate::BOARD_SIZE;

verus! {

/// An ASCII whitespace byte: space, tab, line feed, form feed or carriage return.
pub open spec fn is_space(b: u8) -> bool {
    b == 32 || b == 9 || b == 10 || b == 12 || b == 13
}

/// An ASCII decimal digit.
pub open spec fn is_digit(b: u8) -> bool {
    48 <= b <= 57
}

/// `done` followed by `rest`, if there is a rest.
pub open spec fn prepend_values(done: Seq<u8>, rest: Option<Seq<u8>>) -> Option<Seq<u8>> {
    match rest {
        None => None,
        Some(r) => Some(done + r),
    }
}

/// The numbers written in `line[i..]`, in order, where `cur` is the value of a number
/// already begun; numbers are runs of digits between whitespace. None if a byte is
/// neither, or a number exceeds 255.
pub open spec fn values_from(line: Seq<u8>, i: int, cur: Option<int>) -> Option<Seq<u8>>
    decreases line.len() - i,
{
    if i < 0 || i >= line.len() {
        match cur {
            None => Some(Seq::empty()),
            Some(v) => Some(seq![v as u8]),
        }
    } else if is_space(line[i]) {
        match cur {
            None => values_from(line, i + 1, None),
            Some(v) => prepend_values(seq![v as u8], values_from(line, i + 1, None)),
        }
    } else if is_digit(line[i]) {
        let v = match cur {
            None => 0,
            Some(c) => c,
        } * 10 + (line[i] - 48);
        if v > 255 {
            None
        } else {
            values_from(line, i + 1, Some(v))
        }
    } else {
        None
    }
}

/// The solution written on `line`: exactly `BOARD_SIZE` numbers.
pub open spec fn solution_of(line: Seq<u8>) -> Option<Seq<u8>> {
    match values_from(line, 0, None) {
        Some(vs) => if vs.len() == BOARD_SIZE {
            Some(vs)
        } else {
            None
        },
        None => None,
    }
}

/// Reads a solution from one line: `BOARD_SIZE` decimal sizes between whitespace.
pub fn solution_from_bytes(line: &[u8]) -> (r: Option<Solution>)
    ensures
        match r {
            Some(s) => solution_of(line@) == Some(s@),
            None => solution_of(line@) is None,
        },
{
    let mut out: Vec<u8> = Vec::new();
    let mut cur: Option<u16> = None;
    let mut i: usize = 0;
    while i < line.len()
        invariant
            i <= line@.len(),
            match cur {
                Some(c) => c <= 255,
                None => true,
            },
            values_from(line@, 0, None) == prepend_values(
                out@,
                values_from(
                    line@,
                    i as int,
                    match cur {
                        Some(c) => Some(c as int),
                        None => None,
                    },
                ),
            ),
        decreases line@.len() - i,
    {
        let b = line[i];
        if b == 32 || b == 9 || b == 10 || b == 12 || b == 13 {
            if let Some(c) = cur {
                let ghost before = out@;
                out.push(c as u8);
                proof {
                    let rest = values_from(line@, i + 1, None);
                    if let Some(r) = rest {
                        assert(before + (seq![c as u8] + r) =~= out@ + r);
                    }
                }
                cur = None;
            }
        } else if 48 <= b && b <= 57 {
            let v: u16 = match cur {
                None => 0,
                Some(c) => c,
            } * 10 + (b - 48) as u16;
            if v > 255 {
                return None;
            }
            cur = Some(v);
        } else {
            return None;
        }
        i = i + 1;
    }
    if let Some(c) = cur {
        out.push(c as u8);
    }
    assert(values_from(line@, 0, None) == Some(out@));
    if out.len() != BOARD_SIZE {
        return None;
    }
    let mut sol = [0u8; BOARD_SIZE];
    let mut k: usize = 0;
    while k < BOARD_SIZE
        invariant
            k <= BOARD_SIZE,
            out@.len() == BOARD_SIZE,
            forall|j: int| 0 <= j < k ==> sol[j] == out@[j],
        decreases BOARD_SIZE - k,
    {
        sol[k] = out[k];
        k = k + 1;
    }
    assert(sol@ =~= out@);
    Some(sol)
}


/// The decimal digits of `v`, most significant first, without leading zeros.
pub open spec fn digits(v: u8) -> Seq<u8> {
    if v < 10 {
        seq![(48 + v) as u8]
    } else if v < 100 {
        seq![(48 + v / 10) as u8, (48 + v % 10) as u8]
    } else {
        seq![(48 + v / 100) as u8, (48 + (v / 10) % 10) as u8, (48 + v % 10) as u8]
    }
}

/// Each value of `s` in decimal followed by one space.
pub open spec fn tokens_of(s: Seq<u8>) -> Seq<u8>
    decreases s.len(),
{
    if s.len() == 0 {
        Seq::empty()
    } else {
        digits(s[0]) + seq![32u8] + tokens_of(s.drop_first())
    }
}

/// The line that stores `s`: its tokens, then a line feed.
pub open spec fn line_of(s: Seq<u8>) -> Seq<u8> {
    tokens_of(s) + seq![10u8]
}

proof fn lemma_read_token(line: Seq<u8>, p: int, v: u8)
    requires
        0 <= p,
        p + digits(v).len() < line.len(),
        line.subrange(p, p + digits(v).len()) == digits(v),
        line[p + digits(v).len()] == 32,
    ensures
        values_from(line, p, None) == prepend_values(
            seq![v],
            values_from(line, p + digits(v).len() + 1, None),
        ),
{
    let d = digits(v);
    assert(line[p] == d[0]);
    if v < 10 {
        assert(values_from(line, p + 1, Some(v as int)) == prepend_values(
            seq![v],
            values_from(line, p + 2, None),
        ));
    } else if v < 100 {
        assert(line[p + 1] == d[1]);
        assert((v / 10) * 10 + v % 10 == v);
        assert(values_from(line, p + 2, Some(v as int)) == prepend_values(
            seq![v],
            values_from(line, p + 3, None),
        ));
        assert(values_from(line, p + 1, Some((v / 10) as int)) == values_from(
            line,
            p + 2,
            Some(v as int),
        ));
    } else {
        assert(line[p + 1] == d[1]);
        assert(line[p + 2] == d[2]);
        assert((v / 100) * 10 + (v / 10) % 10 == v / 10);
        assert((v / 10) * 10 + v % 10 == v);
        assert(values_from(line, p + 3, Some(v as int)) == prepend_values(
            seq![v],
            values_from(line, p + 4, None),
        ));
        assert(values_from(line, p + 2, Some((v / 10) as int)) == values_from(
            line,
            p + 3,
            Some(v as int),
        ));
        assert(values_from(line, p + 1, Some((v / 100) as int)) == values_from(
            line,
            p + 2,
            Some((v / 10) as int),
        ));
    }
}

proof fn lemma_read_tokens(pre: Seq<u8>, s: Seq<u8>)
    ensures
        values_from(pre + line_of(s), pre.len() as int, None) == Some(s),
    decreases s.len(),
{
    let line = pre + line_of(s);
    if s.len() == 0 {
        assert(line[pre.len() as int] == 10);
        assert(values_from(line, (pre.len() + 1) as int, None) == Some(Seq::<u8>::empty()));
    } else {
        let d = digits(s[0]);
        let pre2 = pre + d + seq![32u8];
        assert(line_of(s) =~= d + seq![32u8] + line_of(s.drop_first()));
        assert(line =~= pre2 + line_of(s.drop_first()));
        lemma_read_tokens(pre2, s.drop_first());
        assert(line.subrange(pre.len() as int, (pre.len() + d.len()) as int) =~= d);
        assert(line[(pre.len() + d.len()) as int] == 32);
        lemma_read_token(line, pre.len() as int, s[0]);
        assert(seq![s[0]] + s.drop_first() =~= s);
    }
}

/// The line that stores a solution: each size in decimal followed by a space, then a line
/// feed.
pub fn solution_line(sol: &Solution) -> (r: Vec<u8>)
    ensures
        r@ == line_of(sol@),
{
    let mut out: Vec<u8> = Vec::new();
    let mut k: usize = 0;
    assert(sol@.subrange(0, BOARD_SIZE as int) =~= sol@);
    assert(out@ + tokens_of(sol@) =~= tokens_of(sol@));
    while k < BOARD_SIZE
        invariant
            k <= BOARD_SIZE,
            sol@.len() == BOARD_SIZE,
            out@ + tokens_of(sol@.subrange(k as int, BOARD_SIZE as int)) == tokens_of(sol@),
        decreases BOARD_SIZE - k,
    {
        let ghost before = out@;
        let v = sol[k];
        if v >= 100 {
            out.push(48 + v / 100);
        }
        if v >= 10 {
            out.push(48 + (v / 10) % 10);
        }
        out.push(48 + v % 10);
        out.push(32);
        proof {
            let rest = sol@.subrange(k as int, BOARD_SIZE as int);
            assert(rest.drop_first() =~= sol@.subrange(k + 1, BOARD_SIZE as int));
            assert(out@ =~= before + digits(v) + seq![32u8]);
            assert(before + tokens_of(rest) =~= out@ + tokens_of(rest.drop_first()));
        }
        k = k + 1;
    }
    out.push(10);
    assert(out@ =~= line_of(sol@));
    out
}

/// Reading back the line written for a solution gives that solution.
pub proof fn lemma_line_round_trip(s: Seq<u8>)
    requires
        s.len() == BOARD_SIZE,
    ensures
        solution_of(line_of(s)) == Some(s),
{
    lemma_read_tokens(Seq::empty(), s);
    assert(Seq::<u8>::empty() + line_of(s) =~= line_of(s));
}

} // verus!
