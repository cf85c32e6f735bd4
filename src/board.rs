//! The board: the one owner of all 81 cells, and what is said of its state as a whole.
use vstd::prelude::*;

use crate::cell::{all_digits, is_digit, Cell};
use crate::grid::{in_unit, is_peer, lemma_peer_unit, lemma_unit_member, unit_member};

verus! {

/// The 81 cells, row by row.
pub struct Board {
    pub cells: Vec<Cell>,
}

/// A seed gave a row or a column outside 0..=8, or a value outside 1..=9.
#[derive(Debug, Clone, Copy, PartialEq, Eq)]
pub struct InvalidSeed;

/// A seed: row, column, value.
pub type Seed = (usize, usize, u8);

pub open spec fn seed_ok(s: Seed) -> bool {
    s.0 < 9 && s.1 < 9 && is_digit(s.2)
}

/// The value that the last seed for square `i` gives it, if any seed does.
pub open spec fn seeded(seeds: Seq<Seed>, i: int) -> Option<u8>
    decreases seeds.len(),
{
    if seeds.len() == 0 {
        None
    } else {
        let s = seeds.last();
        if s.0 * 9 + s.1 == i {
            Some(s.2)
        } else {
            seeded(seeds.drop_last(), i)
        }
    }
}

/// Every cell is well formed, and there are 81 of them.
pub open spec fn board_wf(cs: Seq<Cell>) -> bool {
    cs.len() == 81 && forall|i: int| 0 <= i < 81 ==> (#[trigger] cs[i]).wf()
}

/// No two neighbours are determined to the same value.
pub open spec fn consistent(cs: Seq<Cell>) -> bool {
    forall|i: int, j: int|
        #[trigger] is_peer(i, j) && cs[i].fixed().is_some() ==> cs[j].fixed() != cs[i].fixed()
}

/// No open cell still lists the value of a determined neighbour.
pub open spec fn reduced(cs: Seq<Cell>) -> bool {
    forall|i: int, j: int|
        #[trigger] is_peer(i, j) && cs[j].fixed().is_some() ==> !cs[i].candidates().contains(
            cs[j].fixed().unwrap(),
        )
}

/// No open cell is down to one candidate, or to none.
pub open spec fn settled(cs: Seq<Cell>) -> bool {
    forall|i: int| 0 <= i < 81 && (#[trigger] cs[i]).fixed().is_none() ==> cs[i].width() > 1
}

/// A board on which a further pass can change nothing.
pub open spec fn stable(cs: Seq<Cell>) -> bool {
    board_wf(cs) && consistent(cs) && reduced(cs) && settled(cs)
}

pub open spec fn all_fixed(cs: Seq<Cell>) -> bool {
    forall|i: int| 0 <= i < 81 ==> (#[trigger] cs[i]).fixed().is_some()
}

/// Some square of unit `t` is determined to `v`.
pub open spec fn unit_holds(cs: Seq<Cell>, t: int, v: u8) -> bool {
    exists|i: int| #[trigger] in_unit(t, i) && cs[i].fixed() == Some(v)
}

/// Every row, column and box holds each digit in exactly one of its squares.
pub open spec fn solved(cs: Seq<Cell>) -> bool {
    &&& all_fixed(cs)
    &&& forall|t: int, v: u8| 0 <= t < 27 && is_digit(v) ==> #[trigger] unit_holds(cs, t, v)
    &&& forall|t: int, i: int, j: int|
        #[trigger] in_unit(t, i) && #[trigger] in_unit(t, j) && cs[i].fixed() == cs[j].fixed() ==> i == j
}

/// The number of determined cells.
pub open spec fn num_fixed(cs: Seq<Cell>) -> nat
    decreases cs.len(),
{
    if cs.len() == 0 {
        0
    } else {
        num_fixed(cs.drop_last()) + if cs.last().fixed().is_some() {
            1nat
        } else {
            0nat
        }
    }
}

pub proof fn lemma_num_fixed_bound(cs: Seq<Cell>)
    ensures
        num_fixed(cs) <= cs.len(),
    decreases cs.len(),
{
    if cs.len() > 0 {
        lemma_num_fixed_bound(cs.drop_last());
    }
}

/// Cells that are determined in the same places are counted alike.
pub proof fn lemma_num_fixed_same(a: Seq<Cell>, b: Seq<Cell>)
    requires
        a.len() == b.len(),
        forall|i: int| 0 <= i < a.len() ==> (#[trigger] a[i]).fixed().is_some() == b[i].fixed().is_some(),
    ensures
        num_fixed(a) == num_fixed(b),
    decreases a.len(),
{
    if a.len() > 0 {
        lemma_num_fixed_same(a.drop_last(), b.drop_last());
    }
}

/// Determining one open cell adds one to the count.
pub proof fn lemma_num_fixed_update(cs: Seq<Cell>, i: int, c: Cell)
    requires
        0 <= i < cs.len(),
        cs[i].fixed().is_none(),
        c.fixed().is_some(),
    ensures
        num_fixed(cs.update(i, c)) == num_fixed(cs) + 1,
    decreases cs.len(),
{
    let u = cs.update(i, c);
    if i == cs.len() - 1 {
        assert(u.drop_last() =~= cs.drop_last());
    } else {
        assert(u.drop_last() =~= cs.drop_last().update(i, c));
        lemma_num_fixed_update(cs.drop_last(), i, c);
    }
}

impl Board {
    /// Builds a board from seeds; squares no seed names may take any digit. Where two seeds
    /// name the same square the later one counts. Duplicate values within a unit are not
    /// rejected here: the first pass reports them.
    pub fn new(seeds: &Vec<Seed>) -> (r: Result<Board, InvalidSeed>)
        ensures
            r is Err <==> exists|k: int| 0 <= k < seeds@.len() && !seed_ok(#[trigger] seeds@[k]),
            r matches Ok(b) ==> board_wf(b.cells@) && forall|i: int|
                0 <= i < 81 ==> match seeded(seeds@, i) {
                    Some(v) => #[trigger] b.cells@[i] == Cell::Determined(v),
                    None => b.cells@[i].fixed().is_none() && b.cells@[i].candidates()
                        == all_digits(),
                },
    {
        let mut k: usize = 0;
        while k < seeds.len()
            invariant
                k <= seeds@.len(),
                forall|m: int| 0 <= m < k ==> seed_ok(#[trigger] seeds@[m]),
            decreases seeds@.len() - k,
        {
            let s = seeds[k];
            if !(s.0 < 9 && s.1 < 9 && 1 <= s.2 && s.2 <= 9) {
                assert(!seed_ok(seeds@[k as int]));
                return Err(InvalidSeed);
            }
            k = k + 1;
        }
        let mut cells: Vec<Cell> = Vec::new();
        let mut i: usize = 0;
        while i < 81
            invariant
                i <= 81,
                cells@.len() == i,
                forall|m: int|
                    0 <= m < i ==> (#[trigger] cells@[m]).wf() && cells@[m].fixed().is_none()
                        && cells@[m].candidates() == all_digits(),
            decreases 81 - i,
        {
            cells.push(Cell::blank());
            i = i + 1;
        }
        k = 0;
        while k < seeds.len()
            invariant
                k <= seeds@.len(),
                forall|m: int| 0 <= m < seeds@.len() ==> seed_ok(#[trigger] seeds@[m]),
                board_wf(cells@),
                forall|m: int|
                    0 <= m < 81 ==> match seeded(seeds@.take(k as int), m) {
                        Some(v) => #[trigger] cells@[m] == Cell::Determined(v),
                        None => cells@[m].fixed().is_none() && cells@[m].candidates()
                            == all_digits(),
                    },
            decreases seeds@.len() - k,
        {
            let s = seeds[k];
            assert(seed_ok(seeds@[k as int]));
            cells.set(s.0 * 9 + s.1, Cell::Determined(s.2));
            assert(seeds@.take(k + 1).drop_last() =~= seeds@.take(k as int));
            k = k + 1;
        }
        assert(seeds@.take(seeds@.len() as int) =~= seeds@);
        Ok(Board { cells })
    }

    /// The determined values, as rows of squares; `None` for an open square.
    pub fn snapshot(&self) -> (g: Vec<Vec<Option<u8>>>)
        requires
            board_wf(self.cells@),
        ensures
            g@.len() == 9,
            forall|r: int| 0 <= r < 9 ==> (#[trigger] g@[r])@.len() == 9,
            forall|r: int, c: int|
                0 <= r < 9 && 0 <= c < 9 ==> #[trigger] g@[r]@[c] == self.cells@[r * 9
                    + c].fixed(),
    {
        let mut g: Vec<Vec<Option<u8>>> = Vec::new();
        let mut r: usize = 0;
        while r < 9
            invariant
                board_wf(self.cells@),
                r <= 9,
                g@.len() == r,
                forall|a: int| 0 <= a < r ==> (#[trigger] g@[a])@.len() == 9,
                forall|a: int, c: int|
                    0 <= a < r && 0 <= c < 9 ==> #[trigger] g@[a]@[c] == self.cells@[a * 9
                        + c].fixed(),
            decreases 9 - r,
        {
            let mut line: Vec<Option<u8>> = Vec::new();
            let mut c: usize = 0;
            while c < 9
                invariant
                    board_wf(self.cells@),
                    r < 9,
                    c <= 9,
                    line@.len() == c,
                    forall|b: int| 0 <= b < c ==> #[trigger] line@[b] == self.cells@[r * 9 + b].fixed(),
                decreases 9 - c,
            {
                line.push(self.cells[r * 9 + c].value());
                c = c + 1;
            }
            g.push(line);
            r = r + 1;
        }
        g
    }

    /// The cell in row `r`, column `c`.
    pub fn cell(&self, r: usize, c: usize) -> (x: &Cell)
        requires
            board_wf(self.cells@),
            r < 9,
            c < 9,
        ensures
            *x == self.cells@[r * 9 + c],
    {
        &self.cells[r * 9 + c]
    }
}

/// The number of determined cells.
pub fn get_solved_cells(board: &Board) -> (n: u8)
    requires
        board_wf(board.cells@),
    ensures
        n == num_fixed(board.cells@),
{
    let mut n: u8 = 0;
    let mut i: usize = 0;
    while i < 81
        invariant
            board_wf(board.cells@),
            i <= 81,
            n == num_fixed(board.cells@.take(i as int)),
            n <= i,
        decreases 81 - i,
    {
        assert(board.cells@.take(i + 1).drop_last() =~= board.cells@.take(i as int));
        if board.cells[i].value().is_some() {
            n = n + 1;
        }
        i = i + 1;
    }
    assert(board.cells@.take(81) =~= board.cells@);
    n
}

proof fn lemma_all_digits()
    ensures
        all_digits().finite(),
        all_digits().len() == 9,
{
    let s = Seq::new(9, |k: int| (k + 1) as u8);
    assert(s.to_set() =~= all_digits()) by {
        assert forall|v: u8| is_digit(v) implies s.contains(v) by {
            assert(s[v - 1] == v);
        }
    }
    s.unique_seq_to_set();
    vstd::seq_lib::seq_to_set_is_finite(s);
}

/// A board whose 81 cells are all determined, with no two neighbours alike, is solved:
/// every row, column and box holds each digit in exactly one square.
pub proof fn lemma_sound(cs: Seq<Cell>)
    requires
        board_wf(cs),
        all_fixed(cs),
        consistent(cs),
    ensures
        solved(cs),
{
    assert forall|t: int, i: int, j: int|
        #[trigger] in_unit(t, i) && #[trigger] in_unit(t, j) && cs[i].fixed() == cs[j].fixed() implies i == j by {
        if i != j {
            lemma_peer_unit(i, j);
            assert(is_peer(i, j));
        }
    }
    lemma_all_digits();
    assert forall|t: int, v: u8| 0 <= t < 27 && is_digit(v) implies #[trigger] unit_holds(cs, t, v) by {
        lemma_unit_member(t);
        let vals = Seq::new(9, |k: int| cs[unit_member(t, k)].fixed().unwrap());
        assert(vals.no_duplicates()) by {
            assert forall|a: int, b: int| 0 <= a < 9 && 0 <= b < 9 && a != b implies vals[a] != vals[b] by {
                let (x, y) = (unit_member(t, a), unit_member(t, b));
                assert(in_unit(t, x) && in_unit(t, y) && x != y);
                lemma_peer_unit(x, y);
                assert(is_peer(x, y));
            }
        }
        vals.unique_seq_to_set();
        assert(vals.to_set().subset_of(all_digits())) by {
            assert forall|w: u8| vals.to_set().contains(w) implies is_digit(w) by {
                let k = choose|k: int| 0 <= k < 9 && vals[k] == w;
                assert(in_unit(t, unit_member(t, k)));
                assert(cs[unit_member(t, k)].wf());
            }
        }
        vstd::set_lib::lemma_subset_equality(vals.to_set(), all_digits());
        assert(vals.to_set().contains(v));
        let k = choose|k: int| 0 <= k < 9 && vals[k] == v;
        assert(in_unit(t, unit_member(t, k)) && cs[unit_member(t, k)].fixed() == Some(v));
    }
}

} // verus!
