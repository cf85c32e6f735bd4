//! The geometry of the grid. Squares are numbered row by row: the square in row `r` and
//! column `c` has index `r * 9 + c`. Units (rows, columns, boxes) and neighbourhoods are
//! lists of such indices, never references to cells.
use vstd::prelude::*;

verus! {

pub open spec fn is_cell(i: int) -> bool {
    0 <= i < 81
}

pub open spec fn row_of(i: int) -> int {
    i / 9
}

pub open spec fn col_of(i: int) -> int {
    i % 9
}

/// Which third of the grid a row or column number falls in.
pub open spec fn band(x: int) -> int {
    if x < 3 {
        0
    } else if x < 6 {
        1
    } else {
        2
    }
}

pub open spec fn box_of(i: int) -> int {
    3 * band(row_of(i)) + band(col_of(i))
}

/// Two distinct squares that share a row, a column or a box.
pub open spec fn is_peer(i: int, j: int) -> bool {
    is_cell(i) && is_cell(j) && i != j && (row_of(i) == row_of(j) || col_of(i) == col_of(j)
        || box_of(i) == box_of(j))
}

/// Every square that shares a row, a column or a box with `i`, `i` left out.
pub open spec fn neighbours(i: int) -> Set<int> {
    Set::new(|j: int| is_peer(i, j))
}

/// The 27 units: rows 0..=8 are units 0..=8, columns units 9..=17, boxes (numbered row by
/// row) units 18..=26.
pub open spec fn in_unit(t: int, i: int) -> bool {
    is_cell(i) && if t < 9 {
        row_of(i) == t
    } else if t < 18 {
        col_of(i) == t - 9
    } else {
        box_of(i) == t - 18
    }
}

/// `s` lists, once each, exactly the squares of unit `t`.
pub open spec fn lists_unit(s: Seq<usize>, t: int) -> bool {
    &&& s.len() == 9
    &&& s.no_duplicates()
    &&& forall|k: int| 0 <= k < 9 ==> in_unit(t, #[trigger] s[k] as int)
    &&& forall|i: int| #[trigger] in_unit(t, i) ==> s.contains(i as usize)
}

/// Two squares are peers exactly when some unit holds both.
pub proof fn lemma_peer_unit(i: int, j: int)
    requires
        is_cell(i),
        is_cell(j),
        i != j,
    ensures
        is_peer(i, j) <==> exists|t: int| 0 <= t < 27 && in_unit(t, i) && in_unit(t, j),
{
    if is_peer(i, j) {
        if row_of(i) == row_of(j) {
            assert(in_unit(row_of(i), i) && in_unit(row_of(i), j));
        } else if col_of(i) == col_of(j) {
            assert(in_unit(col_of(i) + 9, i) && in_unit(col_of(i) + 9, j));
        } else {
            assert(in_unit(box_of(i) + 18, i) && in_unit(box_of(i) + 18, j));
        }
    }
}

/// The `k`-th square of unit `t` (`k` in 0..9).
pub open spec fn unit_member(t: int, k: int) -> int {
    if t < 9 {
        t * 9 + k
    } else if t < 18 {
        k * 9 + (t - 9)
    } else {
        (3 * band(t - 18) + band(k)) * 9 + 3 * (t - 18 - 3 * band(t - 18)) + (k - 3 * band(k))
    }
}

pub proof fn lemma_unit_member(t: int)
    requires
        0 <= t < 27,
    ensures
        forall|k: int| 0 <= k < 9 ==> in_unit(t, #[trigger] unit_member(t, k)),
        forall|a: int, b: int|
            0 <= a < 9 && 0 <= b < 9 && a != b ==> #[trigger] unit_member(t, a) != #[trigger] unit_member(t, b),
{
    assert forall|a: int, b: int|
        0 <= a < 9 && 0 <= b < 9 && a != b implies #[trigger] unit_member(t, a) != #[trigger] unit_member(t, b) by {
        let (x, y) = (unit_member(t, a), unit_member(t, b));
        assert(x == row_of(x) * 9 + col_of(x));
    }
}

/// The `k`-th of the two members of `x`'s third of the grid other than `x` itself.
pub open spec fn other_in_band(x: int, k: int) -> int {
    let base = 3 * band(x);
    if base + k < x {
        base + k
    } else {
        base + k + 1
    }
}

/// The `k`-th of the eight numbers in 0..=8 other than `x`.
pub open spec fn skip(x: int, k: int) -> int {
    if k < x {
        k
    } else {
        k + 1
    }
}

/// The neighbours of `i` in a fixed order: the eight others of its row, the eight others of
/// its column, then the four others of its box in neither.
pub open spec fn peer_seq(i: int) -> Seq<int> {
    let r = row_of(i);
    let c = col_of(i);
    Seq::new(8, |k: int| r * 9 + skip(c, k)) + Seq::new(8, |k: int| skip(r, k) * 9 + c)
        + Seq::new(4, |k: int| other_in_band(r, k / 2) * 9 + other_in_band(c, k % 2))
}

#[verifier::rlimit(60)]
proof fn lemma_peer_seq(i: int)
    requires
        is_cell(i),
    ensures
        peer_seq(i).len() == 20,
        peer_seq(i).no_duplicates(),
        forall|k: int| 0 <= k < 20 ==> is_peer(i, #[trigger] peer_seq(i)[k]),
        forall|j: int| #[trigger] is_peer(i, j) ==> peer_seq(i).contains(j),
{
    let s = peer_seq(i);
    let r = row_of(i);
    let c = col_of(i);
    assert forall|k: int| 0 <= k < 20 implies {
        let j = #[trigger] s[k];
        is_peer(i, j) && (k < 8 ==> row_of(j) == r && col_of(j) == skip(c, k)) && (8 <= k < 16
            ==> col_of(j) == c && row_of(j) == skip(r, k - 8)) && (16 <= k ==> row_of(j)
            == other_in_band(r, (k - 16) / 2) && col_of(j) == other_in_band(c, (k - 16) % 2))
    } by {}
    assert forall|a: int, b: int| 0 <= a < 20 && 0 <= b < 20 && a != b implies s[a] != s[b] by {
        assert(s[a] == row_of(s[a]) * 9 + col_of(s[a]));
        assert(s[b] == row_of(s[b]) * 9 + col_of(s[b]));
    }
    assert forall|j: int| #[trigger] is_peer(i, j) implies s.contains(j) by {
        let rj = row_of(j);
        let cj = col_of(j);
        if rj == r {
            let k = if cj < c {
                cj
            } else {
                cj - 1
            };
            assert(s[k] == j);
        } else if cj == c {
            let k = if rj < r {
                rj
            } else {
                rj - 1
            };
            assert(s[8 + k] == j);
        } else {
            let a = if rj < r {
                rj - 3 * band(r)
            } else {
                rj - 3 * band(r) - 1
            };
            let b = if cj < c {
                cj - 3 * band(c)
            } else {
                cj - 3 * band(c) - 1
            };
            assert(s[16 + 2 * a + b] == j);
        }
    }
}

/// Every square has exactly 20 neighbours, and being neighbours is symmetric.
pub proof fn lemma_neighbours(i: int, j: int)
    requires
        is_cell(i),
    ensures
        neighbours(i).finite(),
        neighbours(i).len() == 20,
        neighbours(i).contains(j) <==> neighbours(j).contains(i),
{
    lemma_peer_seq(i);
    let s = peer_seq(i);
    assert(s.to_set() =~= neighbours(i)) by {
        assert forall|j: int| s.contains(j) implies is_peer(i, j) by {
            let k = choose|k: int| 0 <= k < s.len() && s[k] == j;
            assert(is_peer(i, s[k]));
        }
    }
    s.unique_seq_to_set();
    vstd::seq_lib::seq_to_set_is_finite(s);
}

/// The neighbours of every square, computed once.
pub struct NeighbourIndex {
    pub table: Vec<Vec<usize>>,
}

impl NeighbourIndex {
    pub open spec fn wf(&self) -> bool {
        &&& self.table@.len() == 81
        &&& forall|i: int|
            0 <= i < 81 ==> {
                let s = #[trigger] self.table@[i]@;
                &&& s.len() == 20
                &&& s.no_duplicates()
                &&& forall|k: int| 0 <= k < 20 ==> is_peer(i, #[trigger] s[k] as int)
                &&& forall|j: int| #[trigger] is_peer(i, j) ==> s.contains(j as usize)
            }
    }

    /// The neighbours of square `i`.
    pub fn neighbours_of(&self, i: usize) -> (r: &Vec<usize>)
        requires
            self.wf(),
            i < 81,
        ensures
            r@.len() == 20,
            r@.no_duplicates(),
            forall|k: int| 0 <= k < 20 ==> is_peer(i as int, #[trigger] r@[k] as int),
            forall|j: int| #[trigger] is_peer(i as int, j) ==> r@.contains(j as usize),
    {
        let r = &self.table[i];
        assert(self.table@[i as int]@ == r@);
        r
    }
}

/// The number of the third of the grid that `x` falls in.
fn band_of(x: usize) -> (r: usize)
    requires
        x < 9,
    ensures
        r == band(x as int),
{
    if x < 3 {
        0
    } else if x < 6 {
        1
    } else {
        2
    }
}

fn other_in_band_exec(x: usize, k: usize) -> (r: usize)
    requires
        x < 9,
        k < 2,
    ensures
        r == other_in_band(x as int, k as int),
{
    let base = 3 * band_of(x);
    if base + k < x {
        base + k
    } else {
        base + k + 1
    }
}

/// The neighbours of one square, in the order of `peer_seq`.
fn neighbours_list(i: usize) -> (v: Vec<usize>)
    requires
        i < 81,
    ensures
        v@.len() == 20,
        forall|k: int| 0 <= k < 20 ==> #[trigger] v@[k] as int == peer_seq(i as int)[k],
{
    let r = i / 9;
    let c = i % 9;
    let ghost s = peer_seq(i as int);
    let mut v: Vec<usize> = Vec::new();
    let mut k: usize = 0;
    while k < 8
        invariant
            i < 81,
            r == row_of(i as int),
            c == col_of(i as int),
            s == peer_seq(i as int),
            k <= 8,
            v@.len() == k,
            forall|m: int| 0 <= m < k ==> #[trigger] v@[m] as int == s[m],
        decreases 8 - k,
    {
        let col = if k < c {
            k
        } else {
            k + 1
        };
        v.push(r * 9 + col);
        k = k + 1;
    }
    k = 0;
    while k < 8
        invariant
            i < 81,
            r == row_of(i as int),
            c == col_of(i as int),
            s == peer_seq(i as int),
            k <= 8,
            v@.len() == 8 + k,
            forall|m: int| 0 <= m < 8 + k ==> #[trigger] v@[m] as int == s[m],
        decreases 8 - k,
    {
        let row = if k < r {
            k
        } else {
            k + 1
        };
        v.push(row * 9 + c);
        k = k + 1;
    }
    k = 0;
    while k < 4
        invariant
            i < 81,
            r == row_of(i as int),
            c == col_of(i as int),
            s == peer_seq(i as int),
            k <= 4,
            v@.len() == 16 + k,
            forall|m: int| 0 <= m < 16 + k ==> #[trigger] v@[m] as int == s[m],
        decreases 4 - k,
    {
        let row = other_in_band_exec(r, k / 2);
        let col = other_in_band_exec(c, k % 2);
        v.push(row * 9 + col);
        k = k + 1;
    }
    v
}

/// Computes the neighbours of all 81 squares.
pub fn compute_neighbours() -> (n: NeighbourIndex)
    ensures
        n.wf(),
{
    let mut table: Vec<Vec<usize>> = Vec::new();
    let mut i: usize = 0;
    while i < 81
        invariant
            i <= 81,
            table@.len() == i,
            forall|m: int|
                0 <= m < i ==> {
                    let s = #[trigger] table@[m]@;
                    &&& s.len() == 20
                    &&& s.no_duplicates()
                    &&& forall|k: int| 0 <= k < 20 ==> is_peer(m, #[trigger] s[k] as int)
                    &&& forall|j: int| #[trigger] is_peer(m, j) ==> s.contains(j as usize)
                },
        decreases 81 - i,
    {
        let v = neighbours_list(i);
        proof {
            lemma_peer_seq(i as int);
            let s = peer_seq(i as int);
            assert forall|a: int, b: int|
                0 <= a < 20 && 0 <= b < 20 && a != b implies v@[a] != v@[b] by {
                assert(s[a] != s[b]);
            }
            assert forall|k: int| 0 <= k < 20 implies is_peer(i as int, #[trigger] v@[k] as int) by {
                assert(is_peer(i as int, s[k]));
            }
            assert forall|j: int| #[trigger] is_peer(i as int, j) implies v@.contains(j as usize) by {
                let k = choose|k: int| 0 <= k < s.len() && s[k] == j;
                assert(v@[k] as int == s[k]);
            }
        }
        table.push(v);
        i = i + 1;
    }
    NeighbourIndex { table }
}

/// A row or a column of the grid, as the indices of its nine squares.
pub struct Line {
    pub cells: Vec<usize>,
}

/// A 3×3 box of the grid, as the indices of its nine squares.
pub struct Square {
    pub cells: Vec<usize>,
}

/// The squares of row `r`, left to right.
fn row_cells(r: usize) -> (v: Vec<usize>)
    requires
        r < 9,
    ensures
        lists_unit(v@, r as int),
        forall|k: int| 0 <= k < 9 ==> #[trigger] v@[k] == r * 9 + k,
{
    let mut v: Vec<usize> = Vec::new();
    let mut k: usize = 0;
    while k < 9
        invariant
            r < 9,
            k <= 9,
            v@.len() == k,
            forall|m: int| 0 <= m < k ==> #[trigger] v@[m] == r * 9 + m,
        decreases 9 - k,
    {
        v.push(r * 9 + k);
        k = k + 1;
    }
    assert forall|i: int| #[trigger] in_unit(r as int, i) implies v@.contains(i as usize) by {
        assert(v@[col_of(i)] == i);
    }
    v
}

/// The squares of column `c`, top to bottom.
fn column_cells(c: usize) -> (v: Vec<usize>)
    requires
        c < 9,
    ensures
        lists_unit(v@, c + 9),
        forall|k: int| 0 <= k < 9 ==> #[trigger] v@[k] == k * 9 + c,
{
    let mut v: Vec<usize> = Vec::new();
    let mut k: usize = 0;
    while k < 9
        invariant
            c < 9,
            k <= 9,
            v@.len() == k,
            forall|m: int| 0 <= m < k ==> #[trigger] v@[m] == m * 9 + c,
        decreases 9 - k,
    {
        v.push(k * 9 + c);
        k = k + 1;
    }
    assert forall|i: int| #[trigger] in_unit(c + 9, i) implies v@.contains(i as usize) by {
        assert(v@[row_of(i)] == i);
    }
    v
}

/// The squares of box `b` (boxes numbered row by row), row by row.
fn box_cells(b: usize) -> (v: Vec<usize>)
    requires
        b < 9,
    ensures
        lists_unit(v@, b + 18),
        forall|k: int| 0 <= k < 9 ==> #[trigger] v@[k] == unit_member(b + 18, k),
{
    let top = 3 * band_of(b);
    let left = 3 * (b - band_of(b) * 3);
    let mut v: Vec<usize> = Vec::new();
    let mut k: usize = 0;
    while k < 9
        invariant
            b < 9,
            top == 3 * band(b as int),
            left == 3 * (b - 3 * band(b as int)),
            k <= 9,
            v@.len() == k,
            forall|m: int|
                0 <= m < k ==> #[trigger] v@[m] == (top + band(m)) * 9 + left + (m - 3 * band(
                    m,
                )),
        decreases 9 - k,
    {
        v.push((top + band_of(k)) * 9 + left + (k - 3 * band_of(k)));
        k = k + 1;
    }
    assert forall|i: int| #[trigger] in_unit(b + 18, i) implies v@.contains(i as usize) by {
        let m = 3 * (row_of(i) - top) + (col_of(i) - left);
        assert(v@[m] == i);
    }
    v
}

/// The nine rows and the nine columns of the grid.
pub fn create_lines() -> (r: (Vec<Line>, Vec<Line>))
    ensures
        r.0@.len() == 9,
        r.1@.len() == 9,
        forall|t: int| 0 <= t < 9 ==> lists_unit(#[trigger] r.0@[t].cells@, t),
        forall|t: int| 0 <= t < 9 ==> lists_unit(#[trigger] r.1@[t].cells@, t + 9),
        forall|t: int, k: int| 0 <= t < 9 && 0 <= k < 9 ==> #[trigger] r.0@[t].cells@[k] == t * 9 + k,
        forall|t: int, k: int| 0 <= t < 9 && 0 <= k < 9 ==> #[trigger] r.1@[t].cells@[k] == k * 9 + t,
{
    let mut rows: Vec<Line> = Vec::new();
    let mut cols: Vec<Line> = Vec::new();
    let mut k: usize = 0;
    while k < 9
        invariant
            k <= 9,
            rows@.len() == k,
            cols@.len() == k,
            forall|t: int| 0 <= t < k ==> lists_unit(#[trigger] rows@[t].cells@, t),
            forall|t: int| 0 <= t < k ==> lists_unit(#[trigger] cols@[t].cells@, t + 9),
            forall|t: int, m: int| 0 <= t < k && 0 <= m < 9 ==> #[trigger] rows@[t].cells@[m] == t * 9 + m,
            forall|t: int, m: int| 0 <= t < k && 0 <= m < 9 ==> #[trigger] cols@[t].cells@[m] == m * 9 + t,
        decreases 9 - k,
    {
        rows.push(Line { cells: row_cells(k) });
        cols.push(Line { cells: column_cells(k) });
        k = k + 1;
    }
    (rows, cols)
}

/// The nine boxes of the grid, numbered row by row.
pub fn create_squares() -> (r: Vec<Square>)
    ensures
        r@.len() == 9,
        forall|t: int| 0 <= t < 9 ==> lists_unit(#[trigger] r@[t].cells@, t + 18),
        forall|t: int, k: int| 0 <= t < 9 && 0 <= k < 9 ==> #[trigger] r@[t].cells@[k] == unit_member(t + 18, k),
{
    let mut squares: Vec<Square> = Vec::new();
    let mut k: usize = 0;
    while k < 9
        invariant
            k <= 9,
            squares@.len() == k,
            forall|t: int| 0 <= t < k ==> lists_unit(#[trigger] squares@[t].cells@, t + 18),
            forall|t: int, m: int| 0 <= t < k && 0 <= m < 9 ==> #[trigger] squares@[t].cells@[m] == unit_member(t + 18, m),
        decreases 9 - k,
    {
        squares.push(Square { cells: box_cells(k) });
        k = k + 1;
    }
    squares
}

} // verus!
