//! The propagation engine: unit reduction, collapse of single candidates, and the passes
//! that repeat them until the board is solved, stalls, or shows a contradiction.
use vstd::prelude::*;

use crate::board::{
    board_wf, consistent, get_solved_cells, lemma_num_fixed_bound, lemma_num_fixed_same,
    lemma_num_fixed_update, lemma_sound, num_fixed, reduced, solved, stable, all_fixed, unit_holds,
    Board,
};
use crate::grid::{
    compute_neighbours, create_lines, create_squares, in_unit, is_peer, lemma_peer_unit, lists_unit,
    row_of, Line, NeighbourIndex, Square,
};
use crate::cell::{all_digits, is_digit, remove_if_contains, Cell};

verus! {

/// The values determined somewhere in the listed squares.
pub open spec fn unit_values(cs: Seq<Cell>, u: Seq<usize>) -> Set<u8> {
    Set::new(|v: u8| exists|k: int| 0 <= k < u.len() && cs[u[k] as int].fixed() == Some(v))
}

/// Two of the listed squares are determined to the same value.
pub open spec fn unit_clash(cs: Seq<Cell>, u: Seq<usize>) -> bool {
    exists|a: int, b: int|
        0 <= a < u.len() && 0 <= b < u.len() && a != b && cs[u[a] as int].fixed().is_some()
            && #[trigger] cs[u[a] as int].fixed() == #[trigger] cs[u[b] as int].fixed()
}

/// `u` lists distinct squares of the board.
pub open spec fn unit_ok(u: Seq<usize>) -> bool {
    u.no_duplicates() && forall|k: int| 0 <= k < u.len() ==> #[trigger] u[k] < 81
}

proof fn lemma_push_contains<A>(s: Seq<A>, x: A, y: A)
    ensures
        s.push(x).contains(y) <==> s.contains(y) || y == x,
{
    if s.push(x).contains(y) {
        let j = choose|j: int| 0 <= j < s.len() + 1 && s.push(x)[j] == y;
        if j < s.len() {
            assert(s[j] == y);
        }
    }
    if s.contains(y) {
        let j = choose|j: int| 0 <= j < s.len() && s[j] == y;
        assert(s.push(x)[j] == y);
    }
    if y == x {
        assert(s.push(x)[s.len() as int] == y);
    }
}

/// Whether `x` occurs in `v`.
fn occurs(v: &Vec<u8>, x: u8) -> (r: bool)
    ensures
        r == v@.contains(x),
{
    let mut k: usize = 0;
    while k < v.len()
        invariant
            k <= v@.len(),
            forall|j: int| 0 <= j < k ==> v@[j] != x,
        decreases v@.len() - k,
    {
        if v[k] == x {
            return true;
        }
        k = k + 1;
    }
    false
}

/// The members of `vs` that are not in `gone`, in their order.
fn without(vs: &Vec<u8>, gone: &Vec<u8>) -> (r: Vec<u8>)
    requires
        vs@.no_duplicates(),
    ensures
        r@.no_duplicates(),
        r@.len() <= vs@.len(),
        forall|x: u8| r@.contains(x) <==> vs@.contains(x) && !gone@.contains(x),
        r@.len() == vs@.len() ==> r@ == vs@,
        (forall|x: u8| vs@.contains(x) ==> !gone@.contains(x)) ==> r@ == vs@,
{
    let mut r: Vec<u8> = Vec::new();
    let mut k: usize = 0;
    while k < vs.len()
        invariant
            vs@.no_duplicates(),
            k <= vs@.len(),
            r@.len() <= k,
            r@.no_duplicates(),
            forall|x: u8| r@.contains(x) <==> vs@.take(k as int).contains(x) && !gone@.contains(x),
            r@.len() == k ==> r@ == vs@.take(k as int),
            (forall|j: int| 0 <= j < k ==> !gone@.contains(#[trigger] vs@[j])) ==> r@ == vs@.take(
                k as int,
            ),
        decreases vs@.len() - k,
    {
        let x = vs[k];
        let ghost r0 = r@;
        assert(vs@.take(k + 1) =~= vs@.take(k as int).push(x));
        assert(!vs@.take(k as int).contains(x)) by {
            if vs@.take(k as int).contains(x) {
                let j = choose|j: int| 0 <= j < k && vs@.take(k as int)[j] == x;
                assert(vs@[j] == vs@[k as int]);
            }
        }
        if !occurs(gone, x) {
            r.push(x);
            proof {
                assert forall|y: u8| r@.contains(y) <==> vs@.take(k + 1).contains(y)
                    && !gone@.contains(y) by {
                    lemma_push_contains(r0, x, y);
                    lemma_push_contains(vs@.take(k as int), x, y);
                }
            }
        } else {
            proof {
                assert forall|y: u8| r@.contains(y) <==> vs@.take(k + 1).contains(y)
                    && !gone@.contains(y) by {
                    lemma_push_contains(vs@.take(k as int), x, y);
                }
            }
        }
        k = k + 1;
    }
    assert(vs@.take(vs@.len() as int) =~= vs@);
    proof {
        if forall|x: u8| vs@.contains(x) ==> !gone@.contains(x) {
            assert forall|j: int| 0 <= j < vs@.len() implies !gone@.contains(#[trigger] vs@[j]) by {
                assert(vs@.contains(vs@[j]));
            }
        }
    }
    r
}

/// Removes the values determined in the listed squares from the candidates of the open ones
/// among them. Returns false, leaving the board as it was, where two of the squares are
/// determined to the same value; else returns whether every open square of them still has a
/// candidate.
pub fn reduce_unit(board: &mut Board, u: &Vec<usize>) -> (ok: bool)
    requires
        board_wf(old(board).cells@),
        unit_ok(u@),
    ensures
        board_wf(final(board).cells@),
        unit_clash(old(board).cells@, u@) ==> !ok && final(board).cells@ == old(board).cells@,
        !unit_clash(old(board).cells@, u@) ==> {
            let d = unit_values(old(board).cells@, u@);
            &&& forall|i: int|
                0 <= i < 81 ==> {
                    let (a, b) = (#[trigger] old(board).cells@[i], final(board).cells@[i]);
                    &&& b.refines(a)
                    &&& b.fixed() == a.fixed()
                    &&& (u@.contains(i as usize) ==> b.candidates() == a.candidates().difference(
                        d,
                    ))
                    &&& (!u@.contains(i as usize) || a.candidates().disjoint(d)) ==> b == a
                }
            &&& ok == forall|k: int|
                0 <= k < u@.len() ==> #[trigger] final(board).cells@[u@[k] as int].fixed().is_some()
                    || final(board).cells@[u@[k] as int].width() > 0
        },
{
    let ghost cs0 = board.cells@;
    let mut seen: Vec<u8> = Vec::new();
    let mut k: usize = 0;
    while k < u.len()
        invariant
            board.cells@ == cs0,
            board_wf(cs0),
            unit_ok(u@),
            k <= u@.len(),
            forall|m: int|
                0 <= m < seen@.len() ==> exists|a: int|
                    0 <= a < k && cs0[u@[a] as int].fixed() == Some(#[trigger] seen@[m]),
            forall|a: int|
                0 <= a < k && #[trigger] cs0[u@[a] as int].fixed().is_some() ==> seen@.contains(
                    cs0[u@[a] as int].fixed().unwrap(),
                ),
            forall|a: int, b: int|
                0 <= a < k && 0 <= b < k && a != b && cs0[u@[a] as int].fixed().is_some()
                    ==> #[trigger] cs0[u@[a] as int].fixed() != #[trigger] cs0[u@[b] as int].fixed(),
        decreases u@.len() - k,
    {
        let i = u[k];
        assert(u@[k as int] < 81);
        if let Some(v) = board.cells[i].value() {
            if occurs(&seen, v) {
                proof {
                    let m = choose|m: int| 0 <= m < seen@.len() && seen@[m] == v;
                    let a = choose|a: int|
                        0 <= a < k && cs0[u@[a] as int].fixed() == Some(#[trigger] seen@[m]);
                    assert(cs0[u@[a] as int].fixed() == cs0[u@[k as int] as int].fixed());
                }
                return false;
            }
            let ghost s0 = seen@;
            seen.push(v);
            proof {
                assert forall|a: int|
                    0 <= a <= k && #[trigger] cs0[u@[a] as int].fixed().is_some() implies seen@.contains(
                    cs0[u@[a] as int].fixed().unwrap(),
                ) by {
                    lemma_push_contains(s0, v, cs0[u@[a] as int].fixed().unwrap());
                }
                assert forall|m: int| 0 <= m < seen@.len() implies exists|a: int|
                    0 <= a < k + 1 && cs0[u@[a] as int].fixed() == Some(#[trigger] seen@[m]) by {
                    if m < s0.len() {
                        assert(seen@[m] == s0[m]);
                    } else {
                        assert(cs0[u@[k as int] as int].fixed() == Some(seen@[m]));
                    }
                }
            }
        }
        k = k + 1;
    }
    assert(!unit_clash(cs0, u@));
    let ghost d = unit_values(cs0, u@);
    assert(seen@.to_set() =~= d) by {
        assert forall|v: u8| d.contains(v) implies seen@.contains(v) by {
            let a = choose|a: int| 0 <= a < u@.len() && cs0[u@[a] as int].fixed() == Some(v);
            assert(cs0[u@[a] as int].fixed().is_some());
        }
        assert forall|v: u8| seen@.contains(v) implies d.contains(v) by {
            let m = choose|m: int| 0 <= m < seen@.len() && seen@[m] == v;
        }
    }
    let mut ok = true;
    k = 0;
    while k < u.len()
        invariant
            board_wf(board.cells@),
            board_wf(cs0),
            unit_ok(u@),
            k <= u@.len(),
            seen@.to_set() == d,
            d == unit_values(cs0, u@),
            forall|i: int|
                0 <= i < 81 ==> {
                    let (a, b) = (#[trigger] cs0[i], board.cells@[i]);
                    &&& b.refines(a)
                    &&& b.fixed() == a.fixed()
                    &&& (u@.take(k as int).contains(i as usize) ==> b.candidates()
                        == a.candidates().difference(d))
                    &&& (!u@.take(k as int).contains(i as usize) || a.candidates().disjoint(d))
                        ==> b == a
                },
            ok == forall|m: int|
                0 <= m < k ==> #[trigger] board.cells@[u@[m] as int].fixed().is_some()
                    || board.cells@[u@[m] as int].width() > 0,
        decreases u@.len() - k,
    {
        let i = u[k];
        assert(u@[k as int] < 81);
        assert(u@.take(k + 1) =~= u@.take(k as int).push(i));
        assert(!u@.take(k as int).contains(i)) by {
            if u@.take(k as int).contains(i) {
                let m = choose|m: int| 0 <= m < k && u@.take(k as int)[m] == i;
                assert(u@[m] == u@[k as int]);
            }
        }
        let ghost before = board.cells@;
        let ghost ok0 = ok;
        if let Cell::Undetermined(vs) = &board.cells[i] {
            let ws = without(vs, &seen);
            assert(ws@.to_set() =~= vs@.to_set().difference(d));
            if ws.len() == 0 {
                ok = false;
            }
            if ws.len() < vs.len() {
                proof {
                    assert(before[i as int].wf());
                    assert forall|j: int| 0 <= j < ws@.len() implies is_digit(#[trigger] ws@[j]) by {
                        assert(ws@.contains(ws@[j]));
                        let a = choose|a: int| 0 <= a < vs@.len() && vs@[a] == ws@[j];
                    }
                    if vs@.to_set().disjoint(d) {
                        assert forall|x: u8| vs@.contains(x) implies !seen@.contains(x) by {
                            assert(vs@.to_set().contains(x));
                            assert(!d.contains(x));
                            assert(!seen@.to_set().contains(x));
                        }
                    }
                }
                board.cells.set(i, Cell::Undetermined(ws));
            } else {
                assert(vs@.to_set().disjoint(d)) by {
                    assert(ws@ == vs@);
                }
            }
        }
        proof {
            assert forall|m: int| 0 <= m < k implies #[trigger] u@[m] != i by {
                assert(u@.take(k as int)[m] == u@[m]);
            }
            assert forall|m: int| 0 <= m < k implies #[trigger] board.cells@[u@[m] as int]
                == before[u@[m] as int] by {}
            assert forall|j: int|
                0 <= j < 81 implies (#[trigger] u@.take(k + 1).contains(j as usize) <==> u@.take(
                k as int,
            ).contains(j as usize) || j == i) by {
                lemma_push_contains(u@.take(k as int), i, j as usize);
            }
            assert(ok == (ok0 && (board.cells@[i as int].fixed().is_some()
                || board.cells@[i as int].width() > 0)));
            if ok {
                assert forall|m: int| 0 <= m < k + 1 implies #[trigger] board.cells@[u@[
                    m
                ] as int].fixed().is_some() || board.cells@[u@[m] as int].width() > 0 by {
                    if m < k {
                        assert(board.cells@[u@[m] as int] == before[u@[m] as int]);
                    }
                }
            } else if !ok0 {
                let m = choose|m: int|
                    0 <= m < k && !(#[trigger] before[u@[m] as int].fixed().is_some()
                        || before[u@[m] as int].width() > 0);
                assert(board.cells@[u@[m] as int] == before[u@[m] as int]);
            }
        }
        k = k + 1;
    }
    assert(u@.take(u@.len() as int) =~= u@);
    ok
}

/// What the collapse sweep makes of a cell: its single candidate, if it has only one.
pub open spec fn collapsed(c: Cell) -> Cell {
    match c.single() {
        Some(v) => Cell::Determined(v),
        None => c,
    }
}

proof fn lemma_collapsed_refines(c: Cell)
    requires
        c.wf(),
    ensures
        collapsed(c).refines(c),
        c.refines(c),
{
    if let Some(v) = c.single() {
        let vs = c->Undetermined_0;
        assert(vs@.contains(vs@[0]));
    }
}

/// An open cell is down to a value that a neighbour is determined to, or is down to as well.
pub open spec fn single_clash(cs: Seq<Cell>) -> bool {
    exists|i: int, j: int|
        #[trigger] is_peer(i, j) && cs[i].single().is_some() && (cs[j].fixed() == cs[i].single()
            || cs[j].single() == cs[i].single())
}

/// Commits every open cell that is down to one candidate, square by square, after checking
/// that no neighbour is already determined to that value. Returns how many cells it
/// committed, or `None` where two neighbours would hold the same value.
pub fn collapse_all(board: &mut Board, nb: &NeighbourIndex) -> (r: Option<usize>)
    requires
        board_wf(old(board).cells@),
        nb.wf(),
    ensures
        board_wf(final(board).cells@),
        forall|i: int| 0 <= i < 81 ==> (#[trigger] final(board).cells@[i]).refines(old(board).cells@[i]),
        r is None <==> single_clash(old(board).cells@),
        r matches Some(n) ==> num_fixed(final(board).cells@) == num_fixed(old(board).cells@) + n
            && (n == 0 <==> forall|i: int|
            0 <= i < 81 ==> (#[trigger] old(board).cells@[i]).single().is_none()) && forall|i: int|
            0 <= i < 81 ==> #[trigger] final(board).cells@[i] == collapsed(old(board).cells@[i]),
{
    let ghost cs0 = board.cells@;
    let mut n: usize = 0;
    let mut k: usize = 0;
    while k < 81
        invariant
            nb.wf(),
            cs0 == old(board).cells@,
            board_wf(cs0),
            board_wf(board.cells@),
            k <= 81,
            n <= k,
            num_fixed(board.cells@) == num_fixed(cs0) + n,
            n == 0 <==> forall|m: int| 0 <= m < k ==> (#[trigger] cs0[m]).single().is_none(),
            forall|m: int|
                0 <= m < 81 ==> #[trigger] board.cells@[m] == if m < k {
                    collapsed(cs0[m])
                } else {
                    cs0[m]
                },
            forall|p: int, q: int|
                #[trigger] is_peer(p, q) && p < k && cs0[p].single().is_some() ==> cs0[q].fixed()
                    != cs0[p].single() && (q < p ==> cs0[q].single() != cs0[p].single()),
        decreases 81 - k,
    {
        if let Some(v) = board.cells[k].single_value() {
            let peers = nb.neighbours_of(k);
            let mut j: usize = 0;
            while j < 20
                invariant
                    nb.wf(),
                    cs0 == old(board).cells@,
                    board_wf(cs0),
                    board_wf(board.cells@),
                    k < 81,
                    j <= 20,
                    cs0[k as int].single() == Some(v),
                    forall|m: int|
                        0 <= m < 81 ==> #[trigger] board.cells@[m] == if m < k {
                            collapsed(cs0[m])
                        } else {
                            cs0[m]
                        },
                    peers@.len() == 20,
                    forall|t: int| 0 <= t < 20 ==> is_peer(k as int, #[trigger] peers@[t] as int),
                    forall|t: int|
                        0 <= t < j ==> #[trigger] board.cells@[peers@[t] as int].fixed() != Some(v),
                decreases 20 - j,
            {
                let q = peers[j];
                assert(is_peer(k as int, peers@[j as int] as int));
                if board.cells[q].value() == Some(v) {
                    proof {
                        assert(is_peer(k as int, q as int));
                        assert(board.cells@[q as int].fixed() == Some(v));
                        assert forall|i: int| 0 <= i < 81 implies (#[trigger] board.cells@[
                            i
                        ]).refines(cs0[i]) by {
                            lemma_collapsed_refines(cs0[i]);
                        }
                    }
                    return None;
                }
                j = j + 1;
            }
            proof {
                assert forall|q: int| #[trigger] is_peer(k as int, q) implies cs0[q].fixed()
                    != cs0[k as int].single() && (q < k ==> cs0[q].single()
                    != cs0[k as int].single()) by {
                    let t = choose|t: int| 0 <= t < 20 && peers@[t] == q as usize;
                    assert(board.cells@[peers@[t] as int].fixed() != Some(v));
                }
                lemma_num_fixed_update(board.cells@, k as int, Cell::Determined(v));
                let vs = cs0[k as int]->Undetermined_0;
                assert(vs@.contains(vs@[0]));
            }
            board.cells.set(k, Cell::Determined(v));
            n = n + 1;
        }
        k = k + 1;
    }
    proof {
        if single_clash(cs0) {
            let (i, j) = choose|i: int, j: int|
                #[trigger] is_peer(i, j) && cs0[i].single().is_some() && (cs0[j].fixed()
                    == cs0[i].single() || cs0[j].single() == cs0[i].single());
            assert(is_peer(j, i));
        }
        assert forall|i: int| 0 <= i < 81 implies (#[trigger] board.cells@[i]).refines(cs0[i]) by {
            lemma_collapsed_refines(cs0[i]);
        }
    }
    Some(n)
}

/// Where a run of passes stands.
#[derive(Debug, Clone, Copy, PartialEq, Eq, Structural)]
pub enum EngineState {
    /// The last pass determined at least one cell; another pass is due.
    Running,
    /// The last pass determined nothing and open cells remain: propagation alone can go no
    /// further.
    Stalled,
    /// Every cell is determined, and every unit holds each digit once.
    Solved,
    /// Two neighbours share a value, or an open cell has no candidate left.
    Contradiction,
}

/// What one unit reduction leaves behind on unit `t`: no two of its squares are determined
/// alike, no open square lists the value of a determined one, and every open square keeps a
/// candidate.
pub open spec fn unit_done(cs: Seq<Cell>, t: int) -> bool {
    &&& forall|i: int, j: int|
        #[trigger] in_unit(t, i) && #[trigger] in_unit(t, j) && i != j && cs[j].fixed().is_some()
            ==> cs[i].fixed() != cs[j].fixed() && !cs[i].candidates().contains(
            cs[j].fixed().unwrap(),
        )
    &&& forall|i: int| #[trigger] in_unit(t, i) && cs[i].fixed().is_none() ==> cs[i].width() > 0
}

/// `b` is `a` with some candidates dropped from open cells, and every open cell that changed
/// lies in unit `t` and keeps a candidate.
pub open spec fn narrowed_in(a: Seq<Cell>, b: Seq<Cell>, t: int) -> bool {
    forall|i: int|
        0 <= i < 81 ==> {
            &&& (#[trigger] b[i]).fixed() == a[i].fixed()
            &&& b[i].candidates().subset_of(a[i].candidates())
            &&& (b[i] == a[i] || (in_unit(t, i) && (b[i].fixed().is_some() || b[i].width() > 0)))
        }
}

proof fn lemma_unit_done_kept(a: Seq<Cell>, b: Seq<Cell>, t: int, s: int)
    requires
        unit_done(a, s),
        narrowed_in(a, b, t),
    ensures
        unit_done(b, s),
{
    assert forall|i: int| #[trigger] in_unit(s, i) && b[i].fixed().is_none() implies b[i].width()
        > 0 by {
        assert(b[i] == a[i] || in_unit(t, i));
    }
}

proof fn lemma_unit_done_new(a: Seq<Cell>, b: Seq<Cell>, u: Seq<usize>, t: int)
    requires
        board_wf(a),
        board_wf(b),
        lists_unit(u, t),
        !unit_clash(a, u),
        forall|i: int|
            0 <= i < 81 ==> {
                let (x, y) = (#[trigger] a[i], b[i]);
                &&& y.fixed() == x.fixed()
                &&& (u.contains(i as usize) ==> y.candidates() == x.candidates().difference(
                    unit_values(a, u),
                ))
            },
        forall|k: int|
            0 <= k < u.len() ==> #[trigger] b[u[k] as int].fixed().is_some() || b[u[k] as int].width()
                > 0,
    ensures
        unit_done(b, t),
{
    assert forall|i: int, j: int|
        #[trigger] in_unit(t, i) && #[trigger] in_unit(t, j) && i != j && b[j].fixed().is_some()
            implies b[i].fixed() != b[j].fixed() && !b[i].candidates().contains(
        b[j].fixed().unwrap(),
    ) by {
        let ki = choose|k: int| 0 <= k < u.len() && u[k] == i as usize;
        let kj = choose|k: int| 0 <= k < u.len() && u[k] == j as usize;
        assert(a[j] == a[u[kj] as int]);
        assert(a[i] == a[u[ki] as int]);
        assert(a[u[ki] as int].fixed() != a[u[kj] as int].fixed() || a[i].fixed().is_none());
        assert(unit_values(a, u).contains(a[j].fixed().unwrap()));
    }
    assert forall|i: int| #[trigger] in_unit(t, i) && b[i].fixed().is_none() implies b[i].width()
        > 0 by {
        let ki = choose|k: int| 0 <= k < u.len() && u[k] == i as usize;
        assert(b[u[ki] as int].fixed().is_some() || b[u[ki] as int].width() > 0);
    }
}

/// Knowledge only grows: refining is transitive.
proof fn lemma_refines_trans(a: Cell, b: Cell, c: Cell)
    requires
        b.refines(a),
        c.refines(b),
    ensures
        c.refines(a),
{
    if let Cell::Undetermined(vs) = a {
        if let Cell::Undetermined(ws) = b {
            if let Cell::Determined(w) = c {
                assert(ws@.to_set().contains(w));
                assert(vs@.to_set().contains(w));
            }
        }
    }
}

/// Every cell counted as determined means every cell is determined.
proof fn lemma_num_fixed_full(cs: Seq<Cell>)
    requires
        num_fixed(cs) == cs.len(),
    ensures
        forall|i: int| 0 <= i < cs.len() ==> (#[trigger] cs[i]).fixed().is_some(),
    decreases cs.len(),
{
    if cs.len() > 0 {
        lemma_num_fixed_bound(cs.drop_last());
        lemma_num_fixed_full(cs.drop_last());
        assert forall|i: int| 0 <= i < cs.len() implies (#[trigger] cs[i]).fixed().is_some() by {
            if i < cs.len() - 1 {
                assert(cs.drop_last()[i] == cs[i]);
            }
        }
    }
}

/// What one pass that meets no contradiction makes of square `i`: a cell forced to a value
/// is determined to it; a determined cell stays as it was; any other open cell loses exactly
/// the values of its determined neighbours.
pub open spec fn pass_result(before: Seq<Cell>, after: Seq<Cell>, i: int) -> bool {
    match after[i].fixed() {
        Some(v) => after[i] == before[i] || forces(before, i, v),
        None => before[i].fixed().is_none() && after[i].candidates() == before[i].candidates().difference(
            peer_values(before, i),
        ) && forall|v: u8| !forces(before, i, v),
    }
}

/// No open cell is forced to a value.
pub open spec fn none_forced(cs: Seq<Cell>) -> bool {
    forall|i: int, v: u8| 0 <= i < 81 ==> !#[trigger] forces(cs, i, v)
}

/// Every cell determined means every cell counted.
proof fn lemma_num_fixed_all(cs: Seq<Cell>)
    requires
        forall|i: int| 0 <= i < cs.len() ==> (#[trigger] cs[i]).fixed().is_some(),
    ensures
        num_fixed(cs) == cs.len(),
    decreases cs.len(),
{
    if cs.len() > 0 {
        assert forall|i: int| 0 <= i < cs.drop_last().len() implies (#[trigger] cs.drop_last()[i]).fixed().is_some() by {
            assert(cs.drop_last()[i] == cs[i]);
        }
        lemma_num_fixed_all(cs.drop_last());
    }
}

/// What one pass does to a board `before`, ending in `after` with state `st`.
pub open spec fn pass_spec(before: Seq<Cell>, after: Seq<Cell>, st: EngineState) -> bool {
    &&& board_wf(after)
    &&& forall|i: int| 0 <= i < 81 ==> (#[trigger] after[i]).refines(before[i])
    &&& (st == EngineState::Contradiction <==> !consistent(before) || starved(before)
        || forced_clash(before))
    &&& (st != EngineState::Contradiction ==> forall|i: int|
        0 <= i < 81 ==> #[trigger] pass_result(before, after, i))
    &&& (st == EngineState::Solved <==> st != EngineState::Contradiction && all_fixed(after))
    &&& (st == EngineState::Stalled <==> st != EngineState::Contradiction && !all_fixed(after)
        && none_forced(before))
    &&& (st == EngineState::Solved ==> solved(after))
    &&& (st == EngineState::Solved || st == EngineState::Stalled ==> stable(after))
    &&& (stable(before) ==> after == before && (st == EngineState::Solved || st
        == EngineState::Stalled))
    &&& (st == EngineState::Running ==> num_fixed(after) > num_fixed(before))
}

/// `trace` is the boards a run went through, from `init` to `fin`: every pass but the last
/// ended `Running`, and the last ended in `st`.
pub open spec fn run_trace(trace: Seq<Seq<Cell>>, init: Seq<Cell>, fin: Seq<Cell>, st: EngineState) -> bool {
    &&& trace.len() >= 2
    &&& trace[0] == init
    &&& trace.last() == fin
    &&& forall|k: int|
        0 <= k < trace.len() - 2 ==> #[trigger] pass_spec(trace[k], trace[k + 1], EngineState::Running)
    &&& pass_spec(trace[trace.len() - 2], trace.last(), st)
}

/// Running passes from `init` until one ends other than `Running` can end in `fin` with
/// state `st`.
pub open spec fn run_spec(init: Seq<Cell>, fin: Seq<Cell>, st: EngineState) -> bool {
    exists|trace: Seq<Seq<Cell>>| #[trigger] run_trace(trace, init, fin, st)
}

/// The rows, columns and boxes of the grid and the neighbours of every square.
pub struct Engine {
    pub rows: Vec<Line>,
    pub cols: Vec<Line>,
    pub squares: Vec<Square>,
    pub neighbours: NeighbourIndex,
}

impl Line {
    /// Reduces this row or column of the board (see `reduce_unit`).
    pub fn solve(&self, board: &mut Board) -> (ok: bool)
        requires
            board_wf(old(board).cells@),
            unit_ok(self.cells@),
        ensures
            board_wf(final(board).cells@),
            unit_clash(old(board).cells@, self.cells@) ==> !ok && final(board).cells@ == old(
                board,
            ).cells@,
            !unit_clash(old(board).cells@, self.cells@) ==> {
                let d = unit_values(old(board).cells@, self.cells@);
                &&& forall|i: int|
                    0 <= i < 81 ==> {
                        let (a, b) = (#[trigger] old(board).cells@[i], final(board).cells@[i]);
                        &&& b.refines(a)
                        &&& b.fixed() == a.fixed()
                        &&& (self.cells@.contains(i as usize) ==> b.candidates()
                            == a.candidates().difference(d))
                        &&& (!self.cells@.contains(i as usize) || a.candidates().disjoint(d))
                            ==> b == a
                    }
                &&& ok == forall|k: int|
                    0 <= k < self.cells@.len() ==> #[trigger] final(board).cells@[self.cells@[
                        k
                    ] as int].fixed().is_some() || final(board).cells@[self.cells@[
                        k
                    ] as int].width() > 0
            },
    {
        reduce_unit(board, &self.cells)
    }
}

impl Square {
    /// Reduces this box of the board (see `reduce_unit`).
    pub fn solve(&self, board: &mut Board) -> (ok: bool)
        requires
            board_wf(old(board).cells@),
            unit_ok(self.cells@),
        ensures
            board_wf(final(board).cells@),
            unit_clash(old(board).cells@, self.cells@) ==> !ok && final(board).cells@ == old(
                board,
            ).cells@,
            !unit_clash(old(board).cells@, self.cells@) ==> {
                let d = unit_values(old(board).cells@, self.cells@);
                &&& forall|i: int|
                    0 <= i < 81 ==> {
                        let (a, b) = (#[trigger] old(board).cells@[i], final(board).cells@[i]);
                        &&& b.refines(a)
                        &&& b.fixed() == a.fixed()
                        &&& (self.cells@.contains(i as usize) ==> b.candidates()
                            == a.candidates().difference(d))
                        &&& (!self.cells@.contains(i as usize) || a.candidates().disjoint(d))
                            ==> b == a
                    }
                &&& ok == forall|k: int|
                    0 <= k < self.cells@.len() ==> #[trigger] final(board).cells@[self.cells@[
                        k
                    ] as int].fixed().is_some() || final(board).cells@[self.cells@[
                        k
                    ] as int].width() > 0
            },
    {
        reduce_unit(board, &self.cells)
    }
}

/// The values that determined cells sharing one of the units `0..t` with square `i` hold.
pub open spec fn seen_values(cs: Seq<Cell>, i: int, t: int) -> Set<u8> {
    Set::new(
        |v: u8|
            exists|s: int, j: int|
                0 <= s < t && #[trigger] in_unit(s, i) && #[trigger] in_unit(s, j) && cs[j].fixed()
                    == Some(v),
    )
}

/// The values held by the determined neighbours of square `i`.
pub open spec fn peer_values(cs: Seq<Cell>, i: int) -> Set<u8> {
    Set::new(|v: u8| exists|j: int| #[trigger] is_peer(i, j) && cs[j].fixed() == Some(v))
}

/// Some open cell has no candidate that a determined neighbour does not already hold.
pub open spec fn starved(cs: Seq<Cell>) -> bool {
    exists|i: int|
        0 <= i < 81 && (#[trigger] cs[i]).fixed().is_none() && cs[i].candidates().subset_of(
            peer_values(cs, i),
        )
}

/// Open cell `i` has exactly one candidate, `v`, that no determined neighbour holds.
pub open spec fn forces(cs: Seq<Cell>, i: int, v: u8) -> bool {
    cs[i].fixed().is_none() && cs[i].candidates().difference(peer_values(cs, i)) == set![v]
}

/// A cell is forced to a value that a neighbour holds, or is forced to as well.
pub open spec fn forced_clash(cs: Seq<Cell>) -> bool {
    exists|i: int, j: int, v: u8|
        #[trigger] is_peer(i, j) && #[trigger] forces(cs, i, v) && (cs[j].fixed() == Some(v)
            || forces(cs, j, v))
}

/// The state the reduction of units `0..t` has reached, starting from `cs0`.
pub open spec fn reduction_state(cs0: Seq<Cell>, cs: Seq<Cell>, t: int) -> bool {
    &&& board_wf(cs)
    &&& forall|i: int|
        0 <= i < 81 ==> (#[trigger] cs[i]).refines(cs0[i]) && cs[i].fixed() == cs0[i].fixed()
            && cs[i].candidates().subset_of(cs0[i].candidates())
    &&& forall|s: int| 0 <= s < t ==> #[trigger] unit_done(cs, s)
    &&& forall|i: int|
        0 <= i < 81 ==> (#[trigger] cs[i]).candidates() == cs0[i].candidates().difference(
            seen_values(cs0, i, t),
        )
    &&& stable(cs0) ==> cs == cs0
}

proof fn lemma_empty_width(c: Cell)
    requires
        c.fixed().is_none(),
    ensures
        c.width() == 0 <==> c.candidates() == Set::<u8>::empty(),
{
    let vs = c->Undetermined_0;
    if vs@.len() == 0 {
        assert(vs@.to_set() =~= Set::<u8>::empty());
    } else {
        assert(vs@.to_set().contains(vs@[0]));
    }
}

/// The values seen in a unit are those of neighbours, for an open cell.
proof fn lemma_seen_peers(cs0: Seq<Cell>, i: int, t: int)
    requires
        0 <= i < 81,
        cs0[i].fixed().is_none(),
        0 <= t <= 27,
    ensures
        seen_values(cs0, i, t).subset_of(peer_values(cs0, i)),
        t == 27 ==> seen_values(cs0, i, t) == peer_values(cs0, i),
{
    assert forall|v: u8| seen_values(cs0, i, t).contains(v) implies peer_values(cs0, i).contains(v) by {
        let (s, j) = choose|s: int, j: int|
            0 <= s < t && #[trigger] in_unit(s, i) && #[trigger] in_unit(s, j) && cs0[j].fixed()
                == Some(v);
        lemma_peer_unit(i, j);
        assert(is_peer(i, j));
    }
    if t == 27 {
        assert forall|v: u8| peer_values(cs0, i).contains(v) implies seen_values(cs0, i, t).contains(v) by {
            let j = choose|j: int| #[trigger] is_peer(i, j) && cs0[j].fixed() == Some(v);
            lemma_peer_unit(i, j);
            let s = choose|s: int| 0 <= s < 27 && in_unit(s, i) && in_unit(s, j);
        }
        assert(seen_values(cs0, i, t) =~= peer_values(cs0, i));
    }
}

/// One unit reduction inside a pass: on success, the state moves from units `0..t` to
/// units `0..t + 1`.
proof fn lemma_reduction_step(cs0: Seq<Cell>, a: Seq<Cell>, b: Seq<Cell>, u: Seq<usize>, t: int, ok: bool)
    requires
        board_wf(cs0),
        0 <= t < 27,
        lists_unit(u, t),
        reduction_state(cs0, a, t),
        board_wf(b),
        unit_clash(a, u) ==> !ok && b == a,
        !unit_clash(a, u) ==> {
            let d = unit_values(a, u);
            &&& forall|i: int|
                0 <= i < 81 ==> {
                    let (x, y) = (#[trigger] a[i], b[i]);
                    &&& y.refines(x)
                    &&& y.fixed() == x.fixed()
                    &&& (u.contains(i as usize) ==> y.candidates() == x.candidates().difference(d))
                    &&& (!u.contains(i as usize) || x.candidates().disjoint(d)) ==> y == x
                }
            &&& ok == forall|k: int|
                0 <= k < u.len() ==> #[trigger] b[u[k] as int].fixed().is_some() || b[u[k] as int].width() > 0
        },
    ensures
        ok ==> reduction_state(cs0, b, t + 1),
        stable(cs0) ==> ok,
        !ok ==> !consistent(cs0) || starved(cs0),
{
    let d = unit_values(a, u);
    if !unit_clash(a, u) {
        assert forall|i: int| 0 <= i < 81 implies (#[trigger] b[i]).candidates() == cs0[i].candidates().difference(
            seen_values(cs0, i, t + 1),
        ) by {
            let ci = cs0[i].candidates();
            if u.contains(i as usize) {
                let k = choose|k: int| 0 <= k < u.len() && u[k] == i as usize;
                assert(in_unit(t, u[k] as int));
                assert forall|v: u8| d.contains(v) <==> exists|j: int| #[trigger] in_unit(t, j) && cs0[j].fixed() == Some(v) by {
                    if d.contains(v) {
                        let m = choose|m: int| 0 <= m < u.len() && a[u[m] as int].fixed() == Some(v);
                        assert(in_unit(t, u[m] as int));
                    }
                    if exists|j: int| #[trigger] in_unit(t, j) && cs0[j].fixed() == Some(v) {
                        let j = choose|j: int| #[trigger] in_unit(t, j) && cs0[j].fixed() == Some(v);
                        let m = choose|m: int| 0 <= m < u.len() && u[m] == j as usize;
                        assert(a[u[m] as int].fixed() == Some(v));
                    }
                }
                assert forall|v: u8| seen_values(cs0, i, t + 1).contains(v) <==> seen_values(cs0, i, t).contains(v) || d.contains(v) by {
                    if seen_values(cs0, i, t + 1).contains(v) {
                        let (s, j) = choose|s: int, j: int|
                            0 <= s < t + 1 && #[trigger] in_unit(s, i) && #[trigger] in_unit(s, j) && cs0[j].fixed()
                                == Some(v);
                        if s == t {
                            assert(in_unit(t, j));
                        }
                    }
                    if d.contains(v) {
                        let j = choose|j: int| #[trigger] in_unit(t, j) && cs0[j].fixed() == Some(v);
                        assert(in_unit(t, i) && in_unit(t, j));
                    }
                }
                assert(b[i].candidates() =~= ci.difference(seen_values(cs0, i, t + 1)));
            } else {
                assert(!in_unit(t, i));
                assert(b[i] == a[i]);
                assert(seen_values(cs0, i, t + 1) =~= seen_values(cs0, i, t)) by {
                    assert forall|v: u8| seen_values(cs0, i, t + 1).contains(v) implies seen_values(cs0, i, t).contains(v) by {
                        let (s, j) = choose|s: int, j: int|
                            0 <= s < t + 1 && #[trigger] in_unit(s, i) && #[trigger] in_unit(s, j) && cs0[j].fixed()
                                == Some(v);
                    }
                }
            }
        }
    }
    if !ok {
        if unit_clash(a, u) {
            let (x, y) = choose|x: int, y: int|
                0 <= x < u.len() && 0 <= y < u.len() && x != y && a[u[x] as int].fixed().is_some()
                    && #[trigger] a[u[x] as int].fixed() == #[trigger] a[u[y] as int].fixed();
            assert(in_unit(t, u[x] as int) && in_unit(t, u[y] as int));
            assert(is_peer(u[y] as int, u[x] as int));
            assert(cs0[u[x] as int].fixed() == a[u[x] as int].fixed());
            assert(cs0[u[y] as int].fixed() == a[u[y] as int].fixed());
        } else {
            let k = choose|k: int|
                0 <= k < u.len() && !(#[trigger] b[u[k] as int].fixed().is_some() || b[u[k] as int].width() > 0);
            let i = u[k] as int;
            assert(in_unit(t, i));
            assert(b[i].fixed() == a[i].fixed());
            assert(a[i].fixed() == cs0[i].fixed());
            lemma_empty_width(b[i]);
            lemma_seen_peers(cs0, i, t + 1);
            assert(cs0[i].candidates().subset_of(peer_values(cs0, i))) by {
                assert forall|v: u8| cs0[i].candidates().contains(v) implies peer_values(cs0, i).contains(v) by {
                    assert(!b[i].candidates().contains(v));
                }
            }
        }
    }
    if stable(cs0) {
        assert(a == cs0);
        assert(!unit_clash(a, u)) by {
            if unit_clash(a, u) {
                let (x, y) = choose|x: int, y: int|
                    0 <= x < u.len() && 0 <= y < u.len() && x != y && a[u[x] as int].fixed().is_some()
                        && #[trigger] a[u[x] as int].fixed() == #[trigger] a[u[y] as int].fixed();
                assert(in_unit(t, u[x] as int) && in_unit(t, u[y] as int));
                assert(is_peer(u[y] as int, u[x] as int));
            }
        }
        let d = unit_values(a, u);
        assert forall|i: int| 0 <= i < 81 && u.contains(i as usize) implies #[trigger] a[i].candidates().disjoint(d) by {
            assert forall|v: u8| d.contains(v) implies !a[i].candidates().contains(v) by {
                let k = choose|k: int| 0 <= k < u.len() && a[u[k] as int].fixed() == Some(v);
                let ki = choose|k: int| 0 <= k < u.len() && u[k] == i as usize;
                assert(in_unit(t, u[k] as int) && in_unit(t, u[ki] as int));
                if u[k] as int != i {
                    assert(is_peer(i, u[k] as int));
                }
            }
        }
        assert(b =~= a) by {
            assert forall|i: int| 0 <= i < 81 implies b[i] == a[i] by {
                assert(a[i] == a[i]);
            }
        }
        assert forall|k: int| 0 <= k < u.len() implies #[trigger] b[u[k] as int].fixed().is_some() || b[u[k] as int].width() > 0 by {
            assert(0 <= u[k] < 81) by { assert(in_unit(t, u[k] as int)); }
            let c = a[u[k] as int];
        }
    }
    if ok {
        assert(!unit_clash(a, u));
        assert(narrowed_in(a, b, t)) by {
            assert forall|i: int| 0 <= i < 81 implies {
                &&& (#[trigger] b[i]).fixed() == a[i].fixed()
                &&& b[i].candidates().subset_of(a[i].candidates())
                &&& (b[i] == a[i] || (in_unit(t, i) && (b[i].fixed().is_some() || b[i].width() > 0)))
            } by {
                if u.contains(i as usize) {
                    let k = choose|k: int| 0 <= k < u.len() && u[k] == i as usize;
                    assert(b[u[k] as int].fixed().is_some() || b[u[k] as int].width() > 0);
                }
            }
        }
        assert forall|s: int| 0 <= s < t implies #[trigger] unit_done(b, s) by {
            lemma_unit_done_kept(a, b, t, s);
        }
        lemma_unit_done_new(a, b, u, t);
        assert forall|i: int| 0 <= i < 81 implies (#[trigger] b[i]).refines(cs0[i]) && b[i].fixed()
            == cs0[i].fixed() && b[i].candidates().subset_of(cs0[i].candidates()) by {
            lemma_refines_trans(cs0[i], a[i], b[i]);
        }
    }
}

impl Engine {
    pub open spec fn wf(&self) -> bool {
        &&& self.rows@.len() == 9
        &&& self.cols@.len() == 9
        &&& self.squares@.len() == 9
        &&& forall|t: int| 0 <= t < 9 ==> lists_unit(#[trigger] self.rows@[t].cells@, t)
        &&& forall|t: int| 0 <= t < 9 ==> lists_unit(#[trigger] self.cols@[t].cells@, t + 9)
        &&& forall|t: int| 0 <= t < 9 ==> lists_unit(#[trigger] self.squares@[t].cells@, t + 18)
        &&& self.neighbours.wf()
    }

    /// Lays out the units and neighbourhoods once.
    pub fn new() -> (e: Engine)
        ensures
            e.wf(),
    {
        let (rows, cols) = create_lines();
        let squares = create_squares();
        let neighbours = compute_neighbours();
        Engine { rows, cols, squares, neighbours }
    }

    /// One pass: reduces all rows, then all columns, then all boxes, then collapses single
    /// candidates. Stops with `Contradiction` at the first clash or emptied cell; else
    /// reports `Solved` when all 81 cells are determined, `Stalled` when nothing collapsed,
    /// and `Running` otherwise.
    pub fn pass(&self, board: &mut Board) -> (st: EngineState)
        requires
            self.wf(),
            board_wf(old(board).cells@),
        ensures
            pass_spec(old(board).cells@, final(board).cells@, st),
    {
        let ghost cs0 = board.cells@;
        proof {
            assert forall|i: int| 0 <= i < 81 implies (#[trigger] cs0[i]).refines(cs0[i]) by {
                lemma_collapsed_refines(cs0[i]);
            }
            assert forall|i: int| 0 <= i < 81 implies (#[trigger] cs0[i]).candidates() == cs0[i].candidates().difference(
                seen_values(cs0, i, 0),
            ) by {
                assert(cs0[i].candidates() =~= cs0[i].candidates().difference(seen_values(cs0, i, 0)));
            }
        }
        let mut k: usize = 0;
        while k < 9
            invariant
                self.wf(),
                cs0 == old(board).cells@,
                board_wf(cs0),
                k <= 9,
                reduction_state(cs0, board.cells@, k as int),
            decreases 9 - k,
        {
            let ghost a = board.cells@;
            let ok = self.rows[k].solve(board);
            proof {
                lemma_unit_ok(self.rows@[k as int].cells@, k as int);
                lemma_reduction_step(cs0, a, board.cells@, self.rows@[k as int].cells@, k as int, ok);
            }
            if !ok {
                proof { lemma_refines_chain(cs0, a, board.cells@); }
                return EngineState::Contradiction;
            }
            k = k + 1;
        }
        k = 0;
        while k < 9
            invariant
                self.wf(),
                cs0 == old(board).cells@,
                board_wf(cs0),
                k <= 9,
                reduction_state(cs0, board.cells@, k + 9),
            decreases 9 - k,
        {
            let ghost a = board.cells@;
            let ok = self.cols[k].solve(board);
            proof {
                lemma_unit_ok(self.cols@[k as int].cells@, k + 9);
                lemma_reduction_step(cs0, a, board.cells@, self.cols@[k as int].cells@, k + 9, ok);
            }
            if !ok {
                proof { lemma_refines_chain(cs0, a, board.cells@); }
                return EngineState::Contradiction;
            }
            k = k + 1;
        }
        k = 0;
        while k < 9
            invariant
                self.wf(),
                cs0 == old(board).cells@,
                board_wf(cs0),
                k <= 9,
                reduction_state(cs0, board.cells@, k + 18),
            decreases 9 - k,
        {
            let ghost a = board.cells@;
            let ok = self.squares[k].solve(board);
            proof {
                lemma_unit_ok(self.squares@[k as int].cells@, k + 18);
                lemma_reduction_step(cs0, a, board.cells@, self.squares@[k as int].cells@, k + 18, ok);
            }
            if !ok {
                proof { lemma_refines_chain(cs0, a, board.cells@); }
                return EngineState::Contradiction;
            }
            k = k + 1;
        }
        let ghost red = board.cells@;
        proof {
            lemma_all_units(cs0, red);
            lemma_single_forces(cs0, red);
        }
        let r = collapse_all(board, &self.neighbours);
        proof {
            assert forall|i: int| 0 <= i < 81 implies (#[trigger] board.cells@[i]).refines(cs0[i]) by {
                lemma_refines_trans(cs0[i], red[i], board.cells@[i]);
            }
        }
        match r {
            None => EngineState::Contradiction,
            Some(n) => {
                let solved_cells = get_solved_cells(board);
                proof {
                    lemma_single_forces(cs0, red);
                    lemma_num_fixed_same(cs0, red);
                    if all_fixed(board.cells@) {
                        lemma_num_fixed_all(board.cells@);
                    }
                    if n == 0 {
                        assert forall|i: int, v: u8| 0 <= i < 81 implies !#[trigger] forces(cs0, i, v) by {
                            assert(red[i].single().is_none());
                        }
                    } else {
                        let i = choose|i: int| 0 <= i < 81 && !(#[trigger] red[i]).single().is_none();
                        let v = red[i].single().unwrap();
                        assert(forces(cs0, i, v));
                    }
                    assert forall|i: int| 0 <= i < 81 implies #[trigger] pass_result(cs0, board.cells@, i) by {
                        let c = board.cells@[i];
                        if let Some(v) = red[i].single() {
                            assert(forces(cs0, i, v));
                        } else {
                            assert(c == red[i]);
                            if red[i].fixed().is_some() {
                                assert(red[i].refines(cs0[i]));
                            } else {
                                assert forall|v: u8| !forces(cs0, i, v) by {
                                    if forces(cs0, i, v) {
                                        assert(red[i].single() == Some(v));
                                    }
                                }
                            }
                        }
                    }
                    lemma_after_collapse(red, board.cells@);
                    if n == 0 {
                        assert(board.cells@ =~= red) by {
                            assert forall|i: int| 0 <= i < 81 implies board.cells@[i] == red[i] by {
                                assert(red[i].single().is_none());
                            }
                        }
                    }
                    if stable(cs0) {
                        assert(board.cells@ =~= red) by {
                            assert forall|i: int| 0 <= i < 81 implies board.cells@[i] == red[i] by {
                                assert(red[i].fixed().is_none() ==> red[i].width() > 1);
                            }
                        }
                    }
                }
                if solved_cells == 81 {
                    proof {
                        lemma_num_fixed_full(board.cells@);
                        lemma_sound(board.cells@);
                    }
                    EngineState::Solved
                } else if n == 0 {
                    EngineState::Stalled
                } else {
                    EngineState::Running
                }
            },
        }
    }

    /// Runs passes from `board` until one ends in a state other than `Running`.
    pub fn run(&self, board: Board) -> (r: (Board, EngineState))
        requires
            self.wf(),
            board_wf(board.cells@),
        ensures
            board_wf(r.0.cells@),
            r.1 != EngineState::Running,
            forall|i: int| 0 <= i < 81 ==> (#[trigger] r.0.cells@[i]).refines(board.cells@[i]),
            !consistent(board.cells@) ==> r.1 == EngineState::Contradiction,
            r.1 == EngineState::Solved ==> solved(r.0.cells@),
            r.1 == EngineState::Solved || r.1 == EngineState::Stalled ==> stable(r.0.cells@),
            run_spec(board.cells@, r.0.cells@, r.1),
    {
        let ghost cs0 = board.cells@;
        let mut b = board;
        let ghost mut trace: Seq<Seq<Cell>> = seq![cs0];
        proof {
            assert forall|i: int| 0 <= i < 81 implies (#[trigger] cs0[i]).refines(cs0[i]) by {
                lemma_collapsed_refines(cs0[i]);
            }
        }
        loop
            invariant
                self.wf(),
                cs0 == board.cells@,
                board_wf(cs0),
                board_wf(b.cells@),
                forall|i: int| 0 <= i < 81 ==> (#[trigger] b.cells@[i]).refines(cs0[i]),
                !consistent(cs0) ==> b.cells@ == cs0,
                trace.len() >= 1,
                trace[0] == cs0,
                trace.last() == b.cells@,
                forall|k: int|
                    0 <= k < trace.len() - 1 ==> #[trigger] pass_spec(trace[k], trace[k + 1], EngineState::Running),
            decreases 81 - num_fixed(b.cells@),
        {
            let ghost before = b.cells@;
            let st = self.pass(&mut b);
            let ghost old_trace = trace;
            proof {
                trace = trace.push(b.cells@);
                assert(trace[trace.len() - 2] == before);
                assert forall|k: int|
                    0 <= k < trace.len() - 2 implies #[trigger] pass_spec(trace[k], trace[k + 1], EngineState::Running) by {
                    assert(trace[k] == old_trace[k] && trace[k + 1] == old_trace[k + 1]);
                }
                if st == EngineState::Running {
                    assert forall|k: int|
                        0 <= k < trace.len() - 1 implies #[trigger] pass_spec(trace[k], trace[k + 1], EngineState::Running) by {
                        if k < trace.len() - 2 {
                            assert(trace[k] == old_trace[k] && trace[k + 1] == old_trace[k + 1]);
                        }
                    }
                } else {
                    assert(run_trace(trace, cs0, b.cells@, st));
                }
                lemma_num_fixed_bound(b.cells@);
                assert forall|i: int| 0 <= i < 81 implies (#[trigger] b.cells@[i]).refines(cs0[i]) by {
                    lemma_refines_trans(cs0[i], before[i], b.cells@[i]);
                }
            }
            if st != EngineState::Running {
                return (b, st);
            }
        }
    }
}

/// Runs passes on `board` until it is solved, stalls, or shows a contradiction, and hands
/// back the board as it then stands with that state.
pub fn run(board: Board) -> (r: (Board, EngineState))
    requires
        board_wf(board.cells@),
    ensures
        board_wf(r.0.cells@),
        r.1 != EngineState::Running,
        forall|i: int| 0 <= i < 81 ==> (#[trigger] r.0.cells@[i]).refines(board.cells@[i]),
        !consistent(board.cells@) ==> r.1 == EngineState::Contradiction,
        r.1 == EngineState::Solved ==> solved(r.0.cells@),
        r.1 == EngineState::Solved || r.1 == EngineState::Stalled ==> stable(r.0.cells@),
        run_spec(board.cells@, r.0.cells@, r.1),
{
    let engine = Engine::new();
    engine.run(board)
}

proof fn lemma_unit_ok(u: Seq<usize>, t: int)
    requires
        lists_unit(u, t),
    ensures
        unit_ok(u),
{
    assert forall|k: int| 0 <= k < u.len() implies #[trigger] u[k] < 81 by {
        assert(in_unit(t, u[k] as int));
    }
}

proof fn lemma_refines_chain(cs0: Seq<Cell>, a: Seq<Cell>, b: Seq<Cell>)
    requires
        board_wf(a),
        forall|i: int| 0 <= i < 81 ==> (#[trigger] a[i]).refines(cs0[i]),
        b == a || forall|i: int| 0 <= i < 81 ==> (#[trigger] b[i]).refines(a[i]),
    ensures
        forall|i: int| 0 <= i < 81 ==> (#[trigger] b[i]).refines(cs0[i]),
{
    assert forall|i: int| 0 <= i < 81 implies (#[trigger] b[i]).refines(cs0[i]) by {
        lemma_collapsed_refines(a[i]);
        lemma_refines_trans(cs0[i], a[i], b[i]);
    }
}

/// After all 27 units are reduced the board is consistent, reduced, and keeps a candidate
/// in every open cell.
proof fn lemma_all_units(cs0: Seq<Cell>, cs: Seq<Cell>)
    requires
        reduction_state(cs0, cs, 27),
    ensures
        consistent(cs),
        consistent(cs0),
        reduced(cs),
        forall|i: int| 0 <= i < 81 && (#[trigger] cs[i]).fixed().is_none() ==> cs[i].width() > 0,
        forall|i: int|
            0 <= i < 81 && (#[trigger] cs[i]).fixed().is_none() ==> cs[i].candidates()
                == cs0[i].candidates().difference(peer_values(cs0, i)),
        !starved(cs0),
        stable(cs0) ==> cs == cs0,
{
    assert forall|i: int|
        0 <= i < 81 && (#[trigger] cs[i]).fixed().is_none() implies cs[i].candidates()
            == cs0[i].candidates().difference(peer_values(cs0, i)) by {
        lemma_seen_peers(cs0, i, 27);
    }
    if starved(cs0) {
        let i = choose|i: int|
            0 <= i < 81 && (#[trigger] cs0[i]).fixed().is_none() && cs0[i].candidates().subset_of(
                peer_values(cs0, i),
            );
        assert(in_unit(row_of(i), i));
        assert(unit_done(cs, row_of(i)));
        lemma_empty_width(cs[i]);
        lemma_seen_peers(cs0, i, 27);
        assert(cs[i].candidates() =~= Set::<u8>::empty());
    }
    assert forall|i: int, j: int| #[trigger] is_peer(i, j) implies (cs[i].fixed().is_some()
        ==> cs[j].fixed() != cs[i].fixed()) && (cs[j].fixed().is_some()
        ==> !cs[i].candidates().contains(cs[j].fixed().unwrap())) by {
        lemma_peer_unit(i, j);
        let t = choose|t: int| 0 <= t < 27 && in_unit(t, i) && in_unit(t, j);
        assert(unit_done(cs, t));
    }
    assert forall|i: int, j: int| #[trigger] is_peer(i, j) && cs0[i].fixed().is_some() implies cs0[j].fixed() != cs0[i].fixed() by {
        assert(cs[i].fixed() == cs0[i].fixed() && cs[j].fixed() == cs0[j].fixed());
    }
    assert forall|i: int| 0 <= i < 81 && (#[trigger] cs[i]).fixed().is_none() implies cs[i].width() > 0 by {
        assert(in_unit(row_of(i), i));
        assert(unit_done(cs, row_of(i)));
    }
}

/// A successful collapse of a consistent, reduced board with a candidate in every open cell
/// leaves it consistent.
proof fn lemma_after_collapse(red: Seq<Cell>, cs: Seq<Cell>)
    requires
        consistent(red),
        !single_clash(red),
        cs.len() == 81,
        forall|i: int| 0 <= i < 81 ==> #[trigger] cs[i] == collapsed(red[i]),
    ensures
        consistent(cs),
{
    assert forall|i: int, j: int| #[trigger] is_peer(i, j) && cs[i].fixed().is_some() implies cs[j].fixed() != cs[i].fixed() by {
        assert(cs[i] == collapsed(red[i]) && cs[j] == collapsed(red[j]));
        assert(is_peer(j, i));
    }
}

proof fn lemma_remove_unique(s: Seq<u8>, k: int)
    requires
        s.no_duplicates(),
        0 <= k < s.len(),
    ensures
        s.remove(k).no_duplicates(),
        forall|x: u8| s.remove(k).contains(x) <==> s.contains(x) && x != s[k],
{
    let r = s.remove(k);
    assert forall|a: int, b: int| 0 <= a < r.len() && 0 <= b < r.len() && a != b implies r[a] != r[b] by {
        let ia = if a < k { a } else { a + 1 };
        let ib = if b < k { b } else { b + 1 };
        assert(r[a] == s[ia] && r[b] == s[ib]);
    }
    assert forall|x: u8| r.contains(x) <==> s.contains(x) && x != s[k] by {
        if r.contains(x) {
            let a = choose|a: int| 0 <= a < r.len() && r[a] == x;
            let ia = if a < k { a } else { a + 1 };
            assert(s[ia] == x);
        }
        if s.contains(x) && x != s[k] {
            let a = choose|a: int| 0 <= a < s.len() && s[a] == x;
            if a < k {
                assert(r[a] == x);
            } else {
                assert(r[a - 1] == x);
            }
        }
    }
}

/// Whether the listed squares are all determined, no two to the same value.
pub fn unit_complete(board: &Board, u: &Vec<usize>) -> (r: bool)
    requires
        board_wf(board.cells@),
        unit_ok(u@),
        u@.len() == 9,
    ensures
        r == ((forall|k: int| 0 <= k < 9 ==> (#[trigger] board.cells@[u@[k] as int]).fixed().is_some())
            && !unit_clash(board.cells@, u@)),
{
    let ghost cs = board.cells@;
    let blank = Cell::blank();
    let mut values: Vec<u8> = match blank {
        Cell::Undetermined(vs) => vs,
        Cell::Determined(_) => Vec::new(),
    };
    assert forall|x: u8| #[trigger] values@.contains(x) <==> is_digit(x) by {
        assert(values@.to_set().contains(x) == values@.contains(x));
    }
    let mut k: usize = 0;
    while k < 9
        invariant
            board_wf(cs),
            cs == board.cells@,
            unit_ok(u@),
            u@.len() == 9,
            k <= 9,
            values@.no_duplicates(),
            forall|x: u8| #[trigger] values@.contains(x) <==> is_digit(x) && forall|a: int|
                0 <= a < k ==> cs[u@[a] as int].fixed() != Some(x),
            forall|a: int| 0 <= a < k ==> (#[trigger] cs[u@[a] as int]).fixed().is_some(),
            forall|a: int, b: int|
                0 <= a < k && 0 <= b < k && a != b ==> #[trigger] cs[u@[a] as int].fixed()
                    != #[trigger] cs[u@[b] as int].fixed(),
        decreases 9 - k,
    {
        let i = u[k];
        assert(u@[k as int] < 81);
        let ghost v0 = values@;
        if !remove_if_contains(&mut values, &board.cells[i]) {
            proof {
                if cs[i as int].fixed().is_some() {
                    let x = cs[i as int].fixed().unwrap();
                    assert(cs[i as int].wf());
                    let a = choose|a: int| 0 <= a < k && cs[u@[a] as int].fixed() == Some(x);
                    assert(unit_clash(cs, u@)) by {
                        assert(cs[u@[a] as int].fixed() == cs[u@[k as int] as int].fixed());
                    }
                }
            }
            return false;
        }
        proof {
            let x = cs[i as int].fixed().unwrap();
            let j = choose|j: int| crate::cell::first_at(v0, x, j) && values@ == v0.remove(j);
            lemma_remove_unique(v0, j);
            assert forall|y: u8| #[trigger] values@.contains(y) <==> is_digit(y) && forall|a: int|
                0 <= a < k + 1 ==> cs[u@[a] as int].fixed() != Some(y) by {
                assert(cs[u@[k as int] as int].fixed() == Some(x));
                assert(v0.contains(y) <==> is_digit(y) && forall|a: int|
                    0 <= a < k ==> cs[u@[a] as int].fixed() != Some(y));
                if is_digit(y) && y != x && v0.contains(y) {
                    assert forall|a: int| 0 <= a < k + 1 implies cs[u@[a] as int].fixed() != Some(y) by {
                        if a == k {
                            assert(cs[u@[a] as int].fixed() == Some(x));
                        }
                    }
                }
            }
        }
        k = k + 1;
    }
    proof {
        if unit_clash(cs, u@) {
            let (a, b) = choose|a: int, b: int|
                0 <= a < u@.len() && 0 <= b < u@.len() && a != b && cs[u@[a] as int].fixed().is_some()
                    && #[trigger] cs[u@[a] as int].fixed() == #[trigger] cs[u@[b] as int].fixed();
        }
    }
    true
}

impl Line {
    /// Whether every square of this row or column is determined, each to a different digit.
    pub fn is_done(&self, board: &Board) -> (r: bool)
        requires
            board_wf(board.cells@),
            unit_ok(self.cells@),
            self.cells@.len() == 9,
        ensures
            r == ((forall|k: int| 0 <= k < 9 ==> (#[trigger] board.cells@[self.cells@[k] as int]).fixed().is_some())
                && !unit_clash(board.cells@, self.cells@)),
    {
        unit_complete(board, &self.cells)
    }
}

impl Square {
    /// Whether every square of this box is determined, each to a different digit.
    pub fn is_done(&self, board: &Board) -> (r: bool)
        requires
            board_wf(board.cells@),
            unit_ok(self.cells@),
            self.cells@.len() == 9,
        ensures
            r == ((forall|k: int| 0 <= k < 9 ==> (#[trigger] board.cells@[self.cells@[k] as int]).fixed().is_some())
                && !unit_clash(board.cells@, self.cells@)),
    {
        unit_complete(board, &self.cells)
    }
}

/// After reduction, an open cell is down to one candidate exactly where the pass forces it.
proof fn lemma_single_forces(cs0: Seq<Cell>, red: Seq<Cell>)
    requires
        board_wf(red),
        forall|i: int| 0 <= i < 81 ==> (#[trigger] red[i]).fixed() == cs0[i].fixed(),
        forall|i: int|
            0 <= i < 81 && (#[trigger] red[i]).fixed().is_none() ==> red[i].candidates()
                == cs0[i].candidates().difference(peer_values(cs0, i)),
    ensures
        forall|i: int, v: u8| 0 <= i < 81 ==> (red[i].single() == Some(v) <==> #[trigger] forces(cs0, i, v)),
        single_clash(red) <==> forced_clash(cs0),
{
    assert forall|i: int, v: u8| 0 <= i < 81 implies (red[i].single() == Some(v) <==> #[trigger] forces(cs0, i, v)) by {
        if red[i].fixed().is_none() {
            let ws = red[i]->Undetermined_0;
            assert(red[i].wf());
            if ws@.len() == 1 {
                assert(ws@.to_set() =~= set![ws@[0]]);
            }
            if forces(cs0, i, v) {
                assert(ws@.to_set() == set![v]);
                ws@.unique_seq_to_set();
                assert(set![v].len() == 1);
                assert(ws@.to_set().contains(v));
            }
        }
    }
    if single_clash(red) {
        let (i, j) = choose|i: int, j: int|
            #[trigger] is_peer(i, j) && red[i].single().is_some() && (red[j].fixed() == red[i].single()
                || red[j].single() == red[i].single());
        let v = red[i].single().unwrap();
        assert(forces(cs0, i, v));
        assert(red[j].single() == Some(v) ==> forces(cs0, j, v));
    }
    if forced_clash(cs0) {
        let (i, j, v) = choose|i: int, j: int, v: u8|
            #[trigger] is_peer(i, j) && #[trigger] forces(cs0, i, v) && (cs0[j].fixed() == Some(v)
                || forces(cs0, j, v));
        assert(red[i].single() == Some(v));
        assert(forces(cs0, j, v) ==> red[j].single() == Some(v));
        assert(red[j].fixed() == cs0[j].fixed());
    }
}

/// A board on which a run ends solved or stalled is a fixpoint of a further pass: that pass
/// meets no contradiction, forces no cell, and leaves every cell as it was.
pub proof fn lemma_pass_idempotent(cs: Seq<Cell>)
    requires
        stable(cs),
    ensures
        consistent(cs),
        !starved(cs),
        !forced_clash(cs),
        none_forced(cs),
        forall|i: int| 0 <= i < 81 ==> #[trigger] pass_result(cs, cs, i),
{
    assert forall|i: int| 0 <= i < 81 && (#[trigger] cs[i]).fixed().is_none() implies cs[i].candidates().difference(
        peer_values(cs, i),
    ) == cs[i].candidates() && cs[i].candidates().len() >= 2 && cs[i].candidates().finite() by {
        assert forall|v: u8| cs[i].candidates().contains(v) implies !peer_values(cs, i).contains(v) by {
            if peer_values(cs, i).contains(v) {
                let j = choose|j: int| #[trigger] is_peer(i, j) && cs[j].fixed() == Some(v);
            }
        }
        assert(cs[i].candidates().difference(peer_values(cs, i)) =~= cs[i].candidates());
        let vs = cs[i]->Undetermined_0;
        assert(cs[i].wf());
        vs@.unique_seq_to_set();
        vstd::seq_lib::seq_to_set_is_finite(vs@);
    }
    assert forall|i: int, v: u8| 0 <= i < 81 implies !#[trigger] forces(cs, i, v) by {
        if forces(cs, i, v) {
            assert(set![v].len() == 1);
        }
    }
    if starved(cs) {
        let i = choose|i: int|
            0 <= i < 81 && (#[trigger] cs[i]).fixed().is_none() && cs[i].candidates().subset_of(
                peer_values(cs, i),
            );
        let vs = cs[i]->Undetermined_0;
        assert(cs[i].candidates().contains(vs@[0]));
    }
    if forced_clash(cs) {
        let (i, j, v) = choose|i: int, j: int, v: u8|
            #[trigger] is_peer(i, j) && #[trigger] forces(cs, i, v) && (cs[j].fixed() == Some(v)
                || forces(cs, j, v));
    }
    assert forall|i: int| 0 <= i < 81 implies #[trigger] pass_result(cs, cs, i) by {
        assert forall|v: u8| !forces(cs, i, v) by {}
    }
}

/// Two squares of one row determined to the same value make the board inconsistent, so the
/// first pass on it reports a contradiction.
pub proof fn lemma_row_twins(cs: Seq<Cell>, r: int, c1: int, c2: int)
    requires
        0 <= r < 9,
        0 <= c1 < 9,
        0 <= c2 < 9,
        c1 != c2,
        cs[r * 9 + c1].fixed().is_some(),
        cs[r * 9 + c1].fixed() == cs[r * 9 + c2].fixed(),
    ensures
        !consistent(cs),
{
    assert(is_peer(r * 9 + c1, r * 9 + c2));
}

/// Running again on a board that a run left solved or stalled takes one pass, returns the
/// board unchanged, and reports `Solved` exactly when every cell is determined.
pub proof fn lemma_run_stable(init: Seq<Cell>, fin: Seq<Cell>, st: EngineState, trace: Seq<Seq<Cell>>)
    requires
        stable(init),
        run_trace(trace, init, fin, st),
    ensures
        trace.len() == 2,
        fin == init,
        st == EngineState::Solved || st == EngineState::Stalled,
        st == EngineState::Solved <==> all_fixed(init),
{
    let k: int = 0;
    if trace.len() > 2 {
        assert(pass_spec(trace[k], trace[k + 1], EngineState::Running));
    }
    assert(pass_spec(trace[k], trace[k + 1], st));
}

/// A board on which every cell may still take any digit stalls in one pass, unchanged.
pub proof fn lemma_blank_stalls(init: Seq<Cell>, fin: Seq<Cell>, st: EngineState, trace: Seq<Seq<Cell>>)
    requires
        board_wf(init),
        forall|i: int| 0 <= i < 81 ==> (#[trigger] init[i]).fixed().is_none() && init[i].width() == 9,
        run_trace(trace, init, fin, st),
    ensures
        trace.len() == 2,
        fin == init,
        st == EngineState::Stalled,
{
    assert(!all_fixed(init)) by {
        assert(init[0].fixed().is_none());
    }
    lemma_run_stable(init, fin, st, trace);
}

/// A solved grid `g` with one square opened again is solved by a run in exactly one pass,
/// which gives that square back its value and leaves every other square as it was.
pub proof fn lemma_one_blank(
    g: Seq<Cell>,
    init: Seq<Cell>,
    i: int,
    fin: Seq<Cell>,
    st: EngineState,
    trace: Seq<Seq<Cell>>,
)
    requires
        board_wf(g),
        solved(g),
        0 <= i < 81,
        board_wf(init),
        init[i].fixed().is_none(),
        init[i].candidates() == all_digits(),
        forall|j: int| 0 <= j < 81 && j != i ==> #[trigger] init[j] == g[j],
        run_trace(trace, init, fin, st),
    ensures
        trace.len() == 2,
        st == EngineState::Solved,
        fin[i] == g[i],
        forall|j: int| 0 <= j < 81 && j != i ==> #[trigger] fin[j] == init[j],
{
    let v = g[i].fixed().unwrap();
    assert(g[i].wf());
    let pv = peer_values(init, i);
    assert(pv =~= all_digits().remove(v)) by {
        assert forall|w: u8| pv.contains(w) implies all_digits().remove(v).contains(w) by {
            let j = choose|j: int| #[trigger] is_peer(i, j) && init[j].fixed() == Some(w);
            assert(init[j] == g[j]);
            assert(g[j].wf());
            lemma_peer_unit(i, j);
            let t = choose|t: int| 0 <= t < 27 && in_unit(t, i) && in_unit(t, j);
        }
        assert forall|w: u8| all_digits().remove(v).contains(w) implies pv.contains(w) by {
            let t = row_of(i);
            assert(unit_holds(g, t, w));
            let j = choose|j: int| #[trigger] in_unit(t, j) && g[j].fixed() == Some(w);
            assert(j != i);
            assert(is_peer(i, j));
            assert(init[j] == g[j]);
        }
    }
    assert(forces(init, i, v)) by {
        assert(init[i].candidates().difference(pv) =~= set![v]);
    }
    assert forall|a: int, w: u8| 0 <= a < 81 && #[trigger] forces(init, a, w) implies a == i && w == v by {
        if a != i {
            assert(init[a] == g[a]);
            assert(g[a].fixed().is_some());
        } else {
            assert(set![w].contains(w));
            assert(set![v].contains(w));
        }
    }
    assert(consistent(init)) by {
        assert forall|a: int, b: int| #[trigger] is_peer(a, b) && init[a].fixed().is_some() implies init[b].fixed() != init[a].fixed() by {
            if init[b].fixed() == init[a].fixed() {
                assert(a != i && b != i);
                assert(init[a] == g[a] && init[b] == g[b]);
                lemma_peer_unit(a, b);
                let t = choose|t: int| 0 <= t < 27 && in_unit(t, a) && in_unit(t, b);
            }
        }
    }
    assert(!starved(init)) by {
        if starved(init) {
            let a = choose|a: int|
                0 <= a < 81 && (#[trigger] init[a]).fixed().is_none() && init[a].candidates().subset_of(
                    peer_values(init, a),
                );
            if a != i {
                assert(init[a] == g[a]);
                assert(g[a].fixed().is_some());
            }
            assert(init[i].candidates().contains(v));
        }
    }
    assert(!forced_clash(init)) by {
        if forced_clash(init) {
            let (a, b, w) = choose|a: int, b: int, w: u8|
                #[trigger] is_peer(a, b) && #[trigger] forces(init, a, w) && (init[b].fixed()
                    == Some(w) || forces(init, b, w));
            assert(a == i && w == v);
            if init[b].fixed() == Some(w) {
                assert(pv.contains(w));
            } else {
                assert(b == i);
            }
        }
    }
    let k: int = 0;
    let s0 = if trace.len() > 2 {
        EngineState::Running
    } else {
        st
    };
    assert(pass_spec(trace[k], trace[k + 1], s0));
    let after = trace[1];
    assert(after[i] == Cell::Determined(v)) by {
        assert(pass_result(init, after, i));
        if after[i].fixed().is_none() {
            assert(!forces(init, i, v));
        } else {
            let w = after[i].fixed().unwrap();
            assert(forces(init, i, w));
        }
    }
    assert(g[i] == Cell::Determined(v));
    assert forall|j: int| 0 <= j < 81 && j != i implies #[trigger] after[j] == init[j] by {
        assert(init[j] == g[j]);
        assert(g[j].fixed().is_some());
        assert(after[j].refines(init[j]));
    }
    assert(all_fixed(after)) by {
        assert forall|j: int| 0 <= j < 81 implies (#[trigger] after[j]).fixed().is_some() by {
            if j != i {
                assert(after[j] == init[j]);
                assert(g[j].fixed().is_some());
            }
        }
    }
}

/// A run on a board with two neighbours determined alike (two equal values in one row, say)
/// stops after its first pass with `Contradiction`.
pub proof fn lemma_inconsistent_stops(init: Seq<Cell>, fin: Seq<Cell>, st: EngineState, trace: Seq<Seq<Cell>>)
    requires
        !consistent(init),
        run_trace(trace, init, fin, st),
    ensures
        trace.len() == 2,
        st == EngineState::Contradiction,
{
    let k: int = 0;
    if trace.len() > 2 {
        assert(pass_spec(trace[k], trace[k + 1], EngineState::Running));
    }
    assert(pass_spec(trace[k], trace[k + 1], st));
}

} // verus!
