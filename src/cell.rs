use vstd::prelude::*;

verus! {

/// A value a square of the grid may hold.
pub open spec fn is_digit(v: u8) -> bool {
    1 <= v <= 9
}

/// Every value a square of the grid may hold.
pub open spec fn all_digits() -> Set<u8> {
    Set::new(|v: u8| is_digit(v))
}

/// What is known of one square: either a value fixed for good, or the values it may
/// still take.
pub enum Cell {
    Determined(u8),
    Undetermined(Vec<u8>),
}

impl Cell {
    /// A determined cell holds a digit; an undetermined one lists distinct digits.
    pub open spec fn wf(&self) -> bool {
        match self {
            Cell::Determined(v) => is_digit(*v),
            Cell::Undetermined(vs) => vs@.no_duplicates() && forall|k: int|
                0 <= k < vs@.len() ==> is_digit(#[trigger] vs@[k]),
        }
    }

    /// The value of a determined cell.
    pub open spec fn fixed(&self) -> Option<u8> {
        match self {
            Cell::Determined(v) => Some(*v),
            Cell::Undetermined(_) => None,
        }
    }

    /// The values an undetermined cell may still take (none for a determined one).
    pub open spec fn candidates(&self) -> Set<u8> {
        match self {
            Cell::Determined(_) => Set::empty(),
            Cell::Undetermined(vs) => vs@.to_set(),
        }
    }

    /// The number of values an undetermined cell may still take.
    pub open spec fn width(&self) -> nat {
        match self {
            Cell::Determined(_) => 0,
            Cell::Undetermined(vs) => vs@.len(),
        }
    }

    /// The one value left to an undetermined cell with a single candidate.
    pub open spec fn single(&self) -> Option<u8> {
        match self {
            Cell::Undetermined(vs) => if vs@.len() == 1 {
                Some(vs@[0])
            } else {
                None
            },
            Cell::Determined(_) => None,
        }
    }

    /// `self` holds no less knowledge than `before`: a determined cell keeps its value, and
    /// an undetermined one either becomes determined to one of its candidates or keeps a
    /// subset of them, never more of them.
    pub open spec fn refines(&self, before: Cell) -> bool {
        match before {
            Cell::Determined(v) => *self == Cell::Determined(v),
            Cell::Undetermined(vs) => match self {
                Cell::Determined(w) => vs@.contains(*w),
                Cell::Undetermined(ws) => ws@.to_set().subset_of(vs@.to_set()) && ws@.len()
                    <= vs@.len(),
            },
        }
    }

    /// A cell that may still take any digit.
    pub fn blank() -> (r: Cell)
        ensures
            r.wf(),
            r.fixed().is_none(),
            r.candidates() == all_digits(),
            r.width() == 9,
    {
        let mut vs: Vec<u8> = Vec::new();
        let mut d: u8 = 1;
        while d <= 9
            invariant
                1 <= d <= 10,
                vs@.len() == d - 1,
                forall|k: int| 0 <= k < vs@.len() ==> #[trigger] vs@[k] == k + 1,
            decreases 10 - d,
        {
            vs.push(d);
            d = d + 1;
        }
        let r = Cell::Undetermined(vs);
        assert(vs@.to_set() =~= all_digits()) by {
            assert forall|v: u8| is_digit(v) implies vs@.contains(v) by {
                assert(vs@[v - 1] == v);
            }
        }
        r
    }

    /// Reads a digit character `1` to `9` as a determined cell; hands any other character
    /// back.
    pub fn from_char(c: char) -> (r: Result<Cell, char>)
        ensures
            '1' <= c <= '9' ==> r == Ok::<Cell, char>(Cell::Determined((c as u32 - '0' as u32) as u8)),
            !('1' <= c <= '9') ==> r == Err::<Cell, char>(c),
    {
        if '1' <= c && c <= '9' {
            Ok(Cell::Determined((c as u32 - '0' as u32) as u8))
        } else {
            Err(c)
        }
    }

    /// The value left to an undetermined cell with a single candidate.
    pub fn single_value(&self) -> (r: Option<u8>)
        ensures
            r == self.single(),
    {
        match self {
            Cell::Undetermined(vs) => if vs.len() == 1 {
                Some(vs[0])
            } else {
                None
            },
            Cell::Determined(_) => None,
        }
    }

    /// The value of a determined cell.
    pub fn value(&self) -> (r: Option<u8>)
        ensures
            r == self.fixed(),
    {
        match self {
            Cell::Determined(v) => Some(*v),
            Cell::Undetermined(_) => None,
        }
    }

    /// Turns an undetermined cell with exactly one candidate into a determined cell of that
    /// value; tells whether it did.
    pub fn collapse(&mut self) -> (changed: bool)
        requires
            old(self).wf(),
        ensures
            final(self).wf(),
            changed == old(self).single().is_some(),
            changed ==> *final(self) == Cell::Determined(old(self).single().unwrap()),
            !changed ==> *final(self) == *old(self),
    {
        match self.single_value() {
            Some(v) => {
                assert(self.candidates().contains(v)) by {
                    let vs = self->Undetermined_0;
                    assert(vs@.contains(vs@[0]));
                }
                *self = Cell::Determined(v);
                true
            },
            None => false,
        }
    }
}

/// The first position of `v` in `s`, if it occurs.
pub open spec fn first_at(s: Seq<u8>, v: u8, k: int) -> bool {
    0 <= k < s.len() && s[k] == v && forall|j: int| 0 <= j < k ==> s[j] != v
}

/// Removes the value of a determined cell from `values` (its first occurrence) and tells
/// whether it was there; leaves `values` as it is for an undetermined cell.
pub fn remove_if_contains(values: &mut Vec<u8>, cell: &Cell) -> (removed: bool)
    ensures
        removed == (cell.fixed().is_some() && old(values)@.contains(cell.fixed().unwrap())),
        removed ==> exists|k: int|
            first_at(old(values)@, cell.fixed().unwrap(), k) && final(values)@ == old(
                values,
            )@.remove(k),
        !removed ==> final(values)@ == old(values)@,
{
    if let Cell::Determined(n) = cell {
        assert(cell.fixed() == Some(*n));
        let mut k: usize = 0;
        while k < values.len()
            invariant
                values@ == old(values)@,
                cell.fixed() == Some(*n),
                k <= values@.len(),
                forall|j: int| 0 <= j < k ==> values@[j] != *n,
            decreases values@.len() - k,
        {
            if values[k] == *n {
                assert(first_at(values@, *n, k as int));
                assert(values@.contains(*n));
                values.remove(k);
                assert(first_at(old(values)@, *n, k as int) && values@ == old(values)@.remove(
                    k as int,
                ));
                return true;
            }
            k = k + 1;
        }
        assert(!values@.contains(*n));
        false
    } else {
        false
    }
}

} // verus!
