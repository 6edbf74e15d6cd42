//! A two-dimensional table keyed by an unordered pair of small indices: the
//! cells for `(i, j)` and `(j, i)` are one and the same. Only the lower
//! triangle is stored (row `i` holds columns `0..=i`) and every access orders
//! the two indices before descending, so symmetry holds by construction
//! rather than by paired writes.

use vstd::prelude::*;

verus! {

/// The larger of two indices.
pub open spec fn hi(a: int, b: int) -> int {
    if a >= b {
        a
    } else {
        b
    }
}

/// The smaller of two indices.
pub open spec fn lo(a: int, b: int) -> int {
    if a >= b {
        b
    } else {
        a
    }
}

/// A table over indices `(i, j)` in `[0, size)` where both orderings of the
/// pair resolve to a single shared cell.
#[derive(Debug)]
pub struct Commutative2DArray<T> {
    pub rows: Vec<Vec<T>>,
}

impl<T> Commutative2DArray<T> {
    /// Number of valid indices along each axis.
    pub open spec fn size(self) -> int {
        self.rows@.len() as int
    }

    /// The rows form the lower triangle: row `i` holds exactly `i + 1` cells.
    pub open spec fn wf(self) -> bool {
        forall|i: int|
            0 <= i < self.rows@.len() ==> #[trigger] self.rows@[i]@.len() == i + 1
    }

    /// The value stored for the unordered pair `{i, j}`.
    pub open spec fn spec_get(self, i: int, j: int) -> T {
        self.rows@[hi(i, j)]@[lo(i, j)]
    }

    /// Builds the table from its lower-triangle rows, which must form the
    /// triangle (row `i` holds `i + 1` cells): the cell for the unordered
    /// pair `{i, j}` with `i >= j` is `rows[i][j]`.
    pub fn new(rows: Vec<Vec<T>>) -> (t: Commutative2DArray<T>)
        requires
            forall|i: int| 0 <= i < rows@.len() ==> #[trigger] rows@[i]@.len() == i + 1,
        ensures
            t.rows == rows,
            t.wf(),
            t.size() == rows@.len(),
    {
        Commutative2DArray { rows }
    }

    /// Reads the shared cell for the unordered pair `{i, j}`.
    pub fn get(&self, i: usize, j: usize) -> (r: &T)
        requires
            self.wf(),
            i < self.size(),
            j < self.size(),
        ensures
            *r == self.spec_get(i as int, j as int),
    {
        if i >= j {
            &self.rows[i][j]
        } else {
            &self.rows[j][i]
        }
    }

    /// Replaces the shared cell for the unordered pair `{i, j}` and hands
    /// back the previous value; the write is visible under both orderings.
    pub fn replace(&mut self, i: usize, j: usize, v: T) -> (prev: T)
        requires
            old(self).wf(),
            i < old(self).size(),
            j < old(self).size(),
        ensures
            final(self).wf(),
            final(self).size() == old(self).size(),
            prev == old(self).spec_get(i as int, j as int),
            final(self).spec_get(i as int, j as int) == v,
            forall|p: int, q: int|
                0 <= p < old(self).size() && 0 <= q < old(self).size()
                    && !(hi(p, q) == hi(i as int, j as int) && lo(p, q) == lo(i as int, j as int))
                    ==> #[trigger] final(self).spec_get(p, q) == old(self).spec_get(p, q),
    {
        let (r, c) = if i >= j {
            (i, j)
        } else {
            (j, i)
        };
        let row = &mut self.rows[r];
        let prev = row.remove(c);
        row.insert(c, v);
        proof {
            assert(self.rows@[r as int]@ =~= old(self).rows@[r as int]@.update(c as int, v));
            assert(forall|p: int| 0 <= p < self.rows@.len() && p != r as int
                ==> self.rows@[p] == old(self).rows@[p]);
        }
        prev
    }
}

/// Law: the table is symmetric — for all valid indices, reading `(i, j)` and
/// `(j, i)` yields the very same stored value, because a single cell backs
/// both orderings.
pub proof fn lemma_table_symmetric<T>(t: Commutative2DArray<T>, i: int, j: int)
    requires
        t.wf(),
        0 <= i < t.size(),
        0 <= j < t.size(),
    ensures
        t.spec_get(i, j) == t.spec_get(j, i),
{
}

} // verus!
