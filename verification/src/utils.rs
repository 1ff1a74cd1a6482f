use vstd::prelude::*;

verus! {

/// A sparse matrix stored as three parallel lists: the row, the column and the value of each
/// stored entry, in the order of insertion.
#[derive(Debug, Clone)]
pub struct SparseMatrix<T> {
    values: Vec<T>,
    row_indices: Vec<usize>,
    col_indices: Vec<usize>,
    row_count: usize,
    col_count: usize,
}

/// The position of the first stored entry at `(row, col)`, if any.
pub open spec fn first_entry<T>(entries: Seq<(usize, usize, T)>, row: usize, col: usize) -> Option<int>
    decreases entries.len(),
{
    if entries.len() == 0 {
        None
    } else {
        match first_entry(entries.drop_last(), row, col) {
            Some(i) => Some(i),
            None => if entries.last().0 == row && entries.last().1 == col {
                Some(entries.len() - 1)
            } else {
                None
            },
        }
    }
}

/// The entries of one row, as `(column, value)`, in the order they were stored.
pub open spec fn row_entries<T>(entries: Seq<(usize, usize, T)>, row: usize) -> Seq<(usize, T)>
    decreases entries.len(),
{
    if entries.len() == 0 {
        Seq::empty()
    } else {
        let prev = row_entries(entries.drop_last(), row);
        if entries.last().0 == row {
            prev.push((entries.last().1, entries.last().2))
        } else {
            prev
        }
    }
}

/// The entries of one column, as `(row, value)`, in the order they were stored.
pub open spec fn col_entries<T>(entries: Seq<(usize, usize, T)>, col: usize) -> Seq<(usize, T)>
    decreases entries.len(),
{
    if entries.len() == 0 {
        Seq::empty()
    } else {
        let prev = col_entries(entries.drop_last(), col);
        if entries.last().1 == col {
            prev.push((entries.last().0, entries.last().2))
        } else {
            prev
        }
    }
}

pub proof fn lemma_first_entry_bounds<T>(entries: Seq<(usize, usize, T)>, row: usize, col: usize)
    ensures
        match first_entry(entries, row, col) {
            Some(i) => 0 <= i < entries.len() && entries[i].0 == row && entries[i].1 == col
                && forall|j: int| 0 <= j < i ==> !(entries[j].0 == row && entries[j].1 == col),
            None => forall|j: int|
                0 <= j < entries.len() ==> !(entries[j].0 == row && entries[j].1 == col),
        },
    decreases entries.len(),
{
    if entries.len() > 0 {
        let prev = entries.drop_last();
        lemma_first_entry_bounds(prev, row, col);
        assert(forall|j: int| 0 <= j < prev.len() ==> prev[j] == entries[j]);
    }
}

impl<T> SparseMatrix<T> {
    /// The stored entries, as `(row, column, value)`, in the order they were stored.
    pub closed spec fn entries(&self) -> Seq<(usize, usize, T)> {
        Seq::new(
            self.values@.len(),
            |i: int| (self.row_indices@[i], self.col_indices@[i], self.values@[i]),
        )
    }

    pub closed spec fn spec_row_count(&self) -> usize {
        self.row_count
    }

    pub closed spec fn spec_col_count(&self) -> usize {
        self.col_count
    }

    /// The three lists have one element per entry, and every entry lies within the bounds
    /// that `insert` checks.
    pub closed spec fn wf(&self) -> bool {
        &&& self.row_indices@.len() == self.values@.len()
        &&& self.col_indices@.len() == self.values@.len()
        &&& forall|i: int|
            0 <= i < self.values@.len() ==> #[trigger] self.row_indices@[i] <= self.row_count
                && self.col_indices@[i] <= self.col_count
    }

    pub fn with_capacity(cols: usize, rows: usize) -> (r: Self)
        requires
            4 * (cols + rows) <= usize::MAX,
        ensures
            r.wf(),
            r.entries() =~= Seq::<(usize, usize, T)>::empty(),
            r.spec_col_count() == cols,
            r.spec_row_count() == rows,
    {
        SparseMatrix {
            values: Vec::with_capacity(4 * (cols + rows)),
            row_indices: Vec::with_capacity(4 * rows),
            col_indices: Vec::with_capacity(4 * cols),
            col_count: cols,
            row_count: rows,
        }
    }

    /// Returns the number of rows in the matrix
    pub fn row_count(&self) -> (r: usize)
        ensures
            r == self.spec_row_count(),
    {
        self.row_count
    }

    /// Returns the number of columns in the matrix
    pub fn col_count(&self) -> (r: usize)
        ensures
            r == self.spec_col_count(),
    {
        self.col_count
    }

    /// Returns true if the matrix is empty (has no elements), false otherwise
    pub fn is_empty(&self) -> (r: bool)
        requires
            self.wf(),
        ensures
            r == (self.entries().len() == 0),
    {
        self.values.len() == 0
    }

    /// Returns the number of non-zero elements in the matrix
    pub fn nnz(&self) -> (r: usize)
        requires
            self.wf(),
        ensures
            r == self.entries().len(),
    {
        self.values.len()
    }

    /// Clears the matrix, removing all elements
    pub fn clear(&mut self)
        ensures
            final(self).wf(),
            final(self).entries() =~= Seq::<(usize, usize, T)>::empty(),
            final(self).spec_row_count() == old(self).spec_row_count(),
            final(self).spec_col_count() == old(self).spec_col_count(),
    {
        self.values.clear();
        self.row_indices.clear();
        self.col_indices.clear();
    }

    /// Stores a new entry after all others. Stores it even when an entry at the same place
    /// exists already.
    pub fn insert(&mut self, row: usize, col: usize, value: T)
        requires
            old(self).wf(),
            row <= old(self).spec_row_count(),
            col <= old(self).spec_col_count(),
        ensures
            final(self).wf(),
            final(self).entries() =~= old(self).entries().push((row, col, value)),
            final(self).spec_row_count() == old(self).spec_row_count(),
            final(self).spec_col_count() == old(self).spec_col_count(),
    {
        self.values.push(value);
        self.row_indices.push(row);
        self.col_indices.push(col);
    }

    /// The value of the first entry stored at `(row, col)`, if any.
    pub fn get(&self, row: usize, col: usize) -> (r: Option<&T>)
        requires
            self.wf(),
        ensures
            match first_entry(self.entries(), row, col) {
                Some(i) => r == Some(&self.entries()[i].2),
                None => r is None,
            },
    {
        let n = self.row_indices.len();
        let mut i: usize = 0;
        while i < n
            invariant
                self.wf(),
                n == self.values@.len(),
                i <= n,
                forall|j: int|
                    0 <= j < i ==> !(#[trigger] self.entries()[j].0 == row && self.entries()[j].1
                        == col),
            decreases n - i,
        {
            if self.row_indices[i] == row && self.col_indices[i] == col {
                proof {
                    lemma_first_entry_bounds(self.entries(), row, col);
                    assert(self.entries()[i as int].0 == row && self.entries()[i as int].1 == col);
                    let f = first_entry(self.entries(), row, col);
                    if let Some(k) = f {
                        if k < i {
                            assert(self.entries()[k].0 == row && self.entries()[k].1 == col);
                        }
                        assert(k == i);
                    }
                }
                return Some(&self.values[i]);
            }
            i = i + 1;
        }
        proof {
            lemma_first_entry_bounds(self.entries(), row, col);
            if let Some(k) = first_entry(self.entries(), row, col) {
                assert(self.entries()[k].0 == row);
            }
        }
        None
    }
}


impl<T> SparseMatrix<T> {
    /// Whether the three lists agree and every index lies within the bounds.
    pub fn is_consistent(&self) -> (r: bool)
        ensures
            r == self.wf(),
    {
        let n = self.values.len();
        if self.row_indices.len() != n || self.col_indices.len() != n {
            return false;
        }
        let mut i: usize = 0;
        while i < n
            invariant
                n == self.values@.len(),
                self.row_indices@.len() == n,
                self.col_indices@.len() == n,
                i <= n,
                forall|k: int| 0 <= k < i ==> #[trigger] self.row_indices@[k] <= self.row_count && self.col_indices@[k] <= self.col_count,
            decreases n - i,
        {
            if self.row_indices[i] > self.row_count || self.col_indices[i] > self.col_count {
                return false;
            }
            i = i + 1;
        }
        true
    }
}

impl<T> SparseMatrix<T> {
    /// The row and the column of the entry stored at position `i`.
    pub(crate) fn entry_at(&self, i: usize) -> (r: (usize, usize))
        requires
            self.wf(),
            i < self.entries().len(),
        ensures
            r.0 == self.entries()[i as int].0,
            r.1 == self.entries()[i as int].1,
    {
        (self.row_indices[i], self.col_indices[i])
    }

    /// The columns of the entries of a row, in the order they were stored.
    pub(crate) fn row_indices_of(&self, row: usize) -> (r: Vec<usize>)
        requires
            self.wf(),
        ensures
            r@ == row_entries(self.entries(), row).map_values(|e: (usize, T)| e.0),
    {
        let n = self.values.len();
        let mut res: Vec<usize> = Vec::new();
        let mut i: usize = 0;
        while i < n
            invariant
                self.wf(),
                n == self.values@.len(),
                i <= n,
                res@ =~= row_entries(self.entries().take(i as int), row).map_values(|e: (usize, T)| e.0),
            decreases n - i,
        {
            assert(self.entries().take(i + 1).drop_last() =~= self.entries().take(i as int));
            if self.row_indices[i] == row {
                res.push(self.col_indices[i]);
            }
            i = i + 1;
        }
        assert(self.entries().take(n as int) =~= self.entries());
        res
    }
}

impl<T: Copy> SparseMatrix<T> {
    /// All stored entries as `(row, column, value)`, in the order they were stored.
    pub fn iter(&self) -> (r: Vec<(usize, usize, T)>)
        requires
            self.wf(),
        ensures
            r@ =~= self.entries(),
    {
        let n = self.values.len();
        let mut res: Vec<(usize, usize, T)> = Vec::new();
        let mut i: usize = 0;
        while i < n
            invariant
                self.wf(),
                n == self.values@.len(),
                i <= n,
                res@ =~= self.entries().take(i as int),
            decreases n - i,
        {
            res.push((self.row_indices[i], self.col_indices[i], self.values[i]));
            i = i + 1;
        }
        res
    }

    /// Returns the elements of a specific row, as `(column, value)`.
    pub fn row(&self, row: usize) -> (r: Vec<(usize, T)>)
        requires
            self.wf(),
        ensures
            r@ =~= row_entries(self.entries(), row),
    {
        let n = self.values.len();
        let mut res: Vec<(usize, T)> = Vec::new();
        let mut i: usize = 0;
        while i < n
            invariant
                self.wf(),
                n == self.values@.len(),
                i <= n,
                res@ =~= row_entries(self.entries().take(i as int), row),
            decreases n - i,
        {
            assert(self.entries().take(i + 1).drop_last() =~= self.entries().take(i as int));
            if self.row_indices[i] == row {
                res.push((self.col_indices[i], self.values[i]));
            }
            i = i + 1;
        }
        assert(self.entries().take(n as int) =~= self.entries());
        res
    }

    /// Returns the elements of a specific column, as `(row, value)`.
    pub fn col(&self, col: usize) -> (r: Vec<(usize, T)>)
        requires
            self.wf(),
        ensures
            r@ =~= col_entries(self.entries(), col),
    {
        let n = self.values.len();
        let mut res: Vec<(usize, T)> = Vec::new();
        let mut i: usize = 0;
        while i < n
            invariant
                self.wf(),
                n == self.values@.len(),
                i <= n,
                res@ =~= col_entries(self.entries().take(i as int), col),
            decreases n - i,
        {
            assert(self.entries().take(i + 1).drop_last() =~= self.entries().take(i as int));
            if self.col_indices[i] == col {
                res.push((self.row_indices[i], self.values[i]));
            }
            i = i + 1;
        }
        assert(self.entries().take(n as int) =~= self.entries());
        res
    }

    /// Transposes the matrix, swapping the rows and columns: the value stored at `(r, c)` is
    /// found at `(c, r)`, and the matrix keeps the numbers of rows and columns it was made
    /// with, so every swapped place must lie within them. For the entries `(0, 0) = 1`,
    /// `(0, 1) = 2`, `(1, 1) = 3`, `(2, 0) = 4` and `(2, 2) = 5`, the transpose holds 2 at
    /// `(1, 0)` and 4 at `(0, 2)`; a reading with 4 at `(1, 0)` would move `(2, 0)` to a place
    /// no transposition gives it, so this library keeps to the swap that the name and this
    /// sentence promise.
    pub fn transpose(&self) -> (r: Self)
        requires
            self.wf(),
            4 * (self.spec_col_count() + self.spec_row_count()) <= usize::MAX,
            forall|i: int|
                0 <= i < self.entries().len() ==> #[trigger] self.entries()[i].1 <= self.spec_row_count()
                    && self.entries()[i].0 <= self.spec_col_count(),
        ensures
            r.wf(),
            r.spec_row_count() == self.spec_row_count(),
            r.spec_col_count() == self.spec_col_count(),
            r.entries().len() == self.entries().len(),
            forall|i: int|
                0 <= i < self.entries().len() ==> #[trigger] r.entries()[i] == (
                    self.entries()[i].1,
                    self.entries()[i].0,
                    self.entries()[i].2,
                ),
    {
        let mut transposed = SparseMatrix::with_capacity(self.col_count, self.row_count);
        let n = self.values.len();
        let mut i: usize = 0;
        while i < n
            invariant
                self.wf(),
                transposed.wf(),
                n == self.values@.len(),
                i <= n,
                transposed.spec_row_count() == self.spec_row_count(),
                transposed.spec_col_count() == self.spec_col_count(),
                forall|k: int|
                    0 <= k < self.entries().len() ==> #[trigger] self.entries()[k].1 <= self.spec_row_count()
                        && self.entries()[k].0 <= self.spec_col_count(),
                transposed.entries().len() == i,
                forall|k: int|
                    0 <= k < i ==> #[trigger] transposed.entries()[k] == (
                        self.entries()[k].1,
                        self.entries()[k].0,
                        self.entries()[k].2,
                    ),
            decreases n - i,
        {
            let row = self.col_indices[i];
            let col = self.row_indices[i];
            let value = self.values[i];
            assert(self.entries()[i as int].1 == row && self.entries()[i as int].0 == col);
            transposed.insert(row, col, value);
            i = i + 1;
        }
        transposed
    }
}
} // verus!
