use vstd::prelude::*;

verus! {

/// A dense table of integers with rows of equal length.
#[derive(Debug)]
pub struct Matrix {
    pub rows: Vec<Vec<i64>>,
    pub ncols: usize,
}

impl View for Matrix {
    type V = Seq<Seq<int>>;

    open spec fn view(&self) -> Seq<Seq<int>> {
        Seq::new(
            self.rows@.len(),
            |i: int| Seq::new(self.rows@[i]@.len(), |j: int| self.rows@[i]@[j] as int),
        )
    }
}

/// Every row of `m` has `ncols` entries.
pub open spec fn rectangular(m: Seq<Seq<int>>, ncols: int) -> bool {
    forall|i: int| 0 <= i < m.len() ==> (#[trigger] m[i]).len() == ncols
}

impl Matrix {
    /// Every row has `ncols` entries.
    pub open spec fn wf(&self) -> bool {
        forall|i: int| 0 <= i < self.rows@.len() ==> (#[trigger] self.rows@[i])@.len() == self.ncols
    }

    /// Builds a matrix from its rows. `ncols` is the length of the first row,
    /// or 0 where there is none. Fails exactly when two rows differ in length.
    pub fn from_rows(rows: Vec<Vec<i64>>) -> (r: Option<Matrix>)
        ensures
            r.is_some() <==> (forall|i: int|
                0 <= i < rows@.len() ==> (#[trigger] rows@[i])@.len() == rows@[0]@.len()),
            r.is_some() ==> r.unwrap().wf() && r.unwrap().rows == rows && (rows@.len() > 0
                ==> r.unwrap().ncols == rows@[0]@.len()) && (rows@.len() == 0 ==> r.unwrap().ncols
                == 0),
    {
        let ncols: usize = if rows.len() > 0 {
            rows[0].len()
        } else {
            0
        };
        let mut i: usize = 0;
        while i < rows.len()
            invariant
                i <= rows@.len(),
                rows@.len() > 0 ==> ncols == rows@[0]@.len(),
                forall|k: int| 0 <= k < i ==> (#[trigger] rows@[k])@.len() == ncols,
            decreases rows@.len() - i,
        {
            if rows[i].len() != ncols {
                return None;
            }
            i += 1;
        }
        Some(Matrix { rows, ncols })
    }

    pub fn nrows(&self) -> (n: usize)
        ensures
            n == self@.len(),
    {
        self.rows.len()
    }

    pub fn ncols(&self) -> (n: usize)
        ensures
            n == self.ncols,
    {
        self.ncols
    }

    pub fn get(&self, i: usize, j: usize) -> (x: i64)
        requires
            self.wf(),
            i < self@.len(),
            j < self.ncols,
        ensures
            x == self@[i as int][j as int],
    {
        self.rows[i][j]
    }
}

} // verus!
