//! Tables of values by node.
//!
//! SPDX-License-Identifier: MIT OR Apache-2.0

use crate::attribution::amount::Amount;
use crate::attribution::shapley;
use vstd::prelude::*;

verus! {

/// One column of values per node.
#[derive(Clone, Debug, PartialEq)]
pub struct NodeTable<N> {
    /// Columns, by node.
    pub columns: Vec<Vec<N>>,
    /// Rows of every column.
    pub n_rows: usize,
}

impl<N> NodeTable<N> {
    /// One full column per node.
    pub open spec fn fits(self, n: nat) -> bool {
        &&& self.columns@.len() == n
        &&& forall|x: int| 0 <= x < n ==> (#[trigger] self.columns@[x])@.len() == self.n_rows
    }

    /// Value of a node in a row.
    pub open spec fn at(self, node: int, row: int) -> N {
        self.columns@[node]@[row]
    }
}

/// Mean of a column; the empty one has its sum.
pub open spec fn mean<N: Amount>(column: Seq<N>) -> N {
    shapley::total(column).over(
        N::counted(
            if column.len() == 0 {
                1
            } else {
                column.len()
            },
        ),
    )
}

/// Mean of a column; the empty one has its sum.
#[must_use]
pub fn mean_of<N: Amount>(column: &Vec<N>) -> (value: N)
    ensures
        value == mean(column@),
{
    let count: usize = if column.len() == 0 {
        1
    } else {
        column.len()
    };
    shapley::sum_of(column.as_slice()).quotient(N::count(count as u64))
}

/// Rows that are asked for: the listed ones, or all.
pub open spec fn rows_asked(listed: Option<Vec<usize>>, n_rows: usize) -> Seq<usize> {
    match listed {
        Some(rows) => rows@,
        None => Seq::new(n_rows as nat, |i: int| i as usize),
    }
}

/// List the rows that are asked for.
#[must_use]
pub fn requested_rows(listed: &Option<Vec<usize>>, n_rows: usize) -> (rows: Vec<usize>)
    ensures
        rows@ == rows_asked(*listed, n_rows),
{
    let mut rows: Vec<usize> = Vec::new();
    match listed {
        Some(list) => {
            let mut i: usize = 0;
            while i < list.len()
                invariant
                    0 <= i <= list@.len(),
                    rows@ == list@.take(i as int),
                decreases list.len() - i,
            {
                rows.push(list[i]);
                i = i + 1;
                assert(rows@ =~= list@.take(i as int));
            }
            assert(list@.take(list@.len() as int) =~= list@);
        },
        None => {
            while rows.len() < n_rows
                invariant
                    rows@.len() <= n_rows,
                    rows@ == Seq::new(rows@.len(), |i: int| i as usize),
                decreases n_rows - rows.len(),
            {
                rows.push(rows.len());
                assert(rows@ =~= Seq::new(rows@.len(), |i: int| i as usize));
            }
        },
    }
    rows
}

} // verus!
