//! Whole-row sorting support: selection of the fields a sort keys on, and
//! the lexicographic comparator shared with the merge path.
use vstd::prelude::*;

use crate::io::manipulate::lex_ordering;
use crate::io::manipulate::row_le;

verus! {

/// The column indices a sort keys on, in key order.
#[derive(Clone, Debug)]
pub struct Selector(Vec<usize>);

impl Selector {
    /// The selected column indices, in key order.
    pub closed spec fn indices(self) -> Seq<usize> {
        self.0@
    }

    /// Wraps the column indices into a selector.
    pub fn new(indices: Vec<usize>) -> (s: Selector)
        ensures
            s.indices() == indices@,
    {
        Selector(indices)
    }

    /// Picks the selected fields out of a row, in key order.  Every selected
    /// index must lie within the row.
    pub fn select(&self, row: &Vec<Vec<u8>>) -> (r: Vec<Vec<u8>>)
        requires
            forall|j: int| 0 <= j < self.indices().len() ==> #[trigger] self.indices()[j] < row@.len(),
        ensures
            r.deep_view() == Seq::new(
                self.indices().len(),
                |j: int| row.deep_view()[self.indices()[j] as int],
            ),
    {
        let mut out: Vec<Vec<u8>> = Vec::new();
        let mut j: usize = 0;
        proof {
            assert(self.indices() == self.0@);
        }
        while j < self.0.len()
            invariant
                j <= self.0@.len(),
                forall|t: int| 0 <= t < self.indices().len() ==> #[trigger] self.indices()[t] < row@.len(),
                self.indices() == self.0@,
                out@.len() == j,
                forall|t: int| 0 <= t < j ==> #[trigger] out@[t]@ == row@[self.0@[t] as int]@,
            decreases self.0@.len() - j,
        {
            let idx = self.0[j];
            let field = clone_field(&row[idx]);
            out.push(field);
            j = j + 1;
        }
        proof {
            assert forall|t: int| 0 <= t < out@.len() implies #[trigger] out.deep_view()[t]
                == row.deep_view()[self.0@[t] as int] by {
                assert(out.deep_view()[t] =~= out@[t]@);
                assert(row.deep_view()[self.0@[t] as int] =~= row@[self.0@[t] as int]@);
            }
            assert(out.deep_view() =~= Seq::new(
                self.indices().len(),
                |j: int| row.deep_view()[self.indices()[j] as int],
            ));
        }
        out
    }
}

/// Copies one byte field.
fn clone_field(f: &Vec<u8>) -> (r: Vec<u8>)
    ensures
        r@ == f@,
{
    let mut out: Vec<u8> = Vec::new();
    let mut k: usize = 0;
    while k < f.len()
        invariant
            k <= f@.len(),
            out@ == f@.take(k as int),
        decreases f@.len() - k,
    {
        out.push(f[k]);
        k = k + 1;
        proof {
            assert(out@ =~= f@.take(k as int));
        }
    }
    proof {
        assert(out@ =~= f@);
    }
    out
}

/// Compares two rows of selected fields, left to right, each field by its
/// raw bytes; the same order the chunk sort and the merge use.
pub fn cmp_lex(a: &Vec<Vec<u8>>, b: &Vec<Vec<u8>>) -> (r: core::cmp::Ordering)
    ensures
        (r == core::cmp::Ordering::Equal <==> a.deep_view() == b.deep_view()),
        (r == core::cmp::Ordering::Less
            <==> row_le(a.deep_view(), b.deep_view()) && a.deep_view() != b.deep_view()),
        (r == core::cmp::Ordering::Greater
            <==> row_le(b.deep_view(), a.deep_view()) && b.deep_view() != a.deep_view()),
{
    lex_ordering(a, b)
}

} // verus!
