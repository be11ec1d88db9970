//! NA-injection: wraps a value stream and lazily emits a missing marker in
//! place of excluded elements, one output per input, order preserved.  The
//! exclusion set is fixed before emission begins and is read either by value
//! or by position.
use vstd::prelude::*;

use crate::iter::types::KeySet;
use crate::iter::types::key_set_contents;

verus! {

/// `items` with every member of `excluded` replaced by the missing marker.
pub open spec fn na_by_value(items: Seq<u64>, excluded: Set<u64>) -> Seq<Option<u64>> {
    Seq::new(
        items.len(),
        |i: int| if excluded.contains(items[i]) {
            None
        } else {
            Some(items[i])
        },
    )
}

/// `items` with the element at each excluded position replaced by the missing
/// marker; the element at offset `i` stands at position `start + i`.
pub open spec fn na_by_index(items: Seq<u64>, excluded: Set<u64>, start: int) -> Seq<Option<u64>> {
    Seq::new(
        items.len(),
        |i: int| if excluded.contains((start + i) as u64) {
            None
        } else {
            Some(items[i])
        },
    )
}

/// NA-injection output length equals input length; an output is the missing
/// marker exactly at the excluded values (by-value) or exactly at the
/// excluded positions (by-index), and is the input element everywhere else.
pub proof fn lemma_na_injection(items: Seq<u64>, excluded: Set<u64>, start: int)
    ensures
        na_by_value(items, excluded).len() == items.len(),
        na_by_index(items, excluded, start).len() == items.len(),
        forall|i: int| 0 <= i < items.len() ==>
            (#[trigger] na_by_value(items, excluded)[i] is None <==> excluded.contains(items[i])),
        forall|i: int| 0 <= i < items.len() ==>
            (#[trigger] na_by_index(items, excluded, start)[i] is None
                <==> excluded.contains((start + i) as u64)),
        forall|i: int| 0 <= i < items.len() && !excluded.contains(items[i])
            ==> #[trigger] na_by_value(items, excluded)[i] == Some(items[i]),
        forall|i: int| 0 <= i < items.len() && !excluded.contains((start + i) as u64)
            ==> #[trigger] na_by_index(items, excluded, start)[i] == Some(items[i]),
{
}

/// Replaces a value by the missing marker exactly when it is a member of a
/// fixed value-exclusion set.
pub struct NoneByValue {
    values: KeySet,
}

/// Wraps the value-exclusion set `values` into a by-value injector.
pub fn none_by_value(values: KeySet) -> (r: NoneByValue)
    ensures
        r.excluded() == key_set_contents(values),
{
    NoneByValue { values }
}

impl NoneByValue {
    /// The fixed set of values rendered as missing.
    pub closed spec fn excluded(self) -> Set<u64> {
        key_set_contents(self.values)
    }

    /// The next input element, blanked exactly when it is excluded.
    pub fn next(&self, v: u64) -> (r: Option<u64>)
        ensures
            r == if self.excluded().contains(v) {
                None::<u64>
            } else {
                Some(v)
            },
    {
        if self.values.contains(v) {
            None
        } else {
            Some(v)
        }
    }

    /// Injects over a whole stream at once: one output per input, in order.
    pub fn apply_all(&self, items: &Vec<u64>) -> (r: Vec<Option<u64>>)
        ensures
            r@ == na_by_value(items@, self.excluded()),
    {
        let mut out: Vec<Option<u64>> = Vec::new();
        let mut i: usize = 0;
        while i < items.len()
            invariant
                i <= items@.len(),
                out@ == na_by_value(items@.take(i as int), self.excluded()),
            decreases items@.len() - i,
        {
            let v = self.next(items[i]);
            out.push(v);
            i = i + 1;
            proof {
                assert(out@ =~= na_by_value(items@.take(i as int), self.excluded()));
            }
        }
        proof {
            assert(out@ =~= na_by_value(items@, self.excluded()));
        }
        out
    }
}

/// Replaces the element at a position by the missing marker exactly when the
/// position is a member of a fixed index-exclusion set.  The position counter
/// advances once per input element whatever was emitted.
pub struct NoneByIndex {
    indices: KeySet,
    head: u64,
}

/// Wraps the index-exclusion set `indices` into a by-index injector whose
/// position counter starts at zero.
pub fn none_by_index(indices: KeySet) -> (r: NoneByIndex)
    ensures
        r.excluded() == key_set_contents(indices),
        r.head() == 0,
{
    NoneByIndex { indices, head: 0 }
}

impl NoneByIndex {
    /// The fixed set of positions rendered as missing.
    pub closed spec fn excluded(self) -> Set<u64> {
        key_set_contents(self.indices)
    }

    /// The zero-based position the next input element will stand at.
    pub closed spec fn head(self) -> u64 {
        self.head
    }

    /// The next input element, blanked exactly when its position is excluded;
    /// the position counter advances either way.
    pub fn next(&mut self, v: u64) -> (r: Option<u64>)
        requires
            old(self).head() < u64::MAX,
        ensures
            final(self).excluded() == old(self).excluded(),
            final(self).head() == old(self).head() + 1,
            r == if old(self).excluded().contains(old(self).head()) {
                None::<u64>
            } else {
                Some(v)
            },
    {
        let excluded = self.indices.contains(self.head);
        self.head = self.head + 1;
        if excluded {
            None
        } else {
            Some(v)
        }
    }

    /// Injects over a whole stream at once: one output per input, in order,
    /// advancing the position counter by the stream's length.
    pub fn apply_all(&mut self, items: &Vec<u64>) -> (r: Vec<Option<u64>>)
        requires
            old(self).head() + items@.len() <= u64::MAX,
        ensures
            r@ == na_by_index(items@, old(self).excluded(), old(self).head() as int),
            final(self).excluded() == old(self).excluded(),
            final(self).head() == old(self).head() + items@.len(),
    {
        let ghost start = self.head() as int;
        let mut out: Vec<Option<u64>> = Vec::new();
        let mut i: usize = 0;
        while i < items.len()
            invariant
                i <= items@.len(),
                start + items@.len() <= u64::MAX,
                self.excluded() == old(self).excluded(),
                self.head() == start + i,
                out@ == na_by_index(items@.take(i as int), old(self).excluded(), start),
            decreases items@.len() - i,
        {
            let v = self.next(items[i]);
            out.push(v);
            i = i + 1;
            proof {
                assert(out@ =~= na_by_index(items@.take(i as int), old(self).excluded(), start));
            }
        }
        proof {
            assert(out@ =~= na_by_index(items@, old(self).excluded(), start));
        }
        out
    }
}

} // verus!
