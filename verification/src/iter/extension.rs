//! Stream extension capabilities: de-duplication, reservoir sampling and
//! NA-injection, offered as traits over a materialized value stream.
use vstd::prelude::*;

use crate::iter::none::na_by_index;
use crate::iter::none::na_by_value;
use crate::iter::none::none_by_index;
use crate::iter::none::none_by_value;
pub use crate::iter::types::KeySet;
use crate::iter::types::key_set_contents;
use crate::iter::unique::first_occurrences;
use crate::iter::unique::first_occurrences_by;
use crate::iter::unique::unique;
use crate::iter::unique::unique_by;
use crate::rand::init;

verus! {

/// Builds a scratch set holding exactly the values of `vs`.
fn set_from_vec(vs: &Vec<u64>) -> (r: KeySet)
    ensures
        key_set_contents(r) == vs@.to_set(),
        key_set_contents(r).finite(),
{
    let mut s = KeySet::with_capacity(vs.len());
    let mut i: usize = 0;
    proof {
        assert(Seq::<u64>::empty().to_set() =~= Set::<u64>::empty());
    }
    while i < vs.len()
        invariant
            i <= vs@.len(),
            key_set_contents(s) == vs@.take(i as int).to_set(),
            key_set_contents(s).finite(),
        decreases vs@.len() - i,
    {
        let v = vs[i];
        s.insert(v);
        i = i + 1;
        proof {
            vs@.take(i - 1).lemma_push_to_set_commute(v);
            assert(vs@.take(i as int) =~= vs@.take(i - 1).push(v));
        }
    }
    proof {
        assert(vs@.take(vs@.len() as int) =~= vs@);
    }
    s
}

/// De-duplication of a stream, preserving first-seen order.
pub trait UniqueValueIterator: View<V = Seq<u64>> {
    /// Each distinct value once, at its first occurrence.
    fn unique(&self) -> (r: Vec<u64>)
        ensures
            r@ == first_occurrences(self@),
    ;

    /// Each item whose key (read in step from `keys`) occurs there first.
    fn unique_by(&self, keys: &Vec<u64>) -> (r: Vec<u64>)
        requires
            self@.len() == keys@.len(),
        ensures
            r@ == first_occurrences_by(self@, keys@),
    ;
}

impl UniqueValueIterator for Vec<u64> {
    fn unique(&self) -> (r: Vec<u64>) {
        unique(self)
    }

    fn unique_by(&self, keys: &Vec<u64>) -> (r: Vec<u64>) {
        unique_by(self, keys)
    }
}

/// Single-pass uniform reservoir sampling of up to `amount` elements from a
/// stream of unknown length.
pub trait SamplingIterator: View<V = Seq<u64>> {
    /// Selects a uniform random subset of up to `amount` elements, sampled by
    /// position in one forward pass.  For a duplicate-free stream of length
    /// `n` the result holds exactly `min(amount, n)` values; duplicated
    /// values may coalesce in the returned set.
    fn choose_sample(&self, amount: usize) -> (r: KeySet)
        ensures
            key_set_contents(r).finite(),
            key_set_contents(r).subset_of(self@.to_set()),
            key_set_contents(r).len() <= amount,
            key_set_contents(r).len() <= self@.len(),
            self@.no_duplicates() ==> key_set_contents(r).len()
                == vstd::math::min(amount as int, self@.len() as int),
    ;
}

impl SamplingIterator for Vec<u64> {
    fn choose_sample(&self, amount: usize) -> (r: KeySet) {
        if amount < 1 {
            let r = KeySet::with_capacity(0);
            proof {
                assert(key_set_contents(r) =~= Set::<u64>::empty());
                if self@.no_duplicates() {
                    self@.unique_seq_to_set();
                }
            }
            return r;
        }
        let (_, mut rng) = init();
        let mut reservoir: Vec<u64> = Vec::new();
        let ghost mut positions: Seq<int> = Seq::empty();
        let mut i: usize = 0;
        // Fill the reservoir with the first `amount` elements.
        while i < self.len() && i < amount
            invariant
                i <= self@.len(),
                i <= amount,
                reservoir@.len() == i,
                positions.len() == i,
                forall|j: int| 0 <= j < i ==> #[trigger] positions[j] == j,
                forall|j: int| 0 <= j < i ==> #[trigger] reservoir@[j] == self@[positions[j]],
            decreases self@.len() - i,
        {
            reservoir.push(self[i]);
            proof {
                positions = positions.push(i as int);
            }
            i = i + 1;
        }
        proof {
            assert(positions.no_duplicates());
        }
        // Replace reservoir slots with decreasing probability for each later
        // element, so that every position is equally likely to survive; a
        // stream shorter than the reservoir is kept whole.
        if i == amount {
            while i < self.len()
                invariant
                    1 <= amount <= i <= self@.len(),
                    reservoir@.len() == amount,
                    positions.len() == amount,
                    positions.no_duplicates(),
                    forall|j: int| 0 <= j < amount ==> 0 <= #[trigger] positions[j] < i,
                    forall|j: int| 0 <= j < amount ==> #[trigger] reservoir@[j] == self@[positions[j]],
                decreases self@.len() - i,
            {
                let k = rng.next_range(0, (i + 1) as u64);
                if k < amount as u64 {
                    let slot = k as usize;
                    reservoir[slot] = self[i];
                    proof {
                        let old_positions = positions;
                        positions = positions.update(slot as int, i as int);
                        assert forall|j1: int, j2: int| 0 <= j1 < j2 < positions.len()
                            implies positions[j1] != positions[j2] by {
                            if j1 != slot && j2 != slot {
                                assert(positions[j1] == old_positions[j1]);
                                assert(positions[j2] == old_positions[j2]);
                            }
                        }
                    }
                }
                i = i + 1;
            }
        }
        proof {
            if self@.no_duplicates() {
                assert forall|j1: int, j2: int| 0 <= j1 < j2 < reservoir@.len()
                    implies reservoir@[j1] != reservoir@[j2] by {
                    assert(reservoir@[j1] == self@[positions[j1]]);
                    assert(reservoir@[j2] == self@[positions[j2]]);
                }
                reservoir@.unique_seq_to_set();
                self@.unique_seq_to_set();
            }
            assert forall|x: u64| reservoir@.to_set().contains(x) implies self@.to_set().contains(x) by {
                let j = choose|j: int| 0 <= j < reservoir@.len() && reservoir@[j] == x;
                assert(reservoir@[j] == self@[positions[j]]);
                assert(self@.contains(x));
            }
            reservoir@.lemma_cardinality_of_set();
        }
        set_from_vec(&reservoir)
    }
}

/// NA-injection of a stream against a fixed exclusion set.
pub trait OptionalIterator: View<V = Seq<u64>> {
    /// One output per input: the missing marker wherever the input value is
    /// in `values`, the value itself everywhere else.
    fn none_by_value(&self, values: KeySet) -> (r: Vec<Option<u64>>)
        ensures
            r@ == na_by_value(self@, key_set_contents(values)),
    ;

    /// One output per input: the missing marker wherever the input position
    /// (zero-based) is in `indices`, the value itself everywhere else.
    fn none_by_index(&self, indices: KeySet) -> (r: Vec<Option<u64>>)
        ensures
            r@ == na_by_index(self@, key_set_contents(indices), 0),
    ;
}

impl OptionalIterator for Vec<u64> {
    fn none_by_value(&self, values: KeySet) -> (r: Vec<Option<u64>>) {
        let injector = none_by_value(values);
        injector.apply_all(self)
    }

    fn none_by_index(&self, indices: KeySet) -> (r: Vec<Option<u64>>) {
        let mut injector = none_by_index(indices);
        let n = self.len();
        proof {
            assert(n <= u64::MAX);
        }
        injector.apply_all(self)
    }
}

} // verus!
