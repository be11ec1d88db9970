//! Uniform sampling of a subset of the distinct values of a stream: first the
//! stream is de-duplicated into a scratch vector, then values are drawn from
//! it one by one at random positions until the requested size is reached or
//! the distinct values run out.
use vstd::prelude::*;

use crate::iter::types::KeySet;
use crate::iter::types::key_set_contents;

verus! {

/// Relies on `fastrand::usize`: the result lies below `len`; the call panics
/// on an empty range, which `requires` leaves out.  Nothing is assumed about
/// which index comes back.
#[verifier::external_body]
fn rand_index(len: usize) -> (r: usize)
    requires
        len > 0,
    ensures
        r < len,
{
    fastrand::usize(0..len)
}

/// Removing one slot of a duplicate-free sequence by swapping the last value
/// into it drops exactly that slot's value from the value set.
proof fn lemma_swap_remove_distinct(s: Seq<u64>, i: int)
    requires
        0 <= i < s.len(),
        s.no_duplicates(),
    ensures
        s.update(i, s.last()).drop_last().no_duplicates(),
        s.update(i, s.last()).drop_last().to_set() =~= s.to_set().remove(s[i]),
{
    let t = s.update(i, s.last()).drop_last();
    assert forall|j1: int, j2: int| 0 <= j1 < j2 < t.len() implies t[j1] != t[j2] by {
        let k1: int = if j1 == i { s.len() - 1 } else { j1 };
        let k2: int = if j2 == i { s.len() - 1 } else { j2 };
        assert(t[j1] == s[k1]);
        assert(t[j2] == s[k2]);
    }
    assert forall|x: u64| t.to_set().contains(x) implies s.to_set().remove(s[i]).contains(x) by {
        let j = choose|j: int| 0 <= j < t.len() && t[j] == x;
        let k: int = if j == i { s.len() - 1 } else { j };
        assert(s[k] == x);
        assert(s.contains(x));
    }
    assert forall|x: u64| s.to_set().remove(s[i]).contains(x) implies t.to_set().contains(x) by {
        let k = choose|k: int| 0 <= k < s.len() && s[k] == x;
        if k == s.len() - 1 {
            if i < s.len() - 1 {
                assert(t[i] == x);
            }
        } else {
            assert(t[k] == x);
        }
    }
}

/// The distinct values of `items`, each exactly once, in an order nothing is
/// assumed about.  `capacity` only pre-sizes the scratch set.
pub fn arg_unique(items: &Vec<u64>, capacity: usize) -> (r: Vec<u64>)
    ensures
        r@.no_duplicates(),
        r@.to_set() == items@.to_set(),
{
    let mut us = KeySet::with_capacity(capacity);
    let mut i: usize = 0;
    while i < items.len()
        invariant
            i <= items@.len(),
            key_set_contents(us) == items@.take(i as int).to_set(),
        decreases items@.len() - i,
    {
        let v = items[i];
        us.insert(v);
        i = i + 1;
        proof {
            assert(items@.take(i as int) =~= items@.take(i - 1).push(v));
            items@.take(i - 1).lemma_push_to_set_commute(v);
        }
    }
    proof {
        assert(items@.take(items@.len() as int) =~= items@);
    }
    us.to_vec()
}

/// Draws up to `sample_size` values from the duplicate-free vector `vs`, each
/// at a random position, without replacement.
fn sample(vs: Vec<u64>, sample_size: usize) -> (r: KeySet)
    requires
        vs@.no_duplicates(),
    ensures
        key_set_contents(r).finite(),
        key_set_contents(r).subset_of(vs@.to_set()),
        key_set_contents(r).len() == vstd::math::min(sample_size as int, vs@.to_set().len() as int),
{
    let mut vs = vs;
    let mut ss = KeySet::with_capacity(sample_size);
    let ghost all = vs@.to_set();
    let mut k: usize = 0;
    proof {
        vs@.unique_seq_to_set();
    }
    while k < sample_size && vs.len() > 0
        invariant
            k <= sample_size,
            vs@.no_duplicates(),
            vs@.to_set().len() == vs@.len(),
            key_set_contents(ss).finite(),
            key_set_contents(ss).len() == k,
            key_set_contents(ss).disjoint(vs@.to_set()),
            key_set_contents(ss).union(vs@.to_set()) == all,
            all.finite(),
            key_set_contents(ss).len() + vs@.len() == all.len(),
        decreases sample_size - k,
    {
        let i = rand_index(vs.len());
        let ghost old_vs = vs@;
        let ghost old_picked = key_set_contents(ss);
        let v = vs.swap_remove(i);
        ss.insert(v);
        k = k + 1;
        proof {
            broadcast use vstd::set::axiom_set_insert_len;
            broadcast use vstd::set::axiom_set_insert_finite;
            lemma_swap_remove_distinct(old_vs, i as int);
            vs@.unique_seq_to_set();
            assert(!old_picked.contains(v));
            assert(key_set_contents(ss).union(vs@.to_set()) =~= all);
        }
    }
    ss
}

/// Uniform sampling of a hashed set's worth of distinct stream values: the
/// result holds `min(sample_size, d)` values drawn from the `d` distinct
/// values of the stream.
pub trait SampleHashMap {
    type Type;

    fn sample(items: &Vec<u64>, capacity: usize, sample_size: usize) -> Self::Type;
}

impl SampleHashMap for KeySet {
    type Type = KeySet;

    /// De-duplicates `items` and draws up to `sample_size` of its distinct
    /// values at random, without replacement.
    fn sample(items: &Vec<u64>, capacity: usize, sample_size: usize) -> (r: Self::Type)
        ensures
            key_set_contents(r).finite(),
            key_set_contents(r).subset_of(items@.to_set()),
            key_set_contents(r).len() == vstd::math::min(sample_size as int, items@.to_set().len() as int),
    {
        let vs = arg_unique(items, capacity);
        sample(vs, sample_size)
    }
}

} // verus!
