//! Unique-value filter: emits only the first occurrence of each distinct
//! value (or of each distinct key, for the keyed variant), in original order,
//! over a scratch membership set that grows for the life of the filter.
use vstd::prelude::*;

use crate::iter::types::KeySet;
use crate::iter::types::key_set_contents;

verus! {

/// The subsequence of `s` keeping each value's first occurrence only.
pub open spec fn first_occurrences(s: Seq<u64>) -> Seq<u64>
    decreases s.len(),
{
    if s.len() == 0 {
        Seq::empty()
    } else {
        let prefix = first_occurrences(s.drop_last());
        if s.drop_last().contains(s.last()) {
            prefix
        } else {
            prefix.push(s.last())
        }
    }
}

/// The subsequence of `items` keeping an item exactly when its key's first
/// occurrence stands at the same position.  `items` and `keys` are read in
/// step, position by position.
pub open spec fn first_occurrences_by(items: Seq<u64>, keys: Seq<u64>) -> Seq<u64>
    decreases items.len(),
{
    if items.len() == 0 {
        Seq::empty()
    } else {
        let prefix = first_occurrences_by(items.drop_last(), keys.drop_last());
        if keys.drop_last().contains(keys.last()) {
            prefix
        } else {
            prefix.push(items.last())
        }
    }
}

/// `a` can be read out of `b` left to right, skipping freely.
pub open spec fn subsequence_of(a: Seq<u64>, b: Seq<u64>) -> bool
    decreases b.len(),
{
    if a.len() == 0 {
        true
    } else if b.len() == 0 {
        false
    } else if a.last() == b.last() {
        subsequence_of(a.drop_last(), b.drop_last())
    } else {
        subsequence_of(a, b.drop_last())
    }
}

proof fn lemma_subsequence_shorten(a: Seq<u64>, b: Seq<u64>)
    requires
        a.len() > 0,
        subsequence_of(a, b),
    ensures
        subsequence_of(a.drop_last(), b),
    decreases b.len(), a.len(), 0nat,
{
    if b.len() > 0 {
        if a.last() == b.last() {
            if a.drop_last().len() > 0 {
                lemma_subsequence_shorten(a.drop_last(), b.drop_last());
                lemma_subsequence_extend(a.drop_last().drop_last(), b.drop_last(), b.last());
                assert(b.drop_last().push(b.last()) =~= b);
            }
        } else {
            lemma_subsequence_shorten(a, b.drop_last());
            lemma_subsequence_extend(a.drop_last(), b.drop_last(), b.last());
            assert(b.drop_last().push(b.last()) =~= b);
        }
    }
}

proof fn lemma_subsequence_extend(a: Seq<u64>, b: Seq<u64>, x: u64)
    requires
        subsequence_of(a, b),
    ensures
        subsequence_of(a, b.push(x)),
    decreases b.len(), a.len(), 1nat,
{
    if a.len() > 0 {
        assert(b.push(x).drop_last() =~= b);
        if a.last() == x {
            lemma_subsequence_shorten(a, b);
        }
    }
}

/// The unique filter's output has no duplicate elements, is a subsequence of
/// its input, and holds exactly the input's distinct values, each at its
/// first occurrence.
pub proof fn lemma_first_occurrences(s: Seq<u64>)
    ensures
        first_occurrences(s).no_duplicates(),
        first_occurrences(s).to_set() == s.to_set(),
        subsequence_of(first_occurrences(s), s),
    decreases s.len(),
{
    if s.len() > 0 {
        let butlast = s.drop_last();
        let v = s.last();
        let prefix = first_occurrences(butlast);
        lemma_first_occurrences(butlast);
        butlast.lemma_push_to_set_commute(v);
        assert(butlast.push(v) =~= s);
        if butlast.contains(v) {
            assert(s.to_set() =~= butlast.to_set());
            lemma_subsequence_extend(prefix, butlast, v);
        } else {
            let out = prefix.push(v);
            assert(!butlast.to_set().contains(v));
            assert(!prefix.to_set().contains(v));
            assert(!prefix.contains(v));
            assert forall|i: int, j: int| 0 <= i < j < out.len() implies out[i] != out[j] by {
                if j < out.len() - 1 {
                    assert(out[i] == prefix[i] && out[j] == prefix[j]);
                } else {
                    assert(out[j] == v && out[i] == prefix[i]);
                    assert(prefix.contains(prefix[i]));
                }
            }
            assert(out.last() == s.last());
            assert(out.drop_last() =~= prefix);
        }
    }
}

/// An incremental unique filter: values are offered one at a time and come
/// back only at their first occurrence.  The ghost `fed` records everything
/// offered so far.
pub struct Unique {
    used: KeySet,
    fed: Ghost<Seq<u64>>,
}

impl Unique {
    /// Everything offered to the filter so far, oldest first.
    pub closed spec fn fed(self) -> Seq<u64> {
        self.fed@
    }

    /// The scratch set holds exactly the values offered so far.
    pub closed spec fn wf(self) -> bool {
        key_set_contents(self.used) == self.fed@.to_set()
    }

    pub fn new() -> (u: Unique)
        ensures
            u.wf(),
            u.fed() == Seq::<u64>::empty(),
    {
        proof {
            assert(Seq::<u64>::empty().to_set() =~= Set::<u64>::empty());
        }
        Unique { used: KeySet::with_capacity(0), fed: Ghost(Seq::empty()) }
    }

    /// Offers `v`; it comes back exactly when it was never offered before.
    pub fn next(&mut self, v: u64) -> (r: Option<u64>)
        requires
            old(self).wf(),
        ensures
            final(self).wf(),
            final(self).fed() == old(self).fed().push(v),
            r == if old(self).fed().contains(v) { None::<u64> } else { Some(v) },
    {
        proof {
            self.fed@.lemma_push_to_set_commute(v);
        }
        let newly = self.used.insert(v);
        self.fed = Ghost(self.fed@.push(v));
        if newly {
            Some(v)
        } else {
            None
        }
    }
}

/// A keyed unique filter: an item is emitted exactly when its key was never
/// seen before.
pub struct UniqueBy {
    used: KeySet,
    fed_keys: Ghost<Seq<u64>>,
}

impl UniqueBy {
    /// Every key offered to the filter so far, oldest first.
    pub closed spec fn fed_keys(self) -> Seq<u64> {
        self.fed_keys@
    }

    pub closed spec fn wf(self) -> bool {
        key_set_contents(self.used) == self.fed_keys@.to_set()
    }

    pub fn new() -> (u: UniqueBy)
        ensures
            u.wf(),
            u.fed_keys() == Seq::<u64>::empty(),
    {
        proof {
            assert(Seq::<u64>::empty().to_set() =~= Set::<u64>::empty());
        }
        UniqueBy { used: KeySet::with_capacity(0), fed_keys: Ghost(Seq::empty()) }
    }

    /// Offers an item under its projected key; the item comes back exactly
    /// when the key was never offered before.
    pub fn next(&mut self, item: u64, key: u64) -> (r: Option<u64>)
        requires
            old(self).wf(),
        ensures
            final(self).wf(),
            final(self).fed_keys() == old(self).fed_keys().push(key),
            r == if old(self).fed_keys().contains(key) { None::<u64> } else { Some(item) },
    {
        proof {
            self.fed_keys@.lemma_push_to_set_commute(key);
        }
        let newly = self.used.insert(key);
        self.fed_keys = Ghost(self.fed_keys@.push(key));
        if newly {
            Some(item)
        } else {
            None
        }
    }
}

/// De-duplicates `items`, keeping each value's first occurrence in original
/// order.
pub fn unique(items: &Vec<u64>) -> (r: Vec<u64>)
    ensures
        r@ == first_occurrences(items@),
{
    let mut filter = Unique::new();
    let mut out: Vec<u64> = Vec::new();
    let mut i: usize = 0;
    while i < items.len()
        invariant
            i <= items@.len(),
            filter.wf(),
            filter.fed() == items@.take(i as int),
            out@ == first_occurrences(items@.take(i as int)),
        decreases items@.len() - i,
    {
        let ghost prefix = items@.take(i as int);
        let v = items[i];
        let got = filter.next(v);
        if let Some(u) = got {
            out.push(u);
        }
        i = i + 1;
        proof {
            assert(items@.take(i as int) =~= prefix.push(v));
            assert(items@.take(i as int).drop_last() =~= prefix);
        }
    }
    proof {
        assert(items@.take(items@.len() as int) =~= items@);
    }
    out
}

/// De-duplicates `items` by projected key, keeping the item wherever its key
/// first occurs.  `keys[i]` is the key of `items[i]`.
pub fn unique_by(items: &Vec<u64>, keys: &Vec<u64>) -> (r: Vec<u64>)
    requires
        items@.len() == keys@.len(),
    ensures
        r@ == first_occurrences_by(items@, keys@),
{
    let mut filter = UniqueBy::new();
    let mut out: Vec<u64> = Vec::new();
    let mut i: usize = 0;
    while i < items.len()
        invariant
            i <= items@.len(),
            items@.len() == keys@.len(),
            filter.wf(),
            filter.fed_keys() == keys@.take(i as int),
            out@ == first_occurrences_by(items@.take(i as int), keys@.take(i as int)),
        decreases items@.len() - i,
    {
        let ghost item_prefix = items@.take(i as int);
        let ghost key_prefix = keys@.take(i as int);
        let v = items[i];
        let k = keys[i];
        let got = filter.next(v, k);
        if let Some(u) = got {
            out.push(u);
        }
        i = i + 1;
        proof {
            assert(items@.take(i as int) =~= item_prefix.push(v));
            assert(keys@.take(i as int) =~= key_prefix.push(k));
            assert(items@.take(i as int).drop_last() =~= item_prefix);
            assert(keys@.take(i as int).drop_last() =~= key_prefix);
        }
    }
    proof {
        assert(items@.take(items@.len() as int) =~= items@);
        assert(keys@.take(keys@.len() as int) =~= keys@);
    }
    out
}

/// How many keys of `keys` are new to `used`: the growth of the scratch set
/// when all of them are inserted.
pub fn count_new_keys(used: KeySet, keys: &Vec<u64>) -> (r: usize)
    requires
        key_set_contents(used).finite(),
    ensures
        r == key_set_contents(used).union(keys@.to_set()).len() - key_set_contents(used).len(),
{
    let ghost orig = key_set_contents(used);
    let mut used = used;
    let current_used = used.len();
    let mut count: usize = 0;
    let mut i: usize = 0;
    while i < keys.len()
        invariant
            i <= keys@.len(),
            orig.finite(),
            key_set_contents(used) == orig.union(keys@.take(i as int).to_set()),
            count == key_set_contents(used).len() - orig.len(),
            count <= i,
        decreases keys@.len() - i,
    {
        let ghost prefix_union = key_set_contents(used);
        let k = keys[i];
        let newly = used.insert(k);
        if newly {
            count = count + 1;
        }
        i = i + 1;
        proof {
            broadcast use vstd::set::axiom_set_insert_len;
            broadcast use vstd::set::axiom_set_insert_finite;
            keys@.take(i - 1).lemma_push_to_set_commute(k);
            assert(keys@.take(i as int) =~= keys@.take(i - 1).push(k));
            assert(key_set_contents(used) =~= orig.union(keys@.take(i as int).to_set()));
        }
    }
    proof {
        assert(keys@.take(keys@.len() as int) =~= keys@);
    }
    count
}

} // verus!
