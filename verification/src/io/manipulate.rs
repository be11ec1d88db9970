//! Row joining and sorting: the row zipper that combines per-column record
//! streams into wide rows, the in-memory chunk sort, and the K-way merge of
//! sorted runs.  Rows are ordered field by field, left to right, each field
//! by its raw bytes; a strict prefix sorts first.
use vstd::prelude::*;

use vstd::multiset::Multiset;
use vstd::relations::sorted_by;
use vstd::relations::total_ordering;

verus! {

/// Strict lexicographic byte order: `a` sorts before `b`.
pub open spec fn bytes_lt(a: Seq<u8>, b: Seq<u8>) -> bool
    decreases a.len(),
{
    if b.len() == 0 {
        false
    } else if a.len() == 0 {
        true
    } else if a[0] != b[0] {
        a[0] < b[0]
    } else {
        bytes_lt(a.drop_first(), b.drop_first())
    }
}

/// Of two byte sequences, exactly one holds: the first sorts strictly
/// before, they are equal, or the second sorts strictly before.
pub proof fn lemma_bytes_lt_trichotomy(a: Seq<u8>, b: Seq<u8>)
    ensures
        bytes_lt(a, b) || bytes_lt(b, a) || a == b,
        bytes_lt(a, b) ==> !bytes_lt(b, a) && a != b,
        bytes_lt(b, a) ==> !bytes_lt(a, b) && a != b,
    decreases a.len(),
{
    if a.len() == 0 && b.len() == 0 {
        assert(a =~= b);
    } else if a.len() > 0 && b.len() > 0 && a[0] == b[0] {
        lemma_bytes_lt_trichotomy(a.drop_first(), b.drop_first());
        if a.drop_first() == b.drop_first() {
            assert forall|i: int| 0 <= i < a.len() implies a[i] == b[i] by {
                if i > 0 {
                    assert(a.drop_first()[i - 1] == b.drop_first()[i - 1]);
                }
            }
            assert(a =~= b);
        }
        if a == b {
            assert(a.drop_first() =~= b.drop_first());
        }
    }
}

/// Strict lexicographic byte order is transitive.
pub proof fn lemma_bytes_lt_transitive(a: Seq<u8>, b: Seq<u8>, c: Seq<u8>)
    requires
        bytes_lt(a, b),
        bytes_lt(b, c),
    ensures
        bytes_lt(a, c),
    decreases a.len(),
{
    if a.len() > 0 && b.len() > 0 && c.len() > 0 && a[0] == b[0] && b[0] == c[0] {
        lemma_bytes_lt_transitive(a.drop_first(), b.drop_first(), c.drop_first());
    }
}

/// Row order: fields left to right, each field by `bytes_lt`, a strict
/// prefix of the other's field list first.  Reflexive (`a` is not below
/// itself strictly): this is the non-strict total order the sort uses.
pub open spec fn row_le(a: Seq<Seq<u8>>, b: Seq<Seq<u8>>) -> bool
    decreases a.len(),
{
    if a.len() == 0 {
        true
    } else if b.len() == 0 {
        false
    } else if a[0] == b[0] {
        row_le(a.drop_first(), b.drop_first())
    } else {
        bytes_lt(a[0], b[0])
    }
}

/// The row order as a first-class relation, for `sorted_by`.
pub open spec fn row_le_fn() -> spec_fn(Seq<Seq<u8>>, Seq<Seq<u8>>) -> bool {
    |a: Seq<Seq<u8>>, b: Seq<Seq<u8>>| row_le(a, b)
}

proof fn lemma_row_le_refl(a: Seq<Seq<u8>>)
    ensures
        row_le(a, a),
    decreases a.len(),
{
    if a.len() > 0 {
        lemma_row_le_refl(a.drop_first());
    }
}

proof fn lemma_row_le_antisymmetric(a: Seq<Seq<u8>>, b: Seq<Seq<u8>>)
    requires
        row_le(a, b),
        row_le(b, a),
    ensures
        a == b,
    decreases a.len(),
{
    if a.len() > 0 && b.len() > 0 {
        if a[0] == b[0] {
            lemma_row_le_antisymmetric(a.drop_first(), b.drop_first());
            assert(a.len() == a.drop_first().len() + 1);
            assert(b.len() == b.drop_first().len() + 1);
            assert forall|i: int| 0 <= i < a.len() implies a[i] == b[i] by {
                if i > 0 {
                    assert(a.drop_first()[i - 1] == b.drop_first()[i - 1]);
                }
            }
            assert(a =~= b);
        } else {
            lemma_bytes_lt_trichotomy(a[0], b[0]);
        }
    }
}

proof fn lemma_row_le_transitive(a: Seq<Seq<u8>>, b: Seq<Seq<u8>>, c: Seq<Seq<u8>>)
    requires
        row_le(a, b),
        row_le(b, c),
    ensures
        row_le(a, c),
    decreases a.len(),
{
    if a.len() > 0 && b.len() > 0 && c.len() > 0 {
        if a[0] == b[0] && b[0] == c[0] {
            lemma_row_le_transitive(a.drop_first(), b.drop_first(), c.drop_first());
        } else if a[0] != b[0] && b[0] != c[0] {
            lemma_bytes_lt_transitive(a[0], b[0], c[0]);
            lemma_bytes_lt_trichotomy(a[0], c[0]);
        }
    }
}

proof fn lemma_row_le_connected(a: Seq<Seq<u8>>, b: Seq<Seq<u8>>)
    ensures
        row_le(a, b) || row_le(b, a),
    decreases a.len(),
{
    if a.len() > 0 && b.len() > 0 {
        if a[0] == b[0] {
            lemma_row_le_connected(a.drop_first(), b.drop_first());
        } else {
            lemma_bytes_lt_trichotomy(a[0], b[0]);
        }
    }
}

/// The row order is a total order: any two rows compare, and two rows below
/// each other are the same row.
pub proof fn lemma_row_le_total_ordering()
    ensures
        total_ordering(row_le_fn()),
{
    let leq = row_le_fn();
    assert forall|a: Seq<Seq<u8>>| #[trigger] leq(a, a) by {
        lemma_row_le_refl(a);
    }
    assert forall|a: Seq<Seq<u8>>, b: Seq<Seq<u8>>| #[trigger] leq(a, b) && #[trigger] leq(b, a)
        implies a == b by {
        lemma_row_le_antisymmetric(a, b);
    }
    assert forall|a: Seq<Seq<u8>>, b: Seq<Seq<u8>>, c: Seq<Seq<u8>>|
        #[trigger] leq(a, b) && #[trigger] leq(b, c) implies leq(a, c) by {
        lemma_row_le_transitive(a, b, c);
    }
    assert forall|a: Seq<Seq<u8>>, b: Seq<Seq<u8>>| true implies #[trigger] leq(a, b) || #[trigger] leq(b, a) by {
        lemma_row_le_connected(a, b);
    }
}

/// A shared prefix does not decide the byte order: comparison starts where
/// the sequences first differ.
proof fn lemma_bytes_lt_common_prefix(a: Seq<u8>, b: Seq<u8>, i: int)
    requires
        0 <= i <= a.len(),
        i <= b.len(),
        forall|j: int| 0 <= j < i ==> a[j] == b[j],
    ensures
        bytes_lt(a, b) == bytes_lt(a.skip(i), b.skip(i)),
    decreases i,
{
    if i > 0 {
        assert(a[0] == b[0]);
        assert(a.drop_first() =~= a.skip(1));
        assert(b.drop_first() =~= b.skip(1));
        assert(forall|j: int| 0 <= j < i - 1 ==> a.skip(1)[j] == b.skip(1)[j]);
        lemma_bytes_lt_common_prefix(a.skip(1), b.skip(1), i - 1);
        assert(a.skip(1).skip(i - 1) =~= a.skip(i));
        assert(b.skip(1).skip(i - 1) =~= b.skip(i));
    } else {
        assert(a.skip(0) =~= a);
        assert(b.skip(0) =~= b);
    }
}

/// A shared prefix of equal fields does not decide the row order either.
proof fn lemma_row_le_common_prefix(a: Seq<Seq<u8>>, b: Seq<Seq<u8>>, i: int)
    requires
        0 <= i <= a.len(),
        i <= b.len(),
        forall|j: int| 0 <= j < i ==> a[j] == b[j],
    ensures
        row_le(a, b) == row_le(a.skip(i), b.skip(i)),
    decreases i,
{
    if i > 0 {
        assert(a[0] == b[0]);
        assert(a.drop_first() =~= a.skip(1));
        assert(b.drop_first() =~= b.skip(1));
        assert(forall|j: int| 0 <= j < i - 1 ==> a.skip(1)[j] == b.skip(1)[j]);
        lemma_row_le_common_prefix(a.skip(1), b.skip(1), i - 1);
        assert(a.skip(1).skip(i - 1) =~= a.skip(i));
        assert(b.skip(1).skip(i - 1) =~= b.skip(i));
    } else {
        assert(a.skip(0) =~= a);
        assert(b.skip(0) =~= b);
    }
}

/// The element views of a row of byte fields.
proof fn lemma_row_view(v: Vec<Vec<u8>>)
    ensures
        v.deep_view().len() == v@.len(),
        forall|j: int| 0 <= j < v@.len() ==> #[trigger] v.deep_view()[j] == v@[j]@,
{
    assert forall|j: int| 0 <= j < v@.len() implies #[trigger] v.deep_view()[j] == v@[j]@ by {
        assert(v.deep_view()[j] =~= v@[j]@);
    }
}

/// Compares two byte fields lexicographically.
fn cmp_field(a: &Vec<u8>, b: &Vec<u8>) -> (r: core::cmp::Ordering)
    ensures
        (r == core::cmp::Ordering::Less <==> bytes_lt(a@, b@)),
        (r == core::cmp::Ordering::Greater <==> bytes_lt(b@, a@)),
        (r == core::cmp::Ordering::Equal <==> a@ == b@),
{
    let mut i: usize = 0;
    while i < a.len() && i < b.len()
        invariant
            i <= a@.len(),
            i <= b@.len(),
            forall|j: int| 0 <= j < i ==> a@[j] == b@[j],
        decreases a@.len() - i,
    {
        let x = a[i];
        let y = b[i];
        if x != y {
            proof {
                lemma_bytes_lt_common_prefix(a@, b@, i as int);
                lemma_bytes_lt_common_prefix(b@, a@, i as int);
                assert(a@.skip(i as int)[0] == x);
                assert(b@.skip(i as int)[0] == y);
                lemma_bytes_lt_trichotomy(a@, b@);
            }
            if x < y {
                return core::cmp::Ordering::Less;
            } else {
                return core::cmp::Ordering::Greater;
            }
        }
        i = i + 1;
    }
    proof {
        lemma_bytes_lt_common_prefix(a@, b@, i as int);
        lemma_bytes_lt_common_prefix(b@, a@, i as int);
        lemma_bytes_lt_trichotomy(a@, b@);
    }
    if a.len() < b.len() {
        proof {
            assert(b@.skip(i as int).len() > 0);
        }
        core::cmp::Ordering::Less
    } else if b.len() < a.len() {
        proof {
            assert(a@.skip(i as int).len() > 0);
        }
        core::cmp::Ordering::Greater
    } else {
        proof {
            assert(a@ =~= b@);
        }
        core::cmp::Ordering::Equal
    }
}

/// Compares two rows field by field, left to right, each field by its raw
/// bytes; a row whose field list is a strict prefix of the other's sorts
/// first.
pub fn lex_ordering(a: &Vec<Vec<u8>>, b: &Vec<Vec<u8>>) -> (r: core::cmp::Ordering)
    ensures
        (r == core::cmp::Ordering::Equal <==> a.deep_view() == b.deep_view()),
        (r == core::cmp::Ordering::Less
            <==> row_le(a.deep_view(), b.deep_view()) && a.deep_view() != b.deep_view()),
        (r == core::cmp::Ordering::Greater
            <==> row_le(b.deep_view(), a.deep_view()) && b.deep_view() != a.deep_view()),
{
    let ghost av = a.deep_view();
    let ghost bv = b.deep_view();
    proof {
        lemma_row_view(*a);
        lemma_row_view(*b);
    }
    let mut i: usize = 0;
    while i < a.len() && i < b.len()
        invariant
            i <= av.len(),
            i <= bv.len(),
            av == a.deep_view(),
            bv == b.deep_view(),
            av.len() == a@.len(),
            bv.len() == b@.len(),
            forall|j: int| 0 <= j < av.len() ==> #[trigger] av[j] == a@[j]@,
            forall|j: int| 0 <= j < bv.len() ==> #[trigger] bv[j] == b@[j]@,
            forall|j: int| 0 <= j < i ==> av[j] == bv[j],
        decreases av.len() - i,
    {
        let c = cmp_field(&a[i], &b[i]);
        match c {
            core::cmp::Ordering::Equal => {
                i = i + 1;
            },
            core::cmp::Ordering::Less => {
                proof {
                    lemma_row_le_common_prefix(av, bv, i as int);
                    lemma_row_le_common_prefix(bv, av, i as int);
                    assert(av.skip(i as int)[0] == av[i as int]);
                    assert(bv.skip(i as int)[0] == bv[i as int]);
                    lemma_bytes_lt_trichotomy(av[i as int], bv[i as int]);
                    assert(row_le(av, bv));
                    assert(!row_le(bv, av));
                }
                return core::cmp::Ordering::Less;
            },
            core::cmp::Ordering::Greater => {
                proof {
                    lemma_row_le_common_prefix(av, bv, i as int);
                    lemma_row_le_common_prefix(bv, av, i as int);
                    assert(av.skip(i as int)[0] == av[i as int]);
                    assert(bv.skip(i as int)[0] == bv[i as int]);
                    lemma_bytes_lt_trichotomy(av[i as int], bv[i as int]);
                    assert(row_le(bv, av));
                    assert(!row_le(av, bv));
                }
                return core::cmp::Ordering::Greater;
            },
        }
    }
    proof {
        lemma_row_le_common_prefix(av, bv, i as int);
        lemma_row_le_common_prefix(bv, av, i as int);
    }
    if a.len() < b.len() {
        proof {
            assert(bv.skip(i as int).len() > 0);
            assert(av.len() != bv.len());
        }
        core::cmp::Ordering::Less
    } else if b.len() < a.len() {
        proof {
            assert(av.skip(i as int).len() > 0);
            assert(av.len() != bv.len());
        }
        core::cmp::Ordering::Greater
    } else {
        proof {
            assert(av =~= bv);
            lemma_row_le_refl(av);
        }
        core::cmp::Ordering::Equal
    }
}

/// Copies a row of byte fields.
fn clone_row(row: &Vec<Vec<u8>>) -> (r: Vec<Vec<u8>>)
    ensures
        r.deep_view() == row.deep_view(),
{
    let mut out: Vec<Vec<u8>> = Vec::new();
    let mut i: usize = 0;
    while i < row.len()
        invariant
            i <= row@.len(),
            out@.len() == i,
            forall|j: int| 0 <= j < i ==> #[trigger] out@[j]@ == row@[j]@,
        decreases row@.len() - i,
    {
        let mut field: Vec<u8> = Vec::new();
        let mut k: usize = 0;
        while k < row[i].len()
            invariant
                i < row@.len(),
                k <= row@[i as int]@.len(),
                field@ == row@[i as int]@.take(k as int),
            decreases row@[i as int]@.len() - k,
        {
            field.push(row[i][k]);
            k = k + 1;
            proof {
                assert(field@ =~= row@[i as int]@.take(k as int));
            }
        }
        proof {
            assert(field@ =~= row@[i as int]@);
        }
        out.push(field);
        i = i + 1;
    }
    proof {
        lemma_row_view(*row);
        lemma_row_view(out);
        assert(out.deep_view() =~= row.deep_view());
    }
    out
}

/// The number of whole rows a set of column record streams yields: the
/// shortest stream decides; no streams yield no rows.
pub open spec fn zip_row_count(columns: Seq<Seq<Seq<Seq<u8>>>>) -> nat
    decreases columns.len(),
{
    if columns.len() == 0 {
        0
    } else if columns.len() == 1 {
        columns[0].len()
    } else {
        let rest = zip_row_count(columns.drop_first());
        if columns[0].len() <= rest {
            columns[0].len()
        } else {
            rest
        }
    }
}

/// A position is below the row count exactly when it is below every
/// stream's record count.
pub proof fn lemma_zip_row_count(columns: Seq<Seq<Seq<Seq<u8>>>>, p: int)
    requires
        columns.len() > 0,
    ensures
        p < zip_row_count(columns) <==> (forall|j: int| 0 <= j < columns.len() ==> p < #[trigger] columns[j].len()),
    decreases columns.len(),
{
    if columns.len() > 1 {
        lemma_zip_row_count(columns.drop_first(), p);
        assert forall|j: int| 1 <= j < columns.len() implies columns[j] == columns.drop_first()[j - 1] by {}
    }
}

/// Row `i` of the zipped output: the concatenation of record `i` of every
/// column, left to right.
pub open spec fn combined_row(columns: Seq<Seq<Seq<Seq<u8>>>>, i: int) -> Seq<Seq<u8>>
    decreases columns.len(),
{
    if columns.len() == 0 {
        Seq::empty()
    } else {
        combined_row(columns.drop_last(), i) + columns.last()[i]
    }
}

/// The zipped rows at positions `from` up to `upto`.
pub open spec fn zipped_rows(columns: Seq<Seq<Seq<Seq<u8>>>>, from: int, upto: int) -> Seq<Seq<Seq<u8>>> {
    Seq::new(if upto >= from { (upto - from) as nat } else { 0 }, |k: int| combined_row(columns, from + k))
}

/// Joins independently-positioned column record streams into wide rows,
/// row-aligned, terminating at the shortest stream.
pub struct Zip {
    columns: Vec<Vec<Vec<Vec<u8>>>>,
    pos: usize,
}

/// Wraps the column streams into a zipper positioned at the first row.
pub fn zip(columns: Vec<Vec<Vec<Vec<u8>>>>) -> (z: Zip)
    ensures
        z.columns() == columns.deep_view(),
        z.pos() == 0,
        z.wf(),
{
    Zip { columns, pos: 0 }
}

impl Zip {
    /// The record streams being joined, one per column.
    pub closed spec fn columns(self) -> Seq<Seq<Seq<Seq<u8>>>> {
        self.columns.deep_view()
    }

    /// The next row to be yielded.
    pub closed spec fn pos(self) -> nat {
        self.pos as nat
    }

    /// The zipper never stands past the shortest stream's end.
    pub closed spec fn wf(self) -> bool {
        self.pos as nat <= zip_row_count(self.columns.deep_view())
    }

    /// How many rows are still to come.
    pub open spec fn remaining(self) -> nat {
        (zip_row_count(self.columns()) - self.pos()) as nat
    }

    /// Whether a whole row stands at the current position.
    fn has_row(&self) -> (r: bool)
        ensures
            r <==> self.pos() < zip_row_count(self.columns()),
    {
        let ghost cols = self.columns.deep_view();
        if self.columns.len() == 0 {
            return false;
        }
        let mut j: usize = 0;
        while j < self.columns.len()
            invariant
                j <= self.columns@.len(),
                cols == self.columns.deep_view(),
                cols.len() == self.columns@.len(),
                forall|t: int| 0 <= t < j ==> self.pos < #[trigger] cols[t].len(),
            decreases self.columns@.len() - j,
        {
            proof {
                assert(cols[j as int] == self.columns@[j as int].deep_view());
            }
            if self.pos >= self.columns[j].len() {
                proof {
                    lemma_zip_row_count(cols, self.pos as int);
                }
                return false;
            }
            j = j + 1;
        }
        proof {
            lemma_zip_row_count(cols, self.pos as int);
        }
        true
    }

    /// Yields the row at the current position, the concatenation of one
    /// record per column, and advances; after the shortest stream is
    /// exhausted every call yields nothing.
    pub fn next(&mut self) -> (r: Option<Vec<Vec<u8>>>)
        requires
            old(self).wf(),
        ensures
            final(self).wf(),
            final(self).columns() == old(self).columns(),
            old(self).pos() < zip_row_count(old(self).columns()) ==> {
                &&& r is Some
                &&& r->Some_0.deep_view() == combined_row(old(self).columns(), old(self).pos() as int)
                &&& final(self).pos() == old(self).pos() + 1
            },
            old(self).pos() >= zip_row_count(old(self).columns()) ==> {
                &&& r is None
                &&& final(self).pos() == old(self).pos()
            },
    {
        let ghost cols = self.columns.deep_view();
        let ghost p = self.pos as int;
        if !self.has_row() {
            return None;
        }
        proof {
            lemma_zip_row_count(cols, p);
        }
        let mut row: Vec<Vec<u8>> = Vec::new();
        let mut j: usize = 0;
        while j < self.columns.len()
            invariant
                j <= self.columns@.len(),
                cols == self.columns.deep_view(),
                p == self.pos as int,
                cols.len() == self.columns@.len(),
                forall|t: int| 0 <= t < cols.len() ==> p < #[trigger] cols[t].len(),
                row.deep_view() == combined_row(cols.take(j as int), p),
            decreases self.columns@.len() - j,
        {
            proof {
                assert(cols[j as int] == self.columns@[j as int].deep_view());
                assert(cols[j as int][p] == self.columns@[j as int]@[p].deep_view());
            }
            let ghost row_before = row.deep_view();
            let mut record = clone_row(&self.columns[j][self.pos]);
            let ghost rec_view = record.deep_view();
            row.append(&mut record);
            j = j + 1;
            proof {
                lemma_row_view(row);
                assert forall|t: int| 0 <= t < row@.len() implies #[trigger] row.deep_view()[t]
                    == (row_before + rec_view)[t] by {
                    assert(row.deep_view()[t] == row@[t]@);
                }
                assert(row.deep_view() =~= row_before + rec_view);
                assert(cols.take(j as int).drop_last() =~= cols.take(j - 1));
                assert(cols.take(j as int).last() == cols[j - 1]);
                assert(row.deep_view() == combined_row(cols.take(j as int), p));
            }
        }
        proof {
            assert(cols.len() > 0);
            assert(cols[0] == self.columns@[0].deep_view());
        }
        let len0 = self.columns[0].len();
        proof {
            assert(self.pos < len0);
        }
        self.pos = self.pos + 1;
        proof {
            assert(cols.take(cols.len() as int) =~= cols);
        }
        Some(row)
    }

    /// `(lower, upper)` bounds on how many rows are still to come; both are
    /// the exact remaining count.
    pub fn size_hint(&self) -> (r: (usize, Option<usize>))
        requires
            self.wf(),
        ensures
            r.0 == self.remaining(),
            r.1 == Some(r.0),
    {
        let ghost cols = self.columns.deep_view();
        if self.columns.len() == 0 {
            return (0, Some(0));
        }
        let mut least: usize = self.columns[0].len();
        let mut j: usize = 1;
        proof {
            assert(cols[0] == self.columns@[0].deep_view());
        }
        while j < self.columns.len()
            invariant
                1 <= j <= self.columns@.len(),
                cols == self.columns.deep_view(),
                cols.len() == self.columns@.len(),
                forall|t: int| 0 <= t < j ==> least <= #[trigger] cols[t].len(),
                exists|t: int| 0 <= t < j && least == #[trigger] cols[t].len(),
            decreases self.columns@.len() - j,
        {
            proof {
                assert(cols[j as int] == self.columns@[j as int].deep_view());
            }
            let n = self.columns[j].len();
            if n < least {
                least = n;
            }
            j = j + 1;
        }
        proof {
            lemma_zip_row_count(cols, least - 1);
            lemma_zip_row_count(cols, least as int);
            assert(zip_row_count(cols) == least);
        }
        let rem = if self.pos <= least {
            least - self.pos
        } else {
            0
        };
        (rem, Some(rem))
    }

    /// How many rows are still to come.
    pub fn count(&self) -> (r: usize)
        requires
            self.wf(),
        ensures
            r == self.remaining(),
    {
        self.size_hint().0
    }
}

/// Drains the zipper: every remaining row, in order.
pub fn hstack(zipped_iter: &mut Zip) -> (rows: Vec<Vec<Vec<u8>>>)
    requires
        old(zipped_iter).wf(),
    ensures
        final(zipped_iter).wf(),
        final(zipped_iter).columns() == old(zipped_iter).columns(),
        final(zipped_iter).pos() == zip_row_count(old(zipped_iter).columns()),
        rows.deep_view() == zipped_rows(
            old(zipped_iter).columns(),
            old(zipped_iter).pos() as int,
            zip_row_count(old(zipped_iter).columns()) as int,
        ),
{
    let ghost cols = zipped_iter.columns();
    let ghost start = zipped_iter.pos() as int;
    let ghost total = zip_row_count(cols) as int;
    let mut rows: Vec<Vec<Vec<u8>>> = Vec::new();
    loop
        invariant
            zipped_iter.wf(),
            zipped_iter.columns() == cols,
            total == zip_row_count(cols),
            start <= zipped_iter.pos() <= total,
            rows@.len() == zipped_iter.pos() - start,
            forall|k: int| 0 <= k < rows@.len() ==> #[trigger] rows@[k].deep_view()
                == combined_row(cols, start + k),
        ensures
            zipped_iter.wf(),
            zipped_iter.columns() == cols,
            total == zip_row_count(cols),
            zipped_iter.pos() == total,
            rows@.len() == total - start,
            forall|k: int| 0 <= k < rows@.len() ==> #[trigger] rows@[k].deep_view()
                == combined_row(cols, start + k),
        decreases total - zipped_iter.pos(),
    {
        let got = zipped_iter.next();
        match got {
            Some(row) => {
                rows.push(row);
            },
            None => {
                proof {
                    assert(zipped_iter.pos() >= total);
                }
                break;
            },
        }
    }
    proof {
        lemma_row_list_view(rows);
        assert(rows.deep_view() =~= zipped_rows(cols, start, total));
    }
    rows
}

/// The element views of a list of rows.
proof fn lemma_row_list_view(v: Vec<Vec<Vec<u8>>>)
    ensures
        v.deep_view().len() == v@.len(),
        forall|j: int| 0 <= j < v@.len() ==> #[trigger] v.deep_view()[j] == v@[j].deep_view(),
{
    assert forall|j: int| 0 <= j < v@.len() implies #[trigger] v.deep_view()[j] == v@[j].deep_view() by {
        assert(v.deep_view()[j] =~= v@[j].deep_view());
    }
}

/// Sorting a pushed row onto a sorted output whose every element is below it
/// keeps the output sorted.
proof fn lemma_sorted_push(s: Seq<Seq<Seq<u8>>>, x: Seq<Seq<u8>>)
    requires
        sorted_by(s, row_le_fn()),
        forall|t: int| 0 <= t < s.len() ==> row_le(#[trigger] s[t], x),
    ensures
        sorted_by(s.push(x), row_le_fn()),
{
    let s2 = s.push(x);
    assert forall|i: int, j: int| 0 <= i < j < s2.len() implies row_le_fn()(s2[i], s2[j]) by {
        if j < s.len() {
            assert(row_le_fn()(s[i], s[j]));
        } else {
            assert(s2[j] == x);
            assert(row_le(s[i], x));
        }
    }
}

/// Sorts a chunk of rows in memory by the row order, by repeated selection
/// of the least remaining row.
fn sort_rows(rows: Vec<Vec<Vec<u8>>>) -> (out: Vec<Vec<Vec<u8>>>)
    ensures
        sorted_by(out.deep_view(), row_le_fn()),
        out.deep_view().to_multiset() == rows.deep_view().to_multiset(),
{
    broadcast use vstd::seq_lib::group_to_multiset_ensures;
    broadcast use vstd::multiset::group_multiset_axioms;

    let ghost orig = rows.deep_view().to_multiset();
    let mut rest = rows;
    let mut out: Vec<Vec<Vec<u8>>> = Vec::new();
    proof {
        lemma_row_list_view(out);
        assert(out.deep_view() =~= Seq::<Seq<Seq<u8>>>::empty());
        assert(out.deep_view().to_multiset().add(rest.deep_view().to_multiset()) =~= orig);
    }
    while rest.len() > 0
        invariant
            sorted_by(out.deep_view(), row_le_fn()),
            out.deep_view().to_multiset().add(rest.deep_view().to_multiset()) == orig,
            forall|t: int, k: int| 0 <= t < out.deep_view().len() && 0 <= k < rest.deep_view().len()
                ==> row_le(#[trigger] out.deep_view()[t], #[trigger] rest.deep_view()[k]),
        decreases rest@.len(),
    {
        let ghost rest_v = rest.deep_view();
        let ghost out_v = out.deep_view();
        proof {
            lemma_row_list_view(rest);
        }
        let mut m: usize = 0;
        let mut j: usize = 1;
        proof {
            lemma_row_le_refl(rest_v[0]);
        }
        while j < rest.len()
            invariant
                rest.deep_view() == rest_v,
                rest_v.len() == rest@.len(),
                j <= rest@.len(),
                m < j || (m == 0 && j <= 1),
                m < rest@.len(),
                forall|k: int| 0 <= k < j ==> row_le(rest_v[m as int], #[trigger] rest_v[k]),
            decreases rest@.len() - j,
        {
            proof {
                lemma_row_list_view(rest);
            }
            let c = lex_ordering(&rest[j], &rest[m]);
            proof {
                lemma_row_le_refl(rest_v[j as int]);
            }
            match c {
                core::cmp::Ordering::Less => {
                    proof {
                        assert(row_le(rest_v[j as int], rest_v[m as int]));
                        assert forall|k: int| 0 <= k < j + 1 implies row_le(rest_v[j as int], #[trigger] rest_v[k]) by {
                            if k < j {
                                lemma_row_le_transitive(rest_v[j as int], rest_v[m as int], rest_v[k]);
                            }
                        }
                    }
                    m = j;
                },
                core::cmp::Ordering::Equal => {
                    proof {
                        assert(rest_v[m as int] == rest_v[j as int]);
                    }
                },
                core::cmp::Ordering::Greater => {
                    proof {
                        assert(row_le(rest_v[m as int], rest_v[j as int]));
                    }
                },
            }
            j = j + 1;
        }
        let least = rest.remove(m);
        let ghost least_v = least.deep_view();
        proof {
            lemma_row_list_view(rest);
            assert(rest.deep_view() =~= rest_v.remove(m as int));
            assert(least_v == rest_v[m as int]);
            assert(rest_v.contains(rest_v[m as int]));
        }
        out.push(least);
        proof {
            broadcast use vstd::seq_lib::group_to_multiset_ensures;
            broadcast use vstd::multiset::group_multiset_axioms;

            lemma_row_list_view(out);
            assert(out.deep_view() =~= out_v.push(least_v));
            assert forall|t: int| 0 <= t < out_v.len() implies row_le(#[trigger] out_v[t], least_v) by {}
            lemma_sorted_push(out_v, least_v);
            // The removed least row moves from one side of the split
            // multiset to the other.
            assert(rest_v.to_multiset().count(least_v) > 0) by {
                assert(rest_v.contains(least_v)) by {
                    assert(0 <= m < rest_v.len() && rest_v[m as int] == least_v);
                }
            }
            assert(out.deep_view().to_multiset() =~= out_v.to_multiset().insert(least_v));
            assert(rest.deep_view().to_multiset() =~= rest_v.to_multiset().remove(least_v));
            assert(out.deep_view().to_multiset().add(rest.deep_view().to_multiset())
                =~= out_v.to_multiset().add(rest_v.to_multiset()));
            // Every remaining row still dominates the grown output.
            assert forall|t: int, k: int|
                0 <= t < out.deep_view().len() && 0 <= k < rest.deep_view().len()
                implies row_le(#[trigger] out.deep_view()[t], #[trigger] rest.deep_view()[k]) by {
                let rk = rest.deep_view()[k];
                assert(rk == rest_v.remove(m as int)[k]);
                if k < m {
                    assert(rk == rest_v[k]);
                } else {
                    assert(rk == rest_v[k + 1]);
                }
                if t < out_v.len() {
                    assert(out.deep_view()[t] == out_v[t]);
                    lemma_row_le_transitive(out_v[t], least_v, rk);
                } else {
                    assert(out.deep_view()[t] == least_v);
                }
            }
        }
    }
    proof {
        broadcast use vstd::seq_lib::group_to_multiset_ensures;
        broadcast use vstd::multiset::group_multiset_axioms;

        lemma_row_list_view(rest);
        assert(rest.deep_view() =~= Seq::<Seq<Seq<u8>>>::empty());
        assert(rest.deep_view().to_multiset() =~= Multiset::<Seq<Seq<u8>>>::empty());
        assert(out.deep_view().to_multiset().add(rest.deep_view().to_multiset()) =~= out.deep_view().to_multiset());
    }
    out
}

/// Pulls up to `number_of_rows` rows from the zipper (all of them when no
/// cap is given), sorts them in memory, and returns the sorted chunk.
pub fn sort_chunk(number_of_rows: Option<usize>, zipped_iter: &mut Zip) -> (sorted_rows: Vec<Vec<Vec<u8>>>)
    requires
        old(zipped_iter).wf(),
    ensures
        final(zipped_iter).wf(),
        final(zipped_iter).columns() == old(zipped_iter).columns(),
        final(zipped_iter).pos() == match number_of_rows {
            None => zip_row_count(old(zipped_iter).columns()) as int,
            Some(n) => vstd::math::min(
                old(zipped_iter).pos() + n,
                zip_row_count(old(zipped_iter).columns()) as int,
            ),
        },
        sorted_by(sorted_rows.deep_view(), row_le_fn()),
        sorted_rows.deep_view().to_multiset() == zipped_rows(
            old(zipped_iter).columns(),
            old(zipped_iter).pos() as int,
            final(zipped_iter).pos() as int,
        ).to_multiset(),
{
    let ghost cols = zipped_iter.columns();
    let ghost start = zipped_iter.pos() as int;
    let ghost total = zip_row_count(cols) as int;
    let collected: Vec<Vec<Vec<u8>>>;
    match number_of_rows {
        None => {
            collected = hstack(zipped_iter);
        },
        Some(n) => {
            let mut taken: usize = 0;
            let mut got_rows: Vec<Vec<Vec<u8>>> = Vec::new();
            while taken < n
                invariant_except_break
                    zipped_iter.wf(),
                    zipped_iter.columns() == cols,
                    total == zip_row_count(cols),
                    taken <= n,
                    zipped_iter.pos() == start + taken,
                    zipped_iter.pos() <= total,
                    got_rows@.len() == taken,
                    forall|k: int| 0 <= k < got_rows@.len() ==> #[trigger] got_rows@[k].deep_view()
                        == combined_row(cols, start + k),
                ensures
                    zipped_iter.wf(),
                    zipped_iter.columns() == cols,
                    total == zip_row_count(cols),
                    zipped_iter.pos() == vstd::math::min(start + n, total),
                    got_rows@.len() == zipped_iter.pos() - start,
                    forall|k: int| 0 <= k < got_rows@.len() ==> #[trigger] got_rows@[k].deep_view()
                        == combined_row(cols, start + k),
                decreases n - taken,
            {
                let got = zipped_iter.next();
                match got {
                    Some(row) => {
                        got_rows.push(row);
                    },
                    None => {
                        proof {
                            assert(zipped_iter.pos() >= total);
                        }
                        break;
                    },
                }
                taken = taken + 1;
            }
            collected = got_rows;
        },
    }
    proof {
        lemma_row_list_view(collected);
        assert(collected.deep_view() =~= zipped_rows(cols, start, zipped_iter.pos() as int));
    }
    sort_rows(collected)
}

/// All the rows a list of runs holds, as one multiset.
pub open spec fn runs_multiset(runs: Seq<Seq<Seq<Seq<u8>>>>) -> Multiset<Seq<Seq<u8>>>
    decreases runs.len(),
{
    if runs.len() == 0 {
        Multiset::empty()
    } else {
        runs.first().to_multiset().add(runs_multiset(runs.drop_first()))
    }
}

/// The rows not yet consumed: each run from its cursor on.
spec fn rem_multiset(runs: Seq<Seq<Seq<Seq<u8>>>>, cursors: Seq<usize>) -> Multiset<Seq<Seq<u8>>>
    decreases runs.len(),
{
    if runs.len() == 0 {
        Multiset::empty()
    } else {
        runs.first().skip(cursors.first() as int).to_multiset().add(
            rem_multiset(runs.drop_first(), cursors.drop_first()),
        )
    }
}

/// With every cursor at the start, nothing is consumed yet.
proof fn lemma_rem_multiset_start(runs: Seq<Seq<Seq<Seq<u8>>>>, cursors: Seq<usize>)
    requires
        cursors.len() == runs.len(),
        forall|j: int| 0 <= j < cursors.len() ==> cursors[j] == 0,
    ensures
        rem_multiset(runs, cursors) == runs_multiset(runs),
    decreases runs.len(),
{
    if runs.len() > 0 {
        assert(runs.first().skip(0) =~= runs.first());
        lemma_rem_multiset_start(runs.drop_first(), cursors.drop_first());
    }
}

/// With every cursor at its run's end, everything is consumed.
proof fn lemma_rem_multiset_end(runs: Seq<Seq<Seq<Seq<u8>>>>, cursors: Seq<usize>)
    requires
        cursors.len() == runs.len(),
        forall|j: int| 0 <= j < cursors.len() ==> cursors[j] == #[trigger] runs[j].len(),
    ensures
        rem_multiset(runs, cursors) == Multiset::<Seq<Seq<u8>>>::empty(),
    decreases runs.len(),
{
    broadcast use vstd::seq_lib::group_to_multiset_ensures;
    broadcast use vstd::multiset::group_multiset_axioms;

    if runs.len() > 0 {
        assert(runs.first().skip(cursors.first() as int) =~= Seq::<Seq<Seq<u8>>>::empty());
        assert(Seq::<Seq<Seq<u8>>>::empty().to_multiset() =~= Multiset::<Seq<Seq<u8>>>::empty());
        lemma_rem_multiset_end(runs.drop_first(), cursors.drop_first());
        assert(rem_multiset(runs, cursors) =~= Multiset::<Seq<Seq<u8>>>::empty());
    }
}

/// Advancing one run's cursor takes exactly that run's current head out of
/// the remainder.
proof fn lemma_rem_multiset_advance(runs: Seq<Seq<Seq<Seq<u8>>>>, cursors: Seq<usize>, b: int)
    requires
        cursors.len() == runs.len(),
        0 <= b < runs.len(),
        cursors[b] < runs[b].len(),
        cursors[b] < usize::MAX,
    ensures
        rem_multiset(runs, cursors) == rem_multiset(
            runs,
            cursors.update(b, (cursors[b] + 1) as usize),
        ).insert(runs[b][cursors[b] as int]),
    decreases runs.len(),
{
    broadcast use vstd::seq_lib::group_to_multiset_ensures;
    broadcast use vstd::multiset::group_multiset_axioms;

    let after = cursors.update(b, (cursors[b] + 1) as usize);
    if b == 0 {
        let p = cursors[0] as int;
        let run = runs.first();
        assert(run.skip(p).len() > 0);
        assert(run.skip(p).remove(0) =~= run.skip(p + 1));
        assert(run.skip(p).remove(0).to_multiset() =~= run.skip(p).to_multiset().remove(run.skip(p)[0]));
        assert(run.skip(p)[0] == run[p]);
        assert(run.skip(p).contains(run[p])) by {
            assert(run.skip(p)[0] == run[p]);
        }
        assert(run.skip(p).to_multiset().count(run[p]) > 0);
        assert(run.skip(p).to_multiset() =~= run.skip(p + 1).to_multiset().insert(run[p]));
        assert(after.first() as int == p + 1);
        assert(after.drop_first() =~= cursors.drop_first());
        assert(rem_multiset(runs, cursors) =~= rem_multiset(runs, after).insert(runs[0][p]));
    } else {
        lemma_rem_multiset_advance(runs.drop_first(), cursors.drop_first(), b - 1);
        assert(after.drop_first() =~= cursors.drop_first().update(b - 1, (cursors[b] + 1) as usize));
        assert(after.first() == cursors.first());
        assert(runs.drop_first()[b - 1] == runs[b]);
        assert(rem_multiset(runs, cursors) =~= rem_multiset(runs, after).insert(runs[b][cursors[b] as int]));
    }
}

/// K-way merge of sorted runs: repeatedly selects the run whose current head
/// row compares smallest (a run with no rows left is never a candidate),
/// emits that row, and advances that run, until no rows remain.  The output
/// is every input row, in non-decreasing row order.
pub fn merge_sort(runs: &Vec<Vec<Vec<Vec<u8>>>>) -> (out: Vec<Vec<Vec<u8>>>)
    requires
        forall|j: int| 0 <= j < runs.deep_view().len()
            ==> sorted_by(#[trigger] runs.deep_view()[j], row_le_fn()),
    ensures
        sorted_by(out.deep_view(), row_le_fn()),
        out.deep_view().to_multiset() == runs_multiset(runs.deep_view()),
{
    let ghost runs_v = runs.deep_view();
    proof {
        lemma_row_list_view2(*runs);
    }
    let mut cursors: Vec<usize> = Vec::new();
    let mut j: usize = 0;
    while j < runs.len()
        invariant
            j <= runs@.len(),
            cursors@.len() == j,
            forall|t: int| 0 <= t < j ==> cursors@[t] == 0,
        decreases runs@.len() - j,
    {
        cursors.push(0);
        j = j + 1;
    }
    let mut out: Vec<Vec<Vec<u8>>> = Vec::new();
    proof {
        lemma_rem_multiset_start(runs_v, cursors@);
        lemma_row_list_view(out);
        assert(out.deep_view() =~= Seq::<Seq<Seq<u8>>>::empty());
        broadcast use vstd::seq_lib::group_to_multiset_ensures;
        broadcast use vstd::multiset::group_multiset_axioms;
        assert(out.deep_view().to_multiset().add(rem_multiset(runs_v, cursors@))
            =~= runs_multiset(runs_v));
    }
    loop
        invariant
            runs_v == runs.deep_view(),
            runs_v.len() == runs@.len(),
            forall|t: int| 0 <= t < runs_v.len() ==> #[trigger] runs_v[t] == runs@[t].deep_view(),
            forall|t: int| 0 <= t < runs_v.len() ==> #[trigger] runs_v[t].len() == runs@[t]@.len(),
            forall|t: int| 0 <= t < runs_v.len() ==> sorted_by(#[trigger] runs_v[t], row_le_fn()),
            cursors@.len() == runs_v.len(),
            forall|t: int| 0 <= t < cursors@.len() ==> #[trigger] cursors@[t] <= runs_v[t].len(),
            sorted_by(out.deep_view(), row_le_fn()),
            out.deep_view().to_multiset().add(rem_multiset(runs_v, cursors@)) == runs_multiset(runs_v),
            forall|t: int, jj: int, k: int|
                0 <= t < out.deep_view().len() && 0 <= jj < runs_v.len()
                    && cursors@[jj] <= k < runs_v[jj].len()
                ==> row_le(#[trigger] out.deep_view()[t], #[trigger] runs_v[jj][k]),
        ensures
            out.deep_view().to_multiset().add(rem_multiset(runs_v, cursors@)) == runs_multiset(runs_v),
            sorted_by(out.deep_view(), row_le_fn()),
            runs_v == runs.deep_view(),
            forall|t: int| 0 <= t < cursors@.len() ==> #[trigger] cursors@[t] == runs_v[t].len(),
            cursors@.len() == runs_v.len(),
        decreases rem_multiset(runs_v, cursors@).len(),
    {
        // Linear scan for the run whose current head compares smallest.
        let mut best: usize = 0;
        let mut found: bool = false;
        let mut i: usize = 0;
        while i < runs.len()
            invariant
                runs_v == runs.deep_view(),
                runs_v.len() == runs@.len(),
                forall|t: int| 0 <= t < runs_v.len() ==> #[trigger] runs_v[t] == runs@[t].deep_view(),
                forall|t: int| 0 <= t < runs_v.len() ==> #[trigger] runs_v[t].len() == runs@[t]@.len(),
                cursors@.len() == runs_v.len(),
                forall|t: int| 0 <= t < cursors@.len() ==> #[trigger] cursors@[t] <= runs_v[t].len(),
                i <= runs_v.len(),
                found ==> best < i && cursors@[best as int] < runs_v[best as int].len(),
                found ==> forall|t: int| 0 <= t < i && cursors@[t] < runs_v[t].len()
                    ==> row_le(runs_v[best as int][cursors@[best as int] as int],
                        #[trigger] runs_v[t][cursors@[t] as int]),
                !found ==> forall|t: int| 0 <= t < i ==> #[trigger] cursors@[t] == runs_v[t].len(),
            decreases runs_v.len() - i,
        {
            let c = cursors[i];
            if c < runs[i].len() {
                let ghost head_i = runs_v[i as int][cursors@[i as int] as int];
                proof {
                    assert(runs_v[i as int][c as int] == runs@[i as int]@[c as int].deep_view());
                }
                if !found {
                    best = i;
                    found = true;
                    proof {
                        lemma_row_le_refl(head_i);
                    }
                } else {
                    let ghost head_b = runs_v[best as int][cursors@[best as int] as int];
                    proof {
                        assert(runs_v[best as int][cursors@[best as int] as int]
                            == runs@[best as int]@[cursors@[best as int] as int].deep_view());
                    }
                    let cb = cursors[best];
                    let c2 = lex_ordering(&runs[i][c], &runs[best][cb]);
                    match c2 {
                        core::cmp::Ordering::Less => {
                            proof {
                                assert(row_le(head_i, head_b));
                                lemma_row_le_refl(head_i);
                                assert forall|t: int|
                                    0 <= t < i + 1 && cursors@[t] < runs_v[t].len()
                                    implies row_le(head_i, #[trigger] runs_v[t][cursors@[t] as int]) by {
                                    if t < i {
                                        lemma_row_le_transitive(head_i, head_b,
                                            runs_v[t][cursors@[t] as int]);
                                    }
                                }
                            }
                            best = i;
                        },
                        core::cmp::Ordering::Equal => {
                            proof {
                                assert(head_b == head_i);
                                lemma_row_le_refl(head_b);
                            }
                        },
                        core::cmp::Ordering::Greater => {
                            proof {
                                assert(row_le(head_b, head_i));
                            }
                        },
                    }
                }
            }
            i = i + 1;
        }
        if !found {
            proof {
                lemma_rem_multiset_end(runs_v, cursors@);
            }
            break;
        }
        let cb = cursors[best];
        let rblen = runs[best].len();
        let ghost head_b = runs_v[best as int][cb as int];
        let ghost old_cursors = cursors@;
        proof {
            assert(runs_v[best as int][cb as int] == runs@[best as int]@[cb as int].deep_view());
            assert(cb < rblen);
        }
        let row = clone_row(&runs[best][cb]);
        let ghost out_v = out.deep_view();
        out.push(row);
        cursors[best] = cb + 1;
        proof {
            broadcast use vstd::seq_lib::group_to_multiset_ensures;
            broadcast use vstd::multiset::group_multiset_axioms;

            lemma_row_list_view(out);
            assert(out.deep_view() =~= out_v.push(head_b));
            assert forall|t: int| 0 <= t < out_v.len() implies row_le(#[trigger] out_v[t], head_b) by {}
            lemma_sorted_push(out_v, head_b);
            lemma_rem_multiset_advance(runs_v, old_cursors, best as int);
            assert(cursors@ =~= old_cursors.update(best as int, (cb + 1) as usize));
            assert(rem_multiset(runs_v, old_cursors)
                == rem_multiset(runs_v, cursors@).insert(head_b));
            assert(out.deep_view().to_multiset()
                =~= out_v.to_multiset().insert(head_b));
            assert(out_v.to_multiset().insert(head_b).add(rem_multiset(runs_v, cursors@))
                =~= out_v.to_multiset().add(rem_multiset(runs_v, cursors@).insert(head_b)));
            // The emitted head stays below everything still unconsumed.
            assert forall|t: int, jj: int, k: int|
                0 <= t < out.deep_view().len() && 0 <= jj < runs_v.len()
                    && cursors@[jj] <= k < runs_v[jj].len()
                implies row_le(#[trigger] out.deep_view()[t], #[trigger] runs_v[jj][k]) by {
                let target = runs_v[jj][k];
                let head_j = runs_v[jj][old_cursors[jj] as int];
                if jj == best {
                    assert(row_le(head_b, target)) by {
                        if k > cb {
                            assert(sorted_by(runs_v[jj], row_le_fn()));
                            assert(row_le_fn()(runs_v[jj][cb as int], runs_v[jj][k]));
                        } else {
                            lemma_row_le_refl(head_b);
                        }
                    }
                } else {
                    assert(row_le(head_b, head_j));
                    assert(row_le(head_j, target)) by {
                        if k > cursors@[jj] {
                            assert(sorted_by(runs_v[jj], row_le_fn()));
                            assert(row_le_fn()(runs_v[jj][cursors@[jj] as int], runs_v[jj][k]));
                        } else {
                            lemma_row_le_refl(head_j);
                        }
                    }
                    lemma_row_le_transitive(head_b, head_j, target);
                }
                if t < out_v.len() {
                    assert(out.deep_view()[t] == out_v[t]);
                    if jj == best {
                        lemma_row_le_transitive(out_v[t], head_b, target);
                    } else {
                        lemma_row_le_transitive(out_v[t], head_b, target);
                    }
                } else {
                    assert(out.deep_view()[t] == head_b);
                }
            }
        }
    }
    proof {
        broadcast use vstd::seq_lib::group_to_multiset_ensures;
        broadcast use vstd::multiset::group_multiset_axioms;

        lemma_rem_multiset_end(runs_v, cursors@);
        assert(out.deep_view().to_multiset().add(Multiset::<Seq<Seq<u8>>>::empty())
            =~= out.deep_view().to_multiset());
    }
    out
}

/// The element views of a list of runs.
proof fn lemma_row_list_view2(v: Vec<Vec<Vec<Vec<u8>>>>)
    ensures
        v.deep_view().len() == v@.len(),
        forall|j: int| 0 <= j < v@.len() ==> #[trigger] v.deep_view()[j] == v@[j].deep_view(),
        forall|j: int| 0 <= j < v@.len() ==> #[trigger] v.deep_view()[j].len() == v@[j]@.len(),
{
    assert forall|j: int| 0 <= j < v@.len() implies #[trigger] v.deep_view()[j] == v@[j].deep_view() by {
        assert(v.deep_view()[j] =~= v@[j].deep_view());
    }
}

/// A list of runs holds exactly the rows of its concatenation: splitting a
/// row stream into runs loses and duplicates nothing.
pub proof fn lemma_runs_multiset_flatten(runs: Seq<Seq<Seq<Seq<u8>>>>)
    ensures
        runs_multiset(runs) == runs.flatten().to_multiset(),
    decreases runs.len(),
{
    broadcast use vstd::seq_lib::group_to_multiset_ensures;
    broadcast use vstd::multiset::group_multiset_axioms;

    if runs.len() == 0 {
        assert(runs.flatten() =~= Seq::<Seq<Seq<u8>>>::empty());
        assert(runs.flatten().to_multiset() =~= Multiset::<Seq<Seq<u8>>>::empty());
    } else {
        lemma_runs_multiset_flatten(runs.drop_first());
        assert(runs.flatten() == runs.first() + runs.drop_first().flatten());
        vstd::seq_lib::lemma_multiset_commutative(runs.first(), runs.drop_first().flatten());
    }
}

/// Two sorted sequences holding the same rows are the same sequence: however
/// the rows were split into runs, the merge of the sorted runs is the one
/// sorted arrangement of them, byte for byte.
pub proof fn lemma_sorted_rows_unique(a: Seq<Seq<Seq<u8>>>, b: Seq<Seq<Seq<u8>>>)
    requires
        sorted_by(a, row_le_fn()),
        sorted_by(b, row_le_fn()),
        a.to_multiset() == b.to_multiset(),
    ensures
        a == b,
{
    lemma_row_le_total_ordering();
    vstd::seq_lib::lemma_sorted_unique(a, b, row_le_fn());
}

/// The two sort paths agree: for a row stream split into runs in any way,
/// what the K-way merge of the sorted runs yields is byte-identical to
/// sorting the whole stream in memory directly — run-splitting and merging
/// lose and duplicate nothing.
pub proof fn lemma_external_sort_agrees(
    rows: Seq<Seq<Seq<u8>>>,
    runs: Seq<Seq<Seq<Seq<u8>>>>,
    direct: Seq<Seq<Seq<u8>>>,
    merged: Seq<Seq<Seq<u8>>>,
)
    requires
        rows.to_multiset() == runs.flatten().to_multiset(),
        sorted_by(direct, row_le_fn()),
        direct.to_multiset() == rows.to_multiset(),
        sorted_by(merged, row_le_fn()),
        merged.to_multiset() == runs_multiset(runs),
    ensures
        merged == direct,
{
    lemma_runs_multiset_flatten(runs);
    lemma_sorted_rows_unique(direct, merged);
}

} // verus!
