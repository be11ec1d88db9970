//! Zipping of several value streams: item `i` of the output gathers item `i`
//! of every stream; the shortest stream decides how many items come out.
use vstd::prelude::*;

verus! {

/// How many whole items a set of streams yields: the shortest decides; no
/// streams yield nothing.
pub open spec fn multi_zip_count(streams: Seq<Seq<u64>>) -> nat
    decreases streams.len(),
{
    if streams.len() == 0 {
        0
    } else if streams.len() == 1 {
        streams[0].len()
    } else {
        let rest = multi_zip_count(streams.drop_first());
        if streams[0].len() <= rest {
            streams[0].len()
        } else {
            rest
        }
    }
}

/// A position is below the zipped count exactly when it is below every
/// stream's length.
pub proof fn lemma_multi_zip_count(streams: Seq<Seq<u64>>, p: int)
    requires
        streams.len() > 0,
    ensures
        p < multi_zip_count(streams) <==> (forall|j: int| 0 <= j < streams.len() ==> p < #[trigger] streams[j].len()),
    decreases streams.len(),
{
    if streams.len() > 1 {
        lemma_multi_zip_count(streams.drop_first(), p);
        assert forall|j: int| 1 <= j < streams.len() implies streams[j] == streams.drop_first()[j - 1] by {}
    }
}

/// Zips independently-positioned value streams, terminating at the shortest.
pub struct MultipleZip {
    streams: Vec<Vec<u64>>,
    pos: usize,
}

impl MultipleZip {
    /// The streams being zipped.
    pub closed spec fn streams(self) -> Seq<Seq<u64>> {
        self.streams.deep_view()
    }

    /// The next item row to be yielded.
    pub closed spec fn pos(self) -> nat {
        self.pos as nat
    }

    /// The zipper never stands past the shortest stream's end.
    pub closed spec fn wf(self) -> bool {
        self.pos as nat <= multi_zip_count(self.streams.deep_view())
    }

    /// How many item rows are still to come.
    pub open spec fn remaining(self) -> nat {
        (multi_zip_count(self.streams()) - self.pos()) as nat
    }

    /// Wraps the streams into a zipper positioned at the start.
    pub fn new(streams: Vec<Vec<u64>>) -> (z: MultipleZip)
        ensures
            z.streams() == streams.deep_view(),
            z.pos() == 0,
            z.wf(),
    {
        MultipleZip { streams, pos: 0 }
    }

    /// Yields one item per stream, all at the current position, and
    /// advances; once any stream is exhausted every call yields nothing.
    pub fn next(&mut self) -> (r: Option<Vec<u64>>)
        requires
            old(self).wf(),
        ensures
            final(self).wf(),
            final(self).streams() == old(self).streams(),
            old(self).pos() < multi_zip_count(old(self).streams()) ==> {
                &&& r is Some
                &&& r->Some_0@ == Seq::new(
                    old(self).streams().len(),
                    |j: int| old(self).streams()[j][old(self).pos() as int],
                )
                &&& final(self).pos() == old(self).pos() + 1
            },
            old(self).pos() >= multi_zip_count(old(self).streams()) ==> {
                &&& r is None
                &&& final(self).pos() == old(self).pos()
            },
    {
        let ghost sv = self.streams.deep_view();
        let ghost p = self.pos as int;
        if self.streams.len() == 0 {
            return None;
        }
        let mut j: usize = 0;
        while j < self.streams.len()
            invariant
                j <= self.streams@.len(),
                sv == self.streams.deep_view(),
                sv.len() == self.streams@.len(),
                p == self.pos as int,
                self.pos as nat <= multi_zip_count(sv),
                forall|t: int| 0 <= t < j ==> p < #[trigger] sv[t].len(),
            decreases self.streams@.len() - j,
        {
            proof {
                assert(sv[j as int] =~= self.streams@[j as int]@);
            }
            if self.pos >= self.streams[j].len() {
                proof {
                    lemma_multi_zip_count(sv, p);
                }
                return None;
            }
            j = j + 1;
        }
        proof {
            lemma_multi_zip_count(sv, p);
        }
        let mut row: Vec<u64> = Vec::new();
        let mut t: usize = 0;
        while t < self.streams.len()
            invariant
                t <= self.streams@.len(),
                sv == self.streams.deep_view(),
                sv.len() == self.streams@.len(),
                p == self.pos as int,
                forall|k: int| 0 <= k < sv.len() ==> p < #[trigger] sv[k].len(),
                row@ == Seq::new(t as nat, |k: int| sv[k][p]),
            decreases self.streams@.len() - t,
        {
            proof {
                assert(sv[t as int] =~= self.streams@[t as int]@);
            }
            let v = self.streams[t][self.pos];
            row.push(v);
            t = t + 1;
            proof {
                assert(row@ =~= Seq::new(t as nat, |k: int| sv[k][p]));
            }
        }
        proof {
            assert(sv[0] =~= self.streams@[0]@);
        }
        let len0 = self.streams[0].len();
        proof {
            assert(self.pos < len0);
        }
        self.pos = self.pos + 1;
        Some(row)
    }

    /// `(lower, upper)` bounds on how many item rows are still to come; both
    /// are the exact remaining count.
    pub fn size_hint(&self) -> (r: (usize, Option<usize>))
        requires
            self.wf(),
        ensures
            r.0 == self.remaining(),
            r.1 == Some(r.0),
    {
        let ghost sv = self.streams.deep_view();
        if self.streams.len() == 0 {
            return (0, Some(0));
        }
        let mut least: usize = self.streams[0].len();
        let mut j: usize = 1;
        proof {
            assert(sv[0] =~= self.streams@[0]@);
        }
        while j < self.streams.len()
            invariant
                1 <= j <= self.streams@.len(),
                sv == self.streams.deep_view(),
                sv.len() == self.streams@.len(),
                forall|t: int| 0 <= t < j ==> least <= #[trigger] sv[t].len(),
                exists|t: int| 0 <= t < j && least == #[trigger] sv[t].len(),
            decreases self.streams@.len() - j,
        {
            proof {
                assert(sv[j as int] =~= self.streams@[j as int]@);
            }
            let n = self.streams[j].len();
            if n < least {
                least = n;
            }
            j = j + 1;
        }
        proof {
            lemma_multi_zip_count(sv, least - 1);
            lemma_multi_zip_count(sv, least as int);
            assert(multi_zip_count(sv) == least);
        }
        let rem = if self.pos <= least {
            least - self.pos
        } else {
            0
        };
        (rem, Some(rem))
    }

    /// How many item rows are still to come.
    pub fn count(&self) -> (r: usize)
        requires
            self.wf(),
        ensures
            r == self.remaining(),
    {
        self.size_hint().0
    }
}

} // verus!
