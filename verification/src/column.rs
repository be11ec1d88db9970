//! Column synthesis: deterministic value streams formatted into textual
//! cells, with missing values injected against a sampled exclusion set.  An
//! id-style column excludes by value, discovered by a sampling pass and
//! replayed from the same seed; a numeric column excludes by row position.
use vstd::prelude::*;

use crate::iter::extension::OptionalIterator;
use crate::iter::extension::SamplingIterator;
use crate::iter::extension::UniqueValueIterator;
use crate::iter::none::na_by_index;
use crate::iter::none::na_by_value;
use crate::iter::types::KeySet;
use crate::iter::types::key_set_contents;
use crate::iter::unique::first_occurrences;
use crate::iter::unique::lemma_first_occurrences;
use crate::rand::draw_stream;
use crate::rand::init;
use crate::rand::rewind;
use crate::rand::stream_of;

verus! {

/// The decimal digits of `v`, most significant first, no leading zero except
/// for `v == 0` itself.
pub open spec fn dec_digits(v: nat) -> Seq<u8>
    decreases v,
{
    if v < 10 {
        seq![(0x30 + v) as u8]
    } else {
        dec_digits(v / 10).push((0x30 + v % 10) as u8)
    }
}

/// `width` zero digits.
pub open spec fn zero_digits(width: nat) -> Seq<u8> {
    Seq::new(width, |i: int| 0x30u8)
}

/// The decimal digits of `v`, zero-padded on the left to at least `width`.
pub open spec fn padded_digits(v: nat, width: nat) -> Seq<u8> {
    let d = dec_digits(v);
    if d.len() >= width {
        d
    } else {
        zero_digits((width - d.len()) as nat) + d
    }
}

/// An id cell: the letters `id` followed by the zero-padded value.
pub open spec fn id_text(v: nat, width: nat) -> Seq<u8> {
    seq![0x69u8, 0x64u8] + padded_digits(v, width)
}

/// A fixed-point cell: the value scaled down by one million, with exactly
/// six fraction digits.
pub open spec fn fixed6_text(v: nat) -> Seq<u8> {
    dec_digits(v / 1000000) + seq![0x2Eu8] + padded_digits(v % 1000000, 6)
}

/// Appends the decimal digits of `v` to `out`.
fn push_digits(v: u64, out: &mut Vec<u8>)
    ensures
        final(out)@ == old(out)@ + dec_digits(v as nat),
    decreases v,
{
    if v < 10 {
        out.push(0x30 + (v as u8));
        proof {
            assert(final(out)@ =~= old(out)@ + dec_digits(v as nat));
        }
    } else {
        proof {
            assert(v / 10 < v) by (nonlinear_arith)
                requires v >= 10;
        }
        push_digits(v / 10, out);
        out.push(0x30 + ((v % 10) as u8));
        proof {
            assert(final(out)@ =~= old(out)@ + dec_digits(v as nat));
        }
    }
}

/// The bare decimal text of `v`.
pub fn format_number(v: u64) -> (r: Vec<u8>)
    ensures
        r@ == dec_digits(v as nat),
{
    let mut out: Vec<u8> = Vec::new();
    push_digits(v, &mut out);
    proof {
        assert(out@ =~= dec_digits(v as nat));
    }
    out
}

/// The decimal text of `v`, zero-padded on the left to at least `width`.
pub fn format_padded(v: u64, width: usize) -> (r: Vec<u8>)
    ensures
        r@ == padded_digits(v as nat, width as nat),
{
    let digits = format_number(v);
    if digits.len() >= width {
        proof {
            assert(digits@ =~= padded_digits(v as nat, width as nat));
        }
        digits
    } else {
        let mut out: Vec<u8> = Vec::new();
        let pad = width - digits.len();
        let mut i: usize = 0;
        while i < pad
            invariant
                i <= pad,
                out@ == zero_digits(i as nat),
            decreases pad - i,
        {
            out.push(0x30);
            i = i + 1;
            proof {
                assert(out@ =~= zero_digits(i as nat));
            }
        }
        let mut j: usize = 0;
        while j < digits.len()
            invariant
                j <= digits@.len(),
                out@ == zero_digits(pad as nat) + digits@.take(j as int),
            decreases digits@.len() - j,
        {
            out.push(digits[j]);
            j = j + 1;
            proof {
                assert(out@ =~= zero_digits(pad as nat) + digits@.take(j as int));
            }
        }
        proof {
            assert(digits@.take(digits@.len() as int) =~= digits@);
            assert(out@ =~= padded_digits(v as nat, width as nat));
        }
        out
    }
}

/// An id cell for `v`: `id` followed by the value zero-padded to `width`.
pub fn format_id(v: u64, width: usize) -> (r: Vec<u8>)
    ensures
        r@ == id_text(v as nat, width as nat),
{
    let mut out: Vec<u8> = Vec::new();
    out.push(0x69);
    out.push(0x64);
    let padded = format_padded(v, width);
    let mut j: usize = 0;
    while j < padded.len()
        invariant
            j <= padded@.len(),
            out@ == seq![0x69u8, 0x64u8] + padded@.take(j as int),
        decreases padded@.len() - j,
    {
        out.push(padded[j]);
        j = j + 1;
        proof {
            assert(out@ =~= seq![0x69u8, 0x64u8] + padded@.take(j as int));
        }
    }
    proof {
        assert(padded@.take(padded@.len() as int) =~= padded@);
        assert(out@ =~= id_text(v as nat, width as nat));
    }
    out
}

/// A fixed-point cell for `v` scaled down by one million, with six fraction
/// digits.
pub fn format_fixed6(v: u64) -> (r: Vec<u8>)
    ensures
        r@ == fixed6_text(v as nat),
{
    let whole = v / 1000000;
    let frac = v % 1000000;
    let mut out = format_number(whole);
    let ghost whole_digits = out@;
    out.push(0x2E);
    let padded = format_padded(frac, 6);
    let mut j: usize = 0;
    while j < padded.len()
        invariant
            j <= padded@.len(),
            out@ == whole_digits + seq![0x2Eu8] + padded@.take(j as int),
        decreases padded@.len() - j,
    {
        out.push(padded[j]);
        j = j + 1;
        proof {
            assert(out@ =~= whole_digits + seq![0x2Eu8] + padded@.take(j as int));
        }
    }
    proof {
        assert(padded@.take(padded@.len() as int) =~= padded@);
        assert(out@ =~= fixed6_text(v as nat));
    }
    out
}

/// How an id column's surviving values are written.
#[derive(Clone, Copy, Debug, PartialEq, Eq, Structural)]
pub enum IdFormat {
    /// The letters `id` followed by the value zero-padded to the width.
    Prefixed(usize),
    /// Bare decimal integer.
    Bare,
}

/// The text an id cell carries for a surviving value.
pub open spec fn id_cell_text(v: nat, fmt: IdFormat) -> Seq<u8> {
    match fmt {
        IdFormat::Prefixed(width) => id_text(v, width as nat),
        IdFormat::Bare => dec_digits(v),
    }
}

/// Renders one surviving id value.
pub fn render_id(v: u64, fmt: IdFormat) -> (r: Vec<u8>)
    ensures
        r@ == id_cell_text(v as nat, fmt),
{
    match fmt {
        IdFormat::Prefixed(width) => format_id(v, width),
        IdFormat::Bare => format_number(v),
    }
}

/// How a numeric column's surviving values are written.
#[derive(Clone, Copy, Debug, PartialEq, Eq, Structural)]
pub enum NumberFormat {
    /// Bare decimal integer.
    Plain,
    /// Fixed-point decimal scaled down by one million, six fraction digits.
    Fixed6,
}

/// The text a numeric cell carries for a surviving value.
pub open spec fn number_text(v: nat, fmt: NumberFormat) -> Seq<u8> {
    match fmt {
        NumberFormat::Plain => dec_digits(v),
        NumberFormat::Fixed6 => fixed6_text(v),
    }
}

/// Whether a cell carries the rendering of some value drawn from `[lo, hi)`.
pub open spec fn rendered_cell(cell: Seq<u8>, lo: u64, hi: u64, fmt: NumberFormat) -> bool {
    exists|v: u64| lo <= v < hi && cell == #[trigger] number_text(v as nat, fmt)
}

/// Renders one surviving numeric value.
pub fn render_number(v: u64, fmt: NumberFormat) -> (r: Vec<u8>)
    ensures
        r@ == number_text(v as nat, fmt),
{
    match fmt {
        NumberFormat::Plain => format_number(v),
        NumberFormat::Fixed6 => format_fixed6(v),
    }
}

/// Synthesizes an id-style column of `number_of_rows` cells over the domain
/// `1 ..= k_groups_factors`, blanking every occurrence of each excluded id.
///
/// A sampling pass over the seeded stream, restricted to its first
/// occurrences, draws the value-exclusion set, sized
/// `k_groups_factors * nas_ratio / 100` (fewer only if the stream showed
/// fewer distinct values); the same seed is then rewound and the identical
/// stream re-drawn for emission through the by-value injector.  A surviving
/// value is rendered by `fmt`; an excluded one as the empty field.  The
/// sampled exclusion set is returned beside the cells.
pub fn create_id_column(
    seed: u64,
    number_of_rows: usize,
    k_groups_factors: u64,
    nas_ratio: u64,
    fmt: IdFormat,
) -> (r: (Vec<Vec<u8>>, KeySet))
    requires
        k_groups_factors >= 1,
        k_groups_factors <= u64::MAX / 100,
        nas_ratio < 100,
        k_groups_factors * nas_ratio / 100 <= usize::MAX,
    ensures
        ({
            let values = stream_of(seed, Seq::empty(), number_of_rows as nat, 1, (k_groups_factors + 1) as u64);
            let excluded = key_set_contents(r.1);
            &&& r.0@.len() == number_of_rows
            &&& excluded.finite()
            &&& excluded.subset_of(values.to_set())
            &&& excluded.len() == vstd::math::min(
                (k_groups_factors * nas_ratio / 100) as int,
                values.to_set().len() as int,
            )
            &&& forall|i: int| 0 <= i < number_of_rows ==> #[trigger] r.0@[i]@
                == if excluded.contains(values[i]) {
                    Seq::<u8>::empty()
                } else {
                    id_cell_text(values[i] as nat, fmt)
                }
        }),
{
    proof {
        assert(k_groups_factors * nas_ratio <= (u64::MAX / 100) * 99) by (nonlinear_arith)
            requires
                k_groups_factors <= u64::MAX / 100,
                nas_ratio < 100,
        ;
    }
    let hi = k_groups_factors + 1;
    let sample_size = (k_groups_factors * nas_ratio / 100) as usize;
    let ghost values_spec = stream_of(seed, Seq::empty(), number_of_rows as nat, 1, hi);

    // Sampling pass: discover which ids are eligible and draw the exclusion
    // set from their first occurrences.
    let mut rng = rewind(seed);
    let sampled = draw_stream(&mut rng, number_of_rows, 1, hi);
    let uniques = sampled.unique();
    proof {
        lemma_first_occurrences(sampled@);
        first_occurrences(sampled@).unique_seq_to_set();
    }
    let excluded = uniques.choose_sample(sample_size);

    // Emission pass: rewind to the identical seed, re-draw the identical
    // stream, and blank the excluded ids.
    let mut rng = rewind(seed);
    let values = draw_stream(&mut rng, number_of_rows, 1, hi);
    proof {
        assert(values@ == sampled@);
        assert(values@ == values_spec);
    }
    let optionals = values.none_by_value(excluded.duplicate());
    let ghost excl = key_set_contents(excluded);

    let mut cells: Vec<Vec<u8>> = Vec::new();
    let mut i: usize = 0;
    while i < optionals.len()
        invariant
            i <= optionals@.len(),
            optionals@.len() == values_spec.len(),
            optionals@ == na_by_value(values_spec, excl),
            cells@.len() == i,
            forall|t: int| 0 <= t < i ==> #[trigger] cells@[t]@ == if excl.contains(values_spec[t]) {
                Seq::<u8>::empty()
            } else {
                id_cell_text(values_spec[t] as nat, fmt)
            },
        decreases optionals@.len() - i,
    {
        let cell = match optionals[i] {
            Some(v) => render_id(v, fmt),
            None => Vec::new(),
        };
        cells.push(cell);
        i = i + 1;
    }
    (cells, excluded)
}

/// Synthesizes a numeric column of `number_of_rows` cells drawn from
/// `[lo, hi)`, blanking the cells at a sampled set of row positions.
///
/// The index-exclusion set holds exactly `number_of_rows * nas_ratio / 100`
/// distinct positions (no replay is needed: positions, not values, are
/// excluded); one fresh value is drawn per row and emitted through the
/// by-index injector, rendered by `fmt`, the missing marker as the empty
/// field.  The sampled position set is returned beside the cells.
pub fn create_value_column(
    number_of_rows: usize,
    lo: u64,
    hi: u64,
    nas_ratio: u64,
    fmt: NumberFormat,
) -> (r: (Vec<Vec<u8>>, KeySet))
    requires
        lo < hi,
        nas_ratio < 100,
        number_of_rows <= u64::MAX / 100,
    ensures
        ({
            let excluded = key_set_contents(r.1);
            &&& r.0@.len() == number_of_rows
            &&& excluded.finite()
            &&& excluded.subset_of(Set::new(|p: u64| p < number_of_rows))
            &&& excluded.len() == (number_of_rows as u64) * nas_ratio / 100
            &&& forall|i: int| 0 <= i < number_of_rows ==>
                ((#[trigger] r.0@[i]@ == Seq::<u8>::empty()) <==> excluded.contains(i as u64))
            &&& forall|i: int| 0 <= i < number_of_rows && !excluded.contains(i as u64)
                ==> rendered_cell(#[trigger] r.0@[i]@, lo, hi, fmt)
        }),
{
    proof {
        assert((number_of_rows as u64) * nas_ratio <= (u64::MAX / 100) * 99) by (nonlinear_arith)
            requires
                number_of_rows as u64 <= u64::MAX / 100,
                nas_ratio < 100,
        ;
        assert((number_of_rows as u64) * nas_ratio / 100 <= number_of_rows) by (nonlinear_arith)
            requires
                nas_ratio < 100,
        ;
    }
    let sample_size = ((number_of_rows as u64) * nas_ratio / 100) as usize;

    // Sample the excluded row positions directly over the index domain.
    let mut index_domain: Vec<u64> = Vec::new();
    let mut p: usize = 0;
    while p < number_of_rows
        invariant
            p <= number_of_rows,
            index_domain@.len() == p,
            forall|t: int| 0 <= t < p ==> #[trigger] index_domain@[t] == t as u64,
        decreases number_of_rows - p,
    {
        index_domain.push(p as u64);
        p = p + 1;
    }
    proof {
        assert forall|t1: int, t2: int| 0 <= t1 < t2 < index_domain@.len()
            implies index_domain@[t1] != index_domain@[t2] by {}
        index_domain@.unique_seq_to_set();
    }
    let indices = index_domain.choose_sample(sample_size);
    let ghost excl = key_set_contents(indices);
    proof {
        assert forall|x: u64| excl.contains(x) implies x < number_of_rows by {
            assert(index_domain@.to_set().contains(x));
            assert(index_domain@.contains(x));
        }
        assert(excl.subset_of(Set::new(|q: u64| q < number_of_rows)));
    }

    // Draw one fresh value per row and blank the excluded positions.
    let (_, mut rng) = init();
    let values = draw_stream(&mut rng, number_of_rows, lo, hi);
    let optionals = values.none_by_index(indices.duplicate());

    let mut cells: Vec<Vec<u8>> = Vec::new();
    let mut i: usize = 0;
    while i < optionals.len()
        invariant
            i <= optionals@.len(),
            optionals@.len() == number_of_rows,
            values@.len() == number_of_rows,
            optionals@ == na_by_index(values@, excl, 0),
            forall|t: int| 0 <= t < values@.len() ==> lo <= #[trigger] values@[t] < hi,
            lo < hi,
            cells@.len() == i,
            forall|t: int| 0 <= t < i ==>
                ((#[trigger] cells@[t]@ == Seq::<u8>::empty()) <==> excl.contains(t as u64)),
            forall|t: int| 0 <= t < i && !excl.contains(t as u64)
                ==> #[trigger] cells@[t]@ == number_text(values@[t] as nat, fmt),
        decreases optionals@.len() - i,
    {
        let cell = match optionals[i] {
            Some(v) => render_number(v, fmt),
            None => Vec::new(),
        };
        proof {
            if !excl.contains(i as u64) {
                assert(optionals@[i as int] == Some(values@[i as int]));
                assert(cell@ == number_text(values@[i as int] as nat, fmt));
                lemma_number_text_nonempty(values@[i as int] as nat, fmt);
            } else {
                assert(optionals@[i as int] is None);
            }
        }
        cells.push(cell);
        i = i + 1;
    }
    proof {
        assert forall|t: int| 0 <= t < number_of_rows && !excl.contains(t as u64)
            implies rendered_cell(#[trigger] cells@[t]@, lo, hi, fmt) by {
            assert(lo <= values@[t] < hi && cells@[t]@ == number_text(values@[t] as nat, fmt));
        }
    }
    (cells, indices)
}

/// A rendered number is never the empty field: the missing marker is
/// unmistakable.
pub proof fn lemma_number_text_nonempty(v: nat, fmt: NumberFormat)
    ensures
        number_text(v, fmt).len() > 0,
{
    lemma_dec_digits_nonempty(v);
    lemma_dec_digits_nonempty(v / 1000000);
}

proof fn lemma_dec_digits_nonempty(v: nat)
    ensures
        dec_digits(v).len() > 0,
    decreases v,
{
    if v >= 10 {
        lemma_dec_digits_nonempty(v / 10);
    }
}

} // verus!
