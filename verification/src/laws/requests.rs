//! Requests: which are accepted, and what is sampled for them.

use vstd::prelude::*;

use crate::isosurface::{
    options_refusal, sample_refusal, samples_refusal, specs_of, wanted_components,
    IsosurfaceOptions, Sample, Scalars,
};
use crate::isosurface::sampling::{
    channel, channels_refusal, eight_at, first_absent, sampling_refusal, SampleError,
};
use crate::outcome::first_refusal;
use crate::slice::slice_samples_refusal;
use crate::utility::sparse_grid3::grid::SparseGrid3;
use crate::vec3::UVec3;

verus! {

/// A sample is acceptable: its component exists, both ends of its range are finite, and the
/// lower one is less than the upper one.
pub open spec fn acceptable<S>(
    s: Sample<S>,
    variable_count: usize,
    finite: spec_fn(S) -> bool,
    less: spec_fn(S, S) -> bool,
) -> bool {
    (s.id as int) < variable_count && finite(s.min) && finite(s.max) && less(s.min, s.max)
}

pub proof fn lemma_first_none<A, E>(list: Seq<A>, refusal: spec_fn(A) -> Option<E>)
    ensures
        first_refusal(list, refusal) is None <==> forall|i: int|
            0 <= i < list.len() ==> refusal(#[trigger] list[i]) is None,
        first_refusal(list, refusal) matches Some(e) ==> exists|i: int|
            0 <= i < list.len() && refusal(#[trigger] list[i]) == Some(e) && forall|j: int|
                0 <= j < i ==> refusal(#[trigger] list[j]) is None,
    decreases list.len(),
{
    if list.len() > 0 {
        let rest = list.drop_first();
        lemma_first_none(rest, refusal);
        if refusal(list[0]) is None {
            assert(forall|i: int| 0 <= i < rest.len() ==> #[trigger] rest[i] == list[i + 1]);
            if first_refusal(rest, refusal) is None {
                assert forall|i: int| 0 <= i < list.len() implies refusal(#[trigger] list[i]) is None by {
                    if i > 0 {
                        assert(refusal(rest[i - 1]) is None);
                    }
                }
            } else {
                let e = first_refusal(rest, refusal)->0;
                let i = choose|i: int|
                    0 <= i < rest.len() && refusal(#[trigger] rest[i]) == Some(e) && forall|j: int|
                        0 <= j < i ==> refusal(#[trigger] rest[j]) is None;
                assert(refusal(list[i + 1]) == Some(e));
                assert forall|j: int| 0 <= j < i + 1 implies refusal(#[trigger] list[j]) is None by {
                    if j > 0 {
                        assert(refusal(rest[j - 1]) is None);
                    }
                }
            }
        } else {
            assert(refusal(list[0]) is Some);
        }
    }
}

/// Up to two samples are taken, and each must be acceptable.
pub proof fn law_samples_accepted<S>(
    samples: Seq<Sample<S>>,
    variable_count: usize,
    finite: spec_fn(S) -> bool,
    less: spec_fn(S, S) -> bool,
)
    ensures
        samples_refusal(samples, variable_count, finite, less) is None <==> samples.len() <= 2
            && forall|i: int|
            0 <= i < samples.len() ==> acceptable(
                #[trigger] samples[i],
                variable_count,
                finite,
                less,
            ),
{
    let refusal = |s: Sample<S>| sample_refusal(s, variable_count, finite, less);
    lemma_first_none(samples, refusal);
    assert forall|i: int| 0 <= i < samples.len() implies (refusal(#[trigger] samples[i]) is None
        <==> acceptable(samples[i], variable_count, finite, less)) by {}
    if forall|i: int|
        0 <= i < samples.len() ==> acceptable(#[trigger] samples[i], variable_count, finite, less) {
        assert forall|i: int| 0 <= i < samples.len() implies refusal(#[trigger] samples[i]) is None by {
            assert(acceptable(samples[i], variable_count, finite, less));
        }
    }
    if first_refusal(samples, refusal) is None {
        assert forall|i: int| 0 <= i < samples.len() implies acceptable(
            #[trigger] samples[i],
            variable_count,
            finite,
            less,
        ) by {
            assert(refusal(samples[i]) is None);
        }
    }
}

/// Isosurface options are accepted when the surface component exists, the isovalue is finite and
/// fits a sample, the level range is not empty, and all samples are acceptable.
pub proof fn law_options_accepted<S, T>(
    options: IsosurfaceOptions<S>,
    variable_count: usize,
    scalars: Scalars<S, T>,
)
    ensures
        options_refusal(options, variable_count, scalars) is None <==> {
            &&& (options.surface.id as int) < variable_count
            &&& (scalars.finite)(options.surface.value)
            &&& (scalars.narrow)(options.surface.value) is Some
            &&& options.levels matches Some(r) ==> r.start <= r.end
            &&& options.sampled_quantities@.len() <= 2
            &&& forall|i: int|
                0 <= i < options.sampled_quantities@.len() ==> acceptable(
                    #[trigger] options.sampled_quantities@[i],
                    variable_count,
                    scalars.finite,
                    scalars.less,
                )
        },
{
    law_samples_accepted(
        options.sampled_quantities@,
        variable_count,
        scalars.finite,
        scalars.less,
    );
}

/// A slice takes one or two samples, and each must be acceptable.
pub proof fn law_slice_samples_accepted<S>(
    samples: Seq<Sample<S>>,
    variable_count: usize,
    finite: spec_fn(S) -> bool,
    less: spec_fn(S, S) -> bool,
)
    ensures
        slice_samples_refusal(samples, variable_count, finite, less) is None <==> 1 <= samples.len()
            <= 2 && forall|i: int|
            0 <= i < samples.len() ==> acceptable(
                #[trigger] samples[i],
                variable_count,
                finite,
                less,
            ),
{
    law_samples_accepted(samples, variable_count, finite, less);
}

/// A checked sample has the component and the range of its sample.
pub proof fn law_checked_samples<S>(samples: Seq<Sample<S>>, i: int)
    requires
        0 <= i < samples.len(),
    ensures
        specs_of(samples).len() == samples.len(),
        specs_of(samples)[i].component == samples[i].id,
        specs_of(samples)[i].min == samples[i].min,
        specs_of(samples)[i].max == samples[i].max,
{
}

/// For an isosurface the surface component is loaded first, and then those of the samples.
pub proof fn law_wanted_components<S>(options: IsosurfaceOptions<S>, i: int)
    requires
        0 <= i < options.sampled_quantities@.len(),
    ensures
        wanted_components(options).len() == 1 + options.sampled_quantities@.len(),
        wanted_components(options)[0] == options.surface.id,
        wanted_components(options)[1 + i] == options.sampled_quantities@[i].id,
{
}

proof fn lemma_absent<T: Copy + PartialEq>(grid: SparseGrid3<T>, points: Seq<UVec3>)
    ensures
        match first_absent(grid, points) {
            None => forall|i: int| 0 <= i < points.len() ==> grid.at(#[trigger] points[i]) is Some,
            Some(e) => e matches SampleError::Missing(p) && points.contains(p) && grid.at(
                p,
            ) is None,
        },
    decreases points.len(),
{
    if points.len() > 0 {
        let rest = points.drop_first();
        lemma_absent(grid, rest);
        if grid.at(points[0]) is None {
            assert(points.contains(points[0]));
        } else if first_absent(grid, rest) is None {
            assert forall|i: int| 0 <= i < points.len() implies grid.at(#[trigger] points[i]) is Some by {
                if i > 0 {
                    assert(rest[i - 1] == points[i]);
                }
            }
        } else if let Some(SampleError::Missing(p)) = first_absent(grid, rest) {
            let i = choose|i: int| 0 <= i < rest.len() && rest[i] == p;
            assert(points[i + 1] == p);
        }
    }
}

proof fn lemma_channels<T: Copy + PartialEq>(grids: Seq<&SparseGrid3<T>>, points: Seq<UVec3>)
    ensures
        match channels_refusal(grids, points) {
            None => forall|c: int, i: int|
                0 <= c < grids.len() && 0 <= i < points.len() ==> (#[trigger] grids[c]).at(
                    #[trigger] points[i],
                ) is Some,
            Some(e) => e matches SampleError::Missing(p) && points.contains(p) && exists|c: int|
                0 <= c < grids.len() && (#[trigger] grids[c]).at(p) is None,
        },
    decreases grids.len(),
{
    if grids.len() > 0 {
        let rest = grids.drop_first();
        lemma_channels(rest, points);
        lemma_absent(*grids[0], points);
        if first_absent(*grids[0], points) is None {
            if channels_refusal(rest, points) is None {
                assert forall|c: int, i: int|
                    0 <= c < grids.len() && 0 <= i < points.len() implies (#[trigger] grids[c]).at(
                    #[trigger] points[i],
                ) is Some by {
                    if c > 0 {
                        assert(rest[c - 1] == grids[c]);
                    }
                }
            } else if let Some(SampleError::Missing(p)) = channels_refusal(rest, points) {
                let c = choose|c: int| 0 <= c < rest.len() && (#[trigger] rest[c]).at(p) is None;
                assert(grids[c + 1].at(p) is None);
            }
        } else if let Some(SampleError::Missing(p)) = first_absent(*grids[0], points) {
            assert(grids[0].at(p) is None);
        }
    }
}

/// Quantities are sampled when there is one range per grid, at most two of them, and every grid
/// has a sample at every point; a missing sample is reported by its point.
pub proof fn law_sampling<T: Copy + PartialEq>(
    grids: Seq<&SparseGrid3<T>>,
    ranges: nat,
    points: Seq<UVec3>,
)
    ensures
        sampling_refusal(grids, ranges, points) is None <==> {
            &&& grids.len() == ranges
            &&& ranges <= 2
            &&& forall|c: int, i: int|
                0 <= c < grids.len() && 0 <= i < points.len() ==> (#[trigger] grids[c]).at(
                    #[trigger] points[i],
                ) is Some
        },
        sampling_refusal(grids, ranges, points) matches Some(SampleError::Missing(p)) ==> {
            &&& points.contains(p)
            &&& exists|c: int| 0 <= c < grids.len() && (#[trigger] grids[c]).at(p) is None
        },
        sampling_refusal(grids, ranges, points) == Some(SampleError::CountMismatch) <==> grids.len()
            != ranges,
{
    lemma_channels(grids, points);
    if let Some(SampleError::Missing(p)) = channels_refusal(grids, points) {
        let c = choose|c: int| 0 <= c < grids.len() && (#[trigger] grids[c]).at(p) is None;
        let i = choose|i: int| 0 <= i < points.len() && points[i] == p;
        assert(grids[c].at(points[i]) is None);
    }
}

/// A blend of the corners of a cube is made of the samples at the corners, in their order.
pub proof fn law_eight_samples<T: Copy + PartialEq>(grid: SparseGrid3<T>, p: [UVec3; 8], i: int)
    requires
        0 <= i < 8,
        grid.at(p@[i]) is Some,
    ensures
        grid.at(p@[i]) == Some(eight_at(grid, p)@[i]),
{
    assert(i == 0 || i == 1 || i == 2 || i == 3 || i == 4 || i == 5 || i == 6 || i == 7);
}

/// The first encoded value stands in the first channel and the second in the second; a channel
/// without a value is zero.
pub proof fn law_channels(values: Seq<u16>)
    ensures
        values.len() > 0 ==> channel(values, 0) == values[0],
        values.len() > 1 ==> channel(values, 1) == values[1],
        values.len() <= 0 ==> channel(values, 0) == 0,
        values.len() <= 1 ==> channel(values, 1) == 0,
{
}

} // verus!
