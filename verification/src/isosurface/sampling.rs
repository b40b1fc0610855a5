//! Auxiliary quantities at mesh vertices.

use vstd::prelude::*;

use crate::outcome::{total2, total3};
use crate::utility::sparse_grid3::grid::SparseGrid3;
use crate::vec3::UVec3;

verus! {

/// Why a vertex could not be sampled.
#[derive(Debug, Clone, Copy, PartialEq, Eq, Structural)]
pub enum SampleError {
    /// Grids and ranges differ in number.
    CountMismatch,
    /// More than two channels.
    TooManyChannels,
    /// A sample is absent.
    Missing(UVec3),
}

/// The channel counts are in order.
pub open spec fn channel_refusal(grids: nat, ranges: nat) -> Option<SampleError> {
    if grids != ranges {
        Some(SampleError::CountMismatch)
    } else if ranges > 2 {
        Some(SampleError::TooManyChannels)
    } else {
        None
    }
}

fn check_channels(grids: usize, ranges: usize) -> (r: Result<(), SampleError>)
    ensures
        match r {
            Ok(()) => channel_refusal(grids as nat, ranges as nat) is None,
            Err(e) => channel_refusal(grids as nat, ranges as nat) == Some(e),
        },
{
    if grids != ranges {
        return Err(SampleError::CountMismatch);
    }
    if ranges > 2 {
        return Err(SampleError::TooManyChannels);
    }
    Ok(())
}

/// The first of the points without a sample, if there is one.
pub open spec fn first_absent<T: Copy + PartialEq>(
    grid: SparseGrid3<T>,
    points: Seq<UVec3>,
) -> Option<SampleError>
    decreases points.len(),
{
    if points.len() == 0 {
        None
    } else if grid.at(points[0]) is None {
        Some(SampleError::Missing(points[0]))
    } else {
        first_absent(grid, points.drop_first())
    }
}

/// The first channel that lacks one of the points decides.
pub open spec fn channels_refusal<T: Copy + PartialEq>(
    grids: Seq<&SparseGrid3<T>>,
    points: Seq<UVec3>,
) -> Option<SampleError>
    decreases grids.len(),
{
    if grids.len() == 0 {
        None
    } else if first_absent(*grids[0], points) is Some {
        first_absent(*grids[0], points)
    } else {
        channels_refusal(grids.drop_first(), points)
    }
}

/// Channel `c` of the encoded values: zero where there is no such channel.
pub open spec fn channel(values: Seq<u16>, c: int) -> u16 {
    if c < values.len() {
        values[c]
    } else {
        0
    }
}

/// Up to two values as two channels.
fn to_channels(values: &Vec<u16>) -> (r: [u16; 2])
    ensures
        r@[0] == channel(values@, 0),
        r@[1] == channel(values@, 1),
{
    let first = if values.len() > 0 {
        values[0]
    } else {
        0
    };
    let second = if values.len() > 1 {
        values[1]
    } else {
        0
    };
    [first, second]
}

/// What is wrong with sampling these grids at these points, if anything.
pub open spec fn sampling_refusal<T: Copy + PartialEq>(
    grids: Seq<&SparseGrid3<T>>,
    ranges: nat,
    points: Seq<UVec3>,
) -> Option<SampleError> {
    if channel_refusal(grids.len(), ranges) is Some {
        channel_refusal(grids.len(), ranges)
    } else {
        channels_refusal(grids, points)
    }
}

/// The first channel without refusal does not change what the rest says.
proof fn lemma_channels_refusal<T: Copy + PartialEq>(
    grids: Seq<&SparseGrid3<T>>,
    points: Seq<UVec3>,
    i: int,
)
    requires
        0 <= i <= grids.len(),
        forall|j: int| 0 <= j < i ==> first_absent(*(#[trigger] grids[j]), points) is None,
        i < grids.len() ==> first_absent(*grids[i], points) is Some,
    ensures
        channels_refusal(grids, points) == if i < grids.len() {
            first_absent(*grids[i], points)
        } else {
            None
        },
    decreases i,
{
    if i > 0 {
        let rest = grids.drop_first();
        assert(first_absent(*grids[0], points) is None);
        assert forall|j: int| 0 <= j < i - 1 implies first_absent(
            *(#[trigger] rest[j]),
            points,
        ) is None by {
            assert(rest[j] == grids[j + 1]);
        }
        if i < grids.len() {
            assert(rest[i - 1] == grids[i]);
        }
        lemma_channels_refusal(rest, points, i - 1);
    }
}

/// Encodes auxiliary quantities between the two ends of an edge. `encode` blends the two
/// samples and normalizes the result by the channel's range.
pub fn sampled_values_on_edge<T: Copy + PartialEq, R: Copy, F: Fn(T, T, R) -> u16>(
    grids: &Vec<&SparseGrid3<T>>,
    start: UVec3,
    end: UVec3,
    ranges: &Vec<R>,
    encode: &F,
) -> (r: Result<[u16; 2], SampleError>)
    requires
        forall|i: int| 0 <= i < grids@.len() ==> (#[trigger] grids@[i]).wf(),
        total3(*encode),
    ensures
        match r {
            Err(e) => sampling_refusal(grids@, ranges@.len(), seq![start, end]) == Some(e),
            Ok(v) => {
                &&& sampling_refusal(grids@, ranges@.len(), seq![start, end]) is None
                &&& forall|c: int|
                    0 <= c < 2 ==> if c < grids@.len() {
                        call_ensures(
                            *encode,
                            (grids@[c].at(start)->0, grids@[c].at(end)->0, ranges@[c]),
                            #[trigger] v@[c],
                        )
                    } else {
                        v@[c] == 0
                    }
            },
        },
{
    match check_channels(grids.len(), ranges.len()) {
        Ok(()) => {},
        Err(e) => return Err(e),
    }
    let ghost points = seq![start, end];
    let mut out: Vec<u16> = Vec::with_capacity(2);
    let mut c: usize = 0;
    while c < grids.len()
        invariant
            c <= grids@.len(),
            channel_refusal(grids@.len(), ranges@.len()) is None,
            points == seq![start, end],
            forall|i: int| 0 <= i < grids@.len() ==> (#[trigger] grids@[i]).wf(),
            total3(*encode),
            forall|j: int| 0 <= j < c ==> first_absent(*(#[trigger] grids@[j]), points) is None,
            out@.len() == c,
            forall|j: int|
                0 <= j < c ==> call_ensures(
                    *encode,
                    (grids@[j].at(start)->0, grids@[j].at(end)->0, ranges@[j]),
                    #[trigger] out@[j],
                ),
        decreases grids@.len() - c,
    {
        assert(grids@[c as int].wf());
        proof {
            reveal_with_fuel(first_absent, 3);
            assert(points.drop_first() =~= seq![end]);
            assert(points.drop_first().drop_first() =~= Seq::empty());
        }
        let first = match grids[c].get(start) {
            Some(v) => v,
            None => {
                proof {
                    lemma_channels_refusal(grids@, points, c as int);
                }
                return Err(SampleError::Missing(start));
            },
        };
        let second = match grids[c].get(end) {
            Some(v) => v,
            None => {
                proof {
                    lemma_channels_refusal(grids@, points, c as int);
                }
                return Err(SampleError::Missing(end));
            },
        };
        out.push(encode(first, second, ranges[c]));
        c += 1;
    }
    proof {
        lemma_channels_refusal(grids@, points, grids@.len() as int);
    }
    Ok(to_channels(&out))
}

/// Encodes auxiliary quantities at a lattice point.
pub fn sampled_values_at<T: Copy + PartialEq, R: Copy, F: Fn(T, R) -> u16>(
    grids: &Vec<&SparseGrid3<T>>,
    position: UVec3,
    ranges: &Vec<R>,
    encode: &F,
) -> (r: Result<[u16; 2], SampleError>)
    requires
        forall|i: int| 0 <= i < grids@.len() ==> (#[trigger] grids@[i]).wf(),
        total2(*encode),
    ensures
        match r {
            Err(e) => sampling_refusal(grids@, ranges@.len(), seq![position]) == Some(e),
            Ok(v) => {
                &&& sampling_refusal(grids@, ranges@.len(), seq![position]) is None
                &&& forall|c: int|
                    0 <= c < 2 ==> if c < grids@.len() {
                        call_ensures(
                            *encode,
                            (grids@[c].at(position)->0, ranges@[c]),
                            #[trigger] v@[c],
                        )
                    } else {
                        v@[c] == 0
                    }
            },
        },
{
    match check_channels(grids.len(), ranges.len()) {
        Ok(()) => {},
        Err(e) => return Err(e),
    }
    let ghost points = seq![position];
    let mut out: Vec<u16> = Vec::with_capacity(2);
    let mut c: usize = 0;
    while c < grids.len()
        invariant
            c <= grids@.len(),
            channel_refusal(grids@.len(), ranges@.len()) is None,
            points == seq![position],
            forall|i: int| 0 <= i < grids@.len() ==> (#[trigger] grids@[i]).wf(),
            total2(*encode),
            forall|j: int| 0 <= j < c ==> first_absent(*(#[trigger] grids@[j]), points) is None,
            out@.len() == c,
            forall|j: int|
                0 <= j < c ==> call_ensures(
                    *encode,
                    (grids@[j].at(position)->0, ranges@[j]),
                    #[trigger] out@[j],
                ),
        decreases grids@.len() - c,
    {
        assert(grids@[c as int].wf());
        proof {
            reveal_with_fuel(first_absent, 2);
            assert(points.drop_first() =~= Seq::empty());
        }
        let value = match grids[c].get(position) {
            Some(v) => v,
            None => {
                proof {
                    lemma_channels_refusal(grids@, points, c as int);
                }
                return Err(SampleError::Missing(position));
            },
        };
        out.push(encode(value, ranges[c]));
        c += 1;
    }
    proof {
        lemma_channels_refusal(grids@, points, grids@.len() as int);
    }
    Ok(to_channels(&out))
}

/// The samples of a grid at eight points.
pub open spec fn eight_at<T: Copy + PartialEq>(grid: SparseGrid3<T>, p: [UVec3; 8]) -> [T; 8] {
    [
        grid.at(p@[0])->0,
        grid.at(p@[1])->0,
        grid.at(p@[2])->0,
        grid.at(p@[3])->0,
        grid.at(p@[4])->0,
        grid.at(p@[5])->0,
        grid.at(p@[6])->0,
        grid.at(p@[7])->0,
    ]
}

/// The samples of a grid at eight points, or the first point without one.
fn read_eight<T: Copy + PartialEq>(grid: &SparseGrid3<T>, positions: &[UVec3; 8]) -> (r: Result<
    [T; 8],
    SampleError,
>)
    requires
        grid.wf(),
    ensures
        match r {
            Ok(v) => first_absent(*grid, positions@) is None && v == eight_at(*grid, *positions),
            Err(e) => first_absent(*grid, positions@) == Some(e),
        },
{
    let mut found: Vec<T> = Vec::with_capacity(8);
    let mut i: usize = 0;
    assert(positions@.skip(0) =~= positions@);
    while i < 8
        invariant
            i <= 8,
            grid.wf(),
            found@.len() == i,
            forall|j: int| 0 <= j < i ==> grid.at(#[trigger] positions@[j]) == Some(found@[j]),
            first_absent(*grid, positions@) == first_absent(*grid, positions@.skip(i as int)),
        decreases 8 - i,
    {
        let ghost rest = positions@.skip(i as int);
        assert(rest.drop_first() =~= positions@.skip(i + 1));
        match grid.get(positions[i]) {
            Some(v) => found.push(v),
            None => return Err(SampleError::Missing(positions[i])),
        }
        i += 1;
    }
    let values = [
        found[0],
        found[1],
        found[2],
        found[3],
        found[4],
        found[5],
        found[6],
        found[7],
    ];
    proof {
        assert(grid.at(positions@[0]) == Some(found@[0]));
        assert(grid.at(positions@[1]) == Some(found@[1]));
        assert(grid.at(positions@[2]) == Some(found@[2]));
        assert(grid.at(positions@[3]) == Some(found@[3]));
        assert(grid.at(positions@[4]) == Some(found@[4]));
        assert(grid.at(positions@[5]) == Some(found@[5]));
        assert(grid.at(positions@[6]) == Some(found@[6]));
        assert(grid.at(positions@[7]) == Some(found@[7]));
        assert(values =~= eight_at(*grid, *positions));
    }
    Ok(values)
}

/// Encodes auxiliary quantities blended from the eight corners of a cube.
pub fn sampled_values_weighted<T: Copy + PartialEq, R: Copy, F: Fn([T; 8], R) -> u16>(
    grids: &Vec<&SparseGrid3<T>>,
    positions: &[UVec3; 8],
    ranges: &Vec<R>,
    encode: &F,
) -> (r: Result<[u16; 2], SampleError>)
    requires
        forall|i: int| 0 <= i < grids@.len() ==> (#[trigger] grids@[i]).wf(),
        total2(*encode),
    ensures
        match r {
            Err(e) => sampling_refusal(grids@, ranges@.len(), positions@) == Some(e),
            Ok(v) => {
                &&& sampling_refusal(grids@, ranges@.len(), positions@) is None
                &&& forall|c: int|
                    0 <= c < 2 ==> if c < grids@.len() {
                        call_ensures(
                            *encode,
                            (eight_at(*grids@[c], *positions), ranges@[c]),
                            #[trigger] v@[c],
                        )
                    } else {
                        v@[c] == 0
                    }
            },
        },
{
    match check_channels(grids.len(), ranges.len()) {
        Ok(()) => {},
        Err(e) => return Err(e),
    }
    let mut out: Vec<u16> = Vec::with_capacity(2);
    let mut c: usize = 0;
    while c < grids.len()
        invariant
            c <= grids@.len(),
            channel_refusal(grids@.len(), ranges@.len()) is None,
            forall|i: int| 0 <= i < grids@.len() ==> (#[trigger] grids@[i]).wf(),
            total2(*encode),
            forall|j: int|
                0 <= j < c ==> first_absent(*(#[trigger] grids@[j]), positions@) is None,
            out@.len() == c,
            forall|j: int|
                0 <= j < c ==> call_ensures(
                    *encode,
                    (eight_at(*grids@[j], *positions), ranges@[j]),
                    #[trigger] out@[j],
                ),
        decreases grids@.len() - c,
    {
        assert(grids@[c as int].wf());
        let eight = match read_eight(grids[c], positions) {
            Ok(v) => v,
            Err(e) => {
                proof {
                    lemma_channels_refusal(grids@, positions@, c as int);
                }
                return Err(e);
            },
        };
        out.push(encode(eight, ranges[c]));
        c += 1;
    }
    proof {
        lemma_channels_refusal(grids@, positions@, grids@.len() as int);
    }
    Ok(to_channels(&out))
}

} // verus!
