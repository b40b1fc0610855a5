//! Isosurface extraction from sparse AMR data.
//!
//! The decisions of the extractors are here: which cubes are visited, how they are split into
//! triangles, which vertices are shared and which faces are kept. Vertex payloads (positions,
//! texture coordinates) are of types that the caller chooses, and are made by functions that
//! the caller hands in.

pub mod dedup;
pub mod dual_grid;
pub mod extraction;
pub mod mc33;
pub mod mesh;
pub mod mesher;
pub mod parallel;
pub mod rmt;
pub mod sampling;
pub mod surface;
pub mod walk;

use vstd::prelude::*;

use crate::compact::{compact_loaded, slot_of, CompactLoadError, CompactPlot};
use crate::data_reader::RawScalar;
use crate::isosurface::dual_grid::{
    all_chosen, dual_grid_levels_from_compact, dual_refusal, is_dual_level, law_chosen_levels,
    slots_of, DualGridLevel, LevelRange,
};
use crate::isosurface::mesh::{
    empty_mesh, flip_faces_from, flipped, merge_mesh, merge_of, merge_refusal, Mesh3D, MeshError,
    MeshModel,
};
use crate::outcome::{
    computes1, computes2, first_refusal, lemma_first_refusal, total1, total2,
};
use crate::native_file::PlotFile;
use crate::utility::sparse_grid3::value::lawful;

verus! {

/// Why an extraction was refused.
#[derive(Debug, Clone, Copy, PartialEq, Eq, Structural)]
pub enum ExtractError {
    /// More than two sampled quantities.
    TooManySamples,
    /// No sampled quantity where one is needed.
    NoSamples,
    /// The component does not exist.
    ComponentOutOfRange(usize),
    /// The component is not loaded.
    ComponentNotLoaded(usize),
    /// A bound of a sample range is not finite.
    RangeNotFinite,
    /// The maximum of a sample range does not exceed its minimum.
    RangeEmpty,
    /// The isovalue or plane value is not finite.
    ValueNotFinite,
    /// The isovalue does not fit in single precision.
    ValueTooLarge,
    /// A level range ends before it starts.
    LevelRangeEmpty,
    /// A level lacks a component.
    MissingSlot,
    /// A refinement ratio is missing.
    MissingRatio,
    /// A refinement ratio does not fit.
    RatioTooLarge,
    /// A refinement ratio is zero.
    ZeroRatio,
}

/// Auxiliary scalar component to sample onto generated vertices.
#[derive(Debug)]
pub struct Sample<S> {
    /// Component id in the plotfile variable list.
    pub id: u32,
    /// Value mapped to `0`.
    pub min: S,
    /// Value mapped to `1`.
    pub max: S,
}

/// Scalar component and threshold used to extract a surface.
#[derive(Debug)]
pub struct Surface<S> {
    /// Component id in the plotfile variable list.
    pub id: u32,
    /// Isovalue in the component's native units.
    pub value: S,
}

/// Options controlling isosurface extraction.
#[derive(Debug)]
pub struct IsosurfaceOptions<S> {
    /// Surface component and threshold.
    pub surface: Surface<S>,
    /// Up to two additional components sampled into vertex `uv`.
    pub sampled_quantities: Vec<Sample<S>>,
    /// Optional inclusive AMR level range to extract.
    pub levels: Option<LevelRange>,
    /// Flip all emitted triangle winding if set.
    pub flip_winding: bool,
}

/// A checked sample: component and range.
#[derive(Debug)]
pub struct SampleSpec<S> {
    pub component: usize,
    pub min: S,
    pub max: S,
}

impl<S: Copy> Clone for Sample<S> {
    fn clone(&self) -> (r: Self)
        ensures
            r == *self,
    {
        *self
    }
}

impl<S: Copy> Copy for Sample<S> {

}

impl<S: Copy> Clone for Surface<S> {
    fn clone(&self) -> (r: Self)
        ensures
            r == *self,
    {
        *self
    }
}

impl<S: Copy> Copy for Surface<S> {

}

impl<S: Copy> Clone for SampleSpec<S> {
    fn clone(&self) -> (r: Self)
        ensures
            r == *self,
    {
        *self
    }
}

impl<S: Copy> Copy for SampleSpec<S> {

}

/// What is wrong with a sample, if anything.
pub open spec fn sample_refusal<S>(
    sample: Sample<S>,
    variable_count: usize,
    finite: spec_fn(S) -> bool,
    less: spec_fn(S, S) -> bool,
) -> Option<ExtractError> {
    if sample.id >= variable_count {
        Some(ExtractError::ComponentOutOfRange(sample.id as usize))
    } else if !finite(sample.min) || !finite(sample.max) {
        Some(ExtractError::RangeNotFinite)
    } else if !less(sample.min, sample.max) {
        Some(ExtractError::RangeEmpty)
    } else {
        None
    }
}

/// The checked form of samples.
pub open spec fn specs_of<S>(samples: Seq<Sample<S>>) -> Seq<SampleSpec<S>> {
    samples.map_values(
        |s: Sample<S>| SampleSpec { component: s.id as usize, min: s.min, max: s.max },
    )
}

/// What is wrong with a list of samples, if anything.
pub open spec fn samples_refusal<S>(
    samples: Seq<Sample<S>>,
    variable_count: usize,
    finite: spec_fn(S) -> bool,
    less: spec_fn(S, S) -> bool,
) -> Option<ExtractError> {
    if samples.len() > 2 {
        Some(ExtractError::TooManySamples)
    } else {
        first_refusal(samples, |s: Sample<S>| sample_refusal(s, variable_count, finite, less))
    }
}

/// Checks samples: at most two, of components that exist, with finite ranges that are not empty.
pub fn validate_sample_specs_for_len<S: Copy, F: Fn(S) -> bool, L: Fn(S, S) -> bool>(
    variable_count: usize,
    samples: &[Sample<S>],
    finite: &F,
    less: &L,
) -> (r: Result<Vec<SampleSpec<S>>, ExtractError>)
    requires
        total1(*finite),
        total2(*less),
    ensures
        r matches Ok(v) ==> v@ == specs_of(samples@),
        forall|f: spec_fn(S) -> bool, l: spec_fn(S, S) -> bool|
            #![trigger computes1(*finite, f), computes2(*less, l)]
            computes1(*finite, f) && computes2(*less, l) ==> samples_refusal(
                samples@,
                variable_count,
                f,
                l,
            ) == match r {
                Ok(_) => None,
                Err(e) => Some(e),
            },
{
    if samples.len() > 2 {
        return Err(ExtractError::TooManySamples);
    }
    let mut out: Vec<SampleSpec<S>> = Vec::with_capacity(samples.len());
    let mut i: usize = 0;
    while i < samples.len()
        invariant
            i <= samples@.len(),
            samples@.len() <= 2,
            total1(*finite),
            total2(*less),
            forall|f: spec_fn(S) -> bool, l: spec_fn(S, S) -> bool|
                #![trigger computes1(*finite, f), computes2(*less, l)]
                computes1(*finite, f) && computes2(*less, l) ==> samples_accepted(
                    samples@,
                    variable_count,
                    f,
                    l,
                    i as int,
                ),
            out@.len() == i,
            forall|j: int| 0 <= j < i ==> #[trigger] out@[j] == specs_of(samples@)[j],
        decreases samples@.len() - i,
    {
        let checked = check_sample(samples[i], variable_count, finite, less);
        proof {
            assert forall|f: spec_fn(S) -> bool, l: spec_fn(S, S) -> bool|
                #![trigger computes1(*finite, f), computes2(*less, l)]
                computes1(*finite, f) && computes2(*less, l) implies match checked {
                Ok(_) => samples_accepted(samples@, variable_count, f, l, i + 1),
                Err(e) => samples_refusal(samples@, variable_count, f, l) == Some(e),
            } by {
                let refusal = |s: Sample<S>| sample_refusal(s, variable_count, f, l);
                assert(samples_accepted(samples@, variable_count, f, l, i as int));
                if checked is Err {
                    lemma_first_refusal(samples@, refusal, i as int);
                }
            }
        }
        match checked {
            Ok(spec) => out.push(spec),
            Err(e) => return Err(e),
        }
        i += 1;
    }
    proof {
        assert forall|f: spec_fn(S) -> bool, l: spec_fn(S, S) -> bool|
            #![trigger computes1(*finite, f), computes2(*less, l)]
            computes1(*finite, f) && computes2(*less, l) implies samples_refusal(
            samples@,
            variable_count,
            f,
            l,
        ) is None by {
            let refusal = |s: Sample<S>| sample_refusal(s, variable_count, f, l);
            assert(samples_accepted(samples@, variable_count, f, l, i as int));
            lemma_first_refusal(samples@, refusal, samples@.len() as int);
        }
        assert(out@ =~= specs_of(samples@));
    }
    Ok(out)
}

/// The first `n` samples are in order.
spec fn samples_accepted<S>(
    samples: Seq<Sample<S>>,
    variable_count: usize,
    finite: spec_fn(S) -> bool,
    less: spec_fn(S, S) -> bool,
    n: int,
) -> bool {
    forall|j: int|
        0 <= j < n ==> sample_refusal(#[trigger] samples[j], variable_count, finite, less) is None
}

/// Checks one sample.
fn check_sample<S: Copy, F: Fn(S) -> bool, L: Fn(S, S) -> bool>(
    sample: Sample<S>,
    variable_count: usize,
    finite: &F,
    less: &L,
) -> (r: Result<SampleSpec<S>, ExtractError>)
    requires
        total1(*finite),
        total2(*less),
    ensures
        r matches Ok(spec) ==> spec == (SampleSpec {
            component: sample.id as usize,
            min: sample.min,
            max: sample.max,
        }),
        forall|f: spec_fn(S) -> bool, l: spec_fn(S, S) -> bool|
            #![trigger computes1(*finite, f), computes2(*less, l)]
            computes1(*finite, f) && computes2(*less, l) ==> sample_refusal(
                sample,
                variable_count,
                f,
                l,
            ) == match r {
                Ok(_) => None,
                Err(e) => Some(e),
            },
{
    let component = sample.id as usize;
    if component >= variable_count {
        return Err(ExtractError::ComponentOutOfRange(component));
    }
    if !finite(sample.min) || !finite(sample.max) {
        return Err(ExtractError::RangeNotFinite);
    }
    if !less(sample.min, sample.max) {
        return Err(ExtractError::RangeEmpty);
    }
    Ok(SampleSpec { component, min: sample.min, max: sample.max })
}

/// The checks and conversions of physical scalars.
#[verifier::reject_recursive_types(S)]
pub struct Scalars<S, T> {
    pub finite: spec_fn(S) -> bool,
    pub less: spec_fn(S, S) -> bool,
    pub narrow: spec_fn(S) -> Option<T>,
}

/// The functions give what `scalars` says.
pub open spec fn measures<
    S,
    T,
    F: Fn(S) -> bool,
    L: Fn(S, S) -> bool,
    N: Fn(S) -> Option<T>,
>(finite: F, less: L, narrow: N, scalars: Scalars<S, T>) -> bool {
    &&& computes1(finite, scalars.finite)
    &&& computes2(less, scalars.less)
    &&& computes1(narrow, scalars.narrow)
}

/// What is wrong with isosurface options, if anything.
pub open spec fn options_refusal<S, T>(
    options: IsosurfaceOptions<S>,
    variable_count: usize,
    scalars: Scalars<S, T>,
) -> Option<ExtractError> {
    if options.surface.id >= variable_count {
        Some(ExtractError::ComponentOutOfRange(options.surface.id as usize))
    } else if !(scalars.finite)(options.surface.value) {
        Some(ExtractError::ValueNotFinite)
    } else if (scalars.narrow)(options.surface.value) is None {
        Some(ExtractError::ValueTooLarge)
    } else if options.levels is Some && options.levels->0.start > options.levels->0.end {
        Some(ExtractError::LevelRangeEmpty)
    } else {
        samples_refusal(
            options.sampled_quantities@,
            variable_count,
            scalars.finite,
            scalars.less,
        )
    }
}

/// Checks isosurface options. `narrow` turns the isovalue into a sample value, where it fits.
pub fn validate_isosurface_options<
    S: Copy,
    T,
    F: Fn(S) -> bool,
    L: Fn(S, S) -> bool,
    N: Fn(S) -> Option<T>,
>(
    variable_count: usize,
    options: &IsosurfaceOptions<S>,
    finite: &F,
    less: &L,
    narrow: &N,
) -> (r: Result<(usize, T, Vec<SampleSpec<S>>), ExtractError>)
    requires
        total1(*finite),
        total2(*less),
        total1(*narrow),
    ensures
        r matches Ok((component, isovalue, specs)) ==> {
            &&& component == options.surface.id
            &&& component < variable_count
            &&& specs@ == specs_of(options.sampled_quantities@)
        },
        forall|scalars: Scalars<S, T>| #[trigger]
            measures(*finite, *less, *narrow, scalars) ==> match r {
                Ok((component, isovalue, specs)) => {
                    &&& options_refusal(*options, variable_count, scalars) is None
                    &&& (scalars.narrow)(options.surface.value) == Some(isovalue)
                },
                Err(e) => options_refusal(*options, variable_count, scalars) == Some(e),
            },
{
    let component = options.surface.id as usize;
    if component >= variable_count {
        return Err(ExtractError::ComponentOutOfRange(component));
    }
    if !finite(options.surface.value) {
        return Err(ExtractError::ValueNotFinite);
    }
    let isovalue = match narrow(options.surface.value) {
        Some(v) => v,
        None => return Err(ExtractError::ValueTooLarge),
    };
    if let Some(range) = options.levels {
        if range.start > range.end {
            return Err(ExtractError::LevelRangeEmpty);
        }
    }
    match validate_sample_specs_for_len(
        variable_count,
        options.sampled_quantities.as_slice(),
        finite,
        less,
    ) {
        Ok(specs) => Ok((component, isovalue, specs)),
        Err(e) => Err(e),
    }
}

/// The components that must be loaded: the surface component, then the sampled ones.
pub fn required_components<S: Copy>(component: usize, specs: &[SampleSpec<S>]) -> (v: Vec<usize>)
    ensures
        v@ == seq![component] + specs@.map_values(|s: SampleSpec<S>| s.component),
{
    let mut out: Vec<usize> = Vec::with_capacity(3);
    out.push(component);
    let mut i: usize = 0;
    while i < specs.len()
        invariant
            i <= specs@.len(),
            out@.len() == i + 1,
            out@[0] == component,
            forall|j: int| 0 <= j < i ==> #[trigger] out@[j + 1] == specs@[j].component,
        decreases specs@.len() - i,
    {
        out.push(specs[i].component);
        i += 1;
    }
    let ghost want = seq![component] + specs@.map_values(|s: SampleSpec<S>| s.component);
    proof {
        assert forall|j: int| 0 <= j < out@.len() implies out@[j] == want[j] by {
            if j > 0 {
                assert(out@[(j - 1) + 1] == specs@[j - 1].component);
            }
        }
        assert(out@ =~= want);
    }
    out
}

/// Why levels could not be meshed.
#[derive(Debug)]
pub enum SurfaceError<E> {
    /// The request was refused.
    Refused(ExtractError),
    /// The level with this index could not be meshed.
    Level(usize, E),
    /// The level meshes could not be merged.
    Mesh(MeshError),
}

/// The faces from `start` on turned over.
pub open spec fn flipped_from(faces: Seq<[u32; 3]>, start: int) -> Seq<[u32; 3]> {
    Seq::new(
        faces.len(),
        |i: int|
            if i < start {
                faces[i]
            } else {
                flipped(faces[i])
            },
    )
}

/// The mesh with a level mesh appended, its faces turned over if asked for.
pub open spec fn with_level<P, U>(
    mesh: MeshModel<P, U>,
    part: MeshModel<P, U>,
    flip: bool,
) -> MeshModel<P, U> {
    let merged = merge_of(mesh, part);
    if flip {
        MeshModel {
            positions: merged.positions,
            uv: merged.uv,
            indices: flipped_from(merged.indices, mesh.indices.len() as int),
        }
    } else {
        merged
    }
}

/// The mesh of the first `n` level meshes.
pub open spec fn level_meshes<P, U>(parts: Seq<MeshModel<P, U>>, n: nat, flip: bool) -> Result<
    MeshModel<P, U>,
    MeshError,
>
    decreases n,
{
    if n == 0 {
        Ok(empty_mesh())
    } else {
        match level_meshes(parts, (n - 1) as nat, flip) {
            Err(e) => Err(e),
            Ok(mesh) => match merge_refusal(mesh, parts[n - 1]) {
                Some(e) => Err(e),
                None => Ok(with_level(mesh, parts[n - 1], flip)),
            },
        }
    }
}

/// Only the first `n` parts matter for the mesh of the first `n`.
proof fn lemma_level_meshes_prefix<P, U>(
    parts: Seq<MeshModel<P, U>>,
    more: MeshModel<P, U>,
    n: nat,
    flip: bool,
)
    requires
        n <= parts.len(),
    ensures
        level_meshes(parts.push(more), n, flip) == level_meshes(parts, n, flip),
    decreases n,
{
    if n > 0 {
        lemma_level_meshes_prefix(parts, more, (n - 1) as nat, flip);
    }
}

/// `mesh_level` may give `part` for `level`.
pub open spec fn gives<A, P, U, E, F: Fn(&A) -> Result<Mesh3D<P, U>, E>>(
    mesh_level: F,
    level: A,
    part: MeshModel<P, U>,
) -> bool {
    exists|m: Mesh3D<P, U>| #[trigger]
        call_ensures(mesh_level, (&level,), Ok::<Mesh3D<P, U>, E>(m)) && m@ == part
}

/// `parts` are what `mesh_level` gave for the first levels of a list.
pub open spec fn level_parts<A, P, U, E, F: Fn(&A) -> Result<Mesh3D<P, U>, E>>(
    mesh_level: F,
    levels: Seq<A>,
    parts: Seq<MeshModel<P, U>>,
) -> bool {
    &&& parts.len() <= levels.len()
    &&& forall|i: int|
        0 <= i < parts.len() ==> gives(mesh_level, levels[i], #[trigger] parts[i])
}

/// Meshes levels one after the other with `mesh_level`, and merges their meshes in order. A
/// failure comes with the place of its level.
pub fn mesh_levels<A, P, U, E, F: Fn(&A) -> Result<Mesh3D<P, U>, E>>(
    levels: &Vec<A>,
    flip: bool,
    mesh_level: &F,
) -> (r: Result<Mesh3D<P, U>, (usize, Result<MeshError, E>)>)
    requires
        forall|i: int| 0 <= i < levels@.len() ==> call_requires(*mesh_level, (&#[trigger] levels@[i],)),
    ensures
        exists|parts: Seq<MeshModel<P, U>>| #[trigger]
            level_parts(*mesh_level, levels@, parts) && match r {
                Ok(mesh) => parts.len() == levels@.len() && level_meshes(
                    parts,
                    parts.len(),
                    flip,
                ) == Ok::<MeshModel<P, U>, MeshError>(mesh@),
                Err((i, Err(e))) => i == parts.len() && i < levels@.len() && call_ensures(
                    *mesh_level,
                    (&levels@[i as int],),
                    Err::<Mesh3D<P, U>, E>(e),
                ),
                Err((i, Ok(e))) => i + 1 == parts.len() && level_meshes(parts, parts.len(), flip)
                    == Err::<MeshModel<P, U>, MeshError>(e),
            },
{
    let mut mesh: Mesh3D<P, U> = Mesh3D::new();
    let ghost mut parts: Seq<MeshModel<P, U>> = Seq::empty();
    assert(mesh@.positions =~= Seq::empty());
    assert(mesh@.uv =~= Seq::empty());
    assert(mesh@.indices =~= Seq::empty());
    let mut i: usize = 0;
    while i < levels.len()
        invariant
            i <= levels@.len(),
            forall|j: int|
                0 <= j < levels@.len() ==> call_requires(*mesh_level, (&#[trigger] levels@[j],)),
            parts.len() == i,
            level_parts(*mesh_level, levels@, parts),
            level_meshes(parts, i as nat, flip) == Ok::<MeshModel<P, U>, MeshError>(mesh@),
        decreases levels@.len() - i,
    {
        assert(call_requires(*mesh_level, (&levels@[i as int],)));
        let part = match mesh_level(&levels[i]) {
            Ok(part) => part,
            Err(e) => return Err((i, Err(e))),
        };
        let start = mesh.indices.len();
        let ghost before = mesh@;
        let ghost model = part@;
        proof {
            let all = parts.push(model);
            lemma_level_meshes_prefix(parts, model, i as nat, flip);
            assert(gives(*mesh_level, levels@[i as int], model));
            assert forall|j: int| 0 <= j < all.len() implies gives(
                *mesh_level,
                levels@[j],
                #[trigger] all[j],
            ) by {
                if j < parts.len() {
                    assert(all[j] == parts[j]);
                    assert(gives(*mesh_level, levels@[j], parts[j]));
                }
            }
            parts = all;
        }
        match merge_mesh(&mut mesh, part) {
            Ok(()) => {},
            Err(e) => {
                assert(level_parts(*mesh_level, levels@, parts));
                assert(parts[i as int] == model);
                assert(level_meshes(parts, parts.len(), flip) == Err::<
                    MeshModel<P, U>,
                    MeshError,
                >(e));
                return Err((i, Ok(e)));
            },
        }
        if flip {
            flip_faces_from(&mut mesh.indices, start);
            assert(mesh@.indices =~= with_level(before, model, flip).indices);
        }
        i += 1;
    }
    Ok(mesh)
}

/// A checked request: the isovalue as a sample value, and the checked samples.
pub struct Extraction<S, T> {
    pub isovalue: T,
    pub specs: Vec<SampleSpec<S>>,
}

/// The components of checked samples.
pub open spec fn components_of<S>(specs: Seq<SampleSpec<S>>) -> Seq<usize> {
    specs.map_values(|s: SampleSpec<S>| s.component)
}

/// The components of checked samples.
pub fn list_components<S: Copy>(specs: &Vec<SampleSpec<S>>) -> (v: Vec<usize>)
    ensures
        v@ == components_of(specs@),
{
    let mut out: Vec<usize> = Vec::with_capacity(specs.len());
    let mut i: usize = 0;
    while i < specs.len()
        invariant
            i <= specs@.len(),
            out@.len() == i,
            forall|j: int| 0 <= j < i ==> #[trigger] out@[j] == specs@[j].component,
        decreases specs@.len() - i,
    {
        out.push(specs[i].component);
        i += 1;
    }
    assert(out@ =~= components_of(specs@));
    out
}

/// Why an isosurface request on a compact plot is refused.
pub open spec fn surface_refusal<S, T: Copy + PartialEq>(
    plot: CompactPlot<S, T>,
    options: IsosurfaceOptions<S>,
    scalars: Scalars<S, T>,
) -> Option<ExtractError> {
    let refusal = options_refusal(options, plot.variable_count, scalars);
    if refusal is Some {
        refusal
    } else {
        dual_refusal(
            plot,
            options.surface.id as usize,
            components_of(specs_of(options.sampled_quantities@)),
            options.levels,
        )
    }
}

/// `levels` are the dual grids that an accepted request names.
pub open spec fn requested_levels<S, T: Copy + PartialEq>(
    plot: CompactPlot<S, T>,
    options: IsosurfaceOptions<S>,
    levels: Seq<DualGridLevel<'_, S, T>>,
) -> bool {
    let places = all_chosen(plot, options.levels);
    let slot = slot_of(plot.component_ids@, options.surface.id as usize)->0;
    let slots = slots_of(
        plot.component_ids@,
        components_of(specs_of(options.sampled_quantities@)),
    )->Ok_0;
    &&& levels.len() == places.len()
    &&& forall|j: int|
        0 <= j < levels.len() ==> is_dual_level(
            plot,
            places,
            slot,
            slots,
            j,
            #[trigger] levels[j],
        )
}

/// The dual grids that a request names, with the checked request.
pub fn prepare_isosurface<
    'a,
    S: Copy,
    T: Copy + PartialEq,
    F: Fn(S) -> bool,
    L: Fn(S, S) -> bool,
    N: Fn(S) -> Option<T>,
>(
    plot: &'a CompactPlot<S, T>,
    options: &IsosurfaceOptions<S>,
    finite: &F,
    less: &L,
    narrow: &N,
) -> (r: Result<(Vec<DualGridLevel<'a, S, T>>, Extraction<S, T>), ExtractError>)
    requires
        plot.wf(),
        total1(*finite),
        total2(*less),
        total1(*narrow),
    ensures
        r matches Ok((levels, request)) ==> request.specs@ == specs_of(options.sampled_quantities@)
            && requested_levels(*plot, *options, levels@),
        forall|scalars: Scalars<S, T>| #[trigger]
            measures(*finite, *less, *narrow, scalars) ==> match r {
                Err(e) => surface_refusal(*plot, *options, scalars) == Some(e),
                Ok((levels, request)) => {
                    &&& surface_refusal(*plot, *options, scalars) is None
                    &&& (scalars.narrow)(options.surface.value) == Some(request.isovalue)
                },
            },
{
    let (component, isovalue, specs) = match validate_isosurface_options(
        plot.variable_count(),
        options,
        finite,
        less,
        narrow,
    ) {
        Ok(v) => v,
        Err(e) => return Err(e),
    };
    let components = list_components(&specs);
    match dual_grid_levels_from_compact(plot, component, components.as_slice(), options.levels) {
        Ok(levels) => Ok((levels, Extraction { isovalue, specs })),
        Err(e) => Err(e),
    }
}

/// The results that a level and a request may give.
pub type LevelMeshing<'a, S, T, P, U, E> = spec_fn(
    DualGridLevel<'a, S, T>,
    Extraction<S, T>,
    Result<Mesh3D<P, U>, E>,
) -> bool;

/// The results that a function may give.
pub open spec fn calls_of<
    'a,
    S,
    T: Copy + PartialEq,
    P,
    U,
    E,
    G: Fn(&DualGridLevel<'a, S, T>, &Extraction<S, T>) -> Result<Mesh3D<P, U>, E>,
>(mesh_level: G) -> LevelMeshing<'a, S, T, P, U, E> {
    |level: DualGridLevel<'a, S, T>, request: Extraction<S, T>, m: Result<Mesh3D<P, U>, E>|
        call_ensures(mesh_level, (&level, &request), m)
}

/// `r` is what the chosen levels of a plot give for an accepted request: their meshes, coarse to
/// fine, in one mesh; or the first failure.
pub open spec fn surface_made<'a, S, T: Copy + PartialEq, P, U, E>(
    plot: CompactPlot<S, T>,
    options: IsosurfaceOptions<S>,
    request: Extraction<S, T>,
    meshing: LevelMeshing<'a, S, T, P, U, E>,
    r: Result<Mesh3D<P, U>, SurfaceError<E>>,
) -> bool {
    exists|levels: Seq<DualGridLevel<'a, S, T>>, parts: Seq<MeshModel<P, U>>|
        requested_levels(plot, options, levels) && #[trigger] requested_parts(
            meshing,
            levels,
            request,
            parts,
        ) && surface_of(levels, request, parts, options.flip_winding, meshing, r)
}

/// `r` is what the meshes of the first levels give.
pub open spec fn surface_of<'a, S, T: Copy + PartialEq, P, U, E>(
    levels: Seq<DualGridLevel<'a, S, T>>,
    request: Extraction<S, T>,
    parts: Seq<MeshModel<P, U>>,
    flip: bool,
    meshing: LevelMeshing<'a, S, T, P, U, E>,
    r: Result<Mesh3D<P, U>, SurfaceError<E>>,
) -> bool {
    match r {
        Ok(mesh) => parts.len() == levels.len() && level_meshes(parts, parts.len(), flip) == Ok::<
            MeshModel<P, U>,
            MeshError,
        >(mesh@),
        Err(SurfaceError::Level(index, e)) => parts.len() < levels.len() && index
            == levels[parts.len() as int].level_index && meshing(
            levels[parts.len() as int],
            request,
            Err::<Mesh3D<P, U>, E>(e),
        ),
        Err(SurfaceError::Mesh(e)) => level_meshes(parts, parts.len(), flip) == Err::<
            MeshModel<P, U>,
            MeshError,
        >(e),
        Err(SurfaceError::Refused(_)) => false,
    }
}

/// A request that is not refused asks for the samples of the options, and gives what the levels
/// give.
pub open spec fn surface_unless_refused<'a, S, T: Copy + PartialEq, P, U, E>(
    plot: CompactPlot<S, T>,
    options: IsosurfaceOptions<S>,
    meshing: LevelMeshing<'a, S, T, P, U, E>,
    r: Result<Mesh3D<P, U>, SurfaceError<E>>,
) -> bool {
    r matches Err(SurfaceError::Refused(_)) || exists|request: Extraction<S, T>|
        request.specs@ == specs_of(options.sampled_quantities@) && #[trigger] surface_made(
            plot,
            options,
            request,
            meshing,
            r,
        )
}

/// `r` is what an isosurface request on a compact plot gives.
pub open spec fn surface_outcome<'a, S, T: Copy + PartialEq, P, U, E>(
    plot: CompactPlot<S, T>,
    options: IsosurfaceOptions<S>,
    scalars: Scalars<S, T>,
    meshing: LevelMeshing<'a, S, T, P, U, E>,
    r: Result<Mesh3D<P, U>, SurfaceError<E>>,
) -> bool {
    match surface_refusal(plot, options, scalars) {
        Some(e) => r matches Err(SurfaceError::Refused(f)) && f == e,
        None => exists|request: Extraction<S, T>|
            (scalars.narrow)(options.surface.value) == Some(request.isovalue) && request.specs@
                == specs_of(options.sampled_quantities@) && #[trigger] surface_made(
                plot,
                options,
                request,
                meshing,
                r,
            ),
    }
}

/// The grids of the levels that a request names are well-formed.
proof fn lemma_requested_wf<'a, S, T: Copy + PartialEq>(
    plot: CompactPlot<S, T>,
    options: IsosurfaceOptions<S>,
    levels: Seq<DualGridLevel<'a, S, T>>,
)
    requires
        plot.wf(),
        requested_levels(plot, options, levels),
    ensures
        forall|j: int| 0 <= j < levels.len() ==> (#[trigger] levels[j]).wf(),
{
    let places = all_chosen(plot, options.levels);
    law_chosen_levels(plot.levels@, options.levels, plot.levels@.len());
    assert forall|j: int| 0 <= j < levels.len() implies (#[trigger] levels[j]).wf() by {
        let level = plot.levels@[places[j]];
        assert(level.wf());
        assert forall|c: int| 0 <= c < levels[j].sampled_quantities@.len() implies (
        #[trigger] levels[j].sampled_quantities@[c]).wf() by {}
    }
}

/// Extract an isosurface from an already-loaded compact plot: the chosen levels are meshed with
/// `mesh_level`, coarse to fine, and their meshes merged.
pub fn isosurface_compact<
    'a,
    S: Copy,
    T: Copy + PartialEq,
    P,
    U,
    E,
    F: Fn(S) -> bool,
    L: Fn(S, S) -> bool,
    N: Fn(S) -> Option<T>,
    G: Fn(&DualGridLevel<'a, S, T>, &Extraction<S, T>) -> Result<Mesh3D<P, U>, E>,
>(
    plot: &'a CompactPlot<S, T>,
    options: &IsosurfaceOptions<S>,
    finite: &F,
    less: &L,
    narrow: &N,
    mesh_level: &G,
) -> (r: Result<Mesh3D<P, U>, SurfaceError<E>>)
    requires
        plot.wf(),
        total1(*finite),
        total2(*less),
        total1(*narrow),
        forall|level: &DualGridLevel<'a, S, T>, request: &Extraction<S, T>|
            level.wf() ==> #[trigger] call_requires(*mesh_level, (level, request)),
    ensures
        surface_unless_refused(*plot, *options, calls_of(*mesh_level), r),
        forall|scalars: Scalars<S, T>| #[trigger]
            measures(*finite, *less, *narrow, scalars) ==> surface_outcome(
                *plot,
                *options,
                scalars,
                calls_of(*mesh_level),
                r,
            ),
{
    let (levels, request) = match prepare_isosurface(plot, options, finite, less, narrow) {
        Ok(v) => v,
        Err(e) => return Err(SurfaceError::Refused(e)),
    };
    let ghost all = levels@;
    proof {
        lemma_requested_wf(*plot, *options, all);
    }
    let each = |level: &DualGridLevel<'a, S, T>| -> (m: Result<Mesh3D<P, U>, E>)
        requires
            call_requires(mesh_level, (level, &request)),
        ensures
            call_ensures(mesh_level, (level, &request), m),
        { mesh_level(level, &request) };
    assert forall|i: int| 0 <= i < levels@.len() implies call_requires(
        each,
        (&#[trigger] levels@[i],),
    ) by {
        assert(levels@[i].wf());
        assert(call_requires(*mesh_level, (&levels@[i], &request)));
    }
    let outcome = mesh_levels(&levels, options.flip_winding, &each);
    let r = match outcome {
        Ok(mesh) => Ok(mesh),
        Err((i, Err(e))) => Err(SurfaceError::Level(levels[i].level_index, e)),
        Err((_, Ok(e))) => Err(SurfaceError::Mesh(e)),
    };
    proof {
        let meshing = calls_of(*mesh_level);
        let parts = choose|parts: Seq<MeshModel<P, U>>| #[trigger]
            level_parts(each, all, parts) && match outcome {
                Ok(mesh) => parts.len() == all.len() && level_meshes(
                    parts,
                    parts.len(),
                    options.flip_winding,
                ) == Ok::<MeshModel<P, U>, MeshError>(mesh@),
                Err((i, Err(e))) => i == parts.len() && i < all.len() && call_ensures(
                    each,
                    (&all[i as int],),
                    Err::<Mesh3D<P, U>, E>(e),
                ),
                Err((i, Ok(e))) => i + 1 == parts.len() && level_meshes(
                    parts,
                    parts.len(),
                    options.flip_winding,
                ) == Err::<MeshModel<P, U>, MeshError>(e),
            };
        assert forall|i: int| 0 <= i < parts.len() implies gives_for(
            meshing,
            all[i],
            request,
            #[trigger] parts[i],
        ) by {
            assert(gives(each, all[i], parts[i]));
            let m = choose|m: Mesh3D<P, U>| #[trigger]
                call_ensures(each, (&all[i],), Ok::<Mesh3D<P, U>, E>(m)) && m@ == parts[i];
            assert(meshing(all[i], request, Ok::<Mesh3D<P, U>, E>(m)));
        }
        assert(requested_parts(meshing, all, request, parts));
        assert(surface_of(all, request, parts, options.flip_winding, meshing, r));
        assert(surface_made(*plot, *options, request, meshing, r));
    }
    r
}

/// `meshing` lets `part` come out for `level` and `request`.
pub open spec fn gives_for<'a, S, T: Copy + PartialEq, P, U, E>(
    meshing: LevelMeshing<'a, S, T, P, U, E>,
    level: DualGridLevel<'a, S, T>,
    request: Extraction<S, T>,
    part: MeshModel<P, U>,
) -> bool {
    exists|m: Mesh3D<P, U>| #[trigger]
        meshing(level, request, Ok::<Mesh3D<P, U>, E>(m)) && m@ == part
}

/// `parts` are meshes of the first levels of a list.
pub open spec fn requested_parts<'a, S, T: Copy + PartialEq, P, U, E>(
    meshing: LevelMeshing<'a, S, T, P, U, E>,
    levels: Seq<DualGridLevel<'a, S, T>>,
    request: Extraction<S, T>,
    parts: Seq<MeshModel<P, U>>,
) -> bool {
    &&& parts.len() <= levels.len()
    &&& forall|i: int|
        0 <= i < parts.len() ==> gives_for(meshing, levels[i], request, #[trigger] parts[i])
}

/// A weaker description of the level meshes describes the result too.
pub proof fn lemma_surface_implied<'a, S, T: Copy + PartialEq, P, U, E>(
    plot: CompactPlot<S, T>,
    options: IsosurfaceOptions<S>,
    request: Extraction<S, T>,
    from: LevelMeshing<'a, S, T, P, U, E>,
    to: LevelMeshing<'a, S, T, P, U, E>,
    r: Result<Mesh3D<P, U>, SurfaceError<E>>,
)
    requires
        forall|l: DualGridLevel<'a, S, T>, q: Extraction<S, T>, m: Result<Mesh3D<P, U>, E>| #[trigger]
            from(l, q, m) ==> to(l, q, m),
        surface_made(plot, options, request, from, r),
    ensures
        surface_made(plot, options, request, to, r),
{
    let (levels, parts) = choose|levels: Seq<DualGridLevel<'a, S, T>>, parts: Seq<MeshModel<P, U>>|
        requested_levels(plot, options, levels) && #[trigger] requested_parts(
            from,
            levels,
            request,
            parts,
        ) && surface_of(levels, request, parts, options.flip_winding, from, r);
    assert forall|i: int| 0 <= i < parts.len() implies gives_for(
        to,
        levels[i],
        request,
        #[trigger] parts[i],
    ) by {
        assert(gives_for(from, levels[i], request, parts[i]));
        let m = choose|m: Mesh3D<P, U>| #[trigger]
            from(levels[i], request, Ok::<Mesh3D<P, U>, E>(m)) && m@ == parts[i];
        assert(to(levels[i], request, Ok::<Mesh3D<P, U>, E>(m)));
    }
    assert(requested_parts(to, levels, request, parts));
    assert(surface_of(levels, request, parts, options.flip_winding, to, r));
}

/// `turned` is `plain` with every face turned over.
pub open spec fn turned_over<P, U>(plain: MeshModel<P, U>, turned: MeshModel<P, U>) -> bool {
    &&& turned.positions == plain.positions
    &&& turned.uv == plain.uv
    &&& turned.indices.len() == plain.indices.len()
    &&& forall|i: int|
        0 <= i < plain.indices.len() ==> #[trigger] turned.indices[i] == flipped(plain.indices[i])
}

/// Merging levels with their faces turned over succeeds when it does without, fails with the
/// same error, and gives the same mesh with every face turned over.
pub proof fn law_flip_turns_every_face<P, U>(parts: Seq<MeshModel<P, U>>, n: nat)
    ensures
        match (level_meshes(parts, n, false), level_meshes(parts, n, true)) {
            (Ok(plain), Ok(turned)) => turned_over(plain, turned),
            (Err(e), Err(f)) => e == f,
            _ => false,
        },
    decreases n,
{
    if n > 0 {
        law_flip_turns_every_face(parts, (n - 1) as nat);
        if let Ok(plain) = level_meshes(parts, (n - 1) as nat, false) {
            let turned = level_meshes(parts, (n - 1) as nat, true)->Ok_0;
            let part = parts[n - 1];
            assert(merge_refusal(plain, part) == merge_refusal(turned, part));
            if merge_refusal(plain, part) is None {
                let a = with_level(plain, part, false);
                let b = with_level(turned, part, true);
                assert forall|i: int| 0 <= i < a.indices.len() implies #[trigger] b.indices[i]
                    == flipped(a.indices[i]) by {
                    if i < plain.indices.len() {
                        assert(turned.indices[i] == flipped(plain.indices[i]));
                    }
                }
            }
        }
    }
}

/// Only the first `n` parts matter for the mesh of the first `n`.
pub proof fn lemma_same_parts<P, U>(
    parts: Seq<MeshModel<P, U>>,
    others: Seq<MeshModel<P, U>>,
    n: nat,
    flip: bool,
)
    requires
        n <= parts.len(),
        n <= others.len(),
        forall|i: int| 0 <= i < n ==> #[trigger] parts[i] == others[i],
    ensures
        level_meshes(parts, n, flip) == level_meshes(others, n, flip),
    decreases n,
{
    if n > 0 {
        lemma_same_parts(parts, others, (n - 1) as nat, flip);
        assert(parts[n - 1] == others[n - 1]);
    }
}

/// Once levels merge, fewer of them do.
pub proof fn lemma_fewer_parts<P, U>(parts: Seq<MeshModel<P, U>>, k: nat, n: nat, flip: bool)
    requires
        k <= n,
        level_meshes(parts, n, flip) is Ok,
    ensures
        level_meshes(parts, k, flip) is Ok,
    decreases n,
{
    if k < n {
        lemma_fewer_parts(parts, k, (n - 1) as nat, flip);
    }
}

/// For the levels that a request names, the results agree: equal meshes, or failures.
pub open spec fn steady<'a, S, T: Copy + PartialEq, P, U, E>(
    plot: CompactPlot<S, T>,
    options: IsosurfaceOptions<S>,
    meshing: LevelMeshing<'a, S, T, P, U, E>,
) -> bool {
    forall|
        j: int,
        a: Seq<DualGridLevel<'a, S, T>>,
        b: Seq<DualGridLevel<'a, S, T>>,
        p: Extraction<S, T>,
        q: Extraction<S, T>,
        m: Result<Mesh3D<P, U>, E>,
        n: Result<Mesh3D<P, U>, E>,
    |
        #![trigger meshing(a[j], p, m), meshing(b[j], q, n)]
        {
            &&& requested_levels(plot, options, a)
            &&& requested_levels(plot, options, b)
            &&& 0 <= j < a.len()
            &&& p.isovalue == q.isovalue
            &&& p.specs@ == q.specs@
            &&& meshing(a[j], p, m)
            &&& meshing(b[j], q, n)
        } ==> match (m, n) {
            (Ok(x), Ok(y)) => x@ == y@,
            (Err(_), Err(_)) => true,
            _ => false,
        }
}

/// The requests are the same, but for the faces, which the second one turns over.
pub open spec fn same_but_flip<S>(plain: IsosurfaceOptions<S>, flip: IsosurfaceOptions<S>) -> bool {
    &&& flip.surface == plain.surface
    &&& flip.sampled_quantities@ == plain.sampled_quantities@
    &&& flip.levels == plain.levels
    &&& !plain.flip_winding
    &&& flip.flip_winding
}

/// A request with `flip_winding` gives the mesh that the same request gives without it, with
/// every face turned over. The levels must be meshed the same way both times.
pub proof fn law_flip_winding<'a, S, T: Copy + PartialEq, P, U, E>(
    plot: CompactPlot<S, T>,
    options: IsosurfaceOptions<S>,
    flip: IsosurfaceOptions<S>,
    scalars: Scalars<S, T>,
    meshing: LevelMeshing<'a, S, T, P, U, E>,
    plain: Mesh3D<P, U>,
    r: Result<Mesh3D<P, U>, SurfaceError<E>>,
)
    requires
        same_but_flip(options, flip),
        steady(plot, options, meshing),
        surface_outcome(
            plot,
            options,
            scalars,
            meshing,
            Ok::<Mesh3D<P, U>, SurfaceError<E>>(plain),
        ),
        surface_outcome(plot, flip, scalars, meshing, r),
    ensures
        r matches Ok(turned) && turned_over(plain@, turned@),
{
    let ok = Ok::<Mesh3D<P, U>, SurfaceError<E>>(plain);
    assert(surface_refusal(plot, flip, scalars) == surface_refusal(plot, options, scalars));
    let p = choose|request: Extraction<S, T>|
        (scalars.narrow)(options.surface.value) == Some(request.isovalue) && request.specs@
            == specs_of(options.sampled_quantities@) && #[trigger] surface_made(
            plot,
            options,
            request,
            meshing,
            ok,
        );
    let q = choose|request: Extraction<S, T>|
        (scalars.narrow)(flip.surface.value) == Some(request.isovalue) && request.specs@
            == specs_of(flip.sampled_quantities@) && #[trigger] surface_made(
            plot,
            flip,
            request,
            meshing,
            r,
        );
    let (a, x) = choose|levels: Seq<DualGridLevel<'a, S, T>>, parts: Seq<MeshModel<P, U>>|
        requested_levels(plot, options, levels) && #[trigger] requested_parts(
            meshing,
            levels,
            p,
            parts,
        ) && surface_of(levels, p, parts, false, meshing, ok);
    let (b, y) = choose|levels: Seq<DualGridLevel<'a, S, T>>, parts: Seq<MeshModel<P, U>>|
        requested_levels(plot, flip, levels) && #[trigger] requested_parts(
            meshing,
            levels,
            q,
            parts,
        ) && surface_of(levels, q, parts, true, meshing, r);
    assert(requested_levels(plot, options, b));
    assert(a.len() == b.len());
    assert forall|i: int| 0 <= i < y.len() implies #[trigger] x[i] == y[i] by {
        assert(gives_for(meshing, a[i], p, x[i]));
        assert(gives_for(meshing, b[i], q, y[i]));
        let m = choose|m: Mesh3D<P, U>| #[trigger]
            meshing(a[i], p, Ok::<Mesh3D<P, U>, E>(m)) && m@ == x[i];
        let n = choose|n: Mesh3D<P, U>| #[trigger]
            meshing(b[i], q, Ok::<Mesh3D<P, U>, E>(n)) && n@ == y[i];
        assert(meshing(a[i], p, Ok::<Mesh3D<P, U>, E>(m)) && meshing(
            b[i],
            q,
            Ok::<Mesh3D<P, U>, E>(n),
        ));
    }
    let k = y.len();
    lemma_same_parts(x, y, k, true);
    lemma_fewer_parts(x, k, x.len(), false);
    law_flip_turns_every_face(x, k);
    if let Err(SurfaceError::Level(_, e)) = r {
        let i = k as int;
        assert(gives_for(meshing, a[i], p, x[i]));
        let m = choose|m: Mesh3D<P, U>| #[trigger]
            meshing(a[i], p, Ok::<Mesh3D<P, U>, E>(m)) && m@ == x[i];
        assert(meshing(a[i], p, Ok::<Mesh3D<P, U>, E>(m)) && meshing(
            b[i],
            q,
            Err::<Mesh3D<P, U>, E>(e),
        ));
    }
}

/// Why an isosurface could not be extracted from a plotfile.
#[derive(Debug)]
pub enum PlotSurfaceError<E, X> {
    /// The options were refused.
    Refused(ExtractError),
    /// The data could not be loaded.
    Load(CompactLoadError<X>),
    /// The surface could not be extracted.
    Surface(SurfaceError<E>),
}

/// The components that isosurface options name: that of the surface, then the sampled ones.
pub open spec fn wanted_components<S>(options: IsosurfaceOptions<S>) -> Seq<usize> {
    seq![options.surface.id as usize] + components_of(specs_of(options.sampled_quantities@))
}

/// `r` is what an isosurface request on a plotfile gives.
pub open spec fn plot_surface_outcome<
    'v,
    'a,
    S: Copy,
    T: Copy + PartialEq,
    P,
    U,
    E,
    X,
    V: Fn(usize, usize) -> Result<&'v [u8], X>,
    C: Fn(RawScalar) -> T,
>(
    plot_file: PlotFile<S>,
    options: IsosurfaceOptions<S>,
    file_of: V,
    convert: C,
    scalars: Scalars<S, T>,
    meshing: LevelMeshing<'a, S, T, P, U, E>,
    r: Result<Mesh3D<P, U>, PlotSurfaceError<E, X>>,
) -> bool {
    let wanted = wanted_components(options);
    match options_refusal(options, plot_file.head().names.len() as usize, scalars) {
        Some(e) => r matches Err(PlotSurfaceError::Refused(f)) && f == e,
        None => match r {
            Err(PlotSurfaceError::Refused(_)) => false,
            Err(PlotSurfaceError::Load(e)) => compact_loaded(
                plot_file,
                wanted,
                file_of,
                convert,
                Err::<CompactPlot<S, T>, CompactLoadError<X>>(e),
            ),
            Err(PlotSurfaceError::Surface(e)) => exists|plot: CompactPlot<S, T>| #[trigger]
                compact_loaded(
                    plot_file,
                    wanted,
                    file_of,
                    convert,
                    Ok::<CompactPlot<S, T>, CompactLoadError<X>>(plot),
                ) && surface_outcome(
                    plot,
                    options,
                    scalars,
                    meshing,
                    Err::<Mesh3D<P, U>, SurfaceError<E>>(e),
                ),
            Ok(mesh) => exists|plot: CompactPlot<S, T>| #[trigger]
                compact_loaded(
                    plot_file,
                    wanted,
                    file_of,
                    convert,
                    Ok::<CompactPlot<S, T>, CompactLoadError<X>>(plot),
                ) && surface_outcome(
                    plot,
                    options,
                    scalars,
                    meshing,
                    Ok::<Mesh3D<P, U>, SurfaceError<E>>(mesh),
                ),
        },
    }
}

/// Load required data from a plotfile and extract an isosurface.
///
/// The requested surface component and sampled components are loaded into the compact sparse
/// representation before meshing. `file_of` gives the contents of the data file of a patch of
/// a level, and `convert` makes samples of stored values.
pub fn isosurface<
    'v,
    S: Copy,
    T: Copy + PartialEq,
    P,
    U,
    E,
    X,
    V: Fn(usize, usize) -> Result<&'v [u8], X>,
    C: Fn(RawScalar) -> T,
    F: Fn(S) -> bool,
    L: Fn(S, S) -> bool,
    N: Fn(S) -> Option<T>,
    G: Fn(&DualGridLevel<'_, S, T>, &Extraction<S, T>) -> Result<Mesh3D<P, U>, E>,
>(
    plot_file: &PlotFile<S>,
    options: &IsosurfaceOptions<S>,
    file_of: &V,
    convert: &C,
    finite: &F,
    less: &L,
    narrow: &N,
    mesh_level: &G,
) -> (r: Result<Mesh3D<P, U>, PlotSurfaceError<E, X>>)
    requires
        plot_file.wf(),
        lawful::<T>(),
        forall|l: usize, k: usize| #[trigger] call_requires(*file_of, (l, k)),
        forall|raw: RawScalar| #[trigger] call_requires(*convert, (raw,)),
        total1(*finite),
        total2(*less),
        total1(*narrow),
        forall|level: &DualGridLevel<'_, S, T>, request: &Extraction<S, T>|
            level.wf() ==> #[trigger] call_requires(*mesh_level, (level, request)),
    ensures
        r matches Ok(mesh) ==> exists|plot: CompactPlot<S, T>| #[trigger]
            compact_loaded(
                *plot_file,
                wanted_components(*options),
                *file_of,
                *convert,
                Ok::<CompactPlot<S, T>, CompactLoadError<X>>(plot),
            ) && surface_unless_refused(
                plot,
                *options,
                calls_of(*mesh_level),
                Ok::<Mesh3D<P, U>, SurfaceError<E>>(mesh),
            ),
        forall|scalars: Scalars<S, T>| #[trigger]
            measures(*finite, *less, *narrow, scalars) ==> plot_surface_outcome(
                *plot_file,
                *options,
                *file_of,
                *convert,
                scalars,
                calls_of(*mesh_level),
                r,
            ),
{
    let (component, _, specs) = match validate_isosurface_options(
        plot_file.variables().len(),
        options,
        finite,
        less,
        narrow,
    ) {
        Ok(v) => v,
        Err(e) => return Err(PlotSurfaceError::Refused(e)),
    };
    let ids = required_components(component, specs.as_slice());
    assert(ids@ =~= wanted_components(*options));
    let plot = match CompactPlot::load(plot_file, ids.as_slice(), file_of, convert) {
        Ok(plot) => plot,
        Err(e) => return Err(PlotSurfaceError::Load(e)),
    };
    match isosurface_compact(&plot, options, finite, less, narrow, mesh_level) {
        Ok(mesh) => Ok(mesh),
        Err(e) => Err(PlotSurfaceError::Surface(e)),
    }
}

} // verus!
