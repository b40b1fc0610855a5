//! Command lines of the programs.

use vstd::prelude::*;
use vstd::string::StringExecFns;

use crate::isosurface::{IsosurfaceOptions, Sample, Surface};
use crate::native_file::{PlotFile, Variable};
use crate::text_parsing::{chars_of, parses, takes_all, text_is, Meaning};

verus! {

/// Why a command line was refused.
#[derive(Debug, Clone, Copy, PartialEq, Eq, Structural)]
pub enum ArgsError {
    /// There are too few arguments.
    TooFew,
    /// The isovalue is not a number.
    InvalidIsovalue,
    /// `--sample` lacks a value.
    IncompleteSample,
    /// `--sample` was given more than twice.
    TooManySamples,
    /// The minimum of the sample at this place is not a number.
    InvalidMinimum(usize),
    /// The maximum of the sample at this place is not a number.
    InvalidMaximum(usize),
    /// The argument at this place is not an option.
    UnknownOption(usize),
}

/// A quantity to sample, with its range.
#[derive(Debug)]
pub struct SampleArg<S> {
    pub name: String,
    pub min: S,
    pub max: S,
}

/// Arguments of the isosurface program.
#[derive(Debug)]
pub struct Args<S> {
    pub input: String,
    pub variable: String,
    pub isovalue: S,
    pub output: String,
    pub samples: Vec<SampleArg<S>>,
}

/// What a sample argument says.
pub struct SampleModel<S> {
    pub name: Seq<char>,
    pub min: S,
    pub max: S,
}

impl<S> View for SampleArg<S> {
    type V = SampleModel<S>;

    open spec fn view(&self) -> SampleModel<S> {
        SampleModel { name: self.name@, min: self.min, max: self.max }
    }
}

/// What sample arguments say.
pub open spec fn sample_models<S>(list: Seq<SampleArg<S>>) -> Seq<SampleModel<S>> {
    list.map_values(|s: SampleArg<S>| s@)
}

/// How the isosurface program is used.
pub fn usage(program: &str) -> (r: String)
    ensures
        r@ == "Usage: "@ + program@
            + " <input> <variable> <isovalue> <output.obj> [options]\n\n<input> may be an AMReX plotfile directory or a compact archive.\n\nOptions:\n--sample <variable> <min> <max>  Map a quantity to U or V (repeat at most twice)\n-h, --help                       Show this help"@,
{
    let start = String::from_str("Usage: ");
    let named = start.concat(program);
    named.concat(
        " <input> <variable> <isovalue> <output.obj> [options]\n\n<input> may be an AMReX plotfile directory or a compact archive.\n\nOptions:\n--sample <variable> <min> <max>  Map a quantity to U or V (repeat at most twice)\n-h, --help                       Show this help",
    )
}

/// The texts of a list of strings.
pub open spec fn strings(list: Seq<String>) -> Seq<Seq<char>> {
    list.map_values(|s: String| s@)
}

/// Help is asked for.
pub open spec fn asks_help(values: Seq<Seq<char>>) -> bool {
    exists|i: int|
        0 <= i < values.len() && ((#[trigger] values[i]) == "-h"@ || values[i] == "--help"@)
}

/// The samples of the arguments from place `i` on, after `count` samples.
pub open spec fn samples_from<S>(
    values: Seq<Seq<char>>,
    i: int,
    count: nat,
    value: Meaning<S>,
) -> Result<Seq<SampleModel<S>>, ArgsError>
    decreases values.len() - i,
{
    if i >= values.len() {
        Ok(Seq::empty())
    } else if values[i] != "--sample"@ {
        Err(ArgsError::UnknownOption(i as usize))
    } else if i + 3 >= values.len() {
        Err(ArgsError::IncompleteSample)
    } else if count >= 2 {
        Err(ArgsError::TooManySamples)
    } else {
        match value(values[i + 2]) {
            None => Err(ArgsError::InvalidMinimum((i + 2) as usize)),
            Some(min) => match value(values[i + 3]) {
                None => Err(ArgsError::InvalidMaximum((i + 3) as usize)),
                Some(max) => match samples_from(values, i + 4, count + 1, value) {
                    Err(e) => Err(e),
                    Ok(rest) => Ok(
                        seq![SampleModel { name: values[i + 1], min, max }] + rest,
                    ),
                },
            },
        }
    }
}

/// What the isosurface program's arguments say.
pub struct ArgsModel<S> {
    pub input: Seq<char>,
    pub variable: Seq<char>,
    pub isovalue: S,
    pub output: Seq<char>,
    pub samples: Seq<SampleModel<S>>,
}

impl<S> View for Args<S> {
    type V = ArgsModel<S>;

    open spec fn view(&self) -> ArgsModel<S> {
        ArgsModel {
            input: self.input@,
            variable: self.variable@,
            isovalue: self.isovalue,
            output: self.output@,
            samples: sample_models(self.samples@),
        }
    }
}

/// The arguments of the isosurface program; `None` when help is asked for.
pub open spec fn args_of<S>(
    values: Seq<Seq<char>>,
    value: Meaning<S>,
) -> Result<Option<ArgsModel<S>>, ArgsError> {
    if asks_help(values) {
        Ok(None)
    } else if values.len() < 4 {
        Err(ArgsError::TooFew)
    } else {
        match value(values[2]) {
            None => Err(ArgsError::InvalidIsovalue),
            Some(isovalue) => match samples_from(values, 4, 0, value) {
                Err(e) => Err(e),
                Ok(samples) => Ok(
                    Some(
                        ArgsModel {
                            input: values[0],
                            variable: values[1],
                            isovalue,
                            output: values[3],
                            samples,
                        },
                    ),
                ),
            },
        }
    }
}

/// True when help is asked for.
fn wants_help(values: &Vec<String>) -> (b: bool)
    ensures
        b == asks_help(strings(values@)),
{
    let ghost all = strings(values@);
    let mut i: usize = 0;
    while i < values.len()
        invariant
            i <= values@.len(),
            all == strings(values@),
            forall|j: int| 0 <= j < i ==> (#[trigger] all[j]) != "-h"@ && all[j] != "--help"@,
        decreases values@.len() - i,
    {
        let chars = chars_of(values[i].as_str());
        assert(all[i as int] == values@[i as int]@);
        if text_is(chars.as_slice(), "-h") || text_is(chars.as_slice(), "--help") {
            return true;
        }
        i += 1;
    }
    false
}

/// `found` are the samples before place `i`: those after it complete them to the whole.
spec fn partly_read<S>(
    values: Seq<Seq<char>>,
    i: int,
    found: Seq<SampleModel<S>>,
    value: Meaning<S>,
) -> bool {
    let whole = samples_from(values, 4, 0, value);
    match samples_from(values, i, found.len(), value) {
        Ok(rest) => whole == Ok::<Seq<SampleModel<S>>, ArgsError>(found + rest),
        Err(e) => whole == Err::<Seq<SampleModel<S>>, ArgsError>(e),
    }
}

/// Parses the options from place 4 on.
fn parse_samples<S: Copy, F: Fn(&[char]) -> Option<S>>(values: &Vec<String>, parse: &F) -> (r: Result<
    Vec<SampleArg<S>>,
    ArgsError,
>)
    requires
        takes_all(*parse),
        values@.len() >= 4,
    ensures
        forall|value: Meaning<S>| #[trigger]
            parses(*parse, value) ==> samples_from(strings(values@), 4, 0, value) == match r {
                Ok(v) => Ok::<Seq<SampleModel<S>>, ArgsError>(sample_models(v@)),
                Err(e) => Err(e),
            },
{
    let ghost all = strings(values@);
    let mut out: Vec<SampleArg<S>> = Vec::new();
    let mut i: usize = 4;
    assert(sample_models(out@) =~= Seq::empty());
    proof {
        assert forall|value: Meaning<S>| #[trigger] parses(*parse, value) implies partly_read(
            all,
            4,
            sample_models(out@),
            value,
        ) by {
            if let Ok(rest) = samples_from(all, 4, 0, value) {
                assert(Seq::<SampleModel<S>>::empty() + rest =~= rest);
            }
        }
    }
    while i < values.len()
        invariant
            4 <= i <= values@.len(),
            all == strings(values@),
            takes_all(*parse),
            forall|value: Meaning<S>| #[trigger]
                parses(*parse, value) ==> partly_read(all, i as int, sample_models(out@), value),
        decreases values@.len() - i,
    {
        let option = chars_of(values[i].as_str());
        assert(all[i as int] == values@[i as int]@);
        assert(sample_models(out@).len() == out@.len());
        if !text_is(option.as_slice(), "--sample") {
            return Err(ArgsError::UnknownOption(i));
        }
        if values.len() - i <= 3 {
            return Err(ArgsError::IncompleteSample);
        }
        if out.len() >= 2 {
            return Err(ArgsError::TooManySamples);
        }
        assert(all[i + 1] == values@[i + 1]@);
        assert(all[i + 2] == values@[i + 2]@);
        assert(all[i + 3] == values@[i + 3]@);
        let name = values[i + 1].clone();
        let low = chars_of(values[i + 2].as_str());
        let min = match parse(low.as_slice()) {
            Some(v) => v,
            None => return Err(ArgsError::InvalidMinimum(i + 2)),
        };
        let high = chars_of(values[i + 3].as_str());
        let max = match parse(high.as_slice()) {
            Some(v) => v,
            None => return Err(ArgsError::InvalidMaximum(i + 3)),
        };
        let ghost before = out@;
        let arg = SampleArg { name, min, max };
        let ghost model = arg@;
        out.push(arg);
        proof {
            assert(sample_models(out@) =~= sample_models(before).push(model));
            assert forall|value: Meaning<S>| #[trigger] parses(*parse, value) implies partly_read(
                all,
                i + 4,
                sample_models(out@),
                value,
            ) by {
                assert(partly_read(all, i as int, sample_models(before), value));
                if let Ok(rest) = samples_from(all, i + 4, out@.len(), value) {
                    assert(sample_models(before) + (seq![model] + rest) =~= sample_models(out@)
                        + rest);
                }
            }
        }
        i += 4;
    }
    assert(sample_models(out@) + Seq::<SampleModel<S>>::empty() =~= sample_models(out@));
    Ok(out)
}

/// Parses the isosurface program's arguments, without the program name. `parse` reads one
/// number. `None` when help is asked for.
pub fn parse_args<S: Copy, F: Fn(&[char]) -> Option<S>>(values: &Vec<String>, parse: &F) -> (r: Result<
    Option<Args<S>>,
    ArgsError,
>)
    requires
        takes_all(*parse),
    ensures
        forall|value: Meaning<S>| #[trigger]
            parses(*parse, value) ==> args_of(strings(values@), value) == match r {
                Ok(Some(args)) => Ok::<Option<ArgsModel<S>>, ArgsError>(Some(args@)),
                Ok(None) => Ok(None),
                Err(e) => Err(e),
            },
{
    let ghost all = strings(values@);
    if wants_help(values) {
        return Ok(None);
    }
    if values.len() < 4 {
        return Err(ArgsError::TooFew);
    }
    proof {
        assert(all[0] == values@[0]@);
        assert(all[1] == values@[1]@);
        assert(all[2] == values@[2]@);
        assert(all[3] == values@[3]@);
    }
    let number = chars_of(values[2].as_str());
    let isovalue = match parse(number.as_slice()) {
        Some(v) => v,
        None => return Err(ArgsError::InvalidIsovalue),
    };
    match parse_samples(values, parse) {
        Ok(samples) => Ok(
            Some(
                Args {
                    input: values[0].clone(),
                    variable: values[1].clone(),
                    isovalue,
                    output: values[3].clone(),
                    samples,
                },
            ),
        ),
        Err(e) => Err(e),
    }
}

/// Arguments of the archive program: variables, then input, then output.
#[derive(Debug)]
pub struct CompactArgs {
    pub input: String,
    pub output: String,
    pub vars: Vec<String>,
}

/// Why the archive program's command line was refused.
#[derive(Debug, Clone, Copy, PartialEq, Eq, Structural)]
pub enum CompactArgsError {
    /// There is no argument.
    MissingOutput,
    /// There is one argument only.
    MissingInput,
}

/// Parses the archive program's arguments, without the program name.
pub fn parse_compact_args(args: Vec<String>) -> (r: Result<CompactArgs, CompactArgsError>)
    ensures
        match r {
            Ok(a) => {
                &&& args@.len() >= 2
                &&& a.output == args@[args@.len() - 1]
                &&& a.input == args@[args@.len() - 2]
                &&& a.vars@ == args@.take(args@.len() - 2)
            },
            Err(CompactArgsError::MissingOutput) => args@.len() == 0,
            Err(CompactArgsError::MissingInput) => args@.len() == 1,
        },
{
    let mut vars = args;
    let ghost all = vars@;
    let output = match vars.pop() {
        Some(output) => output,
        None => return Err(CompactArgsError::MissingOutput),
    };
    let input = match vars.pop() {
        Some(input) => input,
        None => return Err(CompactArgsError::MissingInput),
    };
    assert(vars@ =~= all.take(all.len() - 2));
    Ok(CompactArgs { input, output, vars })
}

/// Component ids of the first `n` names that a plotfile knows, in order.
pub open spec fn known_ids(known: Seq<Seq<char>>, names: Seq<Seq<char>>, n: nat) -> Seq<u32>
    decreases n,
{
    if n == 0 {
        Seq::empty()
    } else {
        let before = known_ids(known, names, (n - 1) as nat);
        let name = names[n - 1];
        if known.contains(name) {
            before.push(first_place(known, name) as u32)
        } else {
            before
        }
    }
}

/// `i` is the first place of a name.
pub open spec fn is_first_place(known: Seq<Seq<char>>, name: Seq<char>, i: int) -> bool {
    &&& 0 <= i < known.len()
    &&& known[i] == name
    &&& forall|j: int| 0 <= j < i ==> #[trigger] known[j] != name
}

/// The first place of a name.
pub open spec fn first_place(known: Seq<Seq<char>>, name: Seq<char>) -> int {
    choose|i: int| #[trigger] is_first_place(known, name, i)
}

/// The places of the first `n` names that a plotfile does not know, in order.
pub open spec fn unknown_places(known: Seq<Seq<char>>, names: Seq<Seq<char>>, n: nat) -> Seq<int>
    decreases n,
{
    if n == 0 {
        Seq::empty()
    } else {
        let before = unknown_places(known, names, (n - 1) as nat);
        if known.contains(names[n - 1]) {
            before
        } else {
            before.push(n - 1)
        }
    }
}

/// Component ids of the named variables that a plotfile has, and the places of the names that
/// it does not have.
pub fn variable_ids<S: Copy>(plot_file: &PlotFile<S>, names: &Vec<String>) -> (r: (Vec<u32>, Vec<usize>))
    requires
        plot_file.wf(),
    ensures
        r.0@ == known_ids(plot_file.head().names, strings(names@), names@.len()),
        r.1@.map_values(|p: usize| p as int) == unknown_places(
            plot_file.head().names,
            strings(names@),
            names@.len(),
        ),
{
    let ghost known = plot_file.head().names;
    let ghost all = strings(names@);
    let mut ids: Vec<u32> = Vec::new();
    let mut missing: Vec<usize> = Vec::new();
    let mut i: usize = 0;
    assert(missing@.map_values(|p: usize| p as int) =~= Seq::empty());
    while i < names.len()
        invariant
            i <= names@.len(),
            plot_file.wf(),
            known == plot_file.head().names,
            all == strings(names@),
            ids@ == known_ids(known, all, i as nat),
            missing@.map_values(|p: usize| p as int) == unknown_places(known, all, i as nat),
        decreases names@.len() - i,
    {
        assert(all[i as int] == names@[i as int]@);
        match plot_file.variable(names[i].as_str()) {
            Some(variable) => {
                proof {
                    let name = all[i as int];
                    let v = variable.index as int;
                    assert(is_first_place(known, name, v));
                    let f = first_place(known, name);
                    assert(is_first_place(known, name, f));
                    assert(f == v) by {
                        if f < v {
                            assert(known[f] != name);
                        } else if v < f {
                            assert(known[v] != name);
                        }
                    }
                }
                ids.push(variable.index as u32);
            },
            None => {
                let ghost before = missing@;
                missing.push(i);
                assert(missing@.map_values(|p: usize| p as int) =~= before.map_values(
                    |p: usize| p as int,
                ).push(i as int));
            },
        }
        i += 1;
    }
    (ids, missing)
}

/// Why a variable could not be named by a component id.
#[derive(Debug, Clone, Copy, PartialEq, Eq, Structural)]
pub enum VariableError {
    /// There is no variable of that name.
    NotFound,
    /// The variable's index does not fit in 32 bits.
    IndexTooLarge,
}

/// Component id of the first variable with a name.
pub open spec fn id_of(variables: Seq<Variable>, name: Seq<char>) -> Result<u32, VariableError>
    decreases variables.len(),
{
    if variables.len() == 0 {
        Err(VariableError::NotFound)
    } else if variables[0].name@ == name {
        if variables[0].index <= u32::MAX {
            Ok(variables[0].index as u32)
        } else {
            Err(VariableError::IndexTooLarge)
        }
    } else {
        id_of(variables.drop_first(), name)
    }
}

/// Component id of the first variable with a name.
pub fn component_id(variables: &[Variable], name: &str) -> (r: Result<u32, VariableError>)
    ensures
        r == id_of(variables@, name@),
{
    let wanted = name.to_owned();
    let mut i: usize = 0;
    assert(variables@.skip(0) =~= variables@);
    while i < variables.len()
        invariant
            i <= variables@.len(),
            wanted@ == name@,
            id_of(variables@, name@) == id_of(variables@.skip(i as int), name@),
        decreases variables@.len() - i,
    {
        let ghost rest = variables@.skip(i as int);
        assert(rest.drop_first() =~= variables@.skip(i + 1));
        assert(rest[0] == variables@[i as int]);
        if variables[i].name == wanted {
            return if variables[i].index <= u32::MAX as usize {
                Ok(variables[i].index as u32)
            } else {
                Err(VariableError::IndexTooLarge)
            };
        }
        i += 1;
    }
    Err(VariableError::NotFound)
}

/// The samples that sample arguments ask for, or why one cannot be had.
pub open spec fn samples_for<S>(
    variables: Seq<Variable>,
    args: Seq<SampleModel<S>>,
) -> Result<Seq<Sample<S>>, VariableError>
    decreases args.len(),
{
    if args.len() == 0 {
        Ok(Seq::empty())
    } else {
        match samples_for(variables, args.drop_last()) {
            Err(e) => Err(e),
            Ok(list) => match id_of(variables, args.last().name) {
                Err(e) => Err(e),
                Ok(id) => Ok(
                    list.push(Sample { id, min: args.last().min, max: args.last().max }),
                ),
            },
        }
    }
}

/// Once an argument fails, all fail.
proof fn lemma_samples_fail<S>(variables: Seq<Variable>, args: Seq<SampleModel<S>>, i: int)
    requires
        0 <= i <= args.len(),
        samples_for(variables, args.take(i)) is Err,
    ensures
        samples_for(variables, args) == samples_for(variables, args.take(i)),
    decreases args.len(),
{
    if i == args.len() {
        assert(args.take(i) =~= args);
    } else {
        assert(args.drop_last().take(i) =~= args.take(i));
        lemma_samples_fail(variables, args.drop_last(), i);
    }
}

/// The options that the isosurface program's arguments ask for.
pub fn isosurface_options<S: Copy>(variables: &[Variable], args: &Args<S>) -> (r: Result<
    IsosurfaceOptions<S>,
    VariableError,
>)
    ensures
        match r {
            Err(e) => match id_of(variables@, args@.variable) {
                Err(f) => e == f,
                Ok(_) => samples_for(variables@, args@.samples) == Err::<
                    Seq<Sample<S>>,
                    VariableError,
                >(e),
            },
            Ok(options) => {
                &&& id_of(variables@, args@.variable) == Ok::<u32, VariableError>(
                    options.surface.id,
                )
                &&& options.surface.value == args@.isovalue
                &&& samples_for(variables@, args@.samples) == Ok::<Seq<Sample<S>>, VariableError>(
                    options.sampled_quantities@,
                )
                &&& options.levels is None
                &&& !options.flip_winding
            },
        },
{
    let id = match component_id(variables, args.variable.as_str()) {
        Ok(id) => id,
        Err(e) => return Err(e),
    };
    let ghost all = args@.samples;
    let mut sampled_quantities: Vec<Sample<S>> = Vec::new();
    let mut i: usize = 0;
    assert(all.take(0) =~= Seq::empty());
    assert(sampled_quantities@ =~= Seq::empty());
    while i < args.samples.len()
        invariant
            i <= args.samples@.len(),
            all == args@.samples,
            id_of(variables@, args@.variable) is Ok,
            samples_for(variables@, all.take(i as int)) == Ok::<Seq<Sample<S>>, VariableError>(
                sampled_quantities@,
            ),
        decreases args.samples@.len() - i,
    {
        proof {
            assert(all.take(i + 1).drop_last() =~= all.take(i as int));
            assert(all.take(i + 1).last() == args.samples@[i as int]@);
        }
        match component_id(variables, args.samples[i].name.as_str()) {
            Ok(id) => sampled_quantities.push(
                Sample { id, min: args.samples[i].min, max: args.samples[i].max },
            ),
            Err(e) => {
                proof {
                    lemma_samples_fail(variables@, all, i + 1);
                }
                return Err(e);
            },
        }
        i += 1;
    }
    assert(all.take(i as int) =~= all);
    Ok(
        IsosurfaceOptions {
            surface: Surface { id, value: args.isovalue },
            sampled_quantities,
            levels: None,
            flip_winding: false,
        },
    )
}

/// Vertex numbers of a face in an OBJ file, which counts from one.
pub fn obj_face(face: [u32; 3]) -> (r: [u64; 3])
    ensures
        r@[0] == face@[0] + 1,
        r@[1] == face@[1] + 1,
        r@[2] == face@[2] + 1,
{
    [face[0] as u64 + 1, face[1] as u64 + 1, face[2] as u64 + 1]
}

} // verus!
