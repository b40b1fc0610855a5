//! Command lines: what the arguments of the programs mean.

use vstd::prelude::*;

use crate::cli::{
    args_of, asks_help, first_place, id_of, is_first_place, known_ids, samples_for, samples_from,
    unknown_places, ArgsError, ArgsModel, SampleModel, VariableError,
};
use crate::native_file::Variable;
use crate::text_parsing::Meaning;

verus! {

/// The words for the samples from place `i` on: the option, the name and the range of each.
pub open spec fn sample_words<S>(
    samples: Seq<SampleModel<S>>,
    show: spec_fn(S) -> Seq<char>,
) -> Seq<Seq<char>>
    decreases samples.len(),
{
    if samples.len() == 0 {
        Seq::empty()
    } else {
        seq!["--sample"@, samples[0].name, show(samples[0].min), show(samples[0].max)]
            + sample_words(samples.drop_first(), show)
    }
}

/// The words of a command line: input, variable, isovalue and output, and then the samples.
pub open spec fn command_words<S>(a: ArgsModel<S>, show: spec_fn(S) -> Seq<char>) -> Seq<Seq<char>> {
    seq![a.input, a.variable, show(a.isovalue), a.output] + sample_words(a.samples, show)
}

proof fn lemma_samples<S>(
    values: Seq<Seq<char>>,
    i: int,
    count: nat,
    samples: Seq<SampleModel<S>>,
    show: spec_fn(S) -> Seq<char>,
    value: Meaning<S>,
)
    requires
        forall|s: S| value(#[trigger] show(s)) == Some(s),
        0 <= i <= values.len(),
        values.skip(i) == sample_words(samples, show),
        count + samples.len() <= 2,
    ensures
        samples_from(values, i, count, value) == Ok::<Seq<SampleModel<S>>, ArgsError>(samples),
    decreases samples.len(),
{
    let rest = values.skip(i);
    if samples.len() == 0 {
        assert(rest.len() == 0);
        assert(samples =~= Seq::empty());
    } else {
        let s = samples[0];
        let four = seq!["--sample"@, s.name, show(s.min), show(s.max)];
        let more = sample_words(samples.drop_first(), show);
        assert(rest == four + more);
        assert(values[i] == rest[0] && values[i + 1] == rest[1] && values[i + 2] == rest[2]
            && values[i + 3] == rest[3]);
        assert(values.skip(i + 4) =~= more) by {
            assert forall|k: int| 0 <= k < more.len() implies #[trigger] values.skip(i + 4)[k]
                == more[k] by {
                assert(values.skip(i + 4)[k] == rest[k + 4]);
            }
        }
        lemma_samples(values, i + 4, count + 1, samples.drop_first(), show, value);
        assert(seq![s] + samples.drop_first() =~= samples);
        assert(SampleModel { name: s.name, min: s.min, max: s.max } == s);
    }
}

/// A command line that is written out is read back: input, variable, isovalue, output, and up to
/// two samples with name, minimum and maximum.
pub proof fn law_command_line<S>(
    a: ArgsModel<S>,
    show: spec_fn(S) -> Seq<char>,
    value: Meaning<S>,
)
    requires
        forall|s: S| value(#[trigger] show(s)) == Some(s),
        a.samples.len() <= 2,
        forall|i: int|
            0 <= i < command_words(a, show).len() ==> #[trigger] command_words(a, show)[i] != "-h"@
                && command_words(a, show)[i] != "--help"@,
    ensures
        args_of(command_words(a, show), value) matches Ok(Some(b)) && b.input == a.input
            && b.variable == a.variable && b.isovalue == a.isovalue && b.output == a.output
            && b.samples == a.samples,
{
    let values = command_words(a, show);
    assert(values.skip(4) =~= sample_words(a.samples, show));
    lemma_samples(values, 4, 0, a.samples, show, value);
    assert(!asks_help(values));
}

/// Help is shown for any command line that asks for it.
pub proof fn law_help<S>(values: Seq<Seq<char>>, i: int, value: Meaning<S>)
    requires
        0 <= i < values.len(),
        values[i] == "-h"@ || values[i] == "--help"@,
    ensures
        args_of(values, value) == Ok::<Option<ArgsModel<S>>, ArgsError>(None),
{
    assert(asks_help(values));
}

/// Fewer than four arguments are refused, and so is a fifth one that is not an option.
pub proof fn law_refused_commands<S>(values: Seq<Seq<char>>, value: Meaning<S>)
    requires
        forall|i: int|
            0 <= i < values.len() ==> #[trigger] values[i] != "-h"@ && values[i] != "--help"@,
    ensures
        values.len() < 4 ==> args_of(values, value) == Err::<Option<ArgsModel<S>>, ArgsError>(
            ArgsError::TooFew,
        ),
        values.len() >= 4 && value(values[2]) is None ==> args_of(values, value) == Err::<
            Option<ArgsModel<S>>,
            ArgsError,
        >(ArgsError::InvalidIsovalue),
        values.len() > 4 && value(values[2]) is Some && values[4] != "--sample"@ ==> args_of(
            values,
            value,
        ) == Err::<Option<ArgsModel<S>>, ArgsError>(ArgsError::UnknownOption(4)),
{
}

/// The component of a name is the index of the first variable with that name.
pub proof fn law_component_of_name(variables: Seq<Variable>, name: Seq<char>, i: int)
    requires
        0 <= i < variables.len(),
        variables[i].name@ == name,
        forall|j: int| 0 <= j < i ==> (#[trigger] variables[j]).name@ != name,
        variables[i].index <= u32::MAX,
    ensures
        id_of(variables, name) == Ok::<u32, VariableError>(variables[i].index as u32),
    decreases i,
{
    if i > 0 {
        assert(variables[0].name@ != name);
        let rest = variables.drop_first();
        assert(rest[i - 1] == variables[i]);
        assert forall|j: int| 0 <= j < i - 1 implies (#[trigger] rest[j]).name@ != name by {
            assert(rest[j] == variables[j + 1]);
        }
        law_component_of_name(rest, name, i - 1);
    }
}

/// A name that no variable has is refused.
pub proof fn law_unknown_name(variables: Seq<Variable>, name: Seq<char>)
    requires
        forall|j: int| 0 <= j < variables.len() ==> (#[trigger] variables[j]).name@ != name,
    ensures
        id_of(variables, name) == Err::<u32, VariableError>(VariableError::NotFound),
    decreases variables.len(),
{
    if variables.len() > 0 {
        assert(variables[0].name@ != name);
        let rest = variables.drop_first();
        assert forall|j: int| 0 <= j < rest.len() implies (#[trigger] rest[j]).name@ != name by {
            assert(rest[j] == variables[j + 1]);
        }
        law_unknown_name(rest, name);
    }
}

/// The samples that arguments ask for have the components of their names and their ranges, in
/// order.
pub proof fn law_asked_samples<S>(variables: Seq<Variable>, args: Seq<SampleModel<S>>)
    ensures
        samples_for(variables, args) matches Ok(list) ==> list.len() == args.len() && forall|i: int|
            0 <= i < args.len() ==> id_of(variables, args[i].name) == Ok::<u32, VariableError>(
                (#[trigger] list[i]).id,
            ) && list[i].min == args[i].min && list[i].max == args[i].max,
        samples_for(variables, args) is Err ==> exists|i: int|
            0 <= i < args.len() && id_of(variables, (#[trigger] args[i]).name) is Err,
    decreases args.len(),
{
    if args.len() > 0 {
        let before = args.drop_last();
        law_asked_samples(variables, before);
        if samples_for(variables, before) is Err {
            let i = choose|i: int|
                0 <= i < before.len() && id_of(variables, (#[trigger] before[i]).name) is Err;
            assert(id_of(variables, args[i].name) is Err);
        } else if id_of(variables, args.last().name) is Err {
            assert(id_of(variables, args[args.len() - 1].name) is Err);
        } else {
            let some = samples_for(variables, before)->Ok_0;
            let list = samples_for(variables, args)->Ok_0;
            assert forall|i: int| 0 <= i < args.len() implies id_of(variables, args[i].name) == Ok::<
                u32,
                VariableError,
            >((#[trigger] list[i]).id) && list[i].min == args[i].min && list[i].max
                == args[i].max by {
                if i < before.len() {
                    assert(list[i] == some[i]);
                    assert(before[i] == args[i]);
                }
            }
        }
    }
}

/// For an archive the known names become the places of their first variables, in order, and the
/// places of the unknown ones are told.
pub proof fn law_archived_variables(known: Seq<Seq<char>>, names: Seq<Seq<char>>, n: nat)
    requires
        n <= names.len(),
        known.len() <= u32::MAX,
    ensures
        ({
            let ids = known_ids(known, names, n);
            let missing = unknown_places(known, names, n);
            &&& ids.len() + missing.len() == n
            &&& forall|k: int|
                0 <= k < ids.len() ==> (#[trigger] ids[k]) < known.len() && names.take(
                    n as int,
                ).contains(known[ids[k] as int]) && forall|j: int|
                    0 <= j < ids[k] ==> #[trigger] known[j] != known[ids[k] as int]
            &&& forall|k: int|
                0 <= k < missing.len() ==> 0 <= #[trigger] missing[k] < n && !known.contains(
                    names[missing[k]],
                )
        }),
    decreases n,
{
    if n > 0 {
        let m = (n - 1) as nat;
        law_archived_variables(known, names, m);
        let name = names[n - 1];
        let ids = known_ids(known, names, n);
        let before = known_ids(known, names, m);
        assert forall|x: Seq<char>| names.take(m as int).contains(x) implies #[trigger] names.take(
            n as int,
        ).contains(x) by {
            let i = choose|i: int| 0 <= i < m && names.take(m as int)[i] == x;
            assert(names.take(n as int)[i] == x);
        }
        if known.contains(name) {
            lemma_first_place(known, name, known.len());
            let f = first_place(known, name);
            assert(is_first_place(known, name, f));
            assert(names.take(n as int)[n - 1] == name);
            assert forall|k: int| 0 <= k < ids.len() implies (#[trigger] ids[k]) < known.len()
                && names.take(n as int).contains(known[ids[k] as int]) && (forall|j: int|
                0 <= j < ids[k] ==> #[trigger] known[j] != known[ids[k] as int]) by {
                if k < before.len() {
                    assert(ids[k] == before[k]);
                }
            }
        }
    }
}

/// A known name has a first place.
proof fn lemma_first_place(known: Seq<Seq<char>>, name: Seq<char>, n: nat)
    requires
        n <= known.len(),
    ensures
        (exists|i: int| 0 <= i < n && #[trigger] known[i] == name) ==> exists|i: int| #[trigger]
            is_first_place(known, name, i),
    decreases n,
{
    if n > 0 {
        lemma_first_place(known, name, (n - 1) as nat);
        if !(exists|i: int| 0 <= i < n - 1 && #[trigger] known[i] == name) && known[n - 1] == name {
            assert(is_first_place(known, name, n - 1));
        }
    }
}

} // verus!
