use amrex_rs::cli::{
    component_id, isosurface_options, obj_face, parse_args, parse_compact_args, usage,
    variable_ids, Args, ArgsError, CompactArgsError, VariableError,
};
use amrex_rs::native_file::{PlotFile, Variable};
use amrex_rs::native_file_parse::read_header;

fn number(text: &[char]) -> Option<f64> {
    text.iter().collect::<String>().parse().ok()
}

fn words(text: &str) -> Vec<String> {
    text.split_whitespace().map(String::from).collect()
}

fn parsed(text: &str) -> Result<Option<Args<f64>>, ArgsError> {
    parse_args(&words(text), &number)
}

fn failure(text: &str) -> Option<ArgsError> {
    parsed(text).err()
}

#[test]
fn usage_names_the_program() {
    let text = usage("isosurface");
    assert!(text.starts_with(
        "Usage: isosurface <input> <variable> <isovalue> <output.obj> [options]\n\n<input> may be"
    ));
    assert!(text.ends_with("\n-h, --help                       Show this help"));
}

#[test]
fn arguments_are_read() {
    let args = parsed("plt00010 density 1.5 out.obj --sample t 0 10 --sample p 1 5")
        .unwrap()
        .unwrap();
    assert_eq!(args.input, "plt00010");
    assert_eq!(args.variable, "density");
    assert_eq!(args.isovalue, 1.5);
    assert_eq!(args.output, "out.obj");
    assert_eq!(args.samples.len(), 2);
    assert_eq!(args.samples[1].name, "p");
    assert_eq!((args.samples[1].min, args.samples[1].max), (1.0, 5.0));
}

#[test]
fn help_wins_over_errors() {
    assert!(matches!(parsed("-h"), Ok(None)));
    assert!(matches!(parsed("a b x out --help"), Ok(None)));
}

#[test]
fn bad_arguments_are_told_apart() {
    assert_eq!(failure("a b 1"), Some(ArgsError::TooFew));
    assert_eq!(failure("a b x out"), Some(ArgsError::InvalidIsovalue));
    assert_eq!(failure("a b 1 out --smpl"), Some(ArgsError::UnknownOption(4)));
    assert_eq!(
        failure("a b 1 out --sample t 0"),
        Some(ArgsError::IncompleteSample)
    );
    assert_eq!(
        failure("a b 1 out --sample t x 1"),
        Some(ArgsError::InvalidMinimum(6))
    );
    assert_eq!(
        failure("a b 1 out --sample t 0 x"),
        Some(ArgsError::InvalidMaximum(7))
    );
    assert_eq!(
        failure("a b 1 out --sample t 0 1 --sample t 0 1 --sample t 0 1"),
        Some(ArgsError::TooManySamples)
    );
}

fn variables() -> Vec<Variable> {
    vec![
        Variable {
            name: String::from("density"),
            index: 0,
        },
        Variable {
            name: String::from("t"),
            index: 1,
        },
        Variable {
            name: String::from("huge"),
            index: 1 << 40,
        },
    ]
}

#[test]
fn names_become_component_ids() {
    let list = variables();
    assert_eq!(component_id(&list, "t"), Ok(1));
    assert_eq!(component_id(&list, "u"), Err(VariableError::NotFound));
    assert_eq!(component_id(&list, "huge"), Err(VariableError::IndexTooLarge));

    let args = parsed("plt density 2 out --sample t -1 4").unwrap().unwrap();
    let options = isosurface_options(&list, &args).unwrap();
    assert_eq!(options.surface.id, 0);
    assert_eq!(options.surface.value, 2.0);
    assert_eq!(options.sampled_quantities[0].id, 1);
    assert_eq!(options.sampled_quantities[0].min, -1.0);
    assert!(options.levels.is_none());
    assert!(!options.flip_winding);

    let args = parsed("plt density 2 out --sample u -1 4").unwrap().unwrap();
    assert!(matches!(
        isosurface_options(&list, &args),
        Err(VariableError::NotFound)
    ));
}

#[test]
fn archive_arguments_end_with_input_and_output() {
    let args = parse_compact_args(words("density t plt out")).unwrap();
    assert_eq!(args.output, "out");
    assert_eq!(args.input, "plt");
    assert_eq!(args.vars, words("density t"));
    assert!(matches!(
        parse_compact_args(words("out")),
        Err(CompactArgsError::MissingInput)
    ));
    assert!(matches!(
        parse_compact_args(Vec::new()),
        Err(CompactArgsError::MissingOutput)
    ));
}

#[test]
fn unknown_variables_are_skipped() {
    let text = "HyperCLaw-V1.1\n2\ndensity\nt\n3\n0\n0\n0 0 0\n2 2 2\n\n\
         ((0,0,0) (1,1,1) (0,0,0))\n0\n1 1 1\n0\n0\n0 1 0\n0\n\
         0 2\n0 2\n0 2\nLevel_0/Cell\n";
    let plot = PlotFile::new(read_header(text.as_bytes().to_vec(), &number).unwrap());
    let (ids, missing) = variable_ids(&plot, &words("t u density"));
    assert_eq!(ids, vec![1, 0]);
    assert_eq!(missing, vec![1]);
}

#[test]
fn obj_faces_count_from_one() {
    assert_eq!(obj_face([0, 1, 2]), [1, 2, 3]);
    assert_eq!(obj_face([u32::MAX, 0, 0]), [1 << 32, 1, 1]);
}
