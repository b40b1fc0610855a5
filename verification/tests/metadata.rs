use amrex_rs::data_reader::{
    balanced_prefix_len, byte_order_from, component_view, integers, native_byte_order,
    parse_fab_header, view_record, ByteOrder, Encoding, FabError, RawScalar, ScalarType, Values,
};
use amrex_rs::native_file::{
    CellHeader, CoordinateSystem, Header, IndexDomain, PlotFile, V1StorageMode,
};
use amrex_rs::native_file_parse::{get_cell_hash_place, read_header, read_hyper_cell_header};
use amrex_rs::text_parsing::{
    chars_of, parse_i32, parse_u64, parse_usize, read_fixed_array_from_str, Delimiter,
    LineChomper, ParseError, Reader,
};
use amrex_rs::vec3::IVec3;

const FAB_HEADER: &str = "FAB ((8, (64 11 52 0 1 12 0 1023)),(8, (8 7 6 5 4 3 2 1)))((0,0,0) (15,15,15) (0,0,0)) 56\n";

fn number(text: &[char]) -> Option<f64> {
    text.iter().collect::<String>().parse().ok()
}

fn header_of(text: &str) -> Result<Header<f64>, ParseError> {
    read_header(text.as_bytes().to_vec(), &number)
}

fn cell_header_of(text: &str) -> Result<CellHeader<f64>, ParseError> {
    read_hyper_cell_header(text.as_bytes().to_vec(), &number)
}

/// The text of a header with `density` and 55 more variables, and four levels.
fn large_header() -> String {
    let counts = [576, 1453, 3985, 19172];
    let mut text = String::from("HyperCLaw-V1.1\n56\ndensity\n");
    for v in 1..56 {
        text.push_str(&format!("variable_{v}\n"));
    }
    text.push_str("3\n0.5\n3\n0 0 0\n1 1 1\n2 2 2\n");
    text.push_str("((0,0,0) (127,127,127) (0,0,0)) ((0,0,0) (255,255,255) (0,0,0)) ");
    text.push_str("((0,0,0) (511,511,511) (0,0,0)) ((0,0,0) (1023,1023,1023) (0,0,0))\n");
    text.push_str("10 20 40 80\n");
    for n in [128.0, 256.0, 512.0, 1024.0] {
        let h = 1.0 / n;
        text.push_str(&format!("{h} {h} {h}\n"));
    }
    text.push_str("0\n0\n");
    for (level, count) in counts.iter().enumerate() {
        text.push_str(&format!("{level} {count} 0.5\n{}\n", 10 << level));
        for _ in 0..*count {
            text.push_str("0 1\n0 1\n0 1\n");
        }
        text.push_str(&format!("Level_{level}/Cell\n"));
    }
    text
}

/// The text of a cell header with 576 patches of 56 components.
fn large_cell_header() -> String {
    let mut text = String::from("1\n1\n56\n0\n(576 0\n");
    for i in 0..576 {
        let x = 16 * i;
        text.push_str(&format!("(({x},0,0) ({},15,15) (0,0,0))\n", x + 15));
    }
    text.push_str(")\n576\n");
    for i in 0..576 {
        text.push_str(&format!("FabOnDisk: Cell_D_{:05} {}\n", 31 + i / 16, i % 16));
    }
    for bound in ["-1.5", "2.5"] {
        text.push_str("\n576,56\n");
        for _ in 0..576 {
            for _ in 0..56 {
                text.push_str(bound);
                text.push(',');
            }
            text.push('\n');
        }
    }
    text
}

#[test]
fn plotfile_exposes_level_metadata_without_loading_cell_headers() {
    let plotfile = PlotFile::new(header_of(&large_header()).unwrap());

    assert_eq!(plotfile.variables().len(), 56);
    assert_eq!(plotfile.variable("density").unwrap().index, 0);
    assert_eq!(plotfile.levels().len(), 4);
    let mut levels = plotfile.levels();
    let mut counts = Vec::new();
    while let Some(level) = levels.next() {
        counts.push(level.patch_count());
    }
    assert_eq!(counts, [576, 1453, 3985, 19172]);
    assert!(plotfile.level(0).unwrap().patches().is_none());
    assert!(plotfile.level(4).is_none());
    assert!(plotfile.variable("pressure").is_none());
}

#[test]
fn reads_real_cell_header_metadata() {
    let header = cell_header_of(&large_cell_header()).unwrap();

    assert!(matches!(header.mode, V1StorageMode::NFiles));
    assert_eq!(header.ghost_cell_width, 0);
    assert_eq!(header.fabs.len(), 576);
    assert_eq!(header.bounds.patch_count, 576);
    assert_eq!(header.bounds.component_count, 56);
    assert_eq!(header.bounds.minima.len(), 576 * 56);
    assert_eq!(header.bounds.maxima.len(), 576 * 56);
    assert_eq!(&*header.fabs[0].file_name, "Cell_D_00031");
    assert_eq!(header.fabs[0].file_offset, 0);
    assert_eq!(header.bounds.get_minima(0, 56), None);
    assert_eq!(header.bounds.get_minima(0, 55), Some(-1.5));
    assert_eq!(header.bounds.get_maxima(575, 55), Some(2.5));
}

fn joined_plotfile() -> PlotFile<f64> {
    let mut plotfile = PlotFile::new(header_of(&large_header()).unwrap());
    let cells = cell_header_of(&large_cell_header()).unwrap();
    plotfile.set_cell_header(0, cells).unwrap();
    plotfile
}

#[test]
fn lazily_joins_level_and_cell_metadata() {
    let plotfile = joined_plotfile();
    let level = plotfile.level(0).expect("missing level zero");
    let mut patches = level.patches().unwrap();

    assert_eq!(patches.len(), 576);
    let first = patches.next().expect("missing first patch");
    assert_eq!(first.index(), 0);
    assert_eq!(first.data_file(), "Cell_D_00031");
    assert_eq!(first.data_offset(), 0);
    assert_eq!(first.index_box().min, IVec3::new(0, 0, 0));
    assert_eq!(first.index_box().max, IVec3::new(15, 15, 15));
    assert_eq!(first.component_min(56), None);
    assert_eq!(first.component_max(0), Some(2.5));
    assert_eq!(patches.len(), 575);
}

#[test]
fn cell_header_of_another_level_is_refused() {
    let mut plotfile = PlotFile::new(header_of(&large_header()).unwrap());
    let cells = cell_header_of(&large_cell_header()).unwrap();
    assert_eq!(
        plotfile.set_cell_header(1, cells),
        Err(ParseError::Mismatch)
    );
    assert!(plotfile.level(1).unwrap().patches().is_none());
}

#[test]
fn maps_one_component_from_a_fab_shard() {
    assert_eq!(FAB_HEADER.len(), 90);
    let mut shard = FAB_HEADER.as_bytes().to_vec();
    const CELL_COUNT: usize = 16 * 16 * 16;
    for component in 0..56 {
        for index in 0..CELL_COUNT {
            let value = component as f64 * 10_000.0 + index as f64;
            shard.extend_from_slice(&value.to_le_bytes());
        }
    }

    let plotfile = joined_plotfile();
    let patch = plotfile.level(0).unwrap().patches().unwrap().next().unwrap();
    let view = component_view(&shard, patch, 3).unwrap();

    let value = |raw: RawScalar| match raw {
        RawScalar::F32(bits) => f64::from(f32::from_bits(bits)),
        RawScalar::F64(bits) => f64::from_bits(bits),
    };
    assert_eq!(view.shape(), [16, 16, 16]);
    assert_eq!(view.origin(), IVec3::new(0, 0, 0));
    assert_eq!(view.len(), CELL_COUNT);
    assert_eq!(view.values().len(), CELL_COUNT);
    assert_eq!(view.get_linear(0).map(value), Some(30_000.0));
    assert_eq!(view.get(IVec3::new(15, 15, 15)).map(value), Some(34_095.0));
    assert_eq!(view.values().next_back().map(value), Some(34_095.0));
    assert_eq!(view.get(IVec3::new(1, 2, 3)).map(value), Some(30_801.0));
    assert_eq!(view.get(IVec3::new(16, 0, 0)), None);
    assert_eq!(view.get_linear(CELL_COUNT), None);
    // The 90-byte ASCII header deliberately leaves f64 data unaligned.
    let start = 90 + 3 * CELL_COUNT * 8;
    assert_eq!(view.as_bytes(), &shard[start..start + CELL_COUNT * 8]);
    assert!(!view.is_native_f64(ByteOrder::LittleEndian, start));
    assert!(view.is_native_f64(ByteOrder::LittleEndian, 8));
    assert!(!view.is_native_f64(ByteOrder::BigEndian, 8));
}

#[test]
fn parses_self_describing_double_header() {
    let header = "FAB ((8, (64 11 52 0 1 12 0 1023)),(8, (8 7 6 5 4 3 2 1)))((0,0,0) (15,15,15) (0,0,0)) 56";
    let parsed = parse_fab_header(header).unwrap();
    assert_eq!(parsed.encoding.scalar, ScalarType::F64);
    assert_eq!(parsed.encoding.byte_order, ByteOrder::LittleEndian);
    assert_eq!(parsed.lower, IVec3::new(0, 0, 0));
    assert_eq!(parsed.upper, IVec3::new(15, 15, 15));
    assert_eq!(parsed.component_count, 56);
}

#[test]
fn parses_single_precision_big_endian() {
    let header = "FAB ((4, (32 8 23 0 1 9 0 127)),(4, (1 2 3 4)))((-1,0,2) (3,0,2) (0,0,0)) 1";
    let parsed = parse_fab_header(header).unwrap();
    assert_eq!(parsed.encoding.scalar, ScalarType::F32);
    assert_eq!(parsed.encoding.byte_order, ByteOrder::BigEndian);
    assert_eq!(parsed.lower, IVec3::new(-1, 0, 2));
    assert_eq!(parsed.encoding.scalar.byte_width(), 4);
}

#[test]
fn value_iterator_decodes_without_allocating() {
    let values = [1.25_f64, -2.5, 10.0];
    let bytes = values
        .iter()
        .flat_map(|value| value.to_le_bytes())
        .collect::<Vec<_>>();
    let encoding = Encoding {
        scalar: ScalarType::F64,
        byte_order: ByteOrder::LittleEndian,
    };
    let mut source = Values::new(&bytes, encoding, values.len());
    let mut decoded = Vec::new();
    while let Some(RawScalar::F64(bits)) = source.next() {
        decoded.push(f64::from_bits(bits));
    }
    assert_eq!(decoded, values);
}

#[test]
fn values_meet_in_the_middle() {
    let bytes = [0u8, 0, 0, 1, 0, 0, 0, 2, 0, 0, 0, 3];
    let encoding = Encoding {
        scalar: ScalarType::F32,
        byte_order: ByteOrder::BigEndian,
    };
    let mut source = Values::new(&bytes, encoding, 3);
    assert_eq!(source.next(), Some(RawScalar::F32(1)));
    assert_eq!(source.next_back(), Some(RawScalar::F32(3)));
    assert_eq!(source.len(), 1);
    assert_eq!(source.next_back(), Some(RawScalar::F32(2)));
    assert_eq!(source.next(), None);
    assert_eq!(source.next_back(), None);
}

#[test]
fn fab_header_errors_are_told_apart() {
    let fails = |text: &str| parse_fab_header(text).err();
    assert_eq!(fails("BAF ()"), Some(FabError::MissingPrefix));
    assert_eq!(fails("FAB 8"), Some(FabError::MissingDescriptor));
    assert_eq!(fails("FAB ((8"), Some(FabError::UnterminatedDescriptor));
    assert_eq!(
        fails("FAB ((8, (64 11 52)))((0,0,0) (1,1,1) (0,0,0)) 1"),
        Some(FabError::MalformedDescriptor)
    );
    assert_eq!(
        fails("FAB ((8, (64 11 51 0 1 12 0 1023)),(8, (8 7 6 5 4 3 2 1)))((0,0,0) (1,1,1) (0,0,0)) 1"),
        Some(FabError::UnsupportedDescriptor)
    );
    assert_eq!(
        fails("FAB ((8, (64 11 52 0 1 12 0 1023)),(8, (1 2 3 4 8 7 6 5)))((0,0,0) (1,1,1) (0,0,0)) 1"),
        Some(FabError::UnsupportedByteOrder)
    );
}

#[test]
fn descriptors_are_scanned_to_their_end() {
    assert_eq!(balanced_prefix_len(b"((1)(2))3)"), Ok(8));
    assert_eq!(balanced_prefix_len(b"x(1)"), Err(FabError::MissingDescriptor));
    assert_eq!(balanced_prefix_len(b"((1)"), Err(FabError::UnterminatedDescriptor));
    assert_eq!(integers(b"((8, (-64 11)))"), Ok(vec![8, -64, 11]));
    assert_eq!(
        integers(b"99999999999999999999"),
        Err(FabError::InvalidNumber)
    );
}

#[test]
fn short_records_are_refused() {
    let domain = IndexDomain {
        min: IVec3::new(0, 0, 0),
        max: IVec3::new(15, 15, 15),
        index_type: IVec3::new(0, 0, 0),
    };
    assert!(view_record(FAB_HEADER.as_bytes(), 0, 56, 0, domain, 0).is_err());
    assert!(view_record(FAB_HEADER.as_bytes(), 0, 56, 0, domain, 56).is_err());
    assert!(view_record(FAB_HEADER.as_bytes(), 0, 55, 0, domain, 0).is_err());
    assert!(view_record(FAB_HEADER.as_bytes(), 500, 56, 0, domain, 0).is_err());
}

#[test]
fn ghost_cells_widen_the_record() {
    let mut record = b"FAB ((4, (32 8 23 0 1 9 0 127)),(4, (4 3 2 1)))((-1,-1,-1) (1,1,1) (0,0,0)) 1\n".to_vec();
    for n in 0..27u32 {
        record.extend_from_slice(&n.to_le_bytes());
    }
    let cell = IndexDomain {
        min: IVec3::new(0, 0, 0),
        max: IVec3::new(0, 0, 0),
        index_type: IVec3::new(0, 0, 0),
    };
    let view = view_record(&record, 0, 1, 1, cell, 0).unwrap();
    assert_eq!(view.shape(), [3, 3, 3]);
    assert_eq!(view.get(IVec3::new(0, 0, 0)), Some(RawScalar::F32(13)));
    assert_eq!(view.scalar_type(), ScalarType::F32);
    assert_eq!(view.byte_order(), ByteOrder::LittleEndian);
    assert_eq!(view.component(), 0);
    assert!(!view.is_empty());
    assert!(view_record(&record, 0, 1, 0, cell, 0).is_err());
}

#[test]
fn byte_order_of_the_machine() {
    assert_eq!(byte_order_from([1, 0]), ByteOrder::LittleEndian);
    assert_eq!(byte_order_from([0, 1]), ByteOrder::BigEndian);
    assert_eq!(
        native_byte_order(),
        byte_order_from(1u16.to_ne_bytes())
    );
}

fn small_header() -> String {
    String::from(
        "HyperCLaw-V1.1\n1\ndensity\n3\n0.25\n0\n0 0 0\n2 2 2\n\n\
         ((0,0,0) (1,1,1) (0,0,0))\n7\n1 1 1\n0\n0\n0 1 0.25\n7\n\
         0 2\n0 2\n0 2\nLevel_0/Cell\n",
    )
}

#[test]
fn header_fields_are_read() {
    let header = header_of(&small_header()).unwrap();
    assert_eq!(header.simulation_time, 0.25);
    assert_eq!(header.finest_level, 0);
    assert_eq!(header.domain.max.z, 2.0);
    assert_eq!(header.refinement_ratios, Vec::<usize>::new());
    assert_eq!(header.index_domains[0].max, IVec3::new(1, 1, 1));
    assert_eq!(header.level_steps, vec![7]);
    assert_eq!(header.cell_sizes[0].y, 1.0);
    assert_eq!(header.coordinate_system, CoordinateSystem::Cartesian);
    assert_eq!(header.boundary_width, 0);
    assert_eq!(header.level_records[0].path, "Level_0/Cell");
    assert_eq!(header.level_records[0].grids.len(), 1);
    let plotfile = PlotFile::new(header);
    let level = plotfile.level(0).unwrap();
    assert_eq!(level.time(), 0.25);
    assert_eq!(level.step(), 7);
    assert_eq!(level.cell_size().x, 1.0);
    assert_eq!(level.index_domain().min, IVec3::new(0, 0, 0));
}

#[test]
fn bad_headers_are_refused() {
    let swap = |from: &str, to: &str| header_of(&small_header().replace(from, to)).err();
    assert_eq!(swap("HyperCLaw", "Hyper"), Some(ParseError::UnknownFormat));
    assert_eq!(swap("density\n3\n", "density\n2\n"), Some(ParseError::Unsupported));
    assert_eq!(swap("0.25\n0\n", "x\n0\n"), Some(ParseError::InvalidValue));
    assert_eq!(swap("2 2 2", "2 2"), Some(ParseError::WrongCount));
    assert_eq!(swap("0 1 0.25", "1 1 0.25"), Some(ParseError::Mismatch));
    assert!(header_of("").is_err());
    assert_eq!(
        header_of("HyperCLaw-V1.1\n1\n").err(),
        Some(ParseError::UnexpectedEnd)
    );
    assert_eq!(
        read_header(vec![0xff, 10], &number).err(),
        Some(ParseError::InvalidText)
    );
}

fn small_cell_header() -> String {
    String::from(
        "1\n1\n1\n0\n(2 0\n((0,0,0) (1,1,1) (0,0,0))\n((2,0,0) (3,1,1) (0,0,0))\n)\n2\n\
         FabOnDisk: Cell_D_00001 0\nFabOnDisk: Cell_D_1 90\n\n2,1\n0,\n1,\n\n2,1\n2\n3\n",
    )
}

#[test]
fn data_files_share_their_first_name() {
    let header = cell_header_of(&small_cell_header()).unwrap();
    assert_eq!(header.fabs[0].file_name, "Cell_D_00001");
    assert_eq!(header.fabs[1].file_name, "Cell_D_00001");
    assert_eq!(header.fabs[1].file_offset, 90);
    assert_eq!(header.bounds.minima, vec![0.0, 1.0]);
    assert_eq!(header.bounds.maxima, vec![2.0, 3.0]);
}

#[test]
fn bad_cell_headers_are_refused() {
    let swap = |from: &str, to: &str| cell_header_of(&small_cell_header().replace(from, to)).err();
    assert_eq!(swap("1\n1\n1\n0\n(", "2\n1\n1\n0\n("), Some(ParseError::UnknownFormat));
    assert_eq!(swap("1\n1\n1\n0\n(", "1\n7\n1\n0\n("), Some(ParseError::Unsupported));
    assert_eq!(swap("1\n1\n1\n0\n(", "1\n1\n2048\n0\n("), Some(ParseError::TooManyQuantities));
    assert_eq!(swap("(2 0", "(2 5"), Some(ParseError::Unsupported));
    assert_eq!(swap("(2 0", "(2 0 1"), Some(ParseError::UnexpectedField));
    assert_eq!(swap("(2 0", "(2"), Some(ParseError::MissingField));
    assert_eq!(swap(")\n2\n", ")\n3\n"), Some(ParseError::Mismatch));
    assert_eq!(swap("Cell_D_1 90", "Cell_D_1"), Some(ParseError::MissingField));
    assert_eq!(swap("2,1\n0,", "2,2\n0,"), Some(ParseError::Mismatch));
    assert_eq!(swap("0,\n1,", "0,1,\n1,"), Some(ParseError::WrongCount));
}

#[test]
fn line_pieces_are_taken_in_turn() {
    let text = chars_of("  ((1,2) x ");
    let mut line = LineChomper::new(&text);
    line.skip('(');
    assert_eq!(line.take_till(',').iter().collect::<String>(), "1");
    assert_eq!(line.take_till(')').iter().collect::<String>(), "2");
    assert!(line.has_more());
    assert!(line.take_till(')').is_empty());
    line.skip('x');
    line.skip_whitespace();
    assert!(!line.has_more());
}

#[test]
fn numbers_are_parsed_as_rust_does() {
    let text = |s: &str| chars_of(s);
    assert_eq!(parse_usize(&text("+12")), "+12".parse().ok());
    assert_eq!(parse_usize(&text("-1")), None);
    assert_eq!(parse_usize(&text("")), None);
    assert_eq!(parse_i32(&text("-2147483648")), Some(i32::MIN));
    assert_eq!(parse_i32(&text("2147483648")), None);
    assert_eq!(parse_u64(&text("18446744073709551615")), Some(u64::MAX));
    assert_eq!(parse_u64(&text("18446744073709551616")), None);
    assert_eq!(get_cell_hash_place(&text("Cell_D_00031")), Ok(31));
    assert!(get_cell_hash_place(&text("Data_31")).is_err());
}

#[test]
fn fixed_arrays_have_their_length() {
    let parse = |t: &[char]| parse_i32(t);
    let line = chars_of("1,-2,3");
    assert_eq!(
        read_fixed_array_from_str::<i32, _, 3>(Delimiter::Char(','), &line, &parse),
        Ok(vec![1, -2, 3])
    );
    assert_eq!(
        read_fixed_array_from_str::<i32, _, 2>(Delimiter::Char(','), &line, &parse),
        Err(ParseError::WrongCount)
    );
    assert_eq!(
        read_fixed_array_from_str::<i32, _, 2>(Delimiter::Whitespace, &chars_of(" 4  x "), &parse),
        Err(ParseError::InvalidValue)
    );
}

#[test]
fn reader_trims_lines_and_stops_at_the_end() {
    let mut reader = Reader::new(b" a b \r\n\nlast".to_vec());
    assert_eq!(reader.next_line(), Ok(Some(String::from("a b"))));
    assert_eq!(reader.next_line(), Ok(Some(String::new())));
    assert_eq!(reader.demand_next_line(), Ok(String::from("last")));
    assert_eq!(reader.next_line(), Ok(None));
    assert_eq!(reader.demand_next_line(), Err(ParseError::UnexpectedEnd));
    let mut reader = Reader::new(vec![0xc3, 0x28, 10]);
    assert_eq!(reader.next_line(), Err(ParseError::InvalidText));
    let mut reader = Reader::new("ünï\u{a0}\n".as_bytes().to_vec());
    assert_eq!(reader.next_line(), Ok(Some(String::from("ünï"))));
}
