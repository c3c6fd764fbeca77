use bpt::completion::can_complete;
use bpt::grid::{Cell, Grid};
use bpt::parse::{parse_corpus_file, parse_grid_chars, parse_line, serialize, ParseError};
use bpt::region::{validate_givens, validate_partial, validate_solution, PuzzleKind, Region, RuleSet, Violation};
use bpt::strategy::{
    AvoidTriple, CountingArgument, FillByCount, FillPossibilities, FindDuo, KeepLineUnique,
    LineView, Strategy,
};

fn grid(s: &str, n: usize) -> Grid {
    Grid::from_cells(n, parse_grid_chars(s).unwrap())
}

fn whole(n: usize) -> Region {
    Region { row: 0, col: 0, rows: n, cols: n, rules: RuleSet::all() }
}

/// Apply one strategy to a single line laid out as row 0 of a grid,
/// returning the line after applying the deductions.
fn apply_to_line<S: Strategy>(strategy: &S, line: &str) -> String {
    let n = line.len();
    let mut cells = vec![Cell::Empty; n * n];
    for (i, c) in parse_grid_chars(line).unwrap().into_iter().enumerate() {
        cells[i] = c;
    }
    let mut grid = Grid::from_cells(n, cells);
    let deductions = {
        let view = LineView::new(&grid, whole(n), true, 0);
        strategy.apply(&view)
    };
    for d in deductions {
        grid.set(d.row, d.col, d.value);
    }
    (0..n).map(|c| grid.get(0, c).to_char()).collect()
}

// ---- grid ----

#[test]
fn k7_cell_char_round_trip() {
    for c in ['0', '1', '.'] {
        assert_eq!(Cell::from_char(c).unwrap().to_char(), c);
    }
    assert_eq!(Cell::from_char('x'), None);
    assert_eq!(Cell::from_char('\r'), None);
}

#[test]
fn k7_grid_indexing_row_major() {
    let mut g = Grid::empty(6);
    g.set(2, 3, Cell::One);
    assert_eq!(g.get(2, 3), Cell::One);
    assert_eq!(g.cells()[2 * 6 + 3], Cell::One);
    assert_eq!(g.filled_count(), 1);
    assert!(!g.is_complete());
}

#[test]
fn k7_grid_line_round_trip() {
    let line = "10..01..1";
    let cells: Vec<Cell> = line.chars().map(|c| Cell::from_char(c).unwrap()).collect();
    let g = Grid::from_cells(3, cells);
    assert_eq!(g.to_line(), line);
}

#[test]
fn grid_opposite_and_emptiness() {
    assert_eq!(Cell::Zero.opposite(), Some(Cell::One));
    assert_eq!(Cell::One.opposite(), Some(Cell::Zero));
    assert_eq!(Cell::Empty.opposite(), None);
    assert!(Cell::Empty.is_empty());
    assert!(!Cell::Zero.is_empty());
}

#[test]
fn grid_render_writes_one_row_per_line() {
    let g = grid("01.1", 2);
    assert_eq!(g.render(), "0 1\n. 1\n");
}

// ---- parse ----

#[test]
fn k7_untagged_size_inference() {
    let p = parse_line(&".".repeat(36)).unwrap();
    assert_eq!(p.kind, PuzzleKind::Standard { n: 6 });
}

#[test]
fn k7_tagged_parse_and_round_trip() {
    let line = format!("8in14:{}", ".".repeat(196));
    let p = parse_line(&line).unwrap();
    assert_eq!(p.kind, PuzzleKind::EightIn14);
    assert_eq!(serialize(&p), line);
}

#[test]
fn k7_crlf_tolerated() {
    let line = format!("{}\r", ".".repeat(16));
    let p = parse_line(&line).unwrap();
    assert_eq!(p.kind, PuzzleKind::Standard { n: 4 });
}

#[test]
fn k7_error_classes_carry_remedies() {
    let cases: Vec<(String, &str)> = vec![
        (String::new(), "line is empty"),
        (format!("7x7x7:{}", ".".repeat(36)), "unknown puzzle type tag"),
        ("1..0x0..1".to_string(), "invalid character"),
        (format!("4x8x8:{}", ".".repeat(64)), "requires exactly 256"),
        (".".repeat(35), "not a square"),
        (".".repeat(25), "even side length"),
    ];
    for (line, expected) in cases {
        let err = parse_line(&line).unwrap_err().describe();
        assert!(err.contains(expected), "{line:?} -> {err}");
    }
}

#[test]
fn k7_multibyte_input_is_error_not_panic() {
    let err = parse_line("1..0é0...").unwrap_err();
    assert!(matches!(err, ParseError::InvalidChar { .. }));
}

#[test]
fn m4_corpus_file_with_solution() {
    let content = format!("{}\nsolution:{}\n", ".1..".to_owned() + &".".repeat(12), "0110100101101001");
    let (p, sol) = parse_corpus_file(&content).unwrap();
    assert_eq!(p.givens.size(), 4);
    assert!(sol.unwrap().is_complete());
}

#[test]
fn m4_corpus_bad_solution_prefix() {
    let content = format!("{}\nanswer:0110\n", ".".repeat(16));
    assert!(matches!(parse_corpus_file(&content), Err(ParseError::BadSolutionLine { .. })));
}

#[test]
fn parse_errors_name_their_position_and_counts() {
    assert_eq!(parse_line(""), Err(ParseError::EmptyLine));
    assert_eq!(parse_line("\r"), Err(ParseError::EmptyLine));
    assert_eq!(parse_line("1..0x0..1"), Err(ParseError::InvalidChar { position: 4, found: 'x' }));
    assert_eq!(parse_line(&".".repeat(35)), Err(ParseError::NotSquare { got: 35 }));
    assert_eq!(parse_line(&".".repeat(25)), Err(ParseError::OddSize { n: 5 }));
    assert_eq!(
        parse_line(&format!("4x8x8:{}", ".".repeat(64))),
        Err(ParseError::TagLengthMismatch { tag: "4x8x8".to_string(), expected: 256, got: 64 })
    );
    assert_eq!(
        parse_line(&format!("7x7x7:{}", ".".repeat(36))),
        Err(ParseError::UnknownTag { tag: "7x7x7".to_string() })
    );
}

#[test]
fn parse_serialize_round_trips_every_known_tag() {
    for (tag, n) in [("4x6x6", 12usize), ("4x8x8", 16), ("9x6x6", 18), ("8in14", 14), ("6in10in14", 14)] {
        let line = format!("{}:{}", tag, ".".repeat(n * n));
        let p = parse_line(&line).unwrap();
        assert_eq!(p.givens.size(), n);
        assert_eq!(serialize(&p), line);
        assert_eq!(parse_line(&serialize(&p)).unwrap(), p);
    }
    let untagged = "1.0.0..1.1..0..1";
    assert_eq!(serialize(&parse_line(untagged).unwrap()), untagged);
}

#[test]
fn corpus_solution_length_is_checked() {
    let content = format!("{}\nsolution:0110\n", ".".repeat(16));
    assert_eq!(
        parse_corpus_file(&content),
        Err(ParseError::SolutionLengthMismatch { expected: 16, got: 4 })
    );
    let (_, sol) = parse_corpus_file(&".".repeat(16)).unwrap();
    assert!(sol.is_none());
}

// ---- region ----

#[test]
fn k2_region_decompositions_have_expected_shapes() {
    assert_eq!(PuzzleKind::Standard { n: 8 }.regions().len(), 1);
    assert_eq!(PuzzleKind::FourTimes6x6.regions().len(), 5);
    assert_eq!(PuzzleKind::FourTimes8x8.regions().len(), 5);
    assert_eq!(PuzzleKind::NineTimes6x6.regions().len(), 10);
    assert_eq!(PuzzleKind::EightIn14.regions().len(), 2);
    assert_eq!(PuzzleKind::SixIn10In14.regions().len(), 3);
    let inner = PuzzleKind::SixIn10In14.regions()[0];
    assert_eq!((inner.row, inner.col, inner.rows, inner.cols), (4, 4, 6, 6));
}

#[test]
fn m3_valid_4x4_passes() {
    let g = grid("0011110001011010", 4);
    let regions = PuzzleKind::Standard { n: 4 }.regions();
    assert!(validate_solution(&g, &regions).is_empty());
}

#[test]
fn m3_k6_imbalance_named() {
    let g = grid("0110100101100110", 4);
    let regions = PuzzleKind::Standard { n: 4 }.regions();
    let v = validate_solution(&g, &regions);
    assert!(!v.is_empty());
    let text = v.iter().map(|x| x.describe()).collect::<Vec<_>>().join("\n");
    assert!(text.contains("identical") || text.contains("zeros"), "{text}");
}

#[test]
fn m3_k6_triple_detected_and_named() {
    let g = grid("0001111000010111", 4);
    let regions = PuzzleKind::Standard { n: 4 }.regions();
    let v = validate_solution(&g, &regions);
    assert!(v.iter().any(|x| matches!(x, Violation::Triple { .. })));
    let text = v.iter().map(|x| x.describe()).collect::<Vec<_>>().join(" ");
    assert!(text.contains("three consecutive"), "{text}");
}

#[test]
fn m3_given_changed_detected() {
    let givens = grid("0...............", 4);
    let solution = grid("1010010110100101", 4);
    let v = validate_givens(&givens, &solution);
    assert_eq!(v.len(), 1);
    assert!(v[0].describe().contains("givens may not change"));
}

#[test]
fn m3_incomplete_detected() {
    let g = grid("0110.00101101001", 4);
    let regions = PuzzleKind::Standard { n: 4 }.regions();
    let v = validate_solution(&g, &regions);
    assert!(matches!(v[0], Violation::Incomplete { empty_cells: 1 }));
}

#[test]
fn violations_of_each_rule_are_reported_exactly() {
    // Row 0 and row 1 are the same line.
    let g = grid("0101010110101010", 4);
    let v = validate_solution(&g, &[whole(4)]);
    assert!(v.iter().any(|x| matches!(x, Violation::DuplicateLines { is_row: true, first: 0, second: 1, .. })));
    // Too many ones in row 0 of a 4x4.
    let g = grid("1101001010100101", 4);
    let v = validate_solution(&g, &[whole(4)]);
    assert!(v.iter().any(|x| matches!(x, Violation::Imbalance { is_row: true, index: 0, zeros: 1, ones: 3, .. })));
}

// ---- strategies ----

#[test]
fn strategy_k3_find_duo_readme_scenario() {
    assert_eq!(apply_to_line(&FindDuo, ".00."), "1001");
    assert_eq!(apply_to_line(&FindDuo, ".11."), "0110");
    assert_eq!(apply_to_line(&FindDuo, "00.."), "001.");
}

#[test]
fn strategy_k3_avoid_triple_readme_scenario() {
    assert_eq!(apply_to_line(&AvoidTriple, "0.0"), "010");
    assert_eq!(apply_to_line(&AvoidTriple, "1.1"), "101");
    assert_eq!(apply_to_line(&AvoidTriple, "0.1"), "0.1");
}

#[test]
fn strategy_k3_fill_by_count() {
    assert_eq!(apply_to_line(&FillByCount, "00.0.."), "001011");
    assert_eq!(apply_to_line(&FillByCount, "11.1.."), "110100");
    assert_eq!(apply_to_line(&FillByCount, "01...."), "01....");
}

#[test]
fn k3_keep_line_unique_readme_scenario() {
    let mut cells = vec![Cell::Empty; 16];
    for (i, c) in parse_grid_chars("1001").unwrap().into_iter().enumerate() {
        cells[i] = c;
    }
    for (i, c) in parse_grid_chars("10..").unwrap().into_iter().enumerate() {
        cells[4 + i] = c;
    }
    let mut grid = Grid::from_cells(4, cells);
    let deductions = {
        let view = LineView::new(&grid, whole(4), true, 1);
        KeepLineUnique.apply(&view)
    };
    assert_eq!(deductions.len(), 2);
    for d in &deductions {
        grid.set(d.row, d.col, d.value);
    }
    let row1: String = (0..4).map(|c| grid.get(1, c).to_char()).collect();
    assert_eq!(row1, "1010");
}

#[test]
fn k3_counting_argument_virtual_limit_readme_scenario() {
    assert_eq!(apply_to_line(&CountingArgument, "001..0.."), "001..011");
}

#[test]
fn k3_fill_possibilities_readme_scenarios() {
    let out = apply_to_line(&FillPossibilities, "01...010");
    assert_eq!(out, "01..1010");
    let out = apply_to_line(&FillPossibilities, "0....0");
    assert_eq!(out.chars().nth(1).unwrap(), '1', "{out}");
    assert_eq!(out.chars().nth(4).unwrap(), '1', "{out}");
    let out = apply_to_line(&FillPossibilities, "001...");
    assert_eq!(out.chars().nth(5).unwrap(), '1', "{out}");
}

#[test]
fn k3_fill_possibilities_uniqueness_filter_site_example() {
    let mut cells = vec![Cell::Empty; 36];
    for (i, c) in parse_grid_chars("010011").unwrap().into_iter().enumerate() {
        cells[i] = c;
    }
    for (i, c) in parse_grid_chars("010..1").unwrap().into_iter().enumerate() {
        cells[6 + i] = c;
    }
    let mut grid = Grid::from_cells(6, cells);
    let deductions = {
        let view = LineView::new(&grid, whole(6), true, 1);
        FillPossibilities.apply(&view)
    };
    for d in &deductions {
        grid.set(d.row, d.col, d.value);
    }
    let row1: String = (0..6).map(|c| grid.get(1, c).to_char()).collect();
    assert_eq!(row1, "010101");
}

#[test]
fn k3_can_complete_dp() {
    let parse = |s: &str| parse_grid_chars(s).unwrap();
    assert!(can_complete(&parse("......")));
    assert!(can_complete(&parse("0101..")));
    assert!(!can_complete(&parse("00100.")));
    assert!(!can_complete(&parse("000...")));
    assert!(!can_complete(&parse("1.1100.1")));
}

#[test]
fn strategy_k2_line_view_maps_region_coordinates() {
    let grid = Grid::empty(14);
    let inner = PuzzleKind::SixIn10In14.regions()[0];
    let view = LineView::new(&grid, inner, true, 2);
    assert_eq!(view.pos(0), (6, 4));
    assert_eq!(view.pos(5), (6, 9));
    assert_eq!(view.line_index(), 6);
}

#[test]
fn column_views_read_down_the_grid() {
    let g = grid("0.1.0.....1.1...", 4);
    let view = LineView::new(&g, whole(4), false, 0);
    assert_eq!(view.len(), 4);
    assert!(!view.is_row());
    assert_eq!(view.pos(3), (3, 0));
    let col: String = view.cells().iter().map(|c| c.to_char()).collect();
    assert_eq!(col, "00.1");
}

#[test]
fn k3_find_duo_readme_scenario() {
    strategy_k3_find_duo_readme_scenario();
}

#[test]
fn k3_avoid_triple_readme_scenario() {
    strategy_k3_avoid_triple_readme_scenario();
}

#[test]
fn k3_fill_by_count() {
    strategy_k3_fill_by_count();
}

#[test]
fn k2_line_view_maps_region_coordinates() {
    strategy_k2_line_view_maps_region_coordinates();
}

#[test]
fn a_composed_puzzle_reads_back_as_itself() {
    let kind = bpt::compose::compose_from_tag("4x6x6in16").expect("the tag follows the grammar");
    assert_eq!(kind.size, 16);
    assert_eq!(kind.regions.len(), 6);
    let mut givens = Grid::empty(16);
    givens.set(0, 0, Cell::One);
    givens.set(15, 15, Cell::Zero);
    let puzzle = bpt::region::Puzzle::composed(givens, kind.regions.clone(), "4x6x6in16".to_string());
    let line = serialize(&puzzle);
    assert!(line.starts_with("4x6x6in16:1"), "{line}");
    let again = parse_line(&line).unwrap();
    assert_eq!(again, puzzle);
    assert_eq!(again.regions(), kind.regions);
    assert!(bpt::compose::compose_from_tag("4x6x6in15").is_none());
    assert!(bpt::compose::compose_from_tag("x").is_none());
}

#[test]
fn on_a_complete_grid_a_clean_partial_check_is_a_clean_full_check() {
    let regions = vec![Region::square(0, 0, 4)];
    let good = parse_line("0011110001011010").unwrap().givens;
    assert!(validate_partial(&good, &regions).is_empty());
    assert!(validate_solution(&good, &regions).is_empty());
    let bad = parse_line("0101010110101010").unwrap().givens;
    assert!(!validate_partial(&bad, &regions).is_empty());
    assert!(!validate_solution(&bad, &regions).is_empty());
}
