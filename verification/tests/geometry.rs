use bpt::error::{GeometryError, SizeProblem};
use bpt::geometry::{balanced_lines, builtin, Geometry, RegionSpec, RuleSetSpec, BUILTIN_TAGS, MAX_SUPPORTED_SIZE};
use bpt::inspect;
use bpt::region::{Region, RuleSet};

fn spec(row: usize, col: usize, rows: usize, cols: usize) -> RegionSpec {
    RegionSpec { row, col, rows, cols, rules: RuleSetSpec::all() }
}

fn geometry(size: usize, regions: Vec<RegionSpec>) -> Geometry {
    Geometry { tag: None, size, regions }
}

#[test]
fn skeleton_compiles_and_tests_run() {
    assert_eq!(2 + 2, 4);
}

#[test]
fn k4_every_builtin_loads_and_validates() {
    for tag in BUILTIN_TAGS {
        let geometry = builtin(tag)
            .unwrap_or_else(|| panic!("{tag} is not a built-in"))
            .unwrap_or_else(|e| panic!("{tag} failed to load: {}", e.describe()));
        assert_eq!(geometry.tag.as_deref(), Some(tag));
        assert!(geometry.validate().is_ok());
    }
    assert!(builtin("5x5").is_none());
}

#[test]
fn k4_builtin_shapes_match_their_names() {
    let cases = [("4x6x6", 12, 5), ("4x8x8", 16, 5), ("9x6x6", 18, 10), ("8in14", 14, 2), ("6in10in14", 14, 3)];
    for (tag, size, regions) in cases {
        let geometry = builtin(tag).unwrap().unwrap();
        assert_eq!(geometry.size, size, "{tag} grid size");
        assert_eq!(geometry.regions.len(), regions, "{tag} region count");
        assert!(
            geometry.regions.iter().any(|r| r.row == 0 && r.col == 0 && r.rows == size && r.cols == size),
            "{tag} has no whole-grid region"
        );
        assert!(geometry.uncovered_cells().is_empty(), "{tag} has holes");
    }
}

#[test]
fn k4_standard_is_one_region_and_rejects_odd_sizes() {
    let ten = Geometry::standard(10).unwrap();
    assert_eq!(ten.regions.len(), 1);
    assert_eq!(ten.tag, None);

    let err = Geometry::standard(9).unwrap_err();
    assert_eq!(err, GeometryError::GridSize { size: 9, reason: SizeProblem::Odd });
    let text = err.describe();
    assert!(text.contains("Remedy:"), "no remedy in: {text}");
    assert!(text.contains('8') && text.contains("10"), "no suggestion in: {text}");
}

#[test]
fn k4_out_of_bounds_region_names_the_offending_region() {
    let err = geometry(10, vec![spec(0, 0, 10, 10), spec(6, 6, 6, 6)]).validate().unwrap_err();
    match &err {
        GeometryError::RegionOutOfBounds { region, size, .. } => {
            assert_eq!(*region, 1, "the second region is the broken one");
            assert_eq!(*size, 10);
        }
        other => panic!("expected an out-of-bounds error, got {other:?}"),
    }
    let text = err.describe();
    assert!(text.contains("region 1"), "the message must name it: {text}");
    assert!(text.contains("Remedy:"), "no remedy in: {text}");
}

#[test]
fn k4_odd_region_side_is_refused_unless_balance_is_off() {
    let err = geometry(10, vec![spec(0, 0, 10, 10), spec(0, 0, 5, 4)]).validate().unwrap_err();
    assert!(matches!(err, GeometryError::RegionSideOdd { region: 1, rows: 5, cols: 4 }));

    let mut relaxed = spec(0, 0, 5, 4);
    relaxed.rules.balance = false;
    let geometry = geometry(10, vec![spec(0, 0, 10, 10), relaxed]);
    assert!(geometry.validate().is_ok());
    assert!(!geometry.regions[1].rules.balance);
    assert!(geometry.regions[1].rules.no_triples, "other rules stay on");
}

#[test]
fn ar3b_rectangular_regions_are_accepted() {
    let geometry = geometry(12, vec![spec(0, 0, 12, 12), spec(6, 0, 6, 12)]);
    assert!(geometry.validate().is_ok());
    assert_eq!(geometry.regions[1].rows, 6);
    assert_eq!(geometry.regions[1].cols, 12);
}

#[test]
fn k4_no_regions_and_empty_region_are_named_distinctly() {
    let none = geometry(8, vec![]).validate().unwrap_err();
    assert_eq!(none, GeometryError::NoRegions);
    assert!(none.describe().contains("Remedy:"));
    assert_eq!(geometry(8, vec![spec(0, 0, 0, 8)]).validate().unwrap_err(), GeometryError::RegionEmpty { region: 0 });
}

#[test]
fn ar13_5_infeasible_and_budget_exhausted_are_different_answers() {
    let infeasible = GeometryError::ProvedInfeasible { detail: "the inner and outer regions disagree on row 3".into() };
    let gave_up = GeometryError::BudgetExhausted { work_units: 500_000 };
    assert_ne!(infeasible, gave_up);
    let infeasible_text = infeasible.describe();
    let gave_up_text = gave_up.describe();
    assert!(infeasible_text.contains("no solution at all"));
    assert!(gave_up_text.contains("NOT proof"), "budget exhaustion must not read as impossibility: {gave_up_text}");
    assert!(infeasible_text.contains("Remedy:") && gave_up_text.contains("Remedy:"));
}

#[test]
fn k4_innermost_region_wins_for_nested_types() {
    let geometry = builtin("6in10in14").unwrap().unwrap();
    let centre = geometry.innermost_at(7, 7).unwrap();
    assert_eq!(geometry.regions[centre].rows, 6);
    assert_eq!(geometry.coverage_at(7, 7), 3);
    assert_eq!(geometry.coverage_at(0, 0), 1);
}

#[test]
fn k4_rule_defaults_are_all_on() {
    assert_eq!(RuleSetSpec::default(), RuleSetSpec::all());
    assert_eq!(RuleSetSpec::all(), RuleSetSpec { balance: true, no_triples: true, unique_lines: true });
}

#[test]
fn k4_a_plausible_large_size_is_accepted_not_capped() {
    for size in [16, 20, 24, 40, 100] {
        assert!(Geometry::standard(size).is_ok(), "{size} should be representable");
    }
}

#[test]
fn k4_absurd_size_is_refused_before_anything_loops_over_it() {
    let err = geometry((u32::MAX - 1) as usize, vec![]).validate().unwrap_err();
    assert_eq!(
        err,
        GeometryError::GridSize { size: (u32::MAX - 1) as usize, reason: SizeProblem::TooLarge { limit: MAX_SUPPORTED_SIZE } }
    );
    let text = err.describe();
    assert!(text.contains("guard"), "{text}");
    assert!(text.contains("Remedy:"), "{text}");
}

#[test]
fn ar6_error_messages_never_panic_on_absurd_input() {
    for size in [usize::MAX, usize::MAX - 1, 0, 1] {
        let err = GeometryError::GridSize {
            size,
            reason: if size % 2 == 0 { SizeProblem::Zero } else { SizeProblem::Odd },
        };
        let text = err.describe();
        assert!(text.contains("Remedy:"), "size {size}: {text}");
    }
}

#[test]
fn k23_a_region_too_flat_for_distinct_lines_is_refused_structurally() {
    let err = geometry(12, vec![spec(0, 0, 12, 12), spec(0, 0, 4, 12)])
        .validate()
        .expect_err("a 4x12 band cannot keep twelve columns distinct");
    assert!(matches!(
        err,
        GeometryError::RegionTooFlat { region: 1, rows: 4, cols: 12, needed: 12, available: 6, along_columns: true }
    ));
    let text = err.describe();
    assert!(text.contains("only 6 distinct"), "{text}");
    assert!(text.contains("Remedy"), "every error carries a remedy: {text}");
}

#[test]
fn k23_a_rectangular_region_that_fits_is_accepted() {
    let geometry = geometry(12, vec![spec(0, 0, 12, 12), spec(0, 0, 6, 12), spec(6, 0, 6, 12)]);
    assert!(geometry.validate().is_ok(), "6x12 halves are fillable");
}

#[test]
fn balanced_line_counts_are_central_binomials() {
    assert_eq!(balanced_lines(0), 1);
    assert_eq!(balanced_lines(2), 2);
    assert_eq!(balanced_lines(4), 6);
    assert_eq!(balanced_lines(6), 20);
    assert_eq!(balanced_lines(8), 70);
    assert_eq!(balanced_lines(3), 3);
    assert_eq!(balanced_lines(20), usize::MAX);
}

#[test]
fn specs_convert_to_regions() {
    let s = spec(2, 4, 6, 8);
    assert_eq!(s.area(), 48);
    assert!(s.contains(2, 4) && s.contains(7, 11) && !s.contains(8, 4) && !s.contains(2, 12));
    let r: Region = s.into();
    assert_eq!(r, Region { row: 2, col: 4, rows: 6, cols: 8, rules: RuleSet::all() });
    assert_eq!(s.to_region(), r);
    assert_eq!(RegionSpec::square(1, 1, 4), spec(1, 1, 4, 4));
    let rules: RuleSet = RuleSetSpec { balance: false, no_triples: true, unique_lines: false }.into();
    assert_eq!(rules, RuleSet { balance: false, no_triples: true, unique_lines: false });
    let g = builtin("8in14").unwrap().unwrap();
    assert_eq!(g.to_regions(), vec![Region::square(3, 3, 8), Region::square(0, 0, 14)]);
}

#[test]
fn inspect_snapshots_m6_renders_a_standard_grid() {
    let rendered = inspect::render(&Geometry::standard(4).unwrap());
    assert!(rendered.contains("every cell constrained"), "{rendered}");
    assert!(!rendered.contains("Remedy:"), "{rendered}");
}

#[test]
fn inspect_snapshots_m6_renders_every_builtin() {
    for tag in BUILTIN_TAGS {
        let rendered = inspect::render(&builtin(tag).unwrap().unwrap());
        assert!(rendered.contains("every cell constrained"), "{tag}: {rendered}");
    }
}

#[test]
fn inspect_snapshots_m6_reports_uncovered_cells_with_a_remedy() {
    let holed = geometry(8, vec![spec(0, 0, 8, 6)]);
    assert_eq!(holed.uncovered_cells().len(), 16);
    assert_eq!(holed.uncovered_cells()[0], (0, 6));
    let rendered = inspect::render(&holed);
    assert!(rendered.contains("covered by no region"), "{rendered}");
    assert!(rendered.contains("Remedy:"), "{rendered}");
}

#[test]
fn m6_render_refuses_an_unvalidated_geometry_instead_of_looping() {
    let bogus = Geometry { tag: None, size: usize::MAX, regions: vec![] };
    let rendered = inspect::render(&bogus);
    assert!(rendered.contains("cannot be rendered"), "{rendered}");
    assert!(rendered.contains("Remedy:"), "{rendered}");
}

#[test]
fn m6_renders_a_standard_grid() {
    inspect_snapshots_m6_renders_a_standard_grid();
}

#[test]
fn m6_renders_every_builtin() {
    inspect_snapshots_m6_renders_every_builtin();
}

#[test]
fn m6_reports_uncovered_cells_with_a_remedy() {
    inspect_snapshots_m6_reports_uncovered_cells_with_a_remedy();
}
