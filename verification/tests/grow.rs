use kannaka_hdl::grow::{
    fnv1a64, grow, grow_checked, GrowError, Leaf, Plan, UnresolvedMode, COMPILER_VERSION,
    DOMAIN_CRYSTAL, MAX_DEPTH,
};
use kannaka_hdl::parser::parse;

const BANK: &str = r#"
        cell MemoryBank(n) {
            when n > 1  => split MemoryBank(n / 2), MemoryBank(n / 2) bridge "Harmonic Bridge"
            when always => base "Memory Seed" min_persistence 0.4
        }
        grow MemoryBank(8)
    "#;

/// The rectangle `(x, y, w, h)` of a region reached through `slices`:
/// the `index`-th of `count` equal slices at each depth, horizontal at
/// even depths and vertical at odd ones.
fn region(slices: &[kannaka_hdl::grow::Slice]) -> (f64, f64, f64, f64) {
    let (mut x, mut y, mut w, mut h) = (0.0f64, 0.0f64, 1.0f64, 1.0f64);
    for (depth, s) in slices.iter().enumerate() {
        let k = s.count as f64;
        let f = s.index as f64;
        if depth % 2 == 0 {
            x += w * f / k;
            w /= k;
        } else {
            y += h * f / k;
            h /= k;
        }
    }
    (x, y, w, h)
}

fn leaf_region(l: &Leaf) -> (f64, f64, f64, f64) {
    region(&l.slices)
}

/// The serialization whose hash is the plan hash, in these tests.
fn debug_render(p: &Plan) -> String {
    format!("{p:?}")
}

#[test]
fn binary_bank_grows_8_leaves_7_bridges() {
    let plan = grow(&parse(BANK).unwrap()).unwrap();
    assert_eq!(plan.leaves.len(), 8);
    // A full binary tree over 8 leaves has 7 internal splits, each
    // bridging its 2 children once.
    assert_eq!(plan.bridges.len(), 7);
    // All leaves inside the unit square, distinct positions.
    for l in &plan.leaves {
        let (x, y, w, h) = leaf_region(l);
        assert!(x >= 0.0 && x + w <= 1.0 + 1e-9);
        assert!(y >= 0.0 && y + h <= 1.0 + 1e-9);
    }
    let mut centers: Vec<(i64, i64)> = plan
        .leaves
        .iter()
        .map(|l| {
            let (x, y, w, h) = leaf_region(l);
            (((x + w / 2.0) * 1e6) as i64, ((y + h / 2.0) * 1e6) as i64)
        })
        .collect();
    centers.sort();
    centers.dedup();
    assert_eq!(centers.len(), 8, "leaf regions must not overlap");
}

#[test]
fn plan_carries_schema_identity() {
    let plan = grow(&parse(BANK).unwrap()).unwrap();
    assert_eq!(plan.schema_version, "2");
    assert_eq!(plan.compiler_version, "0.9.0");
    assert_eq!(plan.compiler_version, COMPILER_VERSION);
    assert_eq!(plan.unresolved_mode, UnresolvedMode::Speculative);
    assert!(plan.leaves.iter().all(|l| l.domain == DOMAIN_CRYSTAL));
    assert!(plan.bridges.iter().all(|b| b.domain == DOMAIN_CRYSTAL));
    assert!(plan.program_hash.is_empty(), "hashes are set by seal()");
}

#[test]
fn seal_hashes_are_deterministic_and_source_sensitive() {
    let mut a = grow(&parse(BANK).unwrap()).unwrap();
    let mut b = grow(&parse(BANK).unwrap()).unwrap();
    a.seal(BANK, debug_render);
    b.seal(BANK, debug_render);
    assert_eq!(a.program_hash, b.program_hash);
    assert_eq!(a.plan_hash, b.plan_hash);
    assert!(a.program_hash.starts_with("fnv1a64:"));
    assert_ne!(a.program_hash, a.plan_hash);

    let other = BANK.replace("MemoryBank(8)", "MemoryBank(4)");
    let mut c = grow(&parse(&other).unwrap()).unwrap();
    c.seal(&other, debug_render);
    assert_ne!(a.program_hash, c.program_hash);
    assert_ne!(a.plan_hash, c.plan_hash);
}

#[test]
fn missing_base_case_is_a_runaway_error() {
    let src = r#"
            cell Loop(n) {
                when always => split Loop(n), Loop(n)
            }
            grow Loop(1)
        "#;
    let err = grow(&parse(src).unwrap()).unwrap_err();
    assert!(matches!(err, GrowError::Runaway));
}

#[test]
fn guards_select_rules_and_arity_is_checked() {
    let src = r#"
            cell X(n) {
                when n >= 3 => base "Echo Ring"
                when always => base "Memory Seed"
            }
            grow X(3)
        "#;
    let plan = grow(&parse(src).unwrap()).unwrap();
    assert_eq!(plan.leaves[0].query.class, "Echo Ring");

    let bad = r#"
            cell X(n) { when always => base "Seed" }
            grow X(1, 2)
        "#;
    assert!(matches!(
        grow(&parse(bad).unwrap()).unwrap_err(),
        GrowError::Arity { .. }
    ));
}

#[test]
fn heterogeneous_split_and_no_rule_error() {
    let src = r#"
            cell Pair(n) {
                when n > 0 => split Ring(), Seed()
            }
            cell Ring() { when always => base "Echo Ring" }
            cell Seed() { when always => base "Memory Seed" }
            grow Pair(1)
        "#;
    let plan = grow(&parse(src).unwrap()).unwrap();
    let classes: Vec<&str> = plan.leaves.iter().map(|l| l.query.class.as_str()).collect();
    assert_eq!(classes, vec!["Echo Ring", "Memory Seed"]);

    let dead = r#"
            cell X(n) { when n > 5 => base "Seed" }
            grow X(1)
        "#;
    assert!(matches!(
        grow(&parse(dead).unwrap()).unwrap_err(),
        GrowError::NoRule { .. }
    ));
}

#[test]
fn growth_error_messages() {
    let dead = parse("cell X(n) { when n > 5 => base \"Seed\" }\ngrow X(1)").unwrap();
    assert_eq!(grow(&dead).unwrap_err().to_string(), "no rule matched X([1])");
    let unknown = parse("grow Nowhere()").unwrap();
    assert_eq!(grow(&unknown).unwrap_err().to_string(), "unknown cell: Nowhere");
    let arity = parse("cell X(n) { when always => base \"Seed\" }\ngrow X(1, 2)").unwrap();
    assert_eq!(grow(&arity).unwrap_err().to_string(), "cell X expects 1 arg(s), got 2");
    let div = parse("cell X(n) { when n / 0 > 1 => base \"Seed\" }\ngrow X(1)").unwrap();
    assert_eq!(grow(&div).unwrap_err().to_string(), "division by zero in cell X");
    assert_eq!(
        GrowError::Runaway.to_string(),
        "growth exceeded limits (max depth 32, max leaves 4096) \u{2014} missing base case?"
    );
}

#[test]
fn integer_division_truncates_and_guards_go_in_order() {
    // 7 / 2 == 3 and 3 / 2 == 1: a 7-bank splits 7 -> 3,3 -> 1,1,1,1.
    let src = r#"
            cell B(n) {
                when n > 1  => split B(n / 2), B(n / 2)
                when always => base "Seed"
            }
            grow B(7)
        "#;
    let plan = grow(&parse(src).unwrap()).unwrap();
    assert_eq!(plan.leaves.len(), 4);
    assert!(plan.bridges.is_empty());
}

#[test]
fn arithmetic_outside_i64_is_reported_by_the_checked_grower() {
    let src = "cell X(n) { when n * n > 0 => base \"Seed\" }\ngrow X(9223372036854775807)";
    let program = parse(src).unwrap();
    assert!(grow_checked(&program).is_none());
}

#[test]
fn grown_leaves_stay_within_the_depth_bound() {
    // Law: every leaf sits at most MAX_DEPTH deep, one slice per level.
    let src = r#"
            cell Deep(n) {
                when n > 0  => split Deep(n - 1), Deep(0)
                when always => base "Seed"
            }
            grow Deep(31)
        "#;
    let plan = grow(&parse(src).unwrap()).unwrap();
    assert!(plan.leaves.iter().all(|l| l.depth <= MAX_DEPTH && l.slices.len() == l.depth));
    assert!(plan.bridges.iter().all(|b| b.pair + 1 < b.siblings && b.parent.len() == b.depth));
    let too_deep = parse(&src.replace("Deep(31)", "Deep(40)")).unwrap();
    assert!(matches!(grow(&too_deep).unwrap_err(), GrowError::Runaway));
}

#[test]
fn fnv_hash_of_known_inputs() {
    assert_eq!(fnv1a64(b""), "fnv1a64:cbf29ce484222325");
    assert_eq!(fnv1a64(b"a"), "fnv1a64:af63dc4c8601ec8c");
    assert_eq!(fnv1a64(b"foobar").len(), 24);
}

#[test]
fn seal_stamps_the_program_hash_of_the_source() {
    let mut a = grow(&parse(BANK).unwrap()).unwrap();
    a.seal(BANK, debug_render);
    assert_eq!(a.program_hash, fnv1a64(BANK.as_bytes()));
    assert!(a.plan_hash.starts_with("fnv1a64:"));
}

#[test]
fn growth_stops_at_the_leaf_bound() {
    // A 4096-leaf bank grows; one more leaf from a second statement is
    // past the bound.
    let bank = r#"
            cell B(n) {
                when n > 0  => split B(n - 1), B(n - 1)
                when always => base "Seed"
            }
            cell S() { when always => base "Seed" }
            grow B(12)
        "#;
    let plan = grow(&parse(bank).unwrap()).unwrap();
    assert_eq!(plan.leaves.len(), 4096);
    let more = format!("{bank}\ngrow S()");
    assert!(matches!(grow(&parse(&more).unwrap()).unwrap_err(), GrowError::Runaway));
    let wider = bank.replace("B(12)", "B(13)");
    assert!(matches!(grow(&parse(&wider).unwrap()).unwrap_err(), GrowError::Runaway));
}

#[test]
fn leaf_paths_part_under_one_growth() {
    // Law: two leaves of one growth take different slices of the same
    // split below a common stretch of their paths.
    let src = r#"
            cell T(n) {
                when n > 1  => split T(n - 1), T(n - 2), Leaf()
                when always => base "Seed"
            }
            cell Leaf() { when always => base "Echo Ring" }
            grow T(5)
        "#;
    let plan = grow(&parse(src).unwrap()).unwrap();
    let paths: Vec<&Vec<kannaka_hdl::grow::Slice>> = plan.leaves.iter().map(|l| &l.slices).collect();
    for a in 0..paths.len() {
        for b in (a + 1)..paths.len() {
            let (pa, pb) = (paths[a], paths[b]);
            let d = pa.iter().zip(pb.iter()).take_while(|(x, y)| x == y).count();
            assert!(d < pa.len() && d < pb.len(), "neither path extends the other");
            assert_eq!(pa[d].count, pb[d].count);
            assert_ne!(pa[d].index, pb[d].index);
        }
    }
    // Two growths start over from the whole square, so their leaves can coincide.
    let twice = parse("cell S() { when always => base \"Seed\" }\ngrow S()\ngrow S()").unwrap();
    let plan = grow(&twice).unwrap();
    assert_eq!(plan.leaves[0].slices, plan.leaves[1].slices);
}
