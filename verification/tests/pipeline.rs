use kannaka_hdl::grow::{fnv1a64, grow, UnresolvedMode, DOMAIN_CRYSTAL, DOMAIN_MEMORY};
use kannaka_hdl::parser::parse;
use kannaka_hdl::pipeline::{
    check_summary, on_registry_missing, queries_domain, resolution_gate, skip_resolution,
    RegistryMissing,
};
use kannaka_hdl::registry::{resolve_plan, FixtureProvider};

const BANK: &str = r#"
        cell MemoryBank(n) {
            when n > 1  => split MemoryBank(n / 2), MemoryBank(n / 2) bridge "Harmonic Bridge"
            when always => base "Memory Seed" min_persistence 0.3
        }
        grow MemoryBank(8)
    "#;

#[test]
fn check_summarizes_counts_depth_and_hash() {
    let program = parse(BANK).unwrap();
    let plan = grow(&program).unwrap();
    let expected = format!(
        "ok: 1 cell(s), grown MemoryBank -> 8 leaves, 7 bridges, max depth 3, program {}",
        fnv1a64(BANK.as_bytes())
    );
    assert_eq!(check_summary(&program, &plan, BANK), expected);
}

#[test]
fn plans_only_need_the_registries_they_query() {
    let plan = grow(&parse(BANK).unwrap()).unwrap();
    assert!(queries_domain(&plan, DOMAIN_CRYSTAL));
    assert!(!queries_domain(&plan, DOMAIN_MEMORY));
    let mind = grow(&parse("cell M() { when always => base memory.glyph \"G\" }\ngrow M()").unwrap()).unwrap();
    assert!(!queries_domain(&mind, DOMAIN_CRYSTAL));
    assert!(queries_domain(&mind, DOMAIN_MEMORY));
}

#[test]
fn missing_registries_under_each_policy() {
    assert_eq!(on_registry_missing(UnresolvedMode::Strict, true), RegistryMissing::Refuse);
    assert_eq!(on_registry_missing(UnresolvedMode::Stub, true), RegistryMissing::Warn);
    assert_eq!(on_registry_missing(UnresolvedMode::Speculative, true), RegistryMissing::Warn);
    assert_eq!(on_registry_missing(UnresolvedMode::Strict, false), RegistryMissing::Skip);
    assert_eq!(
        skip_resolution(UnresolvedMode::Strict).unwrap_err(),
        "--unresolved strict requires registry resolution (drop --no-resolve)"
    );
    assert!(skip_resolution(UnresolvedMode::Stub).is_ok());
}

#[test]
fn strict_mode_refuses_unresolved_plans() {
    let mut plan = grow(&parse(BANK).unwrap()).unwrap();
    let empty = FixtureProvider::new(vec![]);
    resolve_plan(&mut plan, &[&empty]);
    assert!(resolution_gate(&plan).is_ok(), "speculative ships");
    plan.unresolved_mode = UnresolvedMode::Strict;
    assert_eq!(
        resolution_gate(&plan).unwrap_err(),
        "strict mode: 15 component(s) unresolved \u{2014} the swarm has not grown them yet (see warnings above)"
    );
}
