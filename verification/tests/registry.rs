use kannaka_hdl::grow::{grow, DOMAIN_MEMORY};
use kannaka_hdl::number::Decimal;
use kannaka_hdl::parser::{parse, Query, Strategy};
use kannaka_hdl::registry::{
    normalize, passed_capabilities, resolve_component, resolve_plan, unresolved_count, FixtureProvider, Primitive,
    Provider, Registry, Resolved, StrategyState, PROVIDER_CRYSTAL, PROVIDER_FIXTURE,
};

fn dec(text: &str) -> Decimal {
    Decimal::parse(text).unwrap()
}

/// The three rows of the test registry.
fn fake_registry() -> Registry {
    let row = |id: &str, class: &str, persistence: &str, noise: &str, material: &str| Primitive {
        id: id.to_string(),
        class: class.to_string(),
        persistence: dec(persistence),
        noise_tolerance: dec(noise),
        material_id: material.to_string(),
        evidence_level: None,
        capabilities: vec![],
    };
    Registry::new(
        vec![
            row("CRY-000001", "MemorySeed", "0.7", "0.9", "metamaterial"),
            row("CRY-000002", "MemorySeed", "0.5", "0.9", "silicon"),
            row("CRY-000003", "HarmonicBridge", "0.6", "0.8", "metamaterial"),
        ],
        "registry.json".to_string(),
    )
}

/// A crystal-domain query with defaults, floors aside.
fn query(class: &str, min_persistence: &str) -> Query {
    Query {
        domain: "crystal".into(),
        component_type: None,
        class: class.into(),
        min_persistence: dec(min_persistence),
        min_noise_tolerance: Decimal::zero(),
        min_evidence: 0,
        capability: None,
        material: None,
        strategy: Strategy::Best,
    }
}

fn seed(id: &str, persistence: &str, noise_tolerance: &str) -> Resolved {
    Resolved {
        provider: PROVIDER_FIXTURE,
        id: id.into(),
        class: "MemorySeed".into(),
        persistence: dec(persistence),
        noise_tolerance: dec(noise_tolerance),
        material: "ideal_resonator".into(),
        evidence_level: 1,
        capabilities: vec![],
    }
}

const UNBRIDGED_BANK: &str = r#"
        cell Bank(n) {
            when n > 1  => split Bank(n / 2), Bank(n / 2)
            when always => base "Memory Seed" strategy STRAT
        }
        grow Bank(4)
    "#;

#[test]
fn fixture_provider_resolves_without_any_registry_file() {
    let fixture = FixtureProvider::new(vec![
        Resolved {
            provider: PROVIDER_FIXTURE,
            id: "FIX-000001".into(),
            class: "MemorySeed".into(),
            persistence: dec("0.9"),
            noise_tolerance: dec("0.9"),
            material: "ideal_resonator".into(),
            evidence_level: 1,
            capabilities: vec![],
        },
        Resolved {
            provider: PROVIDER_FIXTURE,
            id: "FIX-000002".into(),
            class: "HarmonicBridge".into(),
            persistence: dec("0.5"),
            noise_tolerance: dec("0.5"),
            material: "ideal_resonator".into(),
            evidence_level: 1,
            capabilities: vec![],
        },
    ]);

    let src = r#"
            cell Bank(n) {
                when n > 1  => split Bank(n / 2), Bank(n / 2) bridge "Harmonic Bridge"
                when always => base "Memory Seed" min_persistence 0.4
            }
            grow Bank(4)
        "#;
    let mut plan = grow(&parse(src).unwrap()).unwrap();
    resolve_plan(&mut plan, &[&fixture]);

    assert_eq!(unresolved_count(&plan), 0);
    assert!(plan
        .leaves
        .iter()
        .all(|l| l.resolved.as_ref().unwrap().provider == PROVIDER_FIXTURE));
    assert!(plan.bridges.iter().all(|b| b.resolved.is_some()));
    assert_eq!(plan.registry_snapshots[0].provider, PROVIDER_FIXTURE);
    assert_eq!(plan.registry_snapshots[0].source, "(static fixture)");
    // Same query semantics as the Crystal registry: floor excludes.
    assert!(fixture.resolve_query(&query("Memory Seed", "0.95")).is_none());
}

#[test]
fn robust_strategy_prefers_noise_tolerance_over_persistence() {
    let fixture = FixtureProvider::new(vec![seed("FIX-A", "0.9", "0.5"), seed("FIX-B", "0.5", "0.95")]);
    let mut q = query("Memory Seed", "0.0");
    q.strategy = Strategy::Robust;
    let mut state = StrategyState::default();
    let (picked, _) = resolve_component(&[&fixture], &q, &mut state);
    assert_eq!(picked.unwrap().id, "FIX-B");
}

#[test]
fn unique_strategy_claims_distinct_components_then_warns() {
    let fixture = FixtureProvider::new(vec![
        seed("FIX-A", "0.9", "0.5"),
        seed("FIX-B", "0.8", "0.5"),
        seed("FIX-C", "0.7", "0.5"),
    ]);
    let src = UNBRIDGED_BANK.replace("STRAT", "unique");
    let mut plan = grow(&parse(&src).unwrap()).unwrap();
    resolve_plan(&mut plan, &[&fixture]);

    let ids: std::collections::HashSet<_> = plan
        .leaves
        .iter()
        .filter_map(|l| l.resolved.as_ref())
        .map(|r| r.id.clone())
        .collect();
    assert_eq!(ids.len(), 3, "three distinct components claimed");
    assert_eq!(unresolved_count(&plan), 1, "fourth leaf exhausts the pool");
    assert!(plan
        .warnings
        .iter()
        .any(|w| w.contains("unique strategy exhausted")));
}

#[test]
fn diverse_strategy_round_robins_candidates() {
    let fixture = FixtureProvider::new(vec![seed("FIX-A", "0.9", "0.5"), seed("FIX-B", "0.8", "0.5")]);
    let src = UNBRIDGED_BANK.replace("STRAT", "diverse");
    let mut plan = grow(&parse(&src).unwrap()).unwrap();
    resolve_plan(&mut plan, &[&fixture]);

    assert_eq!(unresolved_count(&plan), 0);
    let ids: Vec<_> = plan
        .leaves
        .iter()
        .map(|l| l.resolved.as_ref().unwrap().id.as_str())
        .collect();
    assert_eq!(ids, vec!["FIX-A", "FIX-B", "FIX-A", "FIX-B"]);
}

#[test]
fn foreign_domains_resolve_to_an_honest_warning() {
    let fixture = FixtureProvider::new(vec![seed("FIX-A", "0.9", "0.5")]);
    let src = r#"
            cell M() { when always => base memory.glyph "Identity Glyph" }
            grow M()
        "#;
    let mut plan = grow(&parse(src).unwrap()).unwrap();
    resolve_plan(&mut plan, &[&fixture]);
    assert_eq!(unresolved_count(&plan), 1);
    assert!(plan
        .warnings
        .iter()
        .any(|w| w.contains("no provider for domain \"memory\"")));
    assert_eq!(plan.leaves[0].domain, "memory");
}

#[test]
fn hybrid_plans_resolve_across_crystal_and_memory_providers() {
    let crystal = FixtureProvider::new(vec![seed("FIX-C", "0.9", "0.9")]);
    let memory = FixtureProvider::with_domain(
        DOMAIN_MEMORY,
        vec![Resolved {
            provider: PROVIDER_FIXTURE,
            id: "GLYPH-000001".into(),
            class: "IdentityGlyph".into(),
            persistence: dec("0.8"),
            noise_tolerance: dec("0.7"),
            material: "hrm".into(),
            evidence_level: 1,
            capabilities: vec![],
        }],
    );
    let src = r#"
            cell Pair()   { when always => split Seed(), Mirror() }
            cell Seed()   { when always => base "Memory Seed" }
            cell Mirror() { when always => base memory.glyph "Identity Glyph" }
            grow Pair()
        "#;
    let mut plan = grow(&parse(src).unwrap()).unwrap();
    resolve_plan(&mut plan, &[&crystal, &memory]);

    assert_eq!(unresolved_count(&plan), 0, "both domains resolve");
    assert_eq!(plan.registry_snapshots.len(), 2);
    let domains: Vec<_> = plan.leaves.iter().map(|l| l.domain.as_str()).collect();
    assert_eq!(domains, vec!["crystal", "memory"]);
    assert_eq!(plan.leaves[1].resolved.as_ref().unwrap().id, "GLYPH-000001");
}

#[test]
fn noise_tolerance_floor_filters_candidates() {
    let fixture = FixtureProvider::new(vec![seed("FIX-A", "0.9", "0.3"), seed("FIX-B", "0.5", "0.9")]);
    let mut q = query("Memory Seed", "0.0");
    q.min_noise_tolerance = dec("0.8");
    assert_eq!(fixture.resolve_query(&q).unwrap().id, "FIX-B");
}

#[test]
fn resolves_by_class_floor_and_material_picking_best() {
    let reg = fake_registry();

    // "Memory Seed" (display form) matches serialized "MemorySeed";
    // best persistence wins.
    let r = reg.resolve("Memory Seed", dec("0.0"), None).unwrap();
    assert_eq!(r.id, "CRY-000001");
    // Material narrows it.
    let r = reg.resolve("memory_seed", dec("0.0"), Some("silicon")).unwrap();
    assert_eq!(r.id, "CRY-000002");
    // Floor excludes.
    assert!(reg.resolve("Memory Seed", dec("0.8"), None).is_none());
}

#[test]
fn plan_resolution_fills_leaves_and_warns_on_misses() {
    let reg = fake_registry();

    let src = r#"
            cell Bank(n) {
                when n > 1  => split Bank(n / 2), Bank(n / 2) bridge "Harmonic Bridge"
                when always => base "Memory Seed" min_persistence 0.4
            }
            cell Ghost() { when always => base "Phase Knot" }
            grow Bank(4)
            grow Ghost()
        "#;
    let mut plan = grow(&parse(src).unwrap()).unwrap();
    resolve_plan(&mut plan, &[&reg]);

    let resolved: Vec<_> = plan
        .leaves
        .iter()
        .filter(|l| l.resolved.is_some())
        .collect();
    assert_eq!(resolved.len(), 4, "all Bank seeds resolve");
    assert!(plan.bridges.iter().all(|b| b.resolved.is_some()));
    assert_eq!(
        plan.warnings.len(),
        1,
        "Phase Knot unresolved -> one warning"
    );
    assert!(plan.warnings[0].contains("Phase Knot"));

    // The plan names its evidence sources and records resolution
    // outcomes.
    assert_eq!(plan.registry_snapshots.len(), 1);
    assert_eq!(plan.registry_snapshots[0].provider, PROVIDER_CRYSTAL);
    assert_eq!(plan.registry_snapshots[0].primitives, 3);
    let report = plan.resolution_report.as_ref().unwrap();
    assert_eq!(report.leaves_total, 5);
    assert_eq!(report.leaves_resolved, 4);
    assert_eq!(report.bridges_total, 3);
    assert_eq!(report.bridges_resolved, 3);
    assert_eq!(unresolved_count(&plan), 1);
    assert!(plan
        .leaves
        .iter()
        .filter_map(|l| l.resolved.as_ref())
        .all(|r| r.provider == PROVIDER_CRYSTAL));
}

#[test]
fn class_names_normalize_across_spellings() {
    assert_eq!(normalize("Memory Seed"), "memoryseed");
    assert_eq!(normalize("MemorySeed"), "memoryseed");
    assert_eq!(normalize("memory_seed"), "memoryseed");
}

#[test]
fn best_strategy_picks_the_most_persistent_candidate() {
    let fixture = FixtureProvider::new(vec![seed("FIX-A", "0.5", "0.5"), seed("FIX-B", "0.9", "0.1"), seed("FIX-C", "0.9", "0.2")]);
    let mut state = StrategyState::new();
    let (picked, reason) = resolve_component(&[&fixture], &query("Memory Seed", "0.0"), &mut state);
    // Stable descending order: the first of the two most persistent.
    assert_eq!(picked.unwrap().id, "FIX-B");
    assert!(reason.is_none());
    // The single best answer is the last of greatest persistence.
    assert_eq!(fixture.resolve_query(&query("Memory Seed", "0.0")).unwrap().id, "FIX-C");
}

#[test]
fn unsupported_component_types_and_empty_pools_give_reasons() {
    let reg = fake_registry();
    let mut q = query("Memory Seed", "0.0");
    q.component_type = Some("glyph".into());
    let mut state = StrategyState::new();
    let (picked, reason) = resolve_component(&[&reg], &q, &mut state);
    assert!(picked.is_none());
    assert_eq!(
        reason.unwrap(),
        "provider crystal-registry does not resolve component type \"glyph\""
    );
    q.component_type = Some("primitive".into());
    let (picked, _) = resolve_component(&[&reg], &q, &mut state);
    assert_eq!(picked.unwrap().id, "CRY-000001");

    let fixture = FixtureProvider::new(vec![seed("FIX-A", "0.5", "0.5")]);

    let (picked, reason) = resolve_component(&[&fixture], &query("Phase Knot", "0.0"), &mut state);
    assert!(picked.is_none());
    let reason = reason.unwrap();
    assert!(reason.starts_with("no component (class \"Phase Knot\", min_persistence 0"));
    assert!(reason.ends_with("swarm has not grown one yet"));
}

#[test]
fn registry_counts_its_rows() {
    let reg = fake_registry();
    assert_eq!(reg.len(), 3);
    assert!(!reg.is_empty());
    assert!(Registry::new(vec![], "none".to_string()).is_empty());
    assert_eq!(reg.snapshot().primitives, 3);
    assert_eq!(reg.id(), PROVIDER_CRYSTAL);
}

#[test]
fn report_accounts_for_the_unresolved() {
    // Law: total minus resolved in the report is what unresolved_count says.
    let reg = fake_registry();
    let src = r#"
            cell Pair() { when always => split A(), B() bridge "Phase Knot" }
            cell A() { when always => base "Memory Seed" }
            cell B() { when always => base "Echo Ring" }
            grow Pair()
        "#;
    let mut plan = grow(&parse(src).unwrap()).unwrap();
    let cells_before: Vec<String> = plan.leaves.iter().map(|l| l.cell.clone()).collect();
    resolve_plan(&mut plan, &[&reg]);
    let report = plan.resolution_report.unwrap();
    assert_eq!(
        (report.leaves_total - report.leaves_resolved) + (report.bridges_total - report.bridges_resolved),
        unresolved_count(&plan)
    );
    assert_eq!(unresolved_count(&plan), 2);
    // Law: resolution keeps the architecture.
    let cells_after: Vec<String> = plan.leaves.iter().map(|l| l.cell.clone()).collect();
    assert_eq!(cells_before, cells_after);
}

#[test]
fn every_miss_is_warned_with_its_cell_or_coupling() {
    let reg = fake_registry();
    let src = r#"
            cell Pair() { when always => split A(), B() bridge "Phase Knot" }
            cell A() { when always => base "Memory Seed" }
            cell B() { when always => base "Echo Ring" }
            grow Pair()
        "#;
    let mut plan = grow(&parse(src).unwrap()).unwrap();
    resolve_plan(&mut plan, &[&reg]);
    assert!(plan.leaves[0].resolved.is_some());
    assert!(plan.leaves[1].resolved.is_none());
    assert!(plan.warnings.iter().any(|w| w.starts_with("B: no component (class \"Echo Ring\"")));
    assert!(plan
        .warnings
        .iter()
        .any(|w| w.starts_with("coupling \"Phase Knot\": no component (class \"Phase Knot\"")));
    assert_eq!(plan.warnings.len(), 2);
}

#[test]
fn repeated_warnings_collapse() {
    let empty = FixtureProvider::new(vec![]);
    let src = UNBRIDGED_BANK.replace("STRAT", "best");
    let mut plan = grow(&parse(&src).unwrap()).unwrap();
    resolve_plan(&mut plan, &[&empty]);
    assert_eq!(unresolved_count(&plan), 4);
    assert_eq!(
        plan.warnings,
        vec!["Bank: no component (class \"Memory Seed\", min_persistence 0) \u{2014} swarm has not grown one yet".to_string()]
    );
}

#[test]
fn diverse_cursors_are_kept_per_class() {
    let ring = |id: &str, persistence: &str| Resolved {
        provider: PROVIDER_FIXTURE,
        id: id.into(),
        class: "EchoRing".into(),
        persistence: dec(persistence),
        noise_tolerance: dec("0.5"),
        material: "ideal_resonator".into(),
        evidence_level: 1,
        capabilities: vec![],
    };
    let fixture = FixtureProvider::new(vec![
        seed("FIX-A", "0.9", "0.5"),
        seed("FIX-B", "0.8", "0.5"),
        ring("RING-X", "0.7"),
        ring("RING-Y", "0.9"),
    ]);
    let src = r#"
            cell Row() { when always => split Seed(), Ring(), Seed(), Ring(), Seed() }
            cell Seed() { when always => base "Memory Seed" strategy diverse }
            cell Ring() { when always => base "Echo Ring" strategy diverse }
            grow Row()
        "#;
    let mut plan = grow(&parse(src).unwrap()).unwrap();
    resolve_plan(&mut plan, &[&fixture]);
    let ids: Vec<_> = plan
        .leaves
        .iter()
        .map(|l| l.resolved.as_ref().unwrap().id.as_str())
        .collect();
    // Rings are ranked by persistence: Y before X.
    assert_eq!(ids, vec!["FIX-A", "RING-Y", "FIX-B", "RING-X", "FIX-A"]);
}

/// A registry whose rows record evidence levels and passed capabilities.
fn evidence_registry() -> Registry {
    let row = |id: &str, persistence: &str, level: Option<u8>, caps: &[&str]| Primitive {
        id: id.to_string(),
        class: "StandingEcho".to_string(),
        persistence: dec(persistence),
        noise_tolerance: dec("0.5"),
        material_id: "metamaterial".to_string(),
        evidence_level: level,
        capabilities: caps.iter().map(|c| c.to_string()).collect(),
    };
    Registry::new(
        vec![
            row("CRY-000010", "0.9", None, &[]),
            row("CRY-000011", "0.6", Some(3), &["noise_shielding"]),
            row("CRY-000012", "0.8", Some(2), &["replication"]),
        ],
        "registry.json".to_string(),
    )
}

#[test]
fn evidence_floors_leave_out_rows_below_the_ladder() {
    let reg = evidence_registry();
    let mut q = query("Standing Echo", "0.0");
    // A row that records no level stands at Observed (1).
    q.min_evidence = 1;
    assert_eq!(reg.resolve_query(&q).unwrap().id, "CRY-000010");
    q.min_evidence = 2;
    let ids: Vec<String> = reg.candidates(&q).iter().map(|r| r.id.clone()).collect();
    assert_eq!(ids, vec!["CRY-000011", "CRY-000012"]);
    q.min_evidence = 3;
    assert_eq!(reg.resolve_query(&q).unwrap().id, "CRY-000011");
    q.min_evidence = 4;
    assert!(reg.resolve_query(&q).is_none());
}

#[test]
fn capability_floors_need_a_passed_record() {
    let reg = evidence_registry();
    let mut q = query("Standing Echo", "0.0");
    q.capability = Some("noise_shielding".into());
    let picked = reg.resolve_query(&q).unwrap();
    assert_eq!(picked.id, "CRY-000011");
    assert_eq!(picked.evidence_level, 3);
    assert_eq!(picked.capabilities, vec!["noise_shielding".to_string()]);
    q.capability = Some("thermal_stability".into());
    assert!(reg.resolve_query(&q).is_none());
}

#[test]
fn parsed_floors_filter_plan_resolution() {
    let reg = evidence_registry();
    let src = r#"
            cell Core() {
                when always => base crystal.primitive "Standing Echo" min_evidence 2 capability "noise_shielding"
            }
            grow Core()
        "#;
    let mut plan = grow(&parse(src).unwrap()).unwrap();
    resolve_plan(&mut plan, &[&reg]);
    assert_eq!(plan.leaves[0].resolved.as_ref().unwrap().id, "CRY-000011");

    let fixture = FixtureProvider::new(vec![seed("FIX-A", "0.9", "0.5")]);
    let mut plan = grow(&parse(src).unwrap()).unwrap();
    resolve_plan(&mut plan, &[&fixture]);
    assert_eq!(unresolved_count(&plan), 1, "a fixture at Observed meets no level-2 floor");
    assert!(fixture.supports_evidence_floors());
    assert!(reg.supports_evidence_floors());
}

#[test]
fn only_passed_capability_records_count() {
    let records = vec![
        ("noise_shielding".to_string(), "passed".to_string()),
        ("replication".to_string(), "failed".to_string()),
        ("thermal_stability".to_string(), "PASSED".to_string()),
        ("drift".to_string(), "recorded".to_string()),
        ("echo".to_string(), "passed ".to_string()),
    ];
    assert_eq!(
        passed_capabilities(&records),
        vec!["noise_shielding".to_string(), "thermal_stability".to_string()]
    );
    assert!(passed_capabilities(&vec![]).is_empty());
}
