use kannaka_hdl::emit::{
    class_carrier, emit_crystal, emit_html, flatten_materials, CRYSTAL_FOOTER, LOWERING_CRYSTAL,
    LOWERING_HTML, LOWERING_JSON,
};
use kannaka_hdl::grow::{grow, Plan, Slice, UnresolvedMode};
use kannaka_hdl::number::Decimal;
use kannaka_hdl::parser::parse;
use kannaka_hdl::registry::{Resolved, PROVIDER_CRYSTAL};

fn plan() -> Plan {
    let src = r#"
            cell Bank(n) {
                when n > 1  => split Bank(n / 2), Bank(n / 2) bridge "Harmonic Bridge"
                when always => base "Memory Seed"
            }
            grow Bank(4)
        "#;
    grow(&parse(src).unwrap()).unwrap()
}

/// `(x, y, w, h)` of the region reached through `slices`.
fn region(slices: &[Slice]) -> (f64, f64, f64, f64) {
    let (mut x, mut y, mut w, mut h) = (0.0f64, 0.0f64, 1.0f64, 1.0f64);
    for (depth, s) in slices.iter().enumerate() {
        let k = s.count as f64;
        let f = s.index as f64;
        if depth % 2 == 0 {
            x += w * f / k;
            w /= k;
        } else {
            y += h * f / k;
            h /= k;
        }
    }
    (x, y, w, h)
}

fn center(slices: &[Slice]) -> (f64, f64) {
    let (x, y, w, h) = region(slices);
    (x + w / 2.0, y + h / 2.0)
}

/// The crystal program with the pulse geometry rendered as the command
/// line tool renders it.
fn crystal(p: &Plan) -> String {
    let leaf_geometry: Vec<String> = p
        .leaves
        .iter()
        .map(|l| {
            let (x, y, w, h) = region(&l.slices);
            let (cx, cy) = (x + w / 2.0, y + h / 2.0);
            let radius = (w.min(h) * 0.3).clamp(0.03, 0.15);
            let persistence = l
                .resolved
                .as_ref()
                .map(|r| r.persistence.to_text().parse::<f64>().unwrap())
                .unwrap_or(0.2);
            let amplitude = 0.8 + persistence;
            format!("{cx:.4} {cy:.4} {radius:.4} {amplitude:.3}")
        })
        .collect();
    let bridge_geometry: Vec<String> = p
        .bridges
        .iter()
        .map(|b| {
            let mut first = b.parent.clone();
            first.push(Slice { index: b.pair, count: b.siblings });
            let mut second = b.parent.clone();
            second.push(Slice { index: b.pair + 1, count: b.siblings });
            let (x1, y1) = center(&first);
            let (x2, y2) = center(&second);
            format!("{:.4} {:.4}", (x1 + x2) / 2.0, (y1 + y2) / 2.0)
        })
        .collect();
    emit_crystal(p, &leaf_geometry, &bridge_geometry)
}

#[test]
fn crystal_program_is_runnable_shape() {
    let text = crystal(&plan());
    assert!(text.contains(&format!("# lowering model: {LOWERING_CRYSTAL}")));
    assert!(text.contains("MATERIAL "));
    assert_eq!(text.matches("PULSE").count(), 7, "4 leaves + 3 bridges");
    assert!(text.contains("STABILIZE"));
    // Coordinates stay in the unit square.
    for line in text.lines().filter(|l| l.starts_with("PULSE")) {
        let parts: Vec<&str> = line.split_whitespace().collect();
        let x: f64 = parts[1].parse().unwrap();
        let y: f64 = parts[2].parse().unwrap();
        assert!((0.0..=1.0).contains(&x) && (0.0..=1.0).contains(&y));
    }
}

#[test]
fn stub_mode_withholds_unresolved_proxy_pulses() {
    // The fixture plan is fully unresolved: speculative mode (the
    // default) approximates everything; stub mode must not.
    let mut p = plan();
    p.unresolved_mode = UnresolvedMode::Stub;
    let text = crystal(&p);
    assert_eq!(text.matches("PULSE").count(), 0);
    assert_eq!(text.matches("# STUB unresolved").count(), 7);
    assert!(text.contains("STABILIZE"), "program shape is preserved");
}

#[test]
fn heterogeneous_materials_flatten_loudly_not_silently() {
    let mut p = plan();
    for (i, leaf) in p.leaves.iter_mut().enumerate() {
        leaf.resolved = Some(Resolved {
            provider: PROVIDER_CRYSTAL,
            id: format!("CRY-{i:06}"),
            class: "MemorySeed".into(),
            persistence: Decimal::parse("0.6").unwrap(),
            noise_tolerance: Decimal::parse("0.8").unwrap(),
            material: if i == 0 { "silicon" } else { "metamaterial" }.into(),
            evidence_level: 1,
            capabilities: vec![],
        });
    }
    let text = crystal(&p);
    assert!(text.contains("MATERIAL metamaterial"), "majority wins");
    assert!(
        text.contains("# WARNING: 2 materials"),
        "flattening must be declared"
    );
}

#[test]
fn html_embeds_the_plan() {
    let html = emit_html("{\"leaves\":[],\"bridges\":[],\"warnings\":[],\"grown_from\":\"Bank\"}");
    assert!(html.contains("\"leaves\""));
    assert!(
        !html.contains("/*PLAN*/null"),
        "placeholder must be replaced"
    );
}

#[test]
fn html_keeps_the_embedded_plan_inside_its_script() {
    let html = emit_html("{\"grown_from\":\"</script><b>\"}");
    assert!(html.contains("<\\/script><b>"));
    assert_eq!(html.matches("</script>").count(), 1);
    assert!(html.contains(LOWERING_HTML));
}

#[test]
fn lowering_models_are_declared() {
    assert_eq!(LOWERING_JSON, "plan-json-v1");
    assert_eq!(LOWERING_CRYSTAL, "crystal-pulse-placement-v1");
    assert_eq!(LOWERING_HTML, "html-growth-viz-v1");
}

#[test]
fn unresolved_fields_fall_back_to_the_ideal_resonator() {
    let p = plan();
    let (material, count) = flatten_materials(&p.leaves);
    assert_eq!(material, "ideal_resonator");
    assert_eq!(count, 0);
    let text = crystal(&p);
    assert!(text.contains("MATERIAL ideal_resonator\nSEED 21\n"));
    assert!(!text.contains("WARNING"));
    assert!(text.ends_with(CRYSTAL_FOOTER));
    assert!(text.starts_with("# grown by kannaka-hdl from: Bank\n# 4 leaves, 3 bridges \u{2014} pulse-placement approximation\n"));
    assert!(text.contains("# Memory Seed (unresolved proxy)\n"));
}

#[test]
fn material_ties_go_to_the_first_seen() {
    let mut p = plan();
    for (i, leaf) in p.leaves.iter_mut().enumerate() {
        leaf.resolved = Some(Resolved {
            provider: PROVIDER_CRYSTAL,
            id: format!("CRY-{i:06}"),
            class: "MemorySeed".into(),
            persistence: Decimal::parse("0.6").unwrap(),
            noise_tolerance: Decimal::parse("0.8").unwrap(),
            material: if i % 2 == 0 { "silicon" } else { "metamaterial" }.into(),
            evidence_level: 1,
            capabilities: vec![],
        });
    }
    let (material, count) = flatten_materials(&p.leaves);
    assert_eq!(material, "silicon");
    assert_eq!(count, 2);
}

#[test]
fn carrier_frequencies_follow_the_class_hash() {
    // h("A") = 65, 65 % 5 == 0; h("B") = 66 -> 1; "AB" = 65 * 31 + 66 = 2081 -> 1.
    assert_eq!(class_carrier("A"), 0);
    assert_eq!(class_carrier("B"), 1);
    assert_eq!(class_carrier("AB"), 1);
    assert_eq!(class_carrier(""), 0);
    let mut h: u32 = 0;
    for b in "Memory Seed".bytes() {
        h = h.wrapping_mul(31).wrapping_add(b as u32);
    }
    assert_eq!(class_carrier("Memory Seed"), h % 5);
    let text = crystal(&plan());
    let freq = ["0.500", "0.950", "1.400", "1.850", "2.300"][(h % 5) as usize];
    assert!(text.contains(&format!(" {freq} 0.0   # Memory Seed")));
}
