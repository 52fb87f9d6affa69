use kannaka_hdl::number::Decimal;
use kannaka_hdl::parser::{parse, Action, Cmp, Strategy};

const PROGRAM: &str = r#"
        # memory bank
        cell MemoryBank(n) {
            when n > 1  => split MemoryBank(n / 2), MemoryBank(n / 2) bridge "Harmonic Bridge"
            when always => base "Memory Seed" min_persistence 0.4 material "metamaterial"
        }
        grow MemoryBank(8)
    "#;

/// The value of a decimal as a float, for comparisons with tolerance.
fn float(d: &Decimal) -> f64 {
    d.to_text().parse::<f64>().unwrap()
}

#[test]
fn parses_the_canonical_program() {
    let prog = parse(PROGRAM).unwrap();
    assert_eq!(prog.cells.len(), 1);
    assert_eq!(prog.cells[0].name, "MemoryBank");
    assert_eq!(prog.cells[0].params, vec!["n"]);
    assert_eq!(prog.cells[0].rules.len(), 2);
    match &prog.cells[0].rules[0].action {
        Action::Split { children, bridge } => {
            assert_eq!(children.len(), 2);
            let bq = bridge.as_ref().unwrap();
            assert_eq!(bq.class, "Harmonic Bridge");
            assert_eq!(bq.domain, "crystal");
            assert_eq!(bq.strategy, Strategy::Best);
        }
        other => panic!("expected split, got {other:?}"),
    }
    match &prog.cells[0].rules[1].action {
        Action::Base(q) => {
            assert_eq!(q.class, "Memory Seed");
            assert_eq!(q.domain, "crystal");
            assert_eq!(q.component_type, None);
            assert!((float(&q.min_persistence) - 0.4).abs() < 1e-9);
            assert_eq!(float(&q.min_noise_tolerance), 0.0);
            assert_eq!(q.material.as_deref(), Some("metamaterial"));
            assert_eq!(q.strategy, Strategy::Best);
        }
        other => panic!("expected base, got {other:?}"),
    }
    assert_eq!(prog.grows.len(), 1);
}

#[test]
fn evidence_and_capability_floors_parse() {
    let src = r#"
            cell Core() {
                when always => base crystal.primitive "Standing Echo" min_evidence 2 capability "noise_shielding" min_persistence 0.5
            }
            grow Core()
        "#;
    let prog = parse(src).unwrap();
    match &prog.cells[0].rules[0].action {
        Action::Base(q) => {
            assert_eq!(q.min_evidence, 2);
            assert_eq!(q.capability.as_deref(), Some("noise_shielding"));
            assert!((float(&q.min_persistence) - 0.5).abs() < 1e-9);
        }
        other => panic!("expected base, got {other:?}"),
    }

    // Defaults stay those of the grammar without the floors.
    let prog = parse(PROGRAM).unwrap();
    match &prog.cells[0].rules[1].action {
        Action::Base(q) => {
            assert_eq!(q.min_evidence, 0);
            assert_eq!(q.capability, None);
        }
        other => panic!("expected base, got {other:?}"),
    }
}

#[test]
fn min_evidence_rejects_non_integer_and_out_of_range_levels() {
    for bad in ["min_evidence 2.5", "min_evidence 9"] {
        let src = format!("cell C() {{ when always => base \"X\" {bad} }}\ngrow C()");
        let err = parse(&src).unwrap_err().to_string();
        assert!(
            err.contains("evidence-ladder level"),
            "{bad}: unexpected error {err}"
        );
    }
}

#[test]
fn typed_queries_parse_domain_type_floors_and_strategy() {
    let src = r#"
            cell X(n) {
                when n > 1  => split X(n / 2), X(n / 2) bridge "Chiral Link" min_persistence 0.2 strategy robust
                when always => base memory.glyph "Identity Glyph" min_noise_tolerance 0.6 strategy unique
            }
            grow X(2)
        "#;
    let prog = parse(src).unwrap();
    match &prog.cells[0].rules[0].action {
        Action::Split { bridge, .. } => {
            let bq = bridge.as_ref().unwrap();
            assert_eq!(bq.class, "Chiral Link");
            assert!((float(&bq.min_persistence) - 0.2).abs() < 1e-9);
            assert_eq!(bq.strategy, Strategy::Robust);
        }
        other => panic!("expected split, got {other:?}"),
    }
    match &prog.cells[0].rules[1].action {
        Action::Base(q) => {
            assert_eq!(q.domain, "memory");
            assert_eq!(q.component_type.as_deref(), Some("glyph"));
            assert_eq!(q.class, "Identity Glyph");
            assert!((float(&q.min_noise_tolerance) - 0.6).abs() < 1e-9);
            assert_eq!(q.strategy, Strategy::Unique);
        }
        other => panic!("expected base, got {other:?}"),
    }

    let err = parse("cell X() { when always => base \"Y\" strategy fancy }\ngrow X()").unwrap_err();
    assert!(err.message.contains("unknown strategy"));
}

#[test]
fn reports_errors_with_line_numbers() {
    let err = parse("cell X() {\n  when n > => base \"Y\"\n}\ngrow X()").unwrap_err();
    assert_eq!(err.line, 2);

    let err = parse("frobnicate").unwrap_err();
    assert!(err.message.contains("expected `cell`, `grow`, or `expect`"));

    let err = parse("cell X() { when always => base \"Y\" }").unwrap_err();
    assert!(err.message.contains("no `grow`"));
}

#[test]
fn expect_statements_parse() {
    let src = r#"
            cell X() { when always => base "Seed" }
            grow X()
            expect unresolved_components == 0
            expect noise_tolerance >= 0.6
        "#;
    let prog = parse(src).unwrap();
    assert_eq!(prog.expects.len(), 2);
    assert_eq!(prog.expects[0].metric, "unresolved_components");
    assert_eq!(prog.expects[0].cmp, Cmp::Eq);
    assert_eq!(float(&prog.expects[0].value), 0.0);
    assert_eq!(prog.expects[1].metric, "noise_tolerance");
    assert_eq!(prog.expects[1].cmp, Cmp::Ge);
    assert!((float(&prog.expects[1].value) - 0.6).abs() < 1e-9);

    let err = parse("expect foo bar\ngrow X()").unwrap_err();
    assert!(err.message.contains("expected comparison"));
}

#[test]
fn expressions_nest_with_precedence() {
    let prog =
        parse("cell X(n, m) { when n + m * 2 > (n - 1) / 2 => base \"Seed\" }\ngrow X(4, 2)")
            .unwrap();
    assert_eq!(prog.cells[0].params.len(), 2);
}

#[test]
fn parse_error_text_names_the_line() {
    let err = parse("cell X() {\n  when n > => base \"Y\"\n}\ngrow X()").unwrap_err();
    assert!(err.to_string().starts_with("line 2: "));
}

#[test]
fn unterminated_strings_and_stray_characters_are_refused() {
    assert!(parse("cell X() { when always => base \"Y }\ngrow X()").is_err());
    assert!(parse("cell X() { when always => base \"Y\" } $\ngrow X()").is_err());
}

#[test]
fn comments_and_carriage_returns_are_ignored() {
    let prog = parse("# a comment\r\ncell X() { when always => base \"Y\" } # trailing\r\ngrow X()\r\n").unwrap();
    assert_eq!(prog.cells.len(), 1);
    assert_eq!(prog.grows.len(), 1);
}

#[test]
fn decimals_parse_exactly() {
    let d = Decimal::parse("0.40").unwrap();
    assert_eq!(d.to_text(), "0.4");
    assert_eq!(Decimal::parse("12").unwrap().to_text(), "12");
    assert!(Decimal::parse("1.2.3").is_none());
    assert!(Decimal::parse("").is_none());
    assert!(Decimal::parse("abc").is_none());
    let a = Decimal::parse("0.5").unwrap();
    let b = Decimal::parse("0.45").unwrap();
    assert!(a.ge(&b));
    assert!(!b.ge(&a));
    assert_eq!(Decimal::parse("3").unwrap().to_evidence_level(), Some(3));
    assert_eq!(Decimal::parse("9").unwrap().to_evidence_level(), None);
    assert_eq!(Decimal::parse("2.5").unwrap().to_evidence_level(), None);
}

#[test]
fn errors_show_the_offending_token() {
    let err = parse("cell X() { when always => base foo }\ngrow X()").unwrap_err();
    assert_eq!(err.message, "expected `.`, got Some(Punct(\"}\"))");
    let err = parse("cell X() { when always => base crystal.primitive 5 }\ngrow X()").unwrap_err();
    assert_eq!(err.message, "expected string literal, got Some(Int(5))");
    let err = parse("cell X() { when always => foo }\ngrow X()").unwrap_err();
    assert_eq!(err.message, "expected `split` or `base`, got Some(Ident(\"foo\"))");
    let err = parse("cell 5() { when always => base \"Y\" }\ngrow X()").unwrap_err();
    assert_eq!(err.message, "expected identifier, got Some(Int(5))");
    let err = parse("cell X() { when always => base \"Y\" min_persistence \"ab\" }\ngrow X()").unwrap_err();
    assert_eq!(err.message, "expected number, got Some(Str(\"ab\"))");
    let err = parse("cell X() { when always => base \"Y\" min_persistence \"a\\\"b\" }\ngrow X()").unwrap_err();
    assert_eq!(err.message, "unterminated string");
    let err = parse("frobnicate").unwrap_err();
    assert_eq!(err.message, "expected `cell`, `grow`, or `expect`, got Ident(\"frobnicate\")");
    let err = parse("cell X() { when always => base \"Y\" min_persistence 1.50 }\ngrow X() )").unwrap_err();
    assert!(err.message.contains("got"));
}

#[test]
fn float_tokens_show_as_rust_debugs_them() {
    let err = parse("cell X() { when always => 0.0000001 }\ngrow X()").unwrap_err();
    assert_eq!(err.message, "expected `split` or `base`, got Some(Float(1e-7))");
    let err = parse("cell X() { when always => 0.00001234 }\ngrow X()").unwrap_err();
    assert_eq!(err.message, "expected `split` or `base`, got Some(Float(1.234e-5))");
    let err = parse("cell X() { when always => 20000000000000000.0 }\ngrow X()").unwrap_err();
    assert_eq!(err.message, "expected `split` or `base`, got Some(Float(2e16))");
    let err = parse("cell X() { when always => 0.0001 }\ngrow X()").unwrap_err();
    assert_eq!(err.message, "expected `split` or `base`, got Some(Float(0.0001))");
    let err = parse("cell X() { when always => 2.50 }\ngrow X()").unwrap_err();
    assert_eq!(err.message, "expected `split` or `base`, got Some(Float(2.5))");
    let err = parse("cell X() { when always => 3.0 }\ngrow X()").unwrap_err();
    assert_eq!(err.message, "expected `split` or `base`, got Some(Float(3.0))");
    // Check the expected texts against Rust's own rendering.
    assert_eq!(format!("{:?}", 0.0000001f64), "1e-7");
    assert_eq!(format!("{:?}", 0.00001234f64), "1.234e-5");
    assert_eq!(format!("{:?}", 20000000000000000.0f64), "2e16");
    assert_eq!(format!("{:?}", 0.0001f64), "0.0001");
}

#[test]
fn tokens_carry_their_lines_in_order() {
    let toks = kannaka_hdl::lexer::lex("a\n\nb # c d\r\ne f").unwrap();
    let lines: Vec<usize> = toks.iter().map(|t| t.1).collect();
    assert_eq!(lines, vec![1, 3, 4, 4]);
    let err = kannaka_hdl::lexer::lex("a\n\"open").unwrap_err();
    assert_eq!(err.line, 2);
    assert_eq!(err.message, "unterminated string");
}
