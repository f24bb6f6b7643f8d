use automata::rule::{builtin_rules, BsRule};

#[test]
fn parses_standard_notation() {
    let life = BsRule::parse("B3/S23").unwrap();
    assert!(life.next_state(false, 3)); // birth on 3
    assert!(!life.next_state(false, 2));
    assert!(life.next_state(true, 2)); // survival on 2 or 3
    assert!(life.next_state(true, 3));
    assert!(!life.next_state(true, 4));
}

#[test]
fn parse_is_case_insensitive_and_order_insensitive() {
    let canonical = BsRule::parse("B36/S23").unwrap();
    assert_eq!(BsRule::parse("b36/s23").unwrap(), canonical);
    assert_eq!(BsRule::parse("S23/B36").unwrap(), canonical);
    assert_eq!(BsRule::parse("s23/b36").unwrap(), canonical);
}

#[test]
fn parses_bare_golly_survival_slash_birth() {
    assert_eq!(
        BsRule::parse("23/3").unwrap(),
        BsRule::parse("B3/S23").unwrap()
    );
}

#[test]
fn parses_empty_survival() {
    let seeds = BsRule::parse("B2/S").unwrap();
    assert!(seeds.next_state(false, 2));
    assert!(!seeds.next_state(true, 2)); // every live cell dies
}

#[test]
fn rejects_malformed_notation() {
    for bad in ["", "B3", "B3/S9", "B3/23x", "B3-S23", "Bx/S23"] {
        assert!(BsRule::parse(bad).is_err(), "expected {bad:?} to fail");
    }
}

#[test]
fn notation_round_trips() {
    for text in ["B3/S23", "B36/S23", "B2/S", "B3678/S34678", "B3/S012345678"] {
        let rule = BsRule::parse(text).unwrap();
        assert_eq!(rule.notation(), text);
        assert_eq!(BsRule::parse(&rule.notation()).unwrap(), rule);
    }
}

#[test]
fn builtin_library_parses() {
    let rules = builtin_rules();
    assert!(rules.len() >= 10);
    assert_eq!(rules[0].name, "Life");
    assert_eq!(rules[0].rule.notation(), "B3/S23");
}

#[test]
fn builtin_library_lists_every_rule() {
    let listed: Vec<(String, String)> = builtin_rules()
        .iter()
        .map(|named| (named.name.to_string(), named.rule.notation()))
        .collect();
    let expected = [
        ("Life", "B3/S23"),
        ("HighLife", "B36/S23"),
        ("Seeds", "B2/S"),
        ("Life w/o Death", "B3/S012345678"),
        ("Day & Night", "B3678/S34678"),
        ("Maze", "B3/S12345"),
        ("Mazectric", "B3/S1234"),
        ("Replicator", "B1357/S1357"),
        ("2x2", "B36/S125"),
        ("Diamoeba", "B35678/S5678"),
        ("Anneal", "B4678/S35678"),
    ];
    assert_eq!(listed.len(), expected.len());
    for (got, want) in listed.iter().zip(expected) {
        assert_eq!((got.0.as_str(), got.1.as_str()), want);
    }
}

#[test]
fn rejected_notation_is_quoted() {
    let error = BsRule::parse("B3/S9").unwrap_err();
    assert_eq!(error.message(), "invalid rule notation: B3/S9");
}

#[test]
fn rules_convert_to_and_from_strings() {
    let rule = BsRule::try_from("s23/b3".to_string()).unwrap();
    assert_eq!(String::from(rule), "B3/S23");
    assert!(BsRule::try_from("B3".to_string()).is_err());
}

#[test]
fn digits_may_repeat_and_come_in_any_order() {
    let rule = BsRule::parse("B6363/S32").unwrap();
    assert_eq!(rule.notation(), "B36/S23");
}

#[test]
fn every_rule_round_trips() {
    for mask in 0..512u32 {
        let digits: String = (0..9u32)
            .filter(|n| mask & (1 << n) != 0)
            .map(|n| char::from_digit(n, 10).unwrap())
            .collect();
        for text in [format!("B{digits}/S"), format!("B/S{digits}")] {
            assert_eq!(BsRule::parse(&text).unwrap().notation(), text);
        }
    }
}
