use chemistry_parser::element::{Element, PeriodicTable, MASS_UNITS_PER_DALTON};
use chemistry_parser::grammar::Rule;
use chemistry_parser::{ChemParseError, ChemParser};

fn element(symbol: &str, atomic_number: u8, atomic_mass: u64) -> Element {
    Element {
        name: format!("element {}", symbol),
        symbol: symbol.to_string(),
        atomic_number,
        atomic_mass,
        density: 0,
        group: None,
        melting_point: None,
        boiling_point: None,
    }
}

fn elements() -> Vec<Element> {
    vec![
        element("H", 1, 1_008_000_000),
        element("C", 6, 12_011_000_000),
        element("N", 7, 14_007_000_000),
        element("O", 8, 15_999_000_000),
        element("Na", 11, 22_990_000_000),
        element("Si", 14, 28_085_000_000),
        element("P", 15, 30_974_000_000),
        element("Cl", 17, 35_450_000_000),
        element("Ca", 20, 40_078_000_000),
        element("Cu", 29, 63_546_000_000),
    ]
}

fn parser() -> ChemParser {
    ChemParser::new(PeriodicTable::from_elements(elements()))
}

#[test]
fn every_table_symbol_parses_to_its_record() {
    let parser = parser();
    for e in elements() {
        let found = parser.parse_element(&e.symbol).unwrap();
        assert_eq!(found.symbol, e.symbol);
        assert_eq!(found.atomic_number, e.atomic_number);
        assert_eq!(found.atomic_mass, e.atomic_mass);
    }
}

#[test]
fn absent_symbol_is_invalid_element() {
    let parser = parser();
    assert_eq!(
        parser.parse_element("Xe").unwrap_err(),
        ChemParseError::InvalidElement("Xe".to_string())
    );
}

#[test]
fn non_symbol_is_parsing_error() {
    let parser = parser();
    assert_eq!(
        parser.parse_element("h").unwrap_err(),
        ChemParseError::ParsingError("element".to_string(), "h".to_string())
    );
    assert!(matches!(parser.parse_element("H2"), Err(ChemParseError::ParsingError(_, _))));
    assert!(matches!(parser.parse_element(""), Err(ChemParseError::ParsingError(_, _))));
}

#[test]
fn later_element_with_same_symbol_replaces_earlier() {
    let table = PeriodicTable::from_elements(vec![element("H", 1, 5), element("H", 1, 7)]);
    assert_eq!(table.get_element("H").unwrap().atomic_mass, 7);
    assert!(table.get_element("He").is_none());
}

#[test]
fn counts_without_groups_sum_each_occurrence() {
    let parser = parser();
    let formula = parser.parse_formula("CH3CH2OH").unwrap();
    assert_eq!(formula.count("C"), 2);
    assert_eq!(formula.count("H"), 6);
    assert_eq!(formula.count("O"), 1);
    assert_eq!(formula.count("N"), 0);
    assert_eq!(formula.elements.len(), 3);
    assert_eq!(formula.elements[0].0, "C");
    assert_eq!(formula.elements[1].0, "H");
    assert_eq!(formula.elements[2].0, "O");
}

#[test]
fn group_multiplier_applies_to_its_contents() {
    let parser = parser();
    let formula = parser.parse_formula("(CO2)4").unwrap();
    assert_eq!(formula.count("C"), 4);
    assert_eq!(formula.count("O"), 8);
}

#[test]
fn nested_group_multipliers_compose() {
    let parser = parser();
    let formula = parser.parse_formula("((OH)2N)3").unwrap();
    assert_eq!(formula.count("O"), 6);
    assert_eq!(formula.count("H"), 6);
    assert_eq!(formula.count("N"), 3);
    let formula = parser.parse_formula("Ca5(PO4)3(OH)").unwrap();
    assert_eq!(formula.count("Ca"), 5);
    assert_eq!(formula.count("P"), 3);
    assert_eq!(formula.count("O"), 13);
    assert_eq!(formula.count("H"), 1);
}

#[test]
fn trailing_bare_element_counts_once() {
    let parser = parser();
    let formula = parser.parse_formula("H2O").unwrap();
    assert_eq!(formula.count("H"), 2);
    assert_eq!(formula.count("O"), 1);
    let formula = parser.parse_formula("NaCl").unwrap();
    assert_eq!(formula.count("Na"), 1);
    assert_eq!(formula.count("Cl"), 1);
    let formula = parser.parse_formula("(OH)2N").unwrap();
    assert_eq!(formula.count("N"), 1);
}

#[test]
fn mass_is_sum_of_count_times_atomic_mass() {
    let parser = parser();
    let formula = parser.parse_formula("H2O").unwrap();
    assert_eq!(formula.mass, 18_015_000_000);
    let mass = formula.mass as f64 / MASS_UNITS_PER_DALTON as f64;
    assert!((mass - 18.015).abs() < 1e-6);
    let formula = parser.parse_formula("Cu2(OH)2CO3").unwrap();
    assert_eq!(
        formula.mass,
        2 * 63_546_000_000 + 5 * 15_999_000_000 + 2 * 1_008_000_000 + 12_011_000_000
    );
}

#[test]
fn malachite_counts() {
    let parser = parser();
    let formula = parser.parse_formula("Cu2(OH)2CO3").unwrap();
    assert_eq!(formula.count("Cu"), 2);
    assert_eq!(formula.count("O"), 5);
    assert_eq!(formula.count("H"), 2);
    assert_eq!(formula.count("C"), 1);
}

#[test]
fn water_synthesis_balances() {
    let parser = parser();
    assert!(parser.parse_equation("2H2 + O2 -> 2H2O").unwrap().check_equation());
    assert!(!parser.parse_equation("H2 + O2 -> H2O").unwrap().check_equation());
    assert!(parser.parse_equation("2HCl+2Na->2NaCl+H2").unwrap().check_equation());
}

#[test]
fn equal_mass_of_different_atoms_balances() {
    let parser = ChemParser::new(PeriodicTable::from_elements(vec![
        element("A", 1, 2_000_000_000),
        element("B", 2, 1_000_000_000),
    ]));
    let equation = parser.parse_equation("A -> B2").unwrap();
    assert!(equation.check_equation());
}

#[test]
fn mass_difference_below_tolerance_balances() {
    let parser = ChemParser::new(PeriodicTable::from_elements(vec![
        element("A", 1, 1_000_000_000),
        element("B", 2, 1_000_000_999),
        element("D", 3, 1_000_001_000),
    ]));
    assert!(parser.parse_equation("A -> B").unwrap().check_equation());
    assert!(!parser.parse_equation("A -> D").unwrap().check_equation());
}

#[test]
fn reparsing_gives_the_same_outcome() {
    let parser = parser();
    for text in ["Xx2", "H0", "(H2O", "Cu2(OH)2CO3", "H2O"] {
        let first = parser.parse_formula(text);
        let second = parser.parse_formula(text);
        match (first, second) {
            (Ok(a), Ok(b)) => {
                assert_eq!(a.formula, b.formula);
                assert_eq!(a.elements, b.elements);
                assert_eq!(a.mass, b.mass);
            }
            (Err(a), Err(b)) => assert_eq!(a, b),
            _ => panic!("outcomes differ for {}", text),
        }
    }
    let a = parser.parse_equation("2H2 + Xy -> 2H2O");
    let b = parser.parse_equation("2H2 + Xy -> 2H2O");
    assert_eq!(a.unwrap_err(), b.unwrap_err());
}

#[test]
fn zero_and_leading_zero_numbers_are_rejected() {
    let parser = parser();
    for text in ["H0", "H02", "(OH)0", "(OH)01"] {
        assert_eq!(
            parser.parse_formula(text).unwrap_err(),
            ChemParseError::ParsingError("formula".to_string(), text.to_string())
        );
    }
    for text in ["0H2 + O2 -> H2O", "02H2 + O2 -> 2H2O", "2H2 + O2 -> 02H2O"] {
        assert_eq!(
            parser.parse_equation(text).unwrap_err(),
            ChemParseError::ParsingError("equation".to_string(), text.to_string())
        );
    }
    assert!(ChemParser::parse(Rule::coefficient, "02").is_err());
    assert!(ChemParser::parse(Rule::index, "0").is_err());
}

#[test]
fn batch_reports_each_line_in_order() {
    let parser = parser();
    let lines: Vec<String> = vec![
        "2H2 + O2 -> 2H2O".to_string(),
        "2 + O2 -> 2H2O".to_string(),
        "H2 + O2 -> H2O".to_string(),
        "Xx + O2 -> H2O".to_string(),
    ];
    let reports = parser.parse_equations(&lines);
    assert_eq!(reports.len(), 4);
    for (i, r) in reports.iter().enumerate() {
        assert_eq!(r.line, i + 1);
    }
    assert!(matches!(reports[0].result, Ok((_, true))));
    assert!(matches!(reports[1].result, Err(ChemParseError::ParsingError(_, _))));
    assert!(matches!(reports[2].result, Ok((_, false))));
    assert_eq!(
        reports[3].result.as_ref().unwrap_err(),
        &ChemParseError::InvalidFormula("Xx".to_string(), "Xx".to_string())
    );
    assert_eq!(reports.iter().filter(|r| r.result.is_err()).count(), 2);
}

#[test]
fn invalid_symbol_in_equation_names_formula() {
    let parser = parser();
    assert_eq!(
        parser.parse_equation("H2 + Yx2 -> H2O").unwrap_err(),
        ChemParseError::InvalidFormula("Yx2".to_string(), "Yx".to_string())
    );
}

#[test]
fn first_invalid_symbol_is_reported() {
    let parser = parser();
    assert_eq!(
        parser.parse_formula("H(QrZz)2Ab").unwrap_err(),
        ChemParseError::InvalidElement("Qr".to_string())
    );
}

#[test]
fn oversized_coefficient_is_invalid() {
    let parser = parser();
    assert_eq!(
        parser.parse_equation("99999999999999999999H2 -> H2").unwrap_err(),
        ChemParseError::InvalidCoefficientFormat("99999999999999999999".to_string())
    );
    assert_eq!(parser.parse_equation("18446744073709551615H -> H").unwrap().reactant_coefficient("H"), u64::MAX);
}

#[test]
fn counts_beyond_u64_overflow() {
    let parser = parser();
    assert_eq!(
        parser.parse_formula("H18446744073709551615H").unwrap_err(),
        ChemParseError::Overflow("H18446744073709551615H".to_string())
    );
    assert_eq!(
        parser.parse_formula("(H4294967296)4294967296").unwrap_err(),
        ChemParseError::Overflow("(H4294967296)4294967296".to_string())
    );
    assert_eq!(parser.parse_formula("H18446744073709551615").unwrap().count("H"), u64::MAX);
}

#[test]
fn repeated_formula_keeps_last_coefficient() {
    let parser = parser();
    let equation = parser.parse_equation("H2 + 3H2 -> 4H").unwrap();
    assert_eq!(equation.reactant_coefficient("H2"), 3);
    assert_eq!(equation.reactants.len(), 1);
    assert!(!equation.check_equation());
    assert_eq!(equation.product_coefficient("H"), 4);
    assert_eq!(equation.product_coefficient("H2"), 0);
}

#[test]
fn whitespace_is_allowed_only_between_terms() {
    let parser = parser();
    assert!(parser.parse_equation("H2\t+  O2->H2O").is_ok());
    assert!(parser.parse_equation("H2 O2 -> H2O").is_err());
    assert!(parser.parse_formula("H2 O").is_err());
    assert!(parser.parse_formula("").is_err());
    assert!(parser.parse_equation("").is_err());
}

#[test]
fn rule_errors_name_the_rule() {
    assert_eq!(
        ChemParser::parse(Rule::group, "CO2 4"),
        Err(ChemParseError::ParsingError("group".to_string(), "CO2 4".to_string()))
    );
    assert!(ChemParser::parse(Rule::equation, "2H2 + O2 -> 2H2O").is_ok());
    assert!(ChemParser::parse(Rule::WS, "\t").is_ok());
}

#[test]
fn oversized_index_is_invalid() {
    let parser = parser();
    assert_eq!(
        parser.parse_formula("H99999999999999999999").unwrap_err(),
        ChemParseError::InvalidIndexFormat("99999999999999999999".to_string())
    );
    assert_eq!(
        parser.parse_formula("(H18446744073709551616)28446744073709551616").unwrap_err(),
        ChemParseError::InvalidIndexFormat("18446744073709551616".to_string())
    );
    assert_eq!(
        parser.parse_formula("Xx99999999999999999999").unwrap_err(),
        ChemParseError::InvalidElement("Xx".to_string())
    );
    assert_eq!(
        parser.parse_equation("H2 -> H99999999999999999999").unwrap_err(),
        ChemParseError::InvalidIndexFormat("99999999999999999999".to_string())
    );
}
