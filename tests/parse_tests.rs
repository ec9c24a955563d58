use chemistry_parser::element::{Element, PeriodicTable, MASS_UNITS_PER_DALTON};
use chemistry_parser::{ChemParseError, ChemParser};

fn element(name: &str, symbol: &str, atomic_number: u8, atomic_mass: u64) -> Element {
    Element {
        name: name.to_string(),
        symbol: symbol.to_string(),
        atomic_number,
        atomic_mass,
        density: 0,
        group: None,
        melting_point: None,
        boiling_point: None,
    }
}

fn parser() -> ChemParser {
    ChemParser::new(PeriodicTable::from_elements(vec![
        element("Hydrogen", "H", 1, 1_008_000_000),
        element("Carbon", "C", 6, 12_011_000_000),
        element("Oxygen", "O", 8, 15_999_000_000),
        element("Sodium", "Na", 11, 22_990_000_000),
        element("Chlorine", "Cl", 17, 35_450_000_000),
        element("Copper", "Cu", 29, 63_546_000_000),
    ]))
}

#[test]
fn test_parse_element_valid() {
    let parser = parser();
    let element = parser.parse_element("H").unwrap();
    assert_eq!(element.symbol, "H");
    assert_eq!(element.atomic_mass as f64 / MASS_UNITS_PER_DALTON as f64, 1.008);
}

#[test]
fn test_parse_element_invalid() {
    let parser = parser();
    let result = parser.parse_element("Ha");
    assert!(matches!(result, Err(ChemParseError::InvalidElement(_))));
}

#[test]
fn test_parse_formula() {
    let parser = parser();
    let formula = parser.parse_formula("H2O").unwrap();
    assert_eq!(formula.formula, "H2O");
    assert_eq!(formula.count("H"), 2);
    assert_eq!(formula.count("O"), 1);
    assert_eq!(formula.mass as f64 / MASS_UNITS_PER_DALTON as f64, 18.015);
}

#[test]
fn test_parse_formula_with_groups() {
    let parser = parser();
    let formula = parser.parse_formula("Cu2(OH)2CO3").unwrap();
    assert_eq!(formula.count("Cu"), 2);
    assert_eq!(formula.count("O"), 5);
    assert_eq!(formula.count("H"), 2);
    assert_eq!(formula.count("C"), 1);
}

#[test]
fn test_parse_formula_invalid_element() {
    let parser = parser();
    let result = parser.parse_formula("Yx2");
    assert!(matches!(result, Err(ChemParseError::InvalidElement(_))));
}

#[test]
fn test_parse_equation_balanced() {
    let parser = parser();
    let equation = parser.parse_equation("2H2 + O2 -> 2H2O").unwrap();

    assert_eq!(equation.reactant_coefficient("H2"), 2);
    assert_eq!(equation.reactant_coefficient("O2"), 1);
    assert_eq!(equation.product_coefficient("H2O"), 2);

    assert!(equation.check_equation());
}

#[test]
fn test_parse_equation_unbalanced() {
    let parser = parser();
    let equation = parser.parse_equation("H2 + O2 -> H2O").unwrap();

    assert!(!equation.check_equation());
}
