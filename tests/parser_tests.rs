use chemistry_parser::grammar::Rule;
use chemistry_parser::element::{Element, PeriodicTable};
use chemistry_parser::ChemParser;

fn table() -> PeriodicTable {
    let element = |symbol: &str, atomic_mass: u64| Element {
        name: symbol.to_string(),
        symbol: symbol.to_string(),
        atomic_number: 1,
        atomic_mass,
        density: 0,
        group: None,
        melting_point: None,
        boiling_point: None,
    };
    PeriodicTable::from_elements(vec![
        element("H", 1_008_000_000),
        element("C", 12_011_000_000),
        element("O", 15_999_000_000),
        element("Na", 22_990_000_000),
    ])
}

#[test]
fn parser_tests_test_successful_element_parse() {
    assert!(ChemParser::parse(Rule::element, "H").is_ok());
    assert!(ChemParser::parse(Rule::element, "Li").is_ok());
}

#[test]
fn parser_tests_test_unsuccessful_element_parse() {
    assert!(ChemParser::parse(Rule::element, "2").is_err());

    assert!(ChemParser::parse(Rule::element, "h").is_err());
}

#[test]
fn parser_tests_test_correct_element_parse() {
    let successful_parse = ChemParser::parse(Rule::element, "Na");

    assert!(successful_parse.is_ok());

    let parser = ChemParser::new(table());
    let element = parser.parse_element("Na").unwrap();
    assert_eq!(element.symbol, "Na");
}

#[test]
fn parser_tests_test_successful_formula_parse() {
    assert!(ChemParser::parse(Rule::formula, "H2O").is_ok());
    assert!(ChemParser::parse(Rule::formula, "NaCl").is_ok());
}

#[test]
fn parser_tests_test_correct_formula_parse() {
    let successful_parse = ChemParser::parse(Rule::formula, "CH2O");

    assert!(successful_parse.is_ok());

    let parser = ChemParser::new(table());
    let formula = parser.parse_formula("CH2O").unwrap();
    assert_eq!(formula.formula, "CH2O");
    assert_eq!(formula.elements[0].0, "C");
    assert_eq!(formula.elements[1].0, "H");
    assert_eq!(formula.count("H"), 2);
    assert_eq!(formula.elements[2].0, "O");
    assert_eq!(formula.count("O"), 1);
}


#[test]
fn parser_tests_test_invalid_formula() {
    assert!(ChemParser::parse(Rule::formula, "2O2").is_err());

    assert!(ChemParser::parse(Rule::formula, "h2o").is_err());
}

#[test]
fn parser_tests_test_successful_group_parse() {
    assert!(ChemParser::parse(Rule::group, "(H2O)").is_ok());
    assert!(ChemParser::parse(Rule::group, "(CO2)4").is_ok());
}

#[test]
fn parser_tests_test_unsuccessful_group_parse() {
    assert!(ChemParser::parse(Rule::group, "((H2O)").is_err());
    assert!(ChemParser::parse(Rule::group, "CO2 4").is_err());
}

#[test]
fn parser_tests_test_successful_formula_with_group_parse() {
    assert!(ChemParser::parse(Rule::formula, "Al2(Si2O5)(OH)4").is_ok());
    assert!(ChemParser::parse(Rule::formula, "Ca5(PO4)3(OH)").is_ok());
}

#[test]
fn parser_tests_test_successful_equation_parse() {
    assert!(ChemParser::parse(Rule::equation, "2H2 + O2 -> 2H2O").is_ok());
    assert!(ChemParser::parse(Rule::equation, "2HCl + 2Na -> 2NaCl + H2").is_ok());
}


#[test]
fn parser_tests_test_unsuccessful_equation_parse() {
    assert!(ChemParser::parse(Rule::equation, "2 + O2 -> 2H2O").is_err());
    assert!(ChemParser::parse(Rule::equation, "2HCl + 2Na = 2NaCl + H2").is_err());
}