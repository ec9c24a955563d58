//! Parsing of chemical notation: element symbols, formulas with nested
//! groups, and equations with coefficients, checked against a periodic table.
//!
//! A formula's element counts carry the multipliers of every enclosing
//! group; its mass is the sum of each count times the element's atomic mass;
//! an equation balances when the masses of its two sides agree within a
//! tolerance.
pub mod analysis;
pub mod element;
pub mod entries;
pub mod grammar;
pub mod laws;

use crate::analysis::{
    counts_fit,
    formula_entries,
    formula_mass,
    items_count,
    items_bad_index,
    items_invalid,
    items_syms,
    find_bad_index_pairs,
    lemma_syms_valid_items,
    mass_of,
    process_pairs,
    find_invalid_pairs,
};
use crate::element::{
    formulas_view,
    side_mass,
    Element,
    Equation,
    EquationView,
    Formula,
    FormulaView,
    PeriodicTable,
};
use crate::entries::{
    count_of,
    entries_view,
    find_key,
    insert_entry,
    keys_of,
    lemma_insert_entry,
    lemma_key_index_range,
    lemma_key_index_unique,
    unique_keys,
};
use crate::grammar::{
    chars_of,
    digits_to_u64,
    equation_terms,
    is_formula,
    is_symbol,
    lemma_number_value_positive,
    matches_rule,
    number_value,
    rule_matches,
    rule_name,
    rule_name_of,
    Rule,
    scan_equation,
    scan_items,
    scan_lower,
    spans_in,
    spans_view,
    Term,
    TermSpan,
};
use vstd::prelude::*;

verus! {

/// A parse error seen as plain text values.
pub enum Fault {
    InvalidElement(Seq<char>),
    InvalidFormula(Seq<char>, Seq<char>),
    ParsingError(Seq<char>, Seq<char>),
    InvalidIndexFormat(Seq<char>),
    InvalidCoefficientFormat(Seq<char>),
    Overflow(Seq<char>),
}

/// Possible errors in chemical parsing.
#[derive(Debug, Clone, PartialEq, Eq)]
pub enum ChemParseError {
    /// A symbol that is not in the periodic table.
    InvalidElement(String),
    /// A formula, within an equation, with a symbol that is not in the
    /// periodic table: the formula, then the symbol.
    InvalidFormula(String, String),
    /// A text that the grammar rejects: the rule it was read as, then the text.
    ParsingError(String, String),
    /// An index whose value outgrows a `u64`: its digits.
    InvalidIndexFormat(String),
    /// A coefficient that is not a positive integer a `u64` holds.
    InvalidCoefficientFormat(String),
    /// A formula or equation whose counts or masses outgrow the integers
    /// that hold them.
    Overflow(String),
}

impl View for ChemParseError {
    type V = Fault;

    open spec fn view(&self) -> Fault {
        match self {
            ChemParseError::InvalidElement(a) => Fault::InvalidElement(a@),
            ChemParseError::InvalidFormula(a, b) => Fault::InvalidFormula(a@, b@),
            ChemParseError::ParsingError(a, b) => Fault::ParsingError(a@, b@),
            ChemParseError::InvalidIndexFormat(a) => Fault::InvalidIndexFormat(a@),
            ChemParseError::InvalidCoefficientFormat(a) => Fault::InvalidCoefficientFormat(a@),
            ChemParseError::Overflow(a) => Fault::Overflow(a@),
        }
    }
}

/// A result seen through the views of its values.
pub open spec fn result_view<T: View>(r: Result<T, ChemParseError>) -> Result<T::V, Fault> {
    match r {
        Ok(v) => Ok(v@),
        Err(e) => Err(e@),
    }
}

/// What parsing the text `s` as a formula gives, under the table `t`.
pub open spec fn formula_outcome(t: Map<Seq<char>, Element>, s: Seq<char>) -> Result<
    FormulaView,
    Fault,
> {
    if !is_formula(s) {
        Err(Fault::ParsingError("formula"@, s))
    } else if items_invalid(t, s, 0) is Some {
        Err(Fault::InvalidElement(items_invalid(t, s, 0)->0))
    } else if items_bad_index(s, 0) is Some {
        Err(Fault::InvalidIndexFormat(items_bad_index(s, 0)->0))
    } else if !counts_fit(t, s) {
        Err(Fault::Overflow(s))
    } else {
        Ok(FormulaView { formula: s, elements: formula_entries(s), mass: formula_mass(t, s) })
    }
}

/// The formula of a term.
pub open spec fn term_formula(s: Seq<char>, t: Term) -> Seq<char> {
    s.subrange(t.formula_start, t.end)
}

/// The coefficient of a term: its number, or 1 where none is written.
pub open spec fn term_coefficient(s: Seq<char>, t: Term) -> nat {
    number_value(s, t.start)
}

/// A fault of a formula, as it is reported within an equation.
pub open spec fn in_equation(formula: Seq<char>, f: Fault) -> Fault {
    match f {
        Fault::InvalidElement(x) => Fault::InvalidFormula(formula, x),
        _ => f,
    }
}

/// The fault of the first term, in order, that has one.
pub open spec fn terms_fault(t: Map<Seq<char>, Element>, s: Seq<char>, ts: Seq<Term>) -> Option<
    Fault,
>
    decreases ts.len(),
{
    if ts.len() == 0 {
        None
    } else if term_coefficient(s, ts[0]) > u64::MAX {
        Some(Fault::InvalidCoefficientFormat(s.subrange(ts[0].start, ts[0].formula_start)))
    } else {
        match formula_outcome(t, term_formula(s, ts[0])) {
            Err(f) => Some(in_equation(term_formula(s, ts[0]), f)),
            Ok(_) => terms_fault(t, s, ts.drop_first()),
        }
    }
}

/// The coefficients of a side: each formula once, in order of first
/// appearance, with the coefficient of its last term.
pub open spec fn side_entries(s: Seq<char>, ts: Seq<Term>) -> Seq<(Seq<char>, nat)>
    decreases ts.len(),
{
    if ts.len() == 0 {
        Seq::empty()
    } else {
        insert_entry(
            side_entries(s, ts.drop_last()),
            term_formula(s, ts.last()),
            term_coefficient(s, ts.last()),
        )
    }
}

/// The formula of each entry of a side.
pub open spec fn side_formulas(t: Map<Seq<char>, Element>, es: Seq<(Seq<char>, nat)>) -> Seq<
    FormulaView,
> {
    es.map_values(|e: (Seq<char>, nat)| formula_outcome(t, e.0)->Ok_0)
}

/// What parsing the text `s` as an equation gives, under the table `t`.
pub open spec fn equation_outcome(t: Map<Seq<char>, Element>, s: Seq<char>) -> Result<
    EquationView,
    Fault,
> {
    match equation_terms(s) {
        None => Err(Fault::ParsingError("equation"@, s)),
        Some((rt, pt)) => if terms_fault(t, s, rt) is Some {
            Err(terms_fault(t, s, rt)->0)
        } else if terms_fault(t, s, pt) is Some {
            Err(terms_fault(t, s, pt)->0)
        } else {
            let re = side_entries(s, rt);
            let pe = side_entries(s, pt);
            let rf = side_formulas(t, re);
            let pf = side_formulas(t, pe);
            if side_mass(re, rf, re.len() as int) > u128::MAX || side_mass(pe, pf, pe.len() as int)
                > u128::MAX {
                Err(Fault::Overflow(s))
            } else {
                Ok(
                    EquationView {
                        equation: s,
                        reactants: re,
                        products: pe,
                        reactants_formulas: rf,
                        products_formulas: pf,
                    },
                )
            }
        },
    }
}

/// The mass of a side, where it fits a `u128`.
fn side_mass_checked(coefs: &Vec<(String, u64)>, formulas: &Vec<Formula>) -> (r: Option<u128>)
    requires
        coefs.len() == formulas.len(),
    ensures
        r matches Some(m) ==> m == side_mass(
            entries_view(coefs@),
            formulas_view(formulas@),
            coefs.len() as int,
        ),
        r is None ==> side_mass(entries_view(coefs@), formulas_view(formulas@), coefs.len() as int)
            > u128::MAX,
{
    let ghost cs = entries_view(coefs@);
    let ghost fs = formulas_view(formulas@);
    let mut total: u128 = 0;
    let mut k: usize = 0;
    while k < coefs.len()
        invariant
            k <= coefs.len() == formulas.len(),
            cs == entries_view(coefs@),
            fs == formulas_view(formulas@),
            total == side_mass(cs, fs, k as int),
        decreases coefs.len() - k,
    {
        assert(cs[k as int].1 == coefs[k as int].1);
        assert(fs[k as int].mass == formulas[k as int].mass);
        let next = match (coefs[k].1 as u128).checked_mul(formulas[k].mass) {
            Some(term) => total.checked_add(term),
            None => None,
        };
        match next {
            Some(t) => {
                total = t;
            },
            None => {
                proof {
                    crate::element::lemma_side_mass_mono(cs, fs, k + 1, coefs.len() as int);
                }
                return None;
            },
        }
        k += 1;
    }
    Some(total)
}

/// Parser for chemical elements, formulas and equations against a periodic table.
pub struct ChemParser {
    periodic_table: PeriodicTable,
}

impl View for ChemParser {
    type V = Map<Seq<char>, Element>;

    closed spec fn view(&self) -> Map<Seq<char>, Element> {
        self.periodic_table@
    }
}

impl ChemParser {
    /// A parser that checks symbols against the given periodic table.
    pub fn new(periodic_table: PeriodicTable) -> (r: Self)
        ensures
            r@ == periodic_table@,
    {
        ChemParser { periodic_table }
    }

    /// Reads the whole of `text` as `rule`: an error names the rule and the text.
    pub fn parse(rule: Rule, text: &str) -> (r: Result<(), ChemParseError>)
        ensures
            r is Ok <==> rule_matches(rule, text@),
            r matches Err(e) ==> e@ == Fault::ParsingError(rule_name(rule), text@),
    {
        let s = chars_of(text);
        if matches_rule(rule, &s) {
            Ok(())
        } else {
            Err(ChemParseError::ParsingError(rule_name_of(rule), text.to_owned()))
        }
    }

    /// The periodic table.
    pub fn get_table(&self) -> (r: &PeriodicTable)
        ensures
            r@ == self@,
    {
        &self.periodic_table
    }

    /// The element whose symbol is the whole of `element`.
    pub fn parse_element(&self, element: &str) -> (r: Result<&Element, ChemParseError>)
        ensures
            !is_symbol(element@) ==> (r matches Err(e) && e@ == Fault::ParsingError(
                "element"@,
                element@,
            )),
            is_symbol(element@) && !self@.contains_key(element@) ==> (r matches Err(e) && e@
                == Fault::InvalidElement(element@)),
            is_symbol(element@) && self@.contains_key(element@) ==> (r matches Ok(el) && *el
                == self@[element@]),
    {
        let s = chars_of(element);
        if !(s.len() > 0 && 'A' <= s[0] && s[0] <= 'Z' && scan_lower(&s, 1) == s.len()) {
            return Err(ChemParseError::ParsingError("element".to_owned(), element.to_owned()));
        }
        match self.periodic_table.get_element(element) {
            Some(el) => Ok(el),
            None => Err(ChemParseError::InvalidElement(element.to_owned())),
        }
    }

    /// The formula that `formula` writes: each element's count, with the
    /// multipliers of its enclosing groups, and the mass.
    pub fn parse_formula(&self, formula: &str) -> (r: Result<Formula, ChemParseError>)
        ensures
            result_view(r) == formula_outcome(self@, formula@),
    {
        let s = chars_of(formula);
        if !(s.len() > 0 && scan_items(&s, 0) == s.len()) {
            return Err(ChemParseError::ParsingError("formula".to_owned(), formula.to_owned()));
        }
        if let Some(x) = find_invalid_pairs(&self.periodic_table, &s, formula, 0) {
            return Err(ChemParseError::InvalidElement(x));
        }
        if let Some(x) = find_bad_index_pairs(&s, formula, 0) {
            return Err(ChemParseError::InvalidIndexFormat(x));
        }
        let mut counts: Vec<(String, u64)> = Vec::new();
        assert(unique_keys(entries_view(counts@)));
        let ok = process_pairs(&s, formula, 0, 1, &mut counts);
        let ghost es = entries_view(counts@);
        let ghost empty = Seq::<(Seq<char>, nat)>::empty();
        assert(entries_view(Seq::<(String, u64)>::empty()) =~= empty);
        assert(keys_of(empty) =~= Seq::<Seq<char>>::empty());
        if !ok {
            proof {
                assert forall|sym: Seq<char>| count_of(empty, sym) == 0 by {}
                assert forall|sym: Seq<char>| #[trigger] items_count(s@, 0, sym) == 1 * items_count(s@, 0, sym) by {}
            }
            return Err(ChemParseError::Overflow(formula.to_owned()));
        }
        proof {
            let fe = formula_entries(s@);
            assert(keys_of(es) == items_syms(s@, 0, Seq::empty()));
            assert forall|k: int| 0 <= k < es.len() implies #[trigger] es[k] == fe[k] by {
                assert(keys_of(es)[k] == es[k].0);
                lemma_key_index_unique(es, k);
                assert(count_of(es, es[k].0) == es[k].1);
                assert(count_of(empty, es[k].0) == 0);
                assert(items_count(s@, 0, es[k].0) == 1 * items_count(s@, 0, es[k].0));
            }
            assert(es =~= fe);
            assert forall|sym: Seq<char>| #[trigger] items_count(s@, 0, sym) <= u64::MAX by {
                assert(count_of(empty, sym) == 0);
                assert(items_count(s@, 0, sym) == 1 * items_count(s@, 0, sym));
                crate::entries::lemma_key_index_range(es, sym);
            }
            lemma_syms_valid_items(self@, s@, 0, Seq::empty());
            assert forall|k: int| 0 <= k < counts.len() implies self@.contains_key(
                #[trigger] counts@[k].0@,
            ) by {
                assert(counts@[k].0@ == keys_of(es)[k]);
            }
        }
        match mass_of(&self.periodic_table, &counts) {
            None => Err(ChemParseError::Overflow(formula.to_owned())),
            Some(m) => Ok(Formula { formula: formula.to_owned(), elements: counts, mass: m }),
        }
    }

    /// Parses each line as an equation, in order, going on past the lines
    /// that fail: the report of each line holds its number and its outcome.
    pub fn parse_equations(&self, lines: &Vec<String>) -> (r: Vec<LineReport>)
        ensures
            r.len() == lines.len(),
            forall|k: int| 0 <= k < lines.len() ==> reports_line(self@, #[trigger] r@[k], k + 1, lines@[k]@),
    {
        let mut r: Vec<LineReport> = Vec::new();
        let mut k: usize = 0;
        while k < lines.len()
            invariant
                k <= lines.len(),
                r.len() == k,
                forall|m: int| 0 <= m < k ==> reports_line(self@, #[trigger] r@[m], m + 1, lines@[m]@),
            decreases lines.len() - k,
        {
            let result = match self.parse_equation(lines[k].as_str()) {
                Ok(eq) => {
                    let b = eq.check_equation();
                    Ok((eq, b))
                },
                Err(e) => Err(e),
            };
            r.push(LineReport { line: k + 1, result });
            k += 1;
        }
        r
    }

    /// Reads the terms `spans` of one side of an equation into `side` (each
    /// formula with its coefficient) and `formulas` (the formula of each entry).
    fn process_side(
        &self,
        text: &str,
        s: &Vec<char>,
        spans: &Vec<TermSpan>,
        side: &mut Vec<(String, u64)>,
        formulas: &mut Vec<Formula>,
    ) -> (r: Result<(), ChemParseError>)
        requires
            text@ == s@,
            spans_in(s@, spans@),
            old(side)@.len() == 0,
            old(formulas)@.len() == 0,
        ensures
            r is Ok ==> terms_fault(self@, s@, spans_view(spans@)) is None,
            r is Ok ==> entries_view(final(side)@) == side_entries(s@, spans_view(spans@)),
            r is Ok ==> formulas_view(final(formulas)@) == side_formulas(
                self@,
                entries_view(final(side)@),
            ),
            r is Ok ==> side_formulas_match(entries_view(final(side)@), formulas_view(final(formulas)@)),
            r matches Err(e) ==> terms_fault(self@, s@, spans_view(spans@)) == Some(e@),
    {
        let ghost ts = spans_view(spans@);
        let mut k: usize = 0;
        assert(ts.subrange(0, 0) =~= Seq::<Term>::empty());
        assert(ts.subrange(0, ts.len() as int) =~= ts);
        assert(entries_view(side@) =~= Seq::<(Seq<char>, nat)>::empty());
        assert(formulas_view(formulas@) =~= Seq::<FormulaView>::empty());
        while k < spans.len()
            invariant
                text@ == s@,
                ts == spans_view(spans@),
                spans_in(s@, spans@),
                k <= spans.len(),
                terms_fault(self@, s@, ts) == terms_fault(self@, s@, ts.subrange(k as int, ts.len() as int)),
                entries_view(side@) == side_entries(s@, ts.subrange(0, k as int)),
                formulas_view(formulas@) == side_formulas(self@, entries_view(side@)),
                unique_keys(entries_view(side@)),
                forall|m: int| 0 <= m < side@.len() ==> (#[trigger] formula_outcome(self@, side@[m].0@)) is Ok,
            decreases spans.len() - k,
        {
            let t = spans[k];
            let ghost tv = ts[k as int];
            assert(tv == t@);
            let ghost rest = ts.subrange(k as int, ts.len() as int);
            assert(rest[0] == tv);
            assert(rest.drop_first() =~= ts.subrange(k + 1, ts.len() as int));
            proof {
                lemma_number_value_positive(s@, t.start as int);
            }
            let coefficient: u64 = if t.start < t.formula_start {
                match digits_to_u64(s, t.start, t.formula_start) {
                    Some(v) => v,
                    None => {
                        let digits = text.substring_char(t.start, t.formula_start).to_owned();
                        return Err(ChemParseError::InvalidCoefficientFormat(digits));
                    },
                }
            } else {
                1
            };
            assert(coefficient == term_coefficient(s@, tv));
            let sub = text.substring_char(t.formula_start, t.end);
            assert(sub@ == term_formula(s@, tv));
            let f = match self.parse_formula(sub) {
                Ok(f) => f,
                Err(e) => {
                    return Err(
                        match e {
                            ChemParseError::InvalidElement(x) => ChemParseError::InvalidFormula(
                                sub.to_owned(),
                                x,
                            ),
                            other => other,
                        },
                    );
                },
            };
            assert(formula_outcome(self@, sub@) == Ok::<FormulaView, Fault>(f@));
            let key = sub.to_owned();
            assert(formulas_view(formulas@).len() == formulas@.len());
            assert(entries_view(side@).len() == side@.len());
            let ghost old_es = entries_view(side@);
            let ghost old_fs = formulas_view(formulas@);
            proof {
                lemma_key_index_range(old_es, key@);
                lemma_insert_entry(old_es, key@, coefficient as nat);
                let pre = ts.subrange(0, k + 1);
                assert(pre.drop_last() =~= ts.subrange(0, k as int));
                assert(pre.last() == tv);
            }
            match find_key(side, &key) {
                Some(i) => {
                    side.set(i, (key, coefficient));
                    formulas.set(i, f);
                    assert(entries_view(side@) =~= insert_entry(old_es, sub@, coefficient as nat));
                    assert forall|m: int| 0 <= m < formulas@.len() implies #[trigger] formulas_view(formulas@)[m] == side_formulas(self@, entries_view(side@))[m] by {
                        if m != i {
                            assert(formulas_view(formulas@)[m] == old_fs[m]);
                            assert(entries_view(side@)[m] == old_es[m]);
                        }
                    }
                    assert(formulas_view(formulas@) =~= side_formulas(self@, entries_view(side@)));
                },
                None => {
                    side.push((key, coefficient));
                    formulas.push(f);
                    assert(entries_view(side@) =~= insert_entry(old_es, sub@, coefficient as nat));
                    assert forall|m: int| 0 <= m < formulas@.len() implies #[trigger] formulas_view(formulas@)[m] == side_formulas(self@, entries_view(side@))[m] by {
                        if m < old_fs.len() {
                            assert(formulas_view(formulas@)[m] == old_fs[m]);
                            assert(entries_view(side@)[m] == old_es[m]);
                        }
                    }
                    assert(formulas_view(formulas@) =~= side_formulas(self@, entries_view(side@)));
                },
            }
            assert forall|m: int| 0 <= m < side@.len() implies (#[trigger] formula_outcome(self@, side@[m].0@)) is Ok by {
                assert(side@[m].0@ == entries_view(side@)[m].0);
            }
            k += 1;
        }
        proof {
            let es = entries_view(side@);
            let fs = formulas_view(formulas@);
            assert forall|m: int| 0 <= m < es.len() implies (#[trigger] fs[m]).formula == es[m].0 by {
                assert(es[m].0 == side@[m].0@);
                assert(formula_outcome(self@, side@[m].0@) is Ok);
            }
        }
        Ok(())
    }

    /// The equation that `equation` writes: the coefficient and formula of
    /// each term of each side.
    pub fn parse_equation(&self, equation: &str) -> (r: Result<Equation, ChemParseError>)
        ensures
            result_view(r) == equation_outcome(self@, equation@),
            r matches Ok(eq) ==> eq.wf(),
    {
        let s = chars_of(equation);
        let (rt, pt) = match scan_equation(&s) {
            Some(x) => x,
            None => {
                return Err(ChemParseError::ParsingError("equation".to_owned(), equation.to_owned()));
            },
        };
        let mut reactants: Vec<(String, u64)> = Vec::new();
        let mut reactants_formulas: Vec<Formula> = Vec::new();
        let mut products: Vec<(String, u64)> = Vec::new();
        let mut products_formulas: Vec<Formula> = Vec::new();
        self.process_side(equation, &s, &rt, &mut reactants, &mut reactants_formulas)?;
        self.process_side(equation, &s, &pt, &mut products, &mut products_formulas)?;
        if side_mass_checked(&reactants, &reactants_formulas).is_none()
            || side_mass_checked(&products, &products_formulas).is_none() {
            return Err(ChemParseError::Overflow(equation.to_owned()));
        }
        Ok(
            Equation::new(
                equation.to_owned(),
                reactants,
                products,
                reactants_formulas,
                products_formulas,
            ),
        )
    }
}

/// The outcome of one line of a batch of equations.
#[derive(Debug)]
pub struct LineReport {
    /// The line's number, counting from 1.
    pub line: usize,
    /// The equation with whether it balances, or why the line failed.
    pub result: Result<(Equation, bool), ChemParseError>,
}

/// The report of a line holds the outcome of parsing the text `s` as an
/// equation, numbered `line`, with the balance of each equation that parsed.
pub open spec fn reports_line(t: Map<Seq<char>, Element>, r: LineReport, line: int, s: Seq<char>) -> bool {
    &&& r.line == line
    &&& match r.result {
        Ok((eq, b)) => equation_outcome(t, s) == Ok::<EquationView, Fault>(eq@) && eq.wf() && b
            == crate::element::balanced(eq.reactants_mass(), eq.products_mass()),
        Err(e) => equation_outcome(t, s) == Err::<EquationView, Fault>(e@),
    }
}

/// How many reports tell of a failure.
pub open spec fn error_count(rs: Seq<LineReport>) -> nat
    decreases rs.len(),
{
    if rs.len() == 0 {
        0
    } else {
        error_count(rs.drop_last()) + if rs.last().result is Err {
            1nat
        } else {
            0nat
        }
    }
}

/// How many of the texts do not parse as equations.
pub open spec fn failing_lines(t: Map<Seq<char>, Element>, lines: Seq<Seq<char>>) -> nat
    decreases lines.len(),
{
    if lines.len() == 0 {
        0
    } else {
        failing_lines(t, lines.drop_last()) + if equation_outcome(t, lines.last()) is Err {
            1nat
        } else {
            0nat
        }
    }
}

/// A batch reports exactly as many errors as it has lines that fail to parse,
/// and a success for each of the others.
pub proof fn lemma_batch_error_count(
    t: Map<Seq<char>, Element>,
    lines: Seq<Seq<char>>,
    reports: Seq<LineReport>,
)
    requires
        reports.len() == lines.len(),
        forall|k: int| 0 <= k < lines.len() ==> reports_line(t, #[trigger] reports[k], k + 1, lines[k]),
    ensures
        error_count(reports) == failing_lines(t, lines),
        reports.len() - error_count(reports) == lines.len() - failing_lines(t, lines),
    decreases lines.len(),
{
    if lines.len() > 0 {
        let n = lines.len() - 1;
        assert forall|k: int| 0 <= k < n implies reports_line(t, #[trigger] reports.drop_last()[k], k + 1, lines.drop_last()[k]) by {
            assert(reports.drop_last()[k] == reports[k]);
        }
        lemma_batch_error_count(t, lines.drop_last(), reports.drop_last());
        assert(reports_line(t, reports[n], n + 1, lines[n]));
        lemma_error_count_le(reports);
    }
}

pub proof fn lemma_error_count_le(rs: Seq<LineReport>)
    ensures
        error_count(rs) <= rs.len(),
    decreases rs.len(),
{
    if rs.len() > 0 {
        lemma_error_count_le(rs.drop_last());
    }
}

/// A side has a formula for each entry, with the entry's text.
pub open spec fn side_formulas_match(coefs: Seq<(Seq<char>, nat)>, formulas: Seq<FormulaView>) -> bool {
    &&& coefs.len() == formulas.len()
    &&& forall|k: int| 0 <= k < coefs.len() ==> (#[trigger] formulas[k]).formula == coefs[k].0
}

} // verus!
