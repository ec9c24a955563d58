//! Chemical elements, the periodic table, formulas and equations.
//!
//! Masses are fixed-point integers: `MASS_UNITS_PER_DALTON` units make one
//! dalton (unified atomic mass unit).
use crate::entries::{count_in, count_of, entries_view};
use vstd::prelude::*;

verus! {

/// Units of mass in one dalton: masses are held in nanodaltons.
pub const MASS_UNITS_PER_DALTON: u64 = 1_000_000_000;

/// Two sides balance when their masses differ by less than this many mass
/// units (one microdalton).
pub const BALANCE_TOLERANCE: u128 = 1000;

/// `serde_json::Value`, for the melting and boiling points that the data
/// gives as JSON values: carried through unread, nothing is assumed of it.
#[verifier::external_type_specification]
#[verifier::external_body]
pub struct ExValue(serde_json::Value);

/// A chemical element with its properties from the periodic table.
#[derive(Debug, Clone)]
pub struct Element {
    /// Full name of the element.
    pub name: String,
    /// Symbol of the element: an uppercase letter and lowercase letters.
    pub symbol: String,
    /// Atomic number.
    pub atomic_number: u8,
    /// Atomic mass, in mass units (nanodaltons).
    pub atomic_mass: u64,
    /// Density, in billionths of a gram per cubic centimetre.
    pub density: u64,
    /// Group of the element in the periodic table, where it has one.
    pub group: Option<u8>,
    /// Melting point, where the data gives one.
    pub melting_point: Option<serde_json::Value>,
    /// Boiling point, where the data gives one.
    pub boiling_point: Option<serde_json::Value>,
}

/// The map from symbol to element that a list of elements gives: a later
/// element replaces an earlier one with the same symbol.
pub open spec fn table_map(es: Seq<Element>) -> Map<Seq<char>, Element>
    decreases es.len(),
{
    if es.len() == 0 {
        Map::empty()
    } else {
        table_map(es.drop_last()).insert(es.last().symbol@, es.last())
    }
}

/// The elements of the periodic table, by symbol.
pub struct PeriodicTable {
    elements: Vec<Element>,
}

impl View for PeriodicTable {
    type V = Map<Seq<char>, Element>;

    closed spec fn view(&self) -> Map<Seq<char>, Element> {
        table_map(self.elements@)
    }
}

impl PeriodicTable {
    /// The table of the given elements; where two share a symbol, the later one stays.
    pub fn from_elements(elements: Vec<Element>) -> (r: PeriodicTable)
        ensures
            r@ == table_map(elements@),
    {
        PeriodicTable { elements }
    }

    /// The element with the given symbol, if the table has one.
    pub fn get_element(&self, symbol: &str) -> (r: Option<&Element>)
        ensures
            r is Some <==> self@.contains_key(symbol@),
            r matches Some(e) ==> *e == self@[symbol@],
    {
        let key = symbol.to_owned();
        let mut k = self.elements.len();
        assert(self.elements@.subrange(0, k as int) =~= self.elements@);
        while k > 0
            invariant
                k <= self.elements.len(),
                key@ == symbol@,
                self@.contains_key(key@) == table_map(
                    self.elements@.subrange(0, k as int),
                ).contains_key(key@),
                self@.contains_key(key@) ==> self@[key@] == table_map(
                    self.elements@.subrange(0, k as int),
                )[key@],
            decreases k,
        {
            let ghost pre = self.elements@.subrange(0, k as int);
            assert(pre.last() == self.elements@[k - 1]);
            assert(pre.drop_last() =~= self.elements@.subrange(0, k - 1));
            if self.elements[k - 1].symbol == key {
                return Some(&self.elements[k - 1]);
            }
            k -= 1;
        }
        None
    }
}

/// A formula seen as its text, its element counts and its mass.
pub struct FormulaView {
    pub formula: Seq<char>,
    pub elements: Seq<(Seq<char>, nat)>,
    pub mass: nat,
}

/// A chemical formula with the count of each of its elements and its mass.
#[derive(Debug, Clone)]
pub struct Formula {
    /// The text of the formula.
    pub formula: String,
    /// Each element symbol with its count, in order of first appearance.
    pub elements: Vec<(String, u64)>,
    /// Molecular mass, in mass units (nanodaltons).
    pub mass: u128,
}

impl View for Formula {
    type V = FormulaView;

    open spec fn view(&self) -> FormulaView {
        FormulaView {
            formula: self.formula@,
            elements: entries_view(self.elements@),
            mass: self.mass as nat,
        }
    }
}

impl Formula {
    /// A formula with the given text, no elements yet and no mass.
    pub fn new(formula_str: &str) -> (r: Formula)
        ensures
            r@.formula == formula_str@,
            r@.elements == Seq::<(Seq<char>, nat)>::empty(),
            r@.mass == 0,
    {
        let r = Formula { formula: formula_str.to_owned(), elements: Vec::new(), mass: 0 };
        assert(r@.elements =~= Seq::<(Seq<char>, nat)>::empty());
        r
    }

    /// How many atoms of the element `symbol` the formula holds.
    pub fn count(&self, symbol: &str) -> (r: u64)
        ensures
            r == count_of(self@.elements, symbol@),
    {
        count_in(&self.elements, symbol)
    }
}

/// The mass of one side of an equation: each coefficient times the mass of
/// its formula, summed over the first `k` terms.
pub open spec fn side_mass(coefs: Seq<(Seq<char>, nat)>, formulas: Seq<FormulaView>, k: int) -> nat
    decreases k,
{
    if k <= 0 {
        0
    } else {
        side_mass(coefs, formulas, k - 1) + coefs[k - 1].1 * formulas[k - 1].mass
    }
}

/// Two masses balance: they differ by less than the tolerance.
pub open spec fn balanced(a: nat, b: nat) -> bool {
    a < b + BALANCE_TOLERANCE && b < a + BALANCE_TOLERANCE
}

/// An equation seen as its text, the coefficient of each formula on each side,
/// and the formula that each side's entry names.
pub struct EquationView {
    pub equation: Seq<char>,
    pub reactants: Seq<(Seq<char>, nat)>,
    pub products: Seq<(Seq<char>, nat)>,
    pub reactants_formulas: Seq<FormulaView>,
    pub products_formulas: Seq<FormulaView>,
}

/// A chemical equation with its reactants and products.
#[derive(Debug, Clone)]
pub struct Equation {
    /// The text of the equation.
    pub equation: String,
    /// Each reactant formula with its coefficient.
    pub reactants: Vec<(String, u64)>,
    /// Each product formula with its coefficient.
    pub products: Vec<(String, u64)>,
    /// The formula of each reactant, in the order of `reactants`.
    reactants_formulas: Vec<Formula>,
    /// The formula of each product, in the order of `products`.
    products_formulas: Vec<Formula>,
}

pub open spec fn formulas_view(v: Seq<Formula>) -> Seq<FormulaView> {
    v.map_values(|f: Formula| f@)
}

/// A side of an equation: a formula for each entry, with its text, and a mass
/// that a `u128` holds.
pub open spec fn side_wf(coefs: Seq<(Seq<char>, nat)>, formulas: Seq<FormulaView>) -> bool {
    &&& coefs.len() == formulas.len()
    &&& forall|k: int| 0 <= k < coefs.len() ==> (#[trigger] formulas[k]).formula == coefs[k].0
    &&& side_mass(coefs, formulas, coefs.len() as int) <= u128::MAX
}

impl View for Equation {
    type V = EquationView;

    closed spec fn view(&self) -> EquationView {
        EquationView {
            equation: self.equation@,
            reactants: entries_view(self.reactants@),
            products: entries_view(self.products@),
            reactants_formulas: formulas_view(self.reactants_formulas@),
            products_formulas: formulas_view(self.products_formulas@),
        }
    }
}

pub proof fn lemma_side_mass_mono(coefs: Seq<(Seq<char>, nat)>, formulas: Seq<FormulaView>, j: int, k: int)
    requires
        j <= k,
    ensures
        side_mass(coefs, formulas, j) <= side_mass(coefs, formulas, k),
    decreases k - j,
{
    if j < k {
        lemma_side_mass_mono(coefs, formulas, j, k - 1);
    }
}

/// The mass of a side, whose total a `u128` holds.
fn side_total(coefs: &Vec<(String, u64)>, formulas: &Vec<Formula>) -> (r: u128)
    requires
        side_wf(entries_view(coefs@), formulas_view(formulas@)),
    ensures
        r == side_mass(entries_view(coefs@), formulas_view(formulas@), coefs.len() as int),
{
    let ghost cs = entries_view(coefs@);
    let ghost fs = formulas_view(formulas@);
    let mut total: u128 = 0;
    let mut k: usize = 0;
    while k < coefs.len()
        invariant
            k <= coefs.len() == formulas.len(),
            cs == entries_view(coefs@),
            fs == formulas_view(formulas@),
            side_wf(cs, fs),
            total == side_mass(cs, fs, k as int),
        decreases coefs.len() - k,
    {
        proof {
            lemma_side_mass_mono(cs, fs, k + 1, coefs.len() as int);
        }
        assert(cs[k as int].1 == coefs[k as int].1);
        assert(fs[k as int].mass == formulas[k as int].mass);
        let term = (coefs[k].1 as u128) * formulas[k].mass;
        total = total + term;
        k += 1;
    }
    total
}

impl Equation {
    /// An equation from its text, the coefficients of each side, and the
    /// formula of each entry of each side.
    pub fn new(
        equation: String,
        reactants: Vec<(String, u64)>,
        products: Vec<(String, u64)>,
        reactants_formulas: Vec<Formula>,
        products_formulas: Vec<Formula>,
    ) -> (r: Equation)
        requires
            side_wf(entries_view(reactants@), formulas_view(reactants_formulas@)),
            side_wf(entries_view(products@), formulas_view(products_formulas@)),
        ensures
            r@ == (EquationView {
                equation: equation@,
                reactants: entries_view(reactants@),
                products: entries_view(products@),
                reactants_formulas: formulas_view(reactants_formulas@),
                products_formulas: formulas_view(products_formulas@),
            }),
            r.wf(),
    {
        Equation { equation, reactants, products, reactants_formulas, products_formulas }
    }

    /// Each side has a formula for each entry, and a mass that a `u128` holds.
    pub open spec fn wf(&self) -> bool {
        &&& side_wf(self@.reactants, self@.reactants_formulas)
        &&& side_wf(self@.products, self@.products_formulas)
    }

    /// The total mass of the reactants.
    pub open spec fn reactants_mass(&self) -> nat {
        side_mass(self@.reactants, self@.reactants_formulas, self@.reactants.len() as int)
    }

    /// The total mass of the products.
    pub open spec fn products_mass(&self) -> nat {
        side_mass(self@.products, self@.products_formulas, self@.products.len() as int)
    }

    /// Whether the equation balances: the masses of its two sides differ by
    /// less than the tolerance.
    pub fn check_equation(&self) -> (r: bool)
        requires
            self.wf(),
        ensures
            r == balanced(self.reactants_mass(), self.products_mass()),
    {
        let a = side_total(&self.reactants, &self.reactants_formulas);
        let b = side_total(&self.products, &self.products_formulas);
        if a <= b {
            b - a < BALANCE_TOLERANCE
        } else {
            a - b < BALANCE_TOLERANCE
        }
    }

    /// The coefficient of a reactant formula, or 0 where it is not a reactant.
    pub fn reactant_coefficient(&self, formula: &str) -> (r: u64)
        ensures
            r == count_of(self@.reactants, formula@),
    {
        count_in(&self.reactants, formula)
    }

    /// The coefficient of a product formula, or 0 where it is not a product.
    pub fn product_coefficient(&self, formula: &str) -> (r: u64)
        ensures
            r == count_of(self@.products, formula@),
    {
        count_in(&self.products, formula)
    }
}

} // verus!
