//! The grammar of chemical notation, as parsing-expression rules over the
//! characters of a text.
//!
//! ```text
//! element     = Upper Lower*
//! index       = NonZeroDigit Digit*
//! coefficient = NonZeroDigit Digit*
//! group       = "(" formula ")"
//! formula     = ((element | group) index?)+
//! term        = coefficient? formula
//! side        = term (WS* "+" WS* term)*
//! equation    = side WS* "->" WS* side
//! ```
//!
//! Repetition is greedy and a whole input must be consumed by the rule it is
//! parsed as. The spec functions below give, for a position in a text, where
//! each rule ends; the exec functions compute the same positions.
use vstd::prelude::*;

verus! {

pub open spec fn is_upper(c: char) -> bool {
    'A' <= c <= 'Z'
}

pub open spec fn is_lower(c: char) -> bool {
    'a' <= c <= 'z'
}

pub open spec fn is_digit(c: char) -> bool {
    '0' <= c <= '9'
}

pub open spec fn is_nonzero_digit(c: char) -> bool {
    '1' <= c <= '9'
}

pub open spec fn is_ws(c: char) -> bool {
    c == ' ' || c == '\t' || c == '\n' || c == '\r'
}

/// End of the run of lowercase letters starting at `i`.
pub open spec fn lower_end(s: Seq<char>, i: int) -> int
    decreases s.len() - i,
{
    if 0 <= i < s.len() && is_lower(s[i]) {
        lower_end(s, i + 1)
    } else {
        i
    }
}

/// End of the run of decimal digits starting at `i`.
pub open spec fn digits_end(s: Seq<char>, i: int) -> int
    decreases s.len() - i,
{
    if 0 <= i < s.len() && is_digit(s[i]) {
        digits_end(s, i + 1)
    } else {
        i
    }
}

/// End of the run of whitespace starting at `i`.
pub open spec fn ws_end(s: Seq<char>, i: int) -> int
    decreases s.len() - i,
{
    if 0 <= i < s.len() && is_ws(s[i]) {
        ws_end(s, i + 1)
    } else {
        i
    }
}

/// End of an optional positive number (an index or a coefficient) at `i`:
/// `i` itself where none starts there.
pub open spec fn number_end(s: Seq<char>, i: int) -> int {
    if 0 <= i < s.len() && is_nonzero_digit(s[i]) {
        digits_end(s, i + 1)
    } else {
        i
    }
}

/// The value of a decimal digit.
pub open spec fn digit_of(c: char) -> nat {
    (c as int - '0' as int) as nat
}

/// The decimal value of the digits `s[a..b]`.
pub open spec fn digits_value(s: Seq<char>, a: int, b: int) -> nat
    decreases b - a,
{
    if b <= a {
        0
    } else {
        digits_value(s, a, b - 1) * 10 + digit_of(s[b - 1])
    }
}

/// The multiplier written at `i`: the number there, or 1 where none is written.
pub open spec fn number_value(s: Seq<char>, i: int) -> nat {
    if number_end(s, i) > i {
        digits_value(s, i, number_end(s, i))
    } else {
        1
    }
}

/// End of the element symbol that starts at `i` (an uppercase letter there).
pub open spec fn symbol_end(s: Seq<char>, i: int) -> int {
    lower_end(s, i + 1)
}

/// End of the items that a group opened at `i` holds.
pub open spec fn group_inner_end(s: Seq<char>, i: int) -> int
    decreases s.len() - i, 0int,
{
    if 0 <= i < s.len() {
        items_end(s, i + 1)
    } else {
        i
    }
}

/// End of one formula item at `i` (an element or a group, with its index).
pub open spec fn item_end(s: Seq<char>, i: int) -> Option<int>
    decreases s.len() - i, 1int,
{
    if 0 <= i < s.len() && is_upper(s[i]) {
        Some(number_end(s, symbol_end(s, i)))
    } else if 0 <= i < s.len() && s[i] == '(' {
        let c = group_inner_end(s, i);
        if i + 1 < c < s.len() && s[c] == ')' {
            Some(number_end(s, c + 1))
        } else {
            None
        }
    } else {
        None
    }
}

/// End of the greedy run of formula items starting at `i`.
pub open spec fn items_end(s: Seq<char>, i: int) -> int
    decreases s.len() - i, 2int,
{
    match item_end(s, i) {
        Some(j) => if i < j <= s.len() {
            items_end(s, j)
        } else {
            i
        },
        None => i,
    }
}

/// The whole text is a formula.
pub open spec fn is_formula(s: Seq<char>) -> bool {
    s.len() > 0 && items_end(s, 0) == s.len()
}

/// The whole text is an element symbol.
pub open spec fn is_symbol(s: Seq<char>) -> bool {
    s.len() > 0 && is_upper(s[0]) && symbol_end(s, 0) == s.len()
}

/// A term of an equation side: where it starts, where its coefficient ends
/// (the start of its formula), and where its formula ends.
pub struct Term {
    pub start: int,
    pub formula_start: int,
    pub end: int,
}

/// The term at `i`, if one is there.
pub open spec fn term_at(s: Seq<char>, i: int) -> Option<Term> {
    let k = number_end(s, i);
    let e = items_end(s, k);
    if 0 <= i && k < e {
        Some(Term { start: i, formula_start: k, end: e })
    } else {
        None
    }
}

/// The terms that follow a term ending at `i`, each after a `+`, and where they end.
pub open spec fn side_rest(s: Seq<char>, i: int) -> (Seq<Term>, int)
    decreases s.len() - i,
{
    let a = ws_end(s, i);
    if 0 <= i && a < s.len() && s[a] == '+' {
        match term_at(s, ws_end(s, a + 1)) {
            Some(t) => if i < t.end <= s.len() {
                let (ts, e) = side_rest(s, t.end);
                (seq![t] + ts, e)
            } else {
                (Seq::empty(), i)
            },
            None => (Seq::empty(), i),
        }
    } else {
        (Seq::empty(), i)
    }
}

/// The side that starts at `i`, if one is there: its terms and its end.
pub open spec fn side_at(s: Seq<char>, i: int) -> Option<(Seq<Term>, int)> {
    match term_at(s, i) {
        Some(t) => {
            let (ts, e) = side_rest(s, t.end);
            Some((seq![t] + ts, e))
        },
        None => None,
    }
}

/// Where the arrow of an equation whose reactants end at `i` ends.
pub open spec fn arrow_end(s: Seq<char>, i: int) -> Option<int> {
    let a = ws_end(s, i);
    if 0 <= i && a + 1 < s.len() && s[a] == '-' && s[a + 1] == '>' {
        Some(ws_end(s, a + 2))
    } else {
        None
    }
}

/// The reactant and product terms of the whole text, read as an equation.
pub open spec fn equation_terms(s: Seq<char>) -> Option<(Seq<Term>, Seq<Term>)> {
    match side_at(s, 0) {
        Some((rs, e)) => match arrow_end(s, e) {
            Some(b) => match side_at(s, b) {
                Some((ps, f)) => if f == s.len() {
                    Some((rs, ps))
                } else {
                    None
                },
                None => None,
            },
            None => None,
        },
        None => None,
    }
}


/// Where a term of an equation side stands in the text.
#[derive(Clone, Copy, Debug, PartialEq, Eq)]
pub struct TermSpan {
    pub start: usize,
    pub formula_start: usize,
    pub end: usize,
}

impl View for TermSpan {
    type V = Term;

    open spec fn view(&self) -> Term {
        Term { start: self.start as int, formula_start: self.formula_start as int, end: self.end as int }
    }
}

pub open spec fn spans_view(v: Seq<TermSpan>) -> Seq<Term> {
    v.map_values(|t: TermSpan| t@)
}

/// Each span is the term that starts where it starts, within the text.
pub open spec fn spans_in(s: Seq<char>, v: Seq<TermSpan>) -> bool {
    forall|k: int|
        0 <= k < v.len() ==> term_at(s, (#[trigger] v[k]).start as int) == Some(v[k]@)
            && v[k].start <= v[k].formula_start < v[k].end <= s.len()
}

/// The characters of a text, one per position.
pub fn chars_of(text: &str) -> (r: Vec<char>)
    ensures
        r@ == text@,
{
    let n = text.unicode_len();
    let mut r: Vec<char> = Vec::new();
    let mut i: usize = 0;
    while i < n
        invariant
            n == text@.len(),
            i <= n,
            r@ == text@.subrange(0, i as int),
        decreases n - i,
    {
        r.push(text.get_char(i));
        i += 1;
    }
    assert(r@ =~= text@);
    r
}

pub fn scan_lower(s: &Vec<char>, i: usize) -> (r: usize)
    requires
        i <= s.len(),
    ensures
        r == lower_end(s@, i as int),
        i <= r <= s.len(),
{
    let mut j = i;
    while j < s.len() && 'a' <= s[j] && s[j] <= 'z'
        invariant
            i <= j <= s.len(),
            lower_end(s@, i as int) == lower_end(s@, j as int),
        decreases s.len() - j,
    {
        j += 1;
    }
    j
}

pub fn scan_digits(s: &Vec<char>, i: usize) -> (r: usize)
    requires
        i <= s.len(),
    ensures
        r == digits_end(s@, i as int),
        i <= r <= s.len(),
{
    let mut j = i;
    while j < s.len() && '0' <= s[j] && s[j] <= '9'
        invariant
            i <= j <= s.len(),
            digits_end(s@, i as int) == digits_end(s@, j as int),
        decreases s.len() - j,
    {
        j += 1;
    }
    j
}

pub fn scan_ws(s: &Vec<char>, i: usize) -> (r: usize)
    requires
        i <= s.len(),
    ensures
        r == ws_end(s@, i as int),
        i <= r <= s.len(),
{
    let mut j = i;
    while j < s.len() && (s[j] == ' ' || s[j] == '\t' || s[j] == '\n' || s[j] == '\r')
        invariant
            i <= j <= s.len(),
            ws_end(s@, i as int) == ws_end(s@, j as int),
        decreases s.len() - j,
    {
        j += 1;
    }
    j
}

pub fn scan_number(s: &Vec<char>, i: usize) -> (r: usize)
    requires
        i <= s.len(),
    ensures
        r == number_end(s@, i as int),
        i <= r <= s.len(),
{
    if i < s.len() && '1' <= s[i] && s[i] <= '9' {
        scan_digits(s, i + 1)
    } else {
        i
    }
}

pub fn scan_item(s: &Vec<char>, i: usize) -> (r: Option<usize>)
    requires
        i <= s.len(),
    ensures
        r matches Some(j) ==> item_end(s@, i as int) == Some(j as int) && i < j <= s.len(),
        r is None ==> item_end(s@, i as int) is None,
    decreases s.len() - i, 1int,
{
    if i < s.len() && 'A' <= s[i] && s[i] <= 'Z' {
        let e = scan_lower(s, i + 1);
        Some(scan_number(s, e))
    } else if i < s.len() && s[i] == '(' {
        let c = scan_items(s, i + 1);
        if i + 1 < c && c < s.len() && s[c] == ')' {
            Some(scan_number(s, c + 1))
        } else {
            None
        }
    } else {
        None
    }
}

pub fn scan_items(s: &Vec<char>, i: usize) -> (r: usize)
    requires
        i <= s.len(),
    ensures
        r == items_end(s@, i as int),
        i <= r <= s.len(),
    decreases s.len() - i, 2int,
{
    let mut pos = i;
    loop
        invariant
            i <= pos <= s.len(),
            items_end(s@, i as int) == items_end(s@, pos as int),
        decreases s.len() - pos,
    {
        match scan_item(s, pos) {
            Some(j) => {
                pos = j;
            },
            None => {
                return pos;
            },
        }
    }
}

pub proof fn lemma_digits_run(s: Seq<char>, i: int)
    requires
        0 <= i <= s.len(),
    ensures
        i <= digits_end(s, i) <= s.len(),
        forall|k: int| i <= k < digits_end(s, i) ==> is_digit(#[trigger] s[k]),
    decreases s.len() - i,
{
    if i < s.len() && is_digit(s[i]) {
        lemma_digits_run(s, i + 1);
    }
}

pub proof fn lemma_lower_run(s: Seq<char>, i: int)
    requires
        0 <= i <= s.len(),
    ensures
        i <= lower_end(s, i) <= s.len(),
        forall|k: int| i <= k < lower_end(s, i) ==> is_lower(#[trigger] s[k]),
    decreases s.len() - i,
{
    if i < s.len() && is_lower(s[i]) {
        lemma_lower_run(s, i + 1);
    }
}

pub proof fn lemma_digits_value_mono(s: Seq<char>, a: int, b: int, c: int)
    requires
        a <= b <= c,
    ensures
        digits_value(s, a, b) <= digits_value(s, a, c),
    decreases c - b,
{
    if b < c {
        lemma_digits_value_mono(s, a, b, c - 1);
    }
}

/// A number written at `i` is at least 1, and its digits are digits.
pub proof fn lemma_number_value_positive(s: Seq<char>, i: int)
    requires
        0 <= i <= s.len(),
    ensures
        number_value(s, i) >= 1,
        i <= number_end(s, i) <= s.len(),
        forall|k: int| i <= k < number_end(s, i) ==> is_digit(#[trigger] s[k]),
{
    if i < s.len() && is_nonzero_digit(s[i]) {
        lemma_digits_run(s, i + 1);
        lemma_digits_value_mono(s, i, i + 1, number_end(s, i));
        assert(digits_value(s, i, i + 1) == digits_value(s, i, i) * 10 + digit_of(s[i]));
    }
}

/// The value of the digits `s[a..b]`, where it fits in a `u64`.
pub fn digits_to_u64(s: &Vec<char>, a: usize, b: usize) -> (r: Option<u64>)
    requires
        a <= b <= s.len(),
        forall|k: int| a <= k < b ==> is_digit(#[trigger] s@[k]),
    ensures
        r matches Some(v) ==> v == digits_value(s@, a as int, b as int),
        r is None ==> digits_value(s@, a as int, b as int) > u64::MAX,
{
    let mut v: u64 = 0;
    let mut k = a;
    while k < b
        invariant
            a <= k <= b <= s.len(),
            forall|m: int| a <= m < b ==> is_digit(#[trigger] s@[m]),
            v == digits_value(s@, a as int, k as int),
        decreases b - k,
    {
        let c = s[k];
        assert(is_digit(s@[k as int]));
        let d = (c as u32 - '0' as u32) as u64;
        assert(d == digit_of(s@[k as int]));
        assert(digits_value(s@, a as int, k + 1) == v * 10 + d);
        match v.checked_mul(10) {
            Some(t) => match t.checked_add(d) {
                Some(w) => {
                    v = w;
                },
                None => {
                    proof {
                        lemma_digits_value_mono(s@, a as int, k + 1, b as int);
                    }
                    return None;
                },
            },
            None => {
                proof {
                    lemma_digits_value_mono(s@, a as int, k + 1, b as int);
                }
                return None;
            },
        }
        k += 1;
    }
    Some(v)
}

pub fn scan_term(s: &Vec<char>, i: usize) -> (r: Option<TermSpan>)
    requires
        i <= s.len(),
    ensures
        r matches Some(t) ==> term_at(s@, i as int) == Some(t@) && i == t.start
            <= t.formula_start < t.end <= s.len(),
        r is None ==> term_at(s@, i as int) is None,
{
    let k = scan_number(s, i);
    let e = scan_items(s, k);
    if k < e {
        Some(TermSpan { start: i, formula_start: k, end: e })
    } else {
        None
    }
}

pub fn scan_side(s: &Vec<char>, i: usize) -> (r: Option<(Vec<TermSpan>, usize)>)
    requires
        i <= s.len(),
    ensures
        r matches Some((v, e)) ==> side_at(s@, i as int) == Some((spans_view(v@), e as int))
            && e <= s.len() && spans_in(s@, v@),
        r is None ==> side_at(s@, i as int) is None,
{
    match scan_term(s, i) {
        None => None,
        Some(t) => {
            let mut v: Vec<TermSpan> = Vec::new();
            v.push(t);
            let mut pos = t.end;
            assert(spans_view(v@) =~= seq![t@]);
            loop
                invariant
                    pos <= s.len(),
                    spans_in(s@, v@),
                    side_at(s@, i as int) == Some(
                        (
                            spans_view(v@) + side_rest(s@, pos as int).0,
                            side_rest(s@, pos as int).1,
                        ),
                    ),
                decreases s.len() - pos,
            {
                let a = scan_ws(s, pos);
                if a < s.len() && s[a] == '+' {
                    let b = scan_ws(s, a + 1);
                    match scan_term(s, b) {
                        Some(t2) => {
                            let ghost old_v = spans_view(v@);
                            v.push(t2);
                            assert(spans_view(v@) =~= old_v.push(t2@));
                            assert(side_rest(s@, pos as int).0 =~= seq![t2@] + side_rest(
                                s@,
                                t2.end as int,
                            ).0);
                            assert(old_v + side_rest(s@, pos as int).0 =~= spans_view(v@)
                                + side_rest(s@, t2.end as int).0);
                            pos = t2.end;
                        },
                        None => {
                            assert(spans_view(v@) + side_rest(s@, pos as int).0 =~= spans_view(
                                v@,
                            ));
                            return Some((v, pos));
                        },
                    }
                } else {
                    assert(spans_view(v@) + side_rest(s@, pos as int).0 =~= spans_view(v@));
                    return Some((v, pos));
                }
            }
        },
    }
}

pub fn scan_equation(s: &Vec<char>) -> (r: Option<(Vec<TermSpan>, Vec<TermSpan>)>)
    ensures
        r matches Some((rv, pv)) ==> equation_terms(s@) == Some(
            (spans_view(rv@), spans_view(pv@)),
        ) && spans_in(s@, rv@) && spans_in(s@, pv@),
        r is None ==> equation_terms(s@) is None,
{
    match scan_side(s, 0) {
        None => None,
        Some((rv, e)) => {
            let a = scan_ws(s, e);
            if a < s.len() && a + 1 < s.len() && s[a] == '-' && s[a + 1] == '>' {
                let b = scan_ws(s, a + 2);
                match scan_side(s, b) {
                    Some((pv, f)) => if f == s.len() {
                        Some((rv, pv))
                    } else {
                        None
                    },
                    None => None,
                }
            } else {
                None
            }
        },
    }
}

/// The rules of the grammar that a whole text can be read as.
#[allow(non_camel_case_types)]
#[derive(Clone, Copy, Debug, PartialEq, Eq)]
pub enum Rule {
    element,
    index,
    group,
    formula,
    coefficient,
    reactants,
    products,
    equation,
    WS,
}

/// The whole text `s` reads as `rule`.
pub open spec fn rule_matches(rule: Rule, s: Seq<char>) -> bool {
    match rule {
        Rule::element => is_symbol(s),
        Rule::index | Rule::coefficient => s.len() > 0 && number_end(s, 0) == s.len(),
        Rule::group => s.len() > 0 && s[0] == '(' && item_end(s, 0) == Some(s.len() as int),
        Rule::formula => is_formula(s),
        Rule::reactants | Rule::products => side_at(s, 0) matches Some((_, e)) && e == s.len(),
        Rule::equation => equation_terms(s) is Some,
        Rule::WS => s.len() == 1 && is_ws(s[0]),
    }
}

/// The name of a rule.
pub open spec fn rule_name(rule: Rule) -> Seq<char> {
    match rule {
        Rule::element => "element"@,
        Rule::index => "index"@,
        Rule::group => "group"@,
        Rule::formula => "formula"@,
        Rule::coefficient => "coefficient"@,
        Rule::reactants => "reactants"@,
        Rule::products => "products"@,
        Rule::equation => "equation"@,
        Rule::WS => "WS"@,
    }
}

/// The name of a rule.
pub fn rule_name_of(rule: Rule) -> (r: String)
    ensures
        r@ == rule_name(rule),
{
    match rule {
        Rule::element => "element".to_owned(),
        Rule::index => "index".to_owned(),
        Rule::group => "group".to_owned(),
        Rule::formula => "formula".to_owned(),
        Rule::coefficient => "coefficient".to_owned(),
        Rule::reactants => "reactants".to_owned(),
        Rule::products => "products".to_owned(),
        Rule::equation => "equation".to_owned(),
        Rule::WS => "WS".to_owned(),
    }
}

/// Whether the whole of `s` reads as `rule`.
pub fn matches_rule(rule: Rule, s: &Vec<char>) -> (r: bool)
    ensures
        r == rule_matches(rule, s@),
{
    match rule {
        Rule::element => s.len() > 0 && 'A' <= s[0] && s[0] <= 'Z' && scan_lower(s, 1) == s.len(),
        Rule::index | Rule::coefficient => s.len() > 0 && scan_number(s, 0) == s.len(),
        Rule::group => s.len() > 0 && s[0] == '(' && scan_item(s, 0) == Some(s.len()),
        Rule::formula => s.len() > 0 && scan_items(s, 0) == s.len(),
        Rule::reactants | Rule::products => match scan_side(s, 0) {
            Some((_, e)) => e == s.len(),
            None => false,
        },
        Rule::equation => scan_equation(s).is_some(),
        Rule::WS => s.len() == 1 && (s[0] == ' ' || s[0] == '\t' || s[0] == '\n' || s[0] == '\r'),
    }
}

} // verus!
