//! What a formula holds: the count of each element, with the multipliers of
//! enclosing groups applied, and the checks made on the way.
use crate::element::{Element, PeriodicTable};
use crate::entries::{
    count_of,
    entries_view,
    find_key,
    insert_entry,
    keys_of,
    lemma_insert_entry,
    lemma_key_index_range,
    unique_keys,
};
use crate::grammar::{
    digits_to_u64,
    group_inner_end,
    is_upper,
    item_end,
    lemma_number_value_positive,
    number_end,
    number_value,
    scan_items,
    scan_lower,
    scan_number,
    scan_item,
    symbol_end,
};
use vstd::arithmetic::mul::{lemma_mul_is_associative, lemma_mul_is_distributive_add};
use vstd::prelude::*;

verus! {

/// The symbol of the element item at `i`.
pub open spec fn symbol_at(s: Seq<char>, i: int) -> Seq<char> {
    s.subrange(i, symbol_end(s, i))
}

/// The index written after the group opened at `i` (1 where none is).
pub open spec fn group_index(s: Seq<char>, i: int) -> nat {
    number_value(s, group_inner_end(s, i) + 1)
}

/// How many atoms of `sym` the formula item at `i` holds.
pub open spec fn item_count(s: Seq<char>, i: int, sym: Seq<char>) -> nat
    decreases s.len() - i, 1int,
{
    if 0 <= i < s.len() && is_upper(s[i]) {
        if symbol_at(s, i) == sym {
            number_value(s, symbol_end(s, i))
        } else {
            0
        }
    } else if 0 <= i < s.len() && s[i] == '(' {
        group_index(s, i) * group_count(s, i, sym)
    } else {
        0
    }
}

/// How many atoms of `sym` the group opened at `i` holds, before its index.
pub open spec fn group_count(s: Seq<char>, i: int, sym: Seq<char>) -> nat
    decreases s.len() - i, 0int,
{
    if 0 <= i < s.len() {
        items_count(s, i + 1, sym)
    } else {
        0
    }
}

/// How many atoms of `sym` the formula items from `i` on hold.
pub open spec fn items_count(s: Seq<char>, i: int, sym: Seq<char>) -> nat
    decreases s.len() - i, 2int,
{
    match item_end(s, i) {
        Some(j) => if i < j <= s.len() {
            item_count(s, i, sym) + items_count(s, j, sym)
        } else {
            0
        },
        None => 0,
    }
}

/// The symbols in `acc`, then those of the item at `i` that are new.
pub open spec fn item_syms(s: Seq<char>, i: int, acc: Seq<Seq<char>>) -> Seq<Seq<char>>
    decreases s.len() - i, 1int,
{
    if 0 <= i < s.len() && is_upper(s[i]) {
        if acc.contains(symbol_at(s, i)) {
            acc
        } else {
            acc.push(symbol_at(s, i))
        }
    } else if 0 <= i < s.len() && s[i] == '(' {
        group_syms(s, i, acc)
    } else {
        acc
    }
}

pub open spec fn group_syms(s: Seq<char>, i: int, acc: Seq<Seq<char>>) -> Seq<Seq<char>>
    decreases s.len() - i, 0int,
{
    if 0 <= i < s.len() {
        items_syms(s, i + 1, acc)
    } else {
        acc
    }
}

/// The symbols in `acc`, then those of the items from `i` on that are new, in
/// order of first appearance.
pub open spec fn items_syms(s: Seq<char>, i: int, acc: Seq<Seq<char>>) -> Seq<Seq<char>>
    decreases s.len() - i, 2int,
{
    match item_end(s, i) {
        Some(j) => if i < j <= s.len() {
            items_syms(s, j, item_syms(s, i, acc))
        } else {
            acc
        },
        None => acc,
    }
}

/// Under the multiplier `m`, the item at `i` scales every index it applies
/// within the range of a `u64`.
pub open spec fn item_fits(s: Seq<char>, i: int, m: nat) -> bool
    decreases s.len() - i, 1int,
{
    if 0 <= i < s.len() && is_upper(s[i]) {
        m * number_value(s, symbol_end(s, i)) <= u64::MAX
    } else if 0 <= i < s.len() && s[i] == '(' {
        m * group_index(s, i) <= u64::MAX && group_fits(s, i, m * group_index(s, i))
    } else {
        true
    }
}

pub open spec fn group_fits(s: Seq<char>, i: int, m: nat) -> bool
    decreases s.len() - i, 0int,
{
    if 0 <= i < s.len() {
        items_fits(s, i + 1, m)
    } else {
        true
    }
}

/// Under the multiplier `m`, every item from `i` on fits.
pub open spec fn items_fits(s: Seq<char>, i: int, m: nat) -> bool
    decreases s.len() - i, 2int,
{
    match item_end(s, i) {
        Some(j) => if i < j <= s.len() {
            item_fits(s, i, m) && items_fits(s, j, m)
        } else {
            true
        },
        None => true,
    }
}

/// The first symbol of the item at `i` that the table lacks.
pub open spec fn item_invalid(t: Map<Seq<char>, Element>, s: Seq<char>, i: int) -> Option<
    Seq<char>,
>
    decreases s.len() - i, 1int,
{
    if 0 <= i < s.len() && is_upper(s[i]) {
        if t.contains_key(symbol_at(s, i)) {
            None
        } else {
            Some(symbol_at(s, i))
        }
    } else if 0 <= i < s.len() && s[i] == '(' {
        group_invalid(t, s, i)
    } else {
        None
    }
}

pub open spec fn group_invalid(t: Map<Seq<char>, Element>, s: Seq<char>, i: int) -> Option<
    Seq<char>,
>
    decreases s.len() - i, 0int,
{
    if 0 <= i < s.len() {
        items_invalid(t, s, i + 1)
    } else {
        None
    }
}

/// The first symbol, in reading order, of the items from `i` on that the table lacks.
pub open spec fn items_invalid(t: Map<Seq<char>, Element>, s: Seq<char>, i: int) -> Option<
    Seq<char>,
>
    decreases s.len() - i, 2int,
{
    match item_end(s, i) {
        Some(j) => if i < j <= s.len() {
            match item_invalid(t, s, i) {
                Some(x) => Some(x),
                None => items_invalid(t, s, j),
            }
        } else {
            None
        },
        None => None,
    }
}

/// The digits of the index written at `k`, where its value outgrows a `u64`.
pub open spec fn oversized_number(s: Seq<char>, k: int) -> Option<Seq<char>> {
    if number_end(s, k) > k && number_value(s, k) > u64::MAX {
        Some(s.subrange(k, number_end(s, k)))
    } else {
        None
    }
}

/// The first index of the item at `i`, in reading order, whose value
/// outgrows a `u64`.
pub open spec fn item_bad_index(s: Seq<char>, i: int) -> Option<Seq<char>>
    decreases s.len() - i, 1int,
{
    if 0 <= i < s.len() && is_upper(s[i]) {
        oversized_number(s, symbol_end(s, i))
    } else if 0 <= i < s.len() && s[i] == '(' {
        match group_bad_index(s, i) {
            Some(x) => Some(x),
            None => oversized_number(s, group_inner_end(s, i) + 1),
        }
    } else {
        None
    }
}

pub open spec fn group_bad_index(s: Seq<char>, i: int) -> Option<Seq<char>>
    decreases s.len() - i, 0int,
{
    if 0 <= i < s.len() {
        items_bad_index(s, i + 1)
    } else {
        None
    }
}

/// The first index of the items from `i` on, in reading order, whose value
/// outgrows a `u64`.
pub open spec fn items_bad_index(s: Seq<char>, i: int) -> Option<Seq<char>>
    decreases s.len() - i, 2int,
{
    match item_end(s, i) {
        Some(j) => if i < j <= s.len() {
            match item_bad_index(s, i) {
                Some(x) => Some(x),
                None => items_bad_index(s, j),
            }
        } else {
            None
        },
        None => None,
    }
}

/// Each element of a formula with its count, in order of first appearance.
pub open spec fn formula_entries(s: Seq<char>) -> Seq<(Seq<char>, nat)> {
    items_syms(s, 0, Seq::empty()).map_values(|sym: Seq<char>| (sym, items_count(s, 0, sym)))
}

/// The mass of the first `k` entries: each count times its element's atomic mass.
pub open spec fn mass_sum(t: Map<Seq<char>, Element>, es: Seq<(Seq<char>, nat)>, k: int) -> nat
    decreases k,
{
    if k <= 0 {
        0
    } else {
        mass_sum(t, es, k - 1) + es[k - 1].1 * (t[es[k - 1].0].atomic_mass as nat)
    }
}

/// The mass of a formula.
pub open spec fn formula_mass(t: Map<Seq<char>, Element>, s: Seq<char>) -> nat {
    mass_sum(t, formula_entries(s), formula_entries(s).len() as int)
}

/// Every index, scaled by its enclosing groups, every count and the mass fit
/// the integers that hold them.
pub open spec fn counts_fit(t: Map<Seq<char>, Element>, s: Seq<char>) -> bool {
    &&& items_fits(s, 0, 1)
    &&& forall|sym: Seq<char>| #[trigger] items_count(s, 0, sym) <= u64::MAX
    &&& formula_mass(t, s) <= u128::MAX
}

pub proof fn lemma_syms_valid_item(
    t: Map<Seq<char>, Element>,
    s: Seq<char>,
    i: int,
    acc: Seq<Seq<char>>,
)
    requires
        item_invalid(t, s, i) is None,
        forall|k: int| 0 <= k < acc.len() ==> t.contains_key(#[trigger] acc[k]),
    ensures
        forall|k: int|
            0 <= k < item_syms(s, i, acc).len() ==> t.contains_key(#[trigger] item_syms(s, i, acc)[k]),
    decreases s.len() - i, 1int,
{
    if 0 <= i < s.len() && is_upper(s[i]) {
        let r = item_syms(s, i, acc);
        assert forall|k: int| 0 <= k < r.len() implies t.contains_key(#[trigger] r[k]) by {
            if k < acc.len() {
                assert(r[k] == acc[k]);
            }
        }
    } else if 0 <= i < s.len() && s[i] == '(' {
        assert(item_syms(s, i, acc) == items_syms(s, i + 1, acc));
        assert(items_invalid(t, s, i + 1) is None);
        lemma_syms_valid_items(t, s, i + 1, acc);
    }
}

pub proof fn lemma_syms_valid_items(
    t: Map<Seq<char>, Element>,
    s: Seq<char>,
    i: int,
    acc: Seq<Seq<char>>,
)
    requires
        items_invalid(t, s, i) is None,
        forall|k: int| 0 <= k < acc.len() ==> t.contains_key(#[trigger] acc[k]),
    ensures
        forall|k: int|
            0 <= k < items_syms(s, i, acc).len() ==> t.contains_key(
                #[trigger] items_syms(s, i, acc)[k],
            ),
    decreases s.len() - i, 2int,
{
    match item_end(s, i) {
        Some(j) => if i < j <= s.len() {
            assert(item_invalid(t, s, i) is None);
            assert(items_invalid(t, s, j) is None);
            lemma_syms_valid_item(t, s, i, acc);
            lemma_syms_valid_items(t, s, j, item_syms(s, i, acc));
            assert(items_syms(s, i, acc) == items_syms(s, j, item_syms(s, i, acc)));
        },
        None => {},
    }
}

/// The first symbol of the item at `i` that the table lacks.
fn find_invalid_pair(table: &PeriodicTable, s: &Vec<char>, text: &str, i: usize) -> (r: Option<
    String,
>)
    requires
        text@ == s@,
        i <= s.len(),
        item_end(s@, i as int) is Some,
    ensures
        r matches Some(x) ==> item_invalid(table@, s@, i as int) == Some(x@),
        r is None ==> item_invalid(table@, s@, i as int) is None,
    decreases s.len() - i, 1int,
{
    if 'A' <= s[i] && s[i] <= 'Z' {
        let e = scan_lower(s, i + 1);
        let sym = text.substring_char(i, e).to_owned();
        match table.get_element(sym.as_str()) {
            Some(_) => None,
            None => Some(sym),
        }
    } else {
        find_invalid_pairs(table, s, text, i + 1)
    }
}

/// The first symbol, in reading order, of the items from `i` on that the table lacks.
pub(crate) fn find_invalid_pairs(table: &PeriodicTable, s: &Vec<char>, text: &str, i: usize) -> (r: Option<
    String,
>)
    requires
        text@ == s@,
        i <= s.len(),
    ensures
        r matches Some(x) ==> items_invalid(table@, s@, i as int) == Some(x@),
        r is None ==> items_invalid(table@, s@, i as int) is None,
    decreases s.len() - i, 2int,
{
    let mut pos = i;
    loop
        invariant
            text@ == s@,
            i <= pos <= s.len(),
            items_invalid(table@, s@, i as int) == items_invalid(table@, s@, pos as int),
        decreases s.len() - pos,
    {
        match scan_item(s, pos) {
            None => {
                return None;
            },
            Some(j) => {
                match find_invalid_pair(table, s, text, pos) {
                    Some(x) => {
                        return Some(x);
                    },
                    None => {},
                }
                pos = j;
            },
        }
    }
}

/// The digits of the index written at `k`, where its value outgrows a `u64`.
fn find_oversized_number(s: &Vec<char>, text: &str, k: usize) -> (r: Option<String>)
    requires
        text@ == s@,
        k <= s.len(),
    ensures
        r matches Some(x) ==> oversized_number(s@, k as int) == Some(x@),
        r is None ==> oversized_number(s@, k as int) is None,
{
    let (n, v) = index_at(s, k);
    if n > k && v.is_none() {
        Some(text.substring_char(k, n).to_owned())
    } else {
        None
    }
}

/// The first index of the item at `i`, in reading order, whose value
/// outgrows a `u64`.
fn find_bad_index_pair(s: &Vec<char>, text: &str, i: usize) -> (r: Option<String>)
    requires
        text@ == s@,
        i <= s.len(),
        item_end(s@, i as int) is Some,
    ensures
        r matches Some(x) ==> item_bad_index(s@, i as int) == Some(x@),
        r is None ==> item_bad_index(s@, i as int) is None,
    decreases s.len() - i, 1int,
{
    if 'A' <= s[i] && s[i] <= 'Z' {
        let e = scan_lower(s, i + 1);
        find_oversized_number(s, text, e)
    } else {
        match find_bad_index_pairs(s, text, i + 1) {
            Some(x) => Some(x),
            None => {
                let c = scan_items(s, i + 1);
                find_oversized_number(s, text, c + 1)
            },
        }
    }
}

/// The first index of the items from `i` on, in reading order, whose value
/// outgrows a `u64`.
pub(crate) fn find_bad_index_pairs(s: &Vec<char>, text: &str, i: usize) -> (r: Option<String>)
    requires
        text@ == s@,
        i <= s.len(),
    ensures
        r matches Some(x) ==> items_bad_index(s@, i as int) == Some(x@),
        r is None ==> items_bad_index(s@, i as int) is None,
    decreases s.len() - i, 2int,
{
    let mut pos = i;
    loop
        invariant
            text@ == s@,
            i <= pos <= s.len(),
            items_bad_index(s@, i as int) == items_bad_index(s@, pos as int),
        decreases s.len() - pos,
    {
        match scan_item(s, pos) {
            None => {
                return None;
            },
            Some(j) => {
                match find_bad_index_pair(s, text, pos) {
                    Some(x) => {
                        return Some(x);
                    },
                    None => {},
                }
                pos = j;
            },
        }
    }
}

/// The value of the number that the digits `s[a..b]` write, where it fits a
/// `u64`; 1 where no digits are written.
fn index_at(s: &Vec<char>, a: usize) -> (r: (usize, Option<u64>))
    requires
        a <= s.len(),
    ensures
        r.0 == number_end(s@, a as int),
        a <= r.0 <= s.len(),
        r.1 matches Some(v) ==> v == number_value(s@, a as int),
        r.1 is None ==> number_value(s@, a as int) > u64::MAX,
        number_value(s@, a as int) >= 1,
{
    let n = scan_number(s, a);
    proof {
        lemma_number_value_positive(s@, a as int);
    }
    if n > a {
        (n, digits_to_u64(s, a, n))
    } else {
        (n, Some(1))
    }
}

/// Adds the atoms of the formula item at `i`, under the multiplier `mult`, to
/// `counts`; false where a number outgrows its integer.
fn process_pair(
    s: &Vec<char>,
    text: &str,
    i: usize,
    mult: u64,
    counts: &mut Vec<(String, u64)>,
) -> (ok: bool)
    requires
        text@ == s@,
        i <= s.len(),
        item_end(s@, i as int) is Some,
        mult >= 1,
        unique_keys(entries_view(old(counts)@)),
    ensures
        unique_keys(entries_view(final(counts)@)),
        ok ==> keys_of(entries_view(final(counts)@)) == item_syms(
            s@,
            i as int,
            keys_of(entries_view(old(counts)@)),
        ),
        ok ==> forall|sym: Seq<char>|
            count_of(entries_view(final(counts)@), sym) == count_of(
                entries_view(old(counts)@),
                sym,
            ) + mult * #[trigger] item_count(s@, i as int, sym),
        ok ==> item_fits(s@, i as int, mult as nat),
        !ok ==> !item_fits(s@, i as int, mult as nat) || exists|sym: Seq<char>|
            count_of(entries_view(old(counts)@), sym) + mult * #[trigger] item_count(
                s@,
                i as int,
                sym,
            ) > u64::MAX,
    decreases s.len() - i, 1int,
{
    let ghost old_es = entries_view(counts@);
    if 'A' <= s[i] && s[i] <= 'Z' {
        let e = scan_lower(s, i + 1);
        let (_, idx) = index_at(s, e);
        let ghost nv = number_value(s@, e as int);
        let idx = match idx {
            Some(v) => v,
            None => {
                assert(mult * nv >= nv) by (nonlinear_arith)
                    requires
                        mult >= 1,
                ;
                return false;
            },
        };
        let add = match mult.checked_mul(idx) {
            Some(a) => a,
            None => {
                return false;
            },
        };
        let sym = text.substring_char(i, e).to_owned();
        let ghost sv = sym@;
        assert(sv == symbol_at(s@, i as int));
        proof {
            lemma_key_index_range(old_es, sym@);
        }
        match find_key(counts, &sym) {
            Some(k) => {
                let cur = counts[k].1;
                assert(cur == count_of(old_es, sym@));
                match cur.checked_add(add) {
                    Some(total) => {
                        counts.set(k, (sym, total));
                        proof {
                            assert(entries_view(counts@) =~= insert_entry(
                                old_es,
                                sym@,
                                total as nat,
                            ));
                            lemma_insert_entry(old_es, sym@, total as nat);
                            assert(keys_of(old_es).contains(sym@)) by {
                                assert(keys_of(old_es)[k as int] == sym@);
                            }
                        }
                    },
                    None => {
                        assert(count_of(old_es, sym@) + mult * item_count(s@, i as int, sym@)
                            > u64::MAX);
                        return false;
                    },
                }
            },
            None => {
                counts.push((sym, add));
                proof {
                    assert(entries_view(counts@) =~= insert_entry(old_es, sym@, add as nat));
                    lemma_insert_entry(old_es, sym@, add as nat);
                    assert(!keys_of(old_es).contains(sym@)) by {
                        if keys_of(old_es).contains(sym@) {
                            let m = choose|m: int|
                                0 <= m < keys_of(old_es).len() && keys_of(old_es)[m] == sym@;
                            assert(old_es[m].0 == sym@);
                        }
                    }
                }
            },
        }
        assert forall|x: Seq<char>|
            count_of(entries_view(counts@), x) == count_of(old_es, x) + mult
                * #[trigger] item_count(s@, i as int, x) by {
            if x != sv {
                assert(item_count(s@, i as int, x) == 0);
                assert(mult * item_count(s@, i as int, x) == 0) by (nonlinear_arith)
                    requires
                        item_count(s@, i as int, x) == 0,
                ;
            }
        }
        true
    } else {
        let c = scan_items(s, i + 1);
        assert(c == group_inner_end(s@, i as int));
        let (_, g) = index_at(s, c + 1);
        let ghost gv = group_index(s@, i as int);
        let g = match g {
            Some(v) => v,
            None => {
                assert(mult * gv >= gv) by (nonlinear_arith)
                    requires
                        mult >= 1,
                ;
                return false;
            },
        };
        let gm = match mult.checked_mul(g) {
            Some(x) => x,
            None => {
                return false;
            },
        };
        assert(gm >= 1) by (nonlinear_arith)
            requires
                gm == mult * g,
                mult >= 1,
                g >= 1,
        ;
        let ok = process_pairs(s, text, i + 1, gm, counts);
        proof {
            assert forall|sym: Seq<char>|
                mult * #[trigger] item_count(s@, i as int, sym) == gm * items_count(
                    s@,
                    i + 1,
                    sym,
                ) by {
                lemma_mul_is_associative(mult as int, g as int, items_count(s@, i + 1, sym) as int);
            }
            if !ok && items_fits(s@, i + 1, gm as nat) {
                let sym = choose|sym: Seq<char>|
                    count_of(old_es, sym) + gm * #[trigger] items_count(s@, i + 1, sym)
                        > u64::MAX;
                assert(count_of(old_es, sym) + mult * item_count(s@, i as int, sym) > u64::MAX);
            }
        }
        ok
    }
}

/// Adds the atoms of the formula items from `i` on, under the multiplier
/// `mult`, to `counts`; false where a number outgrows its integer.
pub(crate) fn process_pairs(
    s: &Vec<char>,
    text: &str,
    i: usize,
    mult: u64,
    counts: &mut Vec<(String, u64)>,
) -> (ok: bool)
    requires
        text@ == s@,
        i <= s.len(),
        mult >= 1,
        unique_keys(entries_view(old(counts)@)),
    ensures
        unique_keys(entries_view(final(counts)@)),
        ok ==> keys_of(entries_view(final(counts)@)) == items_syms(
            s@,
            i as int,
            keys_of(entries_view(old(counts)@)),
        ),
        ok ==> forall|sym: Seq<char>|
            count_of(entries_view(final(counts)@), sym) == count_of(
                entries_view(old(counts)@),
                sym,
            ) + mult * #[trigger] items_count(s@, i as int, sym),
        ok ==> items_fits(s@, i as int, mult as nat),
        !ok ==> !items_fits(s@, i as int, mult as nat) || exists|sym: Seq<char>|
            count_of(entries_view(old(counts)@), sym) + mult * #[trigger] items_count(
                s@,
                i as int,
                sym,
            ) > u64::MAX,
    decreases s.len() - i, 2int,
{
    let ghost old_es = entries_view(counts@);
    let mut pos = i;
    loop
        invariant
            text@ == s@,
            i <= pos <= s.len(),
            mult >= 1,
            old_es == entries_view(old(counts)@),
            unique_keys(entries_view(counts@)),
            items_syms(s@, i as int, keys_of(old_es)) == items_syms(
                s@,
                pos as int,
                keys_of(entries_view(counts@)),
            ),
            forall|sym: Seq<char>|
                count_of(entries_view(counts@), sym) + mult * #[trigger] items_count(
                    s@,
                    pos as int,
                    sym,
                ) == count_of(old_es, sym) + mult * items_count(s@, i as int, sym),
            items_fits(s@, i as int, mult as nat) == items_fits(s@, pos as int, mult as nat),
        decreases s.len() - pos,
    {
        match scan_item(s, pos) {
            None => {
                assert(items_syms(s@, pos as int, keys_of(entries_view(counts@))) == keys_of(
                    entries_view(counts@),
                ));
                assert forall|sym: Seq<char>|
                    count_of(entries_view(counts@), sym) == count_of(old_es, sym) + mult
                        * #[trigger] items_count(s@, i as int, sym) by {
                    assert(items_count(s@, pos as int, sym) == 0);
                    assert(mult * items_count(s@, pos as int, sym) == 0) by (nonlinear_arith)
                        requires
                            items_count(s@, pos as int, sym) == 0,
                    ;
                }
                return true;
            },
            Some(j) => {
                let ghost before = entries_view(counts@);
                let ok = process_pair(s, text, pos, mult, counts);
                proof {
                    assert forall|sym: Seq<char>|
                        mult * #[trigger] items_count(s@, pos as int, sym) == mult * item_count(
                            s@,
                            pos as int,
                            sym,
                        ) + mult * items_count(s@, j as int, sym) by {
                        lemma_mul_is_distributive_add(
                            mult as int,
                            item_count(s@, pos as int, sym) as int,
                            items_count(s@, j as int, sym) as int,
                        );
                    }
                }
                if !ok {
                    proof {
                        if items_fits(s@, i as int, mult as nat) {
                            let sym = choose|sym: Seq<char>|
                                count_of(before, sym) + mult * #[trigger] item_count(
                                    s@,
                                    pos as int,
                                    sym,
                                ) > u64::MAX;
                            assert(count_of(before, sym) + mult * items_count(s@, pos as int, sym)
                                == count_of(old_es, sym) + mult * items_count(s@, i as int, sym));
                            assert(mult * items_count(s@, pos as int, sym) == mult * item_count(
                                s@,
                                pos as int,
                                sym,
                            ) + mult * items_count(s@, j as int, sym));
                            assert(mult * items_count(s@, j as int, sym) >= 0) by (nonlinear_arith);
                            assert(count_of(old_es, sym) + mult * items_count(s@, i as int, sym)
                                > u64::MAX);
                        }
                    }
                    return false;
                }
                assert forall|sym: Seq<char>|
                    count_of(entries_view(counts@), sym) + mult * #[trigger] items_count(
                        s@,
                        j as int,
                        sym,
                    ) == count_of(old_es, sym) + mult * items_count(s@, i as int, sym) by {
                    assert(count_of(before, sym) + mult * items_count(s@, pos as int, sym)
                        == count_of(old_es, sym) + mult * items_count(s@, i as int, sym));
                }
                pos = j;
            },
        }
    }
}

pub proof fn lemma_mass_sum_mono(t: Map<Seq<char>, Element>, es: Seq<(Seq<char>, nat)>, j: int, k: int)
    requires
        j <= k,
    ensures
        mass_sum(t, es, j) <= mass_sum(t, es, k),
    decreases k - j,
{
    if j < k {
        lemma_mass_sum_mono(t, es, j, k - 1);
    }
}

/// The mass of the entries `counts`, whose symbols the table holds, where it
/// fits a `u128`.
pub fn mass_of(table: &PeriodicTable, counts: &Vec<(String, u64)>) -> (r: Option<u128>)
    requires
        forall|k: int| 0 <= k < counts.len() ==> table@.contains_key(#[trigger] counts@[k].0@),
    ensures
        r matches Some(m) ==> m == mass_sum(table@, entries_view(counts@), counts.len() as int),
        r is None ==> mass_sum(table@, entries_view(counts@), counts.len() as int) > u128::MAX,
{
    let ghost es = entries_view(counts@);
    let mut total: u128 = 0;
    let mut k: usize = 0;
    while k < counts.len()
        invariant
            k <= counts.len(),
            es == entries_view(counts@),
            forall|m: int| 0 <= m < counts.len() ==> table@.contains_key(#[trigger] counts@[m].0@),
            total == mass_sum(table@, es, k as int),
        decreases counts.len() - k,
    {
        let c = counts[k].1;
        let atomic = match table.get_element(counts[k].0.as_str()) {
            Some(el) => el.atomic_mass,
            None => {
                assert(table@.contains_key(counts@[k as int].0@));
                return None;
            },
        };
        assert(es[k as int].1 == c);
        assert(es[k as int].0 == counts@[k as int].0@);
        assert((c as u128) * (atomic as u128) <= u128::MAX) by (nonlinear_arith)
            requires
                c <= u64::MAX,
                atomic <= u64::MAX,
        ;
        let term = (c as u128) * (atomic as u128);
        match total.checked_add(term) {
            Some(t) => {
                total = t;
            },
            None => {
                proof {
                    lemma_mass_sum_mono(table@, es, k + 1, counts.len() as int);
                }
                return None;
            },
        }
        k += 1;
    }
    Some(total)
}

} // verus!
