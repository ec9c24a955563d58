//! Laws of formula counting, stated over texts and proved from the grammar.
use crate::analysis::{group_count, group_index, item_count, items_count, symbol_at};
use crate::grammar::{
    arrow_end,
    equation_terms,
    is_ws,
    side_at,
    side_rest,
    term_at,
    ws_end,
    digits_end,
    digits_value,
    is_digit,
    is_formula,
    is_lower,
    is_nonzero_digit,
    is_symbol,
    is_upper,
    item_end,
    items_end,
    lower_end,
    number_end,
    number_value,
    symbol_end,
    group_inner_end,
};
use crate::{equation_outcome, formula_outcome, Fault};
use crate::element::Element;
use vstd::prelude::*;

verus! {

/// `t` stands in `s` at `off`, and what follows it in `s` cannot continue a
/// symbol or a number of `t`.
pub open spec fn framed(s: Seq<char>, t: Seq<char>, off: int) -> bool {
    &&& 0 <= off
    &&& off + t.len() <= s.len()
    &&& s.subrange(off, off + t.len()) == t
    &&& (off + t.len() == s.len() || (!is_lower(s[off + t.len()]) && !is_digit(
        s[off + t.len()],
    )))
}

proof fn lemma_framed_char(s: Seq<char>, t: Seq<char>, off: int, i: int)
    requires
        framed(s, t, off),
        0 <= i < t.len(),
    ensures
        s[off + i] == t[i],
{
    assert(s.subrange(off, off + t.len())[i] == s[off + i]);
}

proof fn lemma_frame_lower(s: Seq<char>, t: Seq<char>, off: int, i: int)
    requires
        framed(s, t, off),
        0 <= i <= t.len(),
    ensures
        lower_end(s, off + i) == off + lower_end(t, i),
    decreases t.len() - i,
{
    if i < t.len() {
        lemma_framed_char(s, t, off, i);
        lemma_frame_lower(s, t, off, i + 1);
    }
}

proof fn lemma_frame_digits(s: Seq<char>, t: Seq<char>, off: int, i: int)
    requires
        framed(s, t, off),
        0 <= i <= t.len(),
    ensures
        digits_end(s, off + i) == off + digits_end(t, i),
    decreases t.len() - i,
{
    if i < t.len() {
        lemma_framed_char(s, t, off, i);
        lemma_frame_digits(s, t, off, i + 1);
    }
}

proof fn lemma_frame_digits_value(s: Seq<char>, t: Seq<char>, off: int, a: int, b: int)
    requires
        framed(s, t, off),
        0 <= a <= b <= t.len(),
    ensures
        digits_value(s, off + a, off + b) == digits_value(t, a, b),
    decreases b - a,
{
    if a < b {
        lemma_framed_char(s, t, off, b - 1);
        lemma_frame_digits_value(s, t, off, a, b - 1);
    }
}

proof fn lemma_frame_number(s: Seq<char>, t: Seq<char>, off: int, i: int)
    requires
        framed(s, t, off),
        0 <= i <= t.len(),
    ensures
        number_end(s, off + i) == off + number_end(t, i),
        number_value(s, off + i) == number_value(t, i),
        i <= number_end(t, i) <= t.len(),
{
    if i < t.len() {
        lemma_framed_char(s, t, off, i);
        if is_nonzero_digit(t[i]) {
            lemma_frame_digits(s, t, off, i + 1);
            crate::grammar::lemma_digits_run(t, i + 1);
            lemma_frame_digits_value(s, t, off, i, number_end(t, i));
        }
    }
}

proof fn lemma_frame_item(s: Seq<char>, t: Seq<char>, off: int, i: int, sym: Seq<char>)
    requires
        framed(s, t, off),
        0 <= i < t.len(),
        item_end(t, i) matches Some(j) && i < j <= t.len(),
    ensures
        item_end(s, off + i) == Some(off + item_end(t, i)->0),
        item_count(s, off + i, sym) == item_count(t, i, sym),
    decreases t.len() - i, 0int,
{
    lemma_framed_char(s, t, off, i);
    if is_upper(t[i]) {
        lemma_frame_lower(s, t, off, i + 1);
        crate::grammar::lemma_lower_run(t, i + 1);
        lemma_frame_number(s, t, off, symbol_end(t, i));
        assert(symbol_at(s, off + i) =~= symbol_at(t, i)) by {
            assert forall|k: int| 0 <= k < symbol_at(t, i).len() implies symbol_at(s, off + i)[k]
                == symbol_at(t, i)[k] by {
                lemma_framed_char(s, t, off, i + k);
            }
        }
    } else {
        let c = items_end(t, i + 1);
        assert(c == group_inner_end(t, i));
        lemma_framed_char(s, t, off, c);
        lemma_frame_items(s, t, off, i + 1, sym);
        lemma_frame_number(s, t, off, c + 1);
        assert(group_inner_end(s, off + i) == off + c);
        assert(group_count(s, off + i, sym) == group_count(t, i, sym));
        assert(group_index(s, off + i) == group_index(t, i));
    }
}

/// A run of items of `t` that stops inside `t` stops at the same place in `s`;
/// one that reaches the end of `t` goes on with what follows `t` in `s`.
proof fn lemma_frame_items(s: Seq<char>, t: Seq<char>, off: int, i: int, sym: Seq<char>)
    requires
        framed(s, t, off),
        0 <= i <= t.len(),
        items_end(t, i) < t.len() ==> !is_upper(t[items_end(t, i)]) && t[items_end(t, i)] != '(',
    ensures
        items_end(t, i) < t.len() ==> items_end(s, off + i) == off + items_end(t, i)
            && items_count(s, off + i, sym) == items_count(t, i, sym),
        items_end(t, i) == t.len() ==> items_end(s, off + i) == items_end(s, off + t.len())
            && items_count(s, off + i, sym) == items_count(t, i, sym) + items_count(
            s,
            off + t.len(),
            sym,
        ),
        i <= items_end(t, i) <= t.len(),
    decreases t.len() - i, 1int,
{
    match item_end(t, i) {
        Some(j) => {
            if i < j <= t.len() {
                lemma_frame_item(s, t, off, i, sym);
                lemma_frame_items(s, t, off, j, sym);
            } else {
                lemma_item_end_progress(t, i);
            }
        },
        None => {
            if i < t.len() {
                lemma_framed_char(s, t, off, i);
            }
        },
    }
}

pub proof fn lemma_item_end_progress(t: Seq<char>, i: int)
    requires
        0 <= i <= t.len(),
        item_end(t, i) is Some,
    ensures
        i < item_end(t, i)->0 <= t.len(),
{
    if is_upper(t[i]) {
        crate::grammar::lemma_lower_run(t, i + 1);
        crate::grammar::lemma_number_value_positive(t, symbol_end(t, i));
    } else {
        let c = group_inner_end(t, i);
        crate::grammar::lemma_number_value_positive(t, c + 1);
    }
}

/// A lone element symbol is a formula with one atom of that element.
pub proof fn lemma_symbol_counts(x: Seq<char>, sym: Seq<char>)
    requires
        is_symbol(x),
    ensures
        is_formula(x),
        items_count(x, 0, sym) == if sym == x {
            1nat
        } else {
            0nat
        },
{
    assert(number_end(x, x.len() as int) == x.len());
    assert(item_end(x, 0) == Some(x.len() as int));
    assert(item_end(x, x.len() as int) is None);
    assert(items_end(x, 0) == items_end(x, x.len() as int));
    assert(symbol_at(x, 0) =~= x);
    assert(items_count(x, x.len() as int, sym) == 0);
    assert(number_value(x, x.len() as int) == 1);
    assert(items_count(x, 0, sym) == item_count(x, 0, sym));
}

proof fn lemma_formula_start(b: Seq<char>)
    requires
        is_formula(b),
    ensures
        is_upper(b[0]) || b[0] == '(',
{
    assert(item_end(b, 0) is Some);
}

/// Writing one formula after another adds their counts: the text is a
/// formula, and each element's count is the sum of its counts in the two.
pub proof fn lemma_concat_counts(a: Seq<char>, b: Seq<char>, sym: Seq<char>)
    requires
        is_formula(a),
        is_formula(b),
    ensures
        is_formula(a + b),
        items_count(a + b, 0, sym) == items_count(a, 0, sym) + items_count(b, 0, sym),
{
    let s = a + b;
    lemma_formula_start(b);
    assert(s.subrange(0, a.len() as int) =~= a);
    assert(s[a.len() as int] == b[0]);
    assert(framed(s, a, 0));
    lemma_frame_items(s, a, 0, 0, sym);
    assert(s.subrange(a.len() as int, (a.len() + b.len()) as int) =~= b);
    assert(framed(s, b, a.len() as int));
    lemma_frame_items(s, b, a.len() as int, 0, sym);
    assert(item_end(s, s.len() as int) is None);
    assert(items_end(s, s.len() as int) == s.len());
    assert(items_count(s, s.len() as int, sym) == 0);
}

/// A formula in parentheses followed by an index `d` (or by nothing, which
/// counts as 1) is a formula whose counts are those of the inner formula
/// times the index.
pub proof fn lemma_group_counts(t: Seq<char>, d: Seq<char>, sym: Seq<char>)
    requires
        is_formula(t),
        d.len() == 0 || number_end(d, 0) == d.len(),
    ensures
        is_formula(seq!['('] + t + seq![')'] + d),
        items_count(seq!['('] + t + seq![')'] + d, 0, sym) == number_value(d, 0) * items_count(
            t,
            0,
            sym,
        ),
{
    let s = seq!['('] + t + seq![')'] + d;
    let c = (t.len() + 1) as int;
    assert(s.subrange(1, c) =~= t);
    assert(s[c] == ')');
    assert(framed(s, t, 1));
    lemma_frame_items(s, t, 1, 0, sym);
    assert(item_end(s, c) is None);
    assert(items_end(s, c) == c);
    assert(items_count(s, c, sym) == 0);
    assert(s.subrange(c + 1, s.len() as int) =~= d);
    assert(framed(s, d, c + 1));
    lemma_frame_number(s, d, c + 1, 0);
    assert(s[0] == '(');
    assert(group_inner_end(s, 0) == c);
    assert(item_end(s, 0) == Some(s.len() as int));
    assert(item_end(s, s.len() as int) is None);
    assert(items_end(s, 0) == items_end(s, s.len() as int));
    assert(group_index(s, 0) == number_value(d, 0));
    assert(group_count(s, 0, sym) == items_count(t, 0, sym));
    assert(items_count(s, s.len() as int, sym) == 0);
    assert(item_count(s, 0, sym) == group_index(s, 0) * group_count(s, 0, sym));
    assert(items_count(s, 0, sym) == item_count(s, 0, sym));
}

/// Groups within groups multiply: the counts of `((t)d1)d2` are those of `t`
/// times both indices.
pub proof fn lemma_nested_group_counts(t: Seq<char>, d1: Seq<char>, d2: Seq<char>, sym: Seq<char>)
    requires
        is_formula(t),
        d1.len() == 0 || number_end(d1, 0) == d1.len(),
        d2.len() == 0 || number_end(d2, 0) == d2.len(),
    ensures
        is_formula(seq!['('] + (seq!['('] + t + seq![')'] + d1) + seq![')'] + d2),
        items_count(seq!['('] + (seq!['('] + t + seq![')'] + d1) + seq![')'] + d2, 0, sym)
            == number_value(d1, 0) * number_value(d2, 0) * items_count(t, 0, sym),
{
    let inner = seq!['('] + t + seq![')'] + d1;
    lemma_group_counts(t, d1, sym);
    lemma_group_counts(inner, d2, sym);
    vstd::arithmetic::mul::lemma_mul_is_associative(
        number_value(d2, 0) as int,
        number_value(d1, 0) as int,
        items_count(t, 0, sym) as int,
    );
    vstd::arithmetic::mul::lemma_mul_is_commutative(
        number_value(d2, 0) as int,
        number_value(d1, 0) as int,
    );
}

/// An element symbol written last, with no index after it, adds exactly one
/// atom of that element and leaves every other count as it was.
pub proof fn lemma_trailing_element(a: Seq<char>, x: Seq<char>, sym: Seq<char>)
    requires
        is_formula(a),
        is_symbol(x),
    ensures
        is_formula(a + x),
        items_count(a + x, 0, x) == items_count(a, 0, x) + 1,
        sym != x ==> items_count(a + x, 0, sym) == items_count(a, 0, sym),
{
    lemma_symbol_counts(x, x);
    lemma_symbol_counts(x, sym);
    lemma_concat_counts(a, x, x);
    lemma_concat_counts(a, x, sym);
}

/// Within a group with index `d`, an element symbol written last, with no
/// index of its own, adds exactly the group's multiplier to its count.
pub proof fn lemma_trailing_element_in_group(a: Seq<char>, x: Seq<char>, d: Seq<char>)
    requires
        is_formula(a),
        is_symbol(x),
        d.len() == 0 || number_end(d, 0) == d.len(),
    ensures
        items_count(seq!['('] + (a + x) + seq![')'] + d, 0, x) == items_count(
            seq!['('] + a + seq![')'] + d,
            0,
            x,
        ) + number_value(d, 0),
{
    lemma_trailing_element(a, x, x);
    lemma_group_counts(a + x, d, x);
    lemma_group_counts(a, d, x);
    vstd::arithmetic::mul::lemma_mul_is_distributive_add(
        number_value(d, 0) as int,
        items_count(a, 0, x) as int,
        1,
    );
}

/// The sum, over each place from `p` on where the symbol `sym` is written,
/// of the index written after it (1 where none is).
pub open spec fn written_count(s: Seq<char>, p: int, sym: Seq<char>) -> nat
    decreases s.len() - p,
{
    if p < 0 || p >= s.len() {
        0
    } else {
        (if is_upper(s[p]) && symbol_at(s, p) == sym {
            number_value(s, symbol_end(s, p))
        } else {
            0nat
        }) + written_count(s, p + 1, sym)
    }
}

proof fn lemma_written_skip(s: Seq<char>, a: int, b: int, sym: Seq<char>)
    requires
        0 <= a <= b <= s.len(),
        forall|k: int| a <= k < b ==> !is_upper(#[trigger] s[k]),
    ensures
        written_count(s, a, sym) == written_count(s, b, sym),
    decreases b - a,
{
    if a < b {
        lemma_written_skip(s, a + 1, b, sym);
    }
}

proof fn lemma_items_written(s: Seq<char>, i: int, sym: Seq<char>)
    requires
        0 <= i <= s.len(),
        items_end(s, i) == s.len(),
        !s.contains('('),
    ensures
        items_count(s, i, sym) == written_count(s, i, sym),
    decreases s.len() - i,
{
    if i < s.len() {
        assert(item_end(s, i) is Some);
        lemma_item_end_progress(s, i);
        let j = item_end(s, i)->0;
        assert(s[i] != '(') by {
            if s[i] == '(' {
                assert(s.contains('('));
            }
        }
        let e = symbol_end(s, i);
        crate::grammar::lemma_lower_run(s, i + 1);
        crate::grammar::lemma_number_value_positive(s, e);
        assert forall|k: int| i + 1 <= k < j implies !is_upper(#[trigger] s[k]) by {
            if k < e {
                assert(is_lower(s[k]));
            } else {
                assert(is_digit(s[k]));
            }
        }
        assert(is_upper(s[i]));
        lemma_written_skip(s, i + 1, j, sym);
        lemma_items_written(s, j, sym);
        assert(items_count(s, i, sym) == item_count(s, i, sym) + items_count(s, j, sym));
        assert(written_count(s, i, sym) == item_count(s, i, sym) + written_count(s, i + 1, sym));
    }
}

/// Without groups, a formula's count of an element is the sum, over each
/// place where its symbol is written, of the index written after it (1 where
/// none is).
pub proof fn lemma_counts_without_groups(s: Seq<char>, sym: Seq<char>)
    requires
        is_formula(s),
        !s.contains('('),
    ensures
        items_count(s, 0, sym) == written_count(s, 0, sym),
{
    lemma_items_written(s, 0, sym);
}

/// Every `0` in `s[a..b]` comes right after a digit of `s[a..b]`: no number
/// written there is 0 or starts with 0.
pub open spec fn zeros_follow_digits(s: Seq<char>, a: int, b: int) -> bool {
    forall|p: int| #![trigger s[p]] a <= p < b && s[p] == '0' ==> a < p && is_digit(s[p - 1])
}

proof fn lemma_zeros_join(s: Seq<char>, a: int, b: int, c: int)
    requires
        a <= b <= c,
        zeros_follow_digits(s, a, b),
        zeros_follow_digits(s, b, c),
    ensures
        zeros_follow_digits(s, a, c),
{
    assert forall|p: int| a <= p < c && #[trigger] s[p] == '0' implies a < p && is_digit(s[p - 1]) by {
        if p < b {
            assert(a <= p < b && s[p] == '0');
        } else {
            assert(b <= p < c && s[p] == '0');
        }
    }
}

proof fn lemma_zeros_number(s: Seq<char>, k: int)
    requires
        0 <= k <= s.len(),
    ensures
        zeros_follow_digits(s, k, number_end(s, k)),
        k <= number_end(s, k) <= s.len(),
{
    crate::grammar::lemma_number_value_positive(s, k);
    let e = number_end(s, k);
    assert forall|p: int| k <= p < e && #[trigger] s[p] == '0' implies k < p && is_digit(s[p - 1]) by {
        assert(is_digit(s[p]));
        if p == k {
            assert(is_nonzero_digit(s[k]));
        }
        assert(is_digit(s[p - 1]));
    }
}

proof fn lemma_zeros_item(s: Seq<char>, i: int)
    requires
        0 <= i < s.len(),
        item_end(s, i) matches Some(j) && i < j <= s.len(),
    ensures
        zeros_follow_digits(s, i, item_end(s, i)->0),
    decreases s.len() - i, 0int,
{
    let j = item_end(s, i)->0;
    if is_upper(s[i]) {
        let e = symbol_end(s, i);
        crate::grammar::lemma_lower_run(s, i + 1);
        assert(zeros_follow_digits(s, i, e)) by {
            assert forall|p: int| i <= p < e implies s[p] != '0' by {
                if p > i {
                    assert(is_lower(s[p]));
                }
            }
        }
        lemma_zeros_number(s, e);
        lemma_zeros_join(s, i, e, j);
    } else {
        let c = items_end(s, i + 1);
        assert(zeros_follow_digits(s, i, i + 1));
        lemma_zeros_items(s, i + 1);
        lemma_zeros_join(s, i, i + 1, c);
        assert(zeros_follow_digits(s, c, c + 1));
        lemma_zeros_join(s, i, c, c + 1);
        lemma_zeros_number(s, c + 1);
        lemma_zeros_join(s, i, c + 1, j);
    }
}

proof fn lemma_zeros_items(s: Seq<char>, i: int)
    requires
        0 <= i <= s.len(),
    ensures
        zeros_follow_digits(s, i, items_end(s, i)),
        i <= items_end(s, i) <= s.len(),
    decreases s.len() - i, 1int,
{
    match item_end(s, i) {
        Some(j) => if i < j <= s.len() {
            lemma_zeros_item(s, i);
            lemma_zeros_items(s, j);
            lemma_zeros_join(s, i, j, items_end(s, j));
        },
        None => {},
    }
}

/// In a formula, every `0` comes right after another digit: no index is 0
/// or starts with 0.
pub proof fn lemma_formula_zeros(s: Seq<char>)
    requires
        is_formula(s),
    ensures
        zeros_follow_digits(s, 0, s.len() as int),
{
    lemma_zeros_items(s, 0);
}

proof fn lemma_zeros_ws(s: Seq<char>, i: int)
    requires
        0 <= i <= s.len(),
    ensures
        zeros_follow_digits(s, i, ws_end(s, i)),
        i <= ws_end(s, i) <= s.len(),
    decreases s.len() - i,
{
    if i < s.len() && is_ws(s[i]) {
        lemma_zeros_ws(s, i + 1);
        assert(zeros_follow_digits(s, i, i + 1));
        lemma_zeros_join(s, i, i + 1, ws_end(s, i));
    }
}

proof fn lemma_zeros_term(s: Seq<char>, i: int)
    requires
        0 <= i <= s.len(),
        term_at(s, i) is Some,
    ensures
        zeros_follow_digits(s, i, (term_at(s, i)->0).end),
        i < (term_at(s, i)->0).end <= s.len(),
{
    let k = number_end(s, i);
    lemma_zeros_number(s, i);
    lemma_zeros_items(s, k);
    lemma_zeros_join(s, i, k, items_end(s, k));
}

proof fn lemma_zeros_side_rest(s: Seq<char>, i: int)
    requires
        0 <= i <= s.len(),
    ensures
        zeros_follow_digits(s, i, side_rest(s, i).1),
        i <= side_rest(s, i).1 <= s.len(),
    decreases s.len() - i,
{
    let a = ws_end(s, i);
    lemma_zeros_ws(s, i);
    if a < s.len() && s[a] == '+' {
        let b = ws_end(s, a + 1);
        lemma_zeros_ws(s, a + 1);
        match term_at(s, b) {
            Some(t) => if i < t.end <= s.len() {
                lemma_zeros_term(s, b);
                lemma_zeros_side_rest(s, t.end);
                assert(zeros_follow_digits(s, a, a + 1));
                lemma_zeros_join(s, i, a, a + 1);
                lemma_zeros_join(s, i, a + 1, b);
                lemma_zeros_join(s, i, b, t.end);
                lemma_zeros_join(s, i, t.end, side_rest(s, t.end).1);
            },
            None => {},
        }
    }
}

proof fn lemma_zeros_side(s: Seq<char>, i: int)
    requires
        0 <= i <= s.len(),
        side_at(s, i) is Some,
    ensures
        zeros_follow_digits(s, i, (side_at(s, i)->0).1),
        i <= (side_at(s, i)->0).1 <= s.len(),
{
    let t = term_at(s, i)->0;
    lemma_zeros_term(s, i);
    lemma_zeros_side_rest(s, t.end);
    lemma_zeros_join(s, i, t.end, side_rest(s, t.end).1);
}

/// In an equation, every `0` comes right after another digit: no
/// coefficient or index is 0 or starts with 0.
pub proof fn lemma_equation_zeros(s: Seq<char>)
    requires
        equation_terms(s) is Some,
    ensures
        zeros_follow_digits(s, 0, s.len() as int),
{
    let e = (side_at(s, 0)->0).1;
    lemma_zeros_side(s, 0);
    let a = ws_end(s, e);
    lemma_zeros_ws(s, e);
    let b = arrow_end(s, e)->0;
    assert(zeros_follow_digits(s, a, a + 2));
    lemma_zeros_ws(s, a + 2);
    lemma_zeros_side(s, b);
    lemma_zeros_join(s, 0, e, a);
    lemma_zeros_join(s, 0, a, a + 2);
    lemma_zeros_join(s, 0, a + 2, b);
    lemma_zeros_join(s, 0, b, s.len() as int);
}

/// A text with a `0` that does not come right after a digit (an index or a
/// coefficient of 0, or one that starts with 0) is rejected by the grammar,
/// as a formula and as an equation.
pub proof fn lemma_zero_led_number_rejected(t: Map<Seq<char>, Element>, s: Seq<char>, p: int)
    requires
        0 <= p < s.len(),
        s[p] == '0',
        p == 0 || !is_digit(s[p - 1]),
    ensures
        formula_outcome(t, s) == Err::<crate::element::FormulaView, Fault>(
            Fault::ParsingError("formula"@, s),
        ),
        equation_outcome(t, s) == Err::<crate::element::EquationView, Fault>(
            Fault::ParsingError("equation"@, s),
        ),
{
    if is_formula(s) {
        lemma_formula_zeros(s);
    }
    if equation_terms(s) is Some {
        lemma_equation_zeros(s);
    }
}

/// Parsing depends on nothing but the table and the text: the same table and
/// text give the same outcome, error or value, every time.
pub proof fn lemma_outcome_deterministic(
    t1: Map<Seq<char>, Element>,
    t2: Map<Seq<char>, Element>,
    s1: Seq<char>,
    s2: Seq<char>,
)
    requires
        t1 == t2,
        s1 == s2,
    ensures
        formula_outcome(t1, s1) == formula_outcome(t2, s2),
        equation_outcome(t1, s1) == equation_outcome(t2, s2),
{
}

} // verus!
