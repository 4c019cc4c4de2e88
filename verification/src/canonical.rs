//! The formula that the library writes for a molecule is read back as that
//! molecule.

use crate::command::formula_of;
use crate::elem::{
    coef_total, elem_text, formula_text, grouped, has_name, lemma_coef_total_absent,
    lemma_coef_total_ascending, lemma_grouped, lemma_grouped_fixed, names_ascend, ElemView,
    Molecule,
};
use crate::parser::{
    coefficient_at, element_at, lemma_molecule_at, molecule_at, periodic_at, scale_fits, scaled,
};
use crate::text::{
    bounded_value, char_is_alphabetic, char_is_lowercase, char_is_numeric, char_is_uppercase,
    decimal_digits, in_class, is_alphabetic, is_digit, is_lowercase, is_numeric, is_uppercase,
    lemma_decimal_round_trip, lemma_run_end, run_end, to_chars, CharClass,
};
use vstd::prelude::*;

verus! {

/// Whether `name` is read as the name of one element: an uppercase letter and
/// lowercase letters after it. The uppercase letter is alphabetic, and it is
/// neither a lowercase letter nor a numeric character nor a parenthesis.
pub open spec fn is_element_name(name: Seq<char>) -> bool {
    &&& name.len() >= 1
    &&& is_uppercase(name[0])
    &&& is_alphabetic(name[0])
    &&& !is_lowercase(name[0])
    &&& !is_numeric(name[0])
    &&& name[0] != '('
    &&& forall|i: int| 1 <= i < name.len() ==> is_lowercase(#[trigger] name[i])
}

/// Whether the ten digits are numeric characters and no lowercase letters.
pub open spec fn digits_are_numeric() -> bool {
    forall|c: char| is_digit(c) ==> is_numeric(c) && !is_lowercase(c)
}

/// Whether every element of `g` has the name of an element and a coefficient
/// from 1 to `u32::MAX`.
pub open spec fn writable(g: Seq<ElemView>) -> bool {
    forall|i: int|
        0 <= i < g.len() ==> is_element_name((#[trigger] g[i]).name) && 1 <= g[i].coef <= u32::MAX
}

/// Whether `m` and `g` hold the same elements with the same coefficients in
/// the same order, wherever in a text they stand.
pub open spec fn same_atoms(m: Seq<ElemView>, g: Seq<ElemView>) -> bool {
    &&& m.len() == g.len()
    &&& forall|i: int|
        0 <= i < m.len() ==> (#[trigger] m[i]).name == g[i].name && m[i].coef == g[i].coef
}

/// A formula is the text of its first element followed by the formula of the
/// others.
pub proof fn lemma_formula_text_front(g: Seq<ElemView>)
    requires
        g.len() > 0,
    ensures
        formula_text(g) == elem_text(g[0]) + formula_text(g.drop_first()),
    decreases g.len(),
{
    if g.len() == 1 {
        assert(g.drop_last() =~= Seq::<ElemView>::empty());
        assert(g.drop_first() =~= Seq::<ElemView>::empty());
        assert(formula_text(g.drop_last()) =~= Seq::<char>::empty());
        assert(formula_text(g) =~= elem_text(g[0]) + formula_text(g.drop_first()));
    } else {
        lemma_formula_text_front(g.drop_last());
        assert(g.drop_last().drop_first() =~= g.drop_first().drop_last());
        assert(g.drop_first().last() == g.last());
        assert(g.drop_last()[0] == g[0]);
        assert(formula_text(g) =~= elem_text(g[0]) + formula_text(g.drop_first()));
    }
}

/// A run that is known to hold the characters `i .. j` and not the next one
/// ends at `j`.
pub proof fn lemma_run_end_at(s: Seq<char>, i: nat, j: nat, class: CharClass)
    requires
        i <= j <= s.len(),
        forall|k: int| i <= k < j ==> in_class(class, #[trigger] s[k]),
        j < s.len() ==> !in_class(class, s[j as int]),
    ensures
        run_end(s, i, class) == j,
    decreases j - i,
{
    if i < j {
        lemma_run_end_at(s, i + 1, j, class);
    }
}

/// The text of an element is read back as that element, if what follows it
/// in the text is neither a lowercase letter nor a numeric character.
pub proof fn lemma_periodic_reads(s: Seq<char>, idx: nat, e: ElemView)
    requires
        is_element_name(e.name),
        1 <= e.coef <= u32::MAX,
        digits_are_numeric(),
        idx + elem_text(e).len() <= s.len(),
        s.subrange(idx as int, (idx + elem_text(e).len()) as int) == elem_text(e),
        idx + elem_text(e).len() < s.len() ==> !is_lowercase(
            s[(idx + elem_text(e).len()) as int],
        ) && !is_numeric(s[(idx + elem_text(e).len()) as int]),
    ensures
        periodic_at(s, idx, 0).idx == idx + elem_text(e).len(),
        periodic_at(s, idx, 0).level == 0,
        periodic_at(s, idx, 0).result matches Ok(m) && m.len() == 1 && m[0].name == e.name
            && m[0].coef == e.coef,
{
    let text = elem_text(e);
    let name = e.name;
    let a = idx + name.len();
    let b = idx + text.len();
    let digits = decimal_digits(e.coef);
    lemma_decimal_round_trip(e.coef);
    assert forall|i: int| 0 <= i < text.len() implies s[idx + i] == #[trigger] text[i] by {
        assert(s.subrange(idx as int, (idx + text.len()) as int)[i] == s[idx + i]);
    }
    assert(s[idx as int] == name[0]) by {
        assert(text[0] == name[0]);
    }
    assert forall|k: int| idx + 1 <= k < a implies in_class(
        CharClass::Lowercase,
        #[trigger] s[k],
    ) by {
        assert(text[k - idx] == name[k - idx]);
        assert(s[idx + (k - idx)] == text[k - idx]);
    }
    if e.coef > 1 {
        assert(text =~= name + digits);
        assert(b == a + digits.len());
        assert forall|i: int| 0 <= i < digits.len() implies s[a + i] == #[trigger] digits[i] by {
            assert(text[name.len() + i] == digits[i]);
            assert(s[idx + (name.len() + i)] == text[name.len() + i]);
        }
        assert(s[a as int] == digits[0]);
        assert(is_digit(digits[0]));
    } else {
        assert(text =~= name);
        assert(a == b);
    }
    lemma_run_end_at(s, idx + 1, a, CharClass::Lowercase);
    let elem = element_at(s, idx, 0);
    assert(elem.idx == a);
    assert(s.subrange(idx as int, a as int) =~= name) by {
        assert forall|i: int| 0 <= i < name.len() implies s.subrange(idx as int, a as int)[i]
            == name[i] by {
            assert(text[i] == name[i]);
            assert(s[idx + i] == text[i]);
        }
    }
    assert(elem.result matches Ok(m) && m.len() == 1 && m[0].name == name && m[0].coef == 1);
    if e.coef > 1 {
        assert forall|k: int| a <= k < b implies in_class(CharClass::Numeric, #[trigger] s[k]) by {
            assert(s[a + (k - a)] == digits[k - a]);
            assert(is_digit(digits[k - a]));
        }
        lemma_run_end_at(s, a, b, CharClass::Numeric);
        assert(s.subrange(a as int, b as int) =~= digits) by {
            assert forall|i: int| 0 <= i < digits.len() implies s.subrange(a as int, b as int)[i]
                == digits[i] by {
                assert(s[a + i] == digits[i]);
            }
        }
        let coef = coefficient_at(s, a, 0);
        assert(coef.idx == b);
        assert(bounded_value(digits, u32::MAX as nat) == Some(e.coef));
        assert(coef.result == Ok::<u32, crate::error::ErrorView>(e.coef as u32));
        let m = elem.result->Ok_0;
        assert(scale_fits(m, e.coef)) by {
            assert(m[0].coef * e.coef == e.coef) by (nonlinear_arith)
                requires
                    m[0].coef == 1,
            ;
        }
        assert(scaled(m, e.coef)[0].coef == e.coef) by {
            assert(m[0].coef * e.coef == e.coef) by (nonlinear_arith)
                requires
                    m[0].coef == 1,
            ;
        }
    }
}

/// The formula of a molecule, wherever in a text it ends the text, is read
/// back as that molecule.
pub proof fn lemma_molecule_reads(pre: Seq<char>, g: Seq<ElemView>)
    requires
        g.len() > 0,
        writable(g),
        digits_are_numeric(),
    ensures
        molecule_at(pre + formula_text(g), pre.len(), 0).idx == (pre + formula_text(g)).len(),
        molecule_at(pre + formula_text(g), pre.len(), 0).level == 0,
        molecule_at(pre + formula_text(g), pre.len(), 0).result matches Ok(m) && same_atoms(m, g),
    decreases g.len(),
{
    let e = g[0];
    let rest = g.drop_first();
    lemma_formula_text_front(g);
    let head = elem_text(e);
    let tail_text = formula_text(rest);
    let s = pre + formula_text(g);
    let idx = pre.len();
    let b = idx + head.len();
    assert(s =~= pre + head + tail_text);
    assert(s.subrange(idx as int, b as int) =~= head);
    assert(head.len() >= 1);
    assert forall|i: int| 0 <= i < rest.len() implies is_element_name((#[trigger] rest[i]).name)
        && 1 <= rest[i].coef <= u32::MAX by {
        assert(rest[i] == g[i + 1]);
    }
    if rest.len() > 0 {
        lemma_formula_text_front(rest);
        let next = rest[0];
        assert(elem_text(next)[0] == next.name[0]);
        assert(tail_text[0] == next.name[0]);
        assert(s[b as int] == tail_text[0]);
        lemma_periodic_reads(s, idx, e);
        lemma_molecule_reads(pre + head, rest);
        assert(pre + head + tail_text =~= (pre + head) + tail_text);
        let first = periodic_at(s, idx, 0);
        let more = molecule_at(s, b, 0);
        let m = first.result->Ok_0;
        let others = more.result->Ok_0;
        let all = m + others;
        assert(molecule_at(s, idx, 0).result == Ok::<Seq<ElemView>, crate::error::ErrorView>(all));
        assert forall|i: int| 0 <= i < all.len() implies (#[trigger] all[i]).name == g[i].name
            && all[i].coef == g[i].coef by {
            if i > 0 {
                assert(all[i] == others[i - 1]);
                assert(g[i] == rest[i - 1]);
            }
        }
    } else {
        assert(rest =~= Seq::<ElemView>::empty());
        assert(tail_text =~= Seq::<char>::empty());
        assert(b == s.len());
        lemma_periodic_reads(s, idx, e);
        let first = periodic_at(s, idx, 0);
        let m = first.result->Ok_0;
        assert(m + Seq::<ElemView>::empty() =~= m);
    }
}

/// The formula of a molecule is made of the names and the coefficients of
/// its elements alone.
pub proof fn lemma_formula_text_same(m: Seq<ElemView>, g: Seq<ElemView>)
    requires
        same_atoms(m, g),
    ensures
        formula_text(m) == formula_text(g),
    decreases m.len(),
{
    if m.len() > 0 {
        assert(m.drop_last().len() == g.drop_last().len());
        assert forall|i: int| 0 <= i < m.drop_last().len() implies (#[trigger] m.drop_last()[i]).name
            == g.drop_last()[i].name && m.drop_last()[i].coef == g.drop_last()[i].coef by {
            assert(m.drop_last()[i] == m[i]);
            assert(g.drop_last()[i] == g[i]);
        }
        lemma_formula_text_same(m.drop_last(), g.drop_last());
        assert(m[m.len() - 1].name == g[m.len() - 1].name);
    }
}

/// Writing a grouped molecule and reading it gives the molecule back: the
/// formula of a molecule whose names ascend is read, and grouped, as a
/// molecule of the same elements with the same coefficients, for which the
/// same formula is written.
pub proof fn lemma_round_trip(g: Seq<ElemView>)
    requires
        g.len() > 0,
        writable(g),
        names_ascend(g),
        digits_are_numeric(),
    ensures
        formula_of(formula_text(g)) matches Ok(h) && same_atoms(h, g) && formula_text(h)
            == formula_text(g),
{
    let text = formula_text(g);
    lemma_molecule_reads(Seq::empty(), g);
    assert(Seq::<char>::empty() + text =~= text);
    let m = molecule_at(text, 0, 0).result->Ok_0;
    assert forall|i: int, j: int| 0 <= i < j < m.len() implies crate::elem::name_lt(
        #[trigger] m[i].name,
        #[trigger] m[j].name,
    ) by {
        assert(crate::elem::name_lt(g[i].name, g[j].name));
    }
    assert forall|name: Seq<char>| #[trigger] coef_total(m, name) <= u32::MAX by {
        if has_name(m, name) {
            let i = choose|i: int| 0 <= i < m.len() && #[trigger] m[i].name == name;
            lemma_coef_total_ascending(m, i);
            assert(m[i].coef == g[i].coef);
        } else {
            lemma_coef_total_absent(m, name);
        }
    }
    lemma_grouped_fixed(m);
    lemma_formula_text_same(m, g);
}

/// Whether `name` is a name as the parser reads one: an uppercase letter and
/// lowercase letters after it.
pub open spec fn is_parsed_name(name: Seq<char>) -> bool {
    &&& name.len() >= 1
    &&& is_uppercase(name[0])
    &&& name[0] != '('
    &&& forall|i: int| 1 <= i < name.len() ==> is_lowercase(#[trigger] name[i])
}

/// Whether every uppercase letter is alphabetic, and neither a lowercase
/// letter nor a numeric character.
pub open spec fn letters_are_apart() -> bool {
    forall|c: char| is_uppercase(c) ==> is_alphabetic(c) && !is_lowercase(c) && !is_numeric(c)
}

/// Whether all elements of `m` have names as the parser reads them.
pub open spec fn parsed_names(m: Seq<ElemView>) -> bool {
    forall|i: int| 0 <= i < m.len() ==> is_parsed_name((#[trigger] m[i]).name)
}

/// The elements that the parser gives for an element have names as the
/// parser reads them.
pub proof fn lemma_element_names(s: Seq<char>, idx: nat, level: nat)
    requires
        idx <= s.len(),
    ensures
        element_at(s, idx, level).result matches Ok(m) ==> parsed_names(m),
    decreases s.len() - idx, 0nat,
{
    if idx >= s.len() {
    } else if s[idx as int] == '(' {
        lemma_molecule_names(s, idx + 1, level + 1);
    } else if is_uppercase(s[idx as int]) {
        lemma_run_end(s, idx + 1, CharClass::Lowercase);
        let end = run_end(s, idx + 1, CharClass::Lowercase);
        let name = s.subrange(idx as int, end as int);
        assert(name[0] == s[idx as int]);
        assert forall|i: int| 1 <= i < name.len() implies is_lowercase(#[trigger] name[i]) by {
            assert(name[i] == s[idx + i]);
            assert(in_class(CharClass::Lowercase, s[idx + i]));
        }
    }
}

/// The elements that the parser gives for an element with its coefficient
/// have names as the parser reads them.
pub proof fn lemma_periodic_names(s: Seq<char>, idx: nat, level: nat)
    requires
        idx <= s.len(),
    ensures
        periodic_at(s, idx, level).result matches Ok(m) ==> parsed_names(m),
    decreases s.len() - idx, 1nat,
{
    lemma_element_names(s, idx, level);
    let elem = element_at(s, idx, level);
    if periodic_at(s, idx, level).result is Ok {
        let before = elem.result->Ok_0;
        let m = periodic_at(s, idx, level).result->Ok_0;
        assert forall|i: int| 0 <= i < m.len() implies is_parsed_name((#[trigger] m[i]).name) by {
            assert(m[i].name == before[i].name);
        }
    }
}

/// The elements that the parser gives for a molecule have names as the
/// parser reads them.
pub proof fn lemma_molecule_names(s: Seq<char>, idx: nat, level: nat)
    requires
        idx <= s.len(),
    ensures
        molecule_at(s, idx, level).result matches Ok(m) ==> parsed_names(m),
    decreases s.len() - idx, 2nat,
{
    lemma_periodic_names(s, idx, level);
    crate::parser::lemma_periodic_at(s, idx, level);
    let first = periodic_at(s, idx, level);
    if molecule_at(s, idx, level).result is Ok {
        let m = first.result->Ok_0;
        if first.idx < s.len() && (is_alphabetic(s[first.idx as int]) || s[first.idx as int]
            == '(') {
            lemma_molecule_names(s, first.idx, first.level);
            let tail = molecule_at(s, first.idx, first.level).result->Ok_0;
            let all = m + tail;
            assert forall|i: int| 0 <= i < all.len() implies is_parsed_name(
                (#[trigger] all[i]).name,
            ) by {
                if i >= m.len() {
                    assert(all[i] == tail[i - m.len()]);
                } else {
                    assert(all[i] == m[i]);
                }
            }
        } else {
            assert(m + Seq::<ElemView>::empty() =~= m);
        }
    }
}

/// A formula round-trips: what is read from a formula and grouped is
/// written as a formula from which the same is read again. This holds of
/// every formula without a coefficient of zero, where the letters and the
/// digits are apart as they are in Unicode.
pub proof fn lemma_formula_round_trip(s: Seq<char>)
    requires
        formula_of(s) matches Ok(g) && forall|i: int| 0 <= i < g.len() ==> (#[trigger] g[i]).coef
            >= 1,
        letters_are_apart(),
        digits_are_numeric(),
    ensures
        formula_of(formula_text(formula_of(s)->Ok_0)) matches Ok(h) && same_atoms(
            h,
            formula_of(s)->Ok_0,
        ) && formula_text(h) == formula_text(formula_of(s)->Ok_0),
{
    let m = molecule_at(s, 0, 0).result->Ok_0;
    let g = grouped(m);
    lemma_molecule_at(s, 0, 0);
    lemma_molecule_names(s, 0, 0);
    lemma_grouped(m, m[0].name);
    assert(has_name(m, m[0].name));
    assert(g.len() > 0);
    assert forall|i: int| 0 <= i < g.len() implies is_element_name((#[trigger] g[i]).name) && 1
        <= g[i].coef <= u32::MAX by {
        let name = g[i].name;
        lemma_grouped(m, name);
        assert(has_name(g, name));
        let j = choose|j: int| 0 <= j < m.len() && #[trigger] m[j].name == name;
        assert(is_parsed_name(m[j].name));
        lemma_coef_total_ascending(g, i);
        assert(coef_total(m, name) <= u32::MAX);
    }
    lemma_round_trip(g);
}

/// Whether `c` is a numeric character and no lowercase letter.
fn numeric_and_not_lowercase(c: char) -> (ok: bool)
    ensures
        ok == (is_numeric(c) && !is_lowercase(c)),
{
    char_is_numeric(c) && !char_is_lowercase(c)
}

/// Whether the ten digits are numeric characters and no lowercase letters.
fn digits_numeric() -> (ok: bool)
    ensures
        ok == digits_are_numeric(),
{
    let ok = numeric_and_not_lowercase('0') && numeric_and_not_lowercase('1')
        && numeric_and_not_lowercase('2') && numeric_and_not_lowercase('3')
        && numeric_and_not_lowercase('4') && numeric_and_not_lowercase('5')
        && numeric_and_not_lowercase('6') && numeric_and_not_lowercase('7')
        && numeric_and_not_lowercase('8') && numeric_and_not_lowercase('9');
    proof {
        if ok {
            assert forall|c: char| is_digit(c) implies is_numeric(c) && !is_lowercase(c) by {
                assert(c == '0' || c == '1' || c == '2' || c == '3' || c == '4' || c == '5' || c
                    == '6' || c == '7' || c == '8' || c == '9');
            }
        } else {
            assert(is_digit('0') && is_digit('1') && is_digit('2') && is_digit('3') && is_digit(
                '4',
            ) && is_digit('5') && is_digit('6') && is_digit('7') && is_digit('8') && is_digit(
                '9',
            ));
        }
    }
    ok
}

/// Whether `name` is read as the name of one element.
fn element_name(name: &str) -> (ok: bool)
    ensures
        ok == is_element_name(name@),
{
    let chars = to_chars(name);
    if chars.len() == 0 {
        return false;
    }
    let first = chars[0];
    if !char_is_uppercase(first) || !char_is_alphabetic(first) || char_is_lowercase(first)
        || char_is_numeric(first) || first == '(' {
        return false;
    }
    let mut i: usize = 1;
    while i < chars.len()
        invariant
            1 <= i <= chars.len(),
            chars@ == name@,
            forall|j: int| 1 <= j < i ==> is_lowercase(#[trigger] chars@[j]),
        decreases chars.len() - i,
    {
        if !char_is_lowercase(chars[i]) {
            return false;
        }
        i += 1;
    }
    true
}

/// Whether the formula written for `g` is read back as `g`: whether `g` has
/// an element, every element has a name that is read as one name and a
/// coefficient other than zero, and the digits are numeric characters. Where
/// that is so, the parser reads from the formula of `g`, up to its end, the
/// elements of `g` with their coefficients; and if the names of `g` ascend,
/// grouping what is read gives them again, and the same formula is written
/// for it.
pub fn reads_back(g: &Molecule) -> (ok: bool)
    ensures
        ok == (g.len() > 0 && writable(g.deep_view()) && digits_are_numeric()),
        ok ==> molecule_at(formula_text(g.deep_view()), 0, 0).idx == formula_text(
            g.deep_view(),
        ).len() && (molecule_at(formula_text(g.deep_view()), 0, 0).result matches Ok(m)
            && same_atoms(m, g.deep_view())),
        ok && names_ascend(g.deep_view()) ==> (formula_of(formula_text(g.deep_view())) matches Ok(
            h,
        ) && same_atoms(h, g.deep_view()) && formula_text(h) == formula_text(g.deep_view())),
{
    let ghost view = g.deep_view();
    if g.len() == 0 || !digits_numeric() {
        return false;
    }
    let mut k: usize = 0;
    while k < g.len()
        invariant
            k <= g.len(),
            view == g.deep_view(),
            forall|i: int|
                0 <= i < k ==> is_element_name((#[trigger] view[i]).name) && 1 <= view[i].coef
                    <= u32::MAX,
        decreases g.len() - k,
    {
        assert(view[k as int] == g[k as int]@);
        if g[k].coef == 0 || !element_name(g[k].name.as_str()) {
            return false;
        }
        k += 1;
    }
    proof {
        lemma_molecule_reads(Seq::empty(), view);
        assert(Seq::<char>::empty() + formula_text(view) =~= formula_text(view));
        if names_ascend(view) {
            lemma_round_trip(view);
        }
    }
    true
}

} // verus!
