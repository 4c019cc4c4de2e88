//! Why the balancer is right: what it computes solves the linear system of
//! the reaction.

use crate::balance::{
    back_sum, balance_of, cleared_below, cleared_row, combined_entry, combined_row, diagonal_set,
    element_names, eliminated, first_zero, least_among, lemma_first_zero, lemma_least_among,
    lemma_pivot_among, matrix_entry, names_with, normalized, pivot_among, reaction_matrix,
    solution_of, solved_from, swapped,
};
use crate::elem::{
    coef_total, grouped, has_name, lemma_coef_total_absent, lemma_grouped, names_of, ElemView,
};
use crate::rational::kept;
use vstd::prelude::*;

verus! {

/// Multiplication distributes over addition.
pub proof fn lemma_distributes(p: real, q: real, r: real)
    ensures
        (p + q) * r == p * r + q * r,
        r * (p + q) == r * p + r * q,
{
    assert((p + q) * r == p * r + q * r) by (nonlinear_arith);
    assert(r * (p + q) == r * p + r * q) by (nonlinear_arith);
}

/// Factors may be grouped and exchanged at will.
pub proof fn lemma_factors(p: real, q: real, r: real)
    ensures
        (p * q) * r == p * (q * r),
        p * q == q * p,
{
    assert((p * q) * r == p * (q * r)) by (nonlinear_arith);
    assert(p * q == q * p) by (nonlinear_arith);
}

/// The sum of the products of the first `n` entries of `row` with the first
/// `n` values of `xs`.
pub open spec fn dot(row: Seq<real>, xs: Seq<real>, n: int) -> real
    decreases n,
{
    if n <= 0 {
        0real
    } else {
        dot(row, xs, n - 1) + row[n - 1] * xs[n - 1]
    }
}

/// A row with a multiple of another added gives, multiplied with `xs`, what
/// the row gives and that multiple of what the other gives.
pub proof fn lemma_dot_combined(
    dest: Seq<real>,
    src: Seq<real>,
    mult: real,
    xs: Seq<real>,
    n: int,
)
    requires
        combined_row(dest, src, mult) is Some,
        n <= dest.len(),
    ensures
        dot(combined_row(dest, src, mult)->0, xs, n) == dot(dest, xs, n) + mult * dot(src, xs, n),
    decreases n,
{
    let r = combined_row(dest, src, mult)->0;
    if n > 0 {
        lemma_dot_combined(dest, src, mult, xs, n - 1);
        let j = n - 1;
        assert(combined_entry(dest[j], src[j], mult) is Some);
        assert(r[j] == dest[j] + src[j] * mult);
        let b = dot(src, xs, j);
        lemma_distributes(dest[j], src[j] * mult, xs[j]);
        lemma_distributes(b, src[j] * xs[j], mult);
        lemma_factors(mult, src[j], xs[j]);
        lemma_factors(src[j], mult, xs[j]);
    } else {
        lemma_distributes(0real, 0real, mult);
    }
}

/// Whether the values `xs` solve the linear system `m` of `width` columns:
/// each row, multiplied with them, gives zero.
pub open spec fn solves(m: Seq<Seq<real>>, xs: Seq<real>, width: int) -> bool {
    forall|i: int| 0 <= i < m.len() ==> dot(#[trigger] m[i], xs, width) == 0real
}

/// Whether every row of `m` has `width` entries.
pub open spec fn rectangular(m: Seq<Seq<real>>, width: int) -> bool {
    forall|i: int| 0 <= i < m.len() ==> (#[trigger] m[i]).len() == width
}

/// Clearing a column leaves the rows as long as they were.
pub proof fn lemma_cleared_below_rectangular(m: Seq<Seq<real>>, k: int, width: int)
    requires
        0 <= k < m.len(),
        rectangular(m, width),
        cleared_below(m, k) is Some,
    ensures
        rectangular(cleared_below(m, k)->0, width),
        cleared_below(m, k)->0.len() == m.len(),
{
    let next = cleared_below(m, k)->0;
    assert forall|i: int| 0 <= i < next.len() implies (#[trigger] next[i]).len() == width by {
        if i > k {
            assert(cleared_row(m[i], m[k], k) is Some);
        } else {
            assert(next[i] == m[i]);
        }
    }
}

/// What solves a system after a column was cleared solved it before.
pub proof fn lemma_cleared_below_solves(m: Seq<Seq<real>>, k: int, xs: Seq<real>, width: int)
    requires
        0 <= k < m.len(),
        rectangular(m, width),
        cleared_below(m, k) is Some,
        solves(cleared_below(m, k)->0, xs, width),
    ensures
        solves(m, xs, width),
{
    let next = cleared_below(m, k)->0;
    assert(next[k] == m[k]);
    assert(dot(m[k], xs, width) == 0real);
    assert forall|i: int| 0 <= i < m.len() implies dot(#[trigger] m[i], xs, width) == 0real by {
        if i > k {
            assert(cleared_row(m[i], m[k], k) is Some);
            assert(next[i] == cleared_row(m[i], m[k], k)->0);
            let f = kept(m[i][k] / m[k][k])->0;
            lemma_dot_combined(m[i], m[k], -f, xs, width);
            assert(dot(next[i], xs, width) == 0real);
            lemma_distributes(0real, 0real, -f);
        } else {
            assert(next[i] == m[i]);
        }
    }
}

/// What solves a system after elimination solved it before.
pub proof fn lemma_eliminated_solves(m: Seq<Seq<real>>, width: int, k: int, xs: Seq<real>)
    requires
        0 <= k,
        rectangular(m, width),
        eliminated(m, width, k) is Ok,
        solves(eliminated(m, width, k)->Ok_0, xs, width),
    ensures
        solves(m, xs, width),
    decreases width - k,
{
    if k >= m.len() || k >= width {
    } else {
        let p = pivot_among(m, k, m.len() as int);
        lemma_pivot_among(m, k, m.len() as int);
        let exchanged = swapped(m, k, p);
        let next = cleared_below(exchanged, k)->0;
        assert(rectangular(exchanged, width));
        lemma_cleared_below_rectangular(exchanged, k, width);
        lemma_eliminated_solves(next, width, k + 1, xs);
        lemma_cleared_below_solves(exchanged, k, xs, width);
        assert forall|i: int| 0 <= i < m.len() implies dot(#[trigger] m[i], xs, width)
            == 0real by {
            if i == k {
                assert(m[i] == exchanged[p]);
            } else if i == p {
                assert(m[i] == exchanged[k]);
            } else {
                assert(m[i] == exchanged[i]);
            }
        }
    }
}

/// A number times the negated quotient of another by it is the other,
/// negated; and a quotient times its divisor is the dividend.
pub proof fn lemma_quotient(a: real, b: real)
    requires
        b != 0real,
    ensures
        b * (-(a / b)) == -a,
        b * (a / b) == a,
        0real / b == 0real,
{
    assert(b * (-(a / b)) == -a) by (nonlinear_arith)
        requires
            b != 0real,
    ;
    assert(b * (a / b) == a) by (nonlinear_arith)
        requires
            b != 0real,
    ;
    assert(0real / b == 0real) by (nonlinear_arith)
        requires
            b != 0real,
    ;
}

/// Whether the entries of `m` below the diagonal are zero in the first `k`
/// columns.
pub open spec fn zero_below(m: Seq<Seq<real>>, k: int) -> bool {
    forall|i: int, j: int| 0 <= j < k && j < i < m.len() ==> #[trigger] m[i][j] == 0real
}

/// The lesser of two numbers.
pub open spec fn least(a: int, b: int) -> int {
    if a < b {
        a
    } else {
        b
    }
}

/// One step of elimination clears the column below the diagonal and leaves
/// the columns before it cleared, and sets a pivot on the diagonal.
pub proof fn lemma_step_triangular(m: Seq<Seq<real>>, width: int, k: int)
    requires
        0 <= k < m.len(),
        k < width,
        rectangular(m, width),
        zero_below(m, k),
        diagonal_set(m, k),
        m[pivot_among(m, k, m.len() as int)][k] != 0real,
        cleared_below(swapped(m, k, pivot_among(m, k, m.len() as int)), k) is Some,
    ensures
        ({
            let next = cleared_below(swapped(m, k, pivot_among(m, k, m.len() as int)), k)->0;
            &&& next.len() == m.len()
            &&& rectangular(next, width)
            &&& zero_below(next, k + 1)
            &&& diagonal_set(next, k + 1)
        }),
{
    let p = pivot_among(m, k, m.len() as int);
    lemma_pivot_among(m, k, m.len() as int);
    let exchanged = swapped(m, k, p);
    let next = cleared_below(exchanged, k)->0;
    assert(rectangular(exchanged, width));
    lemma_cleared_below_rectangular(exchanged, k, width);
    assert forall|i: int, j: int| 0 <= j < k && j < i < m.len() implies #[trigger] exchanged[i][j]
        == 0real by {
        if i == k {
            assert(m[p][j] == 0real);
        } else if i == p {
            assert(m[k][j] == 0real);
        } else {
            assert(m[i][j] == 0real);
        }
    }
    let pivot = exchanged[k];
    assert forall|i: int, j: int| 0 <= j < k + 1 && j < i < next.len() implies #[trigger] next[i][j]
        == 0real by {
        if i > k {
            let row = exchanged[i];
            assert(cleared_row(row, pivot, k) is Some);
            let f = kept(row[k] / pivot[k])->0;
            assert(combined_entry(row[j], pivot[j], -f) is Some);
            assert(next[i][j] == row[j] + pivot[j] * (-f));
            if j < k {
                assert(exchanged[i][j] == 0real);
                assert(exchanged[k][j] == 0real);
                lemma_distributes(0real, 0real, -f);
            } else {
                lemma_quotient(row[k], pivot[k]);
            }
        } else {
            assert(next[i] == exchanged[i]);
            assert(exchanged[i][j] == 0real);
        }
    }
    assert forall|i: int| 0 <= i < k + 1 implies (#[trigger] next[i])[i] != 0real by {
        assert(next[i] == exchanged[i]);
        if i < k {
            assert(exchanged[i] == m[i]);
        }
    }
}

/// Elimination gives a matrix with zeros below the diagonal and without a
/// zero on it, as far as the diagonal goes.
pub proof fn lemma_eliminated_triangular(m: Seq<Seq<real>>, width: int, k: int)
    requires
        0 <= k,
        rectangular(m, width),
        zero_below(m, k),
        diagonal_set(m, k),
        k <= m.len(),
        k <= width,
        eliminated(m, width, k) is Ok,
    ensures
        ({
            let r = eliminated(m, width, k)->Ok_0;
            &&& r.len() == m.len()
            &&& rectangular(r, width)
            &&& zero_below(r, least(m.len() as int, width))
            &&& diagonal_set(r, least(m.len() as int, width))
        }),
    decreases width - k,
{
    if k >= m.len() || k >= width {
    } else {
        lemma_step_triangular(m, width, k);
        let next = cleared_below(swapped(m, k, pivot_among(m, k, m.len() as int)), k)->0;
        lemma_eliminated_triangular(next, width, k + 1);
    }
}

/// Where a row begins with zeros, its first products with any values add up
/// to zero.
pub proof fn lemma_dot_zeros(row: Seq<real>, xs: Seq<real>, n: int)
    requires
        n <= row.len(),
        forall|j: int| 0 <= j < n ==> #[trigger] row[j] == 0real,
    ensures
        dot(row, xs, n) == 0real,
    decreases n,
{
    if n > 0 {
        lemma_dot_zeros(row, xs, n - 1);
        lemma_distributes(0real, 0real, xs[n - 1]);
    }
}

/// What `back_sum` subtracts are the products of the row behind the diagonal
/// with the values that were found.
pub proof fn lemma_back_sum(row: Seq<real>, xs: Seq<real>, k: int, t: nat)
    requires
        0 <= k,
        k + 1 + t <= xs.len(),
        back_sum(row, xs.skip(k + 1), k, t) is Some,
    ensures
        back_sum(row, xs.skip(k + 1), k, t)->0 == dot(row, xs, k + 1) - dot(row, xs, k + 1 + t),
    decreases t,
{
    if t > 0 {
        lemma_back_sum(row, xs, k, (t - 1) as nat);
        assert(xs.skip(k + 1)[t - 1] == xs[k + t]);
    }
}

/// The solution from a variable on is the end of the solution from the
/// first variable on.
pub proof fn lemma_solved_suffix(m: Seq<Seq<real>>, width: int, xs: Seq<real>, k: int)
    requires
        0 <= k <= width,
        solved_from(m, width, 0) == Some(xs),
    ensures
        xs.len() == width,
        solved_from(m, width, k) == Some(xs.skip(k)),
    decreases k,
{
    crate::balance::lemma_solved_len(m, width, 0);
    if k == 0 {
        assert(xs.skip(0) =~= xs);
    } else {
        lemma_solved_suffix(m, width, xs, k - 1);
        crate::balance::lemma_solved_len(m, width, k);
        let tail = solved_from(m, width, k)->0;
        assert(xs.skip(k - 1).drop_first() =~= xs.skip(k));
        assert(tail =~= xs.skip(k - 1).drop_first());
    }
}

/// What back substitution finds solves the triangular system.
pub proof fn lemma_solved_solves(m: Seq<Seq<real>>, width: int, xs: Seq<real>)
    requires
        m.len() <= width,
        rectangular(m, width),
        zero_below(m, m.len() as int),
        diagonal_set(m, m.len() as int),
        solved_from(m, width, 0) == Some(xs),
    ensures
        solves(m, xs, width),
{
    assert forall|k: int| 0 <= k < m.len() implies dot(#[trigger] m[k], xs, width) == 0real by {
        lemma_solved_suffix(m, width, xs, k);
        lemma_solved_suffix(m, width, xs, k + 1);
        let tail = xs.skip(k + 1);
        let row = m[k];
        assert(solved_from(m, width, k + 1) == Some(tail));
        let sum = back_sum(row, tail, k, tail.len())->0;
        lemma_back_sum(row, xs, k, tail.len());
        assert(xs.skip(k)[0] == xs[k]);
        assert(xs[k] == sum / row[k]);
        lemma_quotient(sum, row[k]);
        assert forall|j: int| 0 <= j < k implies #[trigger] row[j] == 0real by {
            assert(m[k][j] == 0real);
        }
        lemma_dot_zeros(row, xs, k);
    }
}

/// The names that `names_with` gives are those it was given.
pub proof fn lemma_names_with(names: Seq<Seq<char>>, more: Seq<Seq<char>>, name: Seq<char>)
    ensures
        names_with(names, more).contains(name) <==> names.contains(name) || more.contains(name),
    decreases more.len(),
{
    if more.len() > 0 {
        let init = more.drop_last();
        lemma_names_with(names, init, name);
        let prev = names_with(names, init);
        if more.contains(name) {
            let i = choose|i: int| 0 <= i < more.len() && more[i] == name;
            if i < more.len() - 1 {
                assert(init[i] == name);
            }
        }
        if init.contains(name) {
            let i = choose|i: int| 0 <= i < init.len() && init[i] == name;
            assert(more[i] == name);
        }
        if more.last() == name {
            assert(more[more.len() - 1] == name);
        }
        if !prev.contains(more.last()) {
            let all = prev.push(more.last());
            assert(all[all.len() - 1] == more.last());
            if prev.contains(name) {
                let i = choose|i: int| 0 <= i < prev.len() && prev[i] == name;
                assert(all[i] == name);
            }
            if all.contains(name) {
                let i = choose|i: int| 0 <= i < all.len() && all[i] == name;
                if i < prev.len() {
                    assert(prev[i] == name);
                }
            }
        }
    }
}

/// Every element of a molecule of the reaction is among its element names.
pub proof fn lemma_element_names(mols: Seq<Seq<ElemView>>, j: int, name: Seq<char>)
    requires
        0 <= j < mols.len(),
        has_name(mols[j], name),
    ensures
        element_names(mols).contains(name),
    decreases mols.len(),
{
    let init = mols.drop_last();
    let last = names_of(grouped(mols.last()));
    lemma_names_with(element_names(init), last, name);
    if j < mols.len() - 1 {
        assert(init[j] == mols[j]);
        lemma_element_names(init, j, name);
    } else {
        lemma_grouped(mols.last(), name);
        let g = grouped(mols.last());
        let i = choose|i: int| 0 <= i < g.len() && #[trigger] g[i].name == name;
        assert(last[i] == name);
    }
}

/// The atoms of the element `name` in the first `n` molecules of `side`,
/// each molecule taken as many times as its coefficient says.
pub open spec fn atoms(side: Seq<Seq<ElemView>>, coefs: Seq<u32>, name: Seq<char>, n: int) -> int
    decreases n,
{
    if n <= 0 {
        0
    } else {
        atoms(side, coefs, name, n - 1) + coefs[n - 1] * coef_total(side[n - 1], name)
    }
}

/// The entries of the row of the element `name` in the first `n` columns,
/// each multiplied with the coefficient of its molecule, added up.
pub open spec fn weighted(
    lhs: Seq<Seq<ElemView>>,
    rhs: Seq<Seq<ElemView>>,
    coefs: Seq<u32>,
    name: Seq<char>,
    n: int,
) -> int
    decreases n,
{
    if n <= 0 {
        0
    } else {
        weighted(lhs, rhs, coefs, name, n - 1) + coefs[n - 1] * matrix_entry(lhs, rhs, name, n - 1)
    }
}

/// The weighted row of an element is the difference of its atoms on the two
/// sides.
pub proof fn lemma_weighted(
    lhs: Seq<Seq<ElemView>>,
    rhs: Seq<Seq<ElemView>>,
    coefs: Seq<u32>,
    name: Seq<char>,
    n: int,
)
    requires
        0 <= n <= lhs.len() + rhs.len(),
        coefs.len() == lhs.len() + rhs.len(),
    ensures
        weighted(lhs, rhs, coefs, name, n) == if n <= lhs.len() {
            atoms(lhs, coefs.take(lhs.len() as int), name, n)
        } else {
            atoms(lhs, coefs.take(lhs.len() as int), name, lhs.len() as int) - atoms(
                rhs,
                coefs.skip(lhs.len() as int),
                name,
                n - lhs.len(),
            )
        },
    decreases n,
{
    if n > 0 {
        lemma_weighted(lhs, rhs, coefs, name, n - 1);
        let c = coefs[n - 1] as int;
        let l = lhs.len() as int;
        let left = coefs.take(l);
        let right = coefs.skip(l);
        assert(weighted(lhs, rhs, coefs, name, n) == weighted(lhs, rhs, coefs, name, n - 1) + c
            * matrix_entry(lhs, rhs, name, n - 1));
        if n <= l {
            assert(left[n - 1] == coefs[n - 1]);
            assert(atoms(lhs, left, name, n) == atoms(lhs, left, name, n - 1) + c * coef_total(
                lhs[n - 1],
                name,
            ));
        } else {
            let t = n - l;
            assert(right[t - 1] == coefs[n - 1]);
            let e = coef_total(rhs[t - 1], name) as int;
            assert(matrix_entry(lhs, rhs, name, n - 1) == -e);
            assert(atoms(rhs, right, name, t) == atoms(rhs, right, name, t - 1) + c * e);
            assert(c * (-e) == -(c * e)) by (nonlinear_arith);
            if t == 1 {
                assert(atoms(rhs, right, name, 0) == 0);
            }
        }
    }
}

/// Where an element stands in no molecule, there are no atoms of it.
pub proof fn lemma_atoms_absent(side: Seq<Seq<ElemView>>, coefs: Seq<u32>, name: Seq<char>, n: int)
    requires
        n <= side.len(),
        forall|j: int| 0 <= j < side.len() ==> !has_name(#[trigger] side[j], name),
    ensures
        atoms(side, coefs, name, n) == 0,
    decreases n,
{
    if n > 0 {
        lemma_atoms_absent(side, coefs, name, n - 1);
        lemma_coef_total_absent(side[n - 1], name);
        let c = coefs[n - 1] as int;
        assert(c * 0 == 0) by (nonlinear_arith);
    }
}

/// Whether each of the values `xs` is a whole multiple of the least of them,
/// with a factor of at most 32 bits: dividing by the least value rounds
/// nothing off.
pub open spec fn whole(xs: Seq<real>) -> bool {
    forall|j: int|
        0 <= j < xs.len() ==> #[trigger] xs[j] == (normalized(xs)[j] as real) * least_among(
            xs,
            xs.len() as int,
        )
}

/// A product of whole numbers is the same among the real numbers.
pub proof fn lemma_real_product(a: int, b: int)
    ensures
        (a * b) as real == (a as real) * (b as real),
{
    assert((a * b) as real == (a as real) * (b as real)) by (nonlinear_arith);
}

/// Where a product is zero and one factor is not, the other is.
pub proof fn lemma_zero_product(a: real, b: real)
    requires
        a * b == 0real,
        b != 0real,
    ensures
        a == 0real,
{
    assert(a == 0real) by (nonlinear_arith)
        requires
            a * b == 0real,
            b != 0real,
    ;
}

/// With values that are whole multiples of `min`, a row of the matrix gives
/// `min` times its weighted sum.
pub proof fn lemma_dot_weighted(
    lhs: Seq<Seq<ElemView>>,
    rhs: Seq<Seq<ElemView>>,
    row: Seq<real>,
    xs: Seq<real>,
    coefs: Seq<u32>,
    min: real,
    name: Seq<char>,
    n: int,
)
    requires
        0 <= n <= row.len(),
        row.len() == xs.len(),
        coefs.len() == xs.len(),
        forall|j: int| 0 <= j < row.len() ==> #[trigger] row[j] == matrix_entry(lhs, rhs, name, j) as real,
        forall|j: int| 0 <= j < xs.len() ==> #[trigger] xs[j] == (coefs[j] as real) * min,
    ensures
        dot(row, xs, n) == (weighted(lhs, rhs, coefs, name, n) as real) * min,
    decreases n,
{
    if n > 0 {
        lemma_dot_weighted(lhs, rhs, row, xs, coefs, min, name, n - 1);
        let j = n - 1;
        let e = matrix_entry(lhs, rhs, name, j);
        let c = coefs[j] as int;
        let before = weighted(lhs, rhs, coefs, name, j);
        assert(row[j] == e as real);
        assert(xs[j] == (c as real) * min);
        lemma_real_product(c, e);
        lemma_factors(e as real, c as real, min);
        lemma_factors(c as real, e as real, min);
        lemma_distributes(before as real, (c * e) as real, min);
        assert((before + c * e) as real == (before as real) + ((c * e) as real));
    } else {
        lemma_distributes(0real, 0real, min);
    }
}

/// Balancing balances: where it gives coefficients and rounded nothing off to
/// get them, there are of each element as many atoms on the left side of the
/// reaction as on the right, each molecule taken as many times as its
/// coefficient says.
pub proof fn lemma_balanced(lhs: Seq<Seq<ElemView>>, rhs: Seq<Seq<ElemView>>, name: Seq<char>)
    requires
        balance_of(lhs, rhs) is Coefs,
        solution_of(lhs, rhs) matches Ok(xs) && whole(xs),
    ensures
        atoms(
            lhs,
            balance_of(lhs, rhs)->Coefs_0.take(lhs.len() as int),
            name,
            lhs.len() as int,
        ) == atoms(
            rhs,
            balance_of(lhs, rhs)->Coefs_0.skip(lhs.len() as int),
            name,
            rhs.len() as int,
        ),
{
    let width = (lhs.len() + rhs.len()) as int;
    let xs = solution_of(lhs, rhs)->Ok_0;
    let coefs = normalized(xs);
    let left = coefs.take(lhs.len() as int);
    let right = coefs.skip(lhs.len() as int);
    let mols = lhs + rhs;
    let names = element_names(mols);
    let matrix = reaction_matrix(lhs, rhs);
    let reduced = eliminated(matrix, width, 0)->Ok_0;
    assert(solved_from(reduced, width, 0) == Some(xs));
    crate::balance::lemma_solved_len(reduced, width, 0);
    assert(first_zero(xs, 0) is None);
    if width == 0 {
    } else {
        assert(rectangular(matrix, width));
        lemma_eliminated_triangular(matrix, width, 0);
        if matrix.len() >= width {
            // Without a free variable the last variable is zero.
            let k = width - 1;
            lemma_solved_suffix(reduced, width, xs, k);
            assert(solved_from(reduced, width, width) == Some(Seq::<real>::empty()));
            assert(back_sum(reduced[k], Seq::<real>::empty(), k, 0) == Some(0real));
            lemma_quotient(0real, reduced[k][k]);
            assert(xs.skip(k)[0] == xs[k]);
            assert(xs[k] == 0real);
            lemma_first_zero(xs, 0);
        } else {
            lemma_solved_solves(reduced, width, xs);
            lemma_eliminated_solves(matrix, width, 0, xs);
            let at = lemma_least_among(xs, width);
            let min = least_among(xs, width);
            lemma_first_zero(xs, 0);
            if names.contains(name) {
                let i = choose|i: int| 0 <= i < names.len() && names[i] == name;
                let row = matrix[i];
                assert(dot(row, xs, width) == 0real);
                assert forall|j: int| 0 <= j < row.len() implies #[trigger] row[j] == matrix_entry(
                    lhs,
                    rhs,
                    name,
                    j,
                ) as real by {}
                assert forall|j: int| 0 <= j < xs.len() implies #[trigger] xs[j] == (
                coefs[j] as real) * min by {}
                lemma_dot_weighted(lhs, rhs, row, xs, coefs, min, name, width);
                let sum = weighted(lhs, rhs, coefs, name, width);
                lemma_zero_product(sum as real, min);
                lemma_weighted(lhs, rhs, coefs, name, width);
                if rhs.len() == 0 {
                    assert(atoms(rhs, right, name, 0) == 0);
                }
            } else {
                assert forall|j: int| 0 <= j < lhs.len() implies !has_name(
                    #[trigger] lhs[j],
                    name,
                ) by {
                    if has_name(lhs[j], name) {
                        assert(mols[j] == lhs[j]);
                        lemma_element_names(mols, j, name);
                    }
                }
                assert forall|j: int| 0 <= j < rhs.len() implies !has_name(
                    #[trigger] rhs[j],
                    name,
                ) by {
                    if has_name(rhs[j], name) {
                        assert(mols[lhs.len() + j] == rhs[j]);
                        lemma_element_names(mols, lhs.len() + j, name);
                    }
                }
                lemma_atoms_absent(lhs, left, name, lhs.len() as int);
                lemma_atoms_absent(rhs, right, name, rhs.len() as int);
            }
        }
    }
}

} // verus!
