//! Balancing of chemical reactions by Gaussian elimination.
//!
//! A reaction with molecules `m_0 .. m_(w-1)`, the left side first, is
//! balanced by coefficients `x_0 .. x_(w-1)` such that the atoms of each
//! element on the left side are as many as on the right. With one row for
//! each element and one column for each molecule, the entries of the right
//! side negated, these are the solutions of a homogeneous linear system. The
//! system is brought into triangular form by elimination with partial
//! pivoting and solved from the last variable up; a variable that no row
//! determines is set to 1.
//!
//! All arithmetic is exact. Where a value comes up that is no fraction of two
//! integers of 64 bits, balancing is given up.

use crate::elem::{
    coef_total, formula_text, grouped, has_span, lemma_coef_total_prefix, molecule_to_string,
    names_of, sorted_names, span_of, well_formed, ElemView, Molecule,
};
use crate::error::{CTError, CTErrorKind, CTResult, ErrorView};
use crate::rational::{
    abs, kept, lemma_integer_representable, representable, truncated, Rational,
};
use crate::text::{decimal_digits, push_decimal, views};
use vstd::prelude::*;

verus! {

/// `names`, followed by the names in `more` that are not among them, in the
/// order of `more` and each once.
pub open spec fn names_with(names: Seq<Seq<char>>, more: Seq<Seq<char>>) -> Seq<Seq<char>>
    decreases more.len(),
{
    if more.len() == 0 {
        names
    } else {
        let prev = names_with(names, more.drop_last());
        if prev.contains(more.last()) {
            prev
        } else {
            prev.push(more.last())
        }
    }
}

/// The names of the elements of the molecules `mols`, each once, in the order
/// in which they are first met when the molecules are gone through in order,
/// the elements of each molecule in the order of its grouping.
pub open spec fn element_names(mols: Seq<Seq<ElemView>>) -> Seq<Seq<char>>
    decreases mols.len(),
{
    if mols.len() == 0 {
        Seq::empty()
    } else {
        names_with(element_names(mols.drop_last()), names_of(grouped(mols.last())))
    }
}

/// The entry of the matrix for the element `name` and the molecule `j`: the
/// number of atoms of the element in the molecule, negated on the right side.
pub open spec fn matrix_entry(
    lhs: Seq<Seq<ElemView>>,
    rhs: Seq<Seq<ElemView>>,
    name: Seq<char>,
    j: int,
) -> int {
    if j < lhs.len() {
        coef_total(lhs[j], name) as int
    } else {
        -(coef_total(rhs[j - lhs.len()], name) as int)
    }
}

/// The matrix of the reaction: a row for each element, a column for each
/// molecule.
pub open spec fn reaction_matrix(lhs: Seq<Seq<ElemView>>, rhs: Seq<Seq<ElemView>>) -> Seq<Seq<real>> {
    let names = element_names(lhs + rhs);
    Seq::new(
        names.len(),
        |i: int|
            Seq::new(lhs.len() + rhs.len(), |j: int| matrix_entry(lhs, rhs, names[i], j) as real),
    )
}

/// Whether every entry of `m` can be held.
pub open spec fn matrix_fits(m: Seq<Seq<real>>) -> bool {
    forall|i: int, j: int|
        0 <= i < m.len() && 0 <= j < m[i].len() ==> representable(#[trigger] m[i][j])
}

/// The first of those rows among `k .. n` whose entry in column `k` is
/// largest in absolute value.
pub open spec fn pivot_among(m: Seq<Seq<real>>, k: int, n: int) -> int
    decreases n - k,
{
    if n <= k + 1 {
        k
    } else {
        let best = pivot_among(m, k, n - 1);
        if abs(m[best][k]) < abs(m[n - 1][k]) {
            n - 1
        } else {
            best
        }
    }
}

/// The pivot row is the first of the rows `k .. n` with the largest entry in
/// column `k`: no row has a larger entry, and the rows before it have smaller
/// ones.
pub proof fn lemma_pivot_among(m: Seq<Seq<real>>, k: int, n: int)
    requires
        k < n,
    ensures
        k <= pivot_among(m, k, n) < n,
        forall|i: int| k <= i < n ==> abs(#[trigger] m[i][k]) <= abs(m[pivot_among(m, k, n)][k]),
        forall|i: int|
            k <= i < pivot_among(m, k, n) ==> abs(#[trigger] m[i][k]) < abs(
                m[pivot_among(m, k, n)][k],
            ),
    decreases n - k,
{
    if n > k + 1 {
        lemma_pivot_among(m, k, n - 1);
    }
}

/// `d + s * mult`, if the product and the sum can be held.
pub open spec fn combined_entry(d: real, s: real, mult: real) -> Option<real> {
    match kept(s * mult) {
        Some(p) => kept(d + p),
        None => None,
    }
}

/// The row `dest` with `mult` times the row `src` added, if all of its
/// entries can be held.
pub open spec fn combined_row(dest: Seq<real>, src: Seq<real>, mult: real) -> Option<Seq<real>> {
    if forall|j: int| 0 <= j < dest.len() ==> (#[trigger] combined_entry(dest[j], src[j], mult))
        is Some {
        Some(Seq::new(dest.len(), |j: int| combined_entry(dest[j], src[j], mult)->0))
    } else {
        None
    }
}

/// The row `row` with that multiple of the row `pivot` added that makes its
/// entry in column `k` zero, if all values on the way can be held.
pub open spec fn cleared_row(row: Seq<real>, pivot: Seq<real>, k: int) -> Option<Seq<real>> {
    match kept(row[k] / pivot[k]) {
        Some(f) => combined_row(row, pivot, -f),
        None => None,
    }
}

/// The matrix `m` with column `k` cleared in all rows below row `k`, if all
/// values on the way can be held.
pub open spec fn cleared_below(m: Seq<Seq<real>>, k: int) -> Option<Seq<Seq<real>>> {
    if forall|i: int| k < i < m.len() ==> (#[trigger] cleared_row(m[i], m[k], k)) is Some {
        Some(
            Seq::new(
                m.len(),
                |i: int|
                    if i > k {
                        cleared_row(m[i], m[k], k)->0
                    } else {
                        m[i]
                    },
            ),
        )
    } else {
        None
    }
}

/// The matrix `m` with the rows `a` and `b` exchanged.
pub open spec fn swapped(m: Seq<Seq<real>>, a: int, b: int) -> Seq<Seq<real>> {
    m.update(a, m[b]).update(b, m[a])
}

/// Why a reaction could not be brought into triangular form or solved.
#[derive(Debug, PartialEq, Eq, Clone, Copy, Structural)]
pub enum Fault {
    /// A column has no entry other than zero at or below the diagonal.
    Singular,
    /// A value came up that cannot be held.
    Overflow,
}

/// The matrix `m` of `width` columns after elimination from column `k` on.
/// At each step the pivot row is exchanged with row `k` and the column is
/// cleared below it.
pub open spec fn eliminated(m: Seq<Seq<real>>, width: int, k: int) -> Result<Seq<Seq<real>>, Fault>
    decreases width - k,
{
    if k >= m.len() || k >= width {
        Ok(m)
    } else {
        let p = pivot_among(m, k, m.len() as int);
        if m[p][k] == 0real {
            Err(Fault::Singular)
        } else {
            match cleared_below(swapped(m, k, p), k) {
                None => Err(Fault::Overflow),
                Some(next) => eliminated(next, width, k + 1),
            }
        }
    }
}

/// `0 - row[k+1] * tail[0] - .. - row[k+t] * tail[t-1]`, subtracted in this
/// order, if all values on the way can be held.
pub open spec fn back_sum(row: Seq<real>, tail: Seq<real>, k: int, t: nat) -> Option<real>
    decreases t,
{
    if t == 0 {
        Some(0real)
    } else {
        match back_sum(row, tail, k, (t - 1) as nat) {
            None => None,
            Some(acc) => match kept(row[k + t] * tail[t - 1]) {
                None => None,
                Some(p) => kept(acc - p),
            },
        }
    }
}

/// The values of the variables `k .. width` that solve the triangular matrix
/// `m`, if all values on the way can be held. A variable without a row of
/// its own is 1; any other is what its row and the variables after it give.
pub open spec fn solved_from(m: Seq<Seq<real>>, width: int, k: int) -> Option<Seq<real>>
    decreases width - k,
{
    if k >= width {
        Some(Seq::empty())
    } else {
        match solved_from(m, width, k + 1) {
            None => None,
            Some(tail) => if k >= m.len() {
                Some(seq![1real] + tail)
            } else {
                match back_sum(m[k], tail, k, tail.len()) {
                    None => None,
                    Some(sum) => match kept(sum / m[k][k]) {
                        None => None,
                        Some(x) => Some(seq![x] + tail),
                    },
                }
            },
        }
    }
}

/// The least index from `i` on at which `xs` is zero, if there is one.
pub open spec fn first_zero(xs: Seq<real>, i: int) -> Option<int>
    decreases xs.len() - i,
{
    if i >= xs.len() {
        None
    } else if xs[i] == 0real {
        Some(i)
    } else {
        first_zero(xs, i + 1)
    }
}

/// The least of the first `n` values of `xs`.
pub open spec fn least_among(xs: Seq<real>, n: int) -> real
    decreases n,
{
    if n <= 1 {
        xs[0]
    } else {
        let least = least_among(xs, n - 1);
        if xs[n - 1] < least {
            xs[n - 1]
        } else {
            least
        }
    }
}

/// The least of the first `n` values is one of them, and none of them is
/// less.
pub proof fn lemma_least_among(xs: Seq<real>, n: int) -> (at: int)
    requires
        1 <= n <= xs.len(),
    ensures
        0 <= at < n,
        least_among(xs, n) == xs[at],
        forall|i: int| 0 <= i < n ==> least_among(xs, n) <= #[trigger] xs[i],
    decreases n,
{
    if n <= 1 {
        0
    } else {
        let at = lemma_least_among(xs, n - 1);
        if xs[n - 1] < least_among(xs, n - 1) {
            n - 1
        } else {
            at
        }
    }
}

/// What `first_zero` finds is the first zero from `i` on.
pub proof fn lemma_first_zero(xs: Seq<real>, i: int)
    requires
        0 <= i,
    ensures
        match first_zero(xs, i) {
            Some(at) => i <= at < xs.len() && xs[at] == 0real && forall|j: int|
                i <= j < at ==> #[trigger] xs[j] != 0real,
            None => forall|j: int| i <= j < xs.len() ==> #[trigger] xs[j] != 0real,
        },
    decreases xs.len() - i,
{
    if i < xs.len() && xs[i] != 0real {
        lemma_first_zero(xs, i + 1);
    }
}

/// The values `xs` as whole numbers: each divided by the least of them and
/// rounded towards zero.
pub open spec fn normalized(xs: Seq<real>) -> Seq<u32> {
    Seq::new(xs.len(), |i: int| truncated(xs[i] / least_among(xs, xs.len() as int)))
}

/// What balancing a reaction gives.
pub enum Balance {
    /// The coefficients of the molecules, the left side first.
    Coefs(Seq<u32>),
    /// The molecule with this index, counted from the first of the left side,
    /// is the first that cannot take part: it holds an element that the other
    /// side lacks.
    Missing(int),
    /// Elimination met a column without a pivot.
    Singular,
    /// A value came up that cannot be held.
    Overflow,
}

/// The values of the variables that solve the system of the reaction with the
/// sides `lhs` and `rhs`: what elimination and back substitution give.
pub open spec fn solution_of(lhs: Seq<Seq<ElemView>>, rhs: Seq<Seq<ElemView>>) -> Result<
    Seq<real>,
    Fault,
> {
    let m = reaction_matrix(lhs, rhs);
    let width = lhs.len() + rhs.len();
    if !matrix_fits(m) {
        Err(Fault::Overflow)
    } else {
        match eliminated(m, width as int, 0) {
            Err(fault) => Err(fault),
            Ok(reduced) => match solved_from(reduced, width as int, 0) {
                None => Err(Fault::Overflow),
                Some(xs) => Ok(xs),
            },
        }
    }
}

/// The outcome of balancing the reaction with the sides `lhs` and `rhs`.
pub open spec fn balance_of(lhs: Seq<Seq<ElemView>>, rhs: Seq<Seq<ElemView>>) -> Balance {
    match solution_of(lhs, rhs) {
        Err(Fault::Singular) => Balance::Singular,
        Err(Fault::Overflow) => Balance::Overflow,
        Ok(xs) => match first_zero(xs, 0) {
            Some(i) => Balance::Missing(i),
            None => Balance::Coefs(normalized(xs)),
        },
    }
}

/// The error for a molecule with an element that the other side lacks.
pub open spec fn missing_error(m: Seq<ElemView>) -> ErrorView {
    ErrorView {
        kind: CTErrorKind::InputError,
        desc: "An element in "@ + formula_text(m)
            + " is missing on the other side of the reaction"@,
        pos: Some(span_of(m)),
    }
}

/// The error for a reaction whose matrix has a column without a pivot.
pub open spec fn singular_error() -> ErrorView {
    ErrorView {
        kind: CTErrorKind::InputError,
        desc: "Could not balance reaction"@,
        pos: None,
    }
}

/// The error for a reaction that needs numbers too large to be held.
pub open spec fn overflow_error() -> ErrorView {
    ErrorView {
        kind: CTErrorKind::BalanceError,
        desc: "Could not balance reaction: the numbers grow too large"@,
        pos: None,
    }
}

/// The result that `balance_reaction` owes for the outcome `b`.
pub open spec fn balance_result(
    lhs: Seq<Seq<ElemView>>,
    rhs: Seq<Seq<ElemView>>,
    b: Balance,
) -> Result<Seq<u32>, ErrorView> {
    match b {
        Balance::Coefs(coefs) => Ok(coefs),
        Balance::Missing(i) => Err(missing_error((lhs + rhs)[i])),
        Balance::Singular => Err(singular_error()),
        Balance::Overflow => Err(overflow_error()),
    }
}

/// The views of the fractions in `row`.
pub open spec fn row_view(row: Seq<Rational>) -> Seq<real> {
    Seq::new(row.len(), |j: int| row[j]@)
}

struct Matrix {
    buf: Vec<Vec<Rational>>,
    height: usize,
    width: usize,
}

impl View for Matrix {
    type V = Seq<Seq<real>>;

    closed spec fn view(&self) -> Seq<Seq<real>> {
        Seq::new(self.buf@.len(), |i: int| row_view(self.buf@[i]@))
    }
}

fn copy_row(row: &Vec<Rational>) -> (out: Vec<Rational>)
    ensures
        out@ == row@,
{
    let mut out: Vec<Rational> = Vec::new();
    let mut j: usize = 0;
    while j < row.len()
        invariant
            j <= row.len(),
            out@ == row@.take(j as int),
        decreases row.len() - j,
    {
        out.push(row[j]);
        j += 1;
    }
    assert(row@.take(j as int) =~= row@);
    out
}

/// The number of atoms of the element `name` in `molecule`, if it is at most
/// `i64::MAX`.
fn count_atoms(molecule: &Molecule, name: &String) -> (r: Option<i64>)
    ensures
        match r {
            Some(n) => n == coef_total(molecule.deep_view(), name@),
            None => coef_total(molecule.deep_view(), name@) > i64::MAX,
        },
{
    let ghost m = molecule.deep_view();
    let mut sum: u64 = 0;
    let mut k: usize = 0;
    while k < molecule.len()
        invariant
            k <= molecule.len(),
            m == molecule.deep_view(),
            sum == coef_total(m.take(k as int), name@),
            sum <= i64::MAX,
        decreases molecule.len() - k,
    {
        proof {
            assert(m.take(k + 1).drop_last() =~= m.take(k as int));
            assert(m.take(k + 1).last() == molecule[k as int]@);
            lemma_coef_total_prefix(m, k + 1, name@);
        }
        if molecule[k].name == *name {
            sum = sum + molecule[k].coef as u64;
            if sum > i64::MAX as u64 {
                return None;
            }
        }
        k += 1;
    }
    assert(m.take(k as int) =~= m);
    Some(sum as i64)
}

fn contains_name(names: &Vec<String>, name: &String) -> (found: bool)
    ensures
        found == views(names@).contains(name@),
{
    let mut i: usize = 0;
    while i < names.len()
        invariant
            i <= names.len(),
            forall|j: int| 0 <= j < i ==> views(names@)[j] != name@,
        decreases names.len() - i,
    {
        if names[i] == *name {
            assert(views(names@)[i as int] == name@);
            return true;
        }
        i += 1;
    }
    false
}

/// Adds to `names` those names of the elements of `molecule` that are not
/// among them.
fn collect_names(names: &mut Vec<String>, molecule: &Molecule)
    ensures
        views(final(names)@) == names_with(
            views(old(names)@),
            names_of(grouped(molecule.deep_view())),
        ),
{
    let more = sorted_names(molecule);
    let ghost start = views(names@);
    let mut k: usize = 0;
    while k < more.len()
        invariant
            k <= more.len(),
            views(names@) == names_with(start, views(more@).take(k as int)),
        decreases more.len() - k,
    {
        proof {
            assert(views(more@).take(k + 1).drop_last() =~= views(more@).take(k as int));
            assert(views(more@).take(k + 1).last() == more[k as int]@);
        }
        if !contains_name(names, &more[k]) {
            let ghost before = views(names@);
            names.push(more[k].clone());
            assert(views(names@) =~= before.push(more[k as int]@));
        }
        k += 1;
    }
    assert(views(more@).take(k as int) =~= views(more@));
}

impl Matrix {
    spec fn wf(&self) -> bool {
        &&& self.buf@.len() == self.height
        &&& forall|i: int| 0 <= i < self.buf@.len() ==> (#[trigger] self.buf@[i])@.len() == self.width
    }

    /// The row of the matrix of the reaction for the element `name`, if all
    /// of its entries can be held.
    fn row_for(reaction: &(Vec<Molecule>, Vec<Molecule>), name: &String) -> (r: Option<
        Vec<Rational>,
    >)
        requires
            reaction.0.len() + reaction.1.len() <= usize::MAX,
        ensures
            match r {
                Some(row) => row_view(row@) == Seq::new(
                    (reaction.0.len() + reaction.1.len()) as nat,
                    |j: int|
                        matrix_entry(reaction.0.deep_view(), reaction.1.deep_view(), name@, j)
                            as real,
                ) && forall|j: int|
                    0 <= j < reaction.0.len() + reaction.1.len() ==> representable(
                        #[trigger] matrix_entry(
                            reaction.0.deep_view(),
                            reaction.1.deep_view(),
                            name@,
                            j,
                        ) as real,
                    ),
                None => exists|j: int|
                    0 <= j < reaction.0.len() + reaction.1.len() && !representable(
                        #[trigger] matrix_entry(
                            reaction.0.deep_view(),
                            reaction.1.deep_view(),
                            name@,
                            j,
                        ) as real,
                    ),
            },
    {
        let ghost lhs = reaction.0.deep_view();
        let ghost rhs = reaction.1.deep_view();
        let mut row: Vec<Rational> = Vec::new();
        let mut j: usize = 0;
        assert(lhs.len() == reaction.0.len() && rhs.len() == reaction.1.len());
        while j < reaction.0.len()
            invariant
                j <= reaction.0.len(),
                lhs == reaction.0.deep_view(),
                rhs == reaction.1.deep_view(),
                lhs.len() == reaction.0.len(),
                row.len() == j,
                forall|c: int|
                    0 <= c < j ==> (#[trigger] row@[c])@ == matrix_entry(lhs, rhs, name@, c) as real
                        && representable(matrix_entry(lhs, rhs, name@, c) as real),
            decreases reaction.0.len() - j,
        {
            assert(lhs[j as int] == reaction.0[j as int].deep_view());
            proof {
                lemma_integer_representable(matrix_entry(lhs, rhs, name@, j as int));
            }
            let entry = match count_atoms(&reaction.0[j], name) {
                Some(n) => Rational::from_integer(n),
                None => None,
            };
            match entry {
                Some(x) => {
                    assert(x@ == matrix_entry(lhs, rhs, name@, j as int) as real);
                    assert(representable(matrix_entry(lhs, rhs, name@, j as int) as real));
                    let ghost before = row@;
                    row.push(x);
                    assert forall|c: int| 0 <= c < j + 1 implies (#[trigger] row@[c])@
                        == matrix_entry(lhs, rhs, name@, c) as real && representable(
                        matrix_entry(lhs, rhs, name@, c) as real,
                    ) by {
                        if c < j {
                            assert(row@[c] == before[c]);
                        }
                    }
                },
                None => {
                    assert(!representable(matrix_entry(lhs, rhs, name@, j as int) as real));
                    return None;
                },
            }
            j += 1;
        }
        let mut i: usize = 0;
        while i < reaction.1.len()
            invariant
                i <= reaction.1.len(),
                reaction.0.len() + reaction.1.len() <= usize::MAX,
                lhs == reaction.0.deep_view(),
                rhs == reaction.1.deep_view(),
                lhs.len() == reaction.0.len(),
                rhs.len() == reaction.1.len(),
                row.len() == lhs.len() + i,
                forall|c: int|
                    0 <= c < lhs.len() + i ==> (#[trigger] row@[c])@ == matrix_entry(
                        lhs,
                        rhs,
                        name@,
                        c,
                    ) as real && representable(matrix_entry(lhs, rhs, name@, c) as real),
            decreases reaction.1.len() - i,
        {
            assert(rhs[i as int] == reaction.1[i as int].deep_view());
            proof {
                lemma_integer_representable(matrix_entry(lhs, rhs, name@, lhs.len() + i));
            }
            let entry = match count_atoms(&reaction.1[i], name) {
                Some(n) => Rational::from_integer(-n),
                None => None,
            };
            match entry {
                Some(x) => {
                    assert(x@ == matrix_entry(lhs, rhs, name@, lhs.len() + i) as real);
                    assert(representable(matrix_entry(lhs, rhs, name@, lhs.len() + i) as real));
                    let ghost before = row@;
                    row.push(x);
                    assert forall|c: int| 0 <= c < lhs.len() + i + 1 implies (#[trigger] row@[c])@
                        == matrix_entry(lhs, rhs, name@, c) as real && representable(
                        matrix_entry(lhs, rhs, name@, c) as real,
                    ) by {
                        if c < lhs.len() + i {
                            assert(row@[c] == before[c]);
                        }
                    }
                },
                None => {
                    assert(!representable(matrix_entry(lhs, rhs, name@, lhs.len() + i) as real));
                    return None;
                },
            }
            i += 1;
        }
        assert(row_view(row@) =~= Seq::new(
            (lhs.len() + rhs.len()) as nat,
            |j: int| matrix_entry(lhs, rhs, name@, j) as real,
        ));
        assert forall|j: int| 0 <= j < lhs.len() + rhs.len() implies representable(
            #[trigger] matrix_entry(lhs, rhs, name@, j) as real,
        ) by {
            assert(row@[j]@ == matrix_entry(lhs, rhs, name@, j) as real);
        }
        Some(row)
    }

    /// The matrix of `reaction`, if all of its entries can be held.
    fn from_reaction(reaction: &(Vec<Molecule>, Vec<Molecule>)) -> (r: Option<Matrix>)
        requires
            reaction.0.len() + reaction.1.len() <= usize::MAX,
        ensures
            match r {
                Some(mat) => {
                    &&& mat.wf()
                    &&& mat.width == reaction.0.len() + reaction.1.len()
                    &&& mat@ == reaction_matrix(reaction.0.deep_view(), reaction.1.deep_view())
                    &&& matrix_fits(mat@)
                },
                None => !matrix_fits(
                    reaction_matrix(reaction.0.deep_view(), reaction.1.deep_view()),
                ),
            },
    {
        let ghost lhs = reaction.0.deep_view();
        let ghost rhs = reaction.1.deep_view();
        let ghost mols = lhs + rhs;
        let mut names: Vec<String> = Vec::new();
        let mut k: usize = 0;
        assert(views(names@) =~= element_names(mols.take(0)));
        while k < reaction.0.len()
            invariant
                k <= reaction.0.len(),
                lhs == reaction.0.deep_view(),
                mols == lhs + rhs,
                views(names@) == element_names(mols.take(k as int)),
            decreases reaction.0.len() - k,
        {
            proof {
                assert(mols.take(k + 1).drop_last() =~= mols.take(k as int));
                assert(mols.take(k + 1).last() == reaction.0[k as int].deep_view());
            }
            collect_names(&mut names, &reaction.0[k]);
            k += 1;
        }
        let mut i: usize = 0;
        while i < reaction.1.len()
            invariant
                i <= reaction.1.len(),
                reaction.0.len() + reaction.1.len() <= usize::MAX,
                lhs == reaction.0.deep_view(),
                rhs == reaction.1.deep_view(),
                mols == lhs + rhs,
                views(names@) == element_names(mols.take((lhs.len() + i) as int)),
            decreases reaction.1.len() - i,
        {
            proof {
                assert(mols.take(lhs.len() + i + 1).drop_last() =~= mols.take(
                    (lhs.len() + i) as int,
                ));
                assert(mols.take(lhs.len() + i + 1).last() == reaction.1[i as int].deep_view());
            }
            collect_names(&mut names, &reaction.1[i]);
            i += 1;
        }
        assert(mols.take((lhs.len() + rhs.len()) as int) =~= mols);
        let ghost target = reaction_matrix(lhs, rhs);
        let width = reaction.0.len() + reaction.1.len();
        let mut buf: Vec<Vec<Rational>> = Vec::new();
        let mut r: usize = 0;
        while r < names.len()
            invariant
                r <= names.len(),
                width == reaction.0.len() + reaction.1.len(),
                lhs == reaction.0.deep_view(),
                rhs == reaction.1.deep_view(),
                views(names@) == element_names(lhs + rhs),
                target == reaction_matrix(lhs, rhs),
                buf.len() == r,
                forall|a: int|
                    0 <= a < r ==> (#[trigger] buf@[a])@.len() == width && row_view(buf@[a]@)
                        == target[a],
                forall|a: int, b: int|
                    0 <= a < r && 0 <= b < width ==> representable(#[trigger] target[a][b]),
            decreases names.len() - r,
        {
            assert(views(names@)[r as int] == names[r as int]@);
            assert(target.len() == names.len());
            match Matrix::row_for(reaction, &names[r]) {
                Some(row) => {
                    assert(row_view(row@) =~= target[r as int]);
                    assert(row_view(row@).len() == row@.len());
                    buf.push(row);
                },
                None => {
                    let ghost j = choose|j: int|
                        0 <= j < lhs.len() + rhs.len() && !representable(
                            #[trigger] matrix_entry(lhs, rhs, names[r as int]@, j) as real,
                        );
                    assert(!representable(target[r as int][j]));
                    return None;
                },
            }
            r += 1;
        }
        let mat = Matrix { buf, height: names.len(), width };
        assert(mat@ =~= target);
        Some(mat)
    }

    fn width(&self) -> (w: usize)
        ensures
            w == self.width,
    {
        self.width
    }

    fn height(&self) -> (h: usize)
        ensures
            h == self.height,
    {
        self.height
    }

    /// Exchanges the rows `row1` and `row2`.
    fn switch_rows(&mut self, row1: usize, row2: usize)
        requires
            old(self).wf(),
            row1 < old(self).height,
            row2 < old(self).height,
        ensures
            final(self).wf(),
            final(self).height == old(self).height,
            final(self).width == old(self).width,
            final(self)@ == swapped(old(self)@, row1 as int, row2 as int),
    {
        let first = copy_row(&self.buf[row1]);
        let second = copy_row(&self.buf[row2]);
        self.buf.set(row1, second);
        self.buf.set(row2, first);
        assert(self@ =~= swapped(old(self)@, row1 as int, row2 as int));
    }

    /// Adds `mult` times the row `row` to the row `dest`, if all entries of
    /// the result can be held; says whether it did.
    fn add_row_to_row(&mut self, dest: usize, row: usize, mult: Rational) -> (done: bool)
        requires
            old(self).wf(),
            dest < old(self).height,
            row < old(self).height,
        ensures
            final(self).wf(),
            final(self).height == old(self).height,
            final(self).width == old(self).width,
            match combined_row(old(self)@[dest as int], old(self)@[row as int], mult@) {
                Some(sum) => done && final(self)@ == old(self)@.update(dest as int, sum),
                None => !done && final(self)@ == old(self)@,
            },
    {
        let ghost d = self@[dest as int];
        let ghost s = self@[row as int];
        let mut out: Vec<Rational> = Vec::new();
        let mut i: usize = 0;
        while i < self.width
            invariant
                i <= self.width,
                self.wf(),
                dest < self.height,
                row < self.height,
                self == old(self),
                d == self@[dest as int],
                s == self@[row as int],
                d.len() == self.width,
                s.len() == self.width,
                out.len() == i,
                forall|j: int|
                    0 <= j < i ==> (#[trigger] combined_entry(d[j], s[j], mult@)) == Some(
                        out@[j]@,
                    ),
            decreases self.width - i,
        {
            assert(d[i as int] == self.buf@[dest as int]@[i as int]@);
            assert(s[i as int] == self.buf@[row as int]@[i as int]@);
            let incr = match self.buf[row][i].times(&mult) {
                Some(p) => p,
                None => {
                    assert(combined_entry(d[i as int], s[i as int], mult@) is None);
                    return false;
                },
            };
            let sum = match self.buf[dest][i].plus(&incr) {
                Some(x) => x,
                None => {
                    assert(combined_entry(d[i as int], s[i as int], mult@) is None);
                    return false;
                },
            };
            out.push(sum);
            i += 1;
        }
        assert(row_view(out@) =~= combined_row(d, s, mult@)->0);
        self.buf.set(dest, out);
        assert(self@ =~= old(self)@.update(dest as int, combined_row(d, s, mult@)->0));
        true
    }
}

/// The first of those rows from `k` on whose entry in column `k` is largest
/// in absolute value.
fn column_abs_max_index(mat: &Matrix, k: usize) -> (max: usize)
    requires
        mat.wf(),
        k < mat.height,
        k < mat.width,
    ensures
        max == pivot_among(mat@, k as int, mat.height as int),
        k <= max < mat.height,
{
    let mut max: usize = k;
    let mut i: usize = k + 1;
    while i < mat.height
        invariant
            mat.wf(),
            k < mat.width,
            k < i <= mat.height,
            k <= max < i,
            max == pivot_among(mat@, k as int, i as int),
        decreases mat.height - i,
    {
        assert(mat@[max as int][k as int] == mat.buf@[max as int]@[k as int]@);
        assert(mat@[i as int][k as int] == mat.buf@[i as int]@[k as int]@);
        if mat.buf[max][k].abs_less_than(&mat.buf[i][k]) {
            max = i;
        }
        i += 1;
    }
    max
}

/// Whether the first `n` entries on the diagonal of `m` are not zero.
pub open spec fn diagonal_set(m: Seq<Seq<real>>, n: int) -> bool {
    forall|i: int| 0 <= i < n ==> (#[trigger] m[i])[i] != 0real
}

/// Clears column `k` in all rows below row `k`.
fn clear_column(mat: &mut Matrix, k: usize) -> (done: bool)
    requires
        old(mat).wf(),
        k < old(mat).height,
        k < old(mat).width,
        old(mat)@[k as int][k as int] != 0real,
    ensures
        final(mat).wf(),
        final(mat).height == old(mat).height,
        final(mat).width == old(mat).width,
        match cleared_below(old(mat)@, k as int) {
            Some(next) => done && final(mat)@ == next,
            None => !done,
        },
{
    let ghost start = mat@;
    let mut i: usize = k + 1;
    while i < mat.height
        invariant
            mat.wf(),
            mat.height == old(mat).height,
            mat.width == old(mat).width,
            start == old(mat)@,
            k < mat.height,
            k < mat.width,
            k < i <= mat.height,
            start[k as int][k as int] != 0real,
            mat@.len() == start.len(),
            forall|r: int| 0 <= r <= k ==> #[trigger] mat@[r] == start[r],
            forall|r: int| i <= r < mat.height ==> #[trigger] mat@[r] == start[r],
            forall|r: int|
                k < r < i ==> (#[trigger] cleared_row(start[r], start[k as int], k as int)) == Some(
                    mat@[r],
                ),
        decreases mat.height - i,
    {
        assert(mat@[i as int][k as int] == mat.buf@[i as int]@[k as int]@);
        assert(mat@[k as int][k as int] == mat.buf@[k as int]@[k as int]@);
        assert(mat@[k as int] == start[k as int]);
        assert(mat@[i as int] == start[i as int]);
        let factor = match mat.buf[i][k].divided_by(&mat.buf[k][k]) {
            Some(f) => f,
            None => {
                assert(cleared_row(start[i as int], start[k as int], k as int) is None);
                return false;
            },
        };
        let ghost before = mat@;
        if !mat.add_row_to_row(i, k, factor.negated()) {
            assert(cleared_row(start[i as int], start[k as int], k as int) is None);
            return false;
        }
        assert(mat@ == before.update(
            i as int,
            cleared_row(start[i as int], start[k as int], k as int)->0,
        ));
        i += 1;
    }
    assert(mat@ =~= cleared_below(start, k as int)->0);
    true
}

/// Brings `mat` into triangular form.
#[verifier::loop_isolation(false)]
fn forward_elim(mat: Matrix) -> (r: Result<Matrix, Fault>)
    requires
        mat.wf(),
    ensures
        match r {
            Ok(out) => {
                &&& out.wf()
                &&& out.height == mat.height
                &&& out.width == mat.width
                &&& eliminated(mat@, mat.width as int, 0) == Ok::<Seq<Seq<real>>, Fault>(out@)
                &&& forall|i: int|
                    0 <= i < out.height && i < out.width ==> (#[trigger] out@[i])[i] != 0real
            },
            Err(fault) => eliminated(mat@, mat.width as int, 0) == Err::<Seq<Seq<real>>, Fault>(fault),
        },
{
    let ghost start = mat@;
    let ghost width = mat.width;
    let ghost height = mat.height;
    let mut mat = mat;
    let steps: usize = if mat.width() < mat.height() {
        mat.width()
    } else {
        mat.height()
    };
    let mut k: usize = 0;
    while k < steps
        invariant
            mat.wf(),
            mat.width == width,
            mat.height == height,
            k <= steps,
            steps <= mat.height,
            steps <= mat.width,
            steps == mat.height || steps == mat.width,
            mat@.len() == mat.height,
            eliminated(start, mat.width as int, 0) == eliminated(mat@, mat.width as int, k as int),
            diagonal_set(mat@, k as int),
        decreases steps - k,
    {
        let pivot = column_abs_max_index(&mat, k);
        assert(mat@[pivot as int][k as int] == mat.buf@[pivot as int]@[k as int]@);
        if mat.buf[pivot][k].is_zero() {
            return Err(Fault::Singular);
        }
        let ghost before = mat@;
        mat.switch_rows(k, pivot);
        let ghost exchanged = mat@;
        if !clear_column(&mut mat, k) {
            return Err(Fault::Overflow);
        }
        proof {
            assert forall|i: int| 0 <= i < k + 1 implies (#[trigger] mat@[i])[i] != 0real by {
                assert(mat@[i] == exchanged[i]);
                if i < k {
                    assert(exchanged[i] == before[i]);
                }
            }
        }
        k += 1;
    }
    Ok(mat)
}

/// Solves the triangular matrix `mat` from the last variable up.
fn back_substitute(mat: &Matrix) -> (r: Option<Vec<Rational>>)
    requires
        mat.wf(),
        forall|i: int| 0 <= i < mat.height && i < mat.width ==> (#[trigger] mat@[i])[i] != 0real,
    ensures
        match r {
            Some(xs) => solved_from(mat@, mat.width as int, 0) == Some(row_view(xs@)),
            None => solved_from(mat@, mat.width as int, 0) is None,
        },
{
    let width = mat.width();
    proof {
        lemma_integer_representable(0);
        lemma_integer_representable(1);
    }
    let one = Rational::from_integer(1).unwrap();
    let zero = Rational::from_integer(0).unwrap();
    // `vars` holds the variables from the last one backwards.
    let mut vars: Vec<Rational> = Vec::new();
    let mut k: usize = width;
    assert(row_view(vars@).reverse() =~= Seq::<real>::empty());
    while k > 0
        invariant
            mat.wf(),
            width == mat.width,
            k <= width,
            one@ == 1real,
            zero@ == 0real,
            vars.len() == width - k,
            forall|i: int|
                0 <= i < mat.height && i < mat.width ==> (#[trigger] mat@[i])[i] != 0real,
            solved_from(mat@, width as int, k as int) == Some(row_view(vars@).reverse()),
        decreases k,
    {
        k -= 1;
        let ghost tail = row_view(vars@).reverse();
        if k >= mat.height() {
            vars.push(one);
            assert(row_view(vars@).reverse() =~= seq![1real] + tail);
        } else {
            let mut var = zero;
            let mut i: usize = k + 1;
            while i < width
                invariant
                    mat.wf(),
                    width == mat.width,
                    k < mat.height,
                    k < i <= width,
                    vars.len() == width - k - 1,
                    tail == row_view(vars@).reverse(),
                    solved_from(mat@, width as int, k + 1) == Some(tail),
                    back_sum(mat@[k as int], tail, k as int, (i - k - 1) as nat) == Some(var@),
                decreases width - i,
            {
                assert(mat@[k as int][i as int] == mat.buf@[k as int]@[i as int]@);
                assert(tail[i - k - 1] == vars@[width - 1 - i]@);
                let product = mat.buf[k][i].times(&vars[width - 1 - i]);
                let next = match product {
                    Some(p) => var.minus(&p),
                    None => None,
                };
                match next {
                    Some(x) => {
                        var = x;
                    },
                    None => {
                        proof {
                            lemma_solved_len(mat@, width as int, k + 1);
                            lemma_back_sum_none(
                                mat@[k as int],
                                tail,
                                k as int,
                                (i - k) as nat,
                                tail.len(),
                            );
                            lemma_solved_none(mat@, width as int, k as int);
                        }
                        return None;
                    },
                }
                i += 1;
            }
            assert(mat@[k as int][k as int] == mat.buf@[k as int]@[k as int]@);
            proof {
                lemma_solved_len(mat@, width as int, k + 1);
            }
            match var.divided_by(&mat.buf[k][k]) {
                Some(x) => {
                    vars.push(x);
                    assert(row_view(vars@).reverse() =~= seq![x@] + tail);
                },
                None => {
                    proof {
                        lemma_solved_none(mat@, width as int, k as int);
                    }
                    return None;
                },
            }
        }
    }
    let mut xs: Vec<Rational> = Vec::new();
    let mut j: usize = width;
    while j > 0
        invariant
            j <= width,
            vars.len() == width,
            xs.len() == width - j,
            forall|c: int| 0 <= c < width - j ==> #[trigger] xs@[c] == vars@[width - 1 - c],
        decreases j,
    {
        j -= 1;
        xs.push(vars[j]);
    }
    assert(row_view(xs@) =~= row_view(vars@).reverse());
    Some(xs)
}

/// Where the last variables have no solution that can be held, none have.
proof fn lemma_solved_none(m: Seq<Seq<real>>, width: int, k: int)
    requires
        0 <= k,
        solved_from(m, width, k) is None,
    ensures
        solved_from(m, width, 0) is None,
    decreases k,
{
    if k > 0 {
        lemma_solved_none(m, width, k - 1);
    }
}

/// Once a value on the way cannot be held, none after it can.
proof fn lemma_back_sum_none(row: Seq<real>, tail: Seq<real>, k: int, t: nat, n: nat)
    requires
        t <= n,
        back_sum(row, tail, k, t) is None,
    ensures
        back_sum(row, tail, k, n) is None,
    decreases n - t,
{
    if t < n {
        lemma_back_sum_none(row, tail, k, t + 1, n);
    }
}

/// The part of the text that `molecule` takes.
fn molecule_span(molecule: &Molecule) -> (span: (usize, usize))
    requires
        has_span(molecule.deep_view()),
    ensures
        span == span_of(molecule.deep_view()),
{
    let ghost m = molecule.deep_view();
    assert(m[0] == molecule[0]@);
    assert(m.last() == molecule[molecule.len() - 1]@);
    let begin = molecule[0].pos;
    let last = &molecule[molecule.len() - 1];
    (begin, last.pos + last.len - begin)
}

/// Balances a chemical reaction by Gaussian elimination: gives for each
/// molecule, the left side first, the number of times it takes part.
#[verifier::loop_isolation(false)]
pub fn balance_reaction(reaction: &(Vec<Molecule>, Vec<Molecule>)) -> (r: CTResult<Vec<u32>>)
    requires
        well_formed(reaction.0.deep_view(), reaction.1.deep_view()),
    ensures
        (match r {
            Ok(coefs) => Ok(coefs@),
            Err(e) => Err(e@),
        }) == balance_result(
            reaction.0.deep_view(),
            reaction.1.deep_view(),
            balance_of(reaction.0.deep_view(), reaction.1.deep_view()),
        ),
        r matches Ok(coefs) ==> coefs.len() == reaction.0.len() + reaction.1.len(),
{
    let ghost lhs = reaction.0.deep_view();
    let ghost rhs = reaction.1.deep_view();
    assert(lhs.len() == reaction.0.len() && rhs.len() == reaction.1.len());
    let width = reaction.0.len() + reaction.1.len();
    let reac_mat = match Matrix::from_reaction(reaction) {
        Some(mat) => mat,
        None => {
            return Err(
                CTError::new(
                    CTErrorKind::BalanceError,
                    "Could not balance reaction: the numbers grow too large",
                    None,
                ),
            );
        },
    };
    let reduced_mat = match forward_elim(reac_mat) {
        Ok(mat) => mat,
        Err(Fault::Singular) => {
            return Err(CTError::new(CTErrorKind::InputError, "Could not balance reaction", None));
        },
        Err(Fault::Overflow) => {
            return Err(
                CTError::new(
                    CTErrorKind::BalanceError,
                    "Could not balance reaction: the numbers grow too large",
                    None,
                ),
            );
        },
    };
    let coefs = match back_substitute(&reduced_mat) {
        Some(xs) => xs,
        None => {
            return Err(
                CTError::new(
                    CTErrorKind::BalanceError,
                    "Could not balance reaction: the numbers grow too large",
                    None,
                ),
            );
        },
    };
    let ghost xs = row_view(coefs@);
    proof {
        lemma_solved_len(reduced_mat@, width as int, 0);
    }
    // A coefficient of zero means that an element of that molecule is missing
    // on the other side of the reaction.
    let mut pos: usize = 0;
    while pos < width
        invariant
            pos <= width,
            width == reaction.0.len() + reaction.1.len(),
            lhs == reaction.0.deep_view(),
            rhs == reaction.1.deep_view(),
            lhs.len() == reaction.0.len(),
            rhs.len() == reaction.1.len(),
            well_formed(lhs, rhs),
            coefs.len() == width,
            xs == row_view(coefs@),
            first_zero(xs, 0) == first_zero(xs, pos as int),
        decreases width - pos,
    {
        assert(xs[pos as int] == coefs@[pos as int]@);
        if coefs[pos].is_zero() {
            let molecule = if pos < reaction.0.len() {
                assert(lhs[pos as int] == reaction.0[pos as int].deep_view());
                &reaction.0[pos]
            } else {
                assert(rhs[pos - lhs.len()] == reaction.1[pos - lhs.len()].deep_view());
                &reaction.1[pos - reaction.0.len()]
            };
            assert(molecule.deep_view() == (lhs + rhs)[pos as int]);
            let mut desc = "An element in ".to_owned();
            desc.append(molecule_to_string(molecule).as_str());
            desc.append(" is missing on the other side of the reaction");
            let span = molecule_span(molecule);
            return Err(CTError { kind: CTErrorKind::InputError, desc, pos: Some(span) });
        }
        pos += 1;
    }
    let mut min = coefs[0];
    let mut n: usize = 1;
    assert(min@ == xs[0]);
    while n < width
        invariant
            1 <= n <= width,
            coefs.len() == width,
            xs == row_view(coefs@),
            first_zero(xs, 0) is None,
            min@ == least_among(xs, n as int),
            exists|c: int| 0 <= c < n && min@ == #[trigger] xs[c],
        decreases width - n,
    {
        assert(xs[n as int] == coefs@[n as int]@);
        if coefs[n].less_than(&min) {
            min = coefs[n];
        }
        n += 1;
    }
    proof {
        lemma_first_zero(xs, 0);
    }
    let mut out: Vec<u32> = Vec::new();
    let mut j: usize = 0;
    while j < width
        invariant
            j <= width,
            coefs.len() == width,
            xs == row_view(coefs@),
            min@ != 0real,
            min@ == least_among(xs, width as int),
            out.len() == j,
            forall|c: int| 0 <= c < j ==> #[trigger] out@[c] == normalized(xs)[c],
        decreases width - j,
    {
        assert(xs[j as int] == coefs@[j as int]@);
        out.push(coefs[j].ratio_to(&min));
        j += 1;
    }
    assert(out@ =~= normalized(xs));
    Ok(out)
}

/// A solution has one value for each variable.
pub proof fn lemma_solved_len(m: Seq<Seq<real>>, width: int, k: int)
    requires
        0 <= k <= width,
    ensures
        solved_from(m, width, k) matches Some(xs) ==> xs.len() == width - k,
    decreases width - k,
{
    if k < width {
        lemma_solved_len(m, width, k + 1);
    }
}

/// One molecule of a balanced reaction as text: its coefficient, a space,
/// and its formula.
pub open spec fn term_text(coef: u32, m: Seq<ElemView>) -> Seq<char> {
    decimal_digits(coef as nat) + seq![' '] + formula_text(m)
}

/// The first `n` molecules of `side` with their coefficients as text, with
/// ` + ` between them.
pub open spec fn side_text(side: Seq<Seq<ElemView>>, coefs: Seq<u32>, n: nat) -> Seq<char>
    decreases n,
{
    if n == 0 {
        Seq::empty()
    } else if n == 1 {
        term_text(coefs[0], side[0])
    } else {
        side_text(side, coefs, (n - 1) as nat) + " + "@ + term_text(coefs[n - 1], side[n - 1])
    }
}

/// A balanced reaction as text: the two sides with ` -> ` between them. The
/// coefficients are those of the left side followed by those of the right.
pub open spec fn equation_text(
    lhs: Seq<Seq<ElemView>>,
    rhs: Seq<Seq<ElemView>>,
    coefs: Seq<u32>,
) -> Seq<char> {
    side_text(lhs, coefs.take(lhs.len() as int), lhs.len()) + " -> "@ + side_text(
        rhs,
        coefs.skip(lhs.len() as int),
        rhs.len(),
    )
}

/// Appends to `out` the molecules of `side` with the coefficients
/// `coefs[from ..]`.
fn push_side(out: &mut String, side: &Vec<Molecule>, coefs: &Vec<u32>, from: usize)
    requires
        from + side.len() <= coefs.len(),
    ensures
        final(out)@ == old(out)@ + side_text(
            side.deep_view(),
            coefs@.subrange(from as int, from + side.len()),
            side.len() as nat,
        ),
{
    let ghost part = coefs@.subrange(from as int, from + side.len());
    let ghost mols = side.deep_view();
    let mut k: usize = 0;
    assert(out@ =~= old(out)@ + side_text(mols, part, 0));
    while k < side.len()
        invariant
            k <= side.len(),
            from + side.len() <= coefs.len(),
            mols == side.deep_view(),
            part == coefs@.subrange(from as int, from + side.len()),
            out@ == old(out)@ + side_text(mols, part, k as nat),
        decreases side.len() - k,
    {
        let ghost before = out@;
        if k > 0 {
            out.append(" + ");
        }
        push_decimal(out, coefs[from + k]);
        out.push(' ');
        out.append(molecule_to_string(&side[k]).as_str());
        proof {
            assert(part[k as int] == coefs@[from + k]);
            assert(mols[k as int] == side[k as int].deep_view());
            if k > 0 {
                assert(out@ =~= before + " + "@ + term_text(part[k as int], mols[k as int]));
            } else {
                assert(out@ =~= before + term_text(part[k as int], mols[k as int]));
                assert(side_text(mols, part, 0) =~= Seq::<char>::empty());
            }
        }
        k += 1;
        assert(out@ =~= old(out)@ + side_text(mols, part, k as nat));
    }
}

/// Writes a balanced reaction: each molecule with its coefficient before it.
/// `coefs` holds a coefficient for each molecule, the left side first, and
/// each side has a molecule.
pub fn balanced_equation(reaction: &(Vec<Molecule>, Vec<Molecule>), coefs: &Vec<u32>) -> (s: String)
    requires
        reaction.0.len() > 0,
        reaction.1.len() > 0,
        coefs.len() == reaction.0.len() + reaction.1.len(),
    ensures
        s@ == equation_text(reaction.0.deep_view(), reaction.1.deep_view(), coefs@),
{
    let mut s = String::new();
    push_side(&mut s, &reaction.0, coefs, 0);
    s.append(" -> ");
    push_side(&mut s, &reaction.1, coefs, reaction.0.len());
    proof {
        let lhs = reaction.0.deep_view();
        let rhs = reaction.1.deep_view();
        assert(lhs.len() == reaction.0.len() && rhs.len() == reaction.1.len());
        assert(coefs@.subrange(0, 0 + reaction.0.len()) =~= coefs@.take(lhs.len() as int));
        assert(coefs@.subrange(reaction.0.len() as int, reaction.0.len() + reaction.1.len())
            =~= coefs@.skip(lhs.len() as int));
        assert(s@ =~= equation_text(lhs, rhs, coefs@));
    }
    s
}

} // verus!
