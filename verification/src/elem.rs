//! Elements and molecules, and the grouping of a molecule's elements.

use crate::text::{decimal_digits, push_decimal, to_chars, views};
use vstd::prelude::*;

verus! {

/// One occurrence of an element in a formula: its symbol, how many atoms of it
/// there are, and the part of the source text that names it.
#[derive(Debug, PartialEq)]
pub struct PerElem {
    pub name: String,
    pub coef: u32,
    pub pos: usize,
    pub len: usize,
}

/// A molecule is the sequence of its elements, in the order they were written.
pub type Molecule = Vec<PerElem>;

/// A `PerElem` as a mathematical value.
pub struct ElemView {
    pub name: Seq<char>,
    pub coef: nat,
    pub pos: nat,
    pub len: nat,
}

impl View for PerElem {
    type V = ElemView;

    open spec fn view(&self) -> ElemView {
        ElemView {
            name: self.name@,
            coef: self.coef as nat,
            pos: self.pos as nat,
            len: self.len as nat,
        }
    }
}

impl DeepView for PerElem {
    type V = ElemView;

    open spec fn deep_view(&self) -> ElemView {
        self@
    }
}

impl Clone for PerElem {
    fn clone(&self) -> (r: Self)
        ensures
            r == *self,
    {
        PerElem { name: self.name.clone(), coef: self.coef, pos: self.pos, len: self.len }
    }
}

/// Whether the name `a` comes before the name `b` in the order of the code
/// points of their characters: the order in which grouped elements are listed.
pub open spec fn name_lt(a: Seq<char>, b: Seq<char>) -> bool
    decreases a.len(),
{
    if b.len() == 0 {
        false
    } else if a.len() == 0 {
        true
    } else if a[0] != b[0] {
        a[0] < b[0]
    } else {
        name_lt(a.drop_first(), b.drop_first())
    }
}

/// No name comes before itself.
pub proof fn lemma_name_lt_irreflexive(a: Seq<char>)
    ensures
        !name_lt(a, a),
    decreases a.len(),
{
    if a.len() > 0 {
        lemma_name_lt_irreflexive(a.drop_first());
    }
}

/// Of two different names one comes before the other.
pub proof fn lemma_name_lt_total(a: Seq<char>, b: Seq<char>)
    ensures
        a == b || name_lt(a, b) || name_lt(b, a),
        !(name_lt(a, b) && name_lt(b, a)),
    decreases a.len(),
{
    if a.len() == 0 || b.len() == 0 {
        if a.len() == 0 && b.len() == 0 {
            assert(a =~= b);
        }
    } else if a[0] == b[0] {
        lemma_name_lt_total(a.drop_first(), b.drop_first());
        if a.drop_first() == b.drop_first() {
            assert(a =~= seq![a[0]] + a.drop_first());
            assert(b =~= seq![b[0]] + b.drop_first());
        }
    }
}

/// A name that comes before another comes before all that the other comes
/// before.
pub proof fn lemma_name_lt_transitive(a: Seq<char>, b: Seq<char>, c: Seq<char>)
    requires
        name_lt(a, b),
        name_lt(b, c),
    ensures
        name_lt(a, c),
    decreases a.len(),
{
    if a.len() > 0 && a[0] == b[0] && b[0] == c[0] {
        lemma_name_lt_transitive(a.drop_first(), b.drop_first(), c.drop_first());
    }
}

/// Whether the name `a` comes before the name `b`.
pub fn name_less(a: &str, b: &str) -> (r: bool)
    ensures
        r == name_lt(a@, b@),
{
    let ca = to_chars(a);
    let cb = to_chars(b);
    let mut i: usize = 0;
    assert(ca@.skip(0) =~= ca@ && cb@.skip(0) =~= cb@);
    loop
        invariant
            i <= ca.len(),
            i <= cb.len(),
            ca@ == a@,
            cb@ == b@,
            name_lt(a@, b@) == name_lt(ca@.skip(i as int), cb@.skip(i as int)),
        decreases ca.len() - i,
    {
        if i == cb.len() {
            return false;
        }
        if i == ca.len() {
            return true;
        }
        if ca[i] != cb[i] {
            return ca[i] < cb[i];
        }
        proof {
            assert(ca@.skip(i as int).drop_first() =~= ca@.skip(i + 1));
            assert(cb@.skip(i as int).drop_first() =~= cb@.skip(i + 1));
        }
        i += 1;
    }
}

/// Whether the names in `s` stand in strictly ascending order.
pub open spec fn names_ascend(s: Seq<ElemView>) -> bool {
    forall|i: int, j: int| 0 <= i < j < s.len() ==> name_lt(#[trigger] s[i].name, #[trigger] s[j].name)
}

/// Whether some entry of `s` has the name `name`.
pub open spec fn has_name(s: Seq<ElemView>, name: Seq<char>) -> bool {
    exists|i: int| 0 <= i < s.len() && #[trigger] s[i].name == name
}

/// The number of atoms of the element `name` in `s`.
pub open spec fn coef_total(s: Seq<ElemView>, name: Seq<char>) -> nat
    decreases s.len(),
{
    if s.len() == 0 {
        0
    } else {
        coef_total(s.drop_last(), name) + if s.last().name == name {
            s.last().coef
        } else {
            0
        }
    }
}

/// The number of atoms in `s`, of whatever element.
pub open spec fn atom_count(s: Seq<ElemView>) -> nat
    decreases s.len(),
{
    if s.len() == 0 {
        0
    } else {
        atom_count(s.drop_last()) + s.last().coef
    }
}

/// The number of entries at the front of `s` whose names come before `name`.
/// Where the names in `s` ascend, this is the place at which `name` stands or
/// would have to be put.
pub open spec fn insert_point(s: Seq<ElemView>, name: Seq<char>) -> int
    decreases s.len(),
{
    if s.len() == 0 || !name_lt(s[0].name, name) {
        0
    } else {
        1 + insert_point(s.drop_first(), name)
    }
}

/// `s` with the element `e` taken in: added to the entry of the same name if
/// there is one, put at its place in the order of names if not.
pub open spec fn merge_elem(s: Seq<ElemView>, e: ElemView) -> Seq<ElemView> {
    let i = insert_point(s, e.name);
    if i < s.len() && s[i].name == e.name {
        s.update(i, ElemView { coef: s[i].coef + e.coef, ..s[i] })
    } else {
        s.insert(i, e)
    }
}

/// The grouping of `m`: one entry for each element that occurs in `m`, with
/// the sum of its coefficients and the position of its first occurrence, the
/// entries in ascending order of their names.
pub open spec fn grouped(m: Seq<ElemView>) -> Seq<ElemView>
    decreases m.len(),
{
    if m.len() == 0 {
        Seq::empty()
    } else {
        merge_elem(grouped(m.drop_last()), m.last())
    }
}

/// What `insert_point` returns is the one index before which all names are
/// smaller than `name` and at which the name is not.
pub proof fn lemma_insert_point(s: Seq<ElemView>, name: Seq<char>)
    ensures
        0 <= insert_point(s, name) <= s.len(),
        forall|j: int| 0 <= j < insert_point(s, name) ==> name_lt(#[trigger] s[j].name, name),
        insert_point(s, name) < s.len() ==> !name_lt(s[insert_point(s, name)].name, name),
    decreases s.len(),
{
    if s.len() == 0 || !name_lt(s[0].name, name) {
    } else {
        let t = s.drop_first();
        lemma_insert_point(t, name);
        let p = insert_point(t, name);
        assert forall|j: int| 0 <= j < p + 1 implies name_lt(#[trigger] s[j].name, name) by {
            if j > 0 {
                assert(s[j] == t[j - 1]);
            }
        }
        if p + 1 < s.len() {
            assert(s[p + 1] == t[p]);
        }
    }
}

/// An index with the two properties of `insert_point` is `insert_point`.
pub proof fn lemma_insert_point_unique(s: Seq<ElemView>, name: Seq<char>, i: int)
    requires
        0 <= i <= s.len(),
        forall|j: int| 0 <= j < i ==> name_lt(#[trigger] s[j].name, name),
        i < s.len() ==> !name_lt(s[i].name, name),
    ensures
        insert_point(s, name) == i,
{
    lemma_insert_point(s, name);
    let p = insert_point(s, name);
    if p < i {
        assert(name_lt(s[p].name, name));
    } else if i < p {
        assert(name_lt(s[i].name, name));
    }
}

/// The atoms of an element in two parts of a molecule add up to those in
/// the whole.
pub proof fn lemma_coef_total_concat(a: Seq<ElemView>, b: Seq<ElemView>, name: Seq<char>)
    ensures
        coef_total(a + b, name) == coef_total(a, name) + coef_total(b, name),
    decreases b.len(),
{
    if b.len() == 0 {
        assert(a + b =~= a);
    } else {
        assert((a + b).drop_last() =~= a + b.drop_last());
        lemma_coef_total_concat(a, b.drop_last(), name);
    }
}

/// The atoms in two parts of a molecule add up to those in the whole.
pub proof fn lemma_atom_count_concat(a: Seq<ElemView>, b: Seq<ElemView>)
    ensures
        atom_count(a + b) == atom_count(a) + atom_count(b),
    decreases b.len(),
{
    if b.len() == 0 {
        assert(a + b =~= a);
    } else {
        assert((a + b).drop_last() =~= a + b.drop_last());
        lemma_atom_count_concat(a, b.drop_last());
    }
}

proof fn lemma_sums_single(e: ElemView, name: Seq<char>)
    ensures
        coef_total(seq![e], name) == if e.name == name {
            e.coef
        } else {
            0
        },
        atom_count(seq![e]) == e.coef,
{
    assert(seq![e].drop_last() =~= Seq::<ElemView>::empty());
    assert(coef_total(seq![e].drop_last(), name) == 0);
    assert(atom_count(seq![e].drop_last()) == 0);
}

/// The number of atoms of an element that does not occur is zero.
pub proof fn lemma_coef_total_absent(s: Seq<ElemView>, name: Seq<char>)
    requires
        !has_name(s, name),
    ensures
        coef_total(s, name) == 0,
    decreases s.len(),
{
    if s.len() > 0 {
        assert(s[s.len() - 1].name != name);
        assert forall|i: int| 0 <= i < s.drop_last().len() implies s.drop_last()[i].name
            != name by {
            assert(s[i].name != name);
        }
        lemma_coef_total_absent(s.drop_last(), name);
    }
}

/// Where the names ascend, each entry holds all atoms of its element.
pub proof fn lemma_coef_total_ascending(s: Seq<ElemView>, i: int)
    requires
        names_ascend(s),
        0 <= i < s.len(),
    ensures
        coef_total(s, s[i].name) == s[i].coef,
{
    let name = s[i].name;
    let a = s.take(i);
    let b = s.skip(i + 1);
    assert(s =~= a + seq![s[i]] + b);
    lemma_coef_total_concat(a + seq![s[i]], b, name);
    lemma_coef_total_concat(a, seq![s[i]], name);
    lemma_sums_single(s[i], name);
    assert(!has_name(a, name)) by {
        if has_name(a, name) {
            let j = choose|j: int| 0 <= j < a.len() && #[trigger] a[j].name == name;
            assert(name_lt(s[j].name, s[i].name));
            lemma_name_lt_irreflexive(name);
        }
    }
    assert(!has_name(b, name)) by {
        if has_name(b, name) {
            let j = choose|j: int| 0 <= j < b.len() && #[trigger] b[j].name == name;
            assert(name_lt(s[i].name, s[i + 1 + j].name));
            lemma_name_lt_irreflexive(name);
        }
    }
    lemma_coef_total_absent(a, name);
    lemma_coef_total_absent(b, name);
}

/// Taking an element in keeps the names in ascending order, adds the
/// element's atoms to those of its name and leaves all others as they were.
pub proof fn lemma_merge_elem(s: Seq<ElemView>, e: ElemView, name: Seq<char>)
    requires
        names_ascend(s),
    ensures
        names_ascend(merge_elem(s, e)),
        coef_total(merge_elem(s, e), name) == coef_total(s, name) + if e.name == name {
            e.coef
        } else {
            0
        },
        atom_count(merge_elem(s, e)) == atom_count(s) + e.coef,
        has_name(merge_elem(s, e), name) <==> has_name(s, name) || name == e.name,
{
    lemma_insert_point(s, e.name);
    let i = insert_point(s, e.name);
    let r = merge_elem(s, e);
    let a = s.take(i);
    if i < s.len() && s[i].name == e.name {
        let merged = ElemView { coef: s[i].coef + e.coef, ..s[i] };
        let b = s.skip(i + 1);
        assert(s =~= a + seq![s[i]] + b);
        assert(r =~= a + seq![merged] + b);
        lemma_coef_total_concat(a + seq![s[i]], b, name);
        lemma_coef_total_concat(a, seq![s[i]], name);
        lemma_coef_total_concat(a + seq![merged], b, name);
        lemma_coef_total_concat(a, seq![merged], name);
        lemma_atom_count_concat(a + seq![s[i]], b);
        lemma_atom_count_concat(a, seq![s[i]]);
        lemma_atom_count_concat(a + seq![merged], b);
        lemma_atom_count_concat(a, seq![merged]);
        lemma_sums_single(s[i], name);
        lemma_sums_single(merged, name);
        assert forall|j: int, k: int| 0 <= j < k < r.len() implies name_lt(
            #[trigger] r[j].name,
            #[trigger] r[k].name,
        ) by {
            assert(r[j].name == s[j].name);
            assert(r[k].name == s[k].name);
        }
        if has_name(r, name) {
            let j = choose|j: int| 0 <= j < r.len() && #[trigger] r[j].name == name;
            assert(s[j].name == name);
        }
        if has_name(s, name) {
            let j = choose|j: int| 0 <= j < s.len() && #[trigger] s[j].name == name;
            assert(r[j].name == name);
        }
        if name == e.name {
            assert(r[i].name == name);
        }
    } else {
        let b = s.skip(i);
        assert(s =~= a + b);
        assert(r =~= a + seq![e] + b);
        lemma_coef_total_concat(a, b, name);
        lemma_coef_total_concat(a + seq![e], b, name);
        lemma_coef_total_concat(a, seq![e], name);
        lemma_atom_count_concat(a, b);
        lemma_atom_count_concat(a + seq![e], b);
        lemma_atom_count_concat(a, seq![e]);
        lemma_sums_single(e, name);
        if i < s.len() {
            lemma_name_lt_total(s[i].name, e.name);
        }
        assert forall|j: int, k: int| 0 <= j < k < r.len() implies name_lt(
            #[trigger] r[j].name,
            #[trigger] r[k].name,
        ) by {
            if k < i {
                assert(r[j] == s[j] && r[k] == s[k]);
            } else if k == i {
                assert(r[j] == s[j]);
            } else if j < i {
                assert(r[j] == s[j] && r[k] == s[k - 1]);
            } else if j == i {
                assert(r[k] == s[k - 1]);
                if k - 1 > i {
                    assert(name_lt(s[i].name, s[k - 1].name));
                    lemma_name_lt_transitive(e.name, s[i].name, s[k - 1].name);
                }
            } else {
                assert(r[j] == s[j - 1] && r[k] == s[k - 1]);
            }
        }
        if has_name(r, name) {
            let j = choose|j: int| 0 <= j < r.len() && #[trigger] r[j].name == name;
            if j < i {
                assert(s[j].name == name);
            } else if j > i {
                assert(s[j - 1].name == name);
            }
        }
        if has_name(s, name) {
            let j = choose|j: int| 0 <= j < s.len() && #[trigger] s[j].name == name;
            if j < i {
                assert(r[j].name == name);
            } else {
                assert(r[j + 1].name == name);
            }
        }
        if name == e.name {
            assert(r[i].name == name);
        }
    }
}

/// Grouping lists each element of the molecule once, in ascending order of the
/// names, with all of its atoms, and so keeps the number of atoms.
pub proof fn lemma_grouped(m: Seq<ElemView>, name: Seq<char>)
    ensures
        names_ascend(grouped(m)),
        coef_total(grouped(m), name) == coef_total(m, name),
        atom_count(grouped(m)) == atom_count(m),
        has_name(grouped(m), name) <==> has_name(m, name),
    decreases m.len(),
{
    if m.len() > 0 {
        let init = m.drop_last();
        lemma_grouped(init, name);
        lemma_merge_elem(grouped(init), m.last(), name);
        if has_name(init, name) {
            let j = choose|j: int| 0 <= j < init.len() && #[trigger] init[j].name == name;
            assert(m[j].name == name);
        }
        if m.last().name == name {
            assert(m[m.len() - 1].name == name);
        }
        if has_name(m, name) {
            let j = choose|j: int| 0 <= j < m.len() && #[trigger] m[j].name == name;
            if j < m.len() - 1 {
                assert(init[j].name == name);
            }
        }
    }
}

/// Grouping leaves a molecule as it is if its names already ascend. So
/// grouping a grouped molecule changes nothing.
pub proof fn lemma_grouped_fixed(m: Seq<ElemView>)
    requires
        names_ascend(m),
    ensures
        grouped(m) == m,
    decreases m.len(),
{
    if m.len() > 0 {
        let init = m.drop_last();
        lemma_grouped_fixed(init);
        assert forall|j: int| 0 <= j < init.len() implies name_lt(
            #[trigger] init[j].name,
            m.last().name,
        ) by {
            assert(name_lt(m[j].name, m[m.len() - 1].name));
        }
        lemma_insert_point_unique(init, m.last().name, init.len() as int);
        assert(init.insert(init.len() as int, m.last()) =~= m);
    } else {
        assert(m =~= Seq::<ElemView>::empty());
    }
}

/// Grouping is idempotent.
pub proof fn lemma_grouped_idempotent(m: Seq<ElemView>)
    ensures
        grouped(grouped(m)) == grouped(m),
{
    lemma_grouped(m, Seq::empty());
    lemma_grouped_fixed(grouped(m));
}

/// The number of atoms of one element in a part of a molecule is at most
/// their number in the whole.
pub proof fn lemma_coef_total_prefix(m: Seq<ElemView>, k: int, name: Seq<char>)
    requires
        0 <= k <= m.len(),
    ensures
        coef_total(m.take(k), name) <= coef_total(m, name),
{
    assert(m =~= m.take(k) + m.skip(k));
    lemma_coef_total_concat(m.take(k), m.skip(k), name);
}

/// Whether the atoms of each element of `m` can be counted in 32 bits.
pub open spec fn totals_fit(m: Seq<ElemView>) -> bool {
    forall|name: Seq<char>| #[trigger] coef_total(m, name) <= u32::MAX
}

/// The index in `out` at which `name` stands or would have to be put.
fn find_insert_point(out: &Vec<PerElem>, name: &String) -> (i: usize)
    ensures
        i == insert_point(out.deep_view(), name@),
        i <= out.len(),
{
    let mut i: usize = 0;
    while i < out.len() && name_less(out[i].name.as_str(), name.as_str())
        invariant
            i <= out.len(),
            forall|j: int| 0 <= j < i ==> name_lt(#[trigger] out.deep_view()[j].name, name@),
        decreases out.len() - i,
    {
        i += 1;
    }
    proof {
        lemma_insert_point_unique(out.deep_view(), name@, i as int);
    }
    i
}

/// Groups the elements of `molecule`, if the atoms of each element can be
/// counted in 32 bits; `None` if those of some element cannot.
pub fn group_elems_checked(molecule: Molecule) -> (r: Option<Molecule>)
    ensures
        r is Some <==> totals_fit(molecule.deep_view()),
        r matches Some(out) ==> out.deep_view() == grouped(molecule.deep_view()),
{
    let ghost m = molecule.deep_view();
    let mut out: Vec<PerElem> = Vec::new();
    let mut k: usize = 0;
    while k < molecule.len()
        invariant
            k <= molecule.len(),
            m == molecule.deep_view(),
            out.deep_view() == grouped(m.take(k as int)),
        decreases molecule.len() - k,
    {
        let elem = molecule[k].clone();
        let ghost before = out.deep_view();
        proof {
            assert(m.take(k + 1).drop_last() =~= m.take(k as int));
            assert(m.take(k + 1).last() == elem@);
            lemma_grouped(m.take(k as int), elem@.name);
            lemma_insert_point(before, elem@.name);
        }
        let i = find_insert_point(&out, &elem.name);
        if i < out.len() && out[i].name == elem.name {
            proof {
                lemma_coef_total_ascending(before, i as int);
                lemma_merge_elem(before, elem@, elem@.name);
                lemma_grouped(m.take(k + 1), elem@.name);
                lemma_coef_total_prefix(m, k + 1, elem@.name);
            }
            let sum: u64 = out[i].coef as u64 + elem.coef as u64;
            if sum > u32::MAX as u64 {
                return None;
            }
            let merged = PerElem {
                name: out[i].name.clone(),
                coef: sum as u32,
                pos: out[i].pos,
                len: out[i].len,
            };
            out.set(i, merged);
            assert(out.deep_view() =~= merge_elem(before, elem@));
        } else {
            out.insert(i, elem);
            assert(out.deep_view() =~= merge_elem(before, elem@));
        }
        k += 1;
    }
    proof {
        assert(m.take(k as int) =~= m);
        assert forall|name: Seq<char>| #[trigger] coef_total(m, name) <= u32::MAX by {
            lemma_grouped(m, name);
            if has_name(grouped(m), name) {
                let j = choose|j: int|
                    0 <= j < grouped(m).len() && #[trigger] grouped(m)[j].name == name;
                lemma_coef_total_ascending(grouped(m), j);
                assert(grouped(m)[j] == out[j]@);
            } else {
                lemma_coef_total_absent(grouped(m), name);
            }
        }
    }
    Some(out)
}

/// Groups the elements of `molecule`: elements of the same name become one,
/// with the sum of their coefficients.
pub fn group_elems(molecule: Molecule) -> (out: Molecule)
    requires
        totals_fit(molecule.deep_view()),
    ensures
        out.deep_view() == grouped(molecule.deep_view()),
        names_ascend(out.deep_view()),
        atom_count(out.deep_view()) == atom_count(molecule.deep_view()),
        forall|name: Seq<char>|
            coef_total(out.deep_view(), name) == #[trigger] coef_total(
                molecule.deep_view(),
                name,
            ),
        forall|name: Seq<char>|
            has_name(out.deep_view(), name) <==> #[trigger] has_name(molecule.deep_view(), name),
{
    proof {
        assert forall|name: Seq<char>|
            coef_total(grouped(molecule.deep_view()), name) == #[trigger] coef_total(
                molecule.deep_view(),
                name,
            ) by {
            lemma_grouped(molecule.deep_view(), name);
        }
        assert forall|name: Seq<char>|
            has_name(grouped(molecule.deep_view()), name) <==> #[trigger] has_name(
                molecule.deep_view(),
                name,
            ) by {
            lemma_grouped(molecule.deep_view(), name);
        }
        lemma_grouped(molecule.deep_view(), Seq::empty());
    }
    group_elems_checked(molecule).unwrap()
}

/// The names of the entries of `s`, in order.
pub open spec fn names_of(s: Seq<ElemView>) -> Seq<Seq<char>> {
    Seq::new(s.len(), |i: int| s[i].name)
}

/// The names of the elements of `molecule`, each once, in ascending order:
/// the names of its grouping.
pub fn sorted_names(molecule: &Molecule) -> (names: Vec<String>)
    ensures
        views(names@) == names_of(grouped(molecule.deep_view())),
{
    let ghost m = molecule.deep_view();
    let mut names: Vec<String> = Vec::new();
    let mut k: usize = 0;
    assert(views(names@) =~= names_of(grouped(m.take(0))));
    while k < molecule.len()
        invariant
            k <= molecule.len(),
            m == molecule.deep_view(),
            views(names@) == names_of(grouped(m.take(k as int))),
        decreases molecule.len() - k,
    {
        let name = &molecule[k].name;
        let ghost before = grouped(m.take(k as int));
        let ghost elem = molecule[k as int]@;
        proof {
            assert(m.take(k + 1).drop_last() =~= m.take(k as int));
            assert(m.take(k + 1).last() == elem);
            assert(views(names@).len() == names.len());
            assert(names_of(before).len() == before.len());
        }
        let mut i: usize = 0;
        while i < names.len() && name_less(names[i].as_str(), name.as_str())
            invariant
                i <= names.len(),
                names.len() == before.len(),
                views(names@) == names_of(before),
                forall|j: int| 0 <= j < i ==> name_lt(#[trigger] before[j].name, name@),
            decreases names.len() - i,
        {
            assert(views(names@)[i as int] == before[i as int].name);
            i += 1;
        }
        proof {
            if i < names.len() {
                assert(views(names@)[i as int] == before[i as int].name);
            }
            lemma_insert_point_unique(before, name@, i as int);
        }
        if i < names.len() && names[i] == *name {
            assert(views(names@) =~= names_of(merge_elem(before, elem)));
        } else {
            let ghost old_names = views(names@);
            names.insert(i, name.clone());
            assert(views(names@) =~= old_names.insert(i as int, name@));
            assert(views(names@) =~= names_of(merge_elem(before, elem)));
        }
        k += 1;
    }
    assert(m.take(k as int) =~= m);
    names
}

/// The text of one element of a formula: its name, and its coefficient unless
/// that is 0 or 1.
pub open spec fn elem_text(e: ElemView) -> Seq<char> {
    if e.coef > 1 {
        e.name + decimal_digits(e.coef)
    } else {
        e.name
    }
}

/// The formula of the molecule `m`: the texts of its elements, one after the
/// other.
pub open spec fn formula_text(m: Seq<ElemView>) -> Seq<char>
    decreases m.len(),
{
    if m.len() == 0 {
        Seq::empty()
    } else {
        formula_text(m.drop_last()) + elem_text(m.last())
    }
}

/// Writes `molecule` as a formula.
pub fn molecule_to_string(molecule: &Molecule) -> (s: String)
    ensures
        s@ == formula_text(molecule.deep_view()),
{
    let mut s = String::new();
    let ghost m = molecule.deep_view();
    let mut k: usize = 0;
    while k < molecule.len()
        invariant
            k <= molecule.len(),
            m == molecule.deep_view(),
            s@ == formula_text(m.take(k as int)),
        decreases molecule.len() - k,
    {
        proof {
            assert(m.take(k + 1).drop_last() =~= m.take(k as int));
            assert(m.take(k + 1).last() == molecule[k as int]@);
        }
        s.append(molecule[k].name.as_str());
        if molecule[k].coef > 1 {
            push_decimal(&mut s, molecule[k].coef);
        }
        k += 1;
        assert(s@ =~= formula_text(m.take(k as int)));
    }
    assert(m.take(k as int) =~= m);
    s
}

/// Whether the elements of `m` lie one after the other, without overlap,
/// between the byte offsets `lo` and `hi`, and there is at least one.
pub open spec fn laid_out(m: Seq<ElemView>, lo: nat, hi: nat) -> bool {
    &&& m.len() > 0
    &&& forall|i: int|
        0 <= i < m.len() ==> lo <= (#[trigger] m[i]).pos && m[i].pos + m[i].len <= hi
    &&& forall|i: int, j: int|
        0 <= i < j < m.len() ==> (#[trigger] m[i]).pos + m[i].len <= (#[trigger] m[j]).pos
}

/// Whether every molecule of `side` has an element, and its elements lie one
/// after the other below the byte offset `hi`.
pub open spec fn side_laid_out(side: Seq<Seq<ElemView>>, hi: nat) -> bool {
    &&& side.len() > 0
    &&& forall|k: int| 0 <= k < side.len() ==> laid_out(#[trigger] side[k], 0, hi)
}

/// Whether the molecule has an element, and the part of the text from its
/// first element to the end of its last can be given as offset and length.
pub open spec fn has_span(m: Seq<ElemView>) -> bool {
    m.len() > 0 && m[0].pos <= m.last().pos + m.last().len <= usize::MAX
}

/// The part of the text that the molecule takes: from its first element to
/// the end of its last.
pub open spec fn span_of(m: Seq<ElemView>) -> (usize, usize) {
    (m[0].pos as usize, (m.last().pos + m.last().len - m[0].pos) as usize)
}

/// Whether both sides have a molecule, the molecules can be counted, and
/// every molecule has a span.
pub open spec fn well_formed(lhs: Seq<Seq<ElemView>>, rhs: Seq<Seq<ElemView>>) -> bool {
    &&& lhs.len() > 0
    &&& rhs.len() > 0
    &&& lhs.len() + rhs.len() <= usize::MAX
    &&& forall|j: int| 0 <= j < lhs.len() ==> has_span(#[trigger] lhs[j])
    &&& forall|j: int| 0 <= j < rhs.len() ==> has_span(#[trigger] rhs[j])
}

/// A molecule whose elements are laid out has a span.
pub proof fn lemma_laid_out_has_span(m: Seq<ElemView>)
    requires
        laid_out(m, 0, usize::MAX as nat),
    ensures
        has_span(m),
{
    if m.len() > 1 {
        assert(m[0].pos + m[0].len <= m[m.len() - 1].pos);
    }
}

/// Sides whose molecules are laid out, and few enough to be counted, make a
/// well-formed reaction.
pub proof fn lemma_laid_out_well_formed(lhs: Seq<Seq<ElemView>>, rhs: Seq<Seq<ElemView>>)
    requires
        side_laid_out(lhs, usize::MAX as nat),
        side_laid_out(rhs, usize::MAX as nat),
        lhs.len() + rhs.len() <= usize::MAX,
    ensures
        well_formed(lhs, rhs),
{
    assert forall|j: int| 0 <= j < lhs.len() implies has_span(#[trigger] lhs[j]) by {
        lemma_laid_out_has_span(lhs[j]);
    }
    assert forall|j: int| 0 <= j < rhs.len() implies has_span(#[trigger] rhs[j]) by {
        lemma_laid_out_has_span(rhs[j]);
    }
}

} // verus!
