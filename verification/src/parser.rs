//! Parsing of molecules and chemical reactions.
//!
//! The grammar, with `S` one side of a reaction, `M` a molecule, `P` an element
//! with maybe a coefficient, `E` an element and `C` a coefficient:
//!
//! ```text
//! R --> S -> S
//! S --> M + S | M
//! M --> PM | P
//! P --> EC | E
//! E --> <text> | (M)
//! C --> <number>
//! ```
//!
//! What each parsing function does is stated by a function of the input text
//! and the place in it: `reaction_at`, `side_at`, `molecule_at` and so on.

use crate::elem::{
    laid_out, lemma_laid_out_well_formed, side_laid_out, well_formed, ElemView, Molecule, PerElem,
};
use crate::error::{CTError, CTErrorKind, CTResult, ErrorView};
use crate::text::{
    bounded_value, byte_len, byte_offset, char_is_alphabetic, char_is_numeric, char_is_uppercase,
    char_is_whitespace, char_width, holds, in_class, is_alphabetic, is_numeric, is_uppercase,
    is_whitespace, lemma_byte_offset_monotonic, lemma_byte_offset_step, lemma_run_end,
    parse_unsigned, run_end, string_of, to_chars, utf8_width, CharClass,
};
use vstd::prelude::*;

verus! {

/// Whether `c` may stand in a reaction.
pub open spec fn is_legal(c: char) -> bool {
    is_alphabetic(c) || is_numeric(c) || c == '+' || c == '-' || c == '>' || c == '(' || c == ')'
        || c == ' '
}

/// The error for a malformed input, which points at `len` bytes from `pos`.
pub open spec fn input_error(desc: Seq<char>, pos: nat, len: nat) -> ErrorView {
    ErrorView { kind: CTErrorKind::InputError, desc, pos: Some((pos as usize, len as usize)) }
}

/// What parsing from one place in a text gives: the value or the error, and
/// where the parser then stands and how many parentheses are open.
pub struct Parsed<T> {
    pub result: Result<T, ErrorView>,
    pub idx: nat,
    pub level: nat,
}

/// The number of bytes from the character `from` up to the character `to`.
pub open spec fn byte_span(s: Seq<char>, from: nat, to: nat) -> nat {
    (byte_offset(s, to as int) - byte_offset(s, from as int)) as nat
}

/// A coefficient at `idx`: the run of numeric characters there, read as a
/// decimal number of 32 bits.
pub open spec fn coefficient_at(s: Seq<char>, idx: nat, level: nat) -> Parsed<u32> {
    let end = run_end(s, idx, CharClass::Numeric);
    Parsed {
        result: match bounded_value(s.subrange(idx as int, end as int), u32::MAX as nat) {
            Some(n) => Ok(n as u32),
            None => Err(
                input_error(
                    "Could not parse coefficient"@,
                    byte_offset(s, idx as int),
                    byte_span(s, idx, end),
                ),
            ),
        },
        idx: end,
        level,
    }
}

/// The elements of `m` with their coefficients multiplied by `k`.
pub open spec fn scaled(m: Seq<ElemView>, k: nat) -> Seq<ElemView> {
    Seq::new(m.len(), |i: int| ElemView { coef: m[i].coef * k, ..m[i] })
}

/// Whether the coefficients of `m` multiplied by `k` fit in 32 bits.
pub open spec fn scale_fits(m: Seq<ElemView>, k: nat) -> bool {
    forall|i: int| 0 <= i < m.len() ==> (#[trigger] m[i]).coef * k <= u32::MAX
}

/// An element at `idx`: an uppercase letter followed by lowercase letters, or
/// a molecule in parentheses.
pub open spec fn element_at(s: Seq<char>, idx: nat, level: nat) -> Parsed<Seq<ElemView>>
    decreases s.len() - idx, 0nat,
{
    if idx >= s.len() {
        Parsed {
            result: Err(input_error("Found no periodic element"@, byte_offset(s, idx as int), 1)),
            idx,
            level,
        }
    } else if s[idx as int] == '(' {
        let inner = molecule_at(s, idx + 1, level + 1);
        match inner.result {
            Err(e) => inner,
            Ok(m) => if inner.idx < s.len() && s[inner.idx as int] == ')' {
                Parsed { result: Ok(m), idx: inner.idx + 1, level: (inner.level - 1) as nat }
            } else if inner.idx < s.len() {
                Parsed {
                    result: Err(
                        input_error(
                            "Missing closing parentheses"@,
                            byte_offset(s, inner.idx as int),
                            utf8_width(s[inner.idx as int]),
                        ),
                    ),
                    idx: inner.idx + 1,
                    level: inner.level,
                }
            } else {
                Parsed {
                    result: Err(
                        input_error(
                            "Missing closing parentheses"@,
                            (byte_offset(s, inner.idx as int) - 1) as nat,
                            1,
                        ),
                    ),
                    idx: inner.idx,
                    level: inner.level,
                }
            },
        }
    } else if is_uppercase(s[idx as int]) {
        let end = run_end(s, idx + 1, CharClass::Lowercase);
        Parsed {
            result: Ok(
                seq![
                    ElemView {
                        name: s.subrange(idx as int, end as int),
                        coef: 1,
                        pos: byte_offset(s, idx as int),
                        len: byte_span(s, idx, end),
                    },
                ],
            ),
            idx: end,
            level,
        }
    } else {
        Parsed {
            result: Err(
                input_error(
                    "Missing uppercase letter at the beginning of the element"@,
                    byte_offset(s, idx as int),
                    utf8_width(s[idx as int]),
                ),
            ),
            idx: idx + 1,
            level,
        }
    }
}

/// An element at `idx` and the coefficient that follows it, if one does. The
/// coefficient multiplies those of all elements that the element stands for.
pub open spec fn periodic_at(s: Seq<char>, idx: nat, level: nat) -> Parsed<Seq<ElemView>>
    decreases s.len() - idx, 1nat,
{
    let elem = element_at(s, idx, level);
    match elem.result {
        Err(e) => elem,
        Ok(m) => if elem.idx < s.len() && is_numeric(s[elem.idx as int]) {
            let coef = coefficient_at(s, elem.idx, elem.level);
            Parsed {
                result: match coef.result {
                    Err(e) => Err(e),
                    Ok(k) => if scale_fits(m, k as nat) {
                        Ok(scaled(m, k as nat))
                    } else {
                        Err(
                            input_error(
                                "Could not parse coefficient"@,
                                byte_offset(s, elem.idx as int),
                                byte_span(s, elem.idx, coef.idx),
                            ),
                        )
                    },
                },
                idx: coef.idx,
                level: coef.level,
            }
        } else {
            elem
        },
    }
}

/// A molecule at `idx`: elements with their coefficients, one after the other
/// without anything between them. After the last of them the text ends, or a
/// character follows that may stand in a reaction; a closing parenthesis only
/// if one is open.
pub open spec fn molecule_at(s: Seq<char>, idx: nat, level: nat) -> Parsed<Seq<ElemView>>
    decreases s.len() - idx, 2nat,
{
    let first = periodic_at(s, idx, level);
    match first.result {
        Err(e) => first,
        Ok(m) => {
            // An element takes at least one character, so `idx < first.idx`
            // always holds here; it is stated for the recursion to be seen to end.
            let rest = if idx < first.idx < s.len() && (is_alphabetic(s[first.idx as int])
                || s[first.idx as int] == '(') {
                molecule_at(s, first.idx, first.level)
            } else {
                Parsed { result: Ok(Seq::empty()), idx: first.idx, level: first.level }
            };
            match rest.result {
                Err(e) => rest,
                Ok(tail) => if rest.idx < s.len() && s[rest.idx as int] == ')' && rest.level
                    == 0 {
                    Parsed {
                        result: Err(
                            input_error(
                                "Missing opening parentheses"@,
                                byte_offset(s, rest.idx as int),
                                1,
                            ),
                        ),
                        ..rest
                    }
                } else if rest.idx < s.len() && !is_legal(s[rest.idx as int]) {
                    Parsed {
                        result: Err(
                            input_error(
                                "Unexpected character"@,
                                byte_offset(s, rest.idx as int),
                                utf8_width(s[rest.idx as int]),
                            ),
                        ),
                        ..rest
                    }
                } else {
                    Parsed { result: Ok(m + tail), ..rest }
                },
            }
        },
    }
}

/// What holds of every element: the parser never steps back nor beyond the
/// end; where it succeeds it has moved on, as many parentheses are open as
/// before, and the elements it gives lie in the part of the text it passed.
pub proof fn lemma_element_at(s: Seq<char>, idx: nat, level: nat)
    requires
        idx <= s.len(),
    ensures
        idx <= element_at(s, idx, level).idx <= s.len(),
        element_at(s, idx, level).result matches Ok(m) ==> {
            &&& idx < element_at(s, idx, level).idx
            &&& element_at(s, idx, level).level == level
            &&& laid_out(
                m,
                byte_offset(s, idx as int),
                byte_offset(s, element_at(s, idx, level).idx as int),
            )
        },
    decreases s.len() - idx, 0nat,
{
    if idx >= s.len() {
    } else if s[idx as int] == '(' {
        lemma_molecule_at(s, idx + 1, level + 1);
        let inner = molecule_at(s, idx + 1, level + 1);
        if inner.result is Ok && inner.idx < s.len() && s[inner.idx as int] == ')' {
            lemma_byte_offset_monotonic(s, idx as int, idx as int + 1);
            lemma_byte_offset_monotonic(s, inner.idx as int, inner.idx as int + 1);
        }
    } else if is_uppercase(s[idx as int]) {
        lemma_run_end(s, idx + 1, CharClass::Lowercase);
        let end = run_end(s, idx + 1, CharClass::Lowercase);
        lemma_byte_offset_monotonic(s, idx as int, end as int);
    } else {
    }
}

/// What holds of every element with its coefficient: see `lemma_element_at`.
pub proof fn lemma_periodic_at(s: Seq<char>, idx: nat, level: nat)
    requires
        idx <= s.len(),
    ensures
        idx <= periodic_at(s, idx, level).idx <= s.len(),
        periodic_at(s, idx, level).result matches Ok(m) ==> {
            &&& idx < periodic_at(s, idx, level).idx
            &&& periodic_at(s, idx, level).level == level
            &&& laid_out(
                m,
                byte_offset(s, idx as int),
                byte_offset(s, periodic_at(s, idx, level).idx as int),
            )
        },
    decreases s.len() - idx, 1nat,
{
    lemma_element_at(s, idx, level);
    let elem = element_at(s, idx, level);
    if elem.result is Ok && elem.idx < s.len() && is_numeric(s[elem.idx as int]) {
        lemma_run_end(s, elem.idx, CharClass::Numeric);
        let end = run_end(s, elem.idx, CharClass::Numeric);
        lemma_byte_offset_monotonic(s, elem.idx as int, end as int);
    }
}

/// What holds of every molecule: see `lemma_element_at`.
pub proof fn lemma_molecule_at(s: Seq<char>, idx: nat, level: nat)
    requires
        idx <= s.len(),
    ensures
        idx <= molecule_at(s, idx, level).idx <= s.len(),
        molecule_at(s, idx, level).result matches Ok(m) ==> {
            &&& idx < molecule_at(s, idx, level).idx
            &&& molecule_at(s, idx, level).level == level
            &&& laid_out(
                m,
                byte_offset(s, idx as int),
                byte_offset(s, molecule_at(s, idx, level).idx as int),
            )
        },
    decreases s.len() - idx, 2nat,
{
    lemma_periodic_at(s, idx, level);
    let first = periodic_at(s, idx, level);
    if first.result is Ok {
        if first.idx < s.len() && (is_alphabetic(s[first.idx as int]) || s[first.idx as int]
            == '(') {
            lemma_molecule_at(s, first.idx, first.level);
            let rest = molecule_at(s, first.idx, first.level);
            if rest.result is Ok {
                let m = first.result->Ok_0;
                let tail = rest.result->Ok_0;
                let all = m + tail;
                lemma_byte_offset_monotonic(s, idx as int, first.idx as int);
                lemma_byte_offset_monotonic(s, first.idx as int, rest.idx as int);
                assert forall|i: int, j: int| 0 <= i < j < all.len() implies (
                #[trigger] all[i]).pos + all[i].len <= (#[trigger] all[j]).pos by {
                    if j < m.len() {
                    } else if i < m.len() {
                        assert(all[j] == tail[j - m.len()]);
                    } else {
                        assert(all[i] == tail[i - m.len()]);
                        assert(all[j] == tail[j - m.len()]);
                    }
                }
                assert forall|i: int| 0 <= i < all.len() implies byte_offset(s, idx as int) <= (
                #[trigger] all[i]).pos && all[i].pos + all[i].len <= byte_offset(
                    s,
                    rest.idx as int,
                ) by {
                    if i >= m.len() {
                        assert(all[i] == tail[i - m.len()]);
                    }
                }
            }
        } else {
            assert(first.result->Ok_0 + Seq::<ElemView>::empty() =~= first.result->Ok_0);
        }
    }
}

/// One side of a reaction at `idx`: molecules with `+` between them, and
/// whitespace where one likes around each `+`.
pub open spec fn side_at(s: Seq<char>, idx: nat, level: nat) -> Parsed<Seq<Seq<ElemView>>>
    decreases s.len() - idx,
{
    let first = molecule_at(s, idx, level);
    match first.result {
        Err(e) => Parsed { result: Err(e), idx: first.idx, level: first.level },
        Ok(m) => {
            let plus = run_end(s, first.idx, CharClass::Whitespace);
            if plus < s.len() && s[plus as int] == '+' {
                let next = run_end(s, plus + 1, CharClass::Whitespace);
                proof {
                    // Without a character at `idx` there is no molecule.
                    assert(idx < s.len()) by {
                        if idx >= s.len() {
                            assert(element_at(s, idx, level).result is Err);
                            assert(periodic_at(s, idx, level).result is Err);
                        }
                    }
                    lemma_molecule_at(s, idx, level);
                    lemma_run_end(s, first.idx, CharClass::Whitespace);
                    lemma_run_end(s, plus + 1, CharClass::Whitespace);
                }
                let rest = side_at(s, next, first.level);
                match rest.result {
                    Err(e) => rest,
                    Ok(tail) => Parsed { result: Ok(seq![m] + tail), ..rest },
                }
            } else {
                Parsed { result: Ok(seq![m]), idx: plus, level: first.level }
            }
        },
    }
}

/// A reaction at `idx`: two sides with the arrow `->` between them, and
/// whitespace where one likes around the arrow.
pub open spec fn reaction_at(s: Seq<char>, idx: nat, level: nat) -> Parsed<
    (Seq<Seq<ElemView>>, Seq<Seq<ElemView>>),
> {
    let left = side_at(s, idx, level);
    match left.result {
        Err(e) => Parsed { result: Err(e), idx: left.idx, level: left.level },
        Ok(lhs) => {
            let arrow = run_end(s, left.idx, CharClass::Whitespace);
            if arrow + 1 < s.len() && s[arrow as int] == '-' && s[arrow as int + 1] == '>' {
                let right = side_at(
                    s,
                    run_end(s, arrow + 2, CharClass::Whitespace),
                    left.level,
                );
                match right.result {
                    Err(e) => Parsed { result: Err(e), idx: right.idx, level: right.level },
                    Ok(rhs) => Parsed {
                        result: Ok((lhs, rhs)),
                        idx: right.idx,
                        level: right.level,
                    },
                }
            } else {
                Parsed {
                    result: Err(
                        input_error(
                            "Missing arrow (->) in chemical reaction"@,
                            byte_offset(s, arrow as int),
                            1,
                        ),
                    ),
                    idx: arrow,
                    level: left.level,
                }
            }
        },
    }
}

/// What holds of every side: the parser never steps back nor beyond the end;
/// where it succeeds it has moved on, as many parentheses are open as before,
/// there is at least one molecule and at most one for each character passed,
/// and each molecule has its elements laid out within the text.
pub proof fn lemma_side_at(s: Seq<char>, idx: nat, level: nat)
    requires
        idx <= s.len(),
    ensures
        idx <= side_at(s, idx, level).idx <= s.len(),
        side_at(s, idx, level).result matches Ok(side) ==> {
            &&& idx < side_at(s, idx, level).idx
            &&& side_at(s, idx, level).level == level
            &&& side_laid_out(side, byte_len(s))
            &&& side.len() <= side_at(s, idx, level).idx - idx
        },
    decreases s.len() - idx,
{
    lemma_molecule_at(s, idx, level);
    let first = molecule_at(s, idx, level);
    if first.result is Ok {
        let m = first.result->Ok_0;
        lemma_byte_offset_monotonic(s, 0, idx as int);
        lemma_byte_offset_monotonic(s, 0, first.idx as int);
        assert(laid_out(m, 0, byte_len(s)));
        lemma_run_end(s, first.idx, CharClass::Whitespace);
        let plus = run_end(s, first.idx, CharClass::Whitespace);
        if plus < s.len() && s[plus as int] == '+' {
            lemma_run_end(s, plus + 1, CharClass::Whitespace);
            let next = run_end(s, plus + 1, CharClass::Whitespace);
            lemma_side_at(s, next, first.level);
            let rest = side_at(s, next, first.level);
            if rest.result is Ok {
                let tail = rest.result->Ok_0;
                let all = seq![m] + tail;
                assert forall|k: int| 0 <= k < all.len() implies laid_out(
                    #[trigger] all[k],
                    0,
                    byte_len(s),
                ) by {
                    if k > 0 {
                        assert(all[k] == tail[k - 1]);
                    }
                }
            }
        } else {
            assert(seq![m][0] == m);
        }
    }
}

/// What holds of every reaction: see `lemma_side_at`.
pub proof fn lemma_reaction_at(s: Seq<char>, idx: nat, level: nat)
    requires
        idx <= s.len(),
    ensures
        idx <= reaction_at(s, idx, level).idx <= s.len(),
        reaction_at(s, idx, level).result matches Ok(sides) ==> {
            &&& idx < reaction_at(s, idx, level).idx
            &&& reaction_at(s, idx, level).level == level
            &&& side_laid_out(sides.0, byte_len(s))
            &&& side_laid_out(sides.1, byte_len(s))
            &&& sides.0.len() + sides.1.len() <= reaction_at(s, idx, level).idx - idx
        },
{
    lemma_side_at(s, idx, level);
    let left = side_at(s, idx, level);
    if left.result is Ok {
        lemma_run_end(s, left.idx, CharClass::Whitespace);
        let arrow = run_end(s, left.idx, CharClass::Whitespace);
        if arrow + 1 < s.len() && s[arrow as int] == '-' && s[arrow as int + 1] == '>' {
            lemma_run_end(s, arrow + 2, CharClass::Whitespace);
            lemma_side_at(s, run_end(s, arrow + 2, CharClass::Whitespace), left.level);
        }
    }
}

/// Where a parser stands: the index of the next character, the byte offset
/// of that character, and the number of parentheses that are open.
#[derive(Clone, Copy)]
struct Cursor {
    idx: usize,
    pos: usize,
    level: usize,
}

/// A parser over one input text.
pub struct Parser {
    chars: Vec<char>,
    cur: Cursor,
}

/// A parser as a mathematical value: the text, the index of the next
/// character, and the number of parentheses that are open.
pub struct ParserView {
    pub input: Seq<char>,
    pub idx: nat,
    pub level: nat,
}

impl View for Parser {
    type V = ParserView;

    closed spec fn view(&self) -> ParserView {
        ParserView {
            input: self.chars@,
            idx: self.cur.idx as nat,
            level: self.cur.level as nat,
        }
    }
}

/// Whether the parser `after` is `before` moved to where `p` says.
pub open spec fn moved_to<T>(before: ParserView, after: ParserView, p: Parsed<T>) -> bool {
    after == (ParserView { input: before.input, idx: p.idx, level: p.level })
}

/// The result of parsing a molecule as a mathematical value.
pub open spec fn molecule_result(r: CTResult<Molecule>) -> Result<Seq<ElemView>, ErrorView> {
    match r {
        Ok(m) => Ok(m.deep_view()),
        Err(e) => Err(e@),
    }
}

/// The result of parsing one side of a reaction as a mathematical value.
pub open spec fn side_result(r: CTResult<Vec<Molecule>>) -> Result<
    Seq<Seq<ElemView>>,
    ErrorView,
> {
    match r {
        Ok(side) => Ok(side.deep_view()),
        Err(e) => Err(e@),
    }
}

/// The result of parsing a reaction as a mathematical value.
pub open spec fn reaction_result(r: CTResult<(Vec<Molecule>, Vec<Molecule>)>) -> Result<
    (Seq<Seq<ElemView>>, Seq<Seq<ElemView>>),
    ErrorView,
> {
    match r {
        Ok(sides) => Ok((sides.0.deep_view(), sides.1.deep_view())),
        Err(e) => Err(e@),
    }
}

fn input_err(desc: &str, pos: usize, len: usize) -> (e: CTError)
    ensures
        e@ == input_error(desc@, pos as nat, len as nat),
{
    CTError::new(CTErrorKind::InputError, desc, Some((pos, len)))
}

/// The elements of `m` with their coefficients multiplied by `k`, if all of
/// the products fit in 32 bits.
fn scale(m: Vec<PerElem>, k: u32) -> (r: Option<Vec<PerElem>>)
    ensures
        r is Some <==> scale_fits(m.deep_view(), k as nat),
        r matches Some(out) ==> out.deep_view() == scaled(m.deep_view(), k as nat),
{
    let mut out: Vec<PerElem> = Vec::new();
    let mut i: usize = 0;
    while i < m.len()
        invariant
            i <= m.len(),
            out.len() == i,
            forall|j: int|
                0 <= j < i ==> (#[trigger] m.deep_view()[j]).coef * k <= u32::MAX
                    && out.deep_view()[j] == scaled(m.deep_view(), k as nat)[j],
        decreases m.len() - i,
    {
        assert(m[i as int].coef * k <= u32::MAX * u32::MAX) by (nonlinear_arith)
            requires
                m[i as int].coef <= u32::MAX,
                k <= u32::MAX,
        ;
        let product: u64 = m[i].coef as u64 * k as u64;
        assert(product == m.deep_view()[i as int].coef * k);
        if product > u32::MAX as u64 {
            return None;
        }
        let e = PerElem {
            name: m[i].name.clone(),
            coef: product as u32,
            pos: m[i].pos,
            len: m[i].len,
        };
        out.push(e);
        i += 1;
    }
    assert(out.deep_view() =~= scaled(m.deep_view(), k as nat));
    Some(out)
}

impl Parser {
    #[verifier::type_invariant]
    spec fn in_text(&self) -> bool {
        &&& self.cur.idx <= self.chars.len()
        &&& self.cur.pos == byte_offset(self.chars@, self.cur.idx as int)
        &&& self.cur.level <= self.cur.idx
        &&& byte_len(self.chars@) <= usize::MAX
    }

    /// A parser that stands at the beginning of `input`.
    pub fn new(input: &str) -> (p: Parser)
        ensures
            p@ == (ParserView { input: input@, idx: 0, level: 0 }),
    {
        let chars = to_chars(input);
        let size = input.as_bytes().len();
        proof {
            lemma_byte_offset_monotonic(chars@, 0, 0);
            assert(size == byte_len(chars@));
        }
        Parser { chars, cur: Cursor { idx: 0, pos: 0, level: 0 } }
    }

    /// Whether nothing is left to parse but whitespace.
    pub fn is_done(&self) -> (done: bool)
        ensures
            done == forall|i: int|
                self@.idx <= i < self@.input.len() ==> is_whitespace(#[trigger] self@.input[i]),
    {
        proof {
            use_type_invariant(self);
        }
        let mut i: usize = self.cur.idx;
        while i < self.chars.len()
            invariant
                self.cur.idx <= i <= self.chars.len(),
                forall|j: int| self.cur.idx <= j < i ==> is_whitespace(#[trigger] self.chars@[j]),
            decreases self.chars.len() - i,
        {
            if !char_is_whitespace(self.chars[i]) {
                assert(!is_whitespace(self@.input[i as int]));
                return false;
            }
            i += 1;
        }
        true
    }

    fn eof(&self) -> (end: bool)
        ensures
            end == (self@.idx >= self@.input.len()),
    {
        proof {
            use_type_invariant(self);
        }
        self.cur.idx >= self.chars.len()
    }

    fn peek_char(&self) -> (c: char)
        requires
            self@.idx < self@.input.len(),
        ensures
            c == self@.input[self@.idx as int],
    {
        self.chars[self.cur.idx]
    }

    /// The byte offset of the next character.
    fn offset(&self) -> (pos: usize)
        ensures
            pos == byte_offset(self@.input, self@.idx as int),
            self@.idx <= self@.input.len(),
            self@.idx <= pos <= byte_len(self@.input) <= usize::MAX,
    {
        proof {
            use_type_invariant(self);
            lemma_byte_offset_monotonic(self.chars@, 0, self.cur.idx as int);
        }
        self.cur.pos
    }

    fn consume_char(&mut self) -> (c: char)
        requires
            old(self)@.idx < old(self)@.input.len(),
        ensures
            c == old(self)@.input[old(self)@.idx as int],
            final(self)@ == (ParserView { idx: old(self)@.idx + 1, ..old(self)@ }),
    {
        proof {
            use_type_invariant(&*self);
            lemma_byte_offset_step(self.chars@, self.cur.idx as int);
            lemma_byte_offset_monotonic(self.chars@, self.cur.idx as int, self.cur.idx + 1);
        }
        let c = self.chars[self.cur.idx];
        self.cur = Cursor {
            idx: self.cur.idx + 1,
            pos: self.cur.pos + char_width(c),
            level: self.cur.level,
        };
        c
    }

    fn on_class(&self, class: CharClass) -> (on: bool)
        requires
            self@.idx < self@.input.len(),
        ensures
            on == in_class(class, self@.input[self@.idx as int]),
    {
        holds(class, self.peek_char())
    }

    fn consume_while(&mut self, class: CharClass)
        ensures
            final(self)@ == (ParserView {
                idx: run_end(old(self)@.input, old(self)@.idx, class),
                ..old(self)@
            }),
    {
        while !self.eof() && self.on_class(class)
            invariant
                self@.input == old(self)@.input,
                self@.level == old(self)@.level,
                run_end(self@.input, self@.idx, class) == run_end(
                    old(self)@.input,
                    old(self)@.idx,
                    class,
                ),
            decreases self@.input.len() - self@.idx,
        {
            self.consume_char();
        }
    }

    fn consume_whitespace(&mut self)
        ensures
            final(self)@ == (ParserView {
                idx: run_end(old(self)@.input, old(self)@.idx, CharClass::Whitespace),
                ..old(self)@
            }),
    {
        self.consume_while(CharClass::Whitespace);
    }

    fn on_legal_char(&self) -> (legal: bool)
        requires
            self@.idx < self@.input.len(),
        ensures
            legal == is_legal(self@.input[self@.idx as int]),
    {
        let c = self.peek_char();
        char_is_alphabetic(c) || char_is_numeric(c) || c == '+' || c == '-' || c == '>' || c
            == '(' || c == ')' || c == ' '
    }

    fn parse_coefficient(&mut self) -> (r: CTResult<u32>)
        ensures
            moved_to(
                old(self)@,
                final(self)@,
                coefficient_at(old(self)@.input, old(self)@.idx, old(self)@.level),
            ),
            match r {
                Ok(k) => coefficient_at(old(self)@.input, old(self)@.idx, old(self)@.level).result
                    == Ok::<u32, ErrorView>(k),
                Err(e) => coefficient_at(old(self)@.input, old(self)@.idx, old(self)@.level).result
                    == Err::<u32, ErrorView>(e@),
            },
    {
        let start_idx = self.cur.idx;
        let start_pos = self.offset();
        self.consume_while(CharClass::Numeric);
        let end_pos = self.offset();
        proof {
            use_type_invariant(&*self);
            lemma_run_end(self.chars@, start_idx as nat, CharClass::Numeric);
            lemma_byte_offset_monotonic(self.chars@, start_idx as int, self.cur.idx as int);
        }
        match parse_unsigned(&self.chars, start_idx, self.cur.idx, u32::MAX) {
            Some(num) => Ok(num),
            None => Err(input_err("Could not parse coefficient", start_pos, end_pos - start_pos)),
        }
    }

    fn parse_element(&mut self) -> (r: CTResult<Vec<PerElem>>)
        ensures
            moved_to(
                old(self)@,
                final(self)@,
                element_at(old(self)@.input, old(self)@.idx, old(self)@.level),
            ),
            molecule_result(r) == element_at(
                old(self)@.input,
                old(self)@.idx,
                old(self)@.level,
            ).result,
        decreases old(self)@.input.len() - old(self)@.idx, 0nat,
    {
        let ghost s = self@.input;
        let ghost idx = self@.idx;
        let ghost level = self@.level;
        let start_pos = self.offset();
        if self.eof() {
            return Err(input_err("Found no periodic element", start_pos, 1));
        }
        proof {
            use_type_invariant(&*self);
        }
        let start_idx = self.cur.idx;
        let open_level = self.cur.level;
        let first = self.consume_char();
        if first == '(' {
            proof {
                use_type_invariant(&*self);
            }
            self.cur = Cursor { level: open_level + 1, ..self.cur };
            proof {
                lemma_molecule_at(s, idx + 1, level + 1);
            }
            let molecule = match self.parse_molecule() {
                Ok(m) => m,
                Err(e) => {
                    return Err(e);
                },
            };
            let close_pos = self.offset();
            if self.eof() {
                Err(input_err("Missing closing parentheses", close_pos - 1, 1))
            } else {
                let close = self.consume_char();
                if close != ')' {
                    Err(input_err("Missing closing parentheses", close_pos, char_width(close)))
                } else {
                    proof {
                        use_type_invariant(&*self);
                    }
                    self.cur = Cursor { level: self.cur.level - 1, ..self.cur };
                    Ok(molecule)
                }
            }
        } else if char_is_uppercase(first) {
            self.consume_while(CharClass::Lowercase);
            let end_pos = self.offset();
            proof {
                use_type_invariant(&*self);
                lemma_run_end(s, idx + 1, CharClass::Lowercase);
                lemma_byte_offset_monotonic(s, idx as int, self.cur.idx as int);
            }
            let name = string_of(&self.chars, start_idx, self.cur.idx);
            let mut out: Vec<PerElem> = Vec::new();
            out.push(PerElem { name, coef: 1, pos: start_pos, len: end_pos - start_pos });
            assert(out.deep_view() =~= element_at(s, idx, level).result->Ok_0);
            Ok(out)
        } else {
            Err(
                input_err(
                    "Missing uppercase letter at the beginning of the element",
                    start_pos,
                    char_width(first),
                ),
            )
        }
    }

    fn parse_periodic(&mut self) -> (r: CTResult<Vec<PerElem>>)
        ensures
            moved_to(
                old(self)@,
                final(self)@,
                periodic_at(old(self)@.input, old(self)@.idx, old(self)@.level),
            ),
            molecule_result(r) == periodic_at(
                old(self)@.input,
                old(self)@.idx,
                old(self)@.level,
            ).result,
        decreases old(self)@.input.len() - old(self)@.idx, 1nat,
    {
        let ghost s = self@.input;
        let elem = match self.parse_element() {
            Ok(m) => m,
            Err(e) => {
                return Err(e);
            },
        };
        if !self.eof() && char_is_numeric(self.peek_char()) {
            let ghost at = self@.idx;
            let start_pos = self.offset();
            match self.parse_coefficient() {
                Err(e) => Err(e),
                Ok(coef) => {
                    let end_pos = self.offset();
                    proof {
                        lemma_run_end(s, at, CharClass::Numeric);
                        lemma_byte_offset_monotonic(s, at as int, self@.idx as int);
                    }
                    match scale(elem, coef) {
                        Some(m) => Ok(m),
                        None => Err(
                            input_err("Could not parse coefficient", start_pos, end_pos - start_pos),
                        ),
                    }
                },
            }
        } else {
            Ok(elem)
        }
    }

    /// Parses a single molecule, in which no whitespace may stand. More may
    /// follow the molecule in the text.
    pub fn parse_molecule(&mut self) -> (r: CTResult<Molecule>)
        ensures
            moved_to(
                old(self)@,
                final(self)@,
                molecule_at(old(self)@.input, old(self)@.idx, old(self)@.level),
            ),
            molecule_result(r) == molecule_at(
                old(self)@.input,
                old(self)@.idx,
                old(self)@.level,
            ).result,
            r matches Ok(m) ==> laid_out(m.deep_view(), 0, usize::MAX as nat),
        decreases old(self)@.input.len() - old(self)@.idx, 2nat,
    {
        let ghost s = self@.input;
        let ghost idx = self@.idx;
        let ghost level = self@.level;
        let start_pos = self.offset();
        proof {
            lemma_periodic_at(s, idx, level);
            lemma_molecule_at(s, idx, level);
        }
        let mut out = match self.parse_periodic() {
            Ok(m) => m,
            Err(e) => {
                return Err(e);
            },
        };
        let ghost first = out.deep_view();
        if !self.eof() {
            let c = self.peek_char();
            if char_is_alphabetic(c) || c == '(' {
                let mut molecule = match self.parse_molecule() {
                    Ok(m) => m,
                    Err(e) => {
                        return Err(e);
                    },
                };
                let ghost tail = molecule.deep_view();
                out.append(&mut molecule);
                assert(out.deep_view() =~= first + tail);
            }
        }
        assert(first + Seq::<ElemView>::empty() =~= first);
        let end_pos = self.offset();
        proof {
            use_type_invariant(&*self);
        }
        if !self.eof() && self.peek_char() == ')' && self.cur.level == 0 {
            Err(input_err("Missing opening parentheses", end_pos, 1))
        } else if !self.eof() && !self.on_legal_char() {
            Err(input_err("Unexpected character", end_pos, char_width(self.peek_char())))
        } else {
            Ok(out)
        }
    }

    /// Parses one side of a reaction. More may follow it in the text.
    pub fn parse_side(&mut self) -> (r: CTResult<Vec<Molecule>>)
        ensures
            moved_to(
                old(self)@,
                final(self)@,
                side_at(old(self)@.input, old(self)@.idx, old(self)@.level),
            ),
            side_result(r) == side_at(old(self)@.input, old(self)@.idx, old(self)@.level).result,
            r matches Ok(side) ==> side_laid_out(side.deep_view(), usize::MAX as nat),
        decreases old(self)@.input.len() - old(self)@.idx,
    {
        let ghost s = self@.input;
        let ghost idx = self@.idx;
        let ghost level = self@.level;
        let start_pos = self.offset();
        proof {
            lemma_molecule_at(s, idx, level);
            lemma_side_at(s, idx, level);
        }
        let mut out: Vec<Molecule> = Vec::new();
        let molecule = match self.parse_molecule() {
            Ok(m) => m,
            Err(e) => {
                return Err(e);
            },
        };
        let ghost m = molecule.deep_view();
        out.push(molecule);
        assert(out.deep_view() =~= seq![m]);
        proof {
            lemma_run_end(s, self@.idx, CharClass::Whitespace);
        }
        self.consume_whitespace();
        if !self.eof() && self.peek_char() == '+' {
            self.consume_char();
            proof {
                lemma_run_end(s, self@.idx, CharClass::Whitespace);
            }
            self.consume_whitespace();
            let mut rest = match self.parse_side() {
                Ok(side) => side,
                Err(e) => {
                    return Err(e);
                },
            };
            let ghost tail = rest.deep_view();
            out.append(&mut rest);
            assert(out.deep_view() =~= seq![m] + tail);
        }
        Ok(out)
    }

    /// Parses a chemical reaction: two sides with an arrow between them.
    pub fn parse_reaction(&mut self) -> (r: CTResult<(Vec<Molecule>, Vec<Molecule>)>)
        ensures
            moved_to(
                old(self)@,
                final(self)@,
                reaction_at(old(self)@.input, old(self)@.idx, old(self)@.level),
            ),
            reaction_result(r) == reaction_at(
                old(self)@.input,
                old(self)@.idx,
                old(self)@.level,
            ).result,
            r matches Ok(sides) ==> well_formed(sides.0.deep_view(), sides.1.deep_view()),
    {
        let ghost s = self@.input;
        let ghost idx = self@.idx;
        let ghost level = self@.level;
        let start_pos = self.offset();
        proof {
            lemma_side_at(s, idx, level);
        }
        let lhs = match self.parse_side() {
            Ok(side) => side,
            Err(e) => {
                return Err(e);
            },
        };
        proof {
            lemma_run_end(s, self@.idx, CharClass::Whitespace);
        }
        self.consume_whitespace();
        let arrow_pos = self.offset();
        proof {
            use_type_invariant(&*self);
        }
        if self.chars.len() - self.cur.idx < 2 || self.chars[self.cur.idx] != '-'
            || self.chars[self.cur.idx + 1] != '>' {
            return Err(input_err("Missing arrow (->) in chemical reaction", arrow_pos, 1));
        }
        self.consume_char();
        self.consume_char();
        proof {
            lemma_run_end(s, self@.idx, CharClass::Whitespace);
        }
        self.consume_whitespace();
        let rhs = match self.parse_side() {
            Ok(side) => side,
            Err(e) => {
                return Err(e);
            },
        };
        proof {
            lemma_reaction_at(s, idx, level);
            assert(lhs.deep_view().len() == lhs.len());
            assert(rhs.deep_view().len() == rhs.len());
            assert(s.len() <= usize::MAX);
            lemma_laid_out_well_formed(lhs.deep_view(), rhs.deep_view());
        }
        Ok((lhs, rhs))
    }
}

} // verus!
