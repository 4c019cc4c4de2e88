//! The database of the elements.
//!
//! The database is a text with one element on each line:
//! `ShortName;Mass;LongName;AtomicNumber`. The mass is kept as it is written;
//! it is known to be the text of a floating-point number.

use crate::elem::{ElemView, Molecule, PerElem};
use crate::error::{CTError, CTErrorKind, CTResult, ErrorView};
use crate::text::{
    bounded_value, char_is_whitespace, is_digit, is_whitespace, parse_unsigned,
    run_end, string_of, to_chars, CharClass,
};
use vstd::prelude::*;

verus! {

/// What the database holds of one element.
#[derive(Debug, PartialEq)]
pub struct ElemData {
    pub short_name: String,
    pub long_name: String,
    /// The atomic mass as the database writes it.
    pub mass: String,
    pub atomic_num: u16,
}

/// An `ElemData` as a mathematical value.
pub struct ElemDataView {
    pub short_name: Seq<char>,
    pub long_name: Seq<char>,
    pub mass: Seq<char>,
    pub atomic_num: u16,
}

impl View for ElemData {
    type V = ElemDataView;

    open spec fn view(&self) -> ElemDataView {
        ElemDataView {
            short_name: self.short_name@,
            long_name: self.long_name@,
            mass: self.mass@,
            atomic_num: self.atomic_num,
        }
    }
}

impl DeepView for ElemData {
    type V = ElemDataView;

    open spec fn deep_view(&self) -> ElemDataView {
        self@
    }
}

/// The part of `s` behind its last line break; all of `s` if it has none.
pub open spec fn last_fragment(s: Seq<char>) -> Seq<char>
    decreases s.len(),
{
    if s.len() == 0 || s.last() == '\n' {
        Seq::empty()
    } else {
        last_fragment(s.drop_last()).push(s.last())
    }
}

/// The lines of `s` that end with a line break, each without its break. What
/// follows the last line break is no line.
pub open spec fn lines_of(s: Seq<char>) -> Seq<Seq<char>>
    decreases s.len(),
{
    if s.len() == 0 {
        Seq::empty()
    } else if s.last() == '\n' {
        lines_of(s.drop_last()).push(last_fragment(s.drop_last()))
    } else {
        lines_of(s.drop_last())
    }
}

/// The fields of `line`: the parts between its semicolons. A line without a
/// semicolon is one field.
pub open spec fn fields_of(line: Seq<char>) -> Seq<Seq<char>>
    decreases line.len(),
{
    if line.len() == 0 {
        seq![Seq::empty()]
    } else {
        let before = fields_of(line.drop_last());
        if line.last() == ';' {
            before.push(Seq::empty())
        } else {
            before.update(before.len() - 1, before.last().push(line.last()))
        }
    }
}

/// `s` without the whitespace at its end.
pub open spec fn trim_end(s: Seq<char>) -> Seq<char>
    decreases s.len(),
{
    if s.len() > 0 && is_whitespace(s.last()) {
        trim_end(s.drop_last())
    } else {
        s
    }
}

/// `s` without the whitespace at its beginning and at its end.
pub open spec fn trimmed(s: Seq<char>) -> Seq<char> {
    let t = trim_end(s);
    t.skip(run_end(t, 0, CharClass::Whitespace) as int)
}

/// The index of the first semicolon of `line`, or its length if it has none.
pub open spec fn key_len(line: Seq<char>) -> nat
    decreases line.len(),
{
    if line.len() == 0 || line[0] == ';' {
        0
    } else {
        1 + key_len(line.drop_first())
    }
}

/// The key of a line: what stands before its first semicolon.
pub open spec fn key_of(line: Seq<char>) -> Seq<char> {
    line.take(key_len(line) as int)
}

/// The index at which the run of ASCII digits that starts at `i` ends.
pub open spec fn digits_end(s: Seq<char>, i: nat) -> nat
    decreases s.len() - i,
{
    if i < s.len() && is_digit(s[i as int]) {
        digits_end(s, i + 1)
    } else {
        i
    }
}

/// Whether `s` is `word`, written in letters of whatever case; `lower` and
/// `upper` are the word in lowercase and in uppercase letters.
pub open spec fn is_word(s: Seq<char>, lower: Seq<char>, upper: Seq<char>) -> bool {
    &&& s.len() == lower.len()
    &&& forall|i: int| 0 <= i < s.len() ==> #[trigger] s[i] == lower[i] || s[i] == upper[i]
}

/// Whether `s` is an exponent: the letter `e`, maybe a sign, and digits.
pub open spec fn is_exponent(s: Seq<char>) -> bool {
    &&& s.len() > 0
    &&& (s[0] == 'e' || s[0] == 'E')
    &&& {
        let from: nat = if s.len() > 1 && (s[1] == '+' || s[1] == '-') {
            2
        } else {
            1
        };
        from < s.len() && digits_end(s, from) == s.len()
    }
}

/// Whether `s` is a decimal number without sign: digits, maybe with a point
/// among, before or behind them, and maybe an exponent.
pub open spec fn is_number(s: Seq<char>) -> bool {
    let whole = digits_end(s, 0);
    let mantissa = if whole < s.len() && s[whole as int] == '.' {
        digits_end(s, whole + 1)
    } else {
        whole
    };
    let digits = if mantissa > whole {
        mantissa - whole - 1 + whole
    } else {
        whole as int
    };
    digits > 0 && (mantissa == s.len() || is_exponent(s.skip(mantissa as int)))
}

/// Whether `s` is the text of a floating-point number: maybe a sign, then a
/// decimal number or one of `inf`, `infinity` and `nan`.
pub open spec fn is_float_text(s: Seq<char>) -> bool {
    let body = if s.len() > 0 && (s[0] == '+' || s[0] == '-') {
        s.drop_first()
    } else {
        s
    };
    is_number(body) || is_word(body, "inf"@, "INF"@) || is_word(body, "infinity"@, "INFINITY"@)
        || is_word(body, "nan"@, "NAN"@)
}

/// An error of the database.
pub open spec fn database_error(desc: Seq<char>) -> ErrorView {
    ErrorView { kind: CTErrorKind::DatabaseError, desc, pos: None }
}

/// What the line `line` of the database says: four fields at least, the
/// second the text of a floating-point number, the fourth an unsigned number
/// of 16 bits.
pub open spec fn record_of(line: Seq<char>) -> Result<ElemDataView, ErrorView> {
    let data = fields_of(trimmed(line));
    if data.len() < 4 {
        Err(database_error("Missing field in database"@))
    } else if is_float_text(data[1]) && bounded_value(data[3], u16::MAX as nat) is Some {
        Ok(
            ElemDataView {
                short_name: data[0],
                long_name: data[2],
                mass: data[1],
                atomic_num: bounded_value(data[3], u16::MAX as nat)->0 as u16,
            },
        )
    } else {
        Err(database_error("Field in database corrupted"@))
    }
}

/// The index of the first line from `i` on whose key is `name`.
pub open spec fn find_record(lines: Seq<Seq<char>>, name: Seq<char>, i: int) -> Option<int>
    decreases lines.len() - i,
{
    if i >= lines.len() {
        None
    } else if key_of(lines[i]) == name {
        Some(i)
    } else {
        find_record(lines, name, i + 1)
    }
}

/// What the database with the lines `lines` holds of the element `name`:
/// what the first line with that key says.
pub open spec fn data_of(lines: Seq<Seq<char>>, name: Seq<char>) -> Result<
    ElemDataView,
    ErrorView,
> {
    match find_record(lines, name, 0) {
        Some(i) => record_of(lines[i]),
        None => Err(database_error("Could not find element: "@ + name)),
    }
}

/// What the database holds of the first `n` elements of `m`, in their order,
/// or the error for the first of them for which there is one.
pub open spec fn all_data(lines: Seq<Seq<char>>, m: Seq<ElemView>, n: nat) -> Result<
    Seq<ElemDataView>,
    ErrorView,
>
    decreases n,
{
    if n == 0 {
        Ok(Seq::empty())
    } else {
        match all_data(lines, m, (n - 1) as nat) {
            Err(e) => Err(e),
            Ok(before) => match data_of(lines, m[n - 1].name) {
                Err(e) => Err(e),
                Ok(data) => Ok(before.push(data)),
            },
        }
    }
}

/// The texts of the lines in `lines`.
pub open spec fn line_texts(lines: Seq<Vec<char>>) -> Seq<Seq<char>> {
    Seq::new(lines.len(), |i: int| lines[i]@)
}

/// The database of the elements, read from a text.
pub struct ElemDatabase {
    lines: Vec<Vec<char>>,
}

impl View for ElemDatabase {
    type V = Seq<Seq<char>>;

    closed spec fn view(&self) -> Seq<Seq<char>> {
        line_texts(self.lines@)
    }
}

fn copy_chars(chars: &Vec<char>, start: usize, end: usize) -> (out: Vec<char>)
    requires
        start <= end <= chars.len(),
    ensures
        out@ == chars@.subrange(start as int, end as int),
{
    let mut out: Vec<char> = Vec::new();
    let mut i: usize = start;
    while i < end
        invariant
            start <= i <= end <= chars.len(),
            out@ == chars@.subrange(start as int, i as int),
        decreases end - i,
    {
        out.push(chars[i]);
        i += 1;
        assert(out@ =~= chars@.subrange(start as int, i as int));
    }
    out
}

/// The line without the whitespace at its beginning and at its end.
fn trim(line: &Vec<char>) -> (out: Vec<char>)
    ensures
        out@ == trimmed(line@),
{
    let mut end: usize = line.len();
    assert(line@.take(end as int) =~= line@);
    while end > 0 && char_is_whitespace(line[end - 1])
        invariant
            end <= line.len(),
            trim_end(line@) == trim_end(line@.take(end as int)),
        decreases end,
    {
        assert(line@.take(end as int).drop_last() =~= line@.take(end - 1));
        end -= 1;
    }
    let ghost t = line@.take(end as int);
    assert(trim_end(line@) == t);
    let mut start: usize = 0;
    while start < end && char_is_whitespace(line[start])
        invariant
            start <= end <= line.len(),
            t == line@.take(end as int),
            run_end(t, 0, CharClass::Whitespace) == run_end(t, start as nat, CharClass::Whitespace),
        decreases end - start,
    {
        start += 1;
    }
    let out = copy_chars(line, start, end);
    assert(out@ =~= t.skip(start as int));
    out
}

/// The fields of the line.
fn split_fields(line: &Vec<char>) -> (fields: Vec<Vec<char>>)
    ensures
        line_texts(fields@) == fields_of(line@),
{
    let mut fields: Vec<Vec<char>> = Vec::new();
    let mut current: Vec<char> = Vec::new();
    let mut i: usize = 0;
    assert(line_texts(fields@).push(current@) =~= fields_of(line@.take(0)));
    while i < line.len()
        invariant
            i <= line.len(),
            line_texts(fields@).push(current@) == fields_of(line@.take(i as int)),
        decreases line.len() - i,
    {
        let ghost before = fields_of(line@.take(i as int));
        proof {
            assert(line@.take(i + 1).drop_last() =~= line@.take(i as int));
            assert(line@.take(i + 1).last() == line@[i as int]);
        }
        if line[i] == ';' {
            let ghost done = line_texts(fields@);
            fields.push(current);
            current = Vec::new();
            assert(line_texts(fields@) =~= before);
            assert(line_texts(fields@).push(current@) =~= before.push(Seq::empty()));
        } else {
            current.push(line[i]);
            assert(line_texts(fields@).push(current@) =~= before.update(
                before.len() - 1,
                before.last().push(line@[i as int]),
            ));
        }
        i += 1;
    }
    assert(line@.take(i as int) =~= line@);
    let ghost done = line_texts(fields@);
    fields.push(current);
    assert(line_texts(fields@) =~= done.push(current@));
    fields
}

/// Whether the key of the line is `name`.
fn has_key(line: &Vec<char>, name: &Vec<char>) -> (b: bool)
    ensures
        b == (key_of(line@) == name@),
{
    let mut i: usize = 0;
    assert(line@.skip(0) =~= line@);
    while i < line.len() && line[i] != ';'
        invariant
            i <= line.len(),
            key_len(line@) == i + key_len(line@.skip(i as int)),
        decreases line.len() - i,
    {
        assert(line@.skip(i as int).drop_first() =~= line@.skip(i + 1));
        i += 1;
    }
    assert(key_len(line@) == i);
    if i != name.len() {
        assert(key_of(line@).len() == i);
        return false;
    }
    let mut k: usize = 0;
    while k < i
        invariant
            k <= i,
            i == name.len(),
            i <= line.len(),
            key_len(line@) == i,
            forall|j: int| 0 <= j < k ==> line@[j] == name@[j],
        decreases i - k,
    {
        if line[k] != name[k] {
            assert(key_of(line@)[k as int] != name@[k as int]);
            return false;
        }
        k += 1;
    }
    assert(key_of(line@) =~= name@);
    true
}

/// The index at which the run of ASCII digits of `s[.. end]` that starts at
/// `i` ends.
fn skip_digits(s: &Vec<char>, i: usize, end: usize) -> (r: usize)
    requires
        i <= end <= s.len(),
    ensures
        i <= r <= end,
        r == digits_end(s@.take(end as int), i as nat),
{
    let mut r: usize = i;
    while r < end && '0' <= s[r] && s[r] <= '9'
        invariant
            i <= r <= end <= s.len(),
            digits_end(s@.take(end as int), i as nat) == digits_end(s@.take(end as int), r as nat),
        decreases end - r,
    {
        r += 1;
    }
    r
}

/// Whether `s[start ..]` is the word that `lower` and `upper` spell.
fn spells(s: &Vec<char>, start: usize, lower: &str, upper: &str) -> (b: bool)
    requires
        start <= s.len(),
        lower@.len() == upper@.len(),
    ensures
        b == is_word(s@.skip(start as int), lower@, upper@),
{
    let low = to_chars(lower);
    let up = to_chars(upper);
    let ghost rest = s@.skip(start as int);
    if s.len() - start != low.len() {
        return false;
    }
    let mut i: usize = 0;
    while i < low.len()
        invariant
            i <= low.len(),
            start <= s.len(),
            low.len() == up.len(),
            s.len() - start == low.len(),
            low@ == lower@,
            up@ == upper@,
            rest == s@.skip(start as int),
            forall|j: int| 0 <= j < i ==> #[trigger] rest[j] == low@[j] || rest[j] == up@[j],
        decreases low.len() - i,
    {
        let c = s[start + i];
        assert(c == rest[i as int]);
        if c != low[i] && c != up[i] {
            return false;
        }
        i += 1;
    }
    true
}

/// Whether `s[start ..]` is a decimal number without sign.
fn number_at(s: &Vec<char>, start: usize) -> (b: bool)
    requires
        start <= s.len(),
    ensures
        b == is_number(s@.skip(start as int)),
{
    let ghost rest = s@.skip(start as int);
    let n: usize = s.len() - start;
    let body = copy_chars(s, start, s.len());
    assert(body@ =~= rest);
    assert(body@.take(n as int) =~= rest);
    let whole = skip_digits(&body, 0, n);
    let mantissa = if whole < n && body[whole] == '.' {
        skip_digits(&body, whole + 1, n)
    } else {
        whole
    };
    let has_digit = if mantissa > whole {
        mantissa - 1 > 0
    } else {
        whole > 0
    };
    if !has_digit {
        return false;
    }
    if mantissa == n {
        return true;
    }
    let ghost tail = rest.skip(mantissa as int);
    assert(tail.len() == n - mantissa);
    assert(tail[0] == body@[mantissa as int]);
    if body[mantissa] != 'e' && body[mantissa] != 'E' {
        return false;
    }
    let from: usize = if n - mantissa > 1 && (body[mantissa + 1] == '+' || body[mantissa + 1]
        == '-') {
        assert(tail[1] == body@[mantissa + 1]);
        2
    } else {
        if n - mantissa > 1 {
            assert(tail[1] == body@[mantissa + 1]);
        }
        1
    };
    if from >= n - mantissa {
        return false;
    }
    let exponent = copy_chars(&body, mantissa, n);
    assert(exponent@ =~= tail);
    assert(exponent@.take((n - mantissa) as int) =~= tail);
    let end = skip_digits(&exponent, from, n - mantissa);
    end == n - mantissa
}

/// Whether the field is the text of a floating-point number.
fn float_text(field: &Vec<char>) -> (b: bool)
    ensures
        b == is_float_text(field@),
{
    let start: usize = if field.len() > 0 && (field[0] == '+' || field[0] == '-') {
        1
    } else {
        0
    };
    assert(field@.skip(0) =~= field@);
    if field.len() > 0 {
        assert(field@.skip(1) =~= field@.drop_first());
    }
    proof {
        reveal_strlit("inf");
        reveal_strlit("INF");
        reveal_strlit("infinity");
        reveal_strlit("INFINITY");
        reveal_strlit("nan");
        reveal_strlit("NAN");
    }
    number_at(field, start) || spells(field, start, "inf", "INF") || spells(
        field,
        start,
        "infinity",
        "INFINITY",
    ) || spells(field, start, "nan", "NAN")
}

fn database_err(desc: &str) -> (e: CTError)
    ensures
        e@ == database_error(desc@),
{
    CTError::new(CTErrorKind::DatabaseError, desc, None)
}

/// Reads what a line of the database says of its element.
fn decode_line(line: &Vec<char>) -> (r: CTResult<ElemData>)
    ensures
        (match r {
            Ok(data) => Ok(data@),
            Err(e) => Err(e@),
        }) == record_of(line@),
{
    let data = split_fields(&trim(line));
    let ghost fields = fields_of(trimmed(line@));
    assert(line_texts(data@).len() == data.len());
    if data.len() < 4 {
        Err(database_err("Missing field in database"))
    } else {
        assert(fields[0] == data@[0]@ && fields[1] == data@[1]@ && fields[2] == data@[2]@
            && fields[3] == data@[3]@);
        assert(data@[0]@.subrange(0, data@[0]@.len() as int) =~= data@[0]@);
        assert(data@[1]@.subrange(0, data@[1]@.len() as int) =~= data@[1]@);
        assert(data@[2]@.subrange(0, data@[2]@.len() as int) =~= data@[2]@);
        assert(data@[3]@.subrange(0, data@[3]@.len() as int) =~= data@[3]@);
        let atomic_num = parse_unsigned(&data[3], 0, data[3].len(), 65535);
        match atomic_num {
            Some(an) => {
                if float_text(&data[1]) {
                    Ok(
                        ElemData {
                            short_name: string_of(&data[0], 0, data[0].len()),
                            long_name: string_of(&data[2], 0, data[2].len()),
                            mass: string_of(&data[1], 0, data[1].len()),
                            atomic_num: an as u16,
                        },
                    )
                } else {
                    Err(database_err("Field in database corrupted"))
                }
            },
            None => Err(database_err("Field in database corrupted")),
        }
    }
}

impl ElemDatabase {
    /// The database that the text `contents` holds.
    pub fn open(contents: &str) -> (db: ElemDatabase)
        ensures
            db@ == lines_of(contents@),
    {
        let chars = to_chars(contents);
        let mut lines: Vec<Vec<char>> = Vec::new();
        let mut current: Vec<char> = Vec::new();
        let mut i: usize = 0;
        assert(line_texts(lines@) =~= lines_of(chars@.take(0)));
        while i < chars.len()
            invariant
                i <= chars.len(),
                line_texts(lines@) == lines_of(chars@.take(i as int)),
                current@ == last_fragment(chars@.take(i as int)),
            decreases chars.len() - i,
        {
            proof {
                assert(chars@.take(i + 1).drop_last() =~= chars@.take(i as int));
                assert(chars@.take(i + 1).last() == chars@[i as int]);
            }
            if chars[i] == '\n' {
                let ghost done = line_texts(lines@);
                lines.push(current);
                current = Vec::new();
                assert(line_texts(lines@) =~= done.push(last_fragment(chars@.take(i as int))));
            } else {
                current.push(chars[i]);
            }
            i += 1;
        }
        assert(chars@.take(i as int) =~= chars@);
        ElemDatabase { lines }
    }

    /// What the database holds of the element `elem`.
    pub fn get_single_data(&self, elem: &PerElem) -> (r: CTResult<ElemData>)
        ensures
            (match r {
                Ok(data) => Ok(data@),
                Err(e) => Err(e@),
            }) == data_of(self@, elem@.name),
    {
        let name = to_chars(elem.name.as_str());
        let mut i: usize = 0;
        while i < self.lines.len()
            invariant
                i <= self.lines.len(),
                name@ == elem@.name,
                find_record(self@, elem@.name, 0) == find_record(self@, elem@.name, i as int),
            decreases self.lines.len() - i,
        {
            assert(self@[i as int] == self.lines@[i as int]@);
            if has_key(&self.lines[i], &name) {
                return decode_line(&self.lines[i]);
            }
            i += 1;
        }
        let mut desc = "Could not find element: ".to_owned();
        desc.append(elem.name.as_str());
        Err(CTError { kind: CTErrorKind::DatabaseError, desc, pos: None })
    }

    /// What the database holds of the elements of `elems`, in their order.
    pub fn get_data(&self, elems: &Molecule) -> (r: CTResult<Vec<ElemData>>)
        ensures
            (match r {
                Ok(data) => Ok(data.deep_view()),
                Err(e) => Err(e@),
            }) == all_data(self@, elems.deep_view(), elems.len() as nat),
    {
        let ghost m = elems.deep_view();
        let mut out: Vec<ElemData> = Vec::new();
        let mut k: usize = 0;
        assert(out.deep_view() =~= Seq::<ElemDataView>::empty());
        while k < elems.len()
            invariant
                k <= elems.len(),
                m == elems.deep_view(),
                all_data(self@, m, k as nat) == Ok::<Seq<ElemDataView>, ErrorView>(out.deep_view()),
            decreases elems.len() - k,
        {
            assert(m[k as int] == elems[k as int]@);
            let ghost before = out.deep_view();
            match self.get_single_data(&elems[k]) {
                Ok(data) => {
                    let ghost view = data@;
                    out.push(data);
                    assert(out.deep_view() =~= before.push(view));
                },
                Err(e) => {
                    proof {
                        lemma_all_data_err(self@, m, (k + 1) as nat, elems.len() as nat);
                    }
                    return Err(e);
                },
            }
            k += 1;
        }
        Ok(out)
    }
}

/// After the first error nothing more is looked up.
proof fn lemma_all_data_err(lines: Seq<Seq<char>>, m: Seq<ElemView>, k: nat, n: nat)
    requires
        k <= n,
        all_data(lines, m, k) is Err,
    ensures
        all_data(lines, m, n) == all_data(lines, m, k),
    decreases n - k,
{
    if k < n {
        lemma_all_data_err(lines, m, k, (n - 1) as nat);
    }
}

} // verus!
