//! The PDF object syntax: white space and comments, numbers, names,
//! strings, arrays, dictionaries, references, indirect objects and
//! streams, read from bytes.
use crate::limits::ResourceBudget;
use crate::reference_resolver::digits_value;
use crate::text::{concat2, msg};
use crate::types::{
    lemma_array_view, lemma_value_view, PdfStringKind, SpecValue, utf8_lossy, ObjectId, PdfArray, PdfDictionary, PdfName, PdfReal, PdfReference, PdfStream, PdfString,
    PdfValue,
};
use vstd::prelude::*;

verus! {

/// PDF white space: NUL, tab, line feed, form feed, carriage return, space.
pub open spec fn is_pdf_ws(b: u8) -> bool {
    b == 0 || b == 9 || b == 10 || b == 12 || b == 13 || b == 32
}

/// The delimiters `( ) < > [ ] { } / %`.
pub open spec fn is_delimiter(b: u8) -> bool {
    b == 40 || b == 41 || b == 60 || b == 62 || b == 91 || b == 93 || b == 123 || b == 125 || b == 47 || b == 37
}

/// A byte that belongs to a name, number or keyword.
pub open spec fn is_regular(b: u8) -> bool {
    !is_pdf_ws(b) && !is_delimiter(b)
}

pub open spec fn is_digit_byte(b: u8) -> bool {
    48 <= b <= 57
}

pub fn pdf_ws(b: u8) -> (r: bool)
    ensures
        r == is_pdf_ws(b),
{
    b == 0 || b == 9 || b == 10 || b == 12 || b == 13 || b == 32
}

pub fn regular(b: u8) -> (r: bool)
    ensures
        r == is_regular(b),
{
    !pdf_ws(b) && !(b == 40 || b == 41 || b == 60 || b == 62 || b == 91 || b == 93 || b == 123 || b == 125
        || b == 47 || b == 37)
}

fn digit(b: u8) -> (r: bool)
    ensures
        r == is_digit_byte(b),
{
    48 <= b && b <= 57
}

/// Skips white space and comments (a `%` up to the end of its line).
pub fn skip_ws(data: &[u8], pos: usize) -> (r: usize)
    requires
        pos <= data@.len(),
    ensures
        pos <= r <= data@.len(),
        r < data@.len() ==> !is_pdf_ws(data@[r as int]) && data@[r as int] != 37,
        r == skip_ws_spec(data@, pos as int),
{
    let mut p = pos;
    while p < data.len()
        invariant
            pos <= p <= data@.len(),
            skip_ws_spec(data@, p as int) == skip_ws_spec(data@, pos as int),
        decreases data@.len() - p,
    {
        let b = data[p];
        if pdf_ws(b) {
            p = p + 1;
        } else if b == 37 {
            p = p + 1;
            let ghost after = p;
            while p < data.len() && data[p] != 10 && data[p] != 13
                invariant
                    pos <= after <= p <= data@.len(),
                    skip_comment_spec(data@, p as int) == skip_ws_spec(data@, pos as int),
                decreases data@.len() - p,
            {
                p = p + 1;
            }
            if p < data.len() {
                p = p + 1;
            }
        } else {
            return p;
        }
    }
    p
}

/// Whether `word` is at `pos` and no regular byte follows it.
pub fn keyword_at(data: &[u8], pos: usize, word: &[u8]) -> (r: bool)
    requires
        pos <= data@.len(),
    ensures
        r == (pos + word@.len() <= data@.len() && data@.subrange(pos as int, pos + word@.len()) == word@ && (pos
            + word@.len() == data@.len() || !is_regular(data@[pos + word@.len()]))),
{
    if word.len() > data.len() - pos {
        return false;
    }
    let mut i: usize = 0;
    while i < word.len()
        invariant
            pos + word@.len() <= data@.len(),
            data@.len() == data.len(),
            i <= word@.len(),
            forall|j: int| 0 <= j < i ==> data@[pos + j] == word@[j],
        decreases word@.len() - i,
    {
        if data[pos + i] != word[i] {
            proof {
                assert(data@.subrange(pos as int, pos + word@.len())[i as int] != word@[i as int]);
            }
            return false;
        }
        i = i + 1;
    }
    proof {
        assert(data@.subrange(pos as int, pos + word@.len()) =~= word@);
    }
    let end = pos + word.len();
    end == data.len() || !regular(data[end])
}

/// Whether `word` is at `pos`, whatever follows.
pub fn bytes_at(data: &[u8], pos: usize, word: &[u8]) -> (r: bool)
    requires
        pos <= data@.len(),
    ensures
        r == (pos + word@.len() <= data@.len() && data@.subrange(pos as int, pos + word@.len()) == word@),
{
    if word.len() > data.len() - pos {
        return false;
    }
    let mut i: usize = 0;
    while i < word.len()
        invariant
            pos + word@.len() <= data@.len(),
            data@.len() == data.len(),
            i <= word@.len(),
            forall|j: int| 0 <= j < i ==> data@[pos + j] == word@[j],
        decreases word@.len() - i,
    {
        if data[pos + i] != word[i] {
            proof {
                assert(data@.subrange(pos as int, pos + word@.len())[i as int] != word@[i as int]);
            }
            return false;
        }
        i = i + 1;
    }
    proof {
        assert(data@.subrange(pos as int, pos + word@.len()) =~= word@);
    }
    true
}

/// Where the optional sign of a number at `pos` ends.
pub open spec fn sign_end(d: Seq<u8>, pos: int) -> int {
    if 0 <= pos < d.len() && (d[pos] == 43 || d[pos] == 45) {
        pos + 1
    } else {
        pos
    }
}

/// The integer at `pos` and where it ends: an optional sign, then the
/// longest run of digits; none without digits or beyond `i64`.
pub open spec fn spec_integer_at(d: Seq<u8>, pos: int) -> Option<(int, int)> {
    let first = sign_end(d, pos);
    let e = digits_end(d, first);
    let m = digits_value(d, first, e);
    if e == first || m > i64::MAX {
        None
    } else if 0 <= pos < d.len() && d[pos] == 45 {
        Some((-m, e))
    } else {
        Some((m, e))
    }
}

/// The run that `digits_end` finds holds digits only and stays in bounds.
pub proof fn lemma_digits_end(d: Seq<u8>, i: int)
    requires
        0 <= i <= d.len(),
    ensures
        i <= digits_end(d, i) <= d.len(),
        forall|k: int| i <= k < digits_end(d, i) ==> is_digit_byte(#[trigger] d[k]),
    decreases d.len() - i,
{
    if i < d.len() && is_digit_byte(d[i]) {
        lemma_digits_end(d, i + 1);
    }
}

/// An integer at `pos`: an optional sign and decimal digits, ending where a
/// digit no longer follows; `None` without digits or when it does not fit.
pub fn parse_integer(data: &[u8], pos: usize) -> (r: Option<(i64, usize)>)
    requires
        pos <= data@.len(),
    ensures
        r is None <==> spec_integer_at(data@, pos as int) is None,
        r matches Some((v, end)) ==> spec_integer_at(data@, pos as int) == Some((v as int, end as int)),
        r matches Some((v, end)) ==> pos < end <= data@.len() && (end == data@.len() || !is_digit_byte(
            data@[end as int],
        )),
{
    let n = data.len();
    let mut p = pos;
    let mut negative = false;
    if p < n && (data[p] == 43 || data[p] == 45) {
        negative = data[p] == 45;
        p = p + 1;
    }
    let first = p;
    let ghost e = digits_end(data@, first as int);
    proof {
        lemma_digits_end(data@, first as int);
    }
    let mut value: i64 = 0;
    loop
        invariant
            n == data@.len(),
            pos <= first <= p <= n,
            first == sign_end(data@, pos as int),
            negative == (pos < n && data@[pos as int] == 45),
            e == digits_end(data@, first as int),
            digits_end(data@, p as int) == e,
            first <= e <= n,
            forall|k: int| first <= k < e ==> is_digit_byte(#[trigger] data@[k]),
            value == digits_value(data@, first as int, p as int),
            0 <= value,
        ensures
            pos <= first <= p <= n,
            p == e,
            value == digits_value(data@, first as int, p as int),
            0 <= value,
            p == n || !is_digit_byte(data@[p as int]),
        decreases n - p,
    {
        if p >= n || !digit(data[p]) {
            break;
        }
        let d = (data[p] - 48) as i64;
        proof {
            lemma_digits_end(data@, p + 1);
            assert(digits_end(data@, p as int) == digits_end(data@, p + 1));
            assert(digits_value(data@, first as int, p + 1) == value * 10 + d);
        }
        match value.checked_mul(10) {
            Some(x) => match x.checked_add(d) {
                Some(y) => {
                    value = y;
                },
                None => {
                    proof {
                        crate::reference_resolver::lemma_digits_grow(data@, first as int, p + 1, e);
                    }
                    return None;
                },
            },
            None => {
                proof {
                    crate::reference_resolver::lemma_digits_grow(data@, first as int, p + 1, e);
                }
                return None;
            },
        }
        p = p + 1;
    }
    if p == first {
        return None;
    }
    if negative {
        Some((-value, p))
    } else {
        Some((value, p))
    }
}

/// The digits `d[f..f + k]` appended to the decimal value `init`.
pub open spec fn append_digits(d: Seq<u8>, f: int, k: int, init: int) -> int
    decreases k,
{
    if k <= 0 {
        init
    } else {
        append_digits(d, f, k - 1, init) * 10 + (d[f + k - 1] - 48)
    }
}

/// The number at `pos` and where it ends: an optional sign and digits,
/// and, after a `.`, fraction digits of which the first 18 are kept (the
/// scale); a real when the `.` is there. `None` without any digit or when
/// the kept digits pass `i64`.
pub open spec fn spec_number_at(d: Seq<u8>, pos: int) -> Option<(SpecNumber, int)> {
    let first = sign_end(d, pos);
    let e1 = digits_end(d, first);
    let whole = digits_value(d, first, e1);
    let negative = 0 <= pos < d.len() && d[pos] == 45;
    if e1 < d.len() && d[e1] == 46 {
        let f = e1 + 1;
        let e2 = digits_end(d, f);
        let kept = if e2 - f < 18 { e2 - f } else { 18 };
        let m = append_digits(d, f, kept, whole);
        if (e1 == first && e2 == f) || m > i64::MAX {
            None
        } else {
            Some((SpecNumber::Real(if negative { -m } else { m }, kept), e2))
        }
    } else if e1 == first || whole > i64::MAX {
        None
    } else {
        Some((SpecNumber::Integer(if negative { -whole } else { whole }), e1))
    }
}

/// A number as read: an integer, or a real's mantissa and scale.
pub enum SpecNumber {
    Integer(int),
    Real(int, int),
}

/// Whether a parsed value is the number `n`.
pub open spec fn value_is_number(v: PdfValue, n: SpecNumber) -> bool {
    match (v, n) {
        (PdfValue::Integer(i), SpecNumber::Integer(x)) => i == x,
        (PdfValue::Real(r), SpecNumber::Real(m, k)) => r.mantissa == m && r.scale == k,
        _ => false,
    }
}

/// Over digits, appending more of them never gives less.
proof fn lemma_append_grows(d: Seq<u8>, f: int, k1: int, k2: int, init: int)
    requires
        0 <= k1 <= k2,
        init >= 0,
        forall|i: int| f <= i < f + k2 ==> is_digit_byte(#[trigger] d[i]),
    ensures
        append_digits(d, f, k2, init) >= append_digits(d, f, k1, init) >= init,
    decreases k2,
{
    if k2 > k1 {
        lemma_append_grows(d, f, k1, k2 - 1, init);
        assert(is_digit_byte(d[f + k2 - 1]));
    } else if k1 > 0 {
        lemma_append_grows(d, f, k1 - 1, k1 - 1, init);
        assert(is_digit_byte(d[f + k1 - 1]));
    }
}

/// A number at `pos`: an integer, or a real with a `.` and up to 18
/// fraction digits, kept as digits and scale.
fn parse_number(data: &[u8], pos: usize) -> (r: Result<(PdfValue, usize), String>)
    requires
        pos <= data@.len(),
    ensures
        r matches Ok((v, end)) ==> pos < end <= data@.len() && (v is Integer || v is Real),
        r is Err <==> spec_number_at(data@, pos as int) is None,
        r matches Ok((v, end)) ==> (spec_number_at(data@, pos as int) matches Some((x, e)) && e == end
            && value_is_number(v, x)),
{
    let mut p = pos;
    let mut negative = false;
    if p < data.len() && (data[p] == 43 || data[p] == 45) {
        negative = data[p] == 45;
        p = p + 1;
    }
    let mut mantissa: i64 = 0;
    let mut digits: usize = 0;
    let ghost digits_start = p;
    let ghost e1 = digits_end(data@, p as int);
    proof {
        lemma_digits_end(data@, p as int);
    }
    while p < data.len() && digit(data[p])
        invariant
            pos <= digits_start <= p <= data@.len(),
            digits_start == sign_end(data@, pos as int),
            negative == (pos < data@.len() && data@[pos as int] == 45),
            e1 == digits_end(data@, digits_start as int),
            digits_end(data@, p as int) == e1,
            digits_start <= e1 <= data@.len(),
            forall|k: int| digits_start <= k < e1 ==> is_digit_byte(#[trigger] data@[k]),
            mantissa == digits_value(data@, digits_start as int, p as int),
            0 <= mantissa,
            digits <= p - digits_start,
            (digits == 0) == (p == digits_start),
        decreases data@.len() - p,
    {
        let d = (data[p] - 48) as i64;
        proof {
            lemma_digits_end(data@, p + 1);
            assert(digits_end(data@, p as int) == digits_end(data@, p + 1));
            assert(digits_value(data@, digits_start as int, p + 1) == mantissa * 10 + d);
        }
        mantissa = match mantissa.checked_mul(10) {
            Some(x) => match x.checked_add(d) {
                Some(y) => y,
                None => {
                    proof {
                        lemma_too_large(data@, pos as int, digits_start as int, p + 1);
                    }
                    return Err(msg("Number out of range"));
                },
            },
            None => {
                proof {
                    lemma_too_large(data@, pos as int, digits_start as int, p + 1);
                }
                return Err(msg("Number out of range"));
            },
        };
        if digits < usize::MAX {
            digits = digits + 1;
        }
        p = p + 1;
    }
    if p < data.len() && data[p] == 46 {
        p = p + 1;
        let mut scale: u32 = 0;
        let ghost frac_start = p;
        let ghost e2 = digits_end(data@, p as int);
        let ghost whole = mantissa as int;
        proof {
            lemma_digits_end(data@, p as int);
        }
        while p < data.len() && digit(data[p])
            invariant
                pos < frac_start <= p <= data@.len(),
                frac_start == e1 + 1,
                e1 == digits_end(data@, digits_start as int),
                digits_start == sign_end(data@, pos as int),
                negative == (pos < data@.len() && data@[pos as int] == 45),
                data@[e1] == 46,
                e1 < data@.len(),
                whole == digits_value(data@, digits_start as int, e1),
                whole >= 0,
                e2 == digits_end(data@, frac_start as int),
                digits_end(data@, p as int) == e2,
                frac_start <= e2 <= data@.len(),
                forall|k: int| frac_start <= k < e2 ==> is_digit_byte(#[trigger] data@[k]),
                scale == (if p - frac_start < 18 { p - frac_start } else { 18 }),
                mantissa == append_digits(data@, frac_start as int, scale as int, whole),
                0 <= mantissa,
                digits <= (frac_start - 1 - pos) + (p - frac_start),
                (digits == 0) == (e1 == digits_start && p == frac_start),
                digits > 0 ==> p > pos,
            decreases data@.len() - p,
        {
            let d = (data[p] - 48) as i64;
            proof {
                lemma_digits_end(data@, p + 1);
                assert(digits_end(data@, p as int) == digits_end(data@, p + 1));
            }
            if scale < 18 {
                proof {
                    assert(append_digits(data@, frac_start as int, scale + 1, whole) == mantissa * 10 + d);
                }
                mantissa = match mantissa.checked_mul(10) {
                    Some(x) => match x.checked_add(d) {
                        Some(y) => y,
                        None => {
                            proof {
                                lemma_frac_too_large(data@, frac_start as int, scale + 1, e2, whole);
                            }
                            return Err(msg("Number out of range"));
                        },
                    },
                    None => {
                        proof {
                            lemma_frac_too_large(data@, frac_start as int, scale + 1, e2, whole);
                        }
                        return Err(msg("Number out of range"));
                    },
                };
                scale = scale + 1;
            }
            if digits < usize::MAX {
                digits = digits + 1;
            }
            p = p + 1;
        }
        if digits == 0 {
            return Err(msg("Malformed number"));
        }
        let m = if negative {
            -mantissa
        } else {
            mantissa
        };
        return Ok((PdfValue::Real(PdfReal::new(m, scale)), p));
    }
    if digits == 0 {
        return Err(msg("Malformed number"));
    }
    let m = if negative {
        -mantissa
    } else {
        mantissa
    };
    Ok((PdfValue::Integer(m), p))
}

/// When a prefix of the whole digits passes `i64`, so does the number.
proof fn lemma_too_large(d: Seq<u8>, pos: int, first: int, upto: int)
    requires
        0 <= pos <= d.len(),
        first == sign_end(d, pos),
        first < upto <= digits_end(d, first),
        digits_value(d, first, upto) > i64::MAX,
        digits_end(d, first) <= d.len(),
        forall|k: int| first <= k < digits_end(d, first) ==> is_digit_byte(#[trigger] d[k]),
    ensures
        spec_number_at(d, pos) is None,
{
    let e1 = digits_end(d, first);
    crate::reference_resolver::lemma_digits_grow(d, first, upto, e1);
    if e1 < d.len() && d[e1] == 46 {
        let f = e1 + 1;
        lemma_digits_end(d, f);
        let e2 = digits_end(d, f);
        let kept = if e2 - f < 18 { e2 - f } else { 18 };
        lemma_append_grows(d, f, 0, kept, digits_value(d, first, e1));
    }
}

/// When the kept fraction digits so far pass `i64`, so does the number.
proof fn lemma_frac_too_large(d: Seq<u8>, f: int, k: int, e2: int, whole: int)
    requires
        1 <= k <= 18,
        f + k <= e2,
        whole >= 0,
        forall|i: int| f <= i < e2 ==> is_digit_byte(#[trigger] d[i]),
        append_digits(d, f, k, whole) > i64::MAX,
    ensures
        append_digits(d, f, if e2 - f < 18 { e2 - f } else { 18 }, whole) > i64::MAX,
{
    let kept = if e2 - f < 18 { e2 - f } else { 18 };
    lemma_append_grows(d, f, k, kept, whole);
}

/// The value of a hexadecimal digit, either case.
pub open spec fn spec_hex_value(b: u8) -> Option<u8> {
    if 48 <= b <= 57 {
        Some((b - 48) as u8)
    } else if 65 <= b <= 70 {
        Some((b - 55) as u8)
    } else if 97 <= b <= 102 {
        Some((b - 87) as u8)
    } else {
        None
    }
}

fn hex_value(b: u8) -> (r: Option<u8>)
    ensures
        r == spec_hex_value(b),
        r matches Some(v) ==> v < 16,
{
    if 48 <= b && b <= 57 {
        Some(b - 48)
    } else if 65 <= b && b <= 70 {
        Some(b - 55)
    } else if 97 <= b && b <= 102 {
        Some(b - 87)
    } else {
        None
    }
}

/// A name at `pos` (which holds `/`): the regular bytes after it, with
/// `#` and two hex digits standing for the byte they spell.
/// The bytes of a name's regular bytes from `p`, after `acc`: `#` and two
/// hex digits stand for the byte they spell; and where they end.
pub open spec fn spec_name_bytes(d: Seq<u8>, p: int, acc: Seq<u8>) -> (Seq<u8>, int)
    decreases d.len() - p,
{
    if p < 0 || p >= d.len() || !is_regular(d[p]) {
        (acc, p)
    } else if d[p] == 35 && d.len() - p >= 3 && spec_hex_value(d[p + 1]) is Some && spec_hex_value(d[p + 2]) is Some {
        spec_name_bytes(
            d,
            p + 3,
            acc.push((spec_hex_value(d[p + 1])->Some_0 * 16 + spec_hex_value(d[p + 2])->Some_0) as u8),
        )
    } else {
        spec_name_bytes(d, p + 1, acc.push(d[p]))
    }
}

/// The name at `p` (which holds `/`): its text, `/` and the bytes read as
/// UTF-8 with invalid sequences replaced; and where it ends.
pub open spec fn spec_name_at(d: Seq<u8>, p: int) -> (Seq<char>, int) {
    let (bytes, e) = spec_name_bytes(d, p + 1, Seq::empty());
    ("/"@ + crate::types::lossy_text(bytes), e)
}

fn parse_name(data: &[u8], pos: usize) -> (r: (PdfName, usize))
    requires
        pos < data@.len(),
        data@[pos as int] == 47,
    ensures
        pos < r.1 <= data@.len(),
        spec_name_at(data@, pos as int) == (r.0@, r.1 as int),
{
    let n = data.len();
    let mut p = pos + 1;
    let mut bytes: Vec<u8> = Vec::new();
    while p < n && regular(data[p])
        invariant
            n == data@.len(),
            pos < p <= n,
            spec_name_bytes(data@, pos + 1, Seq::empty()) == spec_name_bytes(data@, p as int, bytes@),
        decreases n - p,
    {
        let b = data[p];
        if b == 35 && n - p >= 3 {
            match (hex_value(data[p + 1]), hex_value(data[p + 2])) {
                (Some(h), Some(l)) => {
                    bytes.push(h * 16 + l);
                    p = p + 3;
                },
                _ => {
                    bytes.push(b);
                    p = p + 1;
                },
            }
        } else {
            bytes.push(b);
            p = p + 1;
        }
    }
    let text = utf8_lossy(bytes.as_slice());
    let full = concat2("/", text.as_str());
    proof {
        reveal_strlit("/");
    }
    (PdfName::new(full.as_str()), p)
}

/// An octal escape's code after its first digits: up to three digits in
/// all, each taken modulo 512; the code and where the digits end.
pub open spec fn spec_octal(d: Seq<u8>, q: int, code: int, count: int) -> (int, int)
    decreases 3 - count,
{
    if count < 3 && 0 <= q < d.len() && 48 <= d[q] <= 55 {
        spec_octal(d, q + 1, (code * 8 + (d[q] - 48)) % 512, count + 1)
    } else {
        (code, q)
    }
}

/// The bytes of a literal string from `p` up to the parenthesis that
/// closes it, `nesting` parentheses being open, and where it ends.
pub open spec fn spec_literal_body(d: Seq<u8>, p: int, nesting: int) -> Option<(Seq<u8>, int)>
    decreases d.len() - p,
{
    if p < 0 || p >= d.len() {
        None
    } else {
        let b = d[p];
        if b == 92 {
            if p + 1 >= d.len() {
                None
            } else {
                let e = d[p + 1];
                let q = p + 2;
                let (out, next): (Seq<u8>, int) = if e == 110 {
                    (seq![10u8], q)
                } else if e == 114 {
                    (seq![13u8], q)
                } else if e == 116 {
                    (seq![9u8], q)
                } else if e == 98 {
                    (seq![8u8], q)
                } else if e == 102 {
                    (seq![12u8], q)
                } else if e == 13 {
                    (Seq::<u8>::empty(), if q < d.len() && d[q] == 10 { q + 1 } else { q })
                } else if e == 10 {
                    (Seq::<u8>::empty(), q)
                } else if 48 <= e <= 55 {
                    let (code, q2) = spec_octal(d, q, e - 48, 1);
                    (seq![(code % 256) as u8], q2)
                } else {
                    (seq![e], q)
                };
                if next <= p || next > d.len() {
                    None
                } else {
                    match spec_literal_body(d, next, nesting) {
                        None => None,
                        Some((rest, end)) => Some((out + rest, end)),
                    }
                }
            }
        } else if b == 40 {
            if nesting >= usize::MAX {
                None
            } else {
                match spec_literal_body(d, p + 1, nesting + 1) {
                    None => None,
                    Some((rest, end)) => Some((seq![40u8] + rest, end)),
                }
            }
        } else if b == 41 && nesting <= 1 {
            Some((Seq::<u8>::empty(), p + 1))
        } else if b == 41 {
            match spec_literal_body(d, p + 1, nesting - 1) {
                None => None,
                Some((rest, end)) => Some((seq![41u8] + rest, end)),
            }
        } else {
            match spec_literal_body(d, p + 1, nesting) {
                None => None,
                Some((rest, end)) => Some((seq![b] + rest, end)),
            }
        }
    }
}

/// Where an octal escape's digits end lies after its start.
proof fn lemma_octal_end(d: Seq<u8>, q: int, code: int, count: int)
    requires
        q <= d.len(),
    ensures
        q <= spec_octal(d, q, code, count).1 <= d.len(),
    decreases 3 - count,
{
    if count < 3 && 0 <= q < d.len() && 48 <= d[q] <= 55 {
        lemma_octal_end(d, q + 1, (code * 8 + (d[q] - 48)) % 512, count + 1);
    }
}

/// A literal string at `pos` (which holds `(`): balanced parentheses,
/// with the escapes `\n \r \t \b \f \( \) \\`, octal codes, and a
/// backslash before a line end joining lines.
fn parse_literal_string(data: &[u8], pos: usize) -> (r: Result<(Vec<u8>, usize), String>)
    requires
        pos < data@.len(),
        data@[pos as int] == 40,
    ensures
        r is Err <==> spec_literal_body(data@, pos + 1, 1) is None,
        r matches Ok((s, end)) ==> spec_literal_body(data@, pos + 1, 1) == Some((s@, end as int)),
        r matches Ok((s, end)) ==> pos < end <= data@.len(),
{
    let n = data.len();
    let mut p = pos + 1;
    let mut nesting: usize = 1;
    let mut out: Vec<u8> = Vec::new();
    while p < n
        invariant
            n == data@.len(),
            pos < p <= n,
            nesting >= 1,
            spec_literal_body(data@, pos + 1, 1) == match spec_literal_body(data@, p as int, nesting as int) {
                Some((rest, e)) => Some((out@ + rest, e)),
                None => None,
            },
        decreases n - p,
    {
        let b = data[p];
        let ghost start = p;
        let ghost before = out@;
        if b == 92 {
            if p + 1 >= n {
                return Err(msg("Unterminated string"));
            }
            let e = data[p + 1];
            p = p + 2;
            if e == 110 {
                out.push(10);
            } else if e == 114 {
                out.push(13);
            } else if e == 116 {
                out.push(9);
            } else if e == 98 {
                out.push(8);
            } else if e == 102 {
                out.push(12);
            } else if e == 13 {
                if p < n && data[p] == 10 {
                    p = p + 1;
                }
            } else if e == 10 {
            } else if 48 <= e && e <= 55 {
                let mut code: u32 = (e - 48) as u32;
                let mut count: usize = 1;
                proof {
                    lemma_octal_end(data@, start + 2, (e - 48) as int, 1);
                }
                while count < 3 && p < n && 48 <= data[p] && data[p] <= 55
                    invariant
                        n == data@.len(),
                        start < p <= n,
                        1 <= count <= 3,
                        code < 512,
                        spec_octal(data@, p as int, code as int, count as int) == spec_octal(
                            data@,
                            start + 2,
                            (e - 48) as int,
                            1,
                        ),
                    decreases 3 - count,
                {
                    let d: u32 = (data[p] - 48) as u32;
                    code = (code * 8 + d) % 512;
                    count = count + 1;
                    p = p + 1;
                }
                out.push((code % 256) as u8);
            } else {
                out.push(e);
            }
        } else if b == 40 {
            if nesting == usize::MAX {
                return Err(msg("String nesting too deep"));
            }
            nesting = nesting + 1;
            out.push(b);
            p = p + 1;
        } else if b == 41 {
            nesting = nesting - 1;
            p = p + 1;
            if nesting == 0 {
                return Ok((out, p));
            }
            out.push(b);
        } else {
            out.push(b);
            p = p + 1;
        }
    }
    Err(msg("Unterminated string"))
}

/// The bytes of a hexadecimal string from `p` up to its `>`, and where it
/// ends: white space is skipped, each pair of hex digits spells a byte,
/// `high` is a first digit still waiting for its pair, and a lone last
/// digit is padded with 0; none at another byte or without `>`.
pub open spec fn spec_hex_body(d: Seq<u8>, p: int, high: Option<u8>) -> Option<(Seq<u8>, int)>
    decreases d.len() - p,
{
    if p < 0 || p >= d.len() {
        None
    } else if d[p] == 62 {
        match high {
            Some(h) => Some((seq![(h * 16) as u8], p + 1)),
            None => Some((Seq::<u8>::empty(), p + 1)),
        }
    } else if is_pdf_ws(d[p]) {
        spec_hex_body(d, p + 1, high)
    } else {
        match spec_hex_value(d[p]) {
            None => None,
            Some(v) => match high {
                None => spec_hex_body(d, p + 1, Some(v)),
                Some(h) => match spec_hex_body(d, p + 1, None) {
                    None => None,
                    Some((rest, e)) => Some((seq![(h * 16 + v) as u8] + rest, e)),
                },
            },
        }
    }
}

/// A hexadecimal string at `pos` (which holds `<`): pairs of hex digits,
/// white space ignored, a last lone digit padded with 0, up to `>`.
fn parse_hex_string(data: &[u8], pos: usize) -> (r: Result<(Vec<u8>, usize), String>)
    requires
        pos < data@.len(),
        data@[pos as int] == 60,
    ensures
        r is Err <==> spec_hex_body(data@, pos + 1, None) is None,
        r matches Ok((s, end)) ==> spec_hex_body(data@, pos + 1, None) == Some((s@, end as int)),
        r matches Ok((s, end)) ==> pos < end <= data@.len(),
{
    let n = data.len();
    let mut p = pos + 1;
    let mut out: Vec<u8> = Vec::new();
    let mut high: Option<u8> = None;
    while p < n
        invariant
            n == data@.len(),
            pos < p <= n,
            high matches Some(h) ==> h < 16,
            spec_hex_body(data@, pos + 1, None) == match spec_hex_body(data@, p as int, high) {
                Some((rest, e)) => Some((out@ + rest, e)),
                None => None,
            },
        decreases data@.len() - p,
    {
        let b = data[p];
        p = p + 1;
        if b == 62 {
            match high {
                Some(h) => out.push(h * 16),
                None => {},
            }
            return Ok((out, p));
        }
        if !pdf_ws(b) {
            match hex_value(b) {
                Some(v) => match high {
                    Some(h) => {
                        out.push(h * 16 + v);
                        high = None;
                    },
                    None => {
                        high = Some(v);
                    },
                },
                None => return Err(msg("Invalid hex string")),
            }
        }
    }
    Err(msg("Unterminated hex string"))
}

/// Whether `word` stands at `p` as a whole token.
pub open spec fn keyword_match(d: Seq<u8>, p: int, word: Seq<u8>) -> bool {
    p + word.len() <= d.len() && d.subrange(p, p + word.len()) == word && (p + word.len() == d.len()
        || !is_regular(d[p + word.len()]))
}

/// A value that is neither a name, an array nor a dictionary starts at `p`.
pub open spec fn is_simple_start(d: Seq<u8>, p: int) -> bool {
    0 <= p < d.len() && d[p] != 47 && !starts_container(d, p)
}

/// The value at `p` that is no name, array or dictionary, and where it
/// ends: a literal or hexadecimal string, `true`, `false`, `null`, a
/// number, or a reference `n g R` after an integer that starts with a digit.
pub open spec fn spec_simple_value(d: Seq<u8>, p: int) -> Option<(SpecValue, int)> {
    if p < 0 || p >= d.len() {
        None
    } else if d[p] == 40 {
        match spec_literal_body(d, p + 1, 1) {
            Some((bytes, e)) => Some((SpecValue::String(bytes, PdfStringKind::Literal), e)),
            None => None,
        }
    } else if d[p] == 60 {
        match spec_hex_body(d, p + 1, None) {
            Some((bytes, e)) => Some((SpecValue::String(bytes, PdfStringKind::Hexadecimal), e)),
            None => None,
        }
    } else if keyword_match(d, p, seq![116u8, 114u8, 117u8, 101u8]) {
        Some((SpecValue::Boolean(true), p + 4))
    } else if keyword_match(d, p, seq![102u8, 97u8, 108u8, 115u8, 101u8]) {
        Some((SpecValue::Boolean(false), p + 5))
    } else if keyword_match(d, p, seq![110u8, 117u8, 108u8, 108u8]) {
        Some((SpecValue::Null, p + 4))
    } else if is_digit_byte(d[p]) || d[p] == 43 || d[p] == 45 || d[p] == 46 {
        match spec_number_at(d, p) {
            None => None,
            Some((SpecNumber::Integer(i), e)) => {
                if is_digit_byte(d[p]) && spec_reference_tail(d, i, e) is Some {
                    match spec_reference_tail(d, i, e) {
                        Some(((n, g), e2)) => Some((SpecValue::Reference(n as u32, g as u16), e2)),
                        None => None,
                    }
                } else {
                    Some((SpecValue::Integer(i), e))
                }
            },
            Some((SpecNumber::Real(m, k), e)) => Some((SpecValue::Real(m, k as nat), e)),
        }
    } else {
        None
    }
}

/// The value at `pos` (after white space and comments), `depth` levels
/// being open and at most `max_depth` allowed, and where it ends: a name,
/// a dictionary or an array opening a new level, or a simple value.
pub open spec fn spec_value(d: Seq<u8>, pos: int, depth: int, max_depth: int) -> Option<(SpecValue, int)>
    decreases max_depth - depth, d.len() - pos, 2int,
{
    let p = skip_ws_spec(d, pos);
    if pos < 0 || p < pos || p >= d.len() {
        None
    } else if d[p] == 47 {
        let (n, e) = spec_name_at(d, p);
        Some((SpecValue::Name(n), e))
    } else if d[p] == 60 && p + 1 < d.len() && d[p + 1] == 60 {
        if depth >= max_depth {
            None
        } else {
            match spec_dict_entries(d, p + 2, depth, max_depth, Seq::empty()) {
                Some((entries, e)) => Some((SpecValue::Dictionary(entries), e)),
                None => None,
            }
        }
    } else if d[p] == 91 {
        if depth >= max_depth {
            None
        } else {
            match spec_array_items(d, p + 1, depth, max_depth, Seq::empty()) {
                Some((items, e)) => Some((SpecValue::Array(items), e)),
                None => None,
            }
        }
    } else {
        spec_simple_value(d, p)
    }
}

/// The items of an array from `pos` up to its `]`, after `acc`, and where
/// it ends; each item one level deeper.
pub open spec fn spec_array_items(
    d: Seq<u8>,
    pos: int,
    depth: int,
    max_depth: int,
    acc: Seq<SpecValue>,
) -> Option<(Seq<SpecValue>, int)>
    decreases max_depth - depth, d.len() - pos, 1int,
{
    let q = skip_ws_spec(d, pos);
    if depth >= max_depth || pos < 0 || pos > d.len() || q < pos || q >= d.len() {
        None
    } else if d[q] == 93 {
        Some((acc, q + 1))
    } else {
        match spec_value(d, q, depth + 1, max_depth) {
            None => None,
            Some((v, e)) => if e <= pos || e > d.len() {
                None
            } else {
                spec_array_items(d, e, depth, max_depth, acc.push(v))
            },
        }
    }
}

/// The entries of a dictionary from `pos` up to its `>>`, inserted into
/// `acc` in order (a later key replaces an earlier one), and where it ends;
/// each value one level deeper.
pub open spec fn spec_dict_entries(
    d: Seq<u8>,
    pos: int,
    depth: int,
    max_depth: int,
    acc: Seq<(Seq<char>, SpecValue)>,
) -> Option<(Seq<(Seq<char>, SpecValue)>, int)>
    decreases max_depth - depth, d.len() - pos, 1int,
{
    let q = skip_ws_spec(d, pos);
    if depth >= max_depth || pos < 0 || pos > d.len() || q < pos || q >= d.len() {
        None
    } else if d[q] == 62 {
        if q + 1 < d.len() && d[q + 1] == 62 {
            Some((acc, q + 2))
        } else {
            None
        }
    } else if d[q] != 47 {
        None
    } else {
        let (key, ke) = spec_name_at(d, q);
        match spec_value(d, ke, depth + 1, max_depth) {
            None => None,
            Some((v, e)) => if e <= pos || e > d.len() {
                None
            } else {
                spec_dict_entries(
                    d,
                    e,
                    depth,
                    max_depth,
                    crate::types::spec_dict_insert(acc, crate::types::name_text(key), v),
                )
            },
        }
    }
}

/// The messages with which object parsing reports that the shared budget
/// refused a charge.
pub open spec fn budget_text(m: Seq<char>) -> bool {
    m == "Object budget exceeded"@ || m == "Input budget exceeded"@
}

/// Whether every string in `v`, however deeply nested, has at most `max`
/// bytes.
pub open spec fn strings_fit(v: SpecValue, max: int) -> bool
    decreases v,
{
    match v {
        SpecValue::String(b, _) => b.len() <= max,
        SpecValue::Array(items) => forall|i: int| 0 <= i < items.len() ==> strings_fit(#[trigger] items[i], max),
        SpecValue::Dictionary(e) => forall|i: int| 0 <= i < e.len() ==> strings_fit(#[trigger] e[i].1, max),
        SpecValue::Stream(e, _, _) => forall|i: int| 0 <= i < e.len() ==> strings_fit(#[trigger] e[i].1, max),
        _ => true,
    }
}

/// Setting a key of entries whose strings fit to a value whose strings fit
/// keeps every string fitting.
pub proof fn lemma_insert_fits(e: Seq<(Seq<char>, SpecValue)>, key: Seq<char>, v: SpecValue, max: int)
    requires
        forall|i: int| 0 <= i < e.len() ==> strings_fit(#[trigger] e[i].1, max),
        strings_fit(v, max),
    ensures
        forall|i: int|
            0 <= i < crate::types::spec_dict_insert(e, key, v).len() ==> strings_fit(
                #[trigger] crate::types::spec_dict_insert(e, key, v)[i].1,
                max,
            ),
    decreases e.len(),
{
    let ins = crate::types::spec_dict_insert(e, key, v);
    if e.len() == 0 {
    } else if e[0].0 == key {
        assert forall|i: int| 0 <= i < ins.len() implies strings_fit(#[trigger] ins[i].1, max) by {
            if i > 0 {
                assert(ins[i] == e.drop_first()[i - 1]);
                assert(e.drop_first()[i - 1] == e[i]);
            }
        }
    } else {
        let rest = e.drop_first();
        assert forall|i: int| 0 <= i < rest.len() implies strings_fit(#[trigger] rest[i].1, max) by {
            assert(rest[i] == e[i + 1]);
        }
        lemma_insert_fits(rest, key, v, max);
        let tail = crate::types::spec_dict_insert(rest, key, v);
        assert forall|i: int| 0 <= i < ins.len() implies strings_fit(#[trigger] ins[i].1, max) by {
            if i > 0 {
                assert(ins[i] == tail[i - 1]);
            } else {
                assert(ins[0] == e[0]);
            }
        }
    }
}

/// What may come first in a value.
pub open spec fn starts_container(data: Seq<u8>, p: int) -> bool {
    0 <= p < data.len() && (data[p] == 91 || (data[p] == 60 && p + 1 < data.len() && data[p + 1] == 60))
}

/// The rest of a reference `n g R` whose first integer `first` ends at
/// `p`: white space, a generation that starts with a digit, white space and
/// `R` ending the token; the object number and generation, and where it
/// ends.
pub open spec fn spec_reference_tail(d: Seq<u8>, first: int, p: int) -> Option<((int, int), int)> {
    if first < 0 || first > 0xffff_ffff {
        None
    } else {
        let q = skip_ws_spec(d, p);
        if q == p || q >= d.len() || !is_digit_byte(d[q]) {
            None
        } else {
            match spec_integer_at(d, q) {
                None => None,
                Some((generation, q2)) => {
                    let q3 = skip_ws_spec(d, q2);
                    if generation < 0 || generation > 0xffff || q3 == q2 || q3 >= d.len() {
                        None
                    } else if d[q3] == 82 && (q3 + 1 == d.len() || !is_regular(d[q3 + 1])) {
                        Some(((first, generation), q3 + 1))
                    } else {
                        None
                    }
                },
            }
        }
    }
}

/// A reference `n g R` after an integer ending at `p`, when one follows.
fn parse_reference_tail(data: &[u8], first: i64, p: usize) -> (r: Option<(PdfReference, usize)>)
    requires
        p <= data@.len(),
    ensures
        r is None <==> spec_reference_tail(data@, first as int, p as int) is None,
        r matches Some((x, end)) ==> spec_reference_tail(data@, first as int, p as int) == Some(
            ((x.object_number as int, x.generation_number as int), end as int),
        ),
        r matches Some((x, end)) ==> p < end <= data@.len(),
{
    if first < 0 || first > 0xffff_ffff {
        return None;
    }
    let q = skip_ws(data, p);
    if q == p || q >= data.len() || !digit(data[q]) {
        return None;
    }
    let (generation, q2) = match parse_integer(data, q) {
        Some(x) => x,
        None => return None,
    };
    if generation < 0 || generation > 0xffff {
        return None;
    }
    let q3 = skip_ws(data, q2);
    if q3 == q2 || q3 >= data.len() {
        return None;
    }
    if data[q3] == 82 && (q3 + 1 == data.len() || !regular(data[q3 + 1])) {
        Some((PdfReference::new(first as u32, generation as u16), q3 + 1))
    } else {
        None
    }
}

/// One value at `pos` (after white space and comments): arrays and
/// dictionaries open a new level, and no more than `max_depth` levels may
/// be open; every value parsed is charged as an object to the budget, and
/// the bytes of every string as input.
pub fn parse_value(data: &[u8], pos: usize, depth: usize, max_depth: usize, budget: &ResourceBudget) -> (r: Result<
    (PdfValue, usize),
    String,
>)
    requires
        pos <= data@.len(),
    ensures
        r matches Ok((v, end)) ==> pos < end <= data@.len(),
        r matches Ok((v, end)) ==> spec_value(data@, pos as int, depth as int, max_depth as int) == Some(
            (v.sv(), end as int),
        ),
        spec_value(data@, pos as int, depth as int, max_depth as int) is None ==> r is Err,
        spec_value(data@, pos as int, depth as int, max_depth as int) is Some ==> (r is Ok || (r matches Err(m)
            && budget_text(m@))),
        r matches Ok((v, _)) ==> strings_fit(v.sv(), budget.max_input_bytes as int),
        skip_ws_spec(data@, pos as int) >= data@.len() ==> r is Err,
        is_simple_start(data@, skip_ws_spec(data@, pos as int)) ==> match r {
            Ok((v, end)) => spec_simple_value(data@, skip_ws_spec(data@, pos as int)) == Some((v.sv(), end as int)),
            Err(_) => true,
        },
        is_simple_start(data@, skip_ws_spec(data@, pos as int)) && spec_simple_value(
            data@,
            skip_ws_spec(data@, pos as int),
        ) is None ==> r is Err,
        (skip_ws_spec(data@, pos as int) < data@.len() && data@[skip_ws_spec(data@, pos as int)] == 47) ==> (r matches Ok(
            (v, _),
        ) ==> v is Name),
        (depth >= max_depth && starts_container(data@, skip_ws_spec(data@, pos as int))) ==> r is Err,
        r matches Ok((v, end)) ==> ((v is Dictionary || v is Array) ==> starts_container(
            data@,
            skip_ws_spec(data@, pos as int),
        )),
    decreases max_depth - depth, 1int,
{
    let p = skip_ws(data, pos);
    if p >= data.len() {
        return Err(msg("Unexpected end of data"));
    }
    if budget.consume_object().is_err() {
        return Err(msg("Object budget exceeded"));
    }
    let b = data[p];
    if b == 47 {
        let (name, end) = parse_name(data, p);
        let v = PdfValue::Name(name);
        proof {
            lemma_value_view(&v);
        }
        return Ok((v, end));
    }
    if b == 40 {
        let (bytes, end) = parse_literal_string(data, p)?;
        if budget.consume_input(bytes.len() as u64).is_err() {
            return Err(msg("Input budget exceeded"));
        }
        let v = PdfValue::String(PdfString::new_literal(bytes.as_slice()));
        proof {
            lemma_value_view(&v);
        }
        return Ok((v, end));
    }
    if b == 60 {
        if p + 1 < data.len() && data[p + 1] == 60 {
            if depth >= max_depth {
                return Err(msg("Maximum nesting depth exceeded"));
            }
            let (dict, end) = parse_dictionary_body(data, p + 2, depth, max_depth, budget)?;
            let v = PdfValue::Dictionary(dict);
            proof {
                lemma_value_view(&v);
            }
            return Ok((v, end));
        }
        let (bytes, end) = parse_hex_string(data, p)?;
        if budget.consume_input(bytes.len() as u64).is_err() {
            return Err(msg("Input budget exceeded"));
        }
        let v = PdfValue::String(PdfString::new_hex(bytes.as_slice()));
        proof {
            lemma_value_view(&v);
        }
        return Ok((v, end));
    }
    if b == 91 {
        if depth >= max_depth {
            return Err(msg("Maximum nesting depth exceeded"));
        }
        let (items, end) = parse_array_body(data, p + 1, depth, max_depth, budget)?;
        let v = PdfValue::Array(items);
        proof {
            lemma_value_view(&v);
        }
        return Ok((v, end));
    }
    let true_kw: [u8; 4] = [116, 114, 117, 101];
    let false_kw: [u8; 5] = [102, 97, 108, 115, 101];
    let null_kw: [u8; 4] = [110, 117, 108, 108];
    proof {
        assert(true_kw@ =~= seq![116u8, 114u8, 117u8, 101u8]);
        assert(false_kw@ =~= seq![102u8, 97u8, 108u8, 115u8, 101u8]);
        assert(null_kw@ =~= seq![110u8, 117u8, 108u8, 108u8]);
    }
    if keyword_at(data, p, true_kw.as_slice()) {
        let v = PdfValue::Boolean(true);
        proof {
            lemma_value_view(&v);
        }
        return Ok((v, p + 4));
    }
    if keyword_at(data, p, false_kw.as_slice()) {
        let v = PdfValue::Boolean(false);
        proof {
            lemma_value_view(&v);
        }
        return Ok((v, p + 5));
    }
    if keyword_at(data, p, null_kw.as_slice()) {
        let v = PdfValue::Null;
        proof {
            lemma_value_view(&v);
        }
        return Ok((v, p + 4));
    }
    if digit(b) || b == 43 || b == 45 || b == 46 {
        let (number, end) = parse_number(data, p)?;
        proof {
            lemma_value_view(&number);
        }
        match number {
            PdfValue::Integer(first) => {
                if digit(b) {
                    match parse_reference_tail(data, first, end) {
                        Some((reference, rend)) => {
                            let v = PdfValue::Reference(reference);
                            proof {
                                lemma_value_view(&v);
                            }
                            return Ok((v, rend));
                        },
                        None => {},
                    }
                }
                let v = PdfValue::Integer(first);
                proof {
                    lemma_value_view(&v);
                }
                return Ok((v, end));
            },
            other => return Ok((other, end)),
        }
    }
    Err(msg("Unexpected byte in object"))
}

/// Where white space and comments from `pos` end.
pub open spec fn skip_ws_spec(data: Seq<u8>, pos: int) -> int
    decreases data.len() - pos,
{
    if pos < 0 || pos >= data.len() {
        pos
    } else if is_pdf_ws(data[pos]) {
        skip_ws_spec(data, pos + 1)
    } else if data[pos] == 37 {
        skip_comment_spec(data, pos + 1)
    } else {
        pos
    }
}

pub open spec fn skip_comment_spec(data: Seq<u8>, pos: int) -> int
    decreases data.len() - pos,
{
    if pos < 0 || pos >= data.len() {
        pos
    } else if data[pos] == 10 || data[pos] == 13 {
        skip_ws_spec(data, pos + 1)
    } else {
        skip_comment_spec(data, pos + 1)
    }
}

/// The items of an array after its `[`, up to and with its `]`.
fn parse_array_body(data: &[u8], pos: usize, depth: usize, max_depth: usize, budget: &ResourceBudget) -> (r: Result<
    (PdfArray, usize),
    String,
>)
    requires
        pos <= data@.len(),
        depth < max_depth,
    ensures
        r matches Ok((v, end)) ==> pos < end <= data@.len(),
        r matches Ok((v, end)) ==> spec_array_items(data@, pos as int, depth as int, max_depth as int, Seq::empty())
            == Some((crate::types::array_sv(&v), end as int)),
        spec_array_items(data@, pos as int, depth as int, max_depth as int, Seq::empty()) is None ==> r is Err,
        spec_array_items(data@, pos as int, depth as int, max_depth as int, Seq::empty()) is Some ==> (r is Ok || (
        r matches Err(m) && budget_text(m@))),
        r matches Ok((v, end)) ==> data@[end - 1] == 93,
        r matches Ok((v, end)) ==> forall|i: int|
            0 <= i < crate::types::array_sv(&v).len() ==> strings_fit(
                #[trigger] crate::types::array_sv(&v)[i],
                budget.max_input_bytes as int,
            ),
        skip_ws_spec(data@, pos as int) >= data@.len() ==> r is Err,
        skip_ws_spec(data@, pos as int) < data@.len() && data@[skip_ws_spec(data@, pos as int)] == 93 ==> (r matches Ok(
            (v, end),
        ) && v@.len() == 0 && end == skip_ws_spec(data@, pos as int) + 1),
    decreases max_depth - depth, 0int,
{
    let mut items: PdfArray = Vec::new();
    let mut p = pos;
    proof {
        lemma_array_view(&items);
        assert(crate::types::array_sv(&items) =~= Seq::<SpecValue>::empty());
    }
    loop
        invariant
            pos <= p <= data@.len(),
            depth < max_depth,
            p == pos ==> items@.len() == 0,
            p > pos ==> skip_ws_spec(data@, pos as int) < data@.len() && data@[skip_ws_spec(data@, pos as int)] != 93,
            spec_array_items(data@, pos as int, depth as int, max_depth as int, Seq::empty()) == spec_array_items(
                data@,
                p as int,
                depth as int,
                max_depth as int,
                crate::types::array_sv(&items),
            ),
            forall|i: int|
                0 <= i < crate::types::array_sv(&items).len() ==> strings_fit(
                    #[trigger] crate::types::array_sv(&items)[i],
                    budget.max_input_bytes as int,
                ),
        decreases data@.len() - p,
    {
        proof {
            if p == pos {
                lemma_array_view(&items);
                assert(crate::types::array_sv(&items) =~= Seq::<SpecValue>::empty());
            }
        }
        let q = skip_ws(data, p);
        if q >= data.len() {
            return Err(msg("Unterminated array"));
        }
        if data[q] == 93 {
            return Ok((items, q + 1));
        }
        let (item, end) = parse_value(data, q, depth + 1, max_depth, budget)?;
        let ghost before = items@;
        proof {
            lemma_array_view(&items);
        }
        let ghost acc = crate::types::array_sv(&items);
        items.push(item);
        proof {
            lemma_array_view(&items);
            assert(crate::types::array_sv(&items) =~= acc.push(items@[items@.len() - 1].sv()));
        }
        p = end;
    }
}

/// The entries of a dictionary after its `<<`, up to and with its `>>`.
fn parse_dictionary_body(data: &[u8], pos: usize, depth: usize, max_depth: usize, budget: &ResourceBudget) -> (r: Result<
    (PdfDictionary, usize),
    String,
>)
    requires
        pos <= data@.len(),
        depth < max_depth,
    ensures
        r matches Ok((v, end)) ==> pos < end <= data@.len(),
        r matches Ok((v, end)) ==> spec_dict_entries(data@, pos as int, depth as int, max_depth as int, Seq::empty())
            == Some((v.sv_entries(), end as int)),
        spec_dict_entries(data@, pos as int, depth as int, max_depth as int, Seq::empty()) is None ==> r is Err,
        spec_dict_entries(data@, pos as int, depth as int, max_depth as int, Seq::empty()) is Some ==> (r is Ok || (
        r matches Err(m) && budget_text(m@))),
        r matches Ok((v, end)) ==> end >= 2 && data@[end - 2] == 62 && data@[end - 1] == 62,
        r matches Ok((v, end)) ==> forall|i: int|
            0 <= i < v.sv_entries().len() ==> strings_fit(#[trigger] v.sv_entries()[i].1, budget.max_input_bytes as int),
        skip_ws_spec(data@, pos as int) >= data@.len() ==> r is Err,
        ({
            let q = skip_ws_spec(data@, pos as int);
            q < data@.len() ==> {
                &&& (data@[q] == 62 && q + 1 < data@.len() && data@[q + 1] == 62) ==> (r matches Ok((v, end))
                    && v.sv_entries().len() == 0 && end == q + 2)
                &&& (data@[q] == 62 && !(q + 1 < data@.len() && data@[q + 1] == 62)) ==> r is Err
                &&& (data@[q] != 62 && data@[q] != 47) ==> r is Err
            }
        }),
    decreases max_depth - depth, 0int,
{
    let mut dict = PdfDictionary::new();
    let mut p = pos;
    loop
        invariant
            pos <= p <= data@.len(),
            depth < max_depth,
            p == pos ==> dict.sv_entries().len() == 0,
            p > pos ==> skip_ws_spec(data@, pos as int) < data@.len() && data@[skip_ws_spec(data@, pos as int)] == 47,
            spec_dict_entries(data@, pos as int, depth as int, max_depth as int, Seq::empty()) == spec_dict_entries(
                data@,
                p as int,
                depth as int,
                max_depth as int,
                dict.sv_entries(),
            ),
            forall|i: int|
                0 <= i < dict.sv_entries().len() ==> strings_fit(
                    #[trigger] dict.sv_entries()[i].1,
                    budget.max_input_bytes as int,
                ),
        decreases data@.len() - p,
    {
        proof {
            if p == pos {
                assert(dict.sv_entries() =~= Seq::<(Seq<char>, SpecValue)>::empty());
            }
        }
        let q = skip_ws(data, p);
        if q >= data.len() {
            return Err(msg("Unterminated dictionary"));
        }
        if data[q] == 62 {
            if q + 1 < data.len() && data[q + 1] == 62 {
                return Ok((dict, q + 2));
            }
            return Err(msg("Malformed dictionary end"));
        }
        if data[q] != 47 {
            return Err(msg("Dictionary key must be a name"));
        }
        let (key, kend) = parse_name(data, q);
        let (value, vend) = parse_value(data, kend, depth + 1, max_depth, budget)?;
        let ghost before = dict.sv_entries();
        let ghost vsv = value.sv();
        dict.insert(key.as_str(), value);
        proof {
            lemma_insert_fits(before, crate::types::name_text(key@), vsv, budget.max_input_bytes as int);
        }
        p = vend;
    }
}

/// ASCII white space: space, tab, line feed, form feed, carriage return.
pub open spec fn is_ascii_ws(b: u8) -> bool {
    b == 32 || b == 9 || b == 10 || b == 12 || b == 13
}

/// Where the run of digits from `i` ends.
pub open spec fn digits_end(d: Seq<u8>, i: int) -> int
    decreases d.len() - i,
{
    if 0 <= i < d.len() && is_digit_byte(d[i]) {
        digits_end(d, i + 1)
    } else {
        i
    }
}

/// Where the run of ASCII white space from `i` ends.
pub open spec fn ws_end(d: Seq<u8>, i: int) -> int
    decreases d.len() - i,
{
    if 0 <= i < d.len() && is_ascii_ws(d[i]) {
        ws_end(d, i + 1)
    } else {
        i
    }
}

/// Whether an object header `n g obj` starts at `i`: digits, white space,
/// digits, then ` obj`.
pub open spec fn object_pattern_at(d: Seq<u8>, i: int) -> bool {
    let j = digits_end(d, i);
    let k = ws_end(d, j + 1);
    let m = digits_end(d, k);
    &&& 0 <= i < d.len()
    &&& is_digit_byte(d[i])
    &&& j < d.len()
    &&& is_ascii_ws(d[j])
    &&& k < d.len()
    &&& is_digit_byte(d[k])
    &&& m + 4 <= d.len()
    &&& d.subrange(m, m + 4) == seq![32u8, 111u8, 98u8, 106u8]
}

fn digits_end_exec(d: &[u8], i: usize) -> (r: usize)
    requires
        i <= d@.len(),
    ensures
        r == digits_end(d@, i as int),
        i <= r <= d@.len(),
{
    let mut j = i;
    while j < d.len() && digit(d[j])
        invariant
            i <= j <= d@.len(),
            digits_end(d@, j as int) == digits_end(d@, i as int),
        decreases d@.len() - j,
    {
        j = j + 1;
    }
    j
}

fn ascii_ws(b: u8) -> (r: bool)
    ensures
        r == is_ascii_ws(b),
{
    b == 32 || b == 9 || b == 10 || b == 12 || b == 13
}

fn ws_end_exec(d: &[u8], i: usize) -> (r: usize)
    requires
        i <= d@.len(),
    ensures
        r == ws_end(d@, i as int),
        i <= r <= d@.len(),
{
    let mut j = i;
    while j < d.len() && ascii_ws(d[j])
        invariant
            i <= j <= d@.len(),
            ws_end(d@, j as int) == ws_end(d@, i as int),
        decreases d@.len() - j,
    {
        j = j + 1;
    }
    j
}

fn object_pattern_exec(d: &[u8], i: usize) -> (r: bool)
    requires
        i < d@.len(),
    ensures
        r == object_pattern_at(d@, i as int),
{
    if !digit(d[i]) {
        return false;
    }
    let j = digits_end_exec(d, i);
    if j >= d.len() || !ascii_ws(d[j]) {
        return false;
    }
    let k = ws_end_exec(d, j + 1);
    if k >= d.len() || !digit(d[k]) {
        return false;
    }
    let m = digits_end_exec(d, k);
    let obj: [u8; 4] = [32, 111, 98, 106];
    proof {
        assert(obj@ =~= seq![32u8, 111u8, 98u8, 106u8]);
    }
    bytes_at(d, m, obj.as_slice())
}

/// The first place before the last ten bytes where an object header
/// starts.
pub fn find_next_object(data: &[u8]) -> (r: Option<usize>)
    ensures
        r matches Some(i) ==> i + 10 < data@.len() && object_pattern_at(data@, i as int) && forall|j: int|
            0 <= j < i ==> !object_pattern_at(data@, j),
        r is None ==> forall|j: int| 0 <= j && j + 10 < data@.len() ==> !object_pattern_at(data@, j),
{
    let limit = if data.len() > 10 {
        data.len() - 10
    } else {
        0
    };
    let mut i: usize = 0;
    while i < limit
        invariant
            limit == if data@.len() > 10 { data@.len() - 10 } else { 0 },
            i <= limit,
            forall|j: int| 0 <= j < i ==> !object_pattern_at(data@, j),
        decreases limit - i,
    {
        if object_pattern_exec(data, i) {
            return Some(i);
        }
        i = i + 1;
    }
    None
}

/// The object header at `pos`: an integer, ASCII white space, an integer,
/// then ` obj`, with both numbers in range of an object id; and where it
/// ends.
pub open spec fn spec_object_header(d: Seq<u8>, pos: int) -> Option<(ObjectId, int)> {
    match spec_integer_at(d, pos) {
        None => None,
        Some((number, p)) => {
            let q = ws_end(d, p);
            if q == p {
                None
            } else {
                match spec_integer_at(d, q) {
                    None => None,
                    Some((generation, p2)) => {
                        if !occurs_at(d, seq![32u8, 111u8, 98u8, 106u8], p2) {
                            None
                        } else if number < 0 || generation < 0 || number > 0xffff_ffff || generation > 0xffff {
                            None
                        } else {
                            Some((ObjectId { number: number as u32, generation: generation as u16 }, p2 + 4))
                        }
                    },
                }
            }
        },
    }
}

/// An object header `n g obj` at `pos`: two integers with white space
/// between, then ` obj`; refused when either number is negative or too
/// large for an object id.
pub fn parse_object_header(data: &[u8], pos: usize) -> (r: Result<(ObjectId, usize), String>)
    requires
        pos <= data@.len(),
    ensures
        r is Err <==> spec_object_header(data@, pos as int) is None,
        r matches Ok((id, end)) ==> spec_object_header(data@, pos as int) == Some((id, end as int)),
        r matches Ok((id, end)) ==> pos < end <= data@.len() && end >= 4 && data@.subrange(end - 4, end as int)
            == seq![32u8, 111u8, 98u8, 106u8],
{
    let _n = data.len();
    let (number, p) = match parse_integer(data, pos) {
        Some(x) => x,
        None => return Err(msg("Expected object number")),
    };
    let q = ws_end_exec(data, p);
    if q == p {
        return Err(msg("Expected white space in object header"));
    }
    let (generation, p2) = match parse_integer(data, q) {
        Some(x) => x,
        None => return Err(msg("Expected generation number")),
    };
    let obj: [u8; 4] = [32, 111, 98, 106];
    proof {
        assert(obj@ =~= seq![32u8, 111u8, 98u8, 106u8]);
    }
    if !bytes_at(data, p2, obj.as_slice()) {
        return Err(msg("Expected obj keyword"));
    }
    if number < 0 || generation < 0 || number > 0xffff_ffff || generation > 0xffff {
        return Err(msg("Object id out of range"));
    }
    Ok((ObjectId::new(number as u32, generation as u16), p2 + 4))
}

/// Whether `w` occurs in `d` at `j`.
pub open spec fn occurs_at(d: Seq<u8>, w: Seq<u8>, j: int) -> bool {
    0 <= j && j + w.len() <= d.len() && d.subrange(j, j + w.len()) == w
}

/// Where `word` next occurs at or after `from`.
pub fn find_bytes(data: &[u8], from: usize, word: &[u8]) -> (r: Option<usize>)
    requires
        from <= data@.len(),
    ensures
        r matches Some(i) ==> from <= i && occurs_at(data@, word@, i as int) && forall|j: int|
            from <= j < i ==> !#[trigger] occurs_at(data@, word@, j),
        r is None ==> forall|j: int| from <= j ==> !#[trigger] occurs_at(data@, word@, j),
{
    if word.len() == 0 {
        proof {
            assert(data@.subrange(from as int, from as int) =~= word@);
        }
        return Some(from);
    }
    let mut i = from;
    while i < data.len()
        invariant
            from <= i <= data@.len(),
            word@.len() > 0,
            forall|j: int| from <= j < i ==> !#[trigger] occurs_at(data@, word@, j),
        decreases data@.len() - i,
    {
        if bytes_at(data, i, word) {
            return Some(i);
        }
        i = i + 1;
    }
    None
}

/// The first place at or after `i` where `w` occurs in `d`.
pub open spec fn first_occ_from(d: Seq<u8>, w: Seq<u8>, i: int) -> Option<int>
    decreases d.len() + 1 - i,
{
    if i < 0 || i > d.len() {
        None
    } else if occurs_at(d, w, i) {
        Some(i)
    } else {
        first_occ_from(d, w, i + 1)
    }
}

/// Places where `w` does not occur do not change the first occurrence.
pub proof fn lemma_first_occ_skip(d: Seq<u8>, w: Seq<u8>, m: int, n: int)
    requires
        0 <= m <= n <= d.len() + 1,
        forall|j: int| m <= j < n ==> !#[trigger] occurs_at(d, w, j),
    ensures
        first_occ_from(d, w, m) == first_occ_from(d, w, n),
    decreases n - m,
{
    if m < n {
        lemma_first_occ_skip(d, w, m + 1, n);
    }
}

/// The keyword `stream`.
pub open spec fn stream_word() -> Seq<u8> {
    seq![115u8, 116u8, 114u8, 101u8, 97u8, 109u8]
}

/// The keyword `endstream`.
pub open spec fn endstream_word() -> Seq<u8> {
    seq![101u8, 110u8, 100u8, 115u8, 116u8, 114u8, 101u8, 97u8, 109u8]
}

/// The keyword `endobj`.
pub open spec fn endobj_word() -> Seq<u8> {
    seq![101u8, 110u8, 100u8, 111u8, 98u8, 106u8]
}

/// Where a stream's data starts after the keyword `stream` ending at `s`:
/// past one CR LF, LF or CR.
pub open spec fn stream_data_start(d: Seq<u8>, s: int) -> int {
    if d.len() - s >= 2 && d[s] == 13 && d[s + 1] == 10 {
        s + 2
    } else if s < d.len() && (d[s] == 10 || d[s] == 13) {
        s + 1
    } else {
        s
    }
}

/// Where a stream's data ends and its `endstream` keyword ends, the data
/// starting at `s`: `declared` bytes when they are followed (after white
/// space) by `endstream`, else up to the first `endstream`, without the
/// line end before it; none without `endstream`.
pub open spec fn stream_span(d: Seq<u8>, s: int, declared: Option<int>) -> Option<(int, int)> {
    let by_length: Option<(int, int)> = match declared {
        Some(n) => if n <= d.len() - s && occurs_at(d, endstream_word(), skip_ws_spec(d, s + n)) {
            Some((s + n, skip_ws_spec(d, s + n) + 9))
        } else {
            None
        },
        None => None,
    };
    if by_length is Some {
        by_length
    } else {
        match first_occ_from(d, endstream_word(), s) {
            None => None,
            Some(e) => {
                let d_end = if e > s && d[e - 1] == 10 {
                    if e - 1 > s && d[e - 2] == 13 {
                        e - 2
                    } else {
                        e - 1
                    }
                } else if e > s && d[e - 1] == 13 {
                    e - 1
                } else {
                    e
                };
                Some((d_end, e + 9))
            },
        }
    }
}

/// The length a stream declares: the given one, else a `/Length` integer
/// that fits the data after `s`.
pub open spec fn declared_length(
    d: Seq<u8>,
    s: int,
    entries: Seq<(Seq<char>, SpecValue)>,
    stream_length: Option<usize>,
) -> Option<int> {
    match stream_length {
        Some(n) => Some(n as int),
        None => match crate::types::spec_dict_get(entries, crate::types::name_text("Length"@)) {
            Some(SpecValue::Integer(n)) => if 0 <= n <= d.len() - s {
                Some(n)
            } else {
                None
            },
            _ => None,
        },
    }
}

/// The indirect object at `pos` and where it ends: its header, its value,
/// a dictionary followed by `stream` becoming a stream with the data that
/// `stream_span` gives, and a closing `endobj` taken when present.
pub open spec fn spec_indirect(d: Seq<u8>, pos: int, max_depth: int, stream_length: Option<usize>) -> Option<
    ((ObjectId, SpecValue), int),
> {
    match spec_object_header(d, pos) {
        None => None,
        Some((id, p)) => match spec_value(d, p, 0, max_depth) {
            None => None,
            Some((v, vend)) => {
                let e0 = skip_ws_spec(d, vend);
                let body: Option<(SpecValue, int)> = match v {
                    SpecValue::Dictionary(entries) => if keyword_match(d, e0, stream_word()) {
                        let s = stream_data_start(d, e0 + 6);
                        match stream_span(d, s, declared_length(d, s, entries, stream_length)) {
                            None => None,
                            Some((d_end, after)) => Some(
                                (SpecValue::Stream(entries, d.subrange(s, d_end), false), skip_ws_spec(d, after)),
                            ),
                        }
                    } else {
                        Some((v, e0))
                    },
                    _ => Some((v, e0)),
                };
                match body {
                    None => None,
                    Some((value, e1)) => {
                        let e2 = if keyword_match(d, e1, endobj_word()) {
                            e1 + 6
                        } else if e1 < vend {
                            vend
                        } else {
                            e1
                        };
                        Some(((id, value), if e2 > p { e2 } else { vend }))
                    },
                }
            },
        },
    }
}

/// The length a stream declares (see `declared_length`).
fn declared_stream_length(data: &[u8], s: usize, dict: &PdfDictionary, stream_length: Option<usize>) -> (r: Option<
    usize,
>)
    requires
        s <= data@.len(),
    ensures
        match declared_length(data@, s as int, dict.sv_entries(), stream_length) {
            Some(x) => r matches Some(y) && y == x,
            None => r is None,
        },
{
    match stream_length {
        Some(n) => Some(n),
        None => match dict.get("Length") {
            Some(lv) => {
                proof {
                    lemma_value_view(lv);
                }
                match lv {
                    PdfValue::Integer(n) => {
                        if *n >= 0 && (*n as u64) <= (data.len() - s) as u64 {
                            Some(*n as usize)
                        } else {
                            None
                        }
                    },
                    _ => None,
                }
            },
            None => None,
        },
    }
}

/// Where a stream's data and its `endstream` end (see `stream_span`).
fn find_stream_span(data: &[u8], s: usize, declared: Option<usize>) -> (r: Option<(usize, usize)>)
    requires
        s <= data@.len(),
    ensures
        match stream_span(data@, s as int, match declared {
            Some(n) => Some(n as int),
            None => None,
        }) {
            Some((d_end, after)) => r matches Some((x, y)) && x == d_end && y == after,
            None => r is None,
        },
        r matches Some((x, y)) ==> s <= x <= y <= data@.len(),
{
    let endstream_kw: [u8; 9] = [101, 110, 100, 115, 116, 114, 101, 97, 109];
    let n = data.len();
    proof {
        assert(endstream_kw@ =~= endstream_word());
        assert(data@.len() == n);
    }
    match declared {
        Some(n) => {
            if n <= data.len() - s {
                let t = skip_ws(data, s + n);
                if bytes_at(data, t, endstream_kw.as_slice()) {
                    return Some((s + n, t + 9));
                }
            }
        },
        None => {},
    }
    match find_bytes(data, s, endstream_kw.as_slice()) {
        Some(e) => {
            proof {
                lemma_first_occ_skip(data@, endstream_word(), s as int, e as int);
                assert(occurs_at(data@, endstream_word(), e as int));
                assert(e + 9 <= data@.len());
            }
            let mut d_end = e;
            if d_end > s && data[d_end - 1] == 10 {
                d_end = d_end - 1;
                if d_end > s && data[d_end - 1] == 13 {
                    d_end = d_end - 1;
                }
            } else if d_end > s && data[d_end - 1] == 13 {
                d_end = d_end - 1;
            }
            Some((d_end, e + 9))
        },
        None => {
            proof {
                lemma_first_occ_skip(data@, endstream_word(), s as int, (data@.len() + 1) as int);
            }
            None
        },
    }
}

/// An indirect object `n g obj value endobj` at `pos`; a dictionary
/// followed by `stream` makes a stream, whose data are `stream_length`
/// bytes when given, else `/Length` bytes when that is a number that ends
/// at `endstream`, else the bytes up to `endstream`.
pub fn parse_indirect_object(
    data: &[u8],
    pos: usize,
    max_depth: usize,
    budget: &ResourceBudget,
    stream_length: Option<usize>,
) -> (r: Result<((ObjectId, PdfValue), usize), String>)
    requires
        pos <= data@.len(),
    ensures
        r matches Ok((x, end)) ==> pos < end <= data@.len(),
        spec_object_header(data@, pos as int) is None ==> r is Err,
        r matches Ok((x, end)) ==> (spec_object_header(data@, pos as int) matches Some((id, _)) && x.0 == id),
        r matches Ok((x, end)) ==> (spec_object_header(data@, pos as int) matches Some((_, h)) && (is_simple_start(
            data@,
            skip_ws_spec(data@, h),
        ) ==> (spec_simple_value(data@, skip_ws_spec(data@, h)) matches Some((sv, _)) && x.1.sv() == sv))),
        r matches Ok((x, end)) ==> spec_indirect(data@, pos as int, max_depth as int, stream_length) == Some(
            ((x.0, x.1.sv()), end as int),
        ),
        spec_indirect(data@, pos as int, max_depth as int, stream_length) is None ==> r is Err,
        spec_indirect(data@, pos as int, max_depth as int, stream_length) is Some ==> (r is Ok || (r matches Err(m)
            && budget_text(m@))),
{
    let n = data.len();
    assert(data@.len() == n);
    let (id, p) = parse_object_header(data, pos)?;
    let (value, vend) = parse_value(data, p, 0, max_depth, budget)?;
    let mut end = skip_ws(data, vend);
    let stream_kw: [u8; 6] = [115, 116, 114, 101, 97, 109];
    let endobj_kw: [u8; 6] = [101, 110, 100, 111, 98, 106];
    proof {
        assert(stream_kw@ =~= stream_word());
        assert(endobj_kw@ =~= endobj_word());
        lemma_value_view(&value);
    }
    let ghost vsv = value.sv();
    let ghost e0 = end as int;
    let result = match value {
        PdfValue::Dictionary(dict) => {
            let sk = stream_kw.as_slice();
            if keyword_at(data, end, sk) {
                let mut s = end + 6;
                if data.len() - s >= 2 && data[s] == 13 && data[s + 1] == 10 {
                    s = s + 2;
                } else if s < data.len() && (data[s] == 10 || data[s] == 13) {
                    s = s + 1;
                }
                let declared = declared_stream_length(data, s, &dict, stream_length);
                let stream_end = find_stream_span(data, s, declared);
                match stream_end {
                    Some((d_end, after)) => {
                        let bytes = vstd::slice::slice_to_vec(vstd::slice::slice_subrange(data, s, d_end));
                        if budget.consume_input(bytes.len() as u64).is_err() {
                            return Err(msg("Input budget exceeded"));
                        }
                        end = skip_ws(data, after);
                        let sv = PdfValue::Stream(PdfStream::new(dict, bytes));
                        proof {
                            lemma_value_view(&sv);
                        }
                        sv
                    },
                    None => return Err(msg("Unterminated stream")),
                }
            } else {
                let dv = PdfValue::Dictionary(dict);
                proof {
                    lemma_value_view(&dv);
                }
                dv
            }
        },
        other => other,
    };
    if keyword_at(data, end, endobj_kw.as_slice()) {
        end = end + 6;
    } else if end < vend {
        end = vend;
    }
    Ok(((id, result), if end > p { end } else { vend }))
}

/// The offsets that the `n` pairs of object number and offset from `p`
/// give, each offset counted from `first`; none where a pair is missing,
/// negative, or an offset does not fit.
pub open spec fn spec_stream_offsets(d: Seq<u8>, p: int, n: nat, first: int) -> Option<Seq<usize>>
    decreases n,
{
    if n == 0 {
        Some(Seq::<usize>::empty())
    } else {
        match spec_integer_at(d, skip_ws_spec(d, p)) {
            None => None,
            Some((number, q2)) => match spec_integer_at(d, skip_ws_spec(d, q2)) {
                None => None,
                Some((offset, q4)) => {
                    if number < 0 || offset < 0 || offset > usize::MAX - first {
                        None
                    } else {
                        match spec_stream_offsets(d, q4, (n - 1) as nat, first) {
                            None => None,
                            Some(rest) => Some(seq![(first + offset) as usize] + rest),
                        }
                    }
                },
            },
        }
    }
}

/// The offsets of the objects of an object stream: `n` pairs of object
/// number and offset, each offset counted from `first`.
pub fn parse_object_stream_offsets(data: &[u8], n: usize, first: usize, budget: &ResourceBudget) -> (r: Result<
    Vec<usize>,
    String,
>)
    ensures
        r matches Ok(v) ==> v@.len() == n,
        r matches Ok(v) ==> spec_stream_offsets(data@, 0, n as nat, first as int) == Some(v@),
        spec_stream_offsets(data@, 0, n as nat, first as int) is None ==> r is Err,
        spec_stream_offsets(data@, 0, n as nat, first as int) is Some ==> (r is Ok || (r matches Err(m) && budget_text(
            m@,
        ))),
{
    let mut offsets: Vec<usize> = Vec::new();
    let mut p: usize = 0;
    let mut k: usize = 0;
    while k < n
        invariant
            p <= data@.len(),
            k <= n,
            offsets@.len() == k,
            spec_stream_offsets(data@, 0, n as nat, first as int) == match spec_stream_offsets(
                data@,
                p as int,
                (n - k) as nat,
                first as int,
            ) {
                Some(rest) => Some(offsets@ + rest),
                None => None,
            },
        decreases n - k,
    {
        proof {
            assert(offsets@ + Seq::<usize>::empty() =~= offsets@);
        }
        if budget.consume_object().is_err() {
            return Err(msg("Object budget exceeded"));
        }
        let q = skip_ws(data, p);
        let (number, q2) = match parse_integer(data, q) {
            Some(x) => x,
            None => return Err(msg("Invalid object stream header")),
        };
        let q3 = skip_ws(data, q2);
        let (offset, q4) = match parse_integer(data, q3) {
            Some(x) => x,
            None => return Err(msg("Invalid object stream header")),
        };
        if number < 0 || offset < 0 || offset as u64 > (usize::MAX - first) as u64 {
            return Err(msg("Invalid object stream header"));
        }
        let ghost before = offsets@;
        offsets.push(first + offset as usize);
        proof {
            assert forall|rest: Seq<usize>| #[trigger] (before + (seq![(first + offset) as usize] + rest)) == offsets@
                + rest by {
                assert(before + (seq![(first + offset) as usize] + rest) =~= offsets@ + rest);
            }
        }
        p = q4;
        k = k + 1;
    }
    proof {
        assert(offsets@ + Seq::<usize>::empty() =~= offsets@);
    }
    Ok(offsets)
}

} // verus!
