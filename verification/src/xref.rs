//! Cross-reference tables and streams, and linearization dictionaries.
use crate::limits::{PerformanceLimits, ResourceBudget, ResourceBudgetError};
use crate::text::{concat3, decimal, i64_text, msg, u64_text, usize_text};
use crate::types::{lemma_array_view, lemma_value_view, name_text, ObjectId, PdfDictionary, PdfReal, PdfStream, PdfValue, SpecValue, StreamData};
use crate::reference_resolver::{digits_value, lemma_digits_grow};
use crate::object_parser::digits_end;
use vstd::prelude::*;

verus! {

#[derive(Debug, Clone, Copy, PartialEq, Eq, Structural)]
pub enum XRefEntry {
    InUse { offset: u64, generation: u16 },
    Free { next_free_object: u32, generation: u16 },
    Compressed { stream_object: u32, index: u32 },
}

impl XRefEntry {
    pub open spec fn spec_generation(self) -> u16 {
        match self {
            XRefEntry::InUse { generation, .. } => generation,
            XRefEntry::Free { generation, .. } => generation,
            XRefEntry::Compressed { .. } => 0,
        }
    }

    pub fn generation(&self) -> (r: u16)
        ensures
            r == self.spec_generation(),
    {
        match self {
            XRefEntry::InUse { generation, .. } => *generation,
            XRefEntry::Free { generation, .. } => *generation,
            XRefEntry::Compressed { .. } => 0,
        }
    }

    /// In use: a plain object or one inside an object stream.
    pub fn is_in_use(&self) -> (r: bool)
        ensures
            r == (*self is InUse || *self is Compressed),
    {
        match self {
            XRefEntry::InUse { .. } | XRefEntry::Compressed { .. } => true,
            XRefEntry::Free { .. } => false,
        }
    }

    pub fn is_free(&self) -> (r: bool)
        ensures
            r == (*self is Free),
    {
        match self {
            XRefEntry::Free { .. } => true,
            _ => false,
        }
    }

    pub fn offset(&self) -> (r: Option<u64>)
        ensures
            match *self {
                XRefEntry::InUse { offset, .. } => r == Some(offset),
                _ => r is None,
            },
    {
        match self {
            XRefEntry::InUse { offset, .. } => Some(*offset),
            _ => None,
        }
    }
}

/// What a linearization dictionary declares.
#[derive(Debug, Clone, Copy, PartialEq, Eq, Structural)]
pub struct LinearizationInfo {
    pub version: PdfReal,
    pub file_length: u64,
    pub hint_stream_offset: u64,
    pub hint_stream_length: Option<u64>,
    pub object_count: u32,
    pub first_page_object_number: u32,
    pub first_page_end_offset: u64,
    pub main_xref_table_entries: u32,
}

/// The big-endian unsigned value of `s`.
pub open spec fn be_value(s: Seq<u8>) -> nat
    decreases s.len(),
{
    if s.len() == 0 {
        0
    } else {
        be_value(s.drop_last()) * 256 + s.last() as nat
    }
}

pub open spec fn pow256(n: nat) -> nat
    decreases n,
{
    if n == 0 {
        1
    } else {
        pow256((n - 1) as nat) * 256
    }
}

proof fn lemma_pow256_bound(n: nat)
    requires
        n <= 8,
    ensures
        pow256(n) <= 0x1_0000_0000_0000_0000,
    decreases n,
{
    reveal_with_fuel(pow256, 9);
}

proof fn lemma_be_value_bound(s: Seq<u8>)
    ensures
        be_value(s) < pow256(s.len()),
    decreases s.len(),
{
    if s.len() > 0 {
        lemma_be_value_bound(s.drop_last());
        let a = be_value(s.drop_last());
        let p = pow256((s.len() - 1) as nat);
        let b = s.last() as nat;
        assert(a * 256 + b < p * 256) by (nonlinear_arith)
            requires
                a < p,
                b < 256,
        ;
    }
}

/// Reads a big-endian integer of at most 8 bytes.
pub(crate) fn read_int_field(data: &[u8]) -> (r: u64)
    requires
        data@.len() <= 8,
    ensures
        r == be_value(data@),
{
    let mut result: u64 = 0;
    let mut i: usize = 0;
    while i < data.len()
        invariant
            i <= data@.len(),
            data@.len() <= 8,
            result == be_value(data@.take(i as int)),
        decreases data@.len() - i,
    {
        proof {
            lemma_be_value_bound(data@.take(i as int));
            lemma_pow256_bound((i + 1) as nat);
            let p = pow256(i as nat);
            assert(result * 256 + data@[i as int] < p * 256) by (nonlinear_arith)
                requires
                    result < p,
                    data@[i as int] < 256,
            ;
            assert(data@.take(i + 1).drop_last() =~= data@.take(i as int));
        }
        result = result * 256 + data[i] as u64;
        i = i + 1;
    }
    proof {
        assert(data@.take(i as int) =~= data@);
    }
    result
}

/// A field of `width` bytes at `start`, or `default` when the width is 0.
pub open spec fn field_value(data: Seq<u8>, start: nat, width: nat, default: nat) -> nat {
    if width > 0 {
        be_value(data.subrange(start as int, (start + width) as int))
    } else {
        default
    }
}

/// The entry that a cross-reference stream row holds: field 1 is the type
/// (1 when absent), field 2 and field 3 its two numbers; `None` for an
/// unknown type or a number too large for its place.
pub open spec fn spec_stream_entry(data: Seq<u8>, w1: nat, w2: nat, w3: nat) -> Option<XRefEntry> {
    let t = field_value(data, 0, w1, 1);
    let f2 = field_value(data, w1, w2, 0);
    let f3 = field_value(data, w1 + w2, w3, 0);
    if t == 0 {
        if f2 <= u32::MAX && f3 <= u16::MAX {
            Some(XRefEntry::Free { next_free_object: f2 as u32, generation: f3 as u16 })
        } else {
            None
        }
    } else if t == 1 {
        if f3 <= u16::MAX {
            Some(XRefEntry::InUse { offset: f2 as u64, generation: f3 as u16 })
        } else {
            None
        }
    } else if t == 2 {
        if f2 <= u32::MAX && f3 <= u32::MAX {
            Some(XRefEntry::Compressed { stream_object: f2 as u32, index: f3 as u32 })
        } else {
            None
        }
    } else {
        None
    }
}

pub open spec fn widths_ok(data: Seq<u8>, w1: nat, w2: nat, w3: nat) -> bool {
    w1 <= 8 && w2 <= 8 && w3 <= 8 && data.len() >= w1 + w2 + w3
}

fn read_field(data: &[u8], start: usize, width: usize, default: u64) -> (r: u64)
    requires
        width <= 8,
        start + width <= data.len(),
    ensures
        r == field_value(data@, start as nat, width as nat, default as nat),
{
    if width > 0 {
        let slice = vstd::slice::slice_subrange(data, start, start + width);
        read_int_field(slice)
    } else {
        default
    }
}

/// Decodes one row of a cross-reference stream with field widths
/// `w1`, `w2`, `w3`.
pub fn parse_xref_stream_entry(data: &[u8], w1: usize, w2: usize, w3: usize) -> (r: Result<
    XRefEntry,
    String,
>)
    ensures
        r is Ok <==> widths_ok(data@, w1 as nat, w2 as nat, w3 as nat) && spec_stream_entry(
            data@,
            w1 as nat,
            w2 as nat,
            w3 as nat,
        ) is Some,
        r matches Ok(e) ==> spec_stream_entry(data@, w1 as nat, w2 as nat, w3 as nat) == Some(e),
        r matches Err(m) ==> !widths_ok(data@, w1 as nat, w2 as nat, w3 as nat) || {
            let t = field_value(data@, 0, w1 as nat, 1);
            &&& t > 2 ==> m@ == "Invalid XRef entry type: "@ + decimal(t)
            &&& t == 1 ==> m@ == "XRef generation overflow"@
        },
{
    if w1 > 8 || w2 > 8 || w3 > 8 || data.len() < w1 + w2 + w3 {
        return Err(msg("XRef entry has invalid field widths or length"));
    }
    let type_field = read_field(data, 0, w1, 1);
    let field2 = read_field(data, w1, w2, 0);
    let field3 = read_field(data, w1 + w2, w3, 0);
    if type_field == 0 {
        if field2 > 0xffff_ffff {
            return Err(msg("XRef free-object number overflow"));
        }
        if field3 > 0xffff {
            return Err(msg("XRef generation overflow"));
        }
        Ok(XRefEntry::Free { next_free_object: field2 as u32, generation: field3 as u16 })
    } else if type_field == 1 {
        if field3 > 0xffff {
            return Err(msg("XRef generation overflow"));
        }
        Ok(XRefEntry::InUse { offset: field2, generation: field3 as u16 })
    } else if type_field == 2 {
        if field2 > 0xffff_ffff {
            return Err(msg("XRef object stream number overflow"));
        }
        if field3 > 0xffff_ffff {
            return Err(msg("XRef object stream index overflow"));
        }
        Ok(XRefEntry::Compressed { stream_object: field2 as u32, index: field3 as u32 })
    } else {
        let mut m = msg("Invalid XRef entry type: ");
        let t = u64_text(type_field);
        m.append(t.as_str());
        Err(m)
    }
}

/// The first `n` entries of a subsection that starts at object `start` and
/// at byte `offset` of `data`, each row `esize` bytes wide, with the byte
/// offset after them.  Rows stop at the end of the data; `None` when a row
/// does not decode or an object number passes `u32::MAX`.
pub open spec fn section_prefix(
    data: Seq<u8>,
    offset: nat,
    start: nat,
    n: nat,
    w1: nat,
    w2: nat,
    w3: nat,
) -> Option<(Seq<(ObjectId, XRefEntry)>, nat)>
    decreases n,
{
    if n == 0 {
        Some((Seq::empty(), offset))
    } else {
        match section_prefix(data, offset, start, (n - 1) as nat, w1, w2, w3) {
            None => None,
            Some((s, off)) => {
                let esize = w1 + w2 + w3;
                if off + esize > data.len() {
                    Some((s, off))
                } else {
                    match spec_stream_entry(data.subrange(off as int, (off + esize) as int), w1, w2, w3) {
                        None => None,
                        Some(e) => if start + (n - 1) > u32::MAX {
                            None
                        } else {
                            Some(
                                (
                                    s.push(
                                        (
                                            ObjectId {
                                                number: (start + (n - 1)) as u32,
                                                generation: e.spec_generation(),
                                            },
                                            e,
                                        ),
                                    ),
                                    off + esize,
                                ),
                            )
                        },
                    }
                }
            },
        }
    }
}

/// All entries of the first `k` subsections `(start, count)` of `pairs`.
pub open spec fn sections_prefix(
    data: Seq<u8>,
    pairs: Seq<(u64, u64)>,
    k: nat,
    w1: nat,
    w2: nat,
    w3: nat,
) -> Option<(Seq<(ObjectId, XRefEntry)>, nat)>
    decreases k,
{
    if k == 0 {
        Some((Seq::empty(), 0))
    } else {
        match sections_prefix(data, pairs, (k - 1) as nat, w1, w2, w3) {
            None => None,
            Some((s, off)) => {
                let (start, count) = pairs[k - 1];
                if start > u32::MAX || count > u32::MAX {
                    None
                } else {
                    match section_prefix(data, off, start as nat, count as nat, w1, w2, w3) {
                        None => None,
                        Some((t, off2)) => Some((s + t, off2)),
                    }
                }
            },
        }
    }
}

proof fn lemma_section_stops(
    data: Seq<u8>,
    offset: nat,
    start: nat,
    i: nat,
    n: nat,
    w1: nat,
    w2: nat,
    w3: nat,
)
    requires
        i <= n,
        section_prefix(data, offset, start, i, w1, w2, w3) matches Some((s, off)) && off + w1 + w2 + w3
            > data.len(),
    ensures
        section_prefix(data, offset, start, n, w1, w2, w3) == section_prefix(data, offset, start, i, w1, w2, w3),
    decreases n - i,
{
    if i < n {
        lemma_section_stops(data, offset, start, i, (n - 1) as nat, w1, w2, w3);
    }
}

proof fn lemma_section_offset(
    data: Seq<u8>,
    offset: nat,
    start: nat,
    n: nat,
    w1: nat,
    w2: nat,
    w3: nat,
)
    requires
        offset <= data.len(),
    ensures
        section_prefix(data, offset, start, n, w1, w2, w3) matches Some((s, off)) ==> offset <= off <= data.len(),
    decreases n,
{
    if n > 0 {
        lemma_section_offset(data, offset, start, (n - 1) as nat, w1, w2, w3);
    }
}

proof fn lemma_sections_offset(data: Seq<u8>, pairs: Seq<(u64, u64)>, k: nat, w1: nat, w2: nat, w3: nat)
    ensures
        sections_prefix(data, pairs, k, w1, w2, w3) matches Some((s, off)) ==> off <= data.len(),
    decreases k,
{
    if k > 0 {
        lemma_sections_offset(data, pairs, (k - 1) as nat, w1, w2, w3);
        if let Some((s, off)) = sections_prefix(data, pairs, (k - 1) as nat, w1, w2, w3) {
            let (start, count) = pairs[k - 1];
            lemma_section_offset(data, off, start as nat, count as nat, w1, w2, w3);
        }
    }
}

/// Non-negative integers of an array, or the index of the first element
/// that is not one.
pub open spec fn spec_index_values(a: Seq<SpecValue>) -> Option<Seq<u64>>
    decreases a.len(),
{
    if a.len() == 0 {
        Some(Seq::empty())
    } else {
        match spec_index_values(a.drop_last()) {
            None => None,
            Some(s) => match a.last() {
                SpecValue::Integer(v) => if v >= 0 {
                    Some(s.push(v as u64))
                } else {
                    None
                },
                _ => None,
            },
        }
    }
}

pub open spec fn pairs_of(v: Seq<u64>) -> Seq<(u64, u64)> {
    Seq::new(v.len() / 2, |i: int| (v[2 * i], v[2 * i + 1]))
}

/// The widths of `/W` when it is an array of three non-negative integers
/// no larger than 8 and not all zero.
pub open spec fn spec_widths(dict: &PdfDictionary) -> Option<(nat, nat, nat)> {
    match dict.spec_get("W"@) {
        Some(SpecValue::Array(a)) => if a.len() == 3 {
            match (a[0], a[1], a[2]) {
                (SpecValue::Integer(x), SpecValue::Integer(y), SpecValue::Integer(z)) => if 0 <= x
                    <= 8 && 0 <= y <= 8 && 0 <= z <= 8 && x + y + z > 0 {
                    Some((x as nat, y as nat, z as nat))
                } else {
                    None
                },
                _ => None,
            }
        } else {
            None
        },
        _ => None,
    }
}

/// The message that refuses width `i` of `/W`, or none when it is a
/// non-negative integer that fits a `usize`.
pub open spec fn width_error(v: SpecValue, i: nat) -> Option<Seq<char>> {
    match v {
        SpecValue::Integer(x) => if 0 <= x <= usize::MAX {
            None
        } else {
            Some("XRef /W["@ + decimal(i) + "] must be non-negative"@)
        },
        _ => Some("XRef /W["@ + decimal(i) + "] must be an integer"@),
    }
}

/// What reading `/W` gives: the three widths, or the message that refuses
/// them, the first check that fails deciding.
pub open spec fn spec_widths_result(dict: &PdfDictionary) -> Result<(nat, nat, nat), Seq<char>> {
    match dict.spec_get("W"@) {
        Some(SpecValue::Array(a)) => if a.len() != 3 {
            Err("W array must have exactly 3 elements"@)
        } else if width_error(a[0], 0) is Some {
            Err(width_error(a[0], 0)->Some_0)
        } else if width_error(a[1], 1) is Some {
            Err(width_error(a[1], 1)->Some_0)
        } else if width_error(a[2], 2) is Some {
            Err(width_error(a[2], 2)->Some_0)
        } else {
            let (x, y, z) = (a[0]->Integer_0, a[1]->Integer_0, a[2]->Integer_0);
            if x > 8 || y > 8 || z > 8 {
                Err("XRef field widths cannot exceed 8 bytes"@)
            } else if x + y + z == 0 {
                Err("Invalid W array - all widths are zero"@)
            } else {
                Ok((x as nat, y as nat, z as nat))
            }
        },
        _ => Err("Missing W array in XRef stream"@),
    }
}

/// The non-negative integers of an array, or the message naming its first
/// element that is not one.
pub open spec fn spec_index_values_result(a: Seq<SpecValue>) -> Result<Seq<u64>, Seq<char>>
    decreases a.len(),
{
    if a.len() == 0 {
        Ok(Seq::empty())
    } else {
        match spec_index_values_result(a.drop_last()) {
            Err(m) => Err(m),
            Ok(s) => match a.last() {
                SpecValue::Integer(v) => if v >= 0 {
                    Ok(s.push(v as u64))
                } else {
                    Err("XRef /Index["@ + decimal((a.len() - 1) as nat) + "] must be non-negative"@)
                },
                _ => Err("XRef /Index["@ + decimal((a.len() - 1) as nat) + "] must be an integer"@),
            },
        }
    }
}

/// What reading the subsections gives: the pairs, or the message that
/// refuses them.
pub open spec fn spec_index_result(dict: &PdfDictionary) -> Result<Seq<(u64, u64)>, Seq<char>> {
    match dict.spec_get("Index"@) {
        Some(SpecValue::Array(a)) => match spec_index_values_result(a) {
            Ok(v) => if v.len() % 2 == 0 {
                Ok(pairs_of(v))
            } else {
                Err("XRef /Index must contain start/count pairs"@)
            },
            Err(m) => Err(m),
        },
        Some(_) => Err("XRef /Index must be an array"@),
        None => match dict.spec_get("Size"@) {
            Some(SpecValue::Integer(size)) => if size >= 0 {
                Ok(seq![(0u64, size as u64)])
            } else {
                Err("XRef /Size must be non-negative"@)
            },
            _ => Err("Missing XRef /Size"@),
        },
    }
}

/// The text of an error that a decoded-bytes charge may give.
pub open spec fn decode_budget_message(budget: &ResourceBudget, m: Seq<char>) -> bool {
    ||| m == "resource budget exceeded: "@ + crate::limits::budget_error_name(ResourceBudgetError::DecodedBytes)
    ||| m == "resource budget exceeded: "@ + crate::limits::budget_error_name(ResourceBudgetError::Cancelled)
    ||| (m == "resource budget exceeded: "@ + crate::limits::budget_error_name(ResourceBudgetError::Deadline)
        && budget.deadline is Some)
}

/// The subsections of the stream: `/Index` when present, else `[0 Size]`.
pub open spec fn spec_index_pairs(dict: &PdfDictionary) -> Option<Seq<(u64, u64)>> {
    match dict.spec_get("Index"@) {
        Some(SpecValue::Array(a)) => match spec_index_values(a) {
            Some(v) => if v.len() % 2 == 0 {
                Some(pairs_of(v))
            } else {
                None
            },
            None => None,
        },
        Some(_) => None,
        None => match dict.spec_get("Size"@) {
            Some(SpecValue::Integer(size)) => if size >= 0 {
                Some(seq![(0u64, size as u64)])
            } else {
                None
            },
            _ => None,
        },
    }
}

/// The stream has no filter to undo.
pub open spec fn unfiltered(dict: &PdfDictionary) -> bool {
    match dict.spec_get("Filter"@) {
        None => true,
        Some(SpecValue::Array(a)) => a.len() == 0,
        _ => false,
    }
}

pub open spec fn stream_bytes(s: &PdfStream) -> Seq<u8> {
    match &s.data {
        StreamData::Raw(b) => b@,
        StreamData::Decoded(b) => b@,
    }
}

/// The entries that a cross-reference stream lists, when its dictionary
/// and data are well formed and the decoded data fits the budget.
pub open spec fn spec_xref_stream(stream: &PdfStream) -> Option<Seq<(ObjectId, XRefEntry)>> {
    match (spec_widths(&stream.dict), spec_index_pairs(&stream.dict)) {
        (Some((w1, w2, w3)), Some(pairs)) => if unfiltered(&stream.dict) {
            match sections_prefix(stream_bytes(stream), pairs, pairs.len(), w1, w2, w3) {
                Some((entries, _)) => Some(entries),
                None => None,
            }
        } else {
            None
        },
        _ => None,
    }
}

fn width_at(w: &Vec<PdfValue>, index: usize) -> (r: Result<usize, String>)
    requires
        index < w@.len(),
    ensures
        match width_error(w@[index as int].sv(), index as nat) {
            Some(m) => r matches Err(e) && e@ == m,
            None => r == Ok::<usize, String>(w@[index as int].sv()->Integer_0 as usize),
        },
        match w@[index as int].sv() {
            SpecValue::Integer(v) => if v >= 0 {
                (v <= usize::MAX && r == Ok::<usize, String>(v as usize)) || (v > usize::MAX && r is Err)
            } else {
                r matches Err(m) && m@ == "XRef /W["@ + decimal(index as nat) + "] must be non-negative"@
            },
            _ => r matches Err(m) && m@ == "XRef /W["@ + decimal(index as nat) + "] must be an integer"@,
        },
{
    proof {
        lemma_value_view(&w@[index as int]);
    }
    match w[index].as_integer() {
        Some(v) => {
            if v < 0 {
                let i = usize_text(index);
                Err(concat3("XRef /W[", i.as_str(), "] must be non-negative"))
            } else if v as u64 > usize::MAX as u64 {
                let i = usize_text(index);
                Err(concat3("XRef /W[", i.as_str(), "] must be non-negative"))
            } else {
                Ok(v as usize)
            }
        },
        None => {
            let i = usize_text(index);
            proof {
                reveal_strlit("XRef /W[");
                reveal_strlit("] must be an integer");
            }
            Err(concat3("XRef /W[", i.as_str(), "] must be an integer"))
        },
    }
}

/// Reads `/W`: three non-negative integers, none above 8, not all zero.
pub fn extract_widths(dict: &PdfDictionary) -> (r: Result<(usize, usize, usize), String>)
    ensures
        match spec_widths_result(dict) {
            Ok((a, b, c)) => r == Ok::<(usize, usize, usize), String>((a as usize, b as usize, c as usize)),
            Err(m) => r matches Err(e) && e@ == m,
        },
        r is Ok <==> spec_widths(dict) is Some,
        r matches Ok((a, b, c)) ==> spec_widths(dict) == Some((a as nat, b as nat, c as nat)),
        r matches Err(m) ==> (dict.spec_get("W"@) matches Some(SpecValue::Array(a)) && a.len() == 3 && (
            forall|i: int| 0 <= i < 3 ==> #[trigger] a[i] is Integer && 0 <= a[i]->Integer_0 <= usize::MAX) && exists|i: int|
            0 <= i < 3 && a[i]->Integer_0 > 8) ==> m@ == "XRef field widths cannot exceed 8 bytes"@,
{
    let wv = match dict.get("W") {
        Some(v) => v,
        None => return Err(msg("Missing W array in XRef stream")),
    };
    proof {
        lemma_value_view(wv);
    }
    let w = match wv.as_array() {
        Some(a) => a,
        None => return Err(msg("Missing W array in XRef stream")),
    };
    proof {
        lemma_array_view(w);
    }
    if w.len() != 3 {
        return Err(msg("W array must have exactly 3 elements"));
    }
    proof {
        lemma_value_view(&w@[0]);
        lemma_value_view(&w@[1]);
        lemma_value_view(&w@[2]);
    }
    let w1 = width_at(w, 0)?;
    let w2 = width_at(w, 1)?;
    let w3 = width_at(w, 2)?;
    if w1 > 8 || w2 > 8 || w3 > 8 {
        return Err(msg("XRef field widths cannot exceed 8 bytes"));
    }
    if w1 + w2 + w3 == 0 {
        return Err(msg("Invalid W array - all widths are zero"));
    }
    proof {
        let a = array_sv_of(w);
        assert(dict.spec_get("W"@) == Some(SpecValue::Array(a)));
        assert(a[0] == SpecValue::Integer(w1 as int));
        assert(a[1] == SpecValue::Integer(w2 as int));
        assert(a[2] == SpecValue::Integer(w3 as int));
    }
    Ok((w1, w2, w3))
}

fn index_values(a: &Vec<PdfValue>) -> (r: Result<Vec<u64>, String>)
    ensures
        match spec_index_values_result(array_sv_of(a)) {
            Ok(v) => r matches Ok(x) && x@ == v,
            Err(m) => r matches Err(e) && e@ == m,
        },
        r is Ok <==> spec_index_values(array_sv_of(a)) is Some,
        r matches Ok(v) ==> spec_index_values(array_sv_of(a)) == Some(v@),
        r matches Err(m) ==> exists|i: nat| #![trigger decimal(i)] i < a@.len() && (m@ == "XRef /Index["@ + decimal(i) + "] must be non-negative"@
            || m@ == "XRef /Index["@ + decimal(i) + "] must be an integer"@),
{
    proof {
        lemma_array_view(a);
    }
    let mut out: Vec<u64> = Vec::new();
    let mut i: usize = 0;
    while i < a.len()
        invariant
            i <= a@.len(),
            array_sv_of(a).len() == a@.len(),
            forall|j: int| 0 <= j < a@.len() ==> #[trigger] array_sv_of(a)[j] == a@[j].sv(),
            spec_index_values(array_sv_of(a).take(i as int)) == Some(out@),
            spec_index_values_result(array_sv_of(a).take(i as int)) == Ok::<Seq<u64>, Seq<char>>(out@),
        decreases a@.len() - i,
    {
        proof {
            lemma_value_view(&a@[i as int]);
            assert(array_sv_of(a).take(i + 1).drop_last() =~= array_sv_of(a).take(i as int));
        }
        match a[i].as_integer() {
            Some(v) => {
                if v < 0 {
                    proof {
                        lemma_index_values_prefix(array_sv_of(a), (i + 1) as nat);
                        lemma_index_values_result_prefix(array_sv_of(a), (i + 1) as nat);
                    }
                    let t = usize_text(i);
                    return Err(concat3("XRef /Index[", t.as_str(), "] must be non-negative"));
                }
                out.push(v as u64);
            },
            None => {
                proof {
                    lemma_index_values_prefix(array_sv_of(a), (i + 1) as nat);
                    lemma_index_values_result_prefix(array_sv_of(a), (i + 1) as nat);
                }
                let t = usize_text(i);
                return Err(concat3("XRef /Index[", t.as_str(), "] must be an integer"));
            },
        }
        i = i + 1;
    }
    proof {
        assert(array_sv_of(a).take(i as int) =~= array_sv_of(a));
    }
    Ok(out)
}

pub open spec fn array_sv_of(a: &Vec<PdfValue>) -> Seq<SpecValue> {
    crate::types::array_sv(a)
}

/// When a prefix of an array is refused, the whole array is refused with
/// the same message.
proof fn lemma_index_values_result_prefix(a: Seq<SpecValue>, k: nat)
    requires
        k <= a.len(),
        spec_index_values_result(a.take(k as int)) is Err,
    ensures
        spec_index_values_result(a) == spec_index_values_result(a.take(k as int)),
    decreases a.len() - k,
{
    if k < a.len() {
        assert(a.take((k + 1) as int).drop_last() =~= a.take(k as int));
        lemma_index_values_result_prefix(a, k + 1);
    } else {
        assert(a.take(k as int) =~= a);
    }
}

/// When a prefix of an array is refused, the whole array is.
proof fn lemma_index_values_prefix(a: Seq<SpecValue>, k: nat)
    requires
        k <= a.len(),
        spec_index_values(a.take(k as int)) is None,
    ensures
        spec_index_values(a) is None,
    decreases a.len() - k,
{
    if k < a.len() {
        assert(a.take((k + 1) as int).drop_last() =~= a.take(k as int));
        lemma_index_values_prefix(a, k + 1);
    } else {
        assert(a.take(k as int) =~= a);
    }
}

/// Reads the subsections: `/Index` when present, else `[0 Size]`.
pub fn extract_index_pairs(dict: &PdfDictionary) -> (r: Result<Vec<(u64, u64)>, String>)
    ensures
        match spec_index_result(dict) {
            Ok(v) => r matches Ok(x) && x@ == v,
            Err(m) => r matches Err(e) && e@ == m,
        },
        r is Ok <==> spec_index_pairs(dict) is Some,
        r matches Ok(v) ==> spec_index_pairs(dict) == Some(v@),
{
    match dict.get("Index") {
        Some(value) => {
            proof {
                lemma_value_view(value);
            }
            let array = match value.as_array() {
                Some(a) => a,
                None => return Err(msg("XRef /Index must be an array")),
            };
            let values = index_values(array)?;
            if values.len() % 2 != 0 {
                return Err(msg("XRef /Index must contain start/count pairs"));
            }
            let mut pairs: Vec<(u64, u64)> = Vec::new();
            let mut i: usize = 0;
            while i < values.len() / 2
                invariant
                    values@.len() % 2 == 0,
                    i <= values@.len() / 2,
                    pairs@ =~= pairs_of(values@).take(i as int),
                decreases values@.len() / 2 - i,
            {
                pairs.push((values[2 * i], values[2 * i + 1]));
                i = i + 1;
            }
            proof {
                assert(pairs_of(values@).take(i as int) =~= pairs_of(values@));
            }
            Ok(pairs)
        },
        None => {
            let size = match dict.get("Size") {
                Some(v) => {
                    proof {
                        lemma_value_view(v);
                    }
                    match v.as_integer() {
                        Some(n) => n,
                        None => return Err(msg("Missing XRef /Size")),
                    }
                },
                None => return Err(msg("Missing XRef /Size")),
            };
            if size < 0 {
                return Err(msg("XRef /Size must be non-negative"));
            }
            let mut pairs: Vec<(u64, u64)> = Vec::new();
            pairs.push((0, size as u64));
            proof {
                assert(pairs@ =~= seq![(0u64, size as u64)]);
            }
            Ok(pairs)
        },
    }
}

/// Whether the stream carries no `/Filter` (or an empty one).
pub fn is_unfiltered(dict: &PdfDictionary) -> (r: bool)
    ensures
        r == unfiltered(dict),
{
    match dict.get("Filter") {
        None => true,
        Some(v) => {
            proof {
                lemma_value_view(v);
            }
            match v.as_array() {
                Some(a) => {
                    proof {
                        lemma_array_view(a);
                    }
                    a.len() == 0
                },
                None => false,
            }
        },
    }
}

/// The stream's data, charged to the decoded-bytes budget.  Only streams
/// without filters can be decoded here; their data is the stream's bytes.
pub fn decode_unfiltered_stream(stream: &PdfStream, budget: &ResourceBudget) -> (r: Result<Vec<u8>, String>)
    ensures
        r matches Ok(v) ==> unfiltered(&stream.dict) && v@ == stream_bytes(stream),
        !unfiltered(&stream.dict) ==> r is Err,
        !unfiltered(&stream.dict) ==> (r matches Err(m) && m@ == "unsupported stream filter"@),
        unfiltered(&stream.dict) ==> (r is Ok || (r matches Err(m) && decode_budget_message(budget, m@))),
        stream_bytes(stream).len() > budget.max_decoded_bytes_per_stream ==> r is Err,
{
    if !is_unfiltered(&stream.dict) {
        return Err(msg("unsupported stream filter"));
    }
    let bytes = stream.data.bytes();
    match budget.consume_decoded(bytes.len() as u64) {
        Ok(()) => Ok(vstd::slice::slice_to_vec(bytes)),
        Err(e) => {
            Err(e.to_string())
        },
    }
}

/// Parses the entries of a cross-reference stream (PDF 1.5 and later).
///
/// The dictionary gives the field widths (`/W`) and the subsections
/// (`/Index`, else `[0 Size]`); each subsection lists consecutive objects
/// from its start, one row per object, until the data runs out.
pub fn parse_xref_stream(stream: &PdfStream, limits: &PerformanceLimits) -> (r: Result<
    Vec<(ObjectId, XRefEntry)>,
    String,
>)
    ensures
        r matches Ok(v) ==> spec_xref_stream(stream) == Some(v@),
        spec_xref_stream(stream) is None ==> r is Err,
        stream_bytes(stream).len() > limits.budget.max_decoded_bytes_per_stream ==> r is Err,
        match (spec_widths_result(&stream.dict), spec_index_result(&stream.dict)) {
            (Err(m), _) => r matches Err(e) && e@ == m,
            (Ok(_), Err(m)) => r matches Err(e) && e@ == m,
            (Ok(_), Ok(_)) => if !unfiltered(&stream.dict) {
                r matches Err(e) && e@ == "Failed to decode XRef stream: unsupported stream filter"@
            } else {
                match spec_xref_stream(stream) {
                    Some(v) => r matches Ok(x) && x@ == v || (r matches Err(e) && e@.len() >= 30 && e@.subrange(0, 30)
                        == "Failed to decode XRef stream: "@ && decode_budget_message(
                        &limits.budget,
                        e@.subrange(30, e@.len() as int),
                    )),
                    None => r is Err,
                }
            },
        },
{
    let (w1, w2, w3) = extract_widths(&stream.dict)?;
    let pairs = extract_index_pairs(&stream.dict)?;
    let data = match decode_unfiltered_stream(stream, &limits.budget) {
        Ok(d) => d,
        Err(e) => {
            let mut m = msg("Failed to decode XRef stream: ");
            m.append(e.as_str());
            proof {
                reveal_strlit("Failed to decode XRef stream: ");
                reveal_strlit("unsupported stream filter");
                assert(m@.subrange(0, 30) =~= "Failed to decode XRef stream: "@);
                assert(m@.subrange(30, m@.len() as int) =~= e@);
                reveal_strlit("Failed to decode XRef stream: unsupported stream filter");
                assert("Failed to decode XRef stream: "@ + "unsupported stream filter"@
                    =~= "Failed to decode XRef stream: unsupported stream filter"@);
            }
            return Err(m);
        },
    };
    let entry_size = w1 + w2 + w3;
    let mut entries: Vec<(ObjectId, XRefEntry)> = Vec::new();
    let mut data_offset: usize = 0;
    let mut k: usize = 0;
    while k < pairs.len()
        invariant
            k <= pairs@.len(),
            w1 <= 8 && w2 <= 8 && w3 <= 8,
            entry_size == w1 + w2 + w3,
            sections_prefix(data@, pairs@, k as nat, w1 as nat, w2 as nat, w3 as nat) == Some(
                (entries@, data_offset as nat),
            ),
            data_offset <= data@.len(),
            spec_widths_result(&stream.dict) == Ok::<(nat, nat, nat), Seq<char>>((w1 as nat, w2 as nat, w3 as nat)),
            spec_index_result(&stream.dict) == Ok::<Seq<(u64, u64)>, Seq<char>>(pairs@),
            unfiltered(&stream.dict),
            data@ == stream_bytes(stream),
            spec_widths(&stream.dict) == Some((w1 as nat, w2 as nat, w3 as nat)),
            spec_index_pairs(&stream.dict) == Some(pairs@),
        decreases pairs@.len() - k,
    {
        let (start64, count64) = pairs[k];
        if start64 > 0xffff_ffff {
            proof {
                lemma_sections_fail(data@, pairs@, k as nat, w1 as nat, w2 as nat, w3 as nat);
            }
            return Err(msg("XRef object number overflow"));
        }
        if count64 > 0xffff_ffff {
            proof {
                lemma_sections_fail(data@, pairs@, k as nat, w1 as nat, w2 as nat, w3 as nat);
            }
            return Err(msg("XRef object count overflow"));
        }
        let start = start64 as u32;
        let count = count64 as u32;
        let ghost section_start = data_offset as nat;
        let ghost before = entries@;
        let mut i: u32 = 0;
        while i < count
            invariant_except_break
                i <= count,
                k < pairs@.len(),
                pairs@[k as int] == (start64, count64),
                start == start64,
                count == count64,
                sections_prefix(data@, pairs@, k as nat, w1 as nat, w2 as nat, w3 as nat) == Some(
                    (before, section_start),
                ),
                w1 <= 8 && w2 <= 8 && w3 <= 8,
                entry_size == w1 + w2 + w3,
                data_offset <= data@.len(),
                section_prefix(data@, section_start, start as nat, i as nat, w1 as nat, w2 as nat, w3 as nat)
                    == Some((entries@.subrange(before.len() as int, entries@.len() as int), data_offset as nat)),
                entries@.subrange(0, before.len() as int) == before,
                entries@.len() >= before.len(),
                spec_widths_result(&stream.dict) == Ok::<(nat, nat, nat), Seq<char>>((w1 as nat, w2 as nat, w3 as nat)),
                spec_index_result(&stream.dict) == Ok::<Seq<(u64, u64)>, Seq<char>>(pairs@),
                unfiltered(&stream.dict),
                data@ == stream_bytes(stream),
                spec_widths(&stream.dict) == Some((w1 as nat, w2 as nat, w3 as nat)),
                spec_index_pairs(&stream.dict) == Some(pairs@),
            ensures
                data_offset <= data@.len(),
                entries@.len() >= before.len(),
                entries@.subrange(0, before.len() as int) == before,
                section_prefix(data@, section_start, start as nat, count as nat, w1 as nat, w2 as nat, w3 as nat)
                    == Some((entries@.subrange(before.len() as int, entries@.len() as int), data_offset as nat)),
            decreases count - i,
        {
            if entry_size > data.len() - data_offset {
                proof {
                    lemma_section_stops(data@, section_start, start as nat, i as nat, count as nat, w1 as nat, w2 as nat, w3 as nat);
                }
                break;
            }
            let end = data_offset + entry_size;
            let row = vstd::slice::slice_subrange(data.as_slice(), data_offset, end);
            let entry = match parse_xref_stream_entry(row, w1, w2, w3) {
                Ok(e) => e,
                Err(e) => {
                    proof {
                        assert(row@ == data@.subrange(data_offset as int, end as int));
                        lemma_section_fails(data@, section_start, start as nat, i as nat, count as nat, w1 as nat, w2 as nat, w3 as nat);
                        lemma_sections_fail(data@, pairs@, k as nat, w1 as nat, w2 as nat, w3 as nat);
                    }
                    return Err(e);
                },
            };
            if start as u64 + i as u64 > 0xffff_ffff {
                proof {
                    assert(row@ == data@.subrange(data_offset as int, end as int));
                    lemma_section_fails(data@, section_start, start as nat, i as nat, count as nat, w1 as nat, w2 as nat, w3 as nat);
                    lemma_sections_fail(data@, pairs@, k as nat, w1 as nat, w2 as nat, w3 as nat);
                }
                return Err(msg("XRef object number overflow"));
            }
            let object_number = start + i;
            let obj_id = ObjectId::new(object_number, entry.generation());
            let ghost prev = entries@;
            entries.push((obj_id, entry));
            proof {
                assert(row@ == data@.subrange(data_offset as int, end as int));
                assert(entries@.subrange(before.len() as int, entries@.len() as int) =~= prev.subrange(
                    before.len() as int,
                    prev.len() as int,
                ).push((obj_id, entry)));
                assert(entries@.subrange(0, before.len() as int) =~= prev.subrange(0, before.len() as int));
            }
            data_offset = end;
            i = i + 1;
        }
        proof {
            assert(entries@ =~= before + entries@.subrange(before.len() as int, entries@.len() as int));
        }
        k = k + 1;
    }
    proof {
        assert(pairs@.len() == k);
    }
    Ok(entries)
}

/// The integer under `key`, when the value there is an integer.
pub open spec fn spec_int_entry(dict: &PdfDictionary, key: Seq<char>) -> Option<int> {
    match dict.spec_get(key) {
        Some(SpecValue::Integer(i)) => Some(i),
        _ => None,
    }
}

/// The integer at `index` of the array under `key`.
pub open spec fn spec_int_item(dict: &PdfDictionary, key: Seq<char>, index: int) -> Option<int> {
    match dict.spec_get(key) {
        Some(SpecValue::Array(a)) => if 0 <= index < a.len() {
            match a[index] {
                SpecValue::Integer(i) => Some(i),
                _ => None,
            }
        } else {
            None
        },
        _ => None,
    }
}

/// What a linearization dictionary holds, or the message that refuses it:
/// the fields are looked for in the order /L, /H, /N, /O, /E, /T, then
/// checked to be non-negative in the order /L, /H, /N, /O, /E, /T, and /N,
/// /O and /T to fit in 32 bits.
pub open spec fn spec_linearization(dict: &PdfDictionary) -> Result<
    (u64, u64, Option<u64>, u32, u32, u64, u32),
    Seq<char>,
> {
    let l = spec_int_entry(dict, "L"@);
    let h0 = spec_int_item(dict, "H"@, 0);
    let h1 = spec_int_item(dict, "H"@, 1);
    let n = spec_int_entry(dict, "N"@);
    let o = spec_int_entry(dict, "O"@);
    let e = spec_int_entry(dict, "E"@);
    let t = spec_int_entry(dict, "T"@);
    if dict.spec_get("Linearized"@) is None {
        Err("Not a linearized PDF - missing /Linearized entry"@)
    } else if l is None {
        Err("Missing /L (file length) in linearization dict"@)
    } else if h0 is None {
        Err("Missing /H (hint stream offset) in linearization dict"@)
    } else if n is None {
        Err("Missing /N (object count) in linearization dict"@)
    } else if o is None {
        Err("Missing /O (first page offset) in linearization dict"@)
    } else if e is None {
        Err("Missing /E (first page end) in linearization dict"@)
    } else if t is None {
        Err("Missing /T (main xref table entries) in linearization dict"@)
    } else if l->0 < 0 {
        Err("Linearization /L must be non-negative"@)
    } else if h0->0 < 0 || (h1 matches Some(x) && x < 0) {
        Err("Linearization /H must be non-negative"@)
    } else if n->0 < 0 {
        Err("Linearization /N must be non-negative"@)
    } else if n->0 > u32::MAX {
        Err("Linearization /N exceeds u32"@)
    } else if o->0 < 0 {
        Err("Linearization /O must be non-negative"@)
    } else if o->0 > u32::MAX {
        Err("Linearization /O exceeds u32"@)
    } else if e->0 < 0 {
        Err("Linearization /E must be non-negative"@)
    } else if t->0 < 0 {
        Err("Linearization /T must be non-negative"@)
    } else if t->0 > u32::MAX {
        Err("Linearization /T exceeds u32"@)
    } else {
        Ok(
            (
                l->0 as u64,
                h0->0 as u64,
                match h1 {
                    Some(x) => Some(x as u64),
                    None => None,
                },
                n->0 as u32,
                o->0 as u32,
                e->0 as u64,
                t->0 as u32,
            ),
        )
    }
}

fn int_entry(dict: &PdfDictionary, key: &str) -> (r: Option<i64>)
    ensures
        match r {
            Some(i) => spec_int_entry(dict, key@) == Some(i as int),
            None => spec_int_entry(dict, key@) is None,
        },
{
    match dict.get(key) {
        Some(v) => {
            proof {
                lemma_value_view(v);
            }
            match v {
                PdfValue::Integer(i) => Some(*i),
                _ => None,
            }
        },
        None => None,
    }
}

fn int_item(dict: &PdfDictionary, key: &str, index: usize) -> (r: Option<i64>)
    ensures
        match r {
            Some(i) => spec_int_item(dict, key@, index as int) == Some(i as int),
            None => spec_int_item(dict, key@, index as int) is None,
        },
{
    match dict.get(key) {
        Some(v) => {
            proof {
                lemma_value_view(v);
            }
            match v {
                PdfValue::Array(a) => {
                    proof {
                        lemma_array_view(a);
                    }
                    if index < a.len() {
                        proof {
                            lemma_value_view(&a@[index as int]);
                        }
                        match &a[index] {
                            PdfValue::Integer(i) => Some(*i),
                            _ => None,
                        }
                    } else {
                        None
                    }
                },
                _ => None,
            }
        },
        None => None,
    }
}

/// Reads a linearization dictionary: file length, hint stream, object
/// count, first page and main cross-reference size, each non-negative.
pub fn parse_linearization_dict(stream: &PdfStream) -> (r: Result<LinearizationInfo, String>)
    ensures
        match spec_linearization(&stream.dict) {
            Ok((l, h, hl, n, o, e, t)) => r matches Ok(info) && info.file_length == l && info.hint_stream_offset == h
                && info.hint_stream_length == hl && info.object_count == n && info.first_page_object_number == o
                && info.first_page_end_offset == e && info.main_xref_table_entries == t && info.version == (
            match stream.dict.spec_get("Linearized"@) {
                Some(SpecValue::Real(m, sc)) => PdfReal { mantissa: m as i64, scale: sc as u32 },
                Some(SpecValue::Integer(i)) => PdfReal { mantissa: i as i64, scale: 0 },
                _ => PdfReal { mantissa: 1, scale: 0 },
            }),
            Err(m) => r matches Err(x) && x@ == m,
        },
{
    let dict = &stream.dict;
    if !dict.contains_key("Linearized") {
        return Err(msg("Not a linearized PDF - missing /Linearized entry"));
    }
    let version = match dict.get("Linearized") {
        Some(v) => {
            proof {
                lemma_value_view(v);
            }
            match v.as_real() {
                Some(x) => x,
                None => PdfReal::new(1, 0),
            }
        },
        None => PdfReal::new(1, 0),
    };
    let l = match int_entry(dict, "L") {
        Some(x) => x,
        None => return Err(msg("Missing /L (file length) in linearization dict")),
    };
    let h0 = match int_item(dict, "H", 0) {
        Some(x) => x,
        None => return Err(msg("Missing /H (hint stream offset) in linearization dict")),
    };
    let h1 = int_item(dict, "H", 1);
    let n = match int_entry(dict, "N") {
        Some(x) => x,
        None => return Err(msg("Missing /N (object count) in linearization dict")),
    };
    let o = match int_entry(dict, "O") {
        Some(x) => x,
        None => return Err(msg("Missing /O (first page offset) in linearization dict")),
    };
    let e = match int_entry(dict, "E") {
        Some(x) => x,
        None => return Err(msg("Missing /E (first page end) in linearization dict")),
    };
    let t = match int_entry(dict, "T") {
        Some(x) => x,
        None => return Err(msg("Missing /T (main xref table entries) in linearization dict")),
    };
    if l < 0 {
        return Err(msg("Linearization /L must be non-negative"));
    }
    if h0 < 0 {
        return Err(msg("Linearization /H must be non-negative"));
    }
    let hint_length = match h1 {
        Some(x) => {
            if x < 0 {
                return Err(msg("Linearization /H must be non-negative"));
            }
            Some(x as u64)
        },
        None => None,
    };
    if n < 0 {
        return Err(msg("Linearization /N must be non-negative"));
    }
    if n > 0xffff_ffff {
        return Err(msg("Linearization /N exceeds u32"));
    }
    if o < 0 {
        return Err(msg("Linearization /O must be non-negative"));
    }
    if o > 0xffff_ffff {
        return Err(msg("Linearization /O exceeds u32"));
    }
    if e < 0 {
        return Err(msg("Linearization /E must be non-negative"));
    }
    if t < 0 {
        return Err(msg("Linearization /T must be non-negative"));
    }
    if t > 0xffff_ffff {
        return Err(msg("Linearization /T exceeds u32"));
    }
    Ok(
        LinearizationInfo {
            version,
            file_length: l as u64,
            hint_stream_offset: h0 as u64,
            hint_stream_length: hint_length,
            object_count: n as u32,
            first_page_object_number: o as u32,
            first_page_end_offset: e as u64,
            main_xref_table_entries: t as u32,
        },
    )
}

/// Whether the bytes start with `xref`.
pub open spec fn starts_with_xref(d: Seq<u8>) -> bool {
    d.len() >= 4 && d.subrange(0, 4) == seq![120u8, 114u8, 101u8, 102u8]
}

/// Why a cross-reference table was refused.
#[derive(Debug, Clone, Copy, PartialEq, Eq, Structural)]
pub enum XRefTableError {
    /// The bytes are no table.
    Malformed,
    /// The table has more entries than the object budget allows.
    TooLarge,
}

/// Where the run of bytes from `p` that `pred` accepts ends.
fn run_end_digits(data: &[u8], p: usize) -> (r: usize)
    requires
        p <= data@.len(),
    ensures
        p <= r <= data@.len(),
        forall|i: int| p <= i < r ==> 48 <= #[trigger] data@[i] <= 57,
        r == data@.len() || !(48 <= data@[r as int] <= 57),
        r == digits_end(data@, p as int),
{
    let mut q = p;
    while q < data.len() && 48 <= data[q] && data[q] <= 57
        invariant
            p <= q <= data@.len(),
            forall|i: int| p <= i < q ==> 48 <= #[trigger] data@[i] <= 57,
            digits_end(data@, q as int) == digits_end(data@, p as int),
        decreases data@.len() - q,
    {
        q = q + 1;
    }
    q
}

/// The decimal value of `data[start..end]`, when it fits in `limit`.
fn decimal_value(data: &[u8], start: usize, end: usize, limit: u64) -> (r: Option<u64>)
    requires
        start <= end <= data@.len(),
        limit >= 9,
        forall|i: int| start <= i < end ==> 48 <= #[trigger] data@[i] <= 57,
    ensures
        r matches Some(v) ==> v <= limit && v == digits_value(data@, start as int, end as int),
        r == if digits_value(data@, start as int, end as int) <= limit {
            Some(digits_value(data@, start as int, end as int) as u64)
        } else {
            None::<u64>
        },
{
    proof {
        crate::reference_resolver::lemma_digits_nonneg(data@, start as int, end as int);
    }
    let mut value: u64 = 0;
    let mut i = start;
    while i < end
        invariant
            start <= i <= end <= data@.len(),
            value <= limit,
            limit >= 9,
            value == digits_value(data@, start as int, i as int),
            forall|k: int| start <= k < end ==> 48 <= #[trigger] data@[k] <= 57,
        decreases end - i,
    {
        assert(48 <= data@[i as int] <= 57);
        let d = (data[i] - 48) as u64;
        if value > (limit - d) / 10 {
            proof {
                assert(value * 10 + d > limit) by (nonlinear_arith)
                    requires
                        value > (limit - d) / 10,
                        d <= 9,
                        d <= limit,
                ;
                assert(digits_value(data@, start as int, i + 1) == value * 10 + d);
                lemma_digits_grow(data@, start as int, i + 1, end as int);
            }
            return None;
        }
        proof {
            assert(value * 10 + d <= limit) by (nonlinear_arith)
                requires
                    value <= (limit - d) / 10,
                    d <= 9,
                    d <= limit,
            ;
        }
        value = value * 10 + d;
        i = i + 1;
    }
    Some(value)
}

/// A space or a tab.
pub open spec fn is_blank(b: u8) -> bool {
    b == 32 || b == 9
}

/// Space, tab, carriage return or line feed.
pub open spec fn is_line_space(b: u8) -> bool {
    b == 32 || b == 9 || b == 13 || b == 10
}

/// Where the run of spaces and tabs from `i` ends.
pub open spec fn blank_end(d: Seq<u8>, i: int) -> int
    decreases d.len() - i,
{
    if 0 <= i < d.len() && is_blank(d[i]) {
        blank_end(d, i + 1)
    } else {
        i
    }
}

/// Where the run of spaces, tabs and line ends from `i` ends.
pub open spec fn line_space_end(d: Seq<u8>, i: int) -> int
    decreases d.len() - i,
{
    if 0 <= i < d.len() && is_line_space(d[i]) {
        line_space_end(d, i + 1)
    } else {
        i
    }
}

/// The decimal number of the longest digit run at `p`, with where the run
/// ends; none without digits or above `limit`.
pub open spec fn spec_decimal_at(d: Seq<u8>, p: int, limit: int) -> Option<(int, int)> {
    let a = digits_end(d, p);
    if a == p || digits_value(d, p, a) > limit {
        None
    } else {
        Some((digits_value(d, p, a), a))
    }
}

/// A table row at `p`: the offset (or next free object), blanks, the
/// generation, blanks, `n` or `f`, then any line space; and where it ends.
pub open spec fn spec_xref_entry(d: Seq<u8>, p: int) -> Option<(XRefEntry, int)> {
    match spec_decimal_at(d, p, 0xffff_ffff_ffff_ffff) {
        None => None,
        Some((offset, a)) => {
            let b = blank_end(d, a);
            if b == a {
                None
            } else {
                match spec_decimal_at(d, b, 0xffff) {
                    None => None,
                    Some((generation, c)) => {
                        let e = blank_end(d, c);
                        if e == c || e >= d.len() {
                            None
                        } else if d[e] == 110 {
                            Some(
                                (
                                    XRefEntry::InUse { offset: offset as u64, generation: generation as u16 },
                                    line_space_end(d, e + 1),
                                ),
                            )
                        } else if d[e] == 102 {
                            Some(
                                (
                                    XRefEntry::Free {
                                        next_free_object: (offset as u64) as u32,
                                        generation: generation as u16,
                                    },
                                    line_space_end(d, e + 1),
                                ),
                            )
                        } else {
                            None
                        }
                    },
                }
            }
        },
    }
}

/// A subsection header at `p`: first object number, blanks, count, then any
/// line space; and where it ends.
pub open spec fn spec_subsection_header(d: Seq<u8>, p: int) -> Option<((u32, u32), int)> {
    match spec_decimal_at(d, p, 0xffff_ffff) {
        None => None,
        Some((start, a)) => {
            let b = blank_end(d, a);
            if b == a {
                None
            } else {
                match spec_decimal_at(d, b, 0xffff_ffff) {
                    None => None,
                    Some((count, c)) => Some(((start as u32, count as u32), line_space_end(d, c))),
                }
            }
        },
    }
}

/// One or more spaces or tabs.
fn space1(data: &[u8], p: usize) -> (r: Option<usize>)
    requires
        p <= data@.len(),
    ensures
        r is None <==> blank_end(data@, p as int) == p,
        r matches Some(q) ==> q == blank_end(data@, p as int),
        match r {
            Some(q) => p < q <= data@.len() && (forall|i: int| p <= i < q ==> is_blank(#[trigger] data@[i])) && (q
                == data@.len() || !is_blank(data@[q as int])),
            None => p == data@.len() || !is_blank(data@[p as int]),
        },
{
    let mut q = p;
    while q < data.len() && (data[q] == 32 || data[q] == 9)
        invariant
            p <= q <= data@.len(),
            forall|i: int| p <= i < q ==> is_blank(#[trigger] data@[i]),
            blank_end(data@, q as int) == blank_end(data@, p as int),
        decreases data@.len() - q,
    {
        q = q + 1;
    }
    if q == p {
        None
    } else {
        Some(q)
    }
}

/// Spaces, tabs, carriage returns and line feeds.
fn multispace0(data: &[u8], p: usize) -> (r: usize)
    requires
        p <= data@.len(),
    ensures
        p <= r <= data@.len(),
        forall|i: int| p <= i < r ==> is_line_space(#[trigger] data@[i]),
        r == data@.len() || !is_line_space(data@[r as int]),
        r == line_space_end(data@, p as int),
{
    let mut q = p;
    while q < data.len() && (data[q] == 32 || data[q] == 9 || data[q] == 13 || data[q] == 10)
        invariant
            p <= q <= data@.len(),
            forall|i: int| p <= i < q ==> is_line_space(#[trigger] data@[i]),
            line_space_end(data@, q as int) == line_space_end(data@, p as int),
        decreases data@.len() - q,
    {
        q = q + 1;
    }
    q
}

/// One table row: ten-digit offset, five-digit generation, `n` or `f`.
fn parse_xref_entry(data: &[u8], p: usize) -> (r: Option<(XRefEntry, usize)>)
    requires
        p <= data@.len(),
    ensures
        r matches Some((e, q)) ==> p < q <= data@.len(),
        r is None <==> spec_xref_entry(data@, p as int) is None,
        r matches Some((e, q)) ==> spec_xref_entry(data@, p as int) == Some((e, q as int)),
{
    let a = run_end_digits(data, p);
    if a == p {
        return None;
    }
    let offset = decimal_value(data, p, a, 0xffff_ffff_ffff_ffff)?;
    let b = space1(data, a)?;
    let c = run_end_digits(data, b);
    if c == b {
        return None;
    }
    let generation = decimal_value(data, b, c, 0xffff)?;
    let d = space1(data, c)?;
    if d >= data.len() {
        return None;
    }
    let status = data[d];
    let entry = if status == 110 {
        XRefEntry::InUse { offset, generation: generation as u16 }
    } else if status == 102 {
        XRefEntry::Free { next_free_object: offset as u32, generation: generation as u16 }
    } else {
        return None;
    };
    Some((entry, multispace0(data, d + 1)))
}

/// A subsection header: first object number and count.
fn parse_xref_subsection_header(data: &[u8], p: usize) -> (r: Option<((u32, u32), usize)>)
    requires
        p <= data@.len(),
    ensures
        r matches Some((h, q)) ==> p < q <= data@.len(),
        r is None <==> spec_subsection_header(data@, p as int) is None,
        r matches Some((h, q)) ==> spec_subsection_header(data@, p as int) == Some((h, q as int)),
{
    let a = run_end_digits(data, p);
    if a == p {
        return None;
    }
    let start = decimal_value(data, p, a, 0xffff_ffff)?;
    let b = space1(data, a)?;
    let c = run_end_digits(data, b);
    if c == b {
        return None;
    }
    let count = decimal_value(data, b, c, 0xffff_ffff)?;
    Some(((start as u32, count as u32), multispace0(data, c)))
}

/// Whether `data` holds `xref` at `p`.
fn xref_keyword_at(data: &[u8], p: usize) -> (r: bool)
    requires
        p <= data@.len(),
    ensures
        r ==> p + 4 <= data@.len(),
        r == (data@.len() - p >= 4 && data@.subrange(p as int, p + 4) == seq![120u8, 114u8, 101u8, 102u8]),
{
    proof {
        if data@.len() - p >= 4 {
            assert(data@.subrange(p as int, p + 4) =~= seq![data@[p as int], data@[p + 1], data@[p + 2], data@[p + 3]]);
        }
    }
    data.len() - p >= 4 && data[p] == 120 && data[p + 1] == 114 && data[p + 2] == 101 && data[p + 3] == 102
}

/// The rows read one after another from `p`, and where the last ends.
pub open spec fn spec_rows(d: Seq<u8>, p: int) -> (Seq<XRefEntry>, int)
    decreases d.len() - p,
{
    match spec_xref_entry(d, p) {
        Some((e, q)) => {
            if q <= p || q > d.len() {
                (Seq::<XRefEntry>::empty(), p)
            } else {
                let (rest, end) = spec_rows(d, q);
                (seq![e] + rest, end)
            }
        },
        None => (Seq::<XRefEntry>::empty(), p),
    }
}

/// The entries of the first `kept` rows, numbered from `start`.
pub open spec fn numbered_rows(rows: Seq<XRefEntry>, start: int, kept: int) -> Seq<(ObjectId, XRefEntry)> {
    Seq::new(
        kept as nat,
        |i: int| (ObjectId { number: (start + i) as u32, generation: rows[i].spec_generation() }, rows[i]),
    )
}

/// One subsection at `p`: `Some(None)` without a header or a row,
/// `Some(Some(..))` with its first `count` rows and where its rows end,
/// `None` (refused) when a kept row's number passes 32 bits.
pub open spec fn spec_section(d: Seq<u8>, p: int) -> Option<Option<(Seq<(ObjectId, XRefEntry)>, int)>> {
    match spec_subsection_header(d, p) {
        None => Some(None),
        Some(((start, count), q)) => {
            let (rows, q2) = spec_rows(d, q);
            let kept: int = if rows.len() < count { rows.len() as int } else { count as int };
            if rows.len() == 0 {
                Some(None)
            } else if kept > 0 && start + kept - 1 > 0xffff_ffff {
                None
            } else {
                Some(Some((numbered_rows(rows, start as int, kept), q2)))
            }
        },
    }
}

/// The subsections read one after another from `p`: their entries, where
/// the last ends and how many there are; `None` when one is refused.
pub open spec fn spec_sections(d: Seq<u8>, p: int) -> Option<(Seq<(ObjectId, XRefEntry)>, int, nat)>
    decreases d.len() - p,
{
    match spec_section(d, p) {
        None => None,
        Some(None) => Some((Seq::<(ObjectId, XRefEntry)>::empty(), p, 0)),
        Some(Some((v, q))) => {
            if q <= p || q > d.len() {
                Some((Seq::<(ObjectId, XRefEntry)>::empty(), p, 0))
            } else {
                match spec_sections(d, q) {
                    None => None,
                    Some((rest, end, n)) => Some((v + rest, end, n + 1)),
                }
            }
        },
    }
}

/// A classic table: `xref`, line space, then one or more subsections.
pub open spec fn spec_xref_table(d: Seq<u8>) -> Option<(Seq<(ObjectId, XRefEntry)>, int)> {
    if !starts_with_xref(d) {
        None
    } else {
        match spec_sections(d, line_space_end(d, 4)) {
            Some((v, end, n)) => if n > 0 { Some((v, end)) } else { None },
            None => None,
        }
    }
}

/// A classic cross-reference table: `xref`, then subsections, each a
/// header and the rows after it; rows beyond a subsection's count are
/// read and left out. Returns the entries and where the table ends.
pub fn parse_xref_table(data: &[u8]) -> (r: Result<(Vec<(ObjectId, XRefEntry)>, usize), XRefTableError>)
    ensures
        r matches Ok((v, end)) ==> 4 < end <= data@.len(),
        !starts_with_xref(data@) ==> r == Err::<(Vec<(ObjectId, XRefEntry)>, usize), XRefTableError>(
            XRefTableError::Malformed,
        ),
        r is Err <==> spec_xref_table(data@) is None,
        r is Err ==> r == Err::<(Vec<(ObjectId, XRefEntry)>, usize), XRefTableError>(XRefTableError::Malformed),
        r matches Ok((v, end)) ==> spec_xref_table(data@) == Some((v@, end as int)),
{
    if !xref_keyword_at(data, 0) {
        return Err(XRefTableError::Malformed);
    }
    let mut p = multispace0(data, 4);
    let ghost p0 = p as int;
    let mut entries: Vec<(ObjectId, XRefEntry)> = Vec::new();
    let mut sections: usize = 0;
    loop
        invariant
            starts_with_xref(data@),
            4 <= p <= data@.len(),
            p0 == line_space_end(data@, 4),
            sections > 0 ==> p > 4,
            sections <= p,
            spec_sections(data@, p0) == match spec_sections(data@, p as int) {
                Some((rest, end, n)) => Some((entries@ + rest, end, (n + sections) as nat)),
                None => None,
            },
        ensures
            4 <= p <= data@.len(),
            sections > 0 ==> p > 4,
            spec_sections(data@, p0) == Some((entries@, p as int, sections as nat)),
        decreases data@.len() - p,
    {
        let ghost before = entries@;
        match parse_xref_section(data, p) {
            Err(e) => {
                proof {
                    assert(spec_sections(data@, p as int) is None);
                }
                return Err(e);
            },
            Ok(Some((mut section, q))) => {
                let ghost sec = section@;
                proof {
                    assert(spec_sections(data@, p as int) == match spec_sections(data@, q as int) {
                        None => None,
                        Some((rest, end, n)) => Some((sec + rest, end, n + 1)),
                    });
                }
                entries.append(&mut section);
                proof {
                    assert forall|rest: Seq<(ObjectId, XRefEntry)>| #[trigger] (before + (sec + rest)) == entries@
                        + rest by {
                        assert(before + (sec + rest) =~= entries@ + rest);
                    }
                }
                sections = sections + 1;
                p = q;
            },
            Ok(None) => {
                proof {
                    assert(spec_sections(data@, p as int) == Some((Seq::<(ObjectId, XRefEntry)>::empty(), p as int, 0nat)));
                    assert(entries@ + Seq::<(ObjectId, XRefEntry)>::empty() =~= entries@);
                }
                break;
            },
        }
    }
    if sections == 0 {
        return Err(XRefTableError::Malformed);
    }
    Ok((entries, p))
}

/// One subsection at `p`: its header, then the rows after it, of which
/// the first `count` are kept; `None` when there is no header or no row.
/// An object number past 32 bits refuses the table.
fn parse_xref_section(data: &[u8], p: usize) -> (r: Result<Option<(Vec<(ObjectId, XRefEntry)>, usize)>, XRefTableError>)
    requires
        p <= data@.len(),
    ensures
        r matches Ok(Some((v, q))) ==> p < q <= data@.len(),
        r is Err <==> spec_section(data@, p as int) is None,
        r is Err ==> r == Err::<Option<(Vec<(ObjectId, XRefEntry)>, usize)>, XRefTableError>(
            XRefTableError::Malformed,
        ),
        r matches Ok(x) ==> spec_section(data@, p as int) == Some(
            match x {
                Some((v, q)) => Some((v@, q as int)),
                None => None::<(Seq<(ObjectId, XRefEntry)>, int)>,
            },
        ),
{
    let ((start, count), q) = match parse_xref_subsection_header(data, p) {
        Some(h) => h,
        None => return Ok(None),
    };
    let mut rows: Vec<XRefEntry> = Vec::new();
    let mut q2 = q;
    loop
        invariant
            p < q <= q2 <= data@.len(),
            spec_rows(data@, q as int) == (rows@ + spec_rows(data@, q2 as int).0, spec_rows(data@, q2 as int).1),
        ensures
            p < q <= q2 <= data@.len(),
            spec_rows(data@, q as int) == (rows@, q2 as int),
        decreases data@.len() - q2,
    {
        let ghost before = rows@;
        match parse_xref_entry(data, q2) {
            Some((e, q3)) => {
                rows.push(e);
                proof {
                    assert(spec_rows(data@, q2 as int) == (seq![e] + spec_rows(data@, q3 as int).0, spec_rows(
                        data@,
                        q3 as int,
                    ).1));
                    assert(before + (seq![e] + spec_rows(data@, q3 as int).0) =~= rows@ + spec_rows(
                        data@,
                        q3 as int,
                    ).0);
                }
                q2 = q3;
            },
            None => {
                proof {
                    assert(spec_rows(data@, q2 as int) == (Seq::<XRefEntry>::empty(), q2 as int));
                    assert(rows@ + Seq::<XRefEntry>::empty() =~= rows@);
                }
                break;
            },
        }
    }
    if rows.len() == 0 {
        return Ok(None);
    }
    let ghost kept: int = if rows@.len() < count { rows@.len() as int } else { count as int };
    let mut entries: Vec<(ObjectId, XRefEntry)> = Vec::new();
    let mut i: usize = 0;
    while i < rows.len() && i < count as usize
        invariant
            i <= rows@.len(),
            i <= kept,
            kept == (if rows@.len() < count { rows@.len() as int } else { count as int }),
            i > 0 ==> start + i - 1 <= 0xffff_ffff,
            entries@ == numbered_rows(rows@, start as int, i as int),
            spec_subsection_header(data@, p as int) == Some(((start, count), q as int)),
            spec_rows(data@, q as int) == (rows@, q2 as int),
            p < q <= q2 <= data@.len(),
        decreases rows@.len() - i,
    {
        if i as u64 + start as u64 > 0xffff_ffff {
            proof {
                assert(i < kept);
                assert(spec_subsection_header(data@, p as int) == Some(((start, count), q as int)));
                assert(spec_rows(data@, q as int).0 == rows@);
                assert(kept > 0 && start + kept - 1 > 0xffff_ffff);
            }
            return Err(XRefTableError::Malformed);
        }
        let e = rows[i];
        entries.push((ObjectId::new(start + i as u32, e.generation()), e));
        proof {
            assert(entries@ =~= numbered_rows(rows@, start as int, i + 1));
        }
        i = i + 1;
    }
    proof {
        assert(i == kept);
    }
    Ok(Some((entries, q2)))
}

/// A cross-reference stream object at `pos`: an indirect object that is a
/// stream whose `/Type` is `XRef`, and where it ends.
pub fn parse_xref_stream_object(data: &[u8], pos: usize, limits: &PerformanceLimits) -> (r: Option<(PdfStream, usize)>)
    requires
        pos <= data@.len(),
    ensures
        r matches Some((s, end)) ==> pos < end <= data@.len(),
        crate::object_parser::spec_object_header(data@, pos as int) is None ==> r is None,
        r matches Some((s, end)) ==> s.dict.spec_get("Type"@) == Some(SpecValue::Name(name_text("XRef"@))),
{
    match crate::object_parser::parse_indirect_object(data, pos, limits.max_depth, &limits.budget, None) {
        Ok(((_, PdfValue::Stream(stream)), end)) => {
            let is_xref = match stream.dict.get("Type") {
                Some(v) => {
                    proof {
                        lemma_value_view(v);
                    }
                    match v {
                        PdfValue::Name(n) => n.matches_key("XRef"),
                        _ => false,
                    }
                },
                None => false,
            };
            if is_xref {
                Some((stream, end))
            } else {
                None
            }
        },
        _ => None,
    }
}

/// A classic table, possibly followed by a cross-reference stream, or a
/// cross-reference stream alone; and where what was read ends.
pub fn parse_hybrid_xref(data: &[u8], limits: &PerformanceLimits) -> (r: Result<
    ((Vec<(ObjectId, XRefEntry)>, Option<PdfStream>), usize),
    String,
>)
    ensures
        r matches Ok((_, end)) ==> end <= data@.len(),
        spec_xref_table(data@) matches Some((v, e)) ==> (r matches Ok(((entries, _), _)) && entries@ == v),
        spec_xref_table(data@) is None ==> (r matches Ok(((entries, stream), _)) ==> entries@.len() == 0
            && stream is Some),
{
    match parse_xref_table(data) {
        Ok((entries, end)) => {
            match parse_xref_stream_object(data, end, limits) {
                Some((stream, after)) => Ok(((entries, Some(stream)), after)),
                None => Ok(((entries, None), end)),
            }
        },
        Err(_) => match parse_xref_stream_object(data, 0, limits) {
            Some((stream, after)) => Ok(((Vec::new(), Some(stream)), after)),
            None => Err(msg("Expected xref table or xref stream")),
        },
    }
}

/// A classic cross-reference table read with a budget: each subsection
/// holds exactly as many rows as its count, and every row is charged as an
/// object. Returns the entries and where the table ends.
pub fn parse_xref_table_with_budget(data: &[u8], budget: &ResourceBudget) -> (r: Result<
    (Vec<(ObjectId, XRefEntry)>, usize),
    XRefTableError,
>)
    ensures
        r matches Ok((v, end)) ==> 4 < end <= data@.len(),
        !starts_with_xref(data@) ==> r == Err::<(Vec<(ObjectId, XRefEntry)>, usize), XRefTableError>(
            XRefTableError::Malformed,
        ),
{
    if !xref_keyword_at(data, 0) {
        return Err(XRefTableError::Malformed);
    }
    let mut p = multispace0(data, 4);
    let mut entries: Vec<(ObjectId, XRefEntry)> = Vec::new();
    let mut sections: usize = 0;
    loop
        invariant
            starts_with_xref(data@),
            4 <= p <= data@.len(),
            sections > 0 ==> p > 4,
            sections <= p,
        decreases data@.len() - p,
    {
        let ((start, count), q) = match parse_xref_subsection_header(data, p) {
            Some(h) => h,
            None => break,
        };
        let mut section: Vec<(ObjectId, XRefEntry)> = Vec::new();
        let mut q2 = q;
        let mut i: u32 = 0;
        let mut complete = true;
        while i < count
            invariant
                starts_with_xref(data@),
                p < q <= q2 <= data@.len(),
                i <= count,
            decreases count - i,
        {
            match parse_xref_entry(data, q2) {
                Some((e, q3)) => {
                    if budget.consume_object().is_err() {
                        return Err(XRefTableError::TooLarge);
                    }
                    if i as u64 + start as u64 > 0xffff_ffff {
                        return Err(XRefTableError::Malformed);
                    }
                    section.push((ObjectId::new(start + i, e.generation()), e));
                    q2 = q3;
                },
                None => {
                    complete = false;
                    break;
                },
            }
            i = i + 1;
        }
        if !complete {
            break;
        }
        entries.append(&mut section);
        sections = sections + 1;
        p = q2;
    }
    if sections == 0 {
        return Err(XRefTableError::Malformed);
    }
    Ok((entries, p))
}

/// A row that does not decode makes its subsection fail.
proof fn lemma_section_fails(
    data: Seq<u8>,
    offset: nat,
    start: nat,
    i: nat,
    n: nat,
    w1: nat,
    w2: nat,
    w3: nat,
)
    requires
        i < n,
        section_prefix(data, offset, start, (i + 1) as nat, w1, w2, w3) is None,
    ensures
        section_prefix(data, offset, start, n, w1, w2, w3) is None,
    decreases n - i,
{
    if i + 1 < n {
        lemma_section_fails(data, offset, start, i + 1, n, w1, w2, w3);
    }
}

/// A subsection that fails makes the whole stream fail.
proof fn lemma_sections_fail(data: Seq<u8>, pairs: Seq<(u64, u64)>, k: nat, w1: nat, w2: nat, w3: nat)
    requires
        k < pairs.len(),
        sections_prefix(data, pairs, (k + 1) as nat, w1, w2, w3) is None,
    ensures
        sections_prefix(data, pairs, pairs.len(), w1, w2, w3) is None,
    decreases pairs.len() - k,
{
    if k + 1 < pairs.len() {
        lemma_sections_fail(data, pairs, k + 1, w1, w2, w3);
    }
}

} // verus!
