//! Reading a whole PDF file held in memory: its header, cross-reference
//! sections and trailers, its objects (direct, in object streams, or found
//! by scanning), and the document structure built from them.
use crate::ast::{EdgeType, NodeId, NodeType};
use crate::document::{AstError, ParseDiagnostic, ParseMode, PdfDocument, PdfVersion, XRefMap};
use crate::limits::{PerformanceLimits, ResourceBudget};
use crate::object_parser::{
    bytes_at, find_bytes, parse_indirect_object, parse_integer, parse_object_header, parse_value, skip_ws,
};
use crate::text::{concat2, concat3, decimal, i64_text, msg, u64_text, usize_text};
use crate::types::{
    lemma_array_view, lemma_value_view, name_text, str_equal, ObjectId, PdfArray, PdfDictionary, PdfName, PdfReference,
    PdfStream, PdfValue, SpecValue,
};
use crate::xref::{be_value, field_value, parse_linearization_dict, spec_stream_entry, LinearizationInfo, XRefEntry};
use vstd::prelude::*;

verus! {

/// Form fields nest at most this deep.
pub const MAX_FORM_FIELD_DEPTH: usize = 64;

fn error(m: &str) -> (r: AstError)
    ensures
        r.message() == m@,
{
    AstError::ParseError(String::from_str(m))
}

/// Reads a PDF file held in memory.
pub struct PdfFileParser {
    pub data: Vec<u8>,
    pub mode: ParseMode,
    pub tolerant: bool,
    pub max_errors: usize,
    pub document: PdfDocument,
    pub object_cache: Vec<(ObjectId, PdfValue)>,
    pub xref_offset: Option<u64>,
    pub object_offsets: Vec<u64>,
    pub limits: PerformanceLimits,
    pub object_load_depth: usize,
}

/// The version a file announces: a header in its first 32 bytes; else, in
/// tolerant modes, one within its first kilobyte or 1.7 (also for a file
/// of fewer than 8 bytes); none in strict mode.
pub open spec fn spec_header_version(d: Seq<u8>, tolerant: bool) -> Option<PdfVersion> {
    let n: int = if d.len() < 32 { d.len() as int } else { 32 };
    let k: int = if d.len() < 1024 { d.len() as int } else { 1024 };
    if n < 8 {
        if tolerant {
            Some(PdfVersion { major: 1, minor: 7 })
        } else {
            None
        }
    } else {
        match spec_pdf_header(d.subrange(0, n), 0) {
            Some(v) => Some(v),
            None => if tolerant {
                match first_pdf_header(d.subrange(0, k), 0, if k > 8 { k - 8 } else { 0 }) {
                    Some(v) => Some(v),
                    None => Some(PdfVersion { major: 1, minor: 7 }),
                }
            } else {
                None
            },
        }
    }
}

/// The version a header `%PDF-M.m` at `p` announces: `%PDF-`, an integer,
/// `.`, and an integer that starts with a digit, both at most 255.
pub open spec fn spec_pdf_header(d: Seq<u8>, p: int) -> Option<PdfVersion> {
    if !crate::object_parser::occurs_at(d, seq![37u8, 80u8, 68u8, 70u8, 45u8], p) {
        None
    } else {
        match crate::object_parser::spec_integer_at(d, p + 5) {
            None => None,
            Some((major, q)) => {
                if q >= d.len() || d[q] != 46 || q + 1 >= d.len() || !(48 <= d[q + 1] <= 57) {
                    None
                } else {
                    match crate::object_parser::spec_integer_at(d, q + 1) {
                        None => None,
                        Some((minor, _)) => {
                            if major < 0 || major > 255 || minor < 0 || minor > 255 {
                                None
                            } else {
                                Some(PdfVersion { major: major as u8, minor: minor as u8 })
                            }
                        },
                    }
                }
            },
        }
    }
}

/// The first header among the places `i..limit` of `d` that start with
/// `%PDF` and announce a version.
pub open spec fn first_pdf_header(d: Seq<u8>, i: int, limit: int) -> Option<PdfVersion>
    decreases limit - i,
{
    if i >= limit {
        None
    } else if d[i] == 37 && d[i + 1] == 80 && d[i + 2] == 68 && d[i + 3] == 70 && spec_pdf_header(d, i) is Some {
        spec_pdf_header(d, i)
    } else {
        first_pdf_header(d, i + 1, limit)
    }
}

/// The version a header `%PDF-M.m` at `p` announces.
fn pdf_header(data: &[u8], p: usize) -> (r: Option<PdfVersion>)
    requires
        p <= data@.len(),
    ensures
        r == spec_pdf_header(data@, p as int),
{
    let n = data.len();
    let sig: [u8; 5] = [37, 80, 68, 70, 45];
    if !bytes_at(data, p, sig.as_slice()) {
        return None;
    }
    let (major, q) = parse_integer(data, p + 5)?;
    if q >= data.len() || data[q] != 46 {
        return None;
    }
    if q + 1 >= data.len() || data[q + 1] < 48 || data[q + 1] > 57 {
        return None;
    }
    let (minor, _) = parse_integer(data, q + 1)?;
    if major < 0 || major > 255 || minor < 0 || minor > 255 {
        return None;
    }
    Some(PdfVersion::new(major as u8, minor as u8))
}

impl PdfFileParser {
    pub open spec fn spec_tolerant(&self) -> bool {
        self.tolerant
    }

    pub open spec fn spec_max_depth(&self) -> usize {
        self.limits.max_depth
    }

    pub open spec fn spec_max_errors(&self) -> usize {
        self.max_errors
    }

    pub open spec fn spec_data(&self) -> Seq<u8> {
        self.data@
    }

    pub open spec fn spec_limits(&self) -> PerformanceLimits {
        self.limits
    }

    /// A parser with the default limits.
    pub fn new(data: Vec<u8>, mode: ParseMode, max_errors: usize) -> (r: Result<Self, AstError>)
        ensures
            r matches Ok(p) ==> p.spec_tolerant() == mode.spec_tolerant() && p.spec_data() == data@,
    {
        Self::new_with_limits(data, mode, max_errors, PerformanceLimits::default())
    }

    /// A parser for `data`: the header must announce a PDF (a file too
    /// small or without a header is taken as version 1.7 in tolerant
    /// modes), the file must fit the size limit, and its bytes are charged
    /// to the input budget.
    pub fn new_with_limits(data: Vec<u8>, mode: ParseMode, max_errors: usize, limits: PerformanceLimits) -> (r:
        Result<Self, AstError>)
        ensures
            r matches Ok(p) ==> p.spec_tolerant() == mode.spec_tolerant() && p.spec_data() == data@
                && p.spec_max_errors() == max_errors && p.spec_max_depth() == limits.max_depth
                && p.document.diagnostics@.len() == 0 && p.document.ast.nodes_spec().len() == 0
                && p.document.ast.next_id_spec() == 0 && p.xref_offset is None
                && p.document.trailer.sv_entries().len() == 0 && p.document.xref.entries.entries_spec().len() == 0
                && p.spec_limits() == limits,
            r is Ok ==> data@.len() <= crate::limits::mb_bytes_u64(limits.max_file_size_mb as nat),
            !mode.spec_tolerant() && data@.len() < 8 ==> (r matches Err(e) && e.message()
                == "File too small to be a PDF"@),
            r matches Ok(p) ==> spec_header_version(data@, mode.spec_tolerant()) == Some(p.document.version),
            spec_header_version(data@, mode.spec_tolerant()) is None ==> r is Err,
    {
        let tolerant = mode.is_tolerant();
        let version = Self::read_header(data.as_slice(), tolerant)?;
        let file_size = data.len() as u64;
        let max_file_size = crate::limits::mb_to_bytes_u64(limits.max_file_size_mb);
        if file_size > max_file_size {
            let mut m = msg("File too large: ");
            m.append(u64_text(file_size / 1048576).as_str());
            m.append("MB > ");
            m.append(usize_text(limits.max_file_size_mb).as_str());
            m.append("MB");
            return Err(AstError::ParseError(m));
        }
        match limits.budget.consume_input(file_size) {
            Ok(()) => {},
            Err(e) => return Err(AstError::ParseError(e.to_string())),
        }
        let mut document = PdfDocument::new(version);
        document.budget = ResourceBudget {
            max_input_bytes: limits.budget.max_input_bytes,
            max_decoded_bytes_total: limits.budget.max_decoded_bytes_total,
            max_decoded_bytes_per_stream: limits.budget.max_decoded_bytes_per_stream,
            max_decode_ratio: limits.budget.max_decode_ratio,
            max_objects: limits.budget.max_objects,
            max_nodes: limits.budget.max_nodes,
            max_edges: limits.budget.max_edges,
            max_depth: limits.budget.max_depth,
            deadline: limits.budget.deadline,
            cancellation: limits.budget.cancellation.clone(),
            counters: limits.budget.counters.clone(),
        };
        document.file_size = Some(file_size);
        Ok(
            PdfFileParser {
                data,
                mode,
                tolerant,
                max_errors,
                document,
                object_cache: Vec::new(),
                xref_offset: None,
                object_offsets: Vec::new(),
                limits,
                object_load_depth: 0,
            },
        )
    }

    /// The version the file announces; in tolerant modes a header found
    /// within the first kilobyte, else 1.7.
    fn read_header(data: &[u8], tolerant: bool) -> (r: Result<PdfVersion, AstError>)
        ensures
            match spec_header_version(data@, tolerant) {
                Some(v) => r == Ok::<PdfVersion, AstError>(v),
                None => r is Err,
            },
            !tolerant && data@.len() < 8 ==> (r matches Err(e) && e.message() == "File too small to be a PDF"@),
            tolerant ==> r is Ok,
    {
        let n = if data.len() < 32 {
            data.len()
        } else {
            32
        };
        if n < 8 {
            return Self::handle_small_file(tolerant);
        }
        let head = vstd::slice::slice_subrange(data, 0, n);
        match pdf_header(head, 0) {
            Some(v) => return Ok(v),
            None => {},
        }
        if tolerant {
            Ok(Self::search_header_in_buffer(data))
        } else {
            Err(error("Invalid PDF header"))
        }
    }

    fn handle_small_file(tolerant: bool) -> (r: Result<PdfVersion, AstError>)
        ensures
            tolerant ==> r == Ok::<PdfVersion, AstError>(PdfVersion { major: 1, minor: 7 }),
            !tolerant ==> (r matches Err(e) && e.message() == "File too small to be a PDF"@),
    {
        if tolerant {
            Ok(PdfVersion::new(1, 7))
        } else {
            Err(error("File too small to be a PDF"))
        }
    }

    /// A header anywhere in the first kilobyte, else version 1.7.
    fn search_header_in_buffer(data: &[u8]) -> (r: PdfVersion)
        ensures
            ({
                let n: int = if data@.len() < 1024 { data@.len() as int } else { 1024 };
                r == match first_pdf_header(data@.subrange(0, n), 0, if n > 8 { n - 8 } else { 0 }) {
                    Some(v) => v,
                    None => PdfVersion { major: 1, minor: 7 },
                }
            }),
    {
        let n = if data.len() < 1024 {
            data.len()
        } else {
            1024
        };
        let search = vstd::slice::slice_subrange(data, 0, n);
        let limit = if n > 8 {
            n - 8
        } else {
            0
        };
        let mut i: usize = 0;
        while i < limit
            invariant
                n == search@.len(),
                n == (if data@.len() < 1024 { data@.len() as int } else { 1024 }),
                search@ == data@.subrange(0, n as int),
                limit == if n > 8 { n - 8 } else { 0 },
                i <= limit,
                first_pdf_header(search@, 0, limit as int) == first_pdf_header(search@, i as int, limit as int),
            decreases limit - i,
        {
            if search[i] == 37 && search[i + 1] == 80 && search[i + 2] == 68 && search[i + 3] == 70 {
                match pdf_header(search, i) {
                    Some(v) => {
                        proof {
                            assert(first_pdf_header(search@, i as int, limit as int) == Some(v));
                            assert(first_pdf_header(data@.subrange(0, n as int), 0, limit as int) == Some(v));
                        }
                        return v;
                    },
                    None => {},
                }
            }
            i = i + 1;
        }
        PdfVersion::new(1, 7)
    }

    /// How far the header line and the line breaks after it reach.
    pub fn skip_pdf_header(buffer: &[u8]) -> (r: usize)
        ensures
            r <= buffer@.len(),
            r < buffer@.len() ==> buffer@[r as int] != 10 && buffer@[r as int] != 13,
            forall|i: int| 0 <= i < r ==> (#[trigger] buffer@[i] == 10 || buffer@[i] == 13) ==> forall|j: int|
                i <= j < r ==> (#[trigger] buffer@[j] == 10 || buffer@[j] == 13),
    {
        let mut pos: usize = 0;
        while pos < buffer.len() && buffer[pos] != 10 && buffer[pos] != 13
            invariant
                pos <= buffer@.len(),
                forall|i: int| 0 <= i < pos ==> #[trigger] buffer@[i] != 10 && buffer@[i] != 13,
            decreases buffer@.len() - pos,
        {
            pos = pos + 1;
        }
        let ghost line_end = pos;
        while pos < buffer.len() && (buffer[pos] == 10 || buffer[pos] == 13)
            invariant
                line_end <= pos <= buffer@.len(),
                forall|i: int| line_end <= i < pos ==> (#[trigger] buffer@[i] == 10 || buffer@[i] == 13),
                forall|i: int| 0 <= i < line_end ==> #[trigger] buffer@[i] != 10 && buffer@[i] != 13,
            decreases buffer@.len() - pos,
        {
            pos = pos + 1;
        }
        pos
    }

    /// Records a diagnostic; refused once `max_errors` are recorded.
    fn record_diagnostic(
        &mut self,
        object_id: Option<ObjectId>,
        offset: Option<u64>,
        error_code: &str,
        recovery_action: &str,
        confidence_percent: u8,
        bytes_consumed: u64,
        message: &str,
    ) -> (r: Result<(), AstError>)
        ensures
            r is Ok <==> old(self).document.diagnostics@.len() < old(self).spec_max_errors(),
            r is Ok ==> final(self).document.diagnostics@.len() == old(self).document.diagnostics@.len() + 1
                && final(self).document.diagnostics@.last().error_code@ == error_code@
                && final(self).document.diagnostics@.last().confidence_percent == (if confidence_percent > 100 {
                100
            } else {
                confidence_percent
            }),
            r is Err ==> final(self).document.diagnostics@ == old(self).document.diagnostics@,
            same_but_diagnostics(&old(self).document, &final(self).document),
            old(self).same_config(final(self)),
            final(self).object_offsets == old(self).object_offsets,
            final(self).xref_offset == old(self).xref_offset,
            final(self).spec_load_depth() == old(self).spec_load_depth(),
            final(self).object_cache == old(self).object_cache,
    {
        if self.document.diagnostics.len() >= self.max_errors {
            let mut m = msg("Maximum parser diagnostics exceeded: ");
            m.append(usize_text(self.max_errors).as_str());
            return Err(AstError::ParseError(m));
        }
        self.document.diagnostics.push(
            ParseDiagnostic {
                object_id,
                offset,
                error_code: String::from_str(error_code),
                recovery_action: String::from_str(recovery_action),
                confidence_percent: if confidence_percent > 100 {
                    100
                } else {
                    confidence_percent
                },
                bytes_consumed,
                message: String::from_str(message),
            },
        );
        Ok(())
    }

    pub open spec fn spec_load_depth(&self) -> usize {
        self.object_load_depth
    }
}

/// The two documents differ at most in their diagnostics.
pub open spec fn same_but_diagnostics(a: &PdfDocument, b: &PdfDocument) -> bool {
    &&& a.version == b.version
    &&& a.ast == b.ast
    &&& a.xref == b.xref
    &&& a.trailer == b.trailer
    &&& a.revisions == b.revisions
    &&& a.catalog == b.catalog
    &&& a.info == b.info
    &&& a.file_size == b.file_size
    &&& a.has_forms == b.has_forms
    &&& a.linearization == b.linearization
    &&& a.object_nodes == b.object_nodes
    &&& a.budget == b.budget
}

/// A field of `width` bytes at `start`: only the last eight bytes count
/// when it is wider; `default` when the width is 0.
pub open spec fn wide_field_value(data: Seq<u8>, start: nat, width: nat, default: nat) -> nat {
    if width == 0 {
        default
    } else if width > 8 {
        be_value(data.subrange(start + width - 8, (start + width) as int))
    } else {
        be_value(data.subrange(start as int, (start + width) as int))
    }
}

fn read_wide_field(data: &[u8], start: usize, width: usize, default: u64) -> (r: u64)
    requires
        start + width <= data@.len(),
    ensures
        r == wide_field_value(data@, start as nat, width as nat, default as nat),
{
    let n = data.len();
    if width == 0 {
        default
    } else {
        let from = if width > 8 {
            start + width - 8
        } else {
            start
        };
        let slice = vstd::slice::slice_subrange(data, from, start + width);
        crate::xref::read_int_field(slice)
    }
}

/// The width of one field of `/W`, or why it is refused.
pub open spec fn spec_width(v: SpecValue) -> Result<nat, Seq<char>> {
    match v {
        SpecValue::Integer(i) => if i < 0 {
            Err("Xref field width is invalid"@)
        } else if i > 8 {
            Err("Xref field width cannot exceed 8 bytes"@)
        } else {
            Ok(i as nat)
        },
        _ => Err("Invalid xref field width"@),
    }
}

/// The field widths `/W` gives, or why they are refused.
pub open spec fn spec_field_widths(dict: &PdfDictionary) -> Result<(nat, nat, nat), Seq<char>> {
    match dict.spec_get("W"@) {
        Some(SpecValue::Array(a)) => if a.len() != 3 {
            Err("Xref field widths must contain exactly 3 entries"@)
        } else {
            match spec_width(a[0]) {
                Err(m) => Err(m),
                Ok(w0) => match spec_width(a[1]) {
                    Err(m) => Err(m),
                    Ok(w1) => match spec_width(a[2]) {
                        Err(m) => Err(m),
                        Ok(w2) => Ok((w0, w1, w2)),
                    },
                },
            }
        },
        _ => Err("Missing W in xref stream"@),
    }
}

/// The `(start, count)` pairs an `/Index` array lists, or why it is
/// refused: the pairs must be complete, and each number fit in 32 bits.
pub open spec fn spec_index_list(a: Seq<SpecValue>) -> Result<Seq<(u32, u32)>, Seq<char>>
    decreases a.len(),
{
    if a.len() == 0 {
        Ok(Seq::empty())
    } else if a.len() == 1 {
        Err("Xref Index must contain start/count pairs"@)
    } else {
        match a[0] {
            SpecValue::Integer(s) if 0 <= s <= u32::MAX => match a[1] {
                SpecValue::Integer(c) if 0 <= c <= u32::MAX => match spec_index_list(a.subrange(2, a.len() as int)) {
                    Ok(rest) => Ok(seq![(s as u32, c as u32)] + rest),
                    Err(m) => Err(m),
                },
                _ => Err("Invalid xref Index count"@),
            },
            _ => Err("Invalid xref Index start"@),
        }
    }
}

/// The subsections of a cross-reference stream: `/Index` pairs, or all of
/// `[0, /Size)` without them.
pub open spec fn spec_index_ranges(dict: &PdfDictionary) -> Result<Seq<(u32, u32)>, Seq<char>> {
    match dict.spec_get("Size"@) {
        Some(SpecValue::Integer(size)) => if size < 0 || size > u32::MAX {
            Err("Invalid xref Size"@)
        } else {
            match dict.spec_get("Index"@) {
                Some(SpecValue::Array(a)) => match spec_index_list(a) {
                    Ok(pairs) => if pairs.len() == 0 {
                        Ok(seq![(0u32, size as u32)])
                    } else {
                        Ok(pairs)
                    },
                    Err(m) => Err(m),
                },
                _ => Ok(seq![(0u32, size as u32)]),
            }
        },
        _ => Err("Missing xref Size"@),
    }
}

/// Whether `n` is a whole number of at most 32 bits.
fn u32_value(v: &PdfValue) -> (r: Option<u32>)
    ensures
        match v.sv() {
            SpecValue::Integer(i) => if 0 <= i <= u32::MAX {
                r == Some(i as u32)
            } else {
                r is None
            },
            _ => r is None,
        },
{
    proof {
        lemma_value_view(v);
    }
    match v {
        PdfValue::Integer(i) => {
            if *i >= 0 && *i <= 0xffff_ffff {
                Some(*i as u32)
            } else {
                None
            }
        },
        _ => None,
    }
}

/// One field width of `/W`.
fn width_of(v: &PdfValue) -> (r: Result<usize, AstError>)
    ensures
        match spec_width(v.sv()) {
            Ok(w) => r == Ok::<usize, AstError>(w as usize),
            Err(m) => r matches Err(e) && e.message() == m,
        },
{
    proof {
        lemma_value_view(v);
    }
    match v {
        PdfValue::Integer(width) => {
            if *width < 0 {
                Err(error("Xref field width is invalid"))
            } else if *width > 8 {
                Err(error("Xref field width cannot exceed 8 bytes"))
            } else {
                Ok(*width as usize)
            }
        },
        _ => Err(error("Invalid xref field width")),
    }
}

impl PdfFileParser {
    /// Decodes one cross-reference stream row with the given widths. An
    /// unknown entry type is refused in strict mode and read as a free
    /// entry with generation 65535 in tolerant modes.
    pub fn parse_xref_stream_entry(&self, data: &[u8], widths: &[usize; 3]) -> (r: Result<XRefEntry, AstError>)
        ensures
            ({
                let (w0, w1, w2) = (widths@[0] as nat, widths@[1] as nat, widths@[2] as nat);
                let t = field_value(data@, 0, w0, 1);
                &&& data@.len() < w0 + w1 + w2 ==> r is Err
                &&& (w0 <= 8 && w1 <= 8 && w2 <= 8 && data@.len() >= w0 + w1 + w2) ==> {
                    &&& spec_stream_entry(data@, w0, w1, w2) matches Some(e) ==> r == Ok::<XRefEntry, AstError>(e)
                    &&& t > 2 && !self.spec_tolerant() ==> (r matches Err(x) && x.message()
                        == "Invalid XRef entry type: "@ + decimal(t))
                    &&& t > 2 && self.spec_tolerant() ==> r == Ok::<XRefEntry, AstError>(
                        XRefEntry::Free { next_free_object: 0, generation: 65535 },
                    )
                    &&& spec_stream_entry(data@, w0, w1, w2) is None && t <= 2 ==> r is Err
                }
            }),
    {
        let w0 = widths[0];
        let w1 = widths[1];
        let w2 = widths[2];
        if w0 > usize::MAX - w1 || w0 + w1 > usize::MAX - w2 {
            return Err(error("Xref entry size overflow"));
        }
        if data.len() < w0 + w1 + w2 {
            return Err(error("Truncated xref stream entry"));
        }
        let entry_type = read_wide_field(data, 0, w0, 1);
        let field2 = read_wide_field(data, w0, w1, 0);
        let field3 = read_wide_field(data, w0 + w1, w2, 0);
        if entry_type == 0 {
            if field2 > 0xffff_ffff {
                return Err(error("XRef free-object number overflow"));
            }
            if field3 > 0xffff {
                return Err(error("XRef generation overflow"));
            }
            Ok(XRefEntry::Free { next_free_object: field2 as u32, generation: field3 as u16 })
        } else if entry_type == 1 {
            if field3 > 0xffff {
                return Err(error("XRef generation overflow"));
            }
            Ok(XRefEntry::InUse { offset: field2, generation: field3 as u16 })
        } else if entry_type == 2 {
            if field2 > 0xffff_ffff {
                return Err(error("XRef object stream number overflow"));
            }
            if field3 > 0xffff_ffff {
                return Err(error("XRef object stream index overflow"));
            }
            Ok(XRefEntry::Compressed { stream_object: field2 as u32, index: field3 as u32 })
        } else if self.tolerant {
            Ok(XRefEntry::Free { next_free_object: 0, generation: 65535 })
        } else {
            Err(AstError::ParseError(concat2("Invalid XRef entry type: ", u64_text(entry_type).as_str())))
        }
    }

    /// The three field widths of a cross-reference stream's `/W`.
    pub fn extract_xref_field_widths(dict: &PdfDictionary) -> (r: Result<[usize; 3], AstError>)
        ensures
            match spec_field_widths(dict) {
                Ok((a, b, c)) => r matches Ok(w) && w@[0] == a && w@[1] == b && w@[2] == c,
                Err(m) => r matches Err(e) && e.message() == m,
            },
    {
        let w_array = match dict.get("W") {
            Some(v) => {
                proof {
                    lemma_value_view(v);
                }
                match v.as_array() {
                    Some(a) => a,
                    None => return Err(error("Missing W in xref stream")),
                }
            },
            None => return Err(error("Missing W in xref stream")),
        };
        proof {
            lemma_array_view(w_array);
            assert(dict.spec_get("W"@) == Some(SpecValue::Array(crate::types::array_sv(w_array))));
        }
        if w_array.len() != 3 {
            return Err(error("Xref field widths must contain exactly 3 entries"));
        }
        proof {
            assert(crate::types::array_sv(w_array)[0] == w_array@[0].sv());
            assert(crate::types::array_sv(w_array)[1] == w_array@[1].sv());
            assert(crate::types::array_sv(w_array)[2] == w_array@[2].sv());
        }
        let w0 = width_of(&w_array[0])?;
        let w1 = width_of(&w_array[1])?;
        let w2 = width_of(&w_array[2])?;
        let widths: [usize; 3] = [w0, w1, w2];
        Ok(widths)
    }
}

/// Reads `/Index` pairs from `k` on.
fn index_pairs_from(items: &Vec<PdfValue>, k: usize) -> (r: Result<Vec<(u32, u32)>, AstError>)
    requires
        k <= items@.len(),
    ensures
        match spec_index_list(crate::types::array_sv(items).subrange(k as int, items@.len() as int)) {
            Ok(p) => r matches Ok(v) && v@ == p,
            Err(m) => r matches Err(e) && e.message() == m,
        },
    decreases items@.len() - k,
{
    proof {
        lemma_array_view(items);
    }
    let ghost a = crate::types::array_sv(items).subrange(k as int, items@.len() as int);
    if k == items.len() {
        return Ok(Vec::new());
    }
    if items.len() - k == 1 {
        return Err(error("Xref Index must contain start/count pairs"));
    }
    proof {
        assert(a[0] == items@[k as int].sv());
        assert(a[1] == items@[k + 1].sv());
        assert(a.subrange(2, a.len() as int) =~= crate::types::array_sv(items).subrange(k + 2, items@.len() as int));
    }
    let start = match u32_value(&items[k]) {
        Some(s) => s,
        None => return Err(error("Invalid xref Index start")),
    };
    let count = match u32_value(&items[k + 1]) {
        Some(c) => c,
        None => return Err(error("Invalid xref Index count")),
    };
    let mut rest = index_pairs_from(items, k + 2)?;
    let mut pairs: Vec<(u32, u32)> = Vec::new();
    pairs.push((start, count));
    pairs.append(&mut rest);
    Ok(pairs)
}

impl PdfFileParser {
    /// The subsections a cross-reference stream covers: its `/Index`
    /// pairs, or all objects below `/Size` when it has none.
    pub fn extract_xref_index_ranges(dict: &PdfDictionary) -> (r: Result<Vec<(u32, u32)>, AstError>)
        ensures
            match spec_index_ranges(dict) {
                Ok(p) => r matches Ok(v) && v@ == p,
                Err(m) => r matches Err(e) && e.message() == m,
            },
    {
        let size = match dict.get("Size") {
            Some(v) => {
                proof {
                    lemma_value_view(v);
                }
                match v {
                    PdfValue::Integer(i) => {
                        if *i < 0 || *i > 0xffff_ffff {
                            return Err(error("Invalid xref Size"));
                        }
                        *i as u32
                    },
                    _ => return Err(error("Missing xref Size")),
                }
            },
            None => return Err(error("Missing xref Size")),
        };
        let mut default_range: Vec<(u32, u32)> = Vec::new();
        default_range.push((0, size));
        match dict.get("Index") {
            Some(v) => {
                proof {
                    lemma_value_view(v);
                }
                match v {
                    PdfValue::Array(items) => {
                        proof {
                            assert(crate::types::array_sv(items).subrange(0, items@.len() as int)
                                =~= crate::types::array_sv(items));
                            lemma_array_view(items);
                        }
                        let pairs = index_pairs_from(items, 0)?;
                        if pairs.len() == 0 {
                            Ok(default_range)
                        } else {
                            Ok(pairs)
                        }
                    },
                    _ => Ok(default_range),
                }
            },
            None => Ok(default_range),
        }
    }

    /// The trailer dictionary after the keyword `trailer`, read with the
    /// default budget and at most `max_depth` nested levels.
    pub fn extract_trailer_dict(data: &[u8], max_depth: usize) -> (r: Option<PdfDictionary>)
        ensures
            max_depth == 0 ==> r is None,
    {
        let budget = ResourceBudget::default();
        Self::extract_trailer_dict_with_budget(data, max_depth, &budget)
    }

    /// The trailer dictionary after the first `trailer` keyword in `data`,
    /// read with `budget` and at most `max_depth` nested levels; `None` when
    /// there is no keyword or no dictionary after it.
    pub fn extract_trailer_dict_with_budget(data: &[u8], max_depth: usize, budget: &ResourceBudget) -> (r: Option<
        PdfDictionary,
    >)
        ensures
            max_depth == 0 ==> r is None,
            r is Some ==> exists|i: int| crate::object_parser::occurs_at(data@, seq![116u8, 114u8, 97u8, 105u8, 108u8, 101u8, 114u8], i),
            r is Some ==> exists|i: int|
                #[trigger] crate::object_parser::occurs_at(data@, trailer_word(), i) && (forall|j: int|
                    0 <= j < i ==> !#[trigger] crate::object_parser::occurs_at(data@, trailer_word(), j))
                    && crate::object_parser::starts_container(
                    data@,
                    crate::object_parser::skip_ws_spec(data@, crate::object_parser::ws_end(data@, i + 7)),
                ),
            r matches Some(d) ==> trailer_dict_at(data@, max_depth as int) == Some(d.sv_entries()),
            trailer_dict_at(data@, max_depth as int) is None ==> r is None,
            r matches Some(d) ==> forall|i: int|
                0 <= i < d.sv_entries().len() ==> crate::object_parser::strings_fit(
                    #[trigger] d.sv_entries()[i].1,
                    budget.max_input_bytes as int,
                ),
            (trailer_dict_at(data@, max_depth as int) matches Some(e) && exists|i: int|
                0 <= i < e.len() && !crate::object_parser::strings_fit(
                    #[trigger] e[i].1,
                    budget.max_input_bytes as int,
                )) ==> r is None,
    {
        let n = data.len();
        let kw: [u8; 7] = [116, 114, 97, 105, 108, 101, 114];
        proof {
            assert(kw@ =~= seq![116u8, 114u8, 97u8, 105u8, 108u8, 101u8, 114u8]);
        }
        proof {
            assert(kw@ =~= trailer_word());
        }
        let pos = match find_bytes(data, 0, kw.as_slice()) {
            Some(p) => {
                proof {
                    crate::object_parser::lemma_first_occ_skip(data@, trailer_word(), 0, p as int);
                }
                p
            },
            None => {
                proof {
                    crate::object_parser::lemma_first_occ_skip(data@, trailer_word(), 0, (data@.len() + 1) as int);
                }
                return None;
            },
        };
        let start = skip_ascii_ws(data, pos + 7);
        proof {
            assert(kw@ =~= trailer_word());
        }
        match parse_value(data, start, 0, max_depth, budget) {
            Ok((v, _)) => {
                proof {
                    lemma_value_view(&v);
                }
                match v {
                    PdfValue::Dictionary(d) => Some(d),
                    _ => None,
                }
            },
            _ => None,
        }
    }
}

/// Space, tab, line feed, form feed or carriage return.
pub open spec fn is_ascii_ws(b: u8) -> bool {
    b == 32 || b == 9 || b == 10 || b == 12 || b == 13
}

/// Skips ASCII white space.
fn skip_ascii_ws(data: &[u8], pos: usize) -> (r: usize)
    requires
        pos <= data@.len(),
    ensures
        pos <= r <= data@.len(),
        forall|i: int| pos <= i < r ==> is_ascii_ws(#[trigger] data@[i]),
        r == data@.len() || !is_ascii_ws(data@[r as int]),
        r == crate::object_parser::ws_end(data@, pos as int),
{
    let mut p = pos;
    while p < data.len() && (data[p] == 32 || data[p] == 9 || data[p] == 10 || data[p] == 12 || data[p] == 13)
        invariant
            pos <= p <= data@.len(),
            forall|i: int| pos <= i < p ==> is_ascii_ws(#[trigger] data@[i]),
            crate::object_parser::ws_end(data@, p as int) == crate::object_parser::ws_end(data@, pos as int),
        decreases data@.len() - p,
    {
        p = p + 1;
    }
    p
}

/// The name under `key`, without its `/`.
pub open spec fn spec_name_entry(d: Seq<(Seq<char>, SpecValue)>, key: Seq<char>) -> Option<Seq<char>> {
    match crate::types::spec_dict_get(d, crate::types::name_text(key)) {
        Some(SpecValue::Name(n)) => Some(n.subrange(1, n.len() as int)),
        _ => None,
    }
}

pub open spec fn spec_has(d: Seq<(Seq<char>, SpecValue)>, key: Seq<char>) -> bool {
    crate::types::spec_dict_get(d, crate::types::name_text(key)) is Some
}

/// A dictionary's `/Type` decides its node type: `Catalog`, `Pages`,
/// `Page`, `StructTreeRoot`, `StructElem`, `Font`, `XObject`, `Annot`,
/// `Filespec` and `Encrypt` give their own types, and an `Action` is typed
/// by its `/S`: `JavaScript`, `GoTo`, `URI`, `Launch` and `SubmitForm` give
/// their own action types, any other `/S` a plain action.  The default is
/// kept for what is not a dictionary.
pub proof fn lemma_refined_type_table(d: Seq<(Seq<char>, SpecValue)>, default: NodeType, v: SpecValue)
    ensures
        spec_name_entry(d, "Type"@) == Some("Catalog"@) ==> spec_refined_type(SpecValue::Dictionary(d), default)
            == NodeType::Catalog,
        spec_name_entry(d, "Type"@) == Some("Pages"@) ==> spec_refined_type(SpecValue::Dictionary(d), default)
            == NodeType::Pages,
        spec_name_entry(d, "Type"@) == Some("Page"@) ==> spec_refined_type(SpecValue::Dictionary(d), default)
            == NodeType::Page,
        spec_name_entry(d, "Type"@) == Some("StructTreeRoot"@) ==> spec_refined_type(SpecValue::Dictionary(d), default)
            == NodeType::StructTreeRoot,
        spec_name_entry(d, "Type"@) == Some("StructElem"@) ==> spec_refined_type(SpecValue::Dictionary(d), default)
            == NodeType::StructElem,
        spec_name_entry(d, "Type"@) == Some("Font"@) ==> spec_refined_type(SpecValue::Dictionary(d), default)
            == NodeType::Font,
        spec_name_entry(d, "Type"@) == Some("XObject"@) ==> spec_refined_type(SpecValue::Dictionary(d), default)
            == NodeType::XObject,
        spec_name_entry(d, "Type"@) == Some("Annot"@) ==> spec_refined_type(SpecValue::Dictionary(d), default)
            == NodeType::Annotation,
        spec_name_entry(d, "Type"@) == Some("Filespec"@) ==> spec_refined_type(SpecValue::Dictionary(d), default)
            == NodeType::EmbeddedFile,
        spec_name_entry(d, "Type"@) == Some("Encrypt"@) ==> spec_refined_type(SpecValue::Dictionary(d), default)
            == NodeType::Encrypt,
        spec_name_entry(d, "Type"@) == Some("Action"@) ==> spec_refined_type(SpecValue::Dictionary(d), default)
            == if spec_name_entry(d, "S"@) == Some("JavaScript"@) {
            NodeType::JavaScriptAction
        } else if spec_name_entry(d, "S"@) == Some("GoTo"@) {
            NodeType::GoToAction
        } else if spec_name_entry(d, "S"@) == Some("URI"@) {
            NodeType::URIAction
        } else if spec_name_entry(d, "S"@) == Some("Launch"@) {
            NodeType::LaunchAction
        } else if spec_name_entry(d, "S"@) == Some("SubmitForm"@) {
            NodeType::SubmitFormAction
        } else {
            NodeType::Action
        },
        !(v is Dictionary) ==> spec_refined_type(v, default) == default,
        (spec_has(d, "Type"@) && !(spec_name_entry(d, "Type"@) matches Some(t) && (t == "Catalog"@ || t == "Pages"@
            || t == "Page"@ || t == "StructTreeRoot"@ || t == "StructElem"@ || t == "Font"@ || t == "XObject"@ || t
            == "Annot"@ || t == "Action"@ || t == "Filespec"@ || t == "Encrypt"@))) ==> spec_refined_type(
            SpecValue::Dictionary(d),
            default,
        ) == if spec_has(d, "JS"@) || spec_has(d, "JavaScript"@) {
            NodeType::JavaScriptAction
        } else if spec_has(d, "F"@) && spec_has(d, "EF"@) {
            NodeType::EmbeddedFile
        } else if spec_has(d, "Linearized"@) {
            NodeType::Metadata
        } else {
            default
        },
        !spec_has(d, "Type"@) ==> spec_refined_type(SpecValue::Dictionary(d), default) == if spec_has(d, "JS"@)
            || spec_has(d, "JavaScript"@) {
            NodeType::JavaScriptAction
        } else if spec_has(d, "Filter"@) {
            NodeType::Stream
        } else if spec_has(d, "F"@) && spec_has(d, "EF"@) {
            NodeType::EmbeddedFile
        } else if spec_has(d, "Linearized"@) {
            NodeType::Metadata
        } else {
            default
        },
{
    reveal_strlit("Catalog");
    reveal_strlit("Pages");
    reveal_strlit("Page");
    reveal_strlit("StructTreeRoot");
    reveal_strlit("StructElem");
    reveal_strlit("Font");
    reveal_strlit("XObject");
    reveal_strlit("Annot");
    reveal_strlit("Action");
    reveal_strlit("Filespec");
    reveal_strlit("Encrypt");
    reveal_strlit("JavaScript");
    reveal_strlit("GoTo");
    reveal_strlit("URI");
    reveal_strlit("Launch");
    reveal_strlit("SubmitForm");
    assert("Catalog"@.len() == 7 && "Pages"@.len() == 5 && "Page"@.len() == 4 && "StructTreeRoot"@.len() == 14
        && "StructElem"@.len() == 10 && "Font"@.len() == 4 && "XObject"@.len() == 7 && "Annot"@.len() == 5
        && "Action"@.len() == 6 && "Filespec"@.len() == 8 && "Encrypt"@.len() == 7);
    assert("Catalog"@[0] == 'C' && "Pages"@[0] == 'P' && "Page"@[0] == 'P' && "Font"@[0] == 'F' && "XObject"@[0]
        == 'X' && "Annot"@[0] == 'A' && "Encrypt"@[0] == 'E');
    assert("JavaScript"@.len() == 10 && "GoTo"@.len() == 4 && "URI"@.len() == 3 && "Launch"@.len() == 6
        && "SubmitForm"@.len() == 10 && "JavaScript"@[0] == 'J' && "SubmitForm"@[0] == 'S');
}

/// The node type a value gets: a dictionary's `/Type` (and an action's
/// `/S`) or its telling keys decide; anything else keeps `default`.
pub open spec fn spec_refined_type(v: SpecValue, default: NodeType) -> NodeType {
    match v {
        SpecValue::Dictionary(d) => {
            let t = spec_name_entry(d, "Type"@);
            if t == Some("Catalog"@) {
                NodeType::Catalog
            } else if t == Some("Pages"@) {
                NodeType::Pages
            } else if t == Some("Page"@) {
                NodeType::Page
            } else if t == Some("StructTreeRoot"@) {
                NodeType::StructTreeRoot
            } else if t == Some("StructElem"@) {
                NodeType::StructElem
            } else if t == Some("Font"@) {
                NodeType::Font
            } else if t == Some("XObject"@) {
                NodeType::XObject
            } else if t == Some("Annot"@) {
                NodeType::Annotation
            } else if t == Some("Action"@) {
                let sub = spec_name_entry(d, "S"@);
                if sub == Some("JavaScript"@) {
                    NodeType::JavaScriptAction
                } else if sub == Some("GoTo"@) {
                    NodeType::GoToAction
                } else if sub == Some("URI"@) {
                    NodeType::URIAction
                } else if sub == Some("Launch"@) {
                    NodeType::LaunchAction
                } else if sub == Some("SubmitForm"@) {
                    NodeType::SubmitFormAction
                } else {
                    NodeType::Action
                }
            } else if t == Some("Filespec"@) {
                NodeType::EmbeddedFile
            } else if t == Some("Encrypt"@) {
                NodeType::Encrypt
            } else if spec_has(d, "JS"@) || spec_has(d, "JavaScript"@) {
                NodeType::JavaScriptAction
            } else if spec_has(d, "Filter"@) && !spec_has(d, "Type"@) {
                NodeType::Stream
            } else if spec_has(d, "F"@) && spec_has(d, "EF"@) {
                NodeType::EmbeddedFile
            } else if spec_has(d, "Linearized"@) {
                NodeType::Metadata
            } else {
                default
            }
        },
        _ => default,
    }
}

/// The name under `key` of `dict`, without its `/`.
pub(crate) fn name_entry<'a>(dict: &'a PdfDictionary, key: &str) -> (r: Option<&'a str>)
    ensures
        match spec_name_entry(dict.sv_entries(), key@) {
            Some(n) => r matches Some(x) && x@ == n,
            None => r is None,
        },
{
    match dict.get(key) {
        Some(v) => {
            proof {
                lemma_value_view(v);
            }
            match v {
                PdfValue::Name(n) => Some(n.without_slash()),
                _ => None,
            }
        },
        None => None,
    }
}

pub(crate) fn name_is(n: Option<&str>, s: &str) -> (r: bool)
    ensures
        r == (n matches Some(x) && x@ == s@),
{
    match n {
        Some(x) => str_equal(x, s),
        None => false,
    }
}

/// The node type `value` gets; `default` unless its dictionary tells.
pub fn refine_node_type(value: &PdfValue, default_type: NodeType) -> (r: NodeType)
    ensures
        r == spec_refined_type(value.sv(), default_type),
{
    proof {
        lemma_value_view(value);
    }
    match value {
        PdfValue::Dictionary(dict) => {
            let t = name_entry(dict, "Type");
            if name_is(t, "Catalog") {
                return NodeType::Catalog;
            }
            if name_is(t, "Pages") {
                return NodeType::Pages;
            }
            if name_is(t, "Page") {
                return NodeType::Page;
            }
            if name_is(t, "StructTreeRoot") {
                return NodeType::StructTreeRoot;
            }
            if name_is(t, "StructElem") {
                return NodeType::StructElem;
            }
            if name_is(t, "Font") {
                return NodeType::Font;
            }
            if name_is(t, "XObject") {
                return NodeType::XObject;
            }
            if name_is(t, "Annot") {
                return NodeType::Annotation;
            }
            if name_is(t, "Action") {
                let sub = name_entry(dict, "S");
                if name_is(sub, "JavaScript") {
                    return NodeType::JavaScriptAction;
                }
                if name_is(sub, "GoTo") {
                    return NodeType::GoToAction;
                }
                if name_is(sub, "URI") {
                    return NodeType::URIAction;
                }
                if name_is(sub, "Launch") {
                    return NodeType::LaunchAction;
                }
                if name_is(sub, "SubmitForm") {
                    return NodeType::SubmitFormAction;
                }
                return NodeType::Action;
            }
            if name_is(t, "Filespec") {
                return NodeType::EmbeddedFile;
            }
            if name_is(t, "Encrypt") {
                return NodeType::Encrypt;
            }
            if dict.contains_key("JS") || dict.contains_key("JavaScript") {
                return NodeType::JavaScriptAction;
            }
            if dict.contains_key("Filter") && !dict.contains_key("Type") {
                return NodeType::Stream;
            }
            if dict.contains_key("F") && dict.contains_key("EF") {
                return NodeType::EmbeddedFile;
            }
            if dict.contains_key("Linearized") {
                return NodeType::Metadata;
            }
            default_type
        },
        _ => default_type,
    }
}

/// A linearization dictionary as the first object of `data`, read with
/// the default budget.
pub fn try_parse_linearization_dict(data: &[u8]) -> (r: Option<LinearizationInfo>)
    ensures
        r is Some ==> linearization_object(data@, 1000),
{
    let budget = ResourceBudget::default();
    try_parse_linearization_dict_with_budget(data, &budget)
}

/// A linearization dictionary as the first object of `data`: object
/// `1 0` holding a dictionary with `/Linearized` whose fields are valid.
pub fn try_parse_linearization_dict_with_budget(data: &[u8], budget: &ResourceBudget) -> (r: Option<
    LinearizationInfo,
>)
    ensures
        r is Some ==> linearization_object(data@, budget.max_depth as int),
        !(crate::object_parser::spec_object_header(data@, 0) matches Some((id, _)) && id.number == 1 && id.generation
            == 0) ==> r is None,
{
    let ((id, value), _) = match parse_indirect_object(data, 0, budget.max_depth, budget, None) {
        Ok(x) => x,
        Err(_) => return None,
    };
    if id.number != 1 || id.generation != 0 {
        return None;
    }
    proof {
        lemma_value_view(&value);
    }
    let dict = match value {
        PdfValue::Dictionary(d) => d,
        _ => return None,
    };
    if !dict.contains_key("Linearized") {
        return None;
    }
    let stream = PdfStream::new(dict, Vec::new());
    match parse_linearization_dict(&stream) {
        Ok(info) => {
            proof {
                assert(stream.dict.sv_entries() == stream.dict.sv_entries());
            }
            Some(info)
        },
        Err(_) => None,
    }
}

/// Whether `d` starts with object 1 0 holding a dictionary with
/// `/Linearized` whose fields are valid.
pub open spec fn linearization_object(d: Seq<u8>, max_depth: int) -> bool {
    match crate::object_parser::spec_indirect(d, 0, max_depth, None) {
        Some(((id, SpecValue::Dictionary(e)), _)) => id == (ObjectId { number: 1, generation: 0 }) && exists|
            dict: PdfDictionary,
        |
            #[trigger] dict.sv_entries() == e && dict.spec_get("Linearized"@) is Some
                && crate::xref::spec_linearization(&dict) is Ok,
        _ => false,
    }
}

/// Every node of `a` is in `b` as it was, and `b` hands out no smaller ids.
pub open spec fn nodes_kept(a: crate::ast::PdfAstGraph, b: crate::ast::PdfAstGraph) -> bool {
    &&& forall|id: NodeId| #[trigger] a.has_node(id) ==> b.node(id) == a.node(id)
    &&& b.next_id_spec() >= a.next_id_spec()
}

/// Where `needle` first occurs in `haystack`.
pub fn find_pattern(haystack: &[u8], needle: &[u8]) -> (r: Option<usize>)
    requires
        needle@.len() > 0,
    ensures
        r matches Some(i) ==> crate::object_parser::occurs_at(haystack@, needle@, i as int) && forall|j: int|
            0 <= j < i ==> !#[trigger] crate::object_parser::occurs_at(haystack@, needle@, j),
        r is None ==> forall|j: int| 0 <= j ==> !#[trigger] crate::object_parser::occurs_at(haystack@, needle@, j),
{
    find_bytes(haystack, 0, needle)
}

/// Where `needle` last occurs in `haystack`.
pub fn rfind_pattern(haystack: &[u8], needle: &[u8]) -> (r: Option<usize>)
    requires
        needle@.len() > 0,
    ensures
        r is None <==> last_occurrence(haystack@, needle@) is None,
        r matches Some(i) ==> last_occurrence(haystack@, needle@) == Some(i as int),
        r matches Some(i) ==> crate::object_parser::occurs_at(haystack@, needle@, i as int) && forall|j: int|
            i < j ==> !#[trigger] crate::object_parser::occurs_at(haystack@, needle@, j),
        r is None ==> forall|j: int| 0 <= j ==> !#[trigger] crate::object_parser::occurs_at(haystack@, needle@, j),
{
    if needle.len() > haystack.len() {
        proof {
            lemma_last_occ_skip(haystack@, needle@, -1, haystack@.len() as int);
        }
        return None;
    }
    let mut i = haystack.len() - needle.len() + 1;
    while i > 0
        invariant
            i <= haystack@.len() - needle@.len() + 1,
            needle@.len() <= haystack@.len(),
            forall|j: int| i <= j ==> !#[trigger] crate::object_parser::occurs_at(haystack@, needle@, j),
        decreases i,
    {
        i = i - 1;
        if bytes_at(haystack, i, needle) {
            proof {
                lemma_last_occ_skip(haystack@, needle@, i as int, haystack@.len() as int);
            }
            return Some(i);
        }
    }
    proof {
        lemma_last_occ_skip(haystack@, needle@, -1, haystack@.len() as int);
    }
    None
}

/// The last place at or before `i` where `w` occurs in `d`.
pub open spec fn last_occ_from(d: Seq<u8>, w: Seq<u8>, i: int) -> Option<int>
    decreases i + 1,
{
    if i < 0 {
        None
    } else if crate::object_parser::occurs_at(d, w, i) {
        Some(i)
    } else {
        last_occ_from(d, w, i - 1)
    }
}

/// The last place where `w` occurs in `d`.
pub open spec fn last_occurrence(d: Seq<u8>, w: Seq<u8>) -> Option<int> {
    last_occ_from(d, w, d.len() as int)
}

/// Places where `w` does not occur do not change the last occurrence.
proof fn lemma_last_occ_skip(d: Seq<u8>, w: Seq<u8>, m: int, n: int)
    requires
        -1 <= m <= n,
        forall|j: int| m < j <= n ==> !#[trigger] crate::object_parser::occurs_at(d, w, j),
    ensures
        last_occ_from(d, w, n) == last_occ_from(d, w, m),
    decreases n - m,
{
    if n > m {
        lemma_last_occ_skip(d, w, m, n - 1);
    }
}

/// The cross-reference offset that a file's last kilobyte gives: the
/// integer after the last `startxref` (and ASCII white space) before the
/// last `%%EOF`, when it is not negative.
pub open spec fn spec_locate_xref(d: Seq<u8>) -> Option<u64> {
    let n = d.len() as int;
    let read_size = if n < 1024 { n } else { 1024 };
    let buffer = d.subrange(n - read_size, n);
    match last_occurrence(buffer, seq![37u8, 37u8, 69u8, 79u8, 70u8]) {
        None => None,
        Some(e) => {
            let before = buffer.subrange(0, e);
            match last_occurrence(before, seq![115u8, 116u8, 97u8, 114u8, 116u8, 120u8, 114u8, 101u8, 102u8]) {
                None => None,
                Some(x) => match crate::object_parser::spec_integer_at(before, crate::object_parser::ws_end(before, x + 9)) {
                    Some((v, _)) => if v >= 0 { Some(v as u64) } else { None },
                    None => None,
                },
            }
        },
    }
}

impl PdfFileParser {
    /// What every step keeps: the settings and the bytes read.
    pub open spec fn same_config(&self, next: &Self) -> bool {
        &&& next.tolerant == self.tolerant
        &&& next.max_errors == self.max_errors
        &&& next.limits == self.limits
        &&& next.data@ == self.data@
        &&& next.mode == self.mode
    }

    /// A node for `value`, of the type `refine_node_type` gives, while the
    /// node budget allows.
    pub fn add_to_ast(&mut self, value: PdfValue, node_type: NodeType) -> (r: Result<NodeId, AstError>)
        ensures
            old(self).same_config(final(self)),
            nodes_kept(old(self).document.ast, final(self).document.ast),
            final(self).document.ast.edges_spec() == old(self).document.ast.edges_spec(),
            final(self).document.diagnostics == old(self).document.diagnostics,
            final(self).document.trailer == old(self).document.trailer,
            final(self).document.xref == old(self).document.xref,
            final(self).document.revisions == old(self).document.revisions,
            final(self).document.catalog == old(self).document.catalog,
            final(self).document.info == old(self).document.info,
            final(self).object_cache == old(self).object_cache,
            final(self).xref_offset == old(self).xref_offset,
            final(self).object_load_depth == old(self).object_load_depth,
            r is Ok ==> final(self).document.ast.next_id_spec() == old(self).document.ast.next_id_spec() + 1,
            r matches Ok(id) ==> !old(self).document.ast.has_node(id) && (final(self).document.ast.node(id) matches Some(
                n,
            ) && n.node_type == spec_refined_type(value.sv(), node_type) && n.value == value),
            r is Err ==> final(self).document.ast == old(self).document.ast,
    {
        match self.limits.budget.consume_node() {
            Ok(()) => {},
            Err(e) => return Err(AstError::ParseError(e.to_string())),
        }
        let refined = refine_node_type(&value, node_type);
        let next = self.document.ast.next_node_id();
        if next.0 == usize::MAX {
            return Err(error("Node ids exhausted"));
        }
        let id = self.document.ast.create_node(refined, value);
        Ok(id)
    }

    /// An edge between two nodes of the graph, while the edge budget
    /// allows; refused when an end is missing.
    pub fn add_edge(&mut self, from: NodeId, to: NodeId, edge_type: EdgeType) -> (r: Result<(), AstError>)
        ensures
            old(self).same_config(final(self)),
            final(self).document.ast.nodes_spec() == old(self).document.ast.nodes_spec(),
            final(self).document.ast.next_id_spec() == old(self).document.ast.next_id_spec(),
            final(self).document.diagnostics == old(self).document.diagnostics,
            final(self).document.trailer == old(self).document.trailer,
            final(self).document.xref == old(self).document.xref,
            final(self).document.revisions == old(self).document.revisions,
            final(self).document.catalog == old(self).document.catalog,
            final(self).object_cache == old(self).object_cache,
            final(self).xref_offset == old(self).xref_offset,
            final(self).object_load_depth == old(self).object_load_depth,
            r is Ok ==> final(self).document.ast.edges_spec() == old(self).document.ast.edges_spec().push(
                crate::ast::AstEdge { from, to, edge_type },
            ),
            r is Err ==> final(self).document.ast.edges_spec() == old(self).document.ast.edges_spec(),
            !(old(self).document.ast.has_node(from) && old(self).document.ast.has_node(to)) ==> r is Err,
    {
        match self.limits.budget.consume_edge() {
            Ok(()) => {},
            Err(e) => return Err(AstError::ParseError(e.to_string())),
        }
        if self.document.ast.add_edge(from, to, edge_type) {
            Ok(())
        } else {
            Err(error("Cannot add AST edge: node endpoint is missing"))
        }
    }

    /// Records an anomaly of the cross-reference data: a diagnostic and a
    /// node marked with the anomaly's code.
    fn record_anomaly(&mut self, code: &str, message: &str, offset: Option<u64>) -> (r: Result<(), AstError>)
        ensures
            old(self).same_config(final(self)),
            nodes_kept(old(self).document.ast, final(self).document.ast),
            final(self).document.trailer == old(self).document.trailer,
            final(self).document.xref == old(self).document.xref,
            final(self).document.revisions == old(self).document.revisions,
            final(self).document.catalog == old(self).document.catalog,
            final(self).object_cache == old(self).object_cache,
            final(self).xref_offset == old(self).xref_offset,
            final(self).object_load_depth == old(self).object_load_depth,
            old(self).document.diagnostics@.len() >= old(self).max_errors ==> r is Err,
            r is Ok ==> final(self).document.diagnostics@.len() == old(self).document.diagnostics@.len() + 1
                && final(self).document.diagnostics@.last().error_code@ == code@,
            r is Ok ==> final(self).document.ast.next_id_spec() == old(self).document.ast.next_id_spec() + 1
                && final(self).document.ast.edges_spec() == old(self).document.ast.edges_spec(),
    {
        self.record_diagnostic(None, offset, code, "xref recovery", 50, 0, message)?;
        let id = self.add_to_ast(PdfValue::Null, NodeType::Other)?;
        let ghost before = self.document.ast;
        self.document.ast.set_node_property(id, String::from_str("anomaly_code"), String::from_str(code));
        proof {
            assert forall|x: NodeId| #[trigger] old(self).document.ast.has_node(x) implies self.document.ast.node(x)
                == old(self).document.ast.node(x) by {
                assert(x != id);
                assert(before.node(x) == old(self).document.ast.node(x));
            }
        }
        Ok(())
    }

    /// Reads the linearization dictionary when the first object after the
    /// header is one.
    pub fn check_linearization(&mut self) -> (r: Result<(), AstError>)
        ensures
            old(self).same_config(final(self)),
            final(self).document.ast == old(self).document.ast,
            final(self).document.diagnostics == old(self).document.diagnostics,
            final(self).document.trailer == old(self).document.trailer,
            final(self).xref_offset == old(self).xref_offset,
            final(self).object_load_depth == old(self).object_load_depth,
            r is Ok,
    {
        let n = if self.data.len() < 1024 {
            self.data.len()
        } else {
            1024
        };
        let buffer = vstd::slice::slice_subrange(self.data.as_slice(), 0, n);
        let pos = Self::skip_pdf_header(buffer);
        let rest = vstd::slice::slice_subrange(buffer, pos, n);
        match try_parse_linearization_dict_with_budget(rest, &self.limits.budget) {
            Some(info) => {
                self.document.linearization = Some(info);
            },
            None => {},
        }
        Ok(())
    }

    /// Finds the cross-reference offset after the last `startxref` before
    /// the last `%%EOF` in the file's last kilobyte.
    pub fn locate_xref(&mut self) -> (r: Result<(), AstError>)
        ensures
            old(self).same_config(final(self)),
            final(self).document == old(self).document,
            final(self).object_load_depth == old(self).object_load_depth,
            r is Ok ==> final(self).xref_offset is Some,
            r is Err ==> final(self).xref_offset == old(self).xref_offset,
            r is Ok <==> spec_locate_xref(old(self).data@) is Some,
            r is Ok ==> final(self).xref_offset == spec_locate_xref(old(self).data@),
    {
        let file_size = self.data.len();
        let read_size = if file_size < 1024 {
            file_size
        } else {
            1024
        };
        let buffer = vstd::slice::slice_subrange(self.data.as_slice(), file_size - read_size, file_size);
        let eof: [u8; 5] = [37, 37, 69, 79, 70];
        let startxref: [u8; 9] = [115, 116, 97, 114, 116, 120, 114, 101, 102];
        proof {
            assert(eof@ =~= seq![37u8, 37u8, 69u8, 79u8, 70u8]);
            assert(startxref@ =~= seq![115u8, 116u8, 97u8, 114u8, 116u8, 120u8, 114u8, 101u8, 102u8]);
        }
        let eof_pos = match rfind_pattern(buffer, eof.as_slice()) {
            Some(p) => p,
            None => return Err(error("No %%EOF marker found")),
        };
        let before_eof = vstd::slice::slice_subrange(buffer, 0, eof_pos);
        let sx = match rfind_pattern(before_eof, startxref.as_slice()) {
            Some(p) => p,
            None => return Err(error("No startxref found")),
        };
        let start = skip_ascii_ws(before_eof, sx + 9);
        match parse_integer(before_eof, start) {
            Some((offset, _)) => {
                if offset < 0 {
                    return Err(error("Negative xref offset"));
                }
                self.xref_offset = Some(offset as u64);
                Ok(())
            },
            None => Err(error("Invalid xref offset")),
        }
    }

    /// The bytes from `offset` to the end of the file, charged to the
    /// decoded-bytes budget.
    pub fn read_xref_buffer(&mut self, offset: u64) -> (r: Result<Vec<u8>, AstError>)
        ensures
            old(self).same_config(final(self)),
            final(self).document == old(self).document,
            final(self).xref_offset == old(self).xref_offset,
            final(self).object_load_depth == old(self).object_load_depth,
            final(self).object_cache == old(self).object_cache,
            final(self).object_offsets == old(self).object_offsets,
            offset >= old(self).data@.len() ==> r is Err,
            offset < old(self).data@.len() && old(self).data@.len() - offset > old(self).limits.budget.max_input_bytes
                ==> r is Err,
            r matches Ok(b) ==> offset < old(self).data@.len() && b@ == old(self).data@.subrange(
                offset as int,
                old(self).data@.len() as int,
            ),
    {
        let file_size = self.data.len() as u64;
        if offset >= file_size {
            let mut m = msg("Xref offset ");
            m.append(u64_text(offset).as_str());
            m.append(" is outside the file");
            return Err(AstError::ParseError(m));
        }
        let remaining = file_size - offset;
        if remaining > self.limits.budget.max_input_bytes {
            let mut m = msg("Xref data exceeds resource limit of ");
            m.append(u64_text(self.limits.budget.max_input_bytes).as_str());
            m.append(" bytes");
            return Err(AstError::ParseError(m));
        }
        match self.limits.budget.consume_decoded(remaining) {
            Ok(()) => {},
            Err(e) => return Err(AstError::ParseError(e.to_string())),
        }
        let start = offset as usize;
        Ok(vstd::slice::slice_to_vec(vstd::slice::slice_subrange(self.data.as_slice(), start, self.data.len())))
    }
}

/// The numbers `/N` and `/First` of an object stream and the position of
/// `index` among its objects, or why they are refused.
pub open spec fn spec_object_stream_header(dict: &PdfDictionary, index: u32) -> Result<(nat, nat), Seq<char>> {
    match dict.spec_get("N"@) {
        Some(SpecValue::Integer(n)) => if n < 0 || n > usize::MAX {
            Err("Invalid N in object stream"@)
        } else {
            match dict.spec_get("First"@) {
                Some(SpecValue::Integer(f)) => if f < 0 || f > usize::MAX {
                    Err("Invalid First in object stream"@)
                } else {
                    Ok((n as nat, f as nat))
                },
                _ => Err("Missing First in object stream"@),
            }
        },
        _ => Err("Missing N in object stream"@),
    }
}

/// A non-negative integer entry that fits a `usize`.
fn usize_entry(dict: &PdfDictionary, key: &str, missing: &str, invalid: &str) -> (r: Result<usize, AstError>)
    ensures
        match dict.spec_get(key@) {
            Some(SpecValue::Integer(n)) => if n < 0 || n > usize::MAX {
                r matches Err(e) && e.message() == invalid@
            } else {
                r == Ok::<usize, AstError>(n as usize)
            },
            _ => r matches Err(e) && e.message() == missing@,
        },
{
    match dict.get(key) {
        Some(v) => {
            proof {
                lemma_value_view(v);
            }
            match v {
                PdfValue::Integer(n) => {
                    if *n < 0 || (*n as u64) > (usize::MAX as u64) {
                        Err(error(invalid))
                    } else {
                        Ok(*n as usize)
                    }
                },
                _ => Err(error(missing)),
            }
        },
        None => Err(error(missing)),
    }
}

impl PdfFileParser {
    /// One object of an object stream: its offset comes from the stream's
    /// header, and its value runs to the next object; in strict mode
    /// nothing but white space may follow the value.
    pub fn parse_object_from_stream(&self, data: &[u8], index: u32, dict: &PdfDictionary) -> (r: Result<
        PdfValue,
        AstError,
    >)
        ensures
            match spec_object_stream_header(dict, index) {
                Err(m) => r matches Err(e) && e.message() == m,
                Ok((n, first)) => index >= n ==> if self.tolerant {
                    r == Ok::<PdfValue, AstError>(PdfValue::Null)
                } else {
                    r matches Err(e) && e.message() == "Object stream index out of range"@
                },
            },
            match spec_object_stream_header(dict, index) {
                Ok((n, first)) => index < n ==> {
                    let c = compressed_object(data@, index as int, n, first as int, self.limits.max_depth as int);
                    &&& (r matches Ok(v) ==> (self.tolerant && v == PdfValue::Null) || (c matches Some((x, residual))
                        && v.sv() == x && (!self.tolerant ==> !residual)))
                    &&& ((c matches Some((_, residual)) && residual && !self.tolerant) ==> r is Err)
                    &&& ((c is None && !self.tolerant) ==> r is Err)
                    &&& (c matches Some((x, residual)) ==> if self.tolerant {
                        (r matches Ok(v) && (v.sv() == x || v == PdfValue::Null)) || (r matches Err(e)
                            && crate::object_parser::budget_text(e.message()))
                    } else if residual {
                        r matches Err(e) && (e.message() == "Residual bytes after compressed object"@
                            || compressed_budget_text(e.message()))
                    } else {
                        (r matches Ok(v) && v.sv() == x) || (r matches Err(e) && compressed_budget_text(e.message()))
                    })
                },
                Err(_) => true,
            },
    {
        let n = usize_entry(dict, "N", "Missing N in object stream", "Invalid N in object stream")?;
        let first = usize_entry(dict, "First", "Missing First in object stream", "Invalid First in object stream")?;
        let index = index as usize;
        if index >= n {
            if !self.tolerant {
                return Err(error("Object stream index out of range"));
            }
            return Ok(PdfValue::Null);
        }
        let offsets = match crate::object_parser::parse_object_stream_offsets(data, n, first, &self.limits.budget) {
            Ok(o) => o,
            Err(m) => return Err(AstError::ParseError(m)),
        };
        let obj_offset = offsets[index];
        let mut next_offset = data.len();
        let mut k: usize = 0;
        while k < offsets.len()
            invariant
                k <= offsets@.len(),
                next_offset == min_above(offsets@, obj_offset as int, k as int, data@.len() as int),
            decreases offsets@.len() - k,
        {
            let candidate = offsets[k];
            if candidate > obj_offset && candidate < next_offset {
                next_offset = candidate;
            }
            k = k + 1;
        }
        if obj_offset > next_offset || next_offset > data.len() {
            return Err(error("Invalid object stream offsets"));
        }
        let obj_data = vstd::slice::slice_subrange(data, obj_offset, next_offset);
        match parse_value(obj_data, 0, 0, self.limits.max_depth, &self.limits.budget) {
            Ok((value, end)) => {
                proof {
                    assert(obj_data@ == data@.subrange(obj_offset as int, next_offset as int));
                }
                let rest = skip_ws(obj_data, end);
                if !self.tolerant && rest < obj_data.len() {
                    return Err(error("Residual bytes after compressed object"));
                }
                Ok(value)
            },
            Err(m) => {
                if self.tolerant {
                    Ok(PdfValue::Null)
                } else {
                    Err(AstError::ParseError(concat2("Failed to parse compressed object: ", m.as_str())))
                }
            },
        }
    }

    /// The in-use offsets of the cross-reference entries, sorted and each
    /// once, charged to the decoded-bytes budget.
    pub fn refresh_object_offsets(&mut self) -> (r: Result<(), AstError>)
        ensures
            old(self).same_config(final(self)),
            final(self).document == old(self).document,
            final(self).xref_offset == old(self).xref_offset,
            final(self).object_load_depth == old(self).object_load_depth,
            final(self).object_cache == old(self).object_cache,
            r is Ok ==> forall|i: int, j: int|
                0 <= i < j < final(self).object_offsets@.len() ==> final(self).object_offsets@[i]
                    < final(self).object_offsets@[j],
            r is Ok ==> forall|x: u64|
                #[trigger] final(self).object_offsets@.contains(x) <==> exists|i: int|
                    0 <= i < old(self).document.xref.entries.entries_spec().len() && #[trigger] in_use_at(
                        old(self).document.xref.entries.entries_spec(),
                        i,
                        x,
                    ),
            r is Err ==> final(self).object_offsets == old(self).object_offsets,
    {
        let entries = self.document.xref.entries.entries();
        let mut offsets: Vec<u64> = Vec::new();
        let mut i: usize = 0;
        while i < entries.len()
            invariant
                i <= entries@.len(),
                forall|a: int, b: int| 0 <= a < b < offsets@.len() ==> offsets@[a] < offsets@[b],
                forall|x: u64|
                    #[trigger] offsets@.contains(x) <==> exists|j: int| 0 <= j < i && #[trigger] in_use_at(entries@, j, x),
            decreases entries@.len() - i,
        {
            let ghost before_all = offsets@;
            match entries[i].1 {
                XRefEntry::InUse { offset, .. } => {
                    let mut pos: usize = 0;
                    while pos < offsets.len() && offsets[pos] < offset
                        invariant
                            pos <= offsets@.len(),
                            forall|a: int| 0 <= a < pos ==> offsets@[a] < offset,
                        decreases offsets@.len() - pos,
                    {
                        pos = pos + 1;
                    }
                    if pos == offsets.len() || offsets[pos] != offset {
                        let ghost before = offsets@;
                        offsets.insert(pos, offset);
                        proof {
                            assert forall|a: int, b: int| 0 <= a < b < offsets@.len() implies offsets@[a]
                                < offsets@[b] by {
                                if b < pos {
                                    assert(before[a] < before[b]);
                                } else if b == pos {
                                    assert(before[a] < offset);
                                } else if a == pos {
                                    assert(before[b - 1] > offset || before[b - 1] >= before[pos as int]);
                                    if b - 1 > pos {
                                        assert(before[pos as int] < before[b - 1]);
                                    }
                                } else if a < pos {
                                    if b - 1 == pos as int {
                                        assert(before[a] < offset);
                                    } else {
                                        assert(before[a] < before[b - 1]);
                                    }
                                } else {
                                    assert(before[a - 1] < before[b - 1]);
                                }
                            }
                        }
                    }
                    proof {
                        assert forall|x: u64|
                            #[trigger] offsets@.contains(x) <==> exists|j: int| 0 <= j < i + 1 && #[trigger] in_use_at(entries@, j, x) by {
                            if offsets@.contains(x) {
                                if x != offset {
                                    let k = choose|k: int| 0 <= k < offsets@.len() && offsets@[k] == x;
                                    if k < pos {
                                        assert(before_all[k] == x);
                                    } else if k > pos && offsets@.len() == before_all.len() + 1 {
                                        assert(before_all[k - 1] == x);
                                    } else {
                                        assert(before_all[k] == x);
                                    }
                                    assert(before_all.contains(x));
                                } else {
                                    assert(in_use_at(entries@, i as int, x));
                                }
                            }
                            if exists|j: int| 0 <= j < i + 1 && #[trigger] in_use_at(entries@, j, x) {
                                if x == offset {
                                    assert(offsets@[pos as int] == offset);
                                } else {
                                    let j = choose|j: int| 0 <= j < i + 1 && #[trigger] in_use_at(entries@, j, x);
                                    assert(j != i);
                                    assert(before_all.contains(x));
                                    let k = choose|k: int| 0 <= k < before_all.len() && before_all[k] == x;
                                    if offsets@.len() == before_all.len() + 1 {
                                        if k < pos {
                                            assert(offsets@[k] == x);
                                        } else {
                                            assert(offsets@[k + 1] == x);
                                        }
                                    } else {
                                        assert(offsets@[k] == x);
                                    }
                                }
                            }
                        }
                    }
                },
                _ => {
                    proof {
                        assert forall|x: u64|
                            #[trigger] offsets@.contains(x) <==> exists|j: int| 0 <= j < i + 1 && #[trigger] in_use_at(entries@, j, x) by {
                            if exists|j: int| 0 <= j < i + 1 && #[trigger] in_use_at(entries@, j, x) {
                                let j = choose|j: int| 0 <= j < i + 1 && #[trigger] in_use_at(entries@, j, x);
                                assert(j != i);
                            }
                        }
                    }
                },
            }
            i = i + 1;
        }
        if offsets.len() > usize::MAX / 8 {
            return Err(error("Object offset index is too large"));
        }
        let bytes = (offsets.len() * 8) as u64;
        match self.limits.budget.consume_decoded(bytes) {
            Ok(()) => {},
            Err(e) => return Err(AstError::ParseError(e.to_string())),
        }
        self.object_offsets = offsets;
        Ok(())
    }

    /// The bytes of the object at `offset`: up to the next known object,
    /// the end of the file, or the object size limit, charged to the
    /// decoded-bytes budget.
    pub fn read_object_buffer(&mut self, offset: u64) -> (r: Result<Vec<u8>, AstError>)
        ensures
            old(self).same_config(final(self)),
            final(self).document == old(self).document,
            final(self).xref_offset == old(self).xref_offset,
            final(self).object_load_depth == old(self).object_load_depth,
            final(self).object_cache == old(self).object_cache,
            offset >= old(self).data@.len() ==> r is Err,
            r matches Ok(b) ==> b@ == old(self).data@.subrange(offset as int, offset + b@.len()),
            r matches Ok(b) ==> offset + b@.len() <= old(self).data@.len(),
            old(self).limits.max_object_size_mb > usize::MAX / 1048576 ==> r is Err,
            r matches Ok(b) ==> b@.len() == vstd::math::min(
                next_known_offset(final(self).object_offsets@, offset as int, old(self).data@.len() as int) - offset,
                old(self).limits.max_object_size_mb * 1048576,
            ),
    {
        let file_size = self.data.len() as u64;
        if offset >= file_size {
            let mut m = msg("Object offset ");
            m.append(u64_text(offset).as_str());
            m.append(" is outside the file");
            return Err(AstError::ParseError(m));
        }
        if self.limits.max_object_size_mb > usize::MAX / 1048576 {
            return Err(error("Object size limit overflow"));
        }
        let max_bytes = (self.limits.max_object_size_mb * 1048576) as u64;
        if self.object_offsets.len() == 0 {
            self.refresh_object_offsets()?;
        }
        let mut next_offset = file_size;
        let mut k: usize = 0;
        proof {
            assert(self.object_offsets@.skip(0) =~= self.object_offsets@);
        }
        while k < self.object_offsets.len()
            invariant_except_break
                next_known_offset(self.object_offsets@, offset as int, file_size as int) == next_known_offset(
                    self.object_offsets@.skip(k as int),
                    offset as int,
                    file_size as int,
                ),
                next_offset == file_size,
            invariant
                k <= self.object_offsets@.len(),
                offset < next_offset <= file_size,
                file_size == self.data@.len(),
            ensures
                next_offset == next_known_offset(self.object_offsets@, offset as int, file_size as int),
            decreases self.object_offsets@.len() - k,
        {
            let candidate = self.object_offsets[k];
            proof {
                assert(self.object_offsets@.skip(k as int)[0] == candidate);
                assert(self.object_offsets@.skip(k as int).drop_first() =~= self.object_offsets@.skip(k + 1));
            }
            if candidate > offset {
                if candidate < next_offset {
                    next_offset = candidate;
                }
                break;
            }
            k = k + 1;
        }
        let mut bound = next_offset - offset;
        if bound > max_bytes {
            bound = max_bytes;
        }
        match self.limits.budget.consume_decoded(bound) {
            Ok(()) => {},
            Err(e) => return Err(AstError::ParseError(e.to_string())),
        }
        let start = offset as usize;
        let end = start + bound as usize;
        Ok(vstd::slice::slice_to_vec(vstd::slice::slice_subrange(self.data.as_slice(), start, end)))
    }
}

/// `b` is `a` with one more node, joined under `from` by a new last edge of
/// type `edge_type`.
pub open spec fn added_node_under(a: crate::ast::PdfAstGraph, b: crate::ast::PdfAstGraph, from: NodeId, edge_type: EdgeType) -> bool {
    exists|id: NodeId|
        !a.has_node(id) && #[trigger] b.has_node(id) && b.edges_spec() == a.edges_spec().push(
            crate::ast::AstEdge { from, to: id, edge_type },
        )
}

/// The keyword `trailer`.
pub open spec fn trailer_word() -> Seq<u8> {
    seq![116u8, 114u8, 97u8, 105u8, 108u8, 101u8, 114u8]
}

/// The entries of the dictionary after the first `trailer` keyword of `d`
/// and the white space after it, at most `max_depth` levels deep.
pub open spec fn trailer_dict_at(d: Seq<u8>, max_depth: int) -> Option<Seq<(Seq<char>, SpecValue)>> {
    match crate::object_parser::first_occ_from(d, trailer_word(), 0) {
        Some(i) => match crate::object_parser::spec_value(d, crate::object_parser::ws_end(d, i + 7), 0, max_depth) {
            Some((SpecValue::Dictionary(e), _)) => Some(e),
            _ => None,
        },
        None => None,
    }
}

/// The keyword `xref`.
pub open spec fn xref_word() -> Seq<u8> {
    seq![120u8, 114u8, 101u8, 102u8]
}

/// `catalog` names a node of `b` that `a` lacks, holding a dictionary and
/// typed as that dictionary gives, `Catalog` by default.
pub open spec fn catalog_added(a: crate::ast::PdfAstGraph, b: crate::ast::PdfAstGraph, catalog: Option<NodeId>) -> bool {
    catalog matches Some(c) && !a.has_node(c) && (b.node(c) matches Some(x) && x.value is Dictionary && x.node_type
        == spec_refined_type(x.value.sv(), NodeType::Catalog))
}

/// A graph that keeps the nodes of another keeps its catalog node.
proof fn lemma_catalog_kept(
    a: crate::ast::PdfAstGraph,
    b: crate::ast::PdfAstGraph,
    c: crate::ast::PdfAstGraph,
    catalog: Option<NodeId>,
)
    requires
        catalog_added(a, b, catalog),
        graph_kept(b, c),
    ensures
        catalog_added(a, c, catalog),
{
    let id = catalog->Some_0;
    assert(b.has_node(id));
    assert(c.has_node(id) && same_node_content(c.node(id), b.node(id)));
}

/// Whether a page tree node's value lists `r` among its `/Kids`.
pub open spec fn lists_kid(v: SpecValue, r: PdfReference) -> bool {
    v matches SpecValue::Dictionary(e) && crate::types::spec_dict_get(e, crate::types::name_text("Kids"@)) matches Some(
        SpecValue::Array(ks),
    ) && ks.contains(SpecValue::Reference(r.object_number, r.generation_number))
}

/// Whether every value that loading object `r` in state `s` can give (the
/// value cached for it, or else the object read at its offset) lists `r`
/// itself among its `/Kids`.
pub open spec fn root_lists_itself(s: &PdfFileParser, r: PdfReference) -> bool {
    match s.cached(r.spec_id()) {
        Some(c) => lists_kid(c, r),
        None => match s.document.xref.entries.spec_get(r.spec_id()) {
            Some(XRefEntry::InUse { offset, .. }) => forall|after: PdfFileParser, v: SpecValue|
                #[trigger] loaded_from(s.data@, offset as int, s.limits.max_depth as int, &after, (r.spec_id(), v))
                    ==> lists_kid(v, r),
            _ => false,
        },
    }
}

/// `b` holds a node that `a` lacks, of type `Pages` or `Page`.
pub open spec fn page_node_added(a: crate::ast::PdfAstGraph, b: crate::ast::PdfAstGraph) -> bool {
    exists|n: NodeId|
        !a.has_node(n) && #[trigger] b.has_node(n) && (b.node(n) matches Some(x) && (x.node_type == NodeType::Pages
            || x.node_type == NodeType::Page))
}

/// A graph that keeps the nodes of another keeps the page node it added.
proof fn lemma_page_node_kept(a: crate::ast::PdfAstGraph, b: crate::ast::PdfAstGraph, c: crate::ast::PdfAstGraph)
    requires
        page_node_added(a, b),
        graph_kept(b, c),
    ensures
        page_node_added(a, c),
{
    let n = choose|n: NodeId|
        !a.has_node(n) && #[trigger] b.has_node(n) && (b.node(n) matches Some(x) && (x.node_type == NodeType::Pages
            || x.node_type == NodeType::Page));
    assert(c.has_node(n) && same_node_content(c.node(n), b.node(n)));
}

/// The messages with which reading an object of an object stream reports
/// that the shared budget refused a charge.
pub open spec fn compressed_budget_text(m: Seq<char>) -> bool {
    ||| crate::object_parser::budget_text(m)
    ||| m == "Failed to parse compressed object: "@ + "Object budget exceeded"@
    ||| m == "Failed to parse compressed object: "@ + "Input budget exceeded"@
}

/// The smallest of the first `k` offsets above `x` that is below `init`,
/// else `init`.
pub open spec fn min_above(o: Seq<usize>, x: int, k: int, init: int) -> int
    decreases k,
{
    if k <= 0 {
        init
    } else {
        let m = min_above(o, x, k - 1, init);
        if o[k - 1] > x && o[k - 1] < m {
            o[k - 1] as int
        } else {
            m
        }
    }
}

/// Object `index` of an object stream's data with `n` objects whose data
/// start at `first`: its value, read from its offset up to the next
/// larger offset, and whether bytes other than white space follow it
/// there; none when the header or the value cannot be read.
pub open spec fn compressed_object(data: Seq<u8>, index: int, n: nat, first: int, max_depth: int) -> Option<
    (SpecValue, bool),
> {
    match crate::object_parser::spec_stream_offsets(data, 0, n, first) {
        None => None,
        Some(o) => {
            let start = o[index] as int;
            let next = min_above(o, start, o.len() as int, data.len() as int);
            if start > next || next > data.len() {
                None
            } else {
                let obj = data.subrange(start, next);
                match crate::object_parser::spec_value(obj, 0, 0, max_depth) {
                    None => None,
                    Some((v, end)) => Some((v, crate::object_parser::skip_ws_spec(obj, end) < obj.len())),
                }
            }
        },
    }
}

/// Whether `state` holds cached for `id` an unfiltered stream with
/// dictionary `dict` and data `bytes`.
pub open spec fn stream_in_cache(state: &PdfFileParser, id: ObjectId, dict: PdfDictionary, bytes: Seq<u8>) -> bool {
    state.cached(id) == Some(SpecValue::Stream(dict.sv_entries(), bytes, false)) && crate::xref::unfiltered(&dict)
}

/// Whether `v` is object `index` of the object stream that `state` holds
/// cached for `id`.
pub open spec fn from_object_stream(state: &PdfFileParser, id: ObjectId, index: u32, v: SpecValue) -> bool {
    exists|dict: PdfDictionary, bytes: Seq<u8>|
        #[trigger] stream_in_cache(state, id, dict, bytes) && match spec_object_stream_header(&dict, index) {
            Ok((n, first)) => index < n && match compressed_object(
                bytes,
                index as int,
                n,
                first as int,
                state.limits.max_depth as int,
            ) {
                Some((x, _)) => x == v,
                None => false,
            },
            Err(_) => false,
        }
}

/// The messages with which resolving an XFA value without references may
/// fail: its depth limit, or the budget's cancellation or deadline.
pub open spec fn xfa_refusal(m: Seq<char>, limits: PerformanceLimits) -> bool {
    ||| m == "Exceeded max XFA value depth: "@ + decimal(limits.max_depth as nat)
    ||| m == "resource budget exceeded: "@ + crate::limits::budget_error_name(
        crate::limits::ResourceBudgetError::Cancelled,
    )
    ||| (m == "resource budget exceeded: "@ + crate::limits::budget_error_name(
        crate::limits::ResourceBudgetError::Deadline,
    ) && limits.budget.deadline is Some)
}

/// Whether `v` is made of arrays and values that are neither dictionaries,
/// streams nor references.
pub open spec fn plain_arrays(v: SpecValue) -> bool
    decreases v, 1nat, 0nat,
{
    match v {
        SpecValue::Array(items) => items_plain(items, items.len() as nat),
        SpecValue::Dictionary(_) => false,
        SpecValue::Stream(_, _, _) => false,
        SpecValue::Reference(_, _) => false,
        _ => true,
    }
}

/// Whether the first `k` items are made of arrays and plain values.
pub open spec fn items_plain(items: Seq<SpecValue>, k: nat) -> bool
    decreases items, 0nat, k,
{
    if k == 0 || k > items.len() {
        true
    } else {
        proof {
            assert(decreases_to!(items => items[k - 1]));
        }
        items_plain(items, (k - 1) as nat) && plain_arrays(items[k - 1])
    }
}

/// Each of the first `k` items is plain when they all are.
proof fn lemma_items_plain(items: Seq<SpecValue>, k: nat, j: int)
    requires
        items_plain(items, k),
        0 <= j < k <= items.len(),
    ensures
        plain_arrays(items[j]),
    decreases k,
{
    if j < k - 1 {
        lemma_items_plain(items, (k - 1) as nat, j);
    }
}

/// The references of the first `k` items are all absent when the items
/// have none.
proof fn lemma_items_refs_empty(items: Seq<SpecValue>, k: nat, j: int)
    requires
        crate::types::items_refs(items, k).len() == 0,
        0 <= j < k <= items.len(),
    ensures
        crate::types::value_refs(items[j]).len() == 0,
    decreases k,
{
    if j < k - 1 {
        lemma_items_refs_empty(items, (k - 1) as nat, j);
    }
}

/// When none of the first `k` items reaches above `limit`, item `j` does
/// not.
proof fn lemma_items_not_exceed(items: Seq<SpecValue>, k: int, j: int, depth: int, limit: int)
    requires
        !items_exceed(items, k, depth, limit),
        0 <= j < k <= items.len(),
        depth <= limit + 1,
    ensures
        !arrays_exceed(items[j], depth, limit),
    decreases k,
{
    if j < k - 1 {
        lemma_items_not_exceed(items, k - 1, j, depth, limit);
    }
}

/// Whether nested arrays in `v`, which stands at level `depth`, reach a
/// level above `limit`.
pub open spec fn arrays_exceed(v: SpecValue, depth: int, limit: int) -> bool
    decreases limit + 1 - depth, 1int, 0int,
{
    if depth > limit {
        true
    } else {
        match v {
            SpecValue::Array(items) => items_exceed(items, items.len() as int, depth + 1, limit),
            _ => false,
        }
    }
}

/// Whether one of the first `k` items, standing at level `depth`, has
/// nested arrays that reach a level above `limit`.
pub open spec fn items_exceed(items: Seq<SpecValue>, k: int, depth: int, limit: int) -> bool
    decreases limit + 2 - depth, 0int, k,
{
    if k <= 0 || k > items.len() || depth > limit + 1 {
        false
    } else {
        items_exceed(items, k - 1, depth, limit) || arrays_exceed(items[k - 1], depth, limit)
    }
}

/// Whether entry `i` is in use at offset `x`.
pub open spec fn in_use_at(e: Seq<(ObjectId, XRefEntry)>, i: int, x: u64) -> bool {
    e[i].1 matches XRefEntry::InUse { offset, .. } && offset == x
}

/// Where the object at `offset` ends at the latest: the first known offset
/// past it, else the end of the file.
pub open spec fn next_known_offset(o: Seq<u64>, offset: int, file_size: int) -> int
    decreases o.len(),
{
    if o.len() == 0 {
        file_size
    } else if o[0] > offset {
        if o[0] < file_size {
            o[0] as int
        } else {
            file_size
        }
    } else {
        next_known_offset(o.drop_first(), offset, file_size)
    }
}

/// The cache as object ids paired with the values' mathematical views.
pub open spec fn cache_view(c: Seq<(ObjectId, PdfValue)>) -> Seq<(ObjectId, SpecValue)> {
    Seq::new(c.len(), |i: int| (c[i].0, c[i].1.sv()))
}

impl PdfFileParser {
    /// The value cached for `id`.
    pub open spec fn cached(&self, id: ObjectId) -> Option<SpecValue> {
        crate::types::spec_dict_get(cache_view(self.object_cache@), id)
    }

    /// How deep loads may nest: the depth limit when recursion checks are
    /// on, else only what a `usize` counts.
    pub open spec fn depth_bound(&self) -> nat {
        if self.limits.enable_recursion_checks {
            self.limits.max_depth as nat
        } else {
            usize::MAX as nat
        }
    }

    /// How many more loads may nest.
    pub open spec fn depth_room(&self) -> nat {
        if self.object_load_depth <= self.depth_bound() {
            (self.depth_bound() - self.object_load_depth) as nat
        } else {
            0
        }
    }

    /// What loading an object keeps: the settings, the document but for
    /// its diagnostics, the nesting depth, and every cached value.
    pub open spec fn load_frame(&self, next: &Self) -> bool {
        &&& self.same_config(next)
        &&& same_but_diagnostics(&self.document, &next.document)
        &&& next.xref_offset == self.xref_offset
        &&& next.object_load_depth == self.object_load_depth
        &&& forall|k: ObjectId| #[trigger] self.cached(k) is Some ==> next.cached(k) == self.cached(k)
    }

    /// The cached value of `id`, copied.
    fn cache_lookup(&self, id: &ObjectId) -> (r: Option<PdfValue>)
        ensures
            r matches Some(v) ==> self.cached(*id) == Some(v.sv()),
            r is None ==> self.cached(*id) is None,
    {
        let ghost view = cache_view(self.object_cache@);
        let mut i: usize = 0;
        while i < self.object_cache.len()
            invariant
                i <= self.object_cache@.len(),
                view == cache_view(self.object_cache@),
                forall|j: int| 0 <= j < i ==> view[j].0 != *id,
            decreases self.object_cache@.len() - i,
        {
            if self.object_cache[i].0 == *id {
                proof {
                    crate::types::lemma_dict_get_first(view, *id, i as int);
                }
                return Some(self.object_cache[i].1.deep_clone());
            }
            i = i + 1;
        }
        proof {
            crate::types::lemma_dict_absent(view, *id, SpecValue::Null);
        }
        None
    }

    /// Caches `value` for `id`, replacing what was cached for it.
    fn cache_store(&mut self, id: ObjectId, value: PdfValue)
        ensures
            forall|k: ObjectId| #[trigger] final(self).cached(k) == if k == id {
                Some(value.sv())
            } else {
                old(self).cached(k)
            },
            old(self).same_config(final(self)),
            final(self).document == old(self).document,
            final(self).xref_offset == old(self).xref_offset,
            final(self).object_load_depth == old(self).object_load_depth,
            final(self).object_offsets == old(self).object_offsets,
    {
        let ghost before = cache_view(self.object_cache@);
        let mut i: usize = 0;
        while i < self.object_cache.len()
            invariant
                i <= self.object_cache@.len(),
                before == cache_view(self.object_cache@),
                forall|j: int| 0 <= j < i ==> before[j].0 != id,
            ensures
                i <= self.object_cache@.len(),
                before == cache_view(self.object_cache@),
                forall|j: int| 0 <= j < i ==> before[j].0 != id,
                i < self.object_cache@.len() ==> before[i as int].0 == id,
            decreases self.object_cache@.len() - i,
        {
            if self.object_cache[i].0 == id {
                break;
            }
            i = i + 1;
        }
        let ghost vsv = value.sv();
        if i < self.object_cache.len() {
            proof {
                crate::types::lemma_dict_insert_at(before, id, vsv, i as int);
            }
            self.object_cache.set(i, (id, value));
            proof {
                assert(cache_view(self.object_cache@) =~= before.update(i as int, (id, vsv)));
            }
        } else {
            proof {
                crate::types::lemma_dict_absent(before, id, vsv);
            }
            self.object_cache.push((id, value));
            proof {
                assert(cache_view(self.object_cache@) =~= before.push((id, vsv)));
            }
        }
        proof {
            assert forall|k: ObjectId| #[trigger] self.cached(k) == if k == id {
                Some(vsv)
            } else {
                crate::types::spec_dict_get(before, k)
            } by {
                crate::types::lemma_insert_get(before, id, vsv, k);
            }
        }
    }
}

/// Loads compose: what two loads in a row keep, the pair keeps.
proof fn lemma_load_frame_trans(a: &PdfFileParser, b: &PdfFileParser, c: &PdfFileParser)
    requires
        a.load_frame(b),
        b.load_frame(c),
    ensures
        a.load_frame(c),
{
    assert forall|k: ObjectId| #[trigger] a.cached(k) is Some implies c.cached(k) == a.cached(k) by {
        assert(b.cached(k) == a.cached(k));
    }
}

/// A step that leaves the cache, the document and the depth alone keeps
/// what a load keeps.
proof fn lemma_load_frame_plain(a: &PdfFileParser, b: &PdfFileParser)
    requires
        a.same_config(b),
        b.document == a.document,
        b.xref_offset == a.xref_offset,
        b.object_load_depth == a.object_load_depth,
        b.object_cache == a.object_cache,
    ensures
        a.load_frame(b),
{
}

/// The object that the `/Length` of the stream at the start of `d` refers
/// to: an indirect object whose dictionary is followed by `stream`.
pub open spec fn spec_stream_length_ref(d: Seq<u8>, max_depth: int) -> Option<ObjectId> {
    match crate::object_parser::spec_object_header(d, 0) {
        None => None,
        Some((_, p)) => match crate::object_parser::spec_value(d, p, 0, max_depth) {
            Some((SpecValue::Dictionary(e), end)) => if crate::object_parser::keyword_match(
                d,
                crate::object_parser::skip_ws_spec(d, end),
                crate::object_parser::stream_word(),
            ) {
                match crate::types::spec_dict_get(e, crate::types::name_text("Length"@)) {
                    Some(SpecValue::Reference(n, g)) => Some(ObjectId { number: n, generation: g }),
                    _ => None,
                }
            } else {
                None
            },
            _ => None,
        },
    }
}

/// Whether `y` is the object at the start of `d`, read with the integer
/// that `after` holds cached for `length` when its `/Length` refers to
/// one, and otherwise (or, in tolerant modes, when that fails) to its
/// `endstream`.
pub open spec fn parsed_with_length(
    d: Seq<u8>,
    max_depth: int,
    length: Option<ObjectId>,
    after: &PdfFileParser,
    y: (ObjectId, SpecValue),
) -> bool {
    ||| ((length is None || after.tolerant) && (crate::object_parser::spec_indirect(d, 0, max_depth, None) matches Some(
        (x, _),
    ) && x == y))
    ||| read_with_length(d, max_depth, length, after, y)
}

/// Whether `y` is the object at the start of `d` read with the integer
/// that `after` holds cached for `length`.
pub open spec fn read_with_length(
    d: Seq<u8>,
    max_depth: int,
    length: Option<ObjectId>,
    after: &PdfFileParser,
    y: (ObjectId, SpecValue),
) -> bool {
    match length {
        Some(lid) => match after.cached(lid) {
            Some(SpecValue::Integer(n)) => 0 <= n <= usize::MAX && match crate::object_parser::spec_indirect(
                d,
                0,
                max_depth,
                Some(n as usize),
            ) {
                Some((x, _)) => x == y,
                None => false,
            },
            _ => false,
        },
        None => false,
    }
}

/// Whether `y` is the object at the start of `d` as a load gives it: as
/// `parsed_with_length` reads it, or, for a stream whose `/Length` refers
/// to the object itself, read with some length.
pub open spec fn read_as_loaded(
    d: Seq<u8>,
    max_depth: int,
    length: Option<ObjectId>,
    after: &PdfFileParser,
    y: (ObjectId, SpecValue),
) -> bool {
    ||| parsed_with_length(d, max_depth, length, after, y)
    ||| (length == Some(y.0) && exists|n: usize|
        #[trigger] crate::object_parser::spec_indirect(d, 0, max_depth, Some(n)) matches Some((x, _)) && x == y)
}

/// Whether `y` is the object that a load of an object in use at `offset`
/// of `data` gives: from the bytes there, of some length.
pub open spec fn loaded_from(
    data: Seq<u8>,
    offset: int,
    max_depth: int,
    after: &PdfFileParser,
    y: (ObjectId, SpecValue),
) -> bool {
    exists|blen: int|
        0 <= blen && offset + blen <= data.len() && #[trigger] read_as_loaded(
            data.subrange(offset, offset + blen),
            max_depth,
            spec_stream_length_ref(data.subrange(offset, offset + blen), max_depth),
            after,
            y,
        )
}

/// Storing the loaded object in the cache keeps what was read.
proof fn lemma_loaded_after_store(
    data: Seq<u8>,
    offset: int,
    max_depth: int,
    a: &PdfFileParser,
    b: &PdfFileParser,
    y: (ObjectId, SpecValue),
)
    requires
        object_read_at(data, offset, max_depth, a, y),
        forall|k: ObjectId| k != y.0 ==> #[trigger] b.cached(k) == a.cached(k),
        a.tolerant == b.tolerant,
    ensures
        loaded_from(data, offset, max_depth, b, y),
{
    let blen = choose|blen: int|
        0 <= blen && offset + blen <= data.len() && #[trigger] parsed_with_length(
            data.subrange(offset, offset + blen),
            max_depth,
            spec_stream_length_ref(data.subrange(offset, offset + blen), max_depth),
            a,
            y,
        );
    let d = data.subrange(offset, offset + blen);
    let length = spec_stream_length_ref(d, max_depth);
    if let Some(lid) = length {
        if lid != y.0 {
            assert(b.cached(lid) == a.cached(lid));
        } else if read_with_length(d, max_depth, length, a, y) {
            let n = a.cached(lid)->Some_0->Integer_0;
            assert(crate::object_parser::spec_indirect(d, 0, max_depth, Some(n as usize)) matches Some((x, _)) && x == y);
        }
    }
    assert(read_as_loaded(d, max_depth, length, b, y));
}

/// States with the same cache agree on what was loaded.
proof fn lemma_loaded_same_cache(
    data: Seq<u8>,
    offset: int,
    max_depth: int,
    a: &PdfFileParser,
    b: &PdfFileParser,
    y: (ObjectId, SpecValue),
)
    requires
        loaded_from(data, offset, max_depth, a, y),
        a.object_cache == b.object_cache,
        a.tolerant == b.tolerant,
    ensures
        loaded_from(data, offset, max_depth, b, y),
{
    let blen = choose|blen: int|
        0 <= blen && offset + blen <= data.len() && #[trigger] read_as_loaded(
            data.subrange(offset, offset + blen),
            max_depth,
            spec_stream_length_ref(data.subrange(offset, offset + blen), max_depth),
            a,
            y,
        );
    let d = data.subrange(offset, offset + blen);
    assert(read_as_loaded(d, max_depth, spec_stream_length_ref(d, max_depth), b, y));
}

/// A later state that keeps every cached value keeps what was read.
proof fn lemma_parsed_kept(
    d: Seq<u8>,
    max_depth: int,
    length: Option<ObjectId>,
    a: &PdfFileParser,
    b: &PdfFileParser,
    y: (ObjectId, SpecValue),
)
    requires
        parsed_with_length(d, max_depth, length, a, y),
        forall|k: ObjectId| #[trigger] a.cached(k) is Some ==> b.cached(k) == a.cached(k),
        a.tolerant == b.tolerant,
    ensures
        parsed_with_length(d, max_depth, length, b, y),
{
    if let Some(lid) = length {
        if a.cached(lid) is Some {
            assert(b.cached(lid) == a.cached(lid));
        }
    }
}

/// Whether `y` is the object read from `data` at `offset`: from the bytes
/// there, of some length, as `parsed_with_length` reads them.
pub open spec fn object_read_at(
    data: Seq<u8>,
    offset: int,
    max_depth: int,
    after: &PdfFileParser,
    y: (ObjectId, SpecValue),
) -> bool {
    exists|blen: int|
        0 <= blen && offset + blen <= data.len() && #[trigger] parsed_with_length(
            data.subrange(offset, offset + blen),
            max_depth,
            spec_stream_length_ref(data.subrange(offset, offset + blen), max_depth),
            after,
            y,
        )
}

/// The object a stream's `/Length` refers to, when `buffer` starts with an
/// indirect object whose dictionary is followed by `stream` and whose
/// length is given by reference.
pub(crate) fn stream_length_reference(buffer: &[u8], max_depth: usize, budget: &ResourceBudget) -> (r: Result<
    Option<ObjectId>,
    String,
>)
    ensures
        r matches Ok(x) ==> x == spec_stream_length_ref(buffer@, max_depth as int),
        r matches Err(m) ==> crate::object_parser::budget_text(m@),
{
    let (_id, p) = match parse_object_header(buffer, 0) {
        Ok(x) => x,
        Err(_) => return Ok(None),
    };
    let (value, end) = match parse_value(buffer, p, 0, max_depth, budget) {
        Ok(x) => x,
        Err(m) => {
            if crate::types::str_equal(m.as_str(), "Object budget exceeded") || crate::types::str_equal(
                m.as_str(),
                "Input budget exceeded",
            ) {
                return Err(m);
            }
            return Ok(None);
        },
    };
    proof {
        lemma_value_view(&value);
    }
    match value {
        PdfValue::Dictionary(dict) => {
            let q = skip_ws(buffer, end);
            let stream_kw: [u8; 6] = [115, 116, 114, 101, 97, 109];
            proof {
                assert(stream_kw@ =~= crate::object_parser::stream_word());
            }
            if !crate::object_parser::keyword_at(buffer, q, stream_kw.as_slice()) {
                return Ok(None);
            }
            match dict.get("Length") {
                Some(lv) => {
                    proof {
                        lemma_value_view(lv);
                    }
                    match lv {
                        PdfValue::Reference(r) => Ok(Some(r.id())),
                        _ => Ok(None),
                    }
                },
                None => Ok(None),
            }
        },
        _ => Ok(None),
    }
}

/// `prefix` followed by the object's number and generation.
fn object_message(prefix: &str, id: &ObjectId) -> (r: String)
    ensures
        r@ == prefix@ + decimal(id.number as nat) + " "@ + decimal(id.generation as nat),
{
    let mut m = msg(prefix);
    m.append(u64_text(id.number as u64).as_str());
    m.append(" ");
    m.append(u64_text(id.generation as u64).as_str());
    m
}

impl PdfFileParser {
    /// The value of object `obj_id`.
    ///
    /// Loads nest (a stream's length or an object stream is loaded while
    /// loading another object) at most `depth_bound` deep: beyond it a
    /// tolerant parser records a diagnostic and gives `Null`, a strict one
    /// fails.  A cached value is given back as it was cached; otherwise the
    /// cross-reference entry decides: a free object is `Null`, an object in
    /// use is parsed at its offset, a compressed one is taken from its
    /// object stream.  A missing entry fails in strict mode and gives
    /// `Null` with a diagnostic in tolerant modes.  What is loaded for an
    /// object that has an entry is cached.
    pub fn load_object(&mut self, obj_id: &ObjectId) -> (r: Result<PdfValue, AstError>)
        ensures
            old(self).load_frame(final(self)),
            old(self).object_load_depth >= old(self).depth_bound() ==> if old(self).tolerant {
                &&& (r is Ok <==> old(self).document.diagnostics@.len() < old(self).max_errors)
                &&& (r is Ok ==> r == Ok::<PdfValue, AstError>(PdfValue::Null))
            } else {
                r matches Err(e) && e.message() == "Exceeded max object load depth: "@ + decimal(
                    old(self).limits.max_depth as nat,
                )
            },
            old(self).object_load_depth < old(self).depth_bound() ==> load_outcome(old(self), final(self), *obj_id, r),
        decreases old(self).depth_room(), 1int,
    {
        let within = if self.limits.enable_recursion_checks {
            self.object_load_depth < self.limits.max_depth
        } else {
            self.object_load_depth < usize::MAX
        };
        if !within {
            if self.tolerant {
                self.record_diagnostic(
                    Some(*obj_id),
                    None,
                    "max_depth",
                    "returned Null",
                    100,
                    0,
                    "Maximum object resolution depth exceeded",
                )?;
                return Ok(PdfValue::Null);
            }
            let mut m = msg("Exceeded max object load depth: ");
            m.append(usize_text(self.limits.max_depth).as_str());
            return Err(AstError::ParseError(m));
        }
        let ghost start = *self;
        self.object_load_depth = self.object_load_depth + 1;
        let ghost raised = *self;
        let result = self.load_object_inner(obj_id);
        let ghost loaded = *self;
        self.object_load_depth = self.object_load_depth - 1;
        proof {
            assert(start.cached(*obj_id) == raised.cached(*obj_id));
            assert forall|k: ObjectId| #[trigger] start.cached(k) is Some implies self.cached(k) == start.cached(k) by {
                assert(raised.cached(k) == start.cached(k));
                assert(loaded.cached(k) == raised.cached(k));
                assert(self.cached(k) == loaded.cached(k));
            }
            if let Some(XRefEntry::InUse { offset, .. }) = start.document.xref.entries.spec_get(*obj_id) {
                if start.cached(*obj_id) is None {
                    if result is Ok {
                        let v = result->Ok_0;
                        if !(start.tolerant && v == PdfValue::Null) {
                            lemma_loaded_same_cache(
                                start.data@,
                                offset as int,
                                start.limits.max_depth as int,
                                &loaded,
                                self,
                                (*obj_id, v.sv()),
                            );
                        }
                    }
                }
            }
        }
        result
    }

    fn load_object_inner(&mut self, obj_id: &ObjectId) -> (r: Result<PdfValue, AstError>)
        ensures
            old(self).load_frame(final(self)),
            load_outcome(old(self), final(self), *obj_id, r),
        decreases old(self).depth_room(), 5int,
    {
        match self.limits.budget.check() {
            Ok(()) => {},
            Err(e) => return Err(AstError::ParseError(e.to_string())),
        }
        match self.cache_lookup(obj_id) {
            Some(v) => return Ok(v),
            None => {},
        }
        let entry = match self.document.xref.entries.get(obj_id) {
            Some(e) => e,
            None => {
                if !self.tolerant {
                    return Err(AstError::ParseError(object_message("Missing xref entry for object ", obj_id)));
                }
                self.record_diagnostic(
                    Some(*obj_id),
                    None,
                    "missing_xref",
                    "returned Null",
                    100,
                    0,
                    "No cross-reference entry exists for the requested object",
                )?;
                return Ok(PdfValue::Null);
            },
        };
        let ghost pre = *self;
        let value = match entry {
            XRefEntry::InUse { offset, .. } => self.load_in_use(obj_id, offset)?,
            XRefEntry::Compressed { stream_object, index } => self.load_from_object_stream(stream_object, index)?,
            XRefEntry::Free { .. } => PdfValue::Null,
        };
        let ghost mid = *self;
        let copy = value.deep_clone();
        self.cache_store(*obj_id, copy);
        proof {
            if let XRefEntry::InUse { offset, .. } = entry {
                if !(pre.tolerant && value == PdfValue::Null) {
                    lemma_loaded_after_store(
                        pre.data@,
                        offset as int,
                        pre.limits.max_depth as int,
                        &mid,
                        self,
                        (*obj_id, value.sv()),
                    );
                }
            }
        }
        Ok(value)
    }

    /// An object in use at `offset`: its id must be the one asked for, and
    /// a stream whose length is given by reference must hold at least that
    /// many bytes.
    fn load_in_use(&mut self, obj_id: &ObjectId, offset: u64) -> (r: Result<PdfValue, AstError>)
        ensures
            old(self).load_frame(final(self)),
            r matches Ok(v) ==> (old(self).tolerant && v == PdfValue::Null) || object_read_at(
                old(self).data@,
                offset as int,
                old(self).limits.max_depth as int,
                final(self),
                (*obj_id, v.sv()),
            ),
            offset >= old(self).data@.len() ==> r is Err,
        decreases old(self).depth_room(), 4int,
    {
        let ghost start = *self;
        let buffer = self.read_object_buffer(offset)?;
        let ghost blen = buffer@.len() as int;
        proof {
            lemma_load_frame_plain(&start, self);
        }
        let ghost read = *self;
        let parsed = match self.parse_loaded_object(buffer.as_slice()) {
            Ok(p) => p,
            Err(e) => {
                proof {
                    lemma_load_frame_trans(&start, &read, self);
                }
                return Err(e);
            },
        };
        proof {
            lemma_load_frame_trans(&start, &read, self);
        }
        let ghost mid = *self;
        match parsed {
            Ok(((parsed_id, value), _)) => {
                if parsed_id == *obj_id {
                    match &value {
                        PdfValue::Stream(stream) => {
                            match self.resolve_indirect_stream_length(stream) {
                                Ok(()) => {},
                                Err(err) => {
                                    if !self.tolerant {
                                        return Err(err);
                                    }
                                    let ghost r1 = *self;
                                    let observed = stream.data.bytes().len() as u64;
                                    self.record_diagnostic(
                                        Some(*obj_id),
                                        Some(offset),
                                        "stream_length",
                                        "kept observed stream bytes",
                                        80,
                                        observed,
                                        err.to_string().as_str(),
                                    )?;
                                    proof {
                                        assert(self.object_cache == r1.object_cache);
                                        assert forall|k: ObjectId| #[trigger] mid.cached(k) is Some implies self.cached(k)
                                            == mid.cached(k) by {
                                            assert(r1.cached(k) == mid.cached(k));
                                        }
                                    }
                                },
                            }
                        },
                        _ => {},
                    }
                    proof {
                        assert(forall|k: ObjectId| #[trigger] mid.cached(k) is Some ==> self.cached(k) == mid.cached(k));
                        assert(buffer@ == start.data@.subrange(offset as int, offset + blen));
                        lemma_parsed_kept(
                            buffer@,
                            start.limits.max_depth as int,
                            spec_stream_length_ref(buffer@, start.limits.max_depth as int),
                            &mid,
                            self,
                            (parsed_id, value.sv()),
                        );
                        assert(parsed_with_length(
                            start.data@.subrange(offset as int, offset + blen),
                            start.limits.max_depth as int,
                            spec_stream_length_ref(start.data@.subrange(offset as int, offset + blen), start.limits.max_depth as int),
                            self,
                            (*obj_id, value.sv()),
                        ));
                    }
                    Ok(value)
                } else {
                    let mut m = object_message("Object ID mismatch: expected ", obj_id);
                    m.append(", got ");
                    m.append(u64_text(parsed_id.number as u64).as_str());
                    m.append(" ");
                    m.append(u64_text(parsed_id.generation as u64).as_str());
                    if !self.tolerant {
                        return Err(AstError::ParseError(m));
                    }
                    self.record_diagnostic(
                        Some(*obj_id),
                        Some(offset),
                        "object_id_mismatch",
                        "returned Null",
                        100,
                        buffer.len() as u64,
                        m.as_str(),
                    )?;
                    Ok(PdfValue::Null)
                }
            },
            Err(e) => {
                if !self.tolerant {
                    let mut m = object_message("Failed to parse object ", obj_id);
                    m.append(": ");
                    m.append(e.as_str());
                    return Err(AstError::ParseError(m));
                }
                let m = concat2("Failed to parse object: ", e.as_str());
                self.record_diagnostic(
                    Some(*obj_id),
                    Some(offset),
                    "object_parse",
                    "returned Null",
                    100,
                    buffer.len() as u64,
                    m.as_str(),
                )?;
                Ok(PdfValue::Null)
            },
        }
    }

    /// Parses the object in `buffer`; a stream whose `/Length` is a
    /// reference is read with the length that object holds.  A length that
    /// cannot be had fails in strict mode; tolerant modes then read the
    /// stream up to `endstream`.
    fn parse_loaded_object(&mut self, buffer: &[u8]) -> (r: Result<
        Result<((ObjectId, PdfValue), usize), String>,
        AstError,
    >)
        ensures
            old(self).load_frame(final(self)),
            r matches Ok(Ok((y, _))) ==> parsed_with_length(
                buffer@,
                old(self).limits.max_depth as int,
                spec_stream_length_ref(buffer@, old(self).limits.max_depth as int),
                final(self),
                (y.0, y.1.sv()),
            ),
        decreases old(self).depth_room(), 3int,
    {
        let max_depth = self.limits.max_depth;
        let length_id = match stream_length_reference(buffer, max_depth, &self.limits.budget) {
            Ok(x) => x,
            Err(m) => return Ok(Err(m)),
        };
        self.parse_with_length(buffer, length_id)
    }

    /// Parses the object in `buffer` given the object its stream's
    /// `/Length` refers to, if any: that object's integer value is the
    /// stream's length.  A length that cannot be had fails in strict mode;
    /// tolerant modes then read the stream up to `endstream`.
    fn parse_with_length(&mut self, buffer: &[u8], length: Option<ObjectId>) -> (r: Result<
        Result<((ObjectId, PdfValue), usize), String>,
        AstError,
    >)
        ensures
            old(self).load_frame(final(self)),
            r matches Ok(Ok((y, _))) ==> parsed_with_length(
                buffer@,
                old(self).limits.max_depth as int,
                length,
                final(self),
                (y.0, y.1.sv()),
            ),
            length is None ==> *final(self) == *old(self) && r is Ok,
            (length is None && crate::object_parser::spec_indirect(buffer@, 0, old(self).limits.max_depth as int, None)
                is None) ==> (r matches Ok(x) && x is Err),
            length is Some && !old(self).tolerant ==> (r matches Ok(Ok((y, _))) ==> read_with_length(
                buffer@,
                old(self).limits.max_depth as int,
                length,
                final(self),
                (y.0, y.1.sv()),
            )),
        decreases old(self).depth_room(), 2int,
    {
        let max_depth = self.limits.max_depth;
        let length_id = match length {
            Some(id) => id,
            None => return Ok(parse_indirect_object(buffer, 0, max_depth, &self.limits.budget, None)),
        };
        let ghost before = *self;
        let loaded = self.load_object(&length_id);
        proof {
            if loaded is Ok {
                lemma_value_view(&loaded->Ok_0);
            }
        }
        match loaded {
            Ok(PdfValue::Integer(length)) => {
                if length >= 0 {
                    if (length as u64) > (usize::MAX as u64) {
                        if !self.tolerant {
                            return Err(error("Indirect stream Length is too large"));
                        }
                        Ok(parse_indirect_object(buffer, 0, max_depth, &self.limits.budget, None))
                    } else {
                        Ok(parse_indirect_object(buffer, 0, max_depth, &self.limits.budget, Some(length as usize)))
                    }
                } else {
                    if !self.tolerant {
                        return Err(error("Indirect stream Length is not an integer"));
                    }
                    Ok(parse_indirect_object(buffer, 0, max_depth, &self.limits.budget, None))
                }
            },
            Ok(_) => {
                if !self.tolerant {
                    return Err(error("Indirect stream Length is not an integer"));
                }
                Ok(parse_indirect_object(buffer, 0, max_depth, &self.limits.budget, None))
            },
            Err(err) => {
                if !self.tolerant {
                    return Err(err);
                }
                Ok(parse_indirect_object(buffer, 0, max_depth, &self.limits.budget, None))
            },
        }
    }

    /// Checks a stream whose `/Length` is a reference: the object referred
    /// to must be a non-negative integer no larger than the bytes read.
    pub fn resolve_indirect_stream_length(&mut self, stream: &PdfStream) -> (r: Result<(), AstError>)
        ensures
            old(self).load_frame(final(self)),
            !(stream.dict.spec_get("Length"@) matches Some(SpecValue::Reference(_, _))) ==> r is Ok,
            !(stream.dict.spec_get("Length"@) matches Some(SpecValue::Reference(_, _))) ==> *final(self) == *old(self),
            stream.dict.spec_get("Length"@) matches Some(SpecValue::Reference(number, generation)) ==> {
                let id = ObjectId { number, generation };
                &&& (old(self).object_load_depth < old(self).depth_bound() && old(self).cached(id) is Some && r is Ok)
                    ==> (old(self).cached(id) matches Some(SpecValue::Integer(n)) && 0 <= n
                    <= crate::xref::stream_bytes(stream).len())
                &&& (old(self).object_load_depth < old(self).depth_bound() && old(
                    self,
                ).document.xref.entries.spec_get(id) is Some && r is Ok) ==> (final(self).cached(id) matches Some(
                    SpecValue::Integer(n),
                ) && 0 <= n <= crate::xref::stream_bytes(stream).len())
            },
        decreases old(self).depth_room(), 3int,
    {
        let length_id = match stream.dict.get("Length") {
            Some(v) => {
                proof {
                    crate::types::lemma_value_view(v);
                }
                match v {
                    PdfValue::Reference(reference) => reference.id(),
                    _ => return Ok(()),
                }
            },
            None => return Ok(()),
        };
        let loaded = self.load_object(&length_id)?;
        proof {
            lemma_value_view(&loaded);
        }
        let length = match loaded {
            PdfValue::Integer(n) => {
                if n < 0 {
                    return Err(error("Indirect stream Length is not a non-negative integer"));
                }
                if (n as u64) > (usize::MAX as u64) {
                    return Err(error("Stream length is too large"));
                }
                n as usize
            },
            _ => return Err(error("Indirect stream Length is not a non-negative integer")),
        };
        let observed = stream.data.bytes().len();
        if length > observed {
            let mut m = msg("Declared stream length ");
            m.append(usize_text(length).as_str());
            m.append(" exceeds observed data ");
            m.append(usize_text(observed).as_str());
            return Err(AstError::ParseError(m));
        }
        Ok(())
    }

    /// Object `index` of object stream `stream_obj`: the stream is loaded,
    /// its data decoded and the object parsed from it.  What fails there
    /// fails in strict mode and gives `Null` with a diagnostic in tolerant
    /// modes.
    pub fn load_from_object_stream(&mut self, stream_obj: u32, index: u32) -> (r: Result<PdfValue, AstError>)
        ensures
            old(self).load_frame(final(self)),
            r matches Ok(v) ==> (old(self).tolerant && v == PdfValue::Null) || from_object_stream(
                final(self),
                ObjectId { number: stream_obj, generation: 0 },
                index,
                v.sv(),
            ),
            (old(self).object_load_depth < old(self).depth_bound() && (old(self).cached(
                ObjectId { number: stream_obj, generation: 0 },
            ) matches Some(c) && !(c is Stream))) ==> if old(self).tolerant {
                &&& (r is Ok ==> r == Ok::<PdfValue, AstError>(PdfValue::Null))
                &&& (r matches Err(e) ==> check_refusal(e.message(), old(self).limits)
                    || final(self).document.diagnostics@.len() >= final(self).spec_max_errors())
            } else {
                r matches Err(e) && (check_refusal(e.message(), old(self).limits) || e.message()
                    == "Xref compressed entry is not an object stream"@)
            },
            forall|dict: PdfDictionary, bytes: Seq<u8>|
                (old(self).object_load_depth < old(self).depth_bound() && !old(self).tolerant
                    && #[trigger] stream_in_cache(old(self), ObjectId { number: stream_obj, generation: 0 }, dict, bytes))
                    ==> match spec_object_stream_header(&dict, index) {
                    Ok((n, first)) => index < n ==> (compressed_object(
                        bytes,
                        index as int,
                        n,
                        first as int,
                        old(self).limits.max_depth as int,
                    ) matches Some((x, false)) ==> ((r matches Ok(v) && v.sv() == x) || (r matches Err(e) && (
                    check_refusal(e.message(), old(self).limits) || stream_decode_refused(
                        e.message(),
                        old(self).limits.budget,
                    ) || compressed_budget_text(e.message()))))),
                    Err(_) => true,
                },
        decreases old(self).depth_room(), 3int,
    {
        let stream_id = ObjectId::new(stream_obj, 0);
        let ghost before = *self;
        let stream_value = self.load_object(&stream_id)?;
        proof {
            lemma_value_view(&stream_value);
        }
        let ghost loaded = *self;
        match stream_value {
            PdfValue::Stream(stream) => {
                match stream.raw_data() {
                    Some(_) => {},
                    None => {
                        if !self.tolerant {
                            return Err(error("Object stream has no raw data"));
                        }
                        self.record_diagnostic(
                            Some(stream_id),
                            None,
                            "object_stream_data",
                            "returned Null",
                            100,
                            0,
                            "Object stream has no raw data",
                        )?;
                        return Ok(PdfValue::Null);
                    },
                }
                match crate::xref::decode_unfiltered_stream(&stream, &self.limits.budget) {
                    Ok(decoded) => {
                        match self.parse_object_from_stream(decoded.as_slice(), index, &stream.dict) {
                            Ok(value) => {
                                proof {
                                    if !(self.tolerant && value == PdfValue::Null) {
                                        assert(self.cached(stream_id) == Some(stream_value.sv()));
                                        assert(stream_in_cache(self, stream_id, stream.dict, decoded@));
                                    }
                                }
                                Ok(value)
                            },
                            Err(err) => {
                                if !self.tolerant {
                                    return Err(err);
                                }
                                self.record_diagnostic(
                                    Some(stream_id),
                                    None,
                                    "object_stream_parse",
                                    "returned Null",
                                    100,
                                    decoded.len() as u64,
                                    err.to_string().as_str(),
                                )?;
                                Ok(PdfValue::Null)
                            },
                        }
                    },
                    Err(m) => {
                        if !self.tolerant {
                            let full = concat2("Failed to decode object stream: ", m.as_str());
                            proof {
                                if crate::xref::decode_budget_message(&self.limits.budget, m@) {
                                    assert(stream_decode_refused(full@, self.limits.budget));
                                }
                            }
                            return Err(AstError::ParseError(full));
                        }
                        self.record_diagnostic(
                            Some(stream_id),
                            None,
                            "object_stream_decode",
                            "returned Null",
                            100,
                            0,
                            m.as_str(),
                        )?;
                        Ok(PdfValue::Null)
                    },
                }
            },
            _ => {
                if !self.tolerant {
                    return Err(error("Xref compressed entry is not an object stream"));
                }
                self.record_diagnostic(
                    Some(stream_id),
                    None,
                    "object_stream_type",
                    "returned Null",
                    100,
                    0,
                    "Compressed xref entry does not reference an object stream",
                )?;
                Ok(PdfValue::Null)
            },
        }
    }
}

/// What a load within the depth bound gives: a cached value as it was
/// cached; for an object without an entry, `Null` at most (and failure in
/// strict mode); for a free object, `Null` at most; and when the object
/// has an entry, what is given is cached.
pub open spec fn load_outcome(
    before: &PdfFileParser,
    after: &PdfFileParser,
    id: ObjectId,
    r: Result<PdfValue, AstError>,
) -> bool {
    &&& (before.cached(id) matches Some(c) ==> (r matches Ok(v) ==> v.sv() == c))
    &&& (before.cached(id) is Some ==> (r matches Err(e) ==> check_refusal(e.message(), before.limits)))
    &&& (before.cached(id) is None && before.document.xref.entries.spec_get(id) is None ==> {
        &&& (r is Ok ==> r == Ok::<PdfValue, AstError>(PdfValue::Null))
        &&& (!before.tolerant ==> (r matches Err(e) && (check_refusal(e.message(), before.limits) || e.message()
            == "Missing xref entry for object "@ + decimal(id.number as nat) + " "@ + decimal(
            id.generation as nat,
        ))))
        &&& (before.tolerant ==> (r matches Err(e) ==> check_refusal(e.message(), before.limits)
            || before.document.diagnostics@.len() >= before.spec_max_errors()))
    })
    &&& (before.cached(id) is None ==> (before.document.xref.entries.spec_get(id) matches Some(
        XRefEntry::Free { .. },
    ) ==> (r is Ok ==> r == Ok::<PdfValue, AstError>(PdfValue::Null)) && (r matches Err(e) ==> check_refusal(
        e.message(),
        before.limits,
    ))))
    &&& (before.document.xref.entries.spec_get(id) is Some ==> (r matches Ok(v) ==> after.cached(id) == Some(
        v.sv(),
    )))
    &&& (before.cached(id) is None ==> (before.document.xref.entries.spec_get(id) matches Some(
        XRefEntry::InUse { offset, .. },
    ) ==> (r matches Ok(v) ==> (before.tolerant && v == PdfValue::Null) || loaded_from(
        before.data@,
        offset as int,
        before.limits.max_depth as int,
        after,
        (id, v.sv()),
    ))))
}

/// Whether `m` says that decoding an object stream was refused by the
/// budget.
pub open spec fn stream_decode_refused(m: Seq<char>, budget: ResourceBudget) -> bool {
    exists|k: Seq<char>| m == "Failed to decode object stream: "@ + k && #[trigger] crate::xref::decode_budget_message(
        &budget,
        k,
    )
}

/// Whether `m` is what a refused budget check reads: the budget was
/// cancelled, or its deadline (when it has one) has passed.
pub open spec fn check_refusal(m: Seq<char>, limits: PerformanceLimits) -> bool {
    ||| m == "resource budget exceeded: "@ + crate::limits::budget_error_name(
        crate::limits::ResourceBudgetError::Cancelled,
    )
    ||| (m == "resource budget exceeded: "@ + crate::limits::budget_error_name(
        crate::limits::ResourceBudgetError::Deadline,
    ) && limits.budget.deadline is Some)
}

/// The object numbers a cross-reference stream's `/Index` lists: each
/// subsection's start and the numbers after it, as many as its count.
pub open spec fn index_numbers(index: Seq<(u32, u32)>) -> Seq<int>
    decreases index.len(),
{
    if index.len() == 0 {
        Seq::empty()
    } else {
        index_numbers(index.drop_last()) + Seq::new(index.last().1 as nat, |i: int| index.last().0 + i)
    }
}

/// The entry a row of a cross-reference stream gives: an unknown type is a
/// free entry in tolerant mode and refused otherwise.
pub open spec fn spec_row_entry(row: Seq<u8>, widths: Seq<usize>, tolerant: bool) -> Option<XRefEntry> {
    let (w0, w1, w2) = (widths[0] as nat, widths[1] as nat, widths[2] as nat);
    if field_value(row, 0, w0, 1) > 2 {
        if tolerant {
            Some(XRefEntry::Free { next_free_object: 0, generation: 65535 })
        } else {
            None
        }
    } else {
        spec_stream_entry(row, w0, w1, w2)
    }
}

/// Whether the rows that `index` numbers fit in `data`, each number fits
/// 32 bits and each row gives an entry.
pub open spec fn rows_ok(data: Seq<u8>, index: Seq<(u32, u32)>, widths: Seq<usize>, size: nat, tolerant: bool) -> bool {
    &&& index_numbers(index).len() * size <= data.len()
    &&& forall|k: int| 0 <= k < index_numbers(index).len() ==> #[trigger] index_numbers(index)[k] <= u32::MAX
    &&& forall|k: int|
        0 <= k < index_numbers(index).len() ==> #[trigger] spec_row_entry(stream_row(data, k, size), widths, tolerant)
            is Some
}

/// The numbers of a prefix of the ranges start the numbers of a longer one.
proof fn lemma_index_prefix(s: Seq<(u32, u32)>, m: int, n: int)
    requires
        0 <= m <= n <= s.len(),
    ensures
        index_numbers(s.take(m)).len() <= index_numbers(s.take(n)).len(),
        forall|k: int|
            0 <= k < index_numbers(s.take(m)).len() ==> #[trigger] index_numbers(s.take(m))[k] == index_numbers(
                s.take(n),
            )[k],
    decreases n - m,
{
    if m < n {
        lemma_index_prefix(s, m, n - 1);
        assert(s.take(n).drop_last() =~= s.take(n - 1));
    }
}

/// Row `k` of rows `size` bytes long.
pub open spec fn stream_row(data: Seq<u8>, k: int, size: nat) -> Seq<u8> {
    data.subrange(k * size, k * size + size)
}

/// The widths of a cross-reference stream's three fields, each at most 8.
pub open spec fn widths_fit(widths: Seq<usize>) -> bool {
    widths.len() == 3 && widths[0] <= 8 && widths[1] <= 8 && widths[2] <= 8
}

/// Whether a stream's `/Type` is `XRef`.
pub fn is_xref_stream(stream: &PdfStream) -> (r: bool)
    ensures
        r == (spec_name_entry(stream.dict.sv_entries(), "Type"@) == Some("XRef"@)),
{
    let t = name_entry(&stream.dict, "Type");
    name_is(t, "XRef")
}

impl PdfFileParser {
    /// The entries of a decoded cross-reference stream: rows of
    /// `entry_size` bytes, one for each object number the index lists.
    pub fn parse_xref_entries_from_data(
        &self,
        data: &[u8],
        widths: &[usize; 3],
        entry_size: usize,
        index: &[(u32, u32)],
    ) -> (r: Result<Vec<(ObjectId, XRefEntry)>, AstError>)
        requires
            widths_fit(widths@),
            entry_size == widths@[0] + widths@[1] + widths@[2],
        ensures
            r matches Ok(v) ==> {
                &&& v@.len() == index_numbers(index@).len()
                &&& v@.len() * entry_size <= data@.len()
                &&& forall|k: int|
                    0 <= k < v@.len() ==> (#[trigger] v@[k]).0 == (ObjectId { number: index_numbers(index@)[k] as u32, generation: 0 }) && (spec_stream_entry(
                        stream_row(data@, k, entry_size as nat),
                        widths@[0] as nat,
                        widths@[1] as nat,
                        widths@[2] as nat,
                    ) matches Some(e) ==> v@[k].1 == e)
            },
            (exists|k: int| 0 <= k < index_numbers(index@).len() && #[trigger] index_numbers(index@)[k] > u32::MAX)
                && index_numbers(index@).len() * entry_size <= data@.len() ==> r is Err,
            r is Ok <==> rows_ok(data@, index@, widths@, entry_size as nat, self.tolerant),
            r matches Ok(v) ==> forall|k: int|
                0 <= k < v@.len() ==> spec_row_entry(stream_row(data@, k, entry_size as nat), widths@, self.tolerant)
                    == Some((#[trigger] v@[k]).1),
    {
        let mut entries: Vec<(ObjectId, XRefEntry)> = Vec::new();
        let mut offset: usize = 0;
        let mut j: usize = 0;
        while j < index.len()
            invariant
                widths_fit(widths@),
                entry_size == widths@[0] + widths@[1] + widths@[2],
                j <= index@.len(),
                entries@.len() == index_numbers(index@.take(j as int)).len(),
                offset == entries@.len() * entry_size,
                offset <= data@.len(),
                forall|k: int|
                    0 <= k < entries@.len() ==> (#[trigger] entries@[k]).0 == (ObjectId { number: index_numbers(index@.take(j as int))[k] as u32, generation: 0 }) && (spec_stream_entry(
                        stream_row(data@, k, entry_size as nat),
                        widths@[0] as nat,
                        widths@[1] as nat,
                        widths@[2] as nat,
                    ) matches Some(e) ==> entries@[k].1 == e),
                forall|k: int| 0 <= k < entries@.len() ==> #[trigger] index_numbers(index@.take(j as int))[k] <= u32::MAX,
                forall|k: int|
                    0 <= k < entries@.len() ==> spec_row_entry(stream_row(data@, k, entry_size as nat), widths@, self.tolerant)
                        == Some((#[trigger] entries@[k]).1),
            decreases index@.len() - j,
        {
            let (start, count) = index[j];
            let ghost base = entries@.len();
            let ghost prefix = index_numbers(index@.take(j as int));
            let ghost block = Seq::new(count as nat, |i: int| start + i);
            proof {
                assert(index@.take(j + 1).drop_last() =~= index@.take(j as int));
                assert(index@.take(j + 1).last() == (start, count));
                assert(index_numbers(index@.take(j + 1)) == prefix + block);
            }
            let mut i: u32 = 0;
            while i < count
                invariant
                    widths_fit(widths@),
                    entry_size == widths@[0] + widths@[1] + widths@[2],
                    i <= count,
                    base == prefix.len(),
                    entries@.len() == base + i,
                    offset == entries@.len() * entry_size,
                    offset <= data@.len(),
                    block == Seq::new(count as nat, |x: int| start + x),
                    forall|k: int|
                        0 <= k < entries@.len() ==> (#[trigger] entries@[k]).0 == (ObjectId { number: (prefix + block)[k] as u32, generation: 0 }) && (spec_stream_entry(
                            stream_row(data@, k, entry_size as nat),
                            widths@[0] as nat,
                            widths@[1] as nat,
                            widths@[2] as nat,
                        ) matches Some(e) ==> entries@[k].1 == e),
                    forall|k: int| 0 <= k < entries@.len() ==> #[trigger] (prefix + block)[k] <= u32::MAX,
                    forall|k: int|
                        0 <= k < entries@.len() ==> spec_row_entry(stream_row(data@, k, entry_size as nat), widths@, self.tolerant)
                            == Some((#[trigger] entries@[k]).1),
                    j < index@.len(),
                    index_numbers(index@.take(j + 1)) == prefix + block,
                decreases count - i,
            {
                let ghost k = entries@.len() as int;
                proof {
                    lemma_index_prefix(index@, j + 1, index@.len() as int);
                    assert(index@.take(index@.len() as int) =~= index@);
                    assert(k < (prefix + block).len());
                    assert(index_numbers(index@)[k] == (prefix + block)[k]);
                    assert((prefix + block)[k] == start + i);
                }
                if entry_size > data.len() - offset {
                    proof {
                        let nn = index_numbers(index@).len() as int;
                        assert(nn * entry_size >= (k + 1) * entry_size) by (nonlinear_arith)
                            requires
                                nn >= k + 1,
                                entry_size >= 0,
                        ;
                        assert((k + 1) * entry_size == k * entry_size + entry_size) by (nonlinear_arith);
                    }
                    return Err(error("Xref stream data is truncated"));
                }
                let end = offset + entry_size;
                if (start as u64) + (i as u64) > 0xffff_ffff {
                    return Err(error("Xref object number overflow"));
                }
                let number = start + i;
                let row = vstd::slice::slice_subrange(data, offset, end);
                let res = self.parse_xref_stream_entry(row, widths);
                proof {
                    assert(row@ == stream_row(data@, k, entry_size as nat));
                }
                let entry = match res {
                    Ok(e) => e,
                    Err(e) => {
                        proof {
                            assert(spec_row_entry(stream_row(data@, k, entry_size as nat), widths@, self.tolerant) is None);
                        }
                        return Err(e);
                    },
                };
                proof {
                    assert(row@ == stream_row(data@, k, entry_size as nat));
                    assert((prefix + block)[k] == start + i);
                    assert((k + 1) * entry_size == k * entry_size + entry_size) by (nonlinear_arith);
                }
                entries.push((ObjectId::new(number, 0), entry));
                offset = end;
                i = i + 1;
            }
            j = j + 1;
        }
        proof {
            assert(index@.take(index@.len() as int) =~= index@);
            assert forall|k: int| 0 <= k < index_numbers(index@).len() implies #[trigger] spec_row_entry(
                stream_row(data@, k, entry_size as nat),
                widths@,
                self.tolerant,
            ) is Some by {
                assert(spec_row_entry(stream_row(data@, k, entry_size as nat), widths@, self.tolerant) == Some(
                    entries@[k].1,
                ));
            }
            assert forall|k: int| 0 <= k < index_numbers(index@).len() implies #[trigger] index_numbers(index@)[k]
                <= u32::MAX by {
                assert(index_numbers(index@.take(j as int))[k] <= u32::MAX);
            }
        }
        Ok(entries)
    }
}

/// Cross-reference data is looked for this far around a declared offset.
pub const XREF_RECOVERY_SEARCH_RADIUS: u64 = 2048;

/// What reading cross-reference sections keeps: the settings, every node
/// of the graph, the offset found, and the load depth.
pub open spec fn xref_frame(a: &PdfFileParser, b: &PdfFileParser) -> bool {
    &&& a.same_config(b)
    &&& nodes_kept(a.document.ast, b.document.ast)
    &&& b.xref_offset == a.xref_offset
    &&& b.object_load_depth == a.object_load_depth
}

/// The entries of a list, later ones replacing earlier ones of the same id.
pub open spec fn entries_map(s: Seq<(ObjectId, XRefEntry)>) -> Seq<(ObjectId, XRefEntry)>
    decreases s.len(),
{
    if s.len() == 0 {
        Seq::empty()
    } else {
        crate::types::spec_dict_insert(entries_map(s.drop_last()), s.last().0, s.last().1)
    }
}

/// Ids of the entries that free their object.
pub open spec fn deleted_ids(s: Seq<(ObjectId, XRefEntry)>) -> Seq<ObjectId>
    decreases s.len(),
{
    if s.len() == 0 {
        Seq::empty()
    } else if s.last().1 is Free {
        deleted_ids(s.drop_last()).push(s.last().0)
    } else {
        deleted_ids(s.drop_last())
    }
}

/// The deleted objects of a section are exactly the ids of its free
/// entries, in the section's order: every free entry's id is listed, and
/// nothing else.
pub proof fn lemma_deleted_ids(s: Seq<(ObjectId, XRefEntry)>)
    ensures
        deleted_ids(s) == s.filter(|e: (ObjectId, XRefEntry)| e.1 is Free).map_values(|e: (ObjectId, XRefEntry)| e.0),
        forall|i: int| 0 <= i < s.len() && (#[trigger] s[i]).1 is Free ==> deleted_ids(s).contains(s[i].0),
        forall|k: int|
            #![trigger deleted_ids(s)[k]]
            0 <= k < deleted_ids(s).len() ==> exists|i: int|
                0 <= i < s.len() && (#[trigger] s[i]).1 is Free && s[i].0 == deleted_ids(s)[k],
    decreases s.len(),
{
    let f = |e: (ObjectId, XRefEntry)| e.1 is Free;
    let g = |e: (ObjectId, XRefEntry)| e.0;
    reveal(Seq::filter);
    if s.len() > 0 {
        let p = s.drop_last();
        lemma_deleted_ids(p);
        if s.last().1 is Free {
            assert(s.filter(f) == p.filter(f).push(s.last()));
            assert(s.filter(f).map_values(g) =~= p.filter(f).map_values(g).push(s.last().0));
        } else {
            assert(s.filter(f) == p.filter(f));
        }
        assert forall|i: int| 0 <= i < s.len() && (#[trigger] s[i]).1 is Free implies deleted_ids(s).contains(s[i].0) by {
            if i < s.len() - 1 {
                assert(s[i] == p[i]);
                let k = choose|k: int| 0 <= k < deleted_ids(p).len() && deleted_ids(p)[k] == p[i].0;
                assert(deleted_ids(s)[k] == p[i].0);
            } else {
                assert(deleted_ids(s)[deleted_ids(s).len() - 1] == s[i].0);
            }
        }
        assert forall|k: int| #![trigger deleted_ids(s)[k]] 0 <= k < deleted_ids(s).len() implies exists|i: int|
            0 <= i < s.len() && (#[trigger] s[i]).1 is Free && s[i].0 == deleted_ids(s)[k] by {
            if k < deleted_ids(p).len() {
                assert(deleted_ids(s)[k] == deleted_ids(p)[k]);
                let i = choose|i: int| 0 <= i < p.len() && (#[trigger] p[i]).1 is Free && p[i].0 == deleted_ids(p)[k];
                assert(s[i] == p[i]);
            } else {
                assert(s.last().1 is Free);
                assert(deleted_ids(s)[k] == s.last().0);
                assert(s[s.len() - 1] == s.last());
            }
        }
    }
}

/// The added objects of a section are the ids of its entries in use that
/// the previous sections lacked, and the modified ones those of its entries
/// in use that the previous sections held with another entry, each in the
/// section's order.
pub proof fn lemma_added_modified_ids(s: Seq<(ObjectId, XRefEntry)>, previous: Seq<(ObjectId, XRefEntry)>)
    ensures
        added_ids(s, previous) == s.filter(
            |e: (ObjectId, XRefEntry)| !(e.1 is Free) && crate::types::spec_dict_get(previous, e.0) is None,
        ).map_values(|e: (ObjectId, XRefEntry)| e.0),
        modified_ids(s, previous) == s.filter(
            |e: (ObjectId, XRefEntry)|
                !(e.1 is Free) && (crate::types::spec_dict_get(previous, e.0) matches Some(x) && x != e.1),
        ).map_values(|e: (ObjectId, XRefEntry)| e.0),
    decreases s.len(),
{
    let fa = |e: (ObjectId, XRefEntry)| !(e.1 is Free) && crate::types::spec_dict_get(previous, e.0) is None;
    let fm = |e: (ObjectId, XRefEntry)|
        !(e.1 is Free) && (crate::types::spec_dict_get(previous, e.0) matches Some(x) && x != e.1);
    let g = |e: (ObjectId, XRefEntry)| e.0;
    reveal(Seq::filter);
    if s.len() > 0 {
        let p = s.drop_last();
        lemma_added_modified_ids(p, previous);
        if fa(s.last()) {
            assert(s.filter(fa) == p.filter(fa).push(s.last()));
            assert(s.filter(fa).map_values(g) =~= p.filter(fa).map_values(g).push(s.last().0));
        } else {
            assert(s.filter(fa) == p.filter(fa));
        }
        if fm(s.last()) {
            assert(s.filter(fm) == p.filter(fm).push(s.last()));
            assert(s.filter(fm).map_values(g) =~= p.filter(fm).map_values(g).push(s.last().0));
        } else {
            assert(s.filter(fm) == p.filter(fm));
        }
    }
}

/// Ids of the entries in use that `previous` did not have.
pub open spec fn added_ids(s: Seq<(ObjectId, XRefEntry)>, previous: Seq<(ObjectId, XRefEntry)>) -> Seq<ObjectId>
    decreases s.len(),
{
    if s.len() == 0 {
        Seq::empty()
    } else if !(s.last().1 is Free) && crate::types::spec_dict_get(previous, s.last().0) is None {
        added_ids(s.drop_last(), previous).push(s.last().0)
    } else {
        added_ids(s.drop_last(), previous)
    }
}

/// Ids of the entries in use that `previous` had with another entry.
pub open spec fn modified_ids(s: Seq<(ObjectId, XRefEntry)>, previous: Seq<(ObjectId, XRefEntry)>) -> Seq<ObjectId>
    decreases s.len(),
{
    if s.len() == 0 {
        Seq::empty()
    } else if !(s.last().1 is Free) && (crate::types::spec_dict_get(previous, s.last().0) matches Some(e) && e
        != s.last().1) {
        modified_ids(s.drop_last(), previous).push(s.last().0)
    } else {
        modified_ids(s.drop_last(), previous)
    }
}

impl PdfFileParser {
    /// The entries of a decoded cross-reference stream described by `dict`;
    /// none when the rows are empty.
    pub fn parse_xref_stream_entries(&self, data: &[u8], dict: &PdfDictionary) -> (r: Result<
        Vec<(ObjectId, XRefEntry)>,
        AstError,
    >)
        ensures
            spec_field_widths(dict) matches Err(m) ==> (r matches Err(e) && e.message() == m),
            spec_field_widths(dict) matches Ok((a, b, c)) ==> {
                &&& (spec_index_ranges(dict) matches Err(m) ==> (r matches Err(e) && e.message() == m))
                &&& (a + b + c == 0 && spec_index_ranges(dict) is Ok) ==> (r matches Ok(v) && v@.len() == 0)
                &&& a + b + c > 0 ==> (spec_index_ranges(dict) matches Ok(idx) ==> (r matches Ok(v) ==> {
                    &&& v@.len() == index_numbers(idx).len()
                    &&& forall|k: int|
                        0 <= k < v@.len() ==> (#[trigger] v@[k]).0 == (ObjectId {
                            number: index_numbers(idx)[k] as u32,
                            generation: 0,
                        }) && (spec_stream_entry(stream_row(data@, k, a + b + c), a, b, c) matches Some(e)
                            ==> v@[k].1 == e)
                }))
            },
    {
        let widths = Self::extract_xref_field_widths(dict)?;
        let index = Self::extract_xref_index_ranges(dict)?;
        let entry_size = widths[0] + widths[1] + widths[2];
        if entry_size == 0 {
            return Ok(Vec::new());
        }
        self.parse_xref_entries_from_data(data, &widths, entry_size, index.as_slice())
    }

    /// The entries of a cross-reference stream: its raw bytes decoded and
    /// read as rows.  A stream without raw bytes has none; one that cannot
    /// be decoded fails in strict mode and has none, with a diagnostic, in
    /// tolerant modes.
    pub fn decode_xref_stream_entries(&mut self, stream: &PdfStream) -> (r: Result<XRefMap, AstError>)
        ensures
            xref_frame(old(self), final(self)),
            same_but_diagnostics(&old(self).document, &final(self).document),
            final(self).object_cache == old(self).object_cache,
            stream.data is Decoded ==> (r matches Ok(m) && m.entries_spec().len() == 0),
            stream.data is Raw && !crate::xref::unfiltered(&stream.dict) ==> if old(self).tolerant {
                &&& (r is Ok <==> old(self).document.diagnostics@.len() < old(self).max_errors)
                &&& (r matches Ok(m) ==> m.entries_spec().len() == 0)
            } else {
                r is Err
            },
    {
        let raw_len = match stream.raw_data() {
            Some(raw) => raw.len(),
            None => return Ok(XRefMap::new()),
        };
        let decoded = match crate::xref::decode_unfiltered_stream(stream, &self.limits.budget) {
            Ok(d) => d,
            Err(m) => {
                if !self.tolerant {
                    return Err(AstError::ParseError(concat2("Failed to decode xref stream: ", m.as_str())));
                }
                self.record_diagnostic(
                    None,
                    None,
                    "xref_stream_decode",
                    "continued with empty xref entries",
                    90,
                    raw_len as u64,
                    m.as_str(),
                )?;
                return Ok(XRefMap::new());
            },
        };
        let parsed = self.parse_xref_stream_entries(decoded.as_slice(), &stream.dict)?;
        let mut entries = XRefMap::new();
        let mut i: usize = 0;
        while i < parsed.len()
            invariant
                i <= parsed@.len(),
            decreases parsed@.len() - i,
        {
            let (id, e) = parsed[i];
            entries.insert(id, e);
            i = i + 1;
        }
        Ok(entries)
    }

    /// The cross-reference stream at `offset`: its entries and its
    /// dictionary, which serves as the trailer.
    pub fn parse_xref_stream_at(&mut self, offset: u64) -> (r: Result<(XRefMap, PdfDictionary), AstError>)
        ensures
            xref_frame(old(self), final(self)),
            same_but_diagnostics(&old(self).document, &final(self).document),
            final(self).object_cache == old(self).object_cache,
            offset >= old(self).data@.len() ==> r is Err,
    {
        let buffer = self.read_xref_buffer(offset)?;
        let stream = match parse_indirect_object(buffer.as_slice(), 0, self.limits.max_depth, &self.limits.budget, None) {
            Ok(((_, PdfValue::Stream(s)), _)) => s,
            _ => return Err(error("Invalid xref stream")),
        };
        if !is_xref_stream(&stream) {
            return Err(error("Not an xref stream"));
        }
        let entries = self.decode_xref_stream_entries(&stream)?;
        Ok((entries, stream.dict))
    }

    /// The new, added and modified ids of a section against the entries
    /// gathered from newer sections: freed ids, ids in use that were not
    /// known, and ids in use whose entry differs.
    pub fn compute_revision_deltas(&self, previous: &XRefMap, current: &XRefMap) -> (r: (
        Vec<ObjectId>,
        Vec<ObjectId>,
        Vec<ObjectId>,
    ))
        ensures
            r.0@ == added_ids(current.entries_spec(), previous.entries_spec()),
            r.1@ == modified_ids(current.entries_spec(), previous.entries_spec()),
            r.2@ == deleted_ids(current.entries_spec()),
            forall|i: int|
                0 <= i < current.entries_spec().len() && (#[trigger] current.entries_spec()[i]).1 is Free
                    ==> r.2@.contains(current.entries_spec()[i].0),
    {
        let mut added: Vec<ObjectId> = Vec::new();
        let mut modified: Vec<ObjectId> = Vec::new();
        let mut deleted: Vec<ObjectId> = Vec::new();
        let cur = current.entries();
        let ghost ps = previous.entries_spec();
        let mut i: usize = 0;
        while i < cur.len()
            invariant
                i <= cur@.len(),
                cur@ == current.entries_spec(),
                ps == previous.entries_spec(),
                added@ == added_ids(cur@.take(i as int), ps),
                modified@ == modified_ids(cur@.take(i as int), ps),
                deleted@ == deleted_ids(cur@.take(i as int)),
            decreases cur@.len() - i,
        {
            let (id, entry) = cur[i];
            proof {
                assert(cur@.take(i + 1).drop_last() =~= cur@.take(i as int));
                assert(cur@.take(i + 1).last() == (id, entry));
            }
            match entry {
                XRefEntry::Free { .. } => {
                    deleted.push(id);
                },
                _ => {
                    match previous.get(&id) {
                        Some(prev) => {
                            if prev != entry {
                                modified.push(id);
                            }
                        },
                        None => {
                            added.push(id);
                        },
                    }
                },
            }
            i = i + 1;
        }
        proof {
            assert(cur@.take(cur@.len() as int) =~= cur@);
            lemma_deleted_ids(cur@);
        }
        (added, modified, deleted)
    }
}

/// Whether `data` starts with the keyword `xref`.
fn starts_with_xref_keyword(data: &[u8]) -> (r: bool)
    ensures
        r == (data@.len() >= 4 && data@.subrange(0, 4) == seq![120u8, 114u8, 101u8, 102u8]),
{
    let kw: [u8; 4] = [120, 114, 101, 102];
    proof {
        assert(kw@ =~= seq![120u8, 114u8, 101u8, 102u8]);
    }
    bytes_at(data, 0, kw.as_slice())
}

/// Distinct offsets below `n` are at most `n`.
proof fn lemma_distinct_below(s: Seq<u64>, n: u64)
    requires
        s.no_duplicates(),
        forall|i: int| 0 <= i < s.len() ==> #[trigger] s[i] < n,
    ensures
        s.len() <= n,
{
    s.unique_seq_to_set();
    let below = Set::<u64>::new(|x: u64| 0 <= x < n);
    <u64 as vstd::set_lib::FiniteRange>::range_properties(0, n);
    assert(below == <u64 as vstd::set_lib::FiniteRange>::range_set(0, n));
    assert(s.to_set().subset_of(below));
    vstd::set_lib::lemma_len_subset(s.to_set(), below);
}

impl PdfFileParser {
    /// A classic table section: the table, then `trailer` and its
    /// dictionary; a `/XRefStm` in the trailer adds the entries of that
    /// stream (a hybrid file).  `None` when the bytes are no such section.
    pub fn parse_xref_table_section(&mut self, buffer: &[u8]) -> (r: Result<Option<(XRefMap, PdfDictionary)>, AstError>)
        ensures
            xref_frame(old(self), final(self)),
            final(self).document.xref.entries == old(self).document.xref.entries,
            final(self).document.trailer == old(self).document.trailer,
            final(self).document.revisions == old(self).document.revisions,
            final(self).object_cache == old(self).object_cache,
            !crate::xref::starts_with_xref(buffer@) ==> (r matches Ok(None) && *final(self) == *old(self)),
    {
        let (table_entries, end) = match crate::xref::parse_xref_table_with_budget(buffer, &self.limits.budget) {
            Ok(x) => x,
            Err(crate::xref::XRefTableError::TooLarge) => {
                return Err(error("XRef table exceeds the shared object budget"));
            },
            Err(_) => return Ok(None),
        };
        let mut entries = XRefMap::new();
        let mut i: usize = 0;
        while i < table_entries.len()
            invariant
                i <= table_entries@.len(),
            decreases table_entries@.len() - i,
        {
            let (id, e) = table_entries[i];
            entries.insert(id, e);
            i = i + 1;
        }
        let remaining = vstd::slice::slice_subrange(buffer, end, buffer.len());
        let t = skip_ascii_ws(remaining, 0);
        let trailer_kw: [u8; 7] = [116, 114, 97, 105, 108, 101, 114];
        if !bytes_at(remaining, t, trailer_kw.as_slice()) {
            return Ok(None);
        }
        let trailer = match Self::extract_trailer_dict_with_budget(remaining, self.limits.max_depth, &self.limits.budget) {
            Some(d) => d,
            None => return Ok(None),
        };
        let stm = match trailer.get("XRefStm") {
            None => return Ok(Some((entries, trailer))),
            Some(v) => v.as_integer(),
        };
        match stm {
            None => {
                if !self.tolerant {
                    return Err(error("Invalid /XRefStm offset type"));
                }
                self.record_anomaly("invalid_xref_stm_type", "Invalid /XRefStm offset type", None)?;
                Ok(Some((entries, trailer)))
            },
            Some(x) => {
                if x <= 0 {
                    let m = concat2("Invalid /XRefStm offset: ", i64_text(x).as_str());
                    if !self.tolerant {
                        return Err(AstError::ParseError(m));
                    }
                    self.record_anomaly("invalid_xref_stm", m.as_str(), None)?;
                    return Ok(Some((entries, trailer)));
                }
                self.document.xref.hybrid_mode = true;
                let (stream_entries, _) = self.parse_xref_stream_at(x as u64)?;
                let extra = stream_entries.entries();
                let mut k: usize = 0;
                while k < extra.len()
                    invariant
                        k <= extra@.len(),
                    decreases extra@.len() - k,
                {
                    let (id, e) = extra[k];
                    entries.insert(id, e);
                    k = k + 1;
                }
                Ok(Some((entries, trailer)))
            },
        }
    }

    /// A cross-reference stream section at `offset`, when the object there
    /// is a stream of type `XRef`.
    pub fn try_parse_xref_stream_section(&mut self, buffer: &[u8], offset: u64) -> (r: Result<
        Option<(XRefMap, PdfDictionary)>,
        AstError,
    >)
        ensures
            xref_frame(old(self), final(self)),
            final(self).document.xref == old(self).document.xref,
            final(self).document.trailer == old(self).document.trailer,
            final(self).document.revisions == old(self).document.revisions,
            final(self).object_cache == old(self).object_cache,
    {
        let stream = match parse_indirect_object(buffer, 0, self.limits.max_depth, &self.limits.budget, None) {
            Ok(((_, PdfValue::Stream(s)), _)) => s,
            _ => return Ok(None),
        };
        if !is_xref_stream(&stream) {
            return Ok(None);
        }
        let section = self.parse_xref_stream_at(offset)?;
        Ok(Some(section))
    }

    /// The bytes from `start` to `end` (at most to the end of the file),
    /// charged to the decoded-bytes budget.
    pub fn read_recovery_buffer(&mut self, start: u64, end: u64) -> (r: Result<Vec<u8>, AstError>)
        ensures
            *old(self) == *final(self),
            r matches Ok(b) ==> (start > old(self).data@.len() ==> b@.len() == 0) && (start <= old(self).data@.len()
                ==> b@ == old(self).data@.subrange(start as int, start + b@.len())),
            r matches Ok(b) ==> start <= old(self).data@.len() ==> b@.len() == vstd::math::min(
                if end > start { end - start } else { 0 },
                old(self).data@.len() - start,
            ),
    {
        let size = if end > start {
            end - start
        } else {
            0
        };
        match self.limits.budget.consume_decoded(size) {
            Ok(()) => {},
            Err(e) => return Err(AstError::ParseError(e.to_string())),
        }
        let len = self.data.len();
        if start > len as u64 {
            return Ok(Vec::new());
        }
        let from = start as usize;
        let to = if size > (len - from) as u64 {
            len
        } else {
            from + size as usize
        };
        Ok(vstd::slice::slice_to_vec(vstd::slice::slice_subrange(self.data.as_slice(), from, to)))
    }

    /// The first `xref` keyword in `buffer` (which starts at `start` in the
    /// file), other than the one at `original_offset`, read as a section
    /// while `nesting` allows another recovery.
    fn try_recover_xref_table(
        &mut self,
        buffer: &[u8],
        start: u64,
        original_offset: u64,
        nesting: usize,
    ) -> (r: Result<Option<(XRefMap, PdfDictionary)>, AstError>)
        ensures
            xref_frame(old(self), final(self)),
            !old(self).tolerant ==> final(self).document.xref.entries == old(self).document.xref.entries,
            r is Ok,
            (nesting == 0 || forall|j: int|
                0 <= j ==> !#[trigger] crate::object_parser::occurs_at(buffer@, xref_word(), j))
                ==> (r matches Ok(None) && *final(self) == *old(self)),
        decreases nesting, 1int,
    {
        let kw: [u8; 4] = [120, 114, 101, 102];
        proof {
            assert(kw@ =~= xref_word());
        }
        let pos = match find_pattern(buffer, kw.as_slice()) {
            Some(p) => p,
            None => return Ok(None),
        };
        if start > u64::MAX - pos as u64 {
            return Ok(None);
        }
        let absolute = start + pos as u64;
        if absolute == original_offset || nesting == 0 {
            return Ok(None);
        }
        match self.parse_xref_section_at(absolute, nesting - 1) {
            Ok(section) => Ok(Some(section)),
            Err(_) => Ok(None),
        }
    }

    /// The first ` obj` in `buffer`, other than at `original_offset`, where
    /// a cross-reference stream can be read.
    fn try_recover_xref_stream(&mut self, buffer: &[u8], start: u64, original_offset: u64) -> (r: Result<
        Option<(XRefMap, PdfDictionary)>,
        AstError,
    >)
        ensures
            xref_frame(old(self), final(self)),
            final(self).document.xref.entries == old(self).document.xref.entries,
    {
        let obj_kw: [u8; 4] = [32, 111, 98, 106];
        let limit = if buffer.len() > 5 {
            buffer.len() - 5
        } else {
            0
        };
        let mut i: usize = 0;
        while i < limit
            invariant
                limit <= buffer@.len(),
                i <= limit,
                xref_frame(old(self), self),
                self.document.xref.entries == old(self).document.xref.entries,
            decreases limit - i,
        {
            if bytes_at(buffer, i, obj_kw.as_slice()) && start <= u64::MAX - i as u64 {
                let absolute = start + i as u64;
                if absolute != original_offset {
                    match self.parse_xref_stream_at(absolute) {
                        Ok(section) => return Ok(Some(section)),
                        Err(_) => {},
                    }
                }
            }
            i = i + 1;
        }
        Ok(None)
    }

    /// A section found within `XREF_RECOVERY_SEARCH_RADIUS` bytes of
    /// `offset`: a table first, then a stream.
    fn recover_xref_near_offset(&mut self, offset: u64, nesting: usize) -> (r: Result<
        Option<(XRefMap, PdfDictionary)>,
        AstError,
    >)
        ensures
            xref_frame(old(self), final(self)),
            !old(self).tolerant ==> final(self).document.xref.entries == old(self).document.xref.entries,
            ({
                let start: int = if offset > XREF_RECOVERY_SEARCH_RADIUS { offset - XREF_RECOVERY_SEARCH_RADIUS } else { 0 };
                let reach: int = offset + XREF_RECOVERY_SEARCH_RADIUS;
                let end: int = if reach < old(self).data@.len() { reach } else { old(self).data@.len() as int };
                end <= start ==> (r matches Ok(None) && *final(self) == *old(self))
            }),
        decreases nesting, 2int,
    {
        let file_size = self.data.len() as u64;
        let start = if offset > XREF_RECOVERY_SEARCH_RADIUS {
            offset - XREF_RECOVERY_SEARCH_RADIUS
        } else {
            0
        };
        let reach = if offset > u64::MAX - XREF_RECOVERY_SEARCH_RADIUS {
            u64::MAX
        } else {
            offset + XREF_RECOVERY_SEARCH_RADIUS
        };
        let end = if reach < file_size {
            reach
        } else {
            file_size
        };
        if end <= start {
            return Ok(None);
        }
        let buffer = self.read_recovery_buffer(start, end)?;
        match self.try_recover_xref_table(buffer.as_slice(), start, offset, nesting)? {
            Some(section) => return Ok(Some(section)),
            None => {},
        }
        self.try_recover_xref_stream(buffer.as_slice(), start, offset)
    }

    /// The section at `offset`, a table or a stream.  In tolerant modes a
    /// section that cannot be read is looked for near the offset (while
    /// `nesting` allows), and a section without entries makes the whole
    /// file be scanned for objects.
    pub fn parse_xref_section_at(&mut self, offset: u64, nesting: usize) -> (r: Result<
        (XRefMap, PdfDictionary),
        AstError,
    >)
        ensures
            xref_frame(old(self), final(self)),
            !old(self).tolerant ==> final(self).document.xref.entries == old(self).document.xref.entries,
            !old(self).tolerant ==> final(self).document.revisions == old(self).document.revisions
                && final(self).document.trailer == old(self).document.trailer,
            r is Ok ==> offset < old(self).data@.len(),
        decreases nesting, 3int,
    {
        let buffer = self.read_xref_buffer(offset)?;
        let result = if starts_with_xref_keyword(buffer.as_slice()) {
            self.parse_xref_table_section(buffer.as_slice())?
        } else {
            self.try_parse_xref_stream_section(buffer.as_slice(), offset)?
        };
        let (entries, trailer) = match result {
            Some(section) => section,
            None => {
                if !self.tolerant {
                    return Err(error("Failed to parse xref section"));
                }
                match self.recover_xref_near_offset(offset, nesting)? {
                    Some(section) => {
                        self.record_anomaly(
                            "xref_recovered_near_offset",
                            "Recovered xref by scanning near declared offset",
                            Some(offset),
                        )?;
                        section
                    },
                    None => return Err(error("Failed to parse xref section")),
                }
            },
        };
        if entries.len() == 0 && self.tolerant {
            self.recover_xref_by_scan()?;
        }
        Ok((entries, trailer))
    }

    /// The section at `offset`, a table or a stream, recovering (in
    /// tolerant modes) as deep as the depth limit allows.
    pub fn parse_single_xref_at(&mut self, offset: u64) -> (r: Result<(XRefMap, PdfDictionary), AstError>)
        ensures
            xref_frame(old(self), final(self)),
            !old(self).tolerant ==> final(self).document.xref.entries == old(self).document.xref.entries,
            !old(self).tolerant ==> final(self).document.revisions == old(self).document.revisions
                && final(self).document.trailer == old(self).document.trailer,
            r is Ok ==> offset < old(self).data@.len(),
    {
        let nesting = self.limits.max_depth;
        self.parse_xref_section_at(offset, nesting)
    }

    /// The input up to the input limit (one byte more, to tell that the
    /// limit is passed), charged in chunks to the decoded-bytes budget.
    pub fn read_limited_input(&mut self) -> (r: Result<Vec<u8>, AstError>)
        ensures
            *old(self) == *final(self),
            r matches Ok(b) ==> b@.len() <= old(self).data@.len() && b@ == old(self).data@.subrange(0, b@.len() as int)
                && b@.len() <= old(self).limits.budget.max_input_bytes,
            old(self).data@.len() > old(self).limits.budget.max_input_bytes ==> r is Err,
            r matches Ok(b) ==> b@ == old(self).data@,
    {
        let max_bytes = self.limits.budget.max_input_bytes;
        let len = self.data.len();
        let wanted = if max_bytes == u64::MAX {
            max_bytes
        } else {
            max_bytes + 1
        };
        let take = if (len as u64) < wanted {
            len
        } else {
            wanted as usize
        };
        let mut done: usize = 0;
        while done < take
            invariant
                done <= take <= len,
                len == self.data@.len(),
            decreases take - done,
        {
            let chunk = if take - done < 8192 {
                take - done
            } else {
                8192
            };
            match self.limits.budget.consume_decoded(chunk as u64) {
                Ok(()) => {},
                Err(e) => return Err(AstError::ParseError(e.to_string())),
            }
            done = done + chunk;
        }
        if take as u64 > max_bytes {
            let mut m = msg("Input exceeds resource limit of ");
            m.append(u64_text(max_bytes).as_str());
            m.append(" bytes");
            return Err(AstError::ParseError(m));
        }
        Ok(vstd::slice::slice_to_vec(vstd::slice::slice_subrange(self.data.as_slice(), 0, take)))
    }

    /// Rebuilds the cross-reference entries by scanning the input for
    /// object headers: each header found gives its object an entry in use
    /// at the header's offset.  Fails when none is found.
    pub fn recover_xref_by_scan(&mut self) -> (r: Result<(), AstError>)
        ensures
            xref_frame(old(self), final(self)),
            forall|id: ObjectId|
                #[trigger] final(self).document.xref.entries.spec_get(id) != old(self).document.xref.entries.spec_get(id)
                    ==> (final(self).document.xref.entries.spec_get(id) matches Some(XRefEntry::InUse { offset, .. })
                    && offset < old(self).data@.len()),
    {
        let content = self.read_limited_input()?;
        let ghost start = *self;
        let mut pos: usize = 0;
        let mut count: usize = 0;
        while pos < content.len()
            invariant
                pos <= content@.len(),
                count <= pos,
                content@.len() <= self.data@.len(),
                xref_frame(&start, self),
                forall|id: ObjectId|
                    #[trigger] self.document.xref.entries.spec_get(id) != old(self).document.xref.entries.spec_get(id)
                        ==> (self.document.xref.entries.spec_get(id) matches Some(XRefEntry::InUse { offset, .. })
                        && offset < content@.len()),
            decreases content@.len() - pos,
        {
            let rest = vstd::slice::slice_subrange(content.as_slice(), pos, content.len());
            let found = match crate::object_parser::find_next_object(rest) {
                Some(p) => p,
                None => break,
            };
            let absolute = pos + found;
            match parse_object_header(content.as_slice(), absolute) {
                Ok((obj_id, _)) => {
                    let object_end = match parse_indirect_object(
                        content.as_slice(),
                        absolute,
                        self.limits.max_depth,
                        &self.limits.budget,
                        None,
                    ) {
                        Ok((_, e)) => e,
                        Err(_) => absolute + 1,
                    };
                    let entry = XRefEntry::InUse { offset: absolute as u64, generation: obj_id.generation };
                    self.document.xref.entries.insert(obj_id, entry);
                    count = count + 1;
                    pos = if object_end > absolute + 1 {
                        object_end
                    } else {
                        absolute + 1
                    };
                },
                Err(_) => {
                    pos = absolute + 1;
                },
            }
        }
        if count == 0 {
            return Err(error("Failed to recover xref entries"));
        }
        self.record_anomaly("xref_recovered_by_scan", "Recovered xref entries by scanning for objects", None)?;
        Ok(())
    }
}

impl PdfFileParser {
    /// Follows the cross-reference sections from the offset `startxref`
    /// gives along their `/Prev` links.  Each object keeps the entry of the
    /// newest section that has one; the newest trailer becomes the
    /// document's; each section is recorded as a revision with the objects
    /// it adds, modifies and frees.  A cycle, a section that cannot be read
    /// or a bad `/Prev` fails in strict mode; tolerant modes record an
    /// anomaly and stop (after a section that cannot be read, the file is
    /// scanned for objects).
    #[verifier::spinoff_prover]
    #[verifier::rlimit(40)]
    pub fn parse_xref_chain(&mut self) -> (r: Result<(), AstError>)
        ensures
            xref_frame(old(self), final(self)),
            old(self).xref_offset is None ==> (r matches Err(e) && e.message() == "No xref offset"@),
            !old(self).tolerant ==> forall|id: ObjectId|
                #[trigger] old(self).document.xref.entries.spec_get(id) is Some
                    ==> final(self).document.xref.entries.spec_get(id) == old(self).document.xref.entries.spec_get(id),
            (!old(self).tolerant && r is Ok) ==> prev_chain(
                old(self).document.revisions@,
                final(self).document.revisions@,
                old(self).xref_offset->Some_0,
            ) && final(self).document.revisions@.last().trailer.spec_get("Prev"@) is None
                && final(self).document.trailer.sv_entries()
                == final(self).document.revisions@[old(self).document.revisions@.len() as int].trailer.sv_entries(),
    {
        let mut offset = match self.xref_offset {
            Some(o) => o,
            None => return Err(error("No xref offset")),
        };
        let mut seen: Vec<u64> = Vec::new();
        let mut revision_number: u32 = 0;
        let mut aggregated = XRefMap::new();
        let len = self.data.len() as u64;
        proof {
            assert(self.document.revisions@.subrange(0, self.document.revisions@.len() as int)
                =~= self.document.revisions@);
        }
        loop
            invariant_except_break
                !old(self).tolerant ==> chain_so_far(
                    old(self).document.revisions@,
                    self.document.revisions@,
                    old(self).xref_offset->Some_0,
                    seen@,
                    offset,
                ),
                !old(self).tolerant && seen@.len() > 0 ==> self.document.trailer.sv_entries()
                    == self.document.revisions@[old(self).document.revisions@.len() as int].trailer.sv_entries(),
            invariant
                xref_frame(old(self), self),
                old(self).xref_offset is Some,
                len == self.data@.len(),
                seen@.no_duplicates(),
                forall|i: int| 0 <= i < seen@.len() ==> #[trigger] seen@[i] < len,
                !old(self).tolerant ==> forall|id: ObjectId|
                    #[trigger] old(self).document.xref.entries.spec_get(id) is Some
                        ==> self.document.xref.entries.spec_get(id) == old(self).document.xref.entries.spec_get(id),
                revision_number == if seen@.len() < u32::MAX { seen@.len() as int } else { u32::MAX as int },
            ensures
                !old(self).tolerant ==> prev_chain(
                    old(self).document.revisions@,
                    self.document.revisions@,
                    old(self).xref_offset->Some_0,
                ) && self.document.revisions@.last().trailer.spec_get("Prev"@) is None
                    && self.document.trailer.sv_entries()
                    == self.document.revisions@[old(self).document.revisions@.len() as int].trailer.sv_entries(),
                xref_frame(old(self), self),
                !old(self).tolerant ==> forall|id: ObjectId|
                    #[trigger] old(self).document.xref.entries.spec_get(id) is Some
                        ==> self.document.xref.entries.spec_get(id) == old(self).document.xref.entries.spec_get(id),
            decreases len + 1 - seen@.len(),
        {
            proof {
                lemma_distinct_below(seen@, len);
            }
            let mut cycle = false;
            let mut k: usize = 0;
            while k < seen.len()
                invariant
                    k <= seen@.len(),
                    cycle == exists|i: int| 0 <= i < k && seen@[i] == offset,
                decreases seen@.len() - k,
            {
                if seen[k] == offset {
                    cycle = true;
                }
                k = k + 1;
            }
            if cycle {
                if !self.tolerant {
                    return Err(error("Detected cycle in xref /Prev chain"));
                }
                self.record_anomaly("xref_prev_cycle", "Detected cycle in xref /Prev chain", Some(offset))?;
                break;
            }
            let (entries, trailer) = match self.parse_single_xref_at(offset) {
                Ok(section) => section,
                Err(err) => {
                    if !self.tolerant {
                        return Err(err);
                    }
                    self.record_anomaly(
                        "xref_parse_failed",
                        "Failed to parse xref section; falling back to scan",
                        Some(offset),
                    )?;
                    self.recover_xref_by_scan()?;
                    break;
                },
            };
            let ghost seen_before = seen@;
            seen.push(offset);
            let (added, modified, deleted) = self.compute_revision_deltas(&aggregated, &entries);
            let list = entries.entries();
            let ghost pre = *self;
            let mut i: usize = 0;
            while i < list.len()
                invariant
                    i <= list@.len(),
                    self.document.revisions == pre.document.revisions,
                    self.document.trailer == pre.document.trailer,
                    xref_frame(old(self), self),
                    !old(self).tolerant ==> forall|id: ObjectId|
                        #[trigger] old(self).document.xref.entries.spec_get(id) is Some
                            ==> self.document.xref.entries.spec_get(id) == old(self).document.xref.entries.spec_get(id),
                decreases list@.len() - i,
            {
                let (id, e) = list[i];
                if !self.document.xref.entries.contains_key(&id) {
                    self.document.xref.entries.insert(id, e);
                }
                if !aggregated.contains_key(&id) {
                    aggregated.insert(id, e);
                }
                i = i + 1;
            }
            if revision_number == 0 {
                self.document.trailer = trailer.clone_dict();
            }
            let ghost revs_before = self.document.revisions@;
            self.document.revisions.push(
                crate::document::DocumentRevision {
                    revision_number,
                    xref_offset: offset,
                    trailer: trailer.clone_dict(),
                    modified_objects: modified,
                    added_objects: added,
                    deleted_objects: deleted,
                },
            );
            proof {
                assert(self.document.revisions@.subrange(0, revs_before.len() as int) =~= revs_before);
                if !old(self).tolerant {
                    lemma_chain_step(
                        old(self).document.revisions@,
                        revs_before,
                        self.document.revisions@,
                        old(self).xref_offset->Some_0,
                        seen_before,
                        seen@,
                        offset,
                    );
                }
            }
            if revision_number < u32::MAX {
                revision_number = revision_number + 1;
            }
            let prev = match trailer.get("Prev") {
                None => break,
                Some(v) => {
                    proof {
                        lemma_value_view(v);
                    }
                    v.as_integer()
                },
            };
            match prev {
                None => {
                    if !self.tolerant {
                        return Err(error("Invalid /Prev xref offset type"));
                    }
                    self.record_anomaly("invalid_prev_type", "Invalid /Prev xref offset type", Some(offset))?;
                    break;
                },
                Some(p) => {
                    if p <= 0 {
                        let m = concat2("Invalid /Prev xref offset: ", i64_text(p).as_str());
                        if !self.tolerant {
                            return Err(AstError::ParseError(m));
                        }
                        self.record_anomaly("invalid_prev", m.as_str(), Some(offset))?;
                        break;
                    }
                    offset = p as u64;
                },
            }
        }
        Ok(())
    }
}

/// The integer under `/Prev` of a trailer.
pub open spec fn spec_prev(t: &PdfDictionary) -> Option<int> {
    match t.spec_get("Prev"@) {
        Some(SpecValue::Integer(p)) => Some(p),
        _ => None,
    }
}

/// The revisions `b` appends to `a` follow a `/Prev` chain from `start`:
/// the first at `start`, each next one at the `/Prev` of the one before,
/// no offset twice.
pub open spec fn prev_chain(a: Seq<crate::document::DocumentRevision>, b: Seq<crate::document::DocumentRevision>, start: u64) -> bool {
    let n = b.len() - a.len();
    &&& n >= 1
    &&& b.subrange(0, a.len() as int) == a
    &&& b[a.len() as int].xref_offset == start
    &&& forall|i: int|
        a.len() <= i < b.len() - 1 ==> spec_prev(&(#[trigger] b[i]).trailer) == Some(b[i + 1].xref_offset as int)
    &&& forall|i: int, j: int| a.len() <= i < j < b.len() ==> (#[trigger] b[i]).xref_offset != (#[trigger] b[j]).xref_offset
}

/// The revisions appended so far follow the `/Prev` chain from `start`
/// through the offsets `seen`, and `next` is where the chain goes on.
pub open spec fn chain_so_far(
    a: Seq<crate::document::DocumentRevision>,
    b: Seq<crate::document::DocumentRevision>,
    start: u64,
    seen: Seq<u64>,
    next: u64,
) -> bool {
    &&& b.len() == a.len() + seen.len()
    &&& b.subrange(0, a.len() as int) == a
    &&& forall|i: int| 0 <= i < seen.len() ==> #[trigger] b[a.len() + i].xref_offset == seen[i]
    &&& (seen.len() == 0 ==> next == start)
    &&& (seen.len() > 0 ==> seen[0] == start && spec_prev(&b[b.len() - 1].trailer) == Some(next as int))
    &&& forall|i: int|
        a.len() <= i < b.len() - 1 ==> spec_prev(&(#[trigger] b[i]).trailer) == Some(b[i + 1].xref_offset as int)
}

/// One more revision, at the offset the chain reached, extends the chain.
proof fn lemma_chain_step(
    a: Seq<crate::document::DocumentRevision>,
    before: Seq<crate::document::DocumentRevision>,
    b: Seq<crate::document::DocumentRevision>,
    start: u64,
    seen_before: Seq<u64>,
    seen: Seq<u64>,
    offset: u64,
)
    requires
        chain_so_far(a, before, start, seen_before, offset),
        seen == seen_before.push(offset),
        seen.no_duplicates(),
        b.len() == before.len() + 1,
        b.subrange(0, before.len() as int) == before,
        b[b.len() - 1].xref_offset == offset,
    ensures
        prev_chain(a, b, start),
        b[a.len() as int] == if seen_before.len() == 0 { b[b.len() - 1] } else { before[a.len() as int] },
        forall|next: u64|
            spec_prev(&b[b.len() - 1].trailer) == Some(next as int) ==> #[trigger] chain_so_far(a, b, start, seen, next),
{
    assert(b.subrange(0, a.len() as int) =~= before.subrange(0, a.len() as int));
    assert forall|i: int| 0 <= i < before.len() implies #[trigger] b[i] == before[i] by {
        assert(b.subrange(0, before.len() as int)[i] == b[i]);
    }
    assert forall|i: int| 0 <= i < seen.len() implies #[trigger] b[a.len() + i].xref_offset == seen[i] by {
        if i < seen.len() - 1 {
            assert(b[a.len() + i] == before[a.len() + i]);
            assert(seen[i] == seen_before[i]);
        }
    }
    assert forall|i: int| a.len() <= i < b.len() - 1 implies spec_prev(&(#[trigger] b[i]).trailer) == Some(
        b[i + 1].xref_offset as int,
    ) by {
        assert(b[i] == before[i]);
        if i + 1 < b.len() - 1 {
            assert(b[i + 1] == before[i + 1]);
        }
    }
    assert forall|i: int, j: int| a.len() <= i < j < b.len() implies (#[trigger] b[i]).xref_offset
        != (#[trigger] b[j]).xref_offset by {
        assert(b[a.len() + (i - a.len())].xref_offset == seen[i - a.len()]);
        assert(b[a.len() + (j - a.len())].xref_offset == seen[j - a.len()]);
    }
}

/// The node with the same type and value in both, when both have it.
pub open spec fn same_node_content(x: Option<crate::ast::AstNode>, y: Option<crate::ast::AstNode>) -> bool {
    match (x, y) {
        (Some(n), Some(o)) => n.node_type == o.node_type && n.value == o.value,
        _ => false,
    }
}

/// Every node of `a` is in `b` with its type and value (its properties may
/// have grown), and `b` hands out no smaller ids.
pub open spec fn graph_kept(a: crate::ast::PdfAstGraph, b: crate::ast::PdfAstGraph) -> bool {
    &&& forall|id: NodeId| #[trigger] a.has_node(id) ==> b.has_node(id) && same_node_content(b.node(id), a.node(id))
    &&& b.next_id_spec() >= a.next_id_spec()
}

/// What building the document structure keeps: the settings, the graph's
/// nodes, the cross-reference entries, the trailer, the offset found and
/// the load depth.
pub open spec fn structure_frame(a: &PdfFileParser, b: &PdfFileParser) -> bool {
    &&& a.same_config(b)
    &&& graph_kept(a.document.ast, b.document.ast)
    &&& b.document.xref == a.document.xref
    &&& b.document.trailer == a.document.trailer
    &&& b.xref_offset == a.xref_offset
    &&& b.object_load_depth == a.object_load_depth
}

/// Steps compose.
proof fn lemma_structure_trans(a: &PdfFileParser, b: &PdfFileParser, c: &PdfFileParser)
    requires
        structure_frame(a, b),
        structure_frame(b, c),
    ensures
        structure_frame(a, c),
{
    assert forall|id: NodeId| #[trigger] a.document.ast.has_node(id) implies c.document.ast.has_node(id)
        && same_node_content(c.document.ast.node(id), a.document.ast.node(id)) by {
        assert(b.document.ast.has_node(id));
    }
}

/// A load keeps the structure.
proof fn lemma_structure_of_load(a: &PdfFileParser, b: &PdfFileParser)
    requires
        a.load_frame(b),
    ensures
        structure_frame(a, b),
{
    assert forall|id: NodeId| #[trigger] a.document.ast.has_node(id) implies b.document.ast.has_node(id)
        && same_node_content(b.document.ast.node(id), a.document.ast.node(id)) by {
    }
}

/// Adding nodes and edges keeps the structure.
proof fn lemma_structure_of_growth(a: &PdfFileParser, b: &PdfFileParser)
    requires
        a.same_config(b),
        nodes_kept(a.document.ast, b.document.ast),
        b.document.xref == a.document.xref,
        b.document.trailer == a.document.trailer,
        b.xref_offset == a.xref_offset,
        b.object_load_depth == a.object_load_depth,
    ensures
        structure_frame(a, b),
{
    assert forall|id: NodeId| #[trigger] a.document.ast.has_node(id) implies b.document.ast.has_node(id)
        && same_node_content(b.document.ast.node(id), a.document.ast.node(id)) by {
        assert(b.document.ast.node(id) == a.document.ast.node(id));
    }
}

impl PdfFileParser {
    /// Sets a property of node `id`.
    fn set_property(&mut self, id: NodeId, key: &str, value: &str)
        ensures
            structure_frame(old(self), final(self)),
            old(self).document.ast.has_node(id) ==> (final(self).document.ast.node(id) matches Some(n)
                && old(self).document.ast.node(id) matches Some(o) && n.node_type == o.node_type && n.value
                == o.value && n.metadata.props() == crate::types::spec_dict_insert(o.metadata.props(), key@, value@)
                && n.metadata.warnings_spec() == o.metadata.warnings_spec()),
            !old(self).document.ast.has_node(id) ==> final(self).document.ast.nodes_spec()
                == old(self).document.ast.nodes_spec(),
            forall|other: NodeId|
                other != id ==> #[trigger] final(self).document.ast.node(other) == old(self).document.ast.node(other),
            final(self).document.diagnostics == old(self).document.diagnostics,
            final(self).document.catalog == old(self).document.catalog,
            final(self).object_cache == old(self).object_cache,
    {
        let ghost before = self.document.ast;
        self.document.ast.set_node_property(id, String::from_str(key), String::from_str(value));
        proof {
            assert forall|x: NodeId| #[trigger] before.has_node(x) implies self.document.ast.has_node(x)
                && same_node_content(self.document.ast.node(x), before.node(x)) by {
                if x != id {
                    assert(self.document.ast.node(x) == before.node(x));
                }
            }
        }
    }

    /// The value itself, or the object it refers to.
    pub fn resolve_value(&mut self, value: &PdfValue) -> (r: Result<PdfValue, AstError>)
        ensures
            old(self).load_frame(final(self)),
            !(value is Reference) ==> (r matches Ok(v) && v.sv() == value.sv()),
            !(value is Reference) ==> *final(self) == *old(self),
    {
        match value {
            PdfValue::Reference(reference) => {
                let id = reference.id();
                self.load_object(&id)
            },
            _ => Ok(value.deep_clone()),
        }
    }

    /// A page's `/Resources`, resolved: an empty dictionary when there is
    /// none; one that is no dictionary fails in strict mode and counts as
    /// empty, with a diagnostic, in tolerant modes.
    pub fn resolve_resource_dictionary(&mut self, value: Option<&PdfValue>) -> (r: Result<PdfDictionary, AstError>)
        ensures
            old(self).load_frame(final(self)),
            value is None ==> (r matches Ok(d) && d.sv_entries().len() == 0),
            value matches Some(v) ==> match v.sv() {
                SpecValue::Reference(..) => true,
                SpecValue::Dictionary(e) => r matches Ok(d) && d.sv_entries() == e,
                _ => if old(self).tolerant {
                    &&& (r is Ok <==> old(self).document.diagnostics@.len() < old(self).max_errors)
                    &&& (r matches Ok(d) ==> d.sv_entries().len() == 0)
                } else {
                    r is Err
                },
            },
    {
        let value = match value {
            Some(v) => v,
            None => return Ok(PdfDictionary::new()),
        };
        let ghost start = *self;
        proof {
            lemma_value_view(value);
        }
        let resolved = self.resolve_value(value)?;
        proof {
            lemma_value_view(&resolved);
        }
        match resolved {
            PdfValue::Dictionary(dict) => Ok(dict),
            other => {
                let m = concat2("Page Resources must be a dictionary, got ", other.kind_name());
                if !self.tolerant {
                    return Err(AstError::ParseError(m));
                }
                let ghost loaded = *self;
                self.record_diagnostic(None, None, "invalid_resources", "ignored_invalid_resources", 100, 0, m.as_str())?;
                proof {
                    lemma_load_frame_trans(&start, &loaded, self);
                }
                Ok(PdfDictionary::new())
            },
        }
    }
}

/// The resource categories whose entries are merged name by name.
pub open spec fn is_resource_category(k: Seq<char>) -> bool {
    ||| k == "/ColorSpace"@
    ||| k == "/ExtGState"@
    ||| k == "/Font"@
    ||| k == "/Pattern"@
    ||| k == "/Properties"@
    ||| k == "/Shading"@
    ||| k == "/XObject"@
}

/// The entries of a value that has a dictionary.
pub open spec fn dict_entries_of(v: SpecValue) -> Option<Seq<(Seq<char>, SpecValue)>> {
    match v {
        SpecValue::Dictionary(e) => Some(e),
        SpecValue::Stream(e, _, _) => Some(e),
        _ => None,
    }
}

/// `base` with the entries of `extra` set in order.
pub open spec fn insert_all(base: Seq<(Seq<char>, SpecValue)>, extra: Seq<(Seq<char>, SpecValue)>) -> Seq<
    (Seq<char>, SpecValue),
>
    decreases extra.len(),
{
    if extra.len() == 0 {
        base
    } else {
        crate::types::spec_dict_insert(insert_all(base, extra.drop_last()), extra.last().0, extra.last().1)
    }
}

/// What a child's resource entry becomes: a category with a dictionary
/// is the parent's category with the child's names added; anything else
/// is taken as it is.
pub open spec fn merged_resource(parent: Seq<(Seq<char>, SpecValue)>, k: Seq<char>, v: SpecValue) -> SpecValue {
    if is_resource_category(k) && dict_entries_of(v) is Some {
        let base = match crate::types::spec_dict_get(parent, k) {
            Some(pv) => match dict_entries_of(pv) {
                Some(e) => e,
                None => Seq::empty(),
            },
            None => Seq::empty(),
        };
        SpecValue::Dictionary(insert_all(base, dict_entries_of(v).unwrap()))
    } else {
        v
    }
}

/// The parent's resources with the child's entries set in order.
pub open spec fn merge_resources(parent: Seq<(Seq<char>, SpecValue)>, child: Seq<(Seq<char>, SpecValue)>) -> Seq<
    (Seq<char>, SpecValue),
>
    decreases child.len(),
{
    if child.len() == 0 {
        parent
    } else {
        crate::types::spec_dict_insert(
            merge_resources(parent, child.drop_last()),
            child.last().0,
            merged_resource(parent, child.last().0, child.last().1),
        )
    }
}

/// Whether a name is a resource category.
fn resource_category(name: &str) -> (r: bool)
    ensures
        r == is_resource_category(name_text(name@)),
{
    let n = PdfName::new(name);
    proof {
        reveal_strlit("/ColorSpace");
        reveal_strlit("/ExtGState");
        reveal_strlit("/Font");
        reveal_strlit("/Pattern");
        reveal_strlit("/Properties");
        reveal_strlit("/Shading");
        reveal_strlit("/XObject");
    }
    n.matches_key("/ColorSpace") || n.matches_key("/ExtGState") || n.matches_key("/Font") || n.matches_key("/Pattern")
        || n.matches_key("/Properties") || n.matches_key("/Shading") || n.matches_key("/XObject")
}

/// `target` with the entries of `extra` set in order.
fn insert_entries(target: &mut PdfDictionary, extra: &PdfDictionary)
    ensures
        final(target).sv_entries() == insert_all(old(target).sv_entries(), extra.sv_entries()),
{
    let entries = extra.entries();
    let ghost start = target.sv_entries();
    let mut i: usize = 0;
    while i < entries.len()
        invariant
            i <= entries@.len(),
            crate::types::entries_sv(entries@) == extra.sv_entries(),
            target.sv_entries() == insert_all(start, extra.sv_entries().take(i as int)),
        decreases entries@.len() - i,
    {
        let name = &entries[i].0;
        proof {
            use_type_invariant(name);
            assert(extra.sv_entries().take(i + 1).drop_last() =~= extra.sv_entries().take(i as int));
            assert(name_text(name@) == name@);
        }
        let value = entries[i].1.deep_clone();
        target.insert(name.as_str(), value);
        i = i + 1;
    }
    proof {
        assert(extra.sv_entries().take(entries@.len() as int) =~= extra.sv_entries());
    }
}

impl PdfFileParser {
    /// The resources a page tree node passes on: its parent's, with its
    /// own set over them; in the categories `ColorSpace`, `ExtGState`,
    /// `Font`, `Pattern`, `Properties`, `Shading` and `XObject` the
    /// parent's names are kept and the child's added or replaced.
    pub fn merge_resource_dictionaries(parent: &PdfDictionary, child: &PdfDictionary) -> (r: PdfDictionary)
        ensures
            r.sv_entries() == merge_resources(parent.sv_entries(), child.sv_entries()),
    {
        let mut merged = parent.clone_dict();
        let entries = child.entries();
        let mut i: usize = 0;
        while i < entries.len()
            invariant
                i <= entries@.len(),
                crate::types::entries_sv(entries@) == child.sv_entries(),
                merged.sv_entries() == merge_resources(parent.sv_entries(), child.sv_entries().take(i as int)),
            decreases entries@.len() - i,
        {
            let name = &entries[i].0;
            let value = &entries[i].1;
            proof {
                use_type_invariant(name);
                assert(child.sv_entries().take(i + 1).drop_last() =~= child.sv_entries().take(i as int));
                assert(name_text(name@) == name@);
                crate::types::lemma_value_view(value);
            }
            let key = name.as_str();
            let is_category = resource_category(key);
            proof {
                assert(crate::types::entries_sv(entries@)[i as int] == (name@, value.sv()));
                assert(child.sv_entries().take(i + 1).last() == (name@, value.sv()));
            }
            if is_category && value.as_dict().is_some() {
                let mut category = match parent.get(key) {
                    Some(pv) => {
                        proof {
                            crate::types::lemma_value_view(pv);
                        }
                        match pv.as_dict() {
                            Some(d) => d.clone_dict(),
                            None => PdfDictionary::new(),
                        }
                    },
                    None => PdfDictionary::new(),
                };
                match value.as_dict() {
                    Some(cd) => {
                        insert_entries(&mut category, cd);
                    },
                    None => {},
                }
                let nv = PdfValue::Dictionary(category);
                proof {
                    crate::types::lemma_value_view(&nv);
                }
                merged.insert(key, nv);
            } else {
                let nv = value.deep_clone();
                merged.insert(key, nv);
            }
            i = i + 1;
        }
        proof {
            assert(child.sv_entries().take(entries@.len() as int) =~= child.sv_entries());
        }
        merged
    }
}

impl PdfFileParser {
    /// An action and the actions it leads to: a reference is followed, an
    /// array gives each of its actions, and a dictionary becomes an action
    /// node under `parent_id` (with its event and `/S` type as properties,
    /// a node for its JavaScript, and its `/Next` actions under it).
    /// Actions nest at most `max_depth` deep: beyond, strict mode fails and
    /// tolerant modes skip the branch with a diagnostic.
    pub fn parse_action_value(&mut self, value: &PdfValue, parent_id: NodeId, event: Option<&str>, depth: usize) -> (r:
        Result<(), AstError>)
        ensures
            structure_frame(old(self), final(self)),
            final(self).document.catalog == old(self).document.catalog,
            (depth > old(self).limits.max_depth || depth == usize::MAX) && !old(self).tolerant ==> (r matches Err(e) && e.message()
                == "Exceeded max action depth: "@ + decimal(old(self).limits.max_depth as nat)),
        decreases old(self).limits.max_depth + 1 - depth,
    {
        let ghost start = *self;
        if depth > self.limits.max_depth || depth == usize::MAX {
            if !self.tolerant {
                let mut m = msg("Exceeded max action depth: ");
                m.append(usize_text(self.limits.max_depth).as_str());
                return Err(AstError::ParseError(m));
            }
            self.record_diagnostic(
                None,
                None,
                "max_action_depth",
                "skipped_action_branch",
                100,
                0,
                "Maximum action depth exceeded; branch skipped",
            )?;
            proof {
                lemma_structure_of_load(&start, self);
            }
            return Ok(());
        }
        match value {
            PdfValue::Reference(reference) => {
                let id = reference.id();
                let res = self.load_object(&id);
                proof {
                    lemma_structure_of_load(&start, self);
                }
                let action = res?;
                let ghost loaded = *self;
                let res = self.parse_action_value(&action, parent_id, event, depth + 1);
                proof {
                    lemma_structure_trans(&start, &loaded, self);
                }
                res?;
            },
            PdfValue::Array(items) => {
                let mut i: usize = 0;
                while i < items.len()
                    invariant
                        i <= items@.len(),
                        depth <= start.limits.max_depth,
                        depth < usize::MAX,
                        start == *old(self),
                        structure_frame(&start, self),
                        self.document.catalog == start.document.catalog,
                    decreases items@.len() - i,
                {
                    let ghost before = *self;
                    let res = self.parse_action_value(&items[i], parent_id, event, depth + 1);
                    proof {
                        lemma_structure_trans(&start, &before, self);
                    }
                    res?;
                    i = i + 1;
                }
            },
            PdfValue::Dictionary(dict) => {
                let res = self.add_to_ast(PdfValue::Dictionary(dict.clone_dict()), NodeType::Action);
                proof {
                    lemma_structure_of_growth(&start, self);
                }
                let action_id = res?;
                let ghost added = *self;
                let res = self.add_edge(parent_id, action_id, EdgeType::Child);
                proof {
                    lemma_structure_of_growth(&added, self);
                    lemma_structure_trans(&start, &added, self);
                }
                res?;
                match event {
                    Some(e) => {
                        let ghost before = *self;
                        self.set_property(action_id, "action_event", e);
                        proof {
                            lemma_structure_trans(&start, &before, self);
                        }
                    },
                    None => {},
                }
                match dict.get("S") {
                    Some(PdfValue::Name(s)) => {
                        let ghost before = *self;
                        self.set_property(action_id, "action_type", s.without_slash());
                        proof {
                            lemma_structure_trans(&start, &before, self);
                        }
                    },
                    _ => {},
                }
                let js = match dict.get("JS") {
                    Some(v) => Some(v),
                    None => dict.get("JavaScript"),
                };
                match js {
                    Some(js_value) => {
                        let ghost before = *self;
                        let res = self.resolve_value(js_value);
                        proof {
                            lemma_structure_of_load(&before, self);
                            lemma_structure_trans(&start, &before, self);
                        }
                        let resolved = res?;
                        let ghost loaded = *self;
                        let res = self.add_to_ast(resolved, NodeType::JavaScript);
                        proof {
                            lemma_structure_of_growth(&loaded, self);
                            lemma_structure_trans(&start, &loaded, self);
                        }
                        let js_id = res?;
                        let ghost added_js = *self;
                        let res = self.add_edge(action_id, js_id, EdgeType::Child);
                        proof {
                            lemma_structure_of_growth(&added_js, self);
                            lemma_structure_trans(&start, &added_js, self);
                        }
                        res?;
                    },
                    None => {},
                }
                match dict.get("Next") {
                    Some(next) => {
                        let ghost before = *self;
                        let res = self.parse_action_value(next, action_id, None, depth + 1);
                        proof {
                            lemma_structure_trans(&start, &before, self);
                        }
                        res?;
                    },
                    None => {},
                }
            },
            _ => {},
        }
        Ok(())
    }

    /// The actions of an additional-actions dictionary (resolved when it
    /// is a reference), each under `parent_id` with its event's name.
    pub fn parse_additional_actions(&mut self, aa_value: &PdfValue, parent_id: NodeId) -> (r: Result<(), AstError>)
        ensures
            structure_frame(old(self), final(self)),
            final(self).document.catalog == old(self).document.catalog,
    {
        let ghost start = *self;
        let res = self.resolve_value(aa_value);
        proof {
            lemma_structure_of_load(&start, self);
        }
        let resolved = res?;
        match resolved {
            PdfValue::Dictionary(dict) => {
                let entries = dict.entries();
                let mut i: usize = 0;
                while i < entries.len()
                    invariant
                        i <= entries@.len(),
                        start == *old(self),
                        structure_frame(&start, self),
                        self.document.catalog == start.document.catalog,
                    decreases entries@.len() - i,
                {
                    let ghost before = *self;
                    let res = self.parse_action_value(&entries[i].1, parent_id, Some(entries[i].0.without_slash()), 0);
                    proof {
                        lemma_structure_trans(&start, &before, self);
                    }
                    res?;
                    i = i + 1;
                }
            },
            _ => {},
        }
        Ok(())
    }
}

impl PdfFileParser {
    /// An XFA value with its references loaded, array by array, from the
    /// top.
    pub fn resolve_xfa_value(&mut self, value: &PdfValue) -> (r: Result<PdfValue, AstError>)
        ensures
            structure_frame(old(self), final(self)),
            final(self).document.catalog == old(self).document.catalog,
            !(value is Reference) && !(value is Array) ==> (r matches Ok(v) ==> v.sv() == value.sv()),
            !old(self).tolerant && arrays_exceed(value.sv(), 0, old(self).limits.max_depth as int) ==> r is Err,
            (!old(self).tolerant && crate::types::value_refs(value.sv()).len() == 0) ==> (r matches Err(e) ==> xfa_refusal(
                e.message(),
                old(self).limits,
            )),
            (crate::types::value_refs(value.sv()).len() == 0 && old(self).limits.max_depth < usize::MAX && !arrays_exceed(
                value.sv(),
                0,
                old(self).limits.max_depth as int,
            )) ==> (r matches Ok(v) ==> v.sv() == value.sv()),
    {
        self.resolve_xfa_value_at(value, 0)
    }

    /// An XFA value at nesting `depth`: a reference is loaded, an array has
    /// its items resolved one level deeper, anything else is kept.  Beyond
    /// `max_depth`, strict mode fails and tolerant modes give `Null` with a
    /// diagnostic.
    pub fn resolve_xfa_value_at(&mut self, value: &PdfValue, depth: usize) -> (r: Result<PdfValue, AstError>)
        ensures
            structure_frame(old(self), final(self)),
            final(self).document.catalog == old(self).document.catalog,
            (depth > old(self).limits.max_depth || depth == usize::MAX) && !old(self).tolerant ==> r is Err,
            depth <= old(self).limits.max_depth && depth < usize::MAX && !(value is Reference) && !(value is Array) ==> (
            r matches Ok(v) ==> v.sv() == value.sv()),
            !old(self).tolerant && arrays_exceed(value.sv(), depth as int, old(self).limits.max_depth as int) ==> r is Err,
            (!old(self).tolerant && crate::types::value_refs(value.sv()).len() == 0) ==> (r matches Err(e) ==> xfa_refusal(
                e.message(),
                old(self).limits,
            )),
            (crate::types::value_refs(value.sv()).len() == 0 && old(self).limits.max_depth < usize::MAX && !arrays_exceed(
                value.sv(),
                depth as int,
                old(self).limits.max_depth as int,
            )) ==> (r matches Ok(v) ==> v.sv() == value.sv()),
        decreases old(self).limits.max_depth + 1 - depth,
    {
        let ghost start = *self;
        match self.limits.budget.check() {
            Ok(()) => {},
            Err(e) => {
                proof {
                    reveal_strlit("resource budget exceeded: ");
                }
                return Err(AstError::ParseError(e.to_string()));
            },
        }
        if depth > self.limits.max_depth || depth == usize::MAX {
            if !self.tolerant {
                let mut m = msg("Exceeded max XFA value depth: ");
                m.append(usize_text(self.limits.max_depth).as_str());
                return Err(AstError::ParseError(m));
            }
            let res = self.record_diagnostic(
                None,
                None,
                "xfa_value_depth",
                "returned_null",
                100,
                0,
                "Maximum XFA value depth exceeded",
            );
            proof {
                lemma_structure_of_load(&start, self);
            }
            res?;
            return Ok(PdfValue::Null);
        }
        proof {
            lemma_value_view(value);
        }
        match value {
            PdfValue::Reference(reference) => {
                let id = reference.id();
                let res = self.load_object(&id);
                proof {
                    lemma_structure_of_load(&start, self);
                }
                res
            },
            PdfValue::Array(items) => {
                proof {
                    lemma_value_view(value);
                    lemma_array_view(items);
                }
                let mut resolved: Vec<PdfValue> = Vec::new();
                let mut i: usize = 0;
                while i < items.len()
                    invariant
                        i <= items@.len(),
                        crate::types::array_sv(items).len() == items@.len(),
                        forall|q: int| 0 <= q < items@.len() ==> #[trigger] crate::types::array_sv(items)[q] == items@[q].sv(),
                        !start.tolerant ==> !items_exceed(crate::types::array_sv(items), i as int, depth as int + 1, start.limits.max_depth as int),
                        value.sv() == SpecValue::Array(crate::types::array_sv(items)),
                        depth <= start.limits.max_depth,
                        depth < usize::MAX,
                        (crate::types::value_refs(value.sv()).len() == 0 && start.limits.max_depth < usize::MAX
                            && !arrays_exceed(value.sv(), depth as int, start.limits.max_depth as int))
                            ==> crate::types::array_sv(&resolved) == crate::types::array_sv(items).take(i as int),
                        start == *old(self),
                        structure_frame(&start, self),
                        self.document.catalog == start.document.catalog,
                    decreases items@.len() - i,
                {
                    let ghost before = *self;
                    let res = self.resolve_xfa_value_at(&items[i], depth + 1);
                    proof {
                        lemma_structure_trans(&start, &before, self);
                        if !start.tolerant && crate::types::value_refs(value.sv()).len() == 0 {
                            assert(value.sv() == SpecValue::Array(crate::types::array_sv(items)));
                            lemma_items_refs_empty(
                                crate::types::array_sv(items),
                                crate::types::array_sv(items).len() as nat,
                                i as int,
                            );
                        }
                    }
                    let item = res?;
                    let ghost acc = crate::types::array_sv(&resolved);
                    proof {
                        lemma_array_view(&resolved);
                        if crate::types::value_refs(value.sv()).len() == 0 && start.limits.max_depth < usize::MAX
                            && !arrays_exceed(value.sv(), depth as int, start.limits.max_depth as int) {
                            lemma_items_refs_empty(
                                crate::types::array_sv(items),
                                crate::types::array_sv(items).len() as nat,
                                i as int,
                            );
                            lemma_items_not_exceed(
                                crate::types::array_sv(items),
                                crate::types::array_sv(items).len() as int,
                                i as int,
                                depth + 1,
                                start.limits.max_depth as int,
                            );
                        }
                    }
                    resolved.push(item);
                    proof {
                        lemma_array_view(&resolved);
                        assert(crate::types::array_sv(&resolved) =~= acc.push(resolved@[resolved@.len() - 1].sv()));
                        if crate::types::value_refs(value.sv()).len() == 0 && start.limits.max_depth < usize::MAX
                            && !arrays_exceed(value.sv(), depth as int, start.limits.max_depth as int) {
                            assert(item.sv() == crate::types::array_sv(items)[i as int]);
                            assert(crate::types::array_sv(&resolved) =~= crate::types::array_sv(items).take(i + 1));
                        }
                    }
                    i = i + 1;
                }
                proof {
                    if !start.tolerant && arrays_exceed(value.sv(), depth as int, start.limits.max_depth as int) {
                        assert(value.sv() == SpecValue::Array(crate::types::array_sv(items)));
                        assert(depth <= start.limits.max_depth);
                        assert(i == crate::types::array_sv(items).len());
                        assert(false);
                    }
                }
                let out = PdfValue::Array(resolved);
                proof {
                    lemma_value_view(&out);
                    assert(crate::types::array_sv(items).take(i as int) =~= crate::types::array_sv(items));
                }
                Ok(out)
            },
            _ => {
                proof {
                    lemma_value_view(value);
                }
                Ok(value.deep_clone())
            },
        }
    }

    /// The fields of an AcroForm, under `parent_id`.
    pub fn parse_form_fields(&mut self, acroform: &PdfDictionary, parent_id: NodeId) -> (r: Result<(), AstError>)
        ensures
            structure_frame(old(self), final(self)),
            final(self).document.catalog == old(self).document.catalog,
    {
        match acroform.get("Fields") {
            Some(fields) => self.parse_form_field_value(fields, parent_id, 0),
            None => Ok(()),
        }
    }

    /// A form field value at nesting `depth`: arrays give each field, a
    /// reference is followed, and a dictionary becomes a field node under
    /// `parent_id` (with its name, type and flags as properties, its kids
    /// under it, and its actions).  Beyond `MAX_FORM_FIELD_DEPTH`, strict
    /// mode fails and tolerant modes skip the branch with a diagnostic.
    pub fn parse_form_field_value(&mut self, value: &PdfValue, parent_id: NodeId, depth: usize) -> (r: Result<
        (),
        AstError,
    >)
        ensures
            structure_frame(old(self), final(self)),
            final(self).document.catalog == old(self).document.catalog,
            depth > MAX_FORM_FIELD_DEPTH && !old(self).tolerant ==> (r matches Err(e) && e.message()
                == "Maximum form field depth exceeded: 64"@),
            depth > MAX_FORM_FIELD_DEPTH && old(self).tolerant ==> (r is Ok <==> old(self).document.diagnostics@.len()
                < old(self).max_errors),
            !old(self).tolerant && arrays_exceed(value.sv(), depth as int, MAX_FORM_FIELD_DEPTH as int) ==> r is Err,
            (!old(self).tolerant && plain_arrays(value.sv())) ==> (r matches Err(e) ==> e.message()
                == "Maximum form field depth exceeded: 64"@),
        decreases MAX_FORM_FIELD_DEPTH + 1 - depth,
    {
        let ghost start = *self;
        if depth > MAX_FORM_FIELD_DEPTH {
            if !self.tolerant {
                proof {
                    reveal_strlit("Maximum form field depth exceeded: ");
                    reveal_strlit("Maximum form field depth exceeded: 64");
                    assert(decimal(64) =~= seq!['6', '4']) by {
                        reveal_with_fuel(decimal, 2);
                    }
                }
                let mut m = msg("Maximum form field depth exceeded: ");
                m.append(usize_text(MAX_FORM_FIELD_DEPTH).as_str());
                proof {
                    assert(m@ =~= "Maximum form field depth exceeded: 64"@);
                }
                return Err(AstError::ParseError(m));
            }
            let res = self.record_diagnostic(
                None,
                None,
                "max_form_field_depth",
                "skipped_form_field_branch",
                100,
                0,
                "Maximum form field depth exceeded; branch skipped",
            );
            proof {
                lemma_structure_of_load(&start, self);
            }
            return res;
        }
        proof {
            lemma_value_view(value);
        }
        match value {
            PdfValue::Array(items) => {
                proof {
                    lemma_array_view(items);
                }
                let mut i: usize = 0;
                while i < items.len()
                    invariant
                        i <= items@.len(),
                        crate::types::array_sv(items).len() == items@.len(),
                        forall|q: int| 0 <= q < items@.len() ==> #[trigger] crate::types::array_sv(items)[q] == items@[q].sv(),
                        !start.tolerant ==> !items_exceed(crate::types::array_sv(items), i as int, depth as int + 1, MAX_FORM_FIELD_DEPTH as int),
                        value.sv() == SpecValue::Array(crate::types::array_sv(items)),
                        depth <= MAX_FORM_FIELD_DEPTH,
                        start == *old(self),
                        structure_frame(&start, self),
                        self.document.catalog == start.document.catalog,
                    decreases items@.len() - i,
                {
                    let ghost before = *self;
                    let res = self.parse_form_field_value(&items[i], parent_id, depth + 1);
                    proof {
                        lemma_structure_trans(&start, &before, self);
                        if !start.tolerant && plain_arrays(value.sv()) {
                            lemma_items_plain(
                                crate::types::array_sv(items),
                                crate::types::array_sv(items).len() as nat,
                                i as int,
                            );
                        }
                    }
                    res?;
                    i = i + 1;
                }
                proof {
                    if !start.tolerant && arrays_exceed(value.sv(), depth as int, MAX_FORM_FIELD_DEPTH as int) {
                        assert(value.sv() == SpecValue::Array(crate::types::array_sv(items)));
                        assert(depth <= MAX_FORM_FIELD_DEPTH);
                        assert(i == crate::types::array_sv(items).len());
                        assert(false);
                    }
                }
            },
            PdfValue::Reference(reference) => {
                let id = reference.id();
                let res = self.load_object(&id);
                proof {
                    lemma_structure_of_load(&start, self);
                }
                let field = res?;
                let ghost loaded = *self;
                let res = self.parse_form_field_value(&field, parent_id, depth + 1);
                proof {
                    lemma_structure_trans(&start, &loaded, self);
                }
                res?;
            },
            PdfValue::Dictionary(dict) => {
                let res = self.add_to_ast(PdfValue::Dictionary(dict.clone_dict()), NodeType::Field);
                proof {
                    lemma_structure_of_growth(&start, self);
                }
                let node_id = res?;
                let ghost added = *self;
                let res = self.add_edge(parent_id, node_id, EdgeType::Child);
                proof {
                    lemma_structure_of_growth(&added, self);
                    lemma_structure_trans(&start, &added, self);
                }
                res?;
                match dict.get("T") {
                    Some(PdfValue::String(name)) => {
                        let text = name.to_string_lossy();
                        let ghost before = *self;
                        self.set_property(node_id, "field_name", text.as_str());
                        proof {
                            lemma_structure_trans(&start, &before, self);
                        }
                    },
                    _ => {},
                }
                match dict.get("FT") {
                    Some(PdfValue::Name(ft)) => {
                        let ghost before = *self;
                        self.set_property(node_id, "field_type", ft.without_slash());
                        proof {
                            lemma_structure_trans(&start, &before, self);
                        }
                    },
                    _ => {},
                }
                match dict.get("Ff") {
                    Some(PdfValue::Integer(flags)) => {
                        let text = i64_text(*flags);
                        let ghost before = *self;
                        self.set_property(node_id, "field_flags", text.as_str());
                        proof {
                            lemma_structure_trans(&start, &before, self);
                        }
                    },
                    _ => {},
                }
                match dict.get("Kids") {
                    Some(kids) => {
                        let ghost before = *self;
                        let res = self.parse_form_field_value(kids, node_id, depth + 1);
                        proof {
                            lemma_structure_trans(&start, &before, self);
                        }
                        res?;
                    },
                    None => {},
                }
                match dict.get("A") {
                    Some(action) => {
                        let ghost before = *self;
                        let res = self.parse_action_value(action, node_id, None, 0);
                        proof {
                            lemma_structure_trans(&start, &before, self);
                        }
                        res?;
                    },
                    None => {},
                }
                match dict.get("AA") {
                    Some(aa) => {
                        let ghost before = *self;
                        let res = self.parse_additional_actions(aa, node_id);
                        proof {
                            lemma_structure_trans(&start, &before, self);
                        }
                        res?;
                    },
                    None => {},
                }
            },
            _ => {},
        }
        Ok(())
    }
}

impl PdfFileParser {
    /// The catalog node's dictionary, copied.
    pub fn get_catalog_dict(&self, catalog_id: NodeId) -> (r: Option<PdfDictionary>)
        ensures
            r is Some ==> self.document.ast.has_node(catalog_id),
            match self.document.ast.node(catalog_id) {
                Some(n) => match n.value {
                    PdfValue::Dictionary(d) => r matches Some(x) && x.sv_entries() == d.sv_entries(),
                    PdfValue::Stream(s) => r matches Some(x) && x.sv_entries() == s.dict.sv_entries(),
                    _ => r is None,
                },
                None => r is None,
            },
    {
        match self.document.ast.get_node(catalog_id) {
            Some(node) => match node.as_dict() {
                Some(d) => Some(d.clone_dict()),
                None => None,
            },
            None => None,
        }
    }

    /// The catalog's `/OpenAction`: a referenced action is linked by
    /// reference, a direct one as a child.
    pub fn parse_open_action(&mut self, catalog_dict: &PdfDictionary, catalog_id: NodeId) -> (r: Result<(), AstError>)
        ensures
            structure_frame(old(self), final(self)),
            final(self).document.catalog == old(self).document.catalog,
            !(catalog_dict.spec_get("OpenAction"@) matches Some(v) && (v is Reference || v is Dictionary)) ==> r is Ok
                && *final(self) == *old(self),
            (catalog_dict.spec_get("OpenAction"@) matches Some(SpecValue::Reference(..))) && r is Ok ==> added_node_under(
                old(self).document.ast,
                final(self).document.ast,
                catalog_id,
                EdgeType::Reference,
            ),
            (catalog_dict.spec_get("OpenAction"@) matches Some(SpecValue::Dictionary(_))) && r is Ok ==> added_node_under(
                old(self).document.ast,
                final(self).document.ast,
                catalog_id,
                EdgeType::Child,
            ),
    {
        let ghost start = *self;
        let open_action = match catalog_dict.get("OpenAction") {
            Some(a) => a,
            None => return Ok(()),
        };
        proof {
            lemma_value_view(open_action);
        }
        let (value, edge) = match open_action {
            PdfValue::Reference(reference) => {
                let id = reference.id();
                let res = self.load_object(&id);
                proof {
                    lemma_structure_of_load(&start, self);
                }
                (res?, EdgeType::Reference)
            },
            PdfValue::Dictionary(_) => (open_action.deep_clone(), EdgeType::Child),
            _ => return Ok(()),
        };
        let ghost loaded = *self;
        let res = self.add_to_ast(value, NodeType::Action);
        proof {
            lemma_structure_of_growth(&loaded, self);
            lemma_structure_trans(&start, &loaded, self);
        }
        let action_id = res?;
        let ghost added = *self;
        let res = self.add_edge(catalog_id, action_id, edge);
        proof {
            lemma_structure_of_growth(&added, self);
            lemma_structure_trans(&start, &added, self);
            if res is Ok {
                assert(self.document.ast.has_node(action_id));
            }
        }
        res
    }

    /// Loads a referenced object and adds it as a node of type `node_type`.
    fn add_referenced(&mut self, value: Option<&PdfValue>, node_type: NodeType) -> (r: Result<(), AstError>)
        ensures
            structure_frame(old(self), final(self)),
            final(self).document.catalog == old(self).document.catalog,
            !(value matches Some(v) && v is Reference) ==> r is Ok && *final(self) == *old(self),
            (value matches Some(v) && v is Reference) && r is Ok ==> final(self).document.ast.next_id_spec()
                == old(self).document.ast.next_id_spec() + 1,
            final(self).document.ast.edges_spec() == old(self).document.ast.edges_spec(),
            final(self).document.ast.next_id_spec() <= old(self).document.ast.next_id_spec() + 1,
    {
        let ghost start = *self;
        let id = match value {
            Some(PdfValue::Reference(reference)) => reference.id(),
            _ => return Ok(()),
        };
        let res = self.load_object(&id);
        proof {
            lemma_structure_of_load(&start, self);
        }
        let loaded_value = res?;
        let ghost loaded = *self;
        let res = self.add_to_ast(loaded_value, node_type);
        proof {
            lemma_structure_of_growth(&loaded, self);
            lemma_structure_trans(&start, &loaded, self);
        }
        res?;
        Ok(())
    }

    /// The catalog's `/Names`: its embedded files and its JavaScript.
    pub fn parse_names_dictionary(&mut self, catalog_dict: &PdfDictionary) -> (r: Result<(), AstError>)
        ensures
            structure_frame(old(self), final(self)),
            final(self).document.catalog == old(self).document.catalog,
            !(catalog_dict.spec_get("Names"@) matches Some(SpecValue::Reference(..))) ==> r is Ok && *final(self)
                == *old(self),
            final(self).document.ast.edges_spec() == old(self).document.ast.edges_spec(),
            final(self).document.ast.next_id_spec() <= old(self).document.ast.next_id_spec() + 2,
    {
        let ghost start = *self;
        let id = match catalog_dict.get("Names") {
            Some(v) => {
                proof {
                    lemma_value_view(v);
                }
                match v {
                    PdfValue::Reference(reference) => reference.id(),
                    _ => return Ok(()),
                }
            },
            None => return Ok(()),
        };
        let res = self.load_object(&id);
        proof {
            lemma_structure_of_load(&start, self);
        }
        let names_value = res?;
        let names_dict = match &names_value {
            PdfValue::Dictionary(d) => d,
            _ => return Ok(()),
        };
        let ghost loaded = *self;
        let res = self.add_referenced(names_dict.get("EmbeddedFiles"), NodeType::EmbeddedFile);
        proof {
            lemma_structure_trans(&start, &loaded, self);
        }
        res?;
        let ghost embedded = *self;
        let res = self.add_referenced(names_dict.get("JavaScript"), NodeType::JavaScriptAction);
        proof {
            lemma_structure_trans(&start, &embedded, self);
        }
        res
    }

    /// The catalog's `/AcroForm`: the document is marked as having forms,
    /// its XFA value is resolved, and it becomes a node under the catalog
    /// with its fields and actions.
    pub fn parse_acroform(&mut self, catalog_dict: &PdfDictionary, catalog_id: NodeId) -> (r: Result<(), AstError>)
        ensures
            structure_frame(old(self), final(self)),
            final(self).document.catalog == old(self).document.catalog,
    {
        let ghost start = *self;
        let acroform_value = match catalog_dict.get("AcroForm") {
            Some(v) => v,
            None => return Ok(()),
        };
        let loaded = match acroform_value {
            PdfValue::Reference(reference) => {
                let id = reference.id();
                let res = self.load_object(&id);
                proof {
                    lemma_structure_of_load(&start, self);
                }
                res?
            },
            PdfValue::Dictionary(_) => acroform_value.deep_clone(),
            _ => return Ok(()),
        };
        let mut acro_dict = match loaded {
            PdfValue::Dictionary(d) => d,
            _ => return Ok(()),
        };
        self.document.has_forms = true;
        match acro_dict.get("XFA") {
            Some(xfa) => {
                let xfa_value = xfa.deep_clone();
                let ghost before = *self;
                let res = self.resolve_xfa_value(&xfa_value);
                proof {
                    lemma_structure_trans(&start, &before, self);
                }
                let resolved = res?;
                acro_dict.insert("XFA", resolved);
            },
            None => {},
        }
        let ghost before_node = *self;
        let res = self.add_to_ast(PdfValue::Dictionary(acro_dict.clone_dict()), NodeType::AcroForm);
        proof {
            lemma_structure_of_growth(&before_node, self);
            lemma_structure_trans(&start, &before_node, self);
        }
        let acro_id = res?;
        let ghost added = *self;
        let res = self.add_edge(catalog_id, acro_id, EdgeType::Child);
        proof {
            lemma_structure_of_growth(&added, self);
            lemma_structure_trans(&start, &added, self);
        }
        res?;
        let ghost linked = *self;
        let res = self.parse_form_fields(&acro_dict, acro_id);
        proof {
            lemma_structure_trans(&start, &linked, self);
        }
        res?;
        match acro_dict.get("AA") {
            Some(aa) => {
                let ghost before = *self;
                let res = self.parse_additional_actions(aa, acro_id);
                proof {
                    lemma_structure_trans(&start, &before, self);
                }
                res?;
            },
            None => {},
        }
        Ok(())
    }

    /// What hangs off the catalog: its open action, its additional
    /// actions, its name tree's files and scripts, and its forms.
    pub fn parse_catalog_references(&mut self, catalog_id: NodeId) -> (r: Result<(), AstError>)
        ensures
            structure_frame(old(self), final(self)),
            final(self).document.catalog == old(self).document.catalog,
    {
        let ghost start = *self;
        let catalog_dict = match self.get_catalog_dict(catalog_id) {
            Some(d) => d,
            None => return Ok(()),
        };
        let res = self.parse_open_action(&catalog_dict, catalog_id);
        let ghost s1 = *self;
        res?;
        match catalog_dict.get("AA") {
            Some(aa) => {
                let res = self.parse_additional_actions(aa, catalog_id);
                proof {
                    lemma_structure_trans(&start, &s1, self);
                }
                res?;
            },
            None => {},
        }
        let ghost s2 = *self;
        let res = self.parse_names_dictionary(&catalog_dict);
        proof {
            lemma_structure_trans(&start, &s2, self);
        }
        res?;
        let ghost s3 = *self;
        let res = self.parse_acroform(&catalog_dict, catalog_id);
        proof {
            lemma_structure_trans(&start, &s3, self);
        }
        res
    }
}

/// The node type of an annotation subtype.
pub open spec fn spec_annotation_node_type(subtype: Seq<char>) -> NodeType {
    if subtype == "RichMedia"@ {
        NodeType::RichMedia
    } else if subtype == "3D"@ {
        NodeType::ThreeD
    } else {
        NodeType::Annotation
    }
}

impl PdfFileParser {
    /// An annotation's `/Subtype` without its `/`, or the empty text.
    pub fn get_annotation_subtype(dict: &PdfDictionary) -> (r: String)
        ensures
            r@ == match spec_name_entry(dict.sv_entries(), "Subtype"@) {
                Some(n) => n,
                None => Seq::<char>::empty(),
            },
    {
        match name_entry(dict, "Subtype") {
            Some(n) => String::from_str(n),
            None => String::new(),
        }
    }

    /// Rich media and 3D annotations have node types of their own.
    pub fn annotation_subtype_to_node_type(subtype: &str) -> (r: NodeType)
        ensures
            r == spec_annotation_node_type(subtype@),
    {
        proof {
            reveal_strlit("RichMedia");
            reveal_strlit("3D");
        }
        if str_equal(subtype, "RichMedia") {
            NodeType::RichMedia
        } else if str_equal(subtype, "3D") {
            NodeType::ThreeD
        } else {
            NodeType::Annotation
        }
    }

    /// An annotation's `/A` and `/AA` actions, under its node.
    pub fn parse_annotation_actions(&mut self, dict: &PdfDictionary, annot_id: NodeId) -> (r: Result<(), AstError>)
        ensures
            structure_frame(old(self), final(self)),
            final(self).document.catalog == old(self).document.catalog,
    {
        let ghost start = *self;
        match dict.get("A") {
            Some(action) => {
                self.parse_action_value(action, annot_id, None, 0)?;
            },
            None => {},
        }
        match dict.get("AA") {
            Some(aa) => {
                let ghost before = *self;
                let res = self.parse_additional_actions(aa, annot_id);
                proof {
                    lemma_structure_trans(&start, &before, self);
                }
                res?;
            },
            None => {},
        }
        Ok(())
    }

    /// One annotation of a page (resolved when it is a reference): a node
    /// of the type its subtype gives, under the page, with its subtype as a
    /// property and its actions.
    pub fn process_single_annotation(&mut self, annot: &PdfValue, page_id: NodeId) -> (r: Result<(), AstError>)
        ensures
            structure_frame(old(self), final(self)),
            final(self).document.catalog == old(self).document.catalog,
    {
        let ghost start = *self;
        let res = self.resolve_value(annot);
        proof {
            lemma_structure_of_load(&start, self);
        }
        let resolved = res?;
        let dict = match resolved {
            PdfValue::Dictionary(d) => d,
            _ => return Ok(()),
        };
        let subtype = Self::get_annotation_subtype(&dict);
        let node_type = Self::annotation_subtype_to_node_type(subtype.as_str());
        let ghost loaded = *self;
        let res = self.add_to_ast(PdfValue::Dictionary(dict.clone_dict()), node_type);
        proof {
            lemma_structure_of_growth(&loaded, self);
            lemma_structure_trans(&start, &loaded, self);
        }
        let annot_id = res?;
        let ghost added = *self;
        let res = self.add_edge(page_id, annot_id, EdgeType::Child);
        proof {
            lemma_structure_of_growth(&added, self);
            lemma_structure_trans(&start, &added, self);
        }
        res?;
        let ghost linked = *self;
        self.set_property(annot_id, "annotation_subtype", subtype.as_str());
        proof {
            lemma_structure_trans(&start, &linked, self);
        }
        let ghost marked = *self;
        let res = self.parse_annotation_actions(&dict, annot_id);
        proof {
            lemma_structure_trans(&start, &marked, self);
        }
        res
    }

    /// The annotations a page's `/Annots` array lists.
    pub fn parse_page_annotations(&mut self, page_dict: &PdfDictionary, page_id: NodeId) -> (r: Result<(), AstError>)
        ensures
            structure_frame(old(self), final(self)),
            final(self).document.catalog == old(self).document.catalog,
    {
        let ghost start = *self;
        let annots = match page_dict.get("Annots") {
            Some(PdfValue::Array(a)) => a,
            _ => return Ok(()),
        };
        let mut i: usize = 0;
        while i < annots.len()
            invariant
                i <= annots@.len(),
                start == *old(self),
                structure_frame(&start, self),
                self.document.catalog == start.document.catalog,
            decreases annots@.len() - i,
        {
            let ghost before = *self;
            let res = self.process_single_annotation(&annots[i], page_id);
            proof {
                lemma_structure_trans(&start, &before, self);
            }
            res?;
            i = i + 1;
        }
        Ok(())
    }
}

impl PdfFileParser {
    /// Records a diagnostic and keeps the structure.
    fn note(
        &mut self,
        object_id: Option<ObjectId>,
        error_code: &str,
        recovery_action: &str,
        message: &str,
    ) -> (r: Result<(), AstError>)
        ensures
            structure_frame(old(self), final(self)),
            final(self).document.catalog == old(self).document.catalog,
            final(self).document.ast == old(self).document.ast,
            r is Ok <==> old(self).document.diagnostics@.len() < old(self).max_errors,
    {
        let ghost start = *self;
        let res = self.record_diagnostic(object_id, None, error_code, recovery_action, 100, 0, message);
        proof {
            lemma_structure_of_load(&start, self);
        }
        res
    }

    /// The page tree from `pages_ref`, each node under its parent (the
    /// root under `parent_id`).  Nodes of type `Pages` and `Page` become
    /// nodes of the graph, registered for their object, with the resources
    /// they inherit merged into their own; pages get their actions and
    /// annotations.  A node reached twice (a cycle), a node that is no
    /// dictionary or has no known `/Type`, and kids that are no references
    /// fail in strict mode; tolerant modes skip them with a diagnostic.
    pub fn parse_page_tree(&mut self, pages_ref: &PdfReference, parent_id: NodeId) -> (r: Result<(), AstError>)
        ensures
            structure_frame(old(self), final(self)),
            final(self).document.catalog == old(self).document.catalog,
            (!old(self).tolerant && r is Ok) ==> page_node_added(old(self).document.ast, final(self).document.ast),
            (!old(self).tolerant && root_lists_itself(old(self), *pages_ref)) ==> r is Err,
    {
        let ghost start = *self;
        let ghost root_id = pages_ref.spec_id();
        let ghost cyc = !start.tolerant && root_lists_itself(&start, *pages_ref);
        let mut stack: Vec<(PdfReference, NodeId, PdfDictionary)> = Vec::new();
        stack.push((*pages_ref, parent_id, PdfDictionary::new()));
        let mut visited: Vec<ObjectId> = Vec::new();
        loop
            invariant
                start == *old(self),
                structure_frame(&start, self),
                self.document.catalog == start.document.catalog,
                visited@.len() == 0 ==> stack@.len() == 1,
                visited@.len() == 0 ==> stack@[0].0 == *pages_ref && *self == start,
                visited@.len() > 0 ==> visited@[0] == root_id,
                cyc == (!start.tolerant && root_lists_itself(&start, *pages_ref)),
                root_id == pages_ref.spec_id(),
                visited@.len() > 0 && cyc ==> exists|j: int| 0 <= j < stack@.len() && (#[trigger] stack@[j]).0.spec_id() == root_id,
                (!start.tolerant && visited@.len() > 0) ==> page_node_added(start.document.ast, self.document.ast),
            ensures
                structure_frame(&start, self),
                self.document.catalog == start.document.catalog,
                !start.tolerant ==> page_node_added(start.document.ast, self.document.ast),
                !(!start.tolerant && root_lists_itself(&start, *pages_ref)),
            decreases usize::MAX - self.document.ast.next_id_spec(), stack@.len(),
        {
            let ghost round = *self;
            let ghost stack_before = stack@;
            let (current_ref, current_parent, inherited) = match stack.pop() {
                Some(t) => t,
                None => {
                    break;
                },
            };
            let obj_id = current_ref.id();
            proof {
                assert(current_ref == stack_before[stack_before.len() - 1].0);
                if visited@.len() > 0 && cyc && obj_id != root_id {
                    let j = choose|j: int| 0 <= j < stack_before.len() && (#[trigger] stack_before[j]).0.spec_id() == root_id;
                    assert(j < stack_before.len() - 1);
                    assert(stack@[j] == stack_before[j]);
                }
            }
            let mut seen = false;
            let mut k: usize = 0;
            while k < visited.len()
                invariant
                    k <= visited@.len(),
                    seen ==> visited@.len() > 0,
                    visited@.len() > 0 && visited@[0] == obj_id && k > 0 ==> seen,
                decreases visited@.len() - k,
            {
                if visited[k] == obj_id {
                    seen = true;
                }
                k = k + 1;
            }
            if seen {
                if !self.tolerant {
                    return Err(AstError::ParseError(object_message("Cycle detected in page tree at object ", &obj_id)));
                }
                let res = self.note(
                    Some(obj_id),
                    "page_tree_cycle",
                    "skipped_cyclic_page_tree",
                    "Cycle detected in page tree; branch skipped",
                );
                proof {
                    lemma_structure_trans(&start, &round, self);
                }
                res?;
                continue;
            }
            let ghost first = visited@.len() == 0;
            proof {
                if first {
                    assert(stack_before.len() == 1);
                    assert(current_ref == *pages_ref);
                    assert(obj_id == current_ref.spec_id());
                    assert(obj_id == root_id);
                }
            }
            visited.push(obj_id);
            let res = self.load_object(&obj_id);
            proof {
                lemma_structure_of_load(&round, self);
                lemma_structure_trans(&start, &round, self);
            }
            let pages_value = res?;
            proof {
                lemma_value_view(&pages_value);
                if first && cyc {
                    assert(round == start);
                    match start.cached(root_id) {
                        Some(c) => {},
                        None => {
                            match start.document.xref.entries.spec_get(root_id) {
                                Some(XRefEntry::InUse { offset, .. }) => {
                                    assert(loaded_from(
                                        start.data@,
                                        offset as int,
                                        start.limits.max_depth as int,
                                        self,
                                        (root_id, pages_value.sv()),
                                    ));
                                },
                                _ => {},
                            }
                        },
                    }
                    assert(lists_kid(pages_value.sv(), *pages_ref));
                }
            }
            let ghost loaded = *self;
            let pages_dict = match &pages_value {
                PdfValue::Dictionary(d) => d,
                other => {
                    let m = concat2("Page tree node must be a dictionary, got ", other.kind_name());
                    if !self.tolerant {
                        return Err(AstError::ParseError(m));
                    }
                    let res = self.note(Some(obj_id), "invalid_page_tree_node", "skipped_invalid_page_tree_node", m.as_str());
                    proof {
                        lemma_structure_trans(&start, &loaded, self);
                        lemma_structure_trans(&round, &loaded, self);
                    }
                    res?;
                    continue;
                },
            };
            let res = self.resolve_resource_dictionary(pages_dict.get("Resources"));
            proof {
                lemma_structure_of_load(&loaded, self);
                lemma_structure_trans(&start, &loaded, self);
                lemma_structure_trans(&round, &loaded, self);
            }
            let own = res?;
            let ghost resolved = *self;
            let effective = Self::merge_resource_dictionaries(&inherited, &own);
            let declared_type = name_entry(pages_dict, "Type");
            let node_type = if name_is(declared_type, "Pages") {
                NodeType::Pages
            } else if name_is(declared_type, "Page") {
                NodeType::Page
            } else {
                NodeType::Unknown
            };
            if node_type == NodeType::Unknown {
                let mut m = object_message("Page tree node ", &obj_id);
                m.append(" has missing or unknown /Type");
                if !self.tolerant {
                    return Err(AstError::ParseError(m));
                }
                let res = self.note(Some(obj_id), "invalid_page_tree_type", "skipped_invalid_page_tree_node", m.as_str());
                proof {
                    lemma_structure_trans(&start, &resolved, self);
                    lemma_structure_trans(&round, &resolved, self);
                }
                res?;
                continue;
            }
            let is_page = node_type == NodeType::Page;
            let has_inherited = !inherited.is_empty();
            let mut node_dict = pages_dict.clone_dict();
            let ghost cloned_view = node_dict.sv_entries();
            if has_inherited {
                let rv = PdfValue::Dictionary(effective.clone_dict());
                let ghost rsv = rv.sv();
                node_dict.insert("Resources", rv);
                proof {
                    crate::types::lemma_insert_get(
                        cloned_view,
                        crate::types::name_text("Resources"@),
                        rsv,
                        crate::types::name_text("Type"@),
                    );
                }
            }
            let ghost node_dict_view = node_dict.sv_entries();
            proof {
                reveal_strlit("Type");
                reveal_strlit("Resources");
                assert(crate::types::name_text("Type"@).len() == 5);
                assert(crate::types::name_text("Resources"@).len() == 10);
            }
            let node_value = PdfValue::Dictionary(node_dict);
            proof {
                lemma_value_view(&node_value);
            }
            let res = self.add_to_ast(node_value, node_type);
            proof {
                lemma_structure_of_growth(&resolved, self);
                lemma_structure_trans(&start, &resolved, self);
            }
            let pages_id = res?;
            let ghost added = *self;
            proof {
                assert(self.document.ast.next_id_spec() > round.document.ast.next_id_spec());
                reveal_strlit("Type");
                reveal_strlit("Resources");
                reveal_strlit("Pages");
                reveal_strlit("Page");
                reveal_strlit("Catalog");

                assert("Pages"@.len() != "Catalog"@.len() && "Page"@.len() != "Catalog"@.len() && "Page"@.len()
                    != "Pages"@.len());
                assert(spec_name_entry(node_dict_view, "Type"@) == spec_name_entry(pages_dict.sv_entries(), "Type"@));
                assert(self.document.ast.node(pages_id) matches Some(x) && (x.node_type == NodeType::Pages
                    || x.node_type == NodeType::Page));
                assert(!start.document.ast.has_node(pages_id));
                assert(page_node_added(start.document.ast, self.document.ast));
            }
            self.document.object_nodes.insert(obj_id, pages_id);
            let res = self.add_edge(current_parent, pages_id, EdgeType::Child);
            proof {
                lemma_structure_of_growth(&added, self);
                lemma_structure_trans(&start, &added, self);
                lemma_structure_trans(&added, &added, self);
            }
            res?;
            if has_inherited {
                let ghost before = *self;
                self.set_property(pages_id, "has_inherited_resources", "true");
                proof {
                    lemma_structure_trans(&start, &before, self);
                    lemma_structure_trans(&added, &before, self);
                }
            }
            let kids_entry = pages_dict.get("Kids");
            proof {
                if kids_entry is Some {
                    lemma_value_view(kids_entry->Some_0);
                }
                if first && cyc {
                    assert(pages_value.sv() == SpecValue::Dictionary(pages_dict.sv_entries()));
                    assert(kids_entry is Some && kids_entry->Some_0 is Array);
                }
            }
            match kids_entry {
                Some(kids_value) => {
                    match kids_value {
                        PdfValue::Array(kids) => {
                            let mut i: usize = 0;
                            proof {
                                lemma_array_view(kids);
                            }
                            while i < kids.len()
                                invariant
                                    i <= kids@.len(),
                                    crate::types::array_sv(kids).len() == kids@.len(),
                                    forall|q: int| 0 <= q < kids@.len() ==> #[trigger] crate::types::array_sv(kids)[q] == kids@[q].sv(),
                                    root_id == pages_ref.spec_id(),
                                    visited@.len() > 0 && cyc && !first ==> exists|j: int|
                                        0 <= j < stack@.len() && (#[trigger] stack@[j]).0.spec_id() == root_id,
                                    (exists|q: int| 0 <= q < i && #[trigger] crate::types::array_sv(kids)[q] == SpecValue::Reference(
                                        pages_ref.object_number,
                                        pages_ref.generation_number,
                                    )) ==> exists|j: int| 0 <= j < stack@.len() && (#[trigger] stack@[j]).0.spec_id() == root_id,
                                    start == *old(self),
                                    structure_frame(&start, self),
                                    structure_frame(&added, self),
                                    self.document.catalog == start.document.catalog,
                                decreases kids@.len() - i,
                            {
                                proof {
                                    lemma_value_view(&kids@[i as int]);
                                }
                                let ghost sb = stack@;
                                match kids[i].as_reference() {
                                    Some(kid_ref) => {
                                        stack.push((kid_ref, pages_id, effective.clone_dict()));
                                        proof {
                                            assert forall|j: int| 0 <= j < sb.len() implies stack@[j] == sb[j] by {}
                                            assert(stack@[sb.len() as int].0 == kid_ref);
                                            let rr = SpecValue::Reference(pages_ref.object_number, pages_ref.generation_number);
                                            if exists|q: int| 0 <= q < i + 1 && #[trigger] crate::types::array_sv(kids)[q] == rr {
                                                if crate::types::array_sv(kids)[i as int] == rr {
                                                    assert(kid_ref.spec_id() == root_id);
                                                    assert((stack@[sb.len() as int]).0.spec_id() == root_id);
                                                } else {
                                                    let q = choose|q: int| 0 <= q < i + 1 && #[trigger] crate::types::array_sv(kids)[q] == rr;
                                                    assert(q < i);
                                                    let j = choose|j: int| 0 <= j < sb.len() && (#[trigger] sb[j]).0.spec_id() == root_id;
                                                    assert(stack@[j] == sb[j]);
                                                }
                                            }
                                            if visited@.len() > 0 && cyc && !first {
                                                let j = choose|j: int| 0 <= j < sb.len() && (#[trigger] sb[j]).0.spec_id() == root_id;
                                                assert(stack@[j] == sb[j]);
                                            }
                                        }
                                    },
                                    None => {
                                        let m = concat2(
                                            "Page tree /Kids entry must be a reference, got ",
                                            kids[i].kind_name(),
                                        );
                                        if !self.tolerant {
                                            return Err(AstError::ParseError(m));
                                        }
                                        let ghost before = *self;
                                        let res = self.note(
                                            Some(obj_id),
                                            "invalid_page_tree_kid",
                                            "skipped_invalid_page_tree_kid",
                                            m.as_str(),
                                        );
                                        proof {
                                            lemma_structure_trans(&start, &before, self);
                                            lemma_structure_trans(&added, &before, self);
                                        }
                                        res?;
                                    },
                                }
                                i = i + 1;
                            }
                            proof {
                                if first && cyc {
                                    let rr = SpecValue::Reference(pages_ref.object_number, pages_ref.generation_number);
                                    assert(crate::types::array_sv(kids).contains(rr));
                                    let q = choose|q: int| 0 <= q < crate::types::array_sv(kids).len() && crate::types::array_sv(kids)[q] == rr;
                                    assert(crate::types::array_sv(kids)[q] == rr);
                                }
                            }
                        },
                        other => {
                            let m = concat2("Page tree /Kids must be an array, got ", other.kind_name());
                            if !self.tolerant {
                                return Err(AstError::ParseError(m));
                            }
                            let ghost before = *self;
                            let res = self.note(
                                Some(obj_id),
                                "invalid_page_tree_kids",
                                "skipped_invalid_page_tree_kids",
                                m.as_str(),
                            );
                            proof {
                                lemma_structure_trans(&start, &before, self);
                                lemma_structure_trans(&added, &before, self);
                            }
                            res?;
                        },
                    }
                },
                None => {},
            }
            if is_page {
                match pages_dict.get("AA") {
                    Some(aa) => {
                        let ghost before = *self;
                        let res = self.parse_additional_actions(aa, pages_id);
                        proof {
                            lemma_structure_trans(&start, &before, self);
                            lemma_structure_trans(&added, &before, self);
                        }
                        res?;
                    },
                    None => {},
                }
                let ghost before = *self;
                let res = self.parse_page_annotations(pages_dict, pages_id);
                proof {
                    lemma_structure_trans(&start, &before, self);
                    lemma_structure_trans(&added, &before, self);
                }
                res?;
            }
            proof {
                lemma_page_node_kept(start.document.ast, added.document.ast, self.document.ast);
            }
        }
        Ok(())
    }
}

impl PdfFileParser {
    /// Loads a referenced trailer entry as a node and registers it for its
    /// object; `None` when the entry is no reference.
    fn add_trailer_object(&mut self, key: &str, node_type: NodeType) -> (r: Result<Option<NodeId>, AstError>)
        ensures
            structure_frame(old(self), final(self)),
            final(self).document.catalog == old(self).document.catalog,
            r matches Ok(Some(id)) ==> final(self).document.ast.has_node(id),
            !(old(self).document.trailer.spec_get(key@) matches Some(SpecValue::Reference(..))) ==> r == Ok::<
                Option<NodeId>,
                AstError,
            >(None) && *final(self) == *old(self),
            r matches Ok(Some(id)) ==> !old(self).document.ast.has_node(id) && final(self).document.ast.next_id_spec()
                == old(self).document.ast.next_id_spec() + 1,
            (old(self).document.trailer.spec_get(key@) matches Some(SpecValue::Reference(..)) && r is Ok) ==> r matches Ok(
                Some(_),
            ),
            final(self).document.info == old(self).document.info,
    {
        let ghost start = *self;
        let id = match self.document.trailer.get(key) {
            Some(v) => {
                proof {
                    lemma_value_view(v);
                }
                match v {
                    PdfValue::Reference(reference) => reference.id(),
                    _ => return Ok(None),
                }
            },
            None => return Ok(None),
        };
        let res = self.load_object(&id);
        proof {
            lemma_structure_of_load(&start, self);
        }
        let value = res?;
        let ghost loaded = *self;
        let res = self.add_to_ast(value, node_type);
        proof {
            lemma_structure_of_growth(&loaded, self);
            lemma_structure_trans(&start, &loaded, self);
        }
        let node_id = res?;
        self.document.object_nodes.insert(id, node_id);
        Ok(Some(node_id))
    }

    /// The document structure from the trailer: the catalog (`/Root`, which
    /// must refer to a dictionary) with what hangs off it and its page
    /// tree, the `/Info` dictionary and the `/Encrypt` dictionary.  A
    /// missing or direct `/Root` fails in strict mode and is skipped with a
    /// diagnostic in tolerant modes.
    pub fn parse_document_structure(&mut self) -> (r: Result<(), AstError>)
        ensures
            structure_frame(old(self), final(self)),
            !old(self).tolerant && old(self).document.trailer.spec_get("Root"@) is None ==> (r matches Err(e)
                && e.message() == "Trailer does not contain a /Root reference"@),
            !old(self).tolerant && (old(self).document.trailer.spec_get("Root"@) matches Some(v) && !(
            v is Reference)) ==> (r matches Err(e) && e.message() == "Trailer /Root is not an indirect reference"@),
            final(self).document.catalog != old(self).document.catalog ==> (final(self).document.catalog matches Some(
                c,
            ) && final(self).document.ast.has_node(c)),
            (!old(self).tolerant && r is Ok && old(self).document.trailer.spec_get("Root"@) matches Some(
                SpecValue::Reference(..),
            )) ==> catalog_added(old(self).document.ast, final(self).document.ast, final(self).document.catalog),
            (r is Ok && old(self).document.trailer.spec_get("Info"@) matches Some(SpecValue::Reference(..)))
                ==> (final(self).document.info matches Some(i) && !old(self).document.ast.has_node(i)
                && final(self).document.ast.has_node(i)),
    {
        let ghost start = *self;
        let root_id = match self.document.trailer.get("Root") {
            Some(v) => {
                proof {
                    lemma_value_view(v);
                }
                match v {
                    PdfValue::Reference(reference) => Some(reference.id()),
                    _ => {
                        if !self.tolerant {
                            return Err(error("Trailer /Root is not an indirect reference"));
                        }
                        self.note(
                            None,
                            "invalid_root",
                            "skipped_catalog",
                            "Trailer /Root is not an indirect reference",
                        )?;
                        None
                    },
                }
            },
            None => {
                if !self.tolerant {
                    return Err(error("Trailer does not contain a /Root reference"));
                }
                self.note(None, "missing_root", "skipped_catalog", "Trailer does not contain a /Root reference")?;
                None
            },
        };
        let ghost checked = *self;
        match root_id {
            Some(id) => {
                let res = self.load_object(&id);
                proof {
                    lemma_structure_of_load(&checked, self);
                    lemma_structure_trans(&start, &checked, self);
                }
                let catalog_value = res?;
                let ghost loaded = *self;
                let is_dict = match &catalog_value {
                    PdfValue::Dictionary(_) => true,
                    _ => false,
                };
                if is_dict {
                    let res = self.add_to_ast(catalog_value, NodeType::Catalog);
                    proof {
                        lemma_structure_of_growth(&loaded, self);
                        lemma_structure_trans(&start, &loaded, self);
                    }
                    let catalog_id = res?;
                    self.document.catalog = Some(catalog_id);
                    self.document.object_nodes.insert(id, catalog_id);
                    let ghost cataloged = *self;
                    proof {
                        assert(catalog_added(start.document.ast, self.document.ast, self.document.catalog));
                    }
                    let res = self.parse_catalog_references(catalog_id);
                    proof {
                        lemma_structure_trans(&start, &cataloged, self);
                        lemma_structure_trans(&cataloged, &cataloged, self);
                    }
                    res?;
                    let pages_ref = match self.document.ast.get_node(catalog_id) {
                        Some(node) => match node.as_dict() {
                            Some(d) => match d.get("Pages") {
                                Some(PdfValue::Reference(r)) => Some(*r),
                                _ => None,
                            },
                            None => None,
                        },
                        None => None,
                    };
                    match pages_ref {
                        Some(pr) => {
                            let ghost before = *self;
                            let res = self.parse_page_tree(&pr, catalog_id);
                            proof {
                                lemma_structure_trans(&start, &before, self);
                                lemma_structure_trans(&cataloged, &before, self);
                            }
                            res?;
                        },
                        None => {},
                    }
                    proof {
                        lemma_catalog_kept(start.document.ast, cataloged.document.ast, self.document.ast, self.document.catalog);
                    }
                } else {
                    if !self.tolerant {
                        return Err(error("Trailer /Root does not resolve to a dictionary"));
                    }
                    let res = self.note(
                        Some(id),
                        "invalid_catalog",
                        "skipped_catalog",
                        "Trailer /Root does not resolve to a dictionary",
                    );
                    proof {
                        lemma_structure_trans(&start, &loaded, self);
                    }
                    res?;
                }
            },
            None => {},
        }
        let ghost before_info = *self;
        let res = self.add_trailer_object("Info", NodeType::Metadata);
        proof {
            lemma_structure_trans(&start, &before_info, self);
            if catalog_added(start.document.ast, before_info.document.ast, before_info.document.catalog) {
                lemma_catalog_kept(start.document.ast, before_info.document.ast, self.document.ast, self.document.catalog);
            }
        }
        match res? {
            Some(info_id) => {
                self.document.info = Some(info_id);
                proof {
                    if start.document.ast.has_node(info_id) {
                        assert(before_info.document.ast.has_node(info_id));
                    }
                }
            },
            None => {},
        }
        let ghost before_encrypt = *self;
        let res = self.add_trailer_object("Encrypt", NodeType::Encrypt);
        proof {
            lemma_structure_trans(&start, &before_encrypt, self);
            if catalog_added(start.document.ast, before_encrypt.document.ast, before_encrypt.document.catalog) {
                lemma_catalog_kept(start.document.ast, before_encrypt.document.ast, self.document.ast, self.document.catalog);
            }
            if let Some(i) = before_encrypt.document.info {
                if !start.document.ast.has_node(i) && before_encrypt.document.ast.has_node(i) {
                    assert(self.document.ast.has_node(i));
                }
            }
        }
        res?;
        Ok(())
    }

    /// Reads the whole document: the linearization dictionary, the
    /// cross-reference chain (or, in tolerant modes when it cannot be
    /// found, a scan for objects), the object offsets and the document
    /// structure.
    pub fn parse(self) -> (r: Result<PdfDocument, AstError>)
        ensures
            !self.tolerant ==> match r {
                Ok(d) => (d.trailer.spec_get("Root"@) matches Some(SpecValue::Reference(..))) ==> (d.catalog matches Some(
                    c,
                ) && d.ast.has_node(c)),
                Err(_) => true,
            },
    {
        let mut parser = self;
        match parser.limits.budget.check() {
            Ok(()) => {},
            Err(e) => return Err(AstError::ParseError(e.to_string())),
        }
        parser.check_linearization()?;
        match parser.locate_xref() {
            Ok(()) => {
                parser.parse_xref_chain()?;
            },
            Err(err) => {
                if !parser.tolerant {
                    return Err(err);
                }
                parser.recover_xref_by_scan()?;
            },
        }
        parser.refresh_object_offsets()?;
        let ghost before_structure = parser;
        parser.parse_document_structure()?;
        let ghost structured = parser;
        parser.resolve_all_references()?;
        proof {
            if !parser.tolerant && parser.document.trailer.spec_get("Root"@) matches Some(SpecValue::Reference(..)) {
                assert(catalog_added(before_structure.document.ast, structured.document.ast, structured.document.catalog));
                let c = structured.document.catalog->Some_0;
                assert(structured.document.ast.has_node(c));
            }
        }
        Ok(parser.document)
    }

    /// Resolves the references of the graph against the input: references
    /// that cannot be resolved fail in strict mode and are let go in
    /// tolerant modes.
    pub fn resolve_all_references(&mut self) -> (r: Result<(), AstError>)
        ensures
            old(self).same_config(final(self)),
            final(self).document.catalog == old(self).document.catalog,
            final(self).document.trailer == old(self).document.trailer,
            crate::ast::nodes_remain(old(self).document.ast, final(self).document.ast),
    {
        let buffer = self.read_limited_input()?;
        match self.limits.budget.consume_decoded(buffer.len() as u64) {
            Ok(()) => {},
            Err(e) => return Err(AstError::ParseError(e.to_string())),
        }
        let mut resolver = crate::reference_resolver::ReferenceResolver::from_document(
            buffer,
            &self.document,
            self.tolerant,
            self.limits.clone(),
        );
        match resolver.resolve_references(&mut self.document.ast) {
            Ok(()) => Ok(()),
            Err(e) => {
                if self.tolerant {
                    Ok(())
                } else {
                    Err(AstError::ParseError(e))
                }
            },
        }
    }
}

impl PdfFileParser {
    /// The section at the offset `startxref` gave, read alone: a table or a
    /// stream whose entries go into the document and whose trailer (or
    /// dictionary) becomes the document's.
    pub fn parse_xref_and_trailer(&mut self) -> (r: Result<(), AstError>)
        ensures
            xref_frame(old(self), final(self)),
            old(self).xref_offset is None ==> (r matches Err(e) && e.message() == "No xref offset"@),
    {
        let offset = match self.xref_offset {
            Some(o) => o,
            None => return Err(error("No xref offset")),
        };
        let buffer = self.read_xref_buffer(offset)?;
        if starts_with_xref_keyword(buffer.as_slice()) {
            self.parse_xref_table(buffer.as_slice())
        } else {
            self.parse_xref_stream(buffer.as_slice())
        }
    }

    /// A classic table: its entries go into the document, and the
    /// dictionary after `trailer` becomes the document's trailer.  Bytes
    /// that are no table leave the document as it was.
    pub fn parse_xref_table(&mut self, data: &[u8]) -> (r: Result<(), AstError>)
        ensures
            xref_frame(old(self), final(self)),
            !crate::xref::starts_with_xref(data@) ==> (r is Ok && final(self).document.xref == old(self).document.xref
                && final(self).document.trailer == old(self).document.trailer),
    {
        let (entries, end) = match crate::xref::parse_xref_table_with_budget(data, &self.limits.budget) {
            Ok(x) => x,
            Err(crate::xref::XRefTableError::TooLarge) => {
                return Err(error("XRef table exceeds the shared object budget"));
            },
            Err(_) => return Ok(()),
        };
        let mut i: usize = 0;
        while i < entries.len()
            invariant
                i <= entries@.len(),
                xref_frame(old(self), self),
            decreases entries@.len() - i,
        {
            let (id, e) = entries[i];
            self.document.xref.entries.insert(id, e);
            i = i + 1;
        }
        let n = data.len();
        let rest = skip_ascii_ws(data, end);
        let trailer_kw: [u8; 7] = [116, 114, 97, 105, 108, 101, 114];
        proof {
            assert(trailer_kw@.len() == 7);
            assert(data@.len() == n);
        }
        if bytes_at(data, rest, trailer_kw.as_slice()) {
            let start = skip_ascii_ws(data, rest + 7);
            match parse_value(data, start, 0, self.limits.max_depth, &self.limits.budget) {
                Ok((PdfValue::Dictionary(dict), _)) => {
                    self.document.trailer = dict;
                },
                _ => {},
            }
        }
        Ok(())
    }

    /// A cross-reference stream: its decoded rows go into the document and
    /// its dictionary becomes the trailer.  Data that cannot be decoded
    /// fails in strict mode and leaves the entries alone, with a
    /// diagnostic, in tolerant modes.
    pub fn parse_xref_stream(&mut self, data: &[u8]) -> (r: Result<(), AstError>)
        ensures
            xref_frame(old(self), final(self)),
            crate::object_parser::spec_object_header(data@, 0) is None ==> r is Err && *final(self) == *old(self),
    {
        let ((obj_id, value), _) = match parse_indirect_object(data, 0, self.limits.max_depth, &self.limits.budget, None) {
            Ok(x) => x,
            Err(e) => return Err(AstError::ParseError(concat2("Failed to parse xref stream: ", e.as_str()))),
        };
        let stream = match value {
            PdfValue::Stream(s) => s,
            _ => return Ok(()),
        };
        match stream.raw_data() {
            Some(raw) => {
                let raw_len = raw.len() as u64;
                match crate::xref::decode_unfiltered_stream(&stream, &self.limits.budget) {
                    Ok(decoded) => {
                        self.parse_xref_stream_data(decoded.as_slice(), &stream.dict)?;
                    },
                    Err(m) => {
                        if !self.tolerant {
                            return Err(AstError::ParseError(concat2("Failed to decode xref stream: ", m.as_str())));
                        }
                        let offset = self.xref_offset;
                        self.record_diagnostic(
                            Some(obj_id),
                            offset,
                            "xref_stream_decode",
                            "continued with empty xref entries",
                            90,
                            raw_len,
                            m.as_str(),
                        )?;
                    },
                }
            },
            None => {},
        }
        self.document.trailer = stream.dict.clone_dict();
        Ok(())
    }

    /// The rows of a decoded cross-reference stream, into the document.
    pub fn parse_xref_stream_data(&mut self, data: &[u8], dict: &PdfDictionary) -> (r: Result<(), AstError>)
        ensures
            xref_frame(old(self), final(self)),
            spec_field_widths(dict) matches Err(m) ==> (r matches Err(e) && e.message() == m),
    {
        let widths = Self::extract_xref_field_widths(dict)?;
        let index = Self::extract_xref_index_ranges(dict)?;
        let entry_size = widths[0] + widths[1] + widths[2];
        let entries = self.parse_xref_entries_from_data(data, &widths, entry_size, index.as_slice())?;
        let mut i: usize = 0;
        while i < entries.len()
            invariant
                i <= entries@.len(),
                xref_frame(old(self), self),
            decreases entries@.len() - i,
        {
            let (id, e) = entries[i];
            self.document.xref.entries.insert(id, e);
            i = i + 1;
        }
        Ok(())
    }
}

} // verus!
