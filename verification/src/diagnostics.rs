//! A document's health: what its bytes and its graph show of damage, the
//! signs of corruption found, what to do about them, and an overall verdict.
use crate::ast::{AstNode, NodeId, NodeType};
use crate::document::PdfDocument;
use crate::recovery::{
    bytes_end_with, bytes_start_with, count_windows, word_at, CheckStatus, CorruptionType,
    DiagnosticStatistics, DiagnosticsConfig, DocumentHealth, ErrorSeverity, HeaderChecker,
    IntegrityChecker, Priority, RecommendedAction, ReferenceChecker, StreamChecker,
    StructureChecker,
};
use crate::limits::{duration_millis, instant_elapsed, instant_now};
use crate::text::{decimal, usize_text};
use crate::types::{lemma_refs_seq_add, plain_refs, refs_seq, PdfReference};
use vstd::prelude::*;

verus! {

pub open spec fn stream_word() -> Seq<u8> {
    seq![115u8, 116u8, 114u8, 101u8, 97u8, 109u8]
}

pub open spec fn endstream_word() -> Seq<u8> {
    seq![101u8, 110u8, 100u8, 115u8, 116u8, 114u8, 101u8, 97u8, 109u8]
}

/// Whether `word` stands in `data` at `at`.
pub open spec fn window_at(data: Seq<u8>, word: Seq<u8>, at: int) -> bool {
    0 <= at && at + word.len() <= data.len() && data.subrange(at, at + word.len()) == word
}

/// Whether `word` stands anywhere in `data`.
pub open spec fn has_window(data: Seq<u8>, word: Seq<u8>) -> bool {
    exists|i: int| window_at(data, word, i)
}

/// The first place at or after `from` where `word` stands in `data`.
pub open spec fn first_window_from(data: Seq<u8>, word: Seq<u8>, from: nat) -> Option<nat>
    decreases data.len() + 1 - from,
{
    if from + word.len() > data.len() {
        None
    } else if data.subrange(from as int, (from + word.len()) as int) == word {
        Some(from)
    } else {
        first_window_from(data, word, from + 1)
    }
}

pub proof fn lemma_first_window_bounds(data: Seq<u8>, word: Seq<u8>, from: nat)
    ensures
        first_window_from(data, word, from) matches Some(i) ==> from <= i && window_at(data, word, i as int),
        first_window_from(data, word, from) is None ==> forall|j: int|
            from <= j ==> !window_at(data, word, j),
    decreases data.len() + 1 - from,
{
    if from + word.len() > data.len() {
    } else if data.subrange(from as int, (from + word.len()) as int) == word {
    } else {
        lemma_first_window_bounds(data, word, from + 1);
        assert forall|j: int| from <= j && first_window_from(data, word, from) is None implies !window_at(
            data,
            word,
            j,
        ) by {
            if j == from {
            }
        }
    }
}

/// Where streams lie in `data`, looking from `pos` on: each runs from a
/// `stream` keyword to the first `endstream` after it, and the search goes
/// on from that `endstream`; a `stream` with no `endstream` after it is
/// passed over.
pub open spec fn stream_spans(data: Seq<u8>, pos: nat) -> Seq<(nat, nat)>
    decreases data.len() - pos,
{
    match first_window_from(data, stream_word(), pos) {
        None => Seq::empty(),
        Some(start) => {
            proof {
                lemma_first_window_bounds(data, stream_word(), pos);
                lemma_first_window_bounds(data, endstream_word(), start);
            }
            match first_window_from(data, endstream_word(), start) {
                Some(end) => {
                    proof {
                        assert(data.subrange(start as int, (start + 6) as int)[0] == 115u8);
                        assert(data.subrange(end as int, (end + 9) as int)[0] == 101u8);
                    }
                    seq![(start, end)] + stream_spans(data, end)
                },
                None => stream_spans(data, start + 6),
            }
        },
    }
}

/// How many bytes of `data[a..b]` are zero.
pub open spec fn zeros_in(data: Seq<u8>, a: int, b: int) -> nat
    decreases b - a,
{
    if b <= a {
        0
    } else {
        zeros_in(data, a, b - 1) + if data[b - 1] == 0u8 {
            1nat
        } else {
            0nat
        }
    }
}

/// Whether the bytes `data[start..end]`, taken as a stream, look
/// corrupted: they do not begin with `stream`, or do not end with
/// `endstream`, or more than a quarter of the bytes between the two are
/// zero.
pub open spec fn span_corrupted(data: Seq<u8>, start: int, end: int) -> bool {
    ||| !(start + 6 <= end && window_at(data, stream_word(), start))
    ||| !(start + 9 <= end && window_at(data, endstream_word(), end - 9))
    ||| (end - 9 > start + 6 && zeros_in(data, start + 6, end - 9) > (end - start - 15) / 4)
}

/// How many of `spans[0..k]` look corrupted.
pub open spec fn corrupted_count(data: Seq<u8>, spans: Seq<(nat, nat)>, k: int) -> nat
    decreases k,
{
    if k <= 0 {
        0
    } else {
        corrupted_count(data, spans, k - 1) + if span_corrupted(
            data,
            spans[k - 1].0 as int,
            spans[k - 1].1 as int,
        ) {
            1nat
        } else {
            0nat
        }
    }
}

/// The first place at or after `from` where `word` stands in `data`.
fn find_window(data: &[u8], word: &[u8], from: usize) -> (r: Option<usize>)
    requires
        word@.len() > 0,
    ensures
        match r {
            Some(i) => first_window_from(data@, word@, from as nat) == Some(i as nat),
            None => first_window_from(data@, word@, from as nat) is None,
        },
{
    let mut i = from;
    while i < data.len() && word.len() <= data.len() - i
        invariant
            from <= i,
            word@.len() > 0,
            first_window_from(data@, word@, from as nat) == first_window_from(data@, word@, i as nat),
        decreases data@.len() - i,
    {
        if word_at(data, word, i) {
            return Some(i);
        }
        i = i + 1;
    }
    None
}

fn stream_keyword() -> (r: [u8; 6])
    ensures
        r@ == stream_word(),
{
    let w: [u8; 6] = [115, 116, 114, 101, 97, 109];
    proof {
        assert(w@ =~= stream_word());
    }
    w
}

fn endstream_keyword() -> (r: [u8; 9])
    ensures
        r@ == endstream_word(),
{
    let w: [u8; 9] = [101, 110, 100, 115, 116, 114, 101, 97, 109];
    proof {
        assert(w@ =~= endstream_word());
    }
    w
}

pub open spec fn spans_view(v: Seq<(usize, usize)>) -> Seq<(nat, nat)> {
    v.map_values(|p: (usize, usize)| (p.0 as nat, p.1 as nat))
}

/// Where streams lie in `data`, in the order of `stream_spans`.
pub fn find_streams_in_data(data: &[u8]) -> (r: Vec<(usize, usize)>)
    ensures
        spans_view(r@) == stream_spans(data@, 0),
        forall|k: int| 0 <= k < r@.len() ==> (#[trigger] r@[k]).0 <= r@[k].1 <= data@.len(),
{
    let stream = stream_keyword();
    let endstream = endstream_keyword();
    let mut spans: Vec<(usize, usize)> = Vec::new();
    let mut pos: usize = 0;
    while pos < data.len()
        invariant
            pos <= data@.len(),
            stream@ == stream_word(),
            endstream@ == endstream_word(),
            spans_view(spans@) + stream_spans(data@, pos as nat) == stream_spans(data@, 0),
            forall|k: int| 0 <= k < spans@.len() ==> (#[trigger] spans@[k]).0 <= spans@[k].1 <= data@.len(),
        decreases data@.len() - pos,
    {
        proof {
            lemma_first_window_bounds(data@, stream_word(), pos as nat);
        }
        match find_window(data, stream.as_slice(), pos) {
            None => {
                proof {
                    assert(spans_view(spans@) + Seq::<(nat, nat)>::empty() =~= spans_view(spans@));
                }
                return spans;
            },
            Some(start) => {
                proof {
                    lemma_first_window_bounds(data@, endstream_word(), start as nat);
                }
                match find_window(data, endstream.as_slice(), start) {
                    Some(end) => {
                        proof {
                            assert(data@.subrange(start as int, start + 6)[0] == 115u8);
                            assert(data@.subrange(end as int, end + 9)[0] == 101u8);
                            assert(spans_view(spans@.push((start, end))) =~= spans_view(spans@).push(
                                (start as nat, end as nat),
                            ));
                            assert(spans_view(spans@) + stream_spans(data@, pos as nat) =~= spans_view(
                                spans@,
                            ).push((start as nat, end as nat)) + stream_spans(data@, end as nat));
                        }
                        spans.push((start, end));
                        pos = end;
                    },
                    None => {
                        pos = start + 6;
                    },
                }
            },
        }
    }
    proof {
        assert(stream_spans(data@, pos as nat) =~= Seq::<(nat, nat)>::empty());
        assert(spans_view(spans@) + Seq::<(nat, nat)>::empty() =~= spans_view(spans@));
    }
    spans
}

/// Whether the bytes `data[start..end]` look like a corrupted stream.
pub fn is_stream_corrupted(data: &[u8], start: usize, end: usize) -> (r: bool)
    requires
        start <= end <= data@.len(),
    ensures
        r == span_corrupted(data@, start as int, end as int),
{
    let stream = stream_keyword();
    let endstream = endstream_keyword();
    if end - start < 6 || !word_at(data, stream.as_slice(), start) {
        return true;
    }
    if end - start < 9 || !word_at(data, endstream.as_slice(), end - 9) {
        return true;
    }
    let content_start = start + 6;
    let content_end = end - 9;
    if content_end > content_start {
        let mut zeros: usize = 0;
        let mut i = content_start;
        while i < content_end
            invariant
                content_start <= i <= content_end,
                content_end <= data@.len(),
                zeros == zeros_in(data@, content_start as int, i as int),
                zeros <= i - content_start,
            decreases content_end - i,
        {
            if data[i] == 0 {
                zeros = zeros + 1;
            }
            i = i + 1;
        }
        if zeros > (content_end - content_start) / 4 {
            return true;
        }
    }
    false
}

/// Whether a zero byte occurs in `data`.
pub fn contains_zero(data: &[u8]) -> (r: bool)
    ensures
        r == exists|i: int| 0 <= i < data@.len() && data@[i] == 0u8,
{
    let mut i: usize = 0;
    while i < data.len()
        invariant
            i <= data@.len(),
            forall|j: int| 0 <= j < i ==> data@[j] != 0u8,
        decreases data@.len() - i,
    {
        if data[i] == 0 {
            return true;
        }
        i = i + 1;
    }
    false
}

pub open spec fn obj_word() -> Seq<u8> {
    seq![32u8, 111u8, 98u8, 106u8]
}

/// How many object declarations the bytes announce: the occurrences of
/// ` obj`.  Counting in the bytes gives what counting in their lossy UTF-8
/// reading gives, since that reading keeps every ASCII byte and ` obj` never
/// overlaps itself.
pub fn count_object_declarations(data: &[u8]) -> (r: usize)
    ensures
        r == count_windows(data@, obj_word(), data@.len() as int),
{
    let w: [u8; 4] = [32, 111, 98, 106];
    proof {
        assert(w@ =~= obj_word());
    }
    crate::recovery::count_occurrences(data, w.as_slice())
}


/// A share `part / whole`; a whole of zero stands for the full share.
#[derive(Debug, Clone, Copy, PartialEq, Eq, Structural)]
pub struct Fraction {
    pub part: usize,
    pub whole: usize,
}

/// What the structure of a document shows.
#[derive(Debug, Clone, Copy, PartialEq, Eq, Structural)]
pub struct StructureHealth {
    pub has_valid_header: bool,
    pub has_catalog: bool,
    pub has_pages_tree: bool,
    pub has_valid_xref: bool,
    pub has_trailer: bool,
    /// The references that point at something, out of all references.
    pub reference_integrity: Fraction,
    /// The streams that look sound, out of all streams.
    pub stream_integrity: Fraction,
}

impl Default for StructureHealth {
    fn default() -> (r: Self)
        ensures
            r == (StructureHealth {
                has_valid_header: false,
                has_catalog: false,
                has_pages_tree: false,
                has_valid_xref: false,
                has_trailer: false,
                reference_integrity: Fraction { part: 0, whole: 1 },
                stream_integrity: Fraction { part: 0, whole: 1 },
            }),
    {
        StructureHealth {
            has_valid_header: false,
            has_catalog: false,
            has_pages_tree: false,
            has_valid_xref: false,
            has_trailer: false,
            reference_integrity: Fraction { part: 0, whole: 1 },
            stream_integrity: Fraction { part: 0, whole: 1 },
        }
    }
}

/// A sign of corruption.
#[derive(Debug, Clone)]
pub struct CorruptionIndicator {
    pub indicator_type: CorruptionType,
    pub severity: ErrorSeverity,
    pub location: String,
    pub description: String,
    /// How sure the check is of it, in percent.
    pub confidence_percent: u8,
}

/// A corruption indicator as mathematical values.
pub struct IndicatorView {
    pub indicator_type: CorruptionType,
    pub severity: ErrorSeverity,
    pub location: Seq<char>,
    pub description: Seq<char>,
    pub confidence_percent: u8,
}

impl View for CorruptionIndicator {
    type V = IndicatorView;

    open spec fn view(&self) -> IndicatorView {
        IndicatorView {
            indicator_type: self.indicator_type,
            severity: self.severity,
            location: self.location@,
            description: self.description@,
            confidence_percent: self.confidence_percent,
        }
    }
}

/// A suggestion for mending what was found.
#[derive(Debug, Clone)]
pub struct Recommendation {
    pub priority: Priority,
    pub action: RecommendedAction,
    pub description: String,
    /// How likely the action is to succeed, in percent.
    pub success_percent: u8,
}

/// A recommendation as mathematical values.
pub struct RecommendationView {
    pub priority: Priority,
    pub action: RecommendedAction,
    pub description: Seq<char>,
    pub success_percent: u8,
}

impl View for Recommendation {
    type V = RecommendationView;

    open spec fn view(&self) -> RecommendationView {
        RecommendationView {
            priority: self.priority,
            action: self.action,
            description: self.description@,
            success_percent: self.success_percent,
        }
    }
}

/// What one health checker found, with the figures it measured.
#[derive(Debug, Clone)]
pub struct Finding {
    pub check_name: String,
    pub status: CheckStatus,
    pub details: String,
    pub metrics: Vec<(String, u64)>,
}

/// A finding as mathematical values.
pub struct FindingView {
    pub check_name: Seq<char>,
    pub status: CheckStatus,
    pub details: Seq<char>,
    pub metrics: Seq<(Seq<char>, u64)>,
}

pub open spec fn metrics_view(m: Seq<(String, u64)>) -> Seq<(Seq<char>, u64)> {
    m.map_values(|p: (String, u64)| (p.0@, p.1))
}

impl View for Finding {
    type V = FindingView;

    open spec fn view(&self) -> FindingView {
        FindingView {
            check_name: self.check_name@,
            status: self.status,
            details: self.details@,
            metrics: metrics_view(self.metrics@),
        }
    }
}

pub open spec fn header_word() -> Seq<u8> {
    seq![37u8, 80u8, 68u8, 70u8, 45u8]
}

pub open spec fn eof_word() -> Seq<u8> {
    seq![37u8, 37u8, 69u8, 79u8, 70u8]
}

pub open spec fn xref_word() -> Seq<u8> {
    seq![120u8, 114u8, 101u8, 102u8]
}

pub open spec fn trailer_word() -> Seq<u8> {
    seq![116u8, 114u8, 97u8, 105u8, 108u8, 101u8, 114u8]
}

pub open spec fn bool_text(b: bool) -> Seq<char> {
    if b {
        "true"@
    } else {
        "false"@
    }
}

/// Whether a node of type `t` is among `nodes`.
pub open spec fn has_node_type(nodes: Seq<AstNode>, t: NodeType) -> bool {
    exists|i: int| 0 <= i < nodes.len() && nodes[i].node_type == t
}

/// The plain references of the values of `nodes[0..k]`, node by node.
pub open spec fn nodes_refs(nodes: Seq<AstNode>, k: int) -> Seq<(u32, u16)>
    decreases k,
{
    if k <= 0 {
        Seq::empty()
    } else {
        nodes_refs(nodes, k - 1) + plain_refs(nodes[k - 1].value.sv())
    }
}

/// How many references the nodes' values hold.
pub open spec fn total_refs(nodes: Seq<AstNode>) -> nat {
    nodes_refs(nodes, nodes.len() as int).len()
}

/// The references that point nowhere.  A reference is taken to exist when
/// the graph has any node at all.
pub open spec fn broken_refs(nodes: Seq<AstNode>) -> nat {
    if nodes.len() > 0 {
        0
    } else {
        total_refs(nodes)
    }
}

/// What the header checker finds.
pub open spec fn header_finding(data: Seq<u8>) -> FindingView {
    let ok = bytes_start_with(data, header_word());
    FindingView {
        check_name: "Header Validation"@,
        status: if ok {
            CheckStatus::Passed
        } else {
            CheckStatus::Failed
        },
        details: if ok {
            "Valid PDF header found"@
        } else {
            "Missing or invalid PDF header"@
        },
        metrics: seq![("has_header"@, if ok { 1u64 } else { 0u64 })],
    }
}

/// What the structure checker finds.
pub open spec fn structure_finding(has_root: bool, node_count: nat) -> FindingView {
    FindingView {
        check_name: "Structure Validation"@,
        status: if has_root && node_count > 0 {
            CheckStatus::Passed
        } else if has_root {
            CheckStatus::Warning
        } else {
            CheckStatus::Failed
        },
        details: "Document has "@ + decimal(node_count) + " nodes, root: "@ + bool_text(has_root),
        metrics: seq![("has_root"@, if has_root { 1u64 } else { 0u64 }), ("node_count"@, node_count as u64)],
    }
}

/// What the reference checker finds.
pub open spec fn reference_finding(node_count: nat) -> FindingView {
    FindingView {
        check_name: "Reference Validation"@,
        status: CheckStatus::Passed,
        details: "Reference integrity check completed"@,
        metrics: seq![("total_nodes"@, node_count as u64)],
    }
}

/// What the stream checker finds.
pub open spec fn stream_finding(data: Seq<u8>) -> FindingView {
    let n = count_windows(data, stream_word(), data.len() as int);
    FindingView {
        check_name: "Stream Validation"@,
        status: CheckStatus::Passed,
        details: "Found "@ + decimal(n) + " streams"@,
        metrics: seq![("stream_count"@, n as u64)],
    }
}

/// What the integrity checker finds.
pub open spec fn integrity_finding(data: Seq<u8>) -> FindingView {
    let ok = bytes_end_with(data, eof_word()) || bytes_end_with(data, eof_word().push(10u8));
    FindingView {
        check_name: "Integrity Validation"@,
        status: if ok {
            CheckStatus::Passed
        } else {
            CheckStatus::Warning
        },
        details: if ok {
            "File integrity appears intact"@
        } else {
            "Missing EOF marker - file may be truncated"@
        },
        metrics: seq![("has_eof"@, if ok { 1u64 } else { 0u64 }), ("file_size"@, data.len() as u64)],
    }
}

fn text_of(s: &str) -> (r: String)
    ensures
        r@ == s@,
{
    String::from_str(s)
}

fn metric(name: &str, value: u64) -> (r: (String, u64))
    ensures
        r.0@ == name@,
        r.1 == value,
{
    (String::from_str(name), value)
}

impl HeaderChecker {
    pub fn name(&self) -> (r: &'static str)
        ensures
            r@ == "HeaderChecker"@,
    {
        "HeaderChecker"
    }

    pub fn check_health(&self, _document: &PdfDocument, data: &[u8]) -> (r: Finding)
        ensures
            r@ == header_finding(data@),
    {
        let status = self.status(data);
        let ok = status == CheckStatus::Passed;
        let mut metrics: Vec<(String, u64)> = Vec::new();
        metrics.push(metric("has_header", if ok { 1 } else { 0 }));
        let r = Finding {
            check_name: text_of("Header Validation"),
            status,
            details: if ok {
                text_of("Valid PDF header found")
            } else {
                text_of("Missing or invalid PDF header")
            },
            metrics,
        };
        proof {
            assert(metrics_view(r.metrics@) =~= header_finding(data@).metrics);
        }
        r
    }
}

impl StructureChecker {
    pub fn name(&self) -> (r: &'static str)
        ensures
            r@ == "StructureChecker"@,
    {
        "StructureChecker"
    }

    pub fn check_health(&self, document: &PdfDocument, _data: &[u8]) -> (r: Finding)
        ensures
            r@ == structure_finding(document.ast.root_spec() is Some, document.ast.nodes_spec().len()),
    {
        let has_root = document.ast.get_root().is_some();
        let node_count = document.ast.node_count();
        let mut metrics: Vec<(String, u64)> = Vec::new();
        metrics.push(metric("has_root", if has_root { 1 } else { 0 }));
        metrics.push(metric("node_count", node_count as u64));
        let mut details = text_of("Document has ");
        let count = usize_text(node_count);
        details.append(count.as_str());
        details.append(" nodes, root: ");
        details.append(if has_root { "true" } else { "false" });
        let r = Finding {
            check_name: text_of("Structure Validation"),
            status: self.status(has_root, node_count),
            details,
            metrics,
        };
        proof {
            assert(metrics_view(r.metrics@) =~= structure_finding(has_root, node_count as nat).metrics);
        }
        r
    }
}

impl ReferenceChecker {
    pub fn name(&self) -> (r: &'static str)
        ensures
            r@ == "ReferenceChecker"@,
    {
        "ReferenceChecker"
    }

    pub fn check_health(&self, document: &PdfDocument, _data: &[u8]) -> (r: Finding)
        ensures
            r@ == reference_finding(document.ast.nodes_spec().len()),
    {
        let mut metrics: Vec<(String, u64)> = Vec::new();
        metrics.push(metric("total_nodes", document.ast.node_count() as u64));
        let r = Finding {
            check_name: text_of("Reference Validation"),
            status: CheckStatus::Passed,
            details: text_of("Reference integrity check completed"),
            metrics,
        };
        proof {
            assert(metrics_view(r.metrics@) =~= reference_finding(document.ast.nodes_spec().len()).metrics);
        }
        r
    }
}

impl StreamChecker {
    pub fn name(&self) -> (r: &'static str)
        ensures
            r@ == "StreamChecker"@,
    {
        "StreamChecker"
    }

    pub fn check_health(&self, _document: &PdfDocument, data: &[u8]) -> (r: Finding)
        ensures
            r@ == stream_finding(data@),
    {
        let n = self.stream_count(data);
        proof {
            assert(seq![115u8, 116u8, 114u8, 101u8, 97u8, 109u8] =~= stream_word());
        }
        let mut metrics: Vec<(String, u64)> = Vec::new();
        metrics.push(metric("stream_count", n as u64));
        let mut details = text_of("Found ");
        let count = usize_text(n);
        details.append(count.as_str());
        details.append(" streams");
        let r = Finding { check_name: text_of("Stream Validation"), status: CheckStatus::Passed, details, metrics };
        proof {
            assert(metrics_view(r.metrics@) =~= stream_finding(data@).metrics);
        }
        r
    }
}

impl IntegrityChecker {
    pub fn name(&self) -> (r: &'static str)
        ensures
            r@ == "IntegrityChecker"@,
    {
        "IntegrityChecker"
    }

    pub fn check_health(&self, _document: &PdfDocument, data: &[u8]) -> (r: Finding)
        ensures
            r@ == integrity_finding(data@),
    {
        let ok = self.has_eof(data);
        proof {
            assert(eof_word().push(10u8) =~= seq![37u8, 37u8, 69u8, 79u8, 70u8, 10u8]);
        }
        let mut metrics: Vec<(String, u64)> = Vec::new();
        metrics.push(metric("has_eof", if ok { 1 } else { 0 }));
        metrics.push(metric("file_size", data.len() as u64));
        let r = Finding {
            check_name: text_of("Integrity Validation"),
            status: if ok {
                CheckStatus::Passed
            } else {
                CheckStatus::Warning
            },
            details: if ok {
                text_of("File integrity appears intact")
            } else {
                text_of("Missing EOF marker - file may be truncated")
            },
            metrics,
        };
        proof {
            assert(metrics_view(r.metrics@) =~= integrity_finding(data@).metrics);
        }
        r
    }
}

/// The health checkers a diagnostics run can hold.
#[derive(Debug, Clone, Copy, PartialEq, Eq, Structural)]
pub enum CheckerKind {
    Header,
    Structure,
    Reference,
    Stream,
    Integrity,
}

pub open spec fn checker_name(k: CheckerKind) -> Seq<char> {
    match k {
        CheckerKind::Header => "HeaderChecker"@,
        CheckerKind::Structure => "StructureChecker"@,
        CheckerKind::Reference => "ReferenceChecker"@,
        CheckerKind::Stream => "StreamChecker"@,
        CheckerKind::Integrity => "IntegrityChecker"@,
    }
}

/// What a checker finds in a graph with those nodes and that root, read
/// from those bytes.
pub open spec fn checker_finding(k: CheckerKind, nodes: Seq<AstNode>, root: Option<NodeId>, data: Seq<u8>) -> FindingView {
    match k {
        CheckerKind::Header => header_finding(data),
        CheckerKind::Structure => structure_finding(root is Some, nodes.len()),
        CheckerKind::Reference => reference_finding(nodes.len()),
        CheckerKind::Stream => stream_finding(data),
        CheckerKind::Integrity => integrity_finding(data),
    }
}

/// The checkers a configuration asks for: header, structure and references
/// always, then streams and integrity when they are to be checked.
pub open spec fn checker_list(config: DiagnosticsConfig) -> Seq<CheckerKind> {
    seq![CheckerKind::Header, CheckerKind::Structure, CheckerKind::Reference] + (if config.check_streams {
        seq![CheckerKind::Stream]
    } else {
        Seq::empty()
    }) + (if config.check_integrity {
        seq![CheckerKind::Integrity]
    } else {
        Seq::empty()
    })
}

/// A checker's entry among the findings: its name and what it finds.
pub open spec fn finding_entry(k: CheckerKind, nodes: Seq<AstNode>, root: Option<NodeId>, data: Seq<u8>) -> (
    Seq<char>,
    FindingView,
) {
    (checker_name(k), checker_finding(k, nodes, root, data))
}

impl CheckerKind {
    pub fn name(&self) -> (r: &'static str)
        ensures
            r@ == checker_name(*self),
    {
        match self {
            CheckerKind::Header => HeaderChecker::new().name(),
            CheckerKind::Structure => StructureChecker::new().name(),
            CheckerKind::Reference => ReferenceChecker::new().name(),
            CheckerKind::Stream => StreamChecker::new().name(),
            CheckerKind::Integrity => IntegrityChecker::new().name(),
        }
    }

    pub fn check_health(&self, document: &PdfDocument, data: &[u8]) -> (r: Finding)
        ensures
            r@ == checker_finding(*self, document.ast.nodes_spec(), document.ast.root_spec(), data@),
    {
        match self {
            CheckerKind::Header => HeaderChecker::new().check_health(document, data),
            CheckerKind::Structure => StructureChecker::new().check_health(document, data),
            CheckerKind::Reference => ReferenceChecker::new().check_health(document, data),
            CheckerKind::Stream => StreamChecker::new().check_health(document, data),
            CheckerKind::Integrity => IntegrityChecker::new().check_health(document, data),
        }
    }
}


/// The health of a document, as a diagnostics run judged it.
#[derive(Debug, Clone)]
pub struct HealthReport {
    pub overall_health: DocumentHealth,
    pub structure_health: StructureHealth,
    /// The integrity checks passed, out of those made.
    pub integrity: Fraction,
    pub corruption_indicators: Vec<CorruptionIndicator>,
    pub recommendations: Vec<Recommendation>,
    /// Each checker's finding under the checker's name.
    pub detailed_findings: Vec<(String, Finding)>,
    pub statistics: DiagnosticStatistics,
}

pub open spec fn indicators_view(s: Seq<CorruptionIndicator>) -> Seq<IndicatorView> {
    s.map_values(|i: CorruptionIndicator| i@)
}

pub open spec fn recommendations_view(s: Seq<Recommendation>) -> Seq<RecommendationView> {
    s.map_values(|r: Recommendation| r@)
}

pub open spec fn findings_view(s: Seq<(String, Finding)>) -> Seq<(Seq<char>, FindingView)> {
    s.map_values(|p: (String, Finding)| (p.0@, p.1@))
}

/// The share of sound references: all of them once the graph has a node,
/// and the full share when it has none.
pub open spec fn reference_integrity_spec(nodes: Seq<AstNode>) -> Fraction {
    if nodes.len() == 0 {
        Fraction { part: 0, whole: 0 }
    } else {
        Fraction {
            part: (total_refs(nodes) - broken_refs(nodes)) as usize,
            whole: total_refs(nodes) as usize,
        }
    }
}

/// The share of streams of `data` that look sound; the full share when
/// there is none.
pub open spec fn stream_integrity_spec(data: Seq<u8>) -> Fraction {
    let spans = stream_spans(data, 0);
    if spans.len() == 0 {
        Fraction { part: 0, whole: 0 }
    } else {
        Fraction {
            part: (spans.len() - corrupted_count(data, spans, spans.len() as int)) as usize,
            whole: spans.len() as usize,
        }
    }
}

/// What the structure of a graph with those nodes and that root, read from
/// those bytes, shows.
pub open spec fn structure_spec(nodes: Seq<AstNode>, root: Option<NodeId>, data: Seq<u8>) -> StructureHealth {
    StructureHealth {
        has_valid_header: bytes_start_with(data, header_word()),
        has_catalog: root is Some,
        has_pages_tree: has_node_type(nodes, NodeType::Pages),
        has_valid_xref: has_window(data, xref_word()),
        has_trailer: has_window(data, trailer_word()),
        reference_integrity: reference_integrity_spec(nodes),
        stream_integrity: stream_integrity_spec(data),
    }
}

pub open spec fn expected_objects(data: Seq<u8>) -> nat {
    count_windows(data, obj_word(), data.len() as int)
}

pub open spec fn eof_missing(data: Seq<u8>) -> bool {
    !bytes_end_with(data, eof_word())
}

pub open spec fn has_zero(data: Seq<u8>) -> bool {
    exists|i: int| 0 <= i < data.len() && data[i] == 0u8
}

/// Whether fewer than half the objects the bytes announce became nodes.
pub open spec fn objects_missing(nodes: Seq<AstNode>, data: Seq<u8>) -> bool {
    expected_objects(data) > 0 && nodes.len() < expected_objects(data) / 2
}

/// How many of the three integrity checks fail.
pub open spec fn integrity_issues(nodes: Seq<AstNode>, data: Seq<u8>) -> nat {
    (if eof_missing(data) {
        1nat
    } else {
        0nat
    }) + (if has_zero(data) {
        1nat
    } else {
        0nat
    }) + (if objects_missing(nodes, data) {
        1nat
    } else {
        0nat
    })
}

pub open spec fn indicator(
    indicator_type: CorruptionType,
    severity: ErrorSeverity,
    location: Seq<char>,
    description: Seq<char>,
    confidence_percent: u8,
) -> IndicatorView {
    IndicatorView { indicator_type, severity, location, description, confidence_percent }
}

pub open spec fn integrity_indicators(nodes: Seq<AstNode>, data: Seq<u8>) -> Seq<IndicatorView> {
    (if eof_missing(data) {
        seq![
            indicator(
                CorruptionType::StructuralDamage,
                ErrorSeverity::Warning,
                "End of file"@,
                "Missing or corrupted EOF marker"@,
                90,
            ),
        ]
    } else {
        Seq::empty()
    }) + (if has_zero(data) {
        seq![
            indicator(
                CorruptionType::DataCorruption,
                ErrorSeverity::Warning,
                "Throughout document"@,
                "Null bytes found in inappropriate locations"@,
                70,
            ),
        ]
    } else {
        Seq::empty()
    }) + (if objects_missing(nodes, data) {
        seq![
            indicator(
                CorruptionType::MissingComponents,
                ErrorSeverity::Error,
                "Object count"@,
                "Expected "@ + decimal(expected_objects(data)) + " objects, found "@ + decimal(nodes.len()),
                80,
            ),
        ]
    } else {
        Seq::empty()
    })
}

pub open spec fn reference_indicators(nodes: Seq<AstNode>) -> Seq<IndicatorView> {
    let total = total_refs(nodes);
    let broken = broken_refs(nodes);
    if broken > 0 {
        seq![
            indicator(
                CorruptionType::InvalidReferences,
                if broken > total / 2 {
                    ErrorSeverity::Critical
                } else {
                    ErrorSeverity::Warning
                },
                "Object references"@,
                decimal(broken) + " broken references out of "@ + decimal(total),
                95,
            ),
        ]
    } else {
        Seq::empty()
    }
}

pub open spec fn corrupted_streams(data: Seq<u8>) -> nat {
    corrupted_count(data, stream_spans(data, 0), stream_spans(data, 0).len() as int)
}

pub open spec fn stream_indicators(data: Seq<u8>) -> Seq<IndicatorView> {
    if corrupted_streams(data) > 0 {
        seq![
            indicator(
                CorruptionType::StreamCorruption,
                ErrorSeverity::Warning,
                "Stream objects"@,
                decimal(corrupted_streams(data)) + " corrupted streams detected"@,
                80,
            ),
        ]
    } else {
        Seq::empty()
    }
}

/// The signs of corruption a configuration's checks find, in the order
/// the checks run: integrity, references, streams.
pub open spec fn report_indicators(config: DiagnosticsConfig, nodes: Seq<AstNode>, data: Seq<u8>) -> Seq<IndicatorView> {
    (if config.check_integrity {
        integrity_indicators(nodes, data)
    } else {
        Seq::empty()
    }) + (if config.validate_references {
        reference_indicators(nodes)
    } else {
        Seq::empty()
    }) + (if config.check_streams {
        stream_indicators(data)
    } else {
        Seq::empty()
    })
}

/// How many indicators of `inds[0..k]` have severity `sev`.
pub open spec fn severity_count(inds: Seq<IndicatorView>, sev: ErrorSeverity, k: int) -> nat
    decreases k,
{
    if k <= 0 {
        0
    } else {
        severity_count(inds, sev, k - 1) + if inds[k - 1].severity == sev {
            1nat
        } else {
            0nat
        }
    }
}

/// What the structure and the indicators take off the health score, in
/// thirtieths: a missing header 0.2, catalog 0.3, page tree 0.2,
/// cross-reference keyword 0.1, trailer keyword 0.1, and 0.2 for each
/// critical and 0.1 for each error indicator.
pub open spec fn penalty30(s: StructureHealth, inds: Seq<IndicatorView>) -> int {
    (if s.has_valid_header {
        0int
    } else {
        6int
    }) + (if s.has_catalog {
        0int
    } else {
        9int
    }) + (if s.has_pages_tree {
        0int
    } else {
        6int
    }) + (if s.has_valid_xref {
        0int
    } else {
        3int
    }) + (if s.has_trailer {
        0int
    } else {
        3int
    }) + 6 * severity_count(inds, ErrorSeverity::Critical, inds.len() as int) + 3 * severity_count(
        inds,
        ErrorSeverity::Error,
        inds.len() as int,
    )
}

/// Whether the share `f` less `penalty` thirtieths reaches `threshold`
/// thirtieths.
pub open spec fn score_reaches(f: Fraction, penalty: int, threshold: int) -> bool {
    if f.whole == 0 {
        30 - penalty >= threshold
    } else {
        30 * f.part - penalty * f.whole >= threshold * f.whole
    }
}

/// The verdict on a score: healthy from 0.9, partly recovered from 0.7,
/// damaged from 0.4, severely damaged below.
pub open spec fn health_verdict(f: Fraction, penalty: int) -> DocumentHealth {
    if score_reaches(f, penalty, 27) {
        DocumentHealth::Healthy
    } else if score_reaches(f, penalty, 21) {
        DocumentHealth::PartiallyRecovered
    } else if score_reaches(f, penalty, 12) {
        DocumentHealth::Damaged
    } else {
        DocumentHealth::SeverelyDamaged
    }
}

/// The verdict on a score orders as the score does: a score below 0.4 is
/// severely damaged, one from 0.9 healthy, and a larger penalty never
/// gives a better verdict.
pub proof fn lemma_health_verdict(f: Fraction, p1: int, p2: int)
    requires
        p1 <= p2,
    ensures
        !score_reaches(f, p1, 12) ==> health_verdict(f, p1) == DocumentHealth::SeverelyDamaged,
        score_reaches(f, p1, 27) ==> health_verdict(f, p1) == DocumentHealth::Healthy,
        health_rank(health_verdict(f, p2)) <= health_rank(health_verdict(f, p1)),
{
    if f.whole != 0 {
        assert(30 * f.part - p2 * f.whole <= 30 * f.part - p1 * f.whole) by (nonlinear_arith)
            requires
                p1 <= p2,
                f.whole >= 0,
        ;
    }
}

/// How good a health state is, from 3 for a healthy file down to 0.
pub open spec fn health_rank(h: DocumentHealth) -> int {
    match h {
        DocumentHealth::Healthy => 3,
        DocumentHealth::PartiallyRecovered => 2,
        DocumentHealth::Damaged => 1,
        _ => 0,
    }
}

/// The recommendation for a kind of corruption.
pub open spec fn recommendation_for(t: CorruptionType) -> RecommendationView {
    match t {
        CorruptionType::StructuralDamage => RecommendationView {
            priority: Priority::High,
            action: RecommendedAction::StructureRepair,
            description: "Repair basic PDF structure"@,
            success_percent: 80,
        },
        CorruptionType::InvalidReferences => RecommendationView {
            priority: Priority::Medium,
            action: RecommendedAction::ReferenceResolution,
            description: "Fix broken object references"@,
            success_percent: 70,
        },
        CorruptionType::StreamCorruption => RecommendationView {
            priority: Priority::Medium,
            action: RecommendedAction::StreamReconstruction,
            description: "Reconstruct corrupted streams"@,
            success_percent: 60,
        },
        CorruptionType::EncodingIssues => RecommendationView {
            priority: Priority::Low,
            action: RecommendedAction::EncodingFix,
            description: "Fix text encoding issues"@,
            success_percent: 90,
        },
        _ => RecommendationView {
            priority: Priority::Medium,
            action: RecommendedAction::DataRecovery,
            description: "Attempt general data recovery"@,
            success_percent: 50,
        },
    }
}

/// The recommendations of `recs[0..k]` with priority `p`, in their order.
pub open spec fn with_priority(recs: Seq<RecommendationView>, p: Priority, k: int) -> Seq<RecommendationView>
    decreases k,
{
    if k <= 0 {
        Seq::empty()
    } else if recs[k - 1].priority == p {
        with_priority(recs, p, k - 1).push(recs[k - 1])
    } else {
        with_priority(recs, p, k - 1)
    }
}

/// `recs` ordered from the highest priority to the lowest, keeping the
/// order of those of equal priority.
pub open spec fn by_priority(recs: Seq<RecommendationView>) -> Seq<RecommendationView> {
    with_priority(recs, Priority::Critical, recs.len() as int) + with_priority(
        recs,
        Priority::High,
        recs.len() as int,
    ) + with_priority(recs, Priority::Medium, recs.len() as int) + with_priority(
        recs,
        Priority::Low,
        recs.len() as int,
    )
}

/// One recommendation for each indicator, by its kind.
pub open spec fn recommendations_for(inds: Seq<IndicatorView>) -> Seq<RecommendationView> {
    inds.map_values(|i: IndicatorView| recommendation_for(i.indicator_type))
}

/// Whether `data` holds `word` somewhere.
fn holds_word(data: &[u8], word: &[u8]) -> (r: bool)
    requires
        word@.len() > 0,
    ensures
        r == has_window(data@, word@),
{
    proof {
        lemma_first_window_bounds(data@, word@, 0);
    }
    match find_window(data, word, 0) {
        Some(i) => {
            proof {
                assert(window_at(data@, word@, i as int));
            }
            true
        },
        None => false,
    }
}

fn has_pages_node(nodes: &Vec<AstNode>) -> (r: bool)
    ensures
        r == has_node_type(nodes@, NodeType::Pages),
{
    let mut i: usize = 0;
    while i < nodes.len()
        invariant
            i <= nodes@.len(),
            forall|j: int| 0 <= j < i ==> nodes@[j].node_type != NodeType::Pages,
        decreases nodes@.len() - i,
    {
        if nodes[i].node_type == NodeType::Pages {
            return true;
        }
        i = i + 1;
    }
    false
}

/// The plain references of every node's value, node by node.
fn collect_node_references(nodes: &Vec<AstNode>) -> (r: Vec<PdfReference>)
    ensures
        r@ == refs_seq(nodes_refs(nodes@, nodes@.len() as int)),
{
    let mut out: Vec<PdfReference> = Vec::new();
    let mut i: usize = 0;
    proof {
        assert(refs_seq(nodes_refs(nodes@, 0)) =~= Seq::<PdfReference>::empty());
    }
    while i < nodes.len()
        invariant
            i <= nodes@.len(),
            out@ == refs_seq(nodes_refs(nodes@, i as int)),
        decreases nodes@.len() - i,
    {
        proof {
            lemma_refs_seq_add(nodes_refs(nodes@, i as int), plain_refs(nodes@[i as int].value.sv()));
        }
        nodes[i].value.collect_plain_references(&mut out);
        i = i + 1;
    }
    out
}

fn count_corrupted(data: &[u8], spans: &Vec<(usize, usize)>) -> (r: usize)
    requires
        forall|k: int| 0 <= k < spans@.len() ==> (#[trigger] spans@[k]).0 <= spans@[k].1 <= data@.len(),
    ensures
        r == corrupted_count(data@, spans_view(spans@), spans@.len() as int),
        r <= spans@.len(),
{
    let mut n: usize = 0;
    let mut i: usize = 0;
    while i < spans.len()
        invariant
            i <= spans@.len(),
            n <= i,
            forall|k: int| 0 <= k < spans@.len() ==> (#[trigger] spans@[k]).0 <= spans@[k].1 <= data@.len(),
            n == corrupted_count(data@, spans_view(spans@), i as int),
        decreases spans@.len() - i,
    {
        let (start, end) = spans[i];
        proof {
            assert(spans@[i as int].0 <= spans@[i as int].1);
        }
        if is_stream_corrupted(data, start, end) {
            n = n + 1;
        }
        i = i + 1;
    }
    n
}

fn indicator_new(
    indicator_type: CorruptionType,
    severity: ErrorSeverity,
    location: &str,
    description: String,
    confidence_percent: u8,
) -> (r: CorruptionIndicator)
    ensures
        r@ == indicator(indicator_type, severity, location@, description@, confidence_percent),
{
    CorruptionIndicator {
        indicator_type,
        severity,
        location: String::from_str(location),
        description,
        confidence_percent,
    }
}


/// Judges a document's health by its graph and its bytes.
pub struct DocumentDiagnostics {
    config: DiagnosticsConfig,
    checkers: Vec<CheckerKind>,
}

impl DocumentDiagnostics {
    pub closed spec fn spec_config(&self) -> DiagnosticsConfig {
        self.config
    }

    pub closed spec fn spec_checkers(&self) -> Seq<CheckerKind> {
        self.checkers@
    }

    /// A diagnostics run with the checkers the configuration asks for.
    pub fn new(config: DiagnosticsConfig) -> (r: Self)
        ensures
            r.spec_config() == config,
            r.spec_checkers() == checker_list(config),
    {
        let mut diagnostics = DocumentDiagnostics { config, checkers: Vec::new() };
        diagnostics.initialize_checkers(&config);
        diagnostics
    }

    fn initialize_checkers(&mut self, config: &DiagnosticsConfig)
        requires
            old(self).checkers@.len() == 0,
        ensures
            final(self).config == old(self).config,
            final(self).checkers@ == checker_list(*config),
    {
        self.checkers.push(CheckerKind::Header);
        self.checkers.push(CheckerKind::Structure);
        self.checkers.push(CheckerKind::Reference);
        if config.check_streams {
            self.checkers.push(CheckerKind::Stream);
        }
        if config.check_integrity {
            self.checkers.push(CheckerKind::Integrity);
        }
        proof {
            assert(self.checkers@ =~= checker_list(*config));
        }
    }

    fn analyze_structure(&self, document: &PdfDocument, data: &[u8]) -> (r: StructureHealth)
        ensures
            r == structure_spec(document.ast.nodes_spec(), document.ast.root_spec(), data@),
    {
        let header: [u8; 5] = [37, 80, 68, 70, 45];
        let xref: [u8; 4] = [120, 114, 101, 102];
        let trailer: [u8; 7] = [116, 114, 97, 105, 108, 101, 114];
        proof {
            assert(header@ =~= header_word());
            assert(xref@ =~= xref_word());
            assert(trailer@ =~= trailer_word());
        }
        StructureHealth {
            has_valid_header: crate::recovery::starts_with_bytes(data, header.as_slice()),
            has_catalog: document.ast.get_root().is_some(),
            has_pages_tree: has_pages_node(document.ast.nodes()),
            has_valid_xref: holds_word(data, xref.as_slice()),
            has_trailer: holds_word(data, trailer.as_slice()),
            reference_integrity: self.calculate_reference_integrity(document),
            stream_integrity: self.calculate_stream_integrity(document, data),
        }
    }

    /// A reference counts as existing when the graph has any node at all.
    fn reference_exists(&self, document: &PdfDocument, _reference: &PdfReference) -> (r: bool)
        ensures
            r == (document.ast.nodes_spec().len() > 0),
    {
        document.ast.node_count() > 0
    }

    fn calculate_reference_integrity(&self, document: &PdfDocument) -> (r: Fraction)
        ensures
            r == reference_integrity_spec(document.ast.nodes_spec()),
    {
        let nodes = document.ast.nodes();
        if nodes.len() == 0 {
            return Fraction { part: 0, whole: 0 };
        }
        let refs = collect_node_references(nodes);
        let mut valid: usize = 0;
        let mut i: usize = 0;
        while i < refs.len()
            invariant
                i <= refs@.len(),
                valid == i,
                document.ast.nodes_spec().len() > 0,
            decreases refs@.len() - i,
        {
            if self.reference_exists(document, &refs[i]) {
                valid = valid + 1;
            }
            i = i + 1;
        }
        Fraction { part: valid, whole: refs.len() }
    }

    fn calculate_stream_integrity(&self, _document: &PdfDocument, data: &[u8]) -> (r: Fraction)
        ensures
            r == stream_integrity_spec(data@),
    {
        let spans = find_streams_in_data(data);
        if spans.len() == 0 {
            return Fraction { part: 0, whole: 0 };
        }
        let corrupted = count_corrupted(data, &spans);
        Fraction { part: spans.len() - corrupted, whole: spans.len() }
    }

    /// The integrity checks: the end-of-file marker, zero bytes, and the
    /// number of nodes against the objects the bytes announce.  Gives the
    /// number of failed checks and the indicators they raised.
    fn check_integrity(&self, document: &PdfDocument, data: &[u8]) -> (r: (usize, Vec<CorruptionIndicator>))
        ensures
            r.0 == integrity_issues(document.ast.nodes_spec(), data@),
            indicators_view(r.1@) == integrity_indicators(document.ast.nodes_spec(), data@),
    {
        let ghost nodes = document.ast.nodes_spec();
        let mut issues: usize = 0;
        let mut found: Vec<CorruptionIndicator> = Vec::new();
        let eof: [u8; 5] = [37, 37, 69, 79, 70];
        proof {
            assert(eof@ =~= eof_word());
        }
        if !crate::recovery::ends_with_bytes(data, eof.as_slice()) {
            issues = issues + 1;
            found.push(
                indicator_new(
                    CorruptionType::StructuralDamage,
                    ErrorSeverity::Warning,
                    "End of file",
                    String::from_str("Missing or corrupted EOF marker"),
                    90,
                ),
            );
        }
        if contains_zero(data) {
            issues = issues + 1;
            found.push(
                indicator_new(
                    CorruptionType::DataCorruption,
                    ErrorSeverity::Warning,
                    "Throughout document",
                    String::from_str("Null bytes found in inappropriate locations"),
                    70,
                ),
            );
        }
        let expected = count_object_declarations(data);
        let actual = document.ast.node_count();
        if expected > 0 && actual < expected / 2 {
            issues = issues + 1;
            let mut description = String::from_str("Expected ");
            let e = usize_text(expected);
            description.append(e.as_str());
            description.append(" objects, found ");
            let a = usize_text(actual);
            description.append(a.as_str());
            found.push(indicator_new(CorruptionType::MissingComponents, ErrorSeverity::Error, "Object count", description, 80));
        }
        proof {
            let v = integrity_indicators(nodes, data@);
            assert(indicators_view(found@) =~= v);
        }
        (issues, found)
    }

    /// Counts the references of every node and those that point nowhere;
    /// gives the number of broken ones and the indicator they raise.
    fn validate_references(&self, document: &PdfDocument) -> (r: (usize, Vec<CorruptionIndicator>))
        ensures
            r.0 == broken_refs(document.ast.nodes_spec()),
            indicators_view(r.1@) == reference_indicators(document.ast.nodes_spec()),
    {
        let refs = collect_node_references(document.ast.nodes());
        let total = refs.len();
        let mut broken: usize = 0;
        let mut i: usize = 0;
        while i < refs.len()
            invariant
                i <= refs@.len(),
                broken == if document.ast.nodes_spec().len() > 0 {
                    0
                } else {
                    i
                },
            decreases refs@.len() - i,
        {
            if !self.reference_exists(document, &refs[i]) {
                broken = broken + 1;
            }
            i = i + 1;
        }
        let mut found: Vec<CorruptionIndicator> = Vec::new();
        if broken > 0 {
            let severity = if broken > total / 2 {
                ErrorSeverity::Critical
            } else {
                ErrorSeverity::Warning
            };
            let mut description = usize_text(broken);
            description.append(" broken references out of ");
            let t = usize_text(total);
            description.append(t.as_str());
            found.push(indicator_new(CorruptionType::InvalidReferences, severity, "Object references", description, 95));
        }
        proof {
            assert(indicators_view(found@) =~= reference_indicators(document.ast.nodes_spec()));
        }
        (broken, found)
    }

    /// Looks at every stream of the bytes; gives the number that look
    /// corrupted and the indicator they raise.
    fn check_streams(&self, _document: &PdfDocument, data: &[u8]) -> (r: (usize, Vec<CorruptionIndicator>))
        ensures
            r.0 == corrupted_streams(data@),
            indicators_view(r.1@) == stream_indicators(data@),
    {
        let spans = find_streams_in_data(data);
        let corrupted = count_corrupted(data, &spans);
        let mut found: Vec<CorruptionIndicator> = Vec::new();
        if corrupted > 0 {
            let mut description = usize_text(corrupted);
            description.append(" corrupted streams detected");
            found.push(indicator_new(CorruptionType::StreamCorruption, ErrorSeverity::Warning, "Stream objects", description, 80));
        }
        proof {
            assert(indicators_view(found@) =~= stream_indicators(data@));
        }
        (corrupted, found)
    }
}


/// The structure health of a run that does not look at the structure.
pub open spec fn unexamined_structure() -> StructureHealth {
    StructureHealth {
        has_valid_header: false,
        has_catalog: false,
        has_pages_tree: false,
        has_valid_xref: false,
        has_trailer: false,
        reference_integrity: Fraction { part: 0, whole: 1 },
        stream_integrity: Fraction { part: 0, whole: 1 },
    }
}

/// The checks a configuration makes: five of the structure, three of
/// integrity, one of references, one of streams.
pub open spec fn checks_performed_spec(config: DiagnosticsConfig) -> nat {
    (if config.analyze_structure {
        5nat
    } else {
        0nat
    }) + (if config.check_integrity {
        3nat
    } else {
        0nat
    }) + (if config.validate_references {
        1nat
    } else {
        0nat
    }) + (if config.check_streams {
        1nat
    } else {
        0nat
    })
}

/// The checks that pass: three structure checks when header, catalog and
/// page tree are all there, the integrity checks that do not fail, and the
/// reference and stream checks when they find nothing wrong.
pub open spec fn checks_passed_spec(
    config: DiagnosticsConfig,
    nodes: Seq<AstNode>,
    root: Option<NodeId>,
    data: Seq<u8>,
) -> nat {
    let s = structure_spec(nodes, root, data);
    (if config.analyze_structure && s.has_valid_header && s.has_catalog && s.has_pages_tree {
        3nat
    } else {
        0nat
    }) + (if config.check_integrity {
        (3 - integrity_issues(nodes, data)) as nat
    } else {
        0nat
    }) + (if config.validate_references && broken_refs(nodes) == 0 {
        1nat
    } else {
        0nat
    }) + (if config.check_streams && corrupted_streams(data) == 0 {
        1nat
    } else {
        0nat
    })
}

/// The checks that fail.
pub open spec fn checks_failed_spec(config: DiagnosticsConfig, nodes: Seq<AstNode>, data: Seq<u8>) -> nat {
    (if config.check_integrity {
        integrity_issues(nodes, data)
    } else {
        0nat
    }) + (if config.validate_references && broken_refs(nodes) > 0 {
        1nat
    } else {
        0nat
    }) + (if config.check_streams && corrupted_streams(data) > 0 {
        1nat
    } else {
        0nat
    })
}

fn count_severity(indicators: &Vec<CorruptionIndicator>, sev: ErrorSeverity) -> (r: u64)
    ensures
        r == severity_count(indicators_view(indicators@), sev, indicators@.len() as int),
        r <= indicators@.len(),
{
    let ghost inds = indicators_view(indicators@);
    let mut n: u64 = 0;
    let mut i: usize = 0;
    while i < indicators.len()
        invariant
            i <= indicators@.len(),
            inds == indicators_view(indicators@),
            n == severity_count(inds, sev, i as int),
            n <= i,
        decreases indicators@.len() - i,
    {
        if indicators[i].severity == sev {
            n = n + 1;
        }
        i = i + 1;
    }
    n
}

/// Whether the share `f` less `penalty` thirtieths reaches `threshold`
/// thirtieths.
fn reaches(f: Fraction, penalty: u64, threshold: u64) -> (r: bool)
    requires
        penalty <= 1000,
        threshold <= 30,
    ensures
        r == score_reaches(f, penalty as int, threshold as int),
{
    if f.whole == 0 {
        penalty + threshold <= 30
    } else {
        let part = f.part as u128;
        let whole = f.whole as u128;
        let need = (penalty + threshold) as u128;
        proof {
            assert(part * 30 <= 0xffff_ffff_ffff_ffff_u128 * 30) by (nonlinear_arith)
                requires
                    part <= 0xffff_ffff_ffff_ffff_u128,
            ;
            assert(need * whole <= 1030 * 0xffff_ffff_ffff_ffff_u128) by (nonlinear_arith)
                requires
                    need <= 1030,
                    whole <= 0xffff_ffff_ffff_ffff_u128,
            ;
            assert((30 * f.part - (penalty as int) * f.whole >= (threshold as int) * f.whole) == (part * 30 >= need
                * whole)) by (nonlinear_arith)
                requires
                    part == f.part,
                    whole == f.whole,
                    need == penalty + threshold,
            ;
        }
        part * 30 >= need * whole
    }
}

/// The overall verdict from the integrity share, the structure and the
/// indicators.
fn calculate_overall_health(
    integrity: Fraction,
    structure: &StructureHealth,
    indicators: &Vec<CorruptionIndicator>,
) -> (r: DocumentHealth)
    requires
        indicators@.len() <= 100,
    ensures
        r == health_verdict(integrity, penalty30(*structure, indicators_view(indicators@))),
{
    let mut penalty: u64 = 0;
    if !structure.has_valid_header {
        penalty = penalty + 6;
    }
    if !structure.has_catalog {
        penalty = penalty + 9;
    }
    if !structure.has_pages_tree {
        penalty = penalty + 6;
    }
    if !structure.has_valid_xref {
        penalty = penalty + 3;
    }
    if !structure.has_trailer {
        penalty = penalty + 3;
    }
    let critical = count_severity(indicators, ErrorSeverity::Critical);
    let errors = count_severity(indicators, ErrorSeverity::Error);
    penalty = penalty + 6 * critical + 3 * errors;
    if reaches(integrity, penalty, 27) {
        DocumentHealth::Healthy
    } else if reaches(integrity, penalty, 21) {
        DocumentHealth::PartiallyRecovered
    } else if reaches(integrity, penalty, 12) {
        DocumentHealth::Damaged
    } else {
        DocumentHealth::SeverelyDamaged
    }
}

fn recommendation_new(t: CorruptionType) -> (r: Recommendation)
    ensures
        r@ == recommendation_for(t),
{
    match t {
        CorruptionType::StructuralDamage => Recommendation {
            priority: Priority::High,
            action: RecommendedAction::StructureRepair,
            description: String::from_str("Repair basic PDF structure"),
            success_percent: 80,
        },
        CorruptionType::InvalidReferences => Recommendation {
            priority: Priority::Medium,
            action: RecommendedAction::ReferenceResolution,
            description: String::from_str("Fix broken object references"),
            success_percent: 70,
        },
        CorruptionType::StreamCorruption => Recommendation {
            priority: Priority::Medium,
            action: RecommendedAction::StreamReconstruction,
            description: String::from_str("Reconstruct corrupted streams"),
            success_percent: 60,
        },
        CorruptionType::EncodingIssues => Recommendation {
            priority: Priority::Low,
            action: RecommendedAction::EncodingFix,
            description: String::from_str("Fix text encoding issues"),
            success_percent: 90,
        },
        _ => Recommendation {
            priority: Priority::Medium,
            action: RecommendedAction::DataRecovery,
            description: String::from_str("Attempt general data recovery"),
            success_percent: 50,
        },
    }
}

/// One recommendation for each indicator, highest priority first, those of
/// equal priority in the order of their indicators.
pub fn generate_recommendations(indicators: &Vec<CorruptionIndicator>) -> (r: Vec<Recommendation>)
    ensures
        recommendations_view(r@) == by_priority(recommendations_for(indicators_view(indicators@))),
{
    let ghost recs = recommendations_for(indicators_view(indicators@));
    let mut critical: Vec<Recommendation> = Vec::new();
    let mut high: Vec<Recommendation> = Vec::new();
    let mut medium: Vec<Recommendation> = Vec::new();
    let mut low: Vec<Recommendation> = Vec::new();
    let mut i: usize = 0;
    while i < indicators.len()
        invariant
            i <= indicators@.len(),
            recs == recommendations_for(indicators_view(indicators@)),
            recs.len() == indicators@.len(),
            recommendations_view(critical@) == with_priority(recs, Priority::Critical, i as int),
            recommendations_view(high@) == with_priority(recs, Priority::High, i as int),
            recommendations_view(medium@) == with_priority(recs, Priority::Medium, i as int),
            recommendations_view(low@) == with_priority(recs, Priority::Low, i as int),
        decreases indicators@.len() - i,
    {
        let rec = recommendation_new(indicators[i].indicator_type);
        proof {
            assert(recs[i as int] == rec@);
        }
        match rec.priority {
            Priority::Critical => {
                proof {
                    assert(recommendations_view(critical@.push(rec)) =~= recommendations_view(critical@).push(rec@));
                }
                critical.push(rec);
            },
            Priority::High => {
                proof {
                    assert(recommendations_view(high@.push(rec)) =~= recommendations_view(high@).push(rec@));
                }
                high.push(rec);
            },
            Priority::Medium => {
                proof {
                    assert(recommendations_view(medium@.push(rec)) =~= recommendations_view(medium@).push(rec@));
                }
                medium.push(rec);
            },
            Priority::Low => {
                proof {
                    assert(recommendations_view(low@.push(rec)) =~= recommendations_view(low@).push(rec@));
                }
                low.push(rec);
            },
        }
        i = i + 1;
    }
    let ghost c = critical@;
    let ghost h = high@;
    let ghost m = medium@;
    let ghost l = low@;
    critical.append(&mut high);
    critical.append(&mut medium);
    critical.append(&mut low);
    proof {
        assert(critical@ == c + h + m + l);
        assert(recommendations_view(c + h + m + l) =~= recommendations_view(c) + recommendations_view(h)
            + recommendations_view(m) + recommendations_view(l));
    }
    critical
}

impl DocumentDiagnostics {
    /// Every checker's finding under its name, in the order of the checkers.
    fn run_checkers(&self, document: &PdfDocument, data: &[u8]) -> (r: Vec<(String, Finding)>)
        ensures
            findings_view(r@) == self.spec_checkers().map_values(
                |k: CheckerKind| finding_entry(k, document.ast.nodes_spec(), document.ast.root_spec(), data@),
            ),
    {
        let ghost nodes = document.ast.nodes_spec();
        let ghost root = document.ast.root_spec();
        let mut findings: Vec<(String, Finding)> = Vec::new();
        let mut i: usize = 0;
        while i < self.checkers.len()
            invariant
                i <= self.checkers@.len(),
                nodes == document.ast.nodes_spec(),
                root == document.ast.root_spec(),
                findings_view(findings@) == self.checkers@.take(i as int).map_values(
                    |k: CheckerKind| finding_entry(k, nodes, root, data@),
                ),
            decreases self.checkers@.len() - i,
        {
            let checker = self.checkers[i];
            let finding = checker.check_health(document, data);
            let ghost before = findings@;
            let name = String::from_str(checker.name());
            proof {
                assert((name@, finding@) == finding_entry(checker, nodes, root, data@));
            }
            findings.push((name, finding));
            proof {
                let f = |k: CheckerKind| finding_entry(k, nodes, root, data@);
                assert(self.checkers@.take(i + 1) =~= self.checkers@.take(i as int).push(checker));
                assert(self.checkers@.take(i as int).push(checker).map_values(f) =~= self.checkers@.take(
                    i as int,
                ).map_values(f).push(f(checker)));
                assert(findings_view(findings@) =~= findings_view(before).push(f(checker)));
            }
            i = i + 1;
        }
        proof {
            assert(self.checkers@.take(self.checkers@.len() as int) =~= self.checkers@);
        }
        findings
    }

    /// Examines the document and its bytes as the configuration asks: the
    /// structure, integrity, references and streams, then every checker;
    /// judges the overall health and recommends what to do.
    #[verifier::spinoff_prover]
    #[verifier::rlimit(30)]
    pub fn analyze_health(&self, document: &PdfDocument, data: &[u8]) -> (r: HealthReport)
        ensures
            ({
                let config = self.spec_config();
                let nodes = document.ast.nodes_spec();
                let root = document.ast.root_spec();
                &&& r.structure_health == if config.analyze_structure {
                    structure_spec(nodes, root, data@)
                } else {
                    unexamined_structure()
                }
                &&& r.integrity == if config.check_integrity {
                    Fraction { part: (3 - integrity_issues(nodes, data@)) as usize, whole: 3 }
                } else {
                    Fraction { part: 0, whole: 0 }
                }
                &&& indicators_view(r.corruption_indicators@) == report_indicators(config, nodes, data@)
                &&& recommendations_view(r.recommendations@) == by_priority(
                    recommendations_for(report_indicators(config, nodes, data@)),
                )
                &&& findings_view(r.detailed_findings@) == self.spec_checkers().map_values(
                    |k: CheckerKind| finding_entry(k, nodes, root, data@),
                )
                &&& r.overall_health == health_verdict(
                    r.integrity,
                    penalty30(r.structure_health, report_indicators(config, nodes, data@)),
                )
                &&& r.statistics.checks_performed == checks_performed_spec(config)
                &&& r.statistics.checks_passed == checks_passed_spec(config, nodes, root, data@)
                &&& r.statistics.checks_failed == checks_failed_spec(config, nodes, data@)
                &&& r.statistics.warnings_generated == 0
                &&& r.statistics.nodes_analyzed == nodes.len()
                &&& r.statistics.bytes_analyzed == data@.len()
            }),
    {
        let start = instant_now();
        let config = self.config;
        let ghost nodes = document.ast.nodes_spec();
        let ghost root = document.ast.root_spec();
        let mut stats = DiagnosticStatistics {
            checks_performed: 0,
            checks_passed: 0,
            checks_failed: 0,
            warnings_generated: 0,
            analysis_time_ms: 0,
            nodes_analyzed: 0,
            bytes_analyzed: 0,
        };
        let mut structure = StructureHealth::default();
        if config.analyze_structure {
            structure = self.analyze_structure(document, data);
            stats.checks_performed = stats.checks_performed + 5;
            if structure.has_valid_header && structure.has_catalog && structure.has_pages_tree {
                stats.checks_passed = stats.checks_passed + 3;
            }
        }
        let ghost after_structure = stats;
        let mut integrity = Fraction { part: 0, whole: 0 };
        let mut indicators: Vec<CorruptionIndicator> = Vec::new();
        if config.check_integrity {
            let (issues, mut found) = self.check_integrity(document, data);
            indicators.append(&mut found);
            integrity = Fraction { part: 3 - issues, whole: 3 };
            stats.checks_performed = stats.checks_performed + 3;
            stats.checks_passed = stats.checks_passed + (3 - issues);
            stats.checks_failed = stats.checks_failed + issues;
        }
        let ghost after_integrity = (indicators@, stats);
        if config.validate_references {
            let (broken, mut found) = self.validate_references(document);
            indicators.append(&mut found);
            stats.checks_performed = stats.checks_performed + 1;
            if broken == 0 {
                stats.checks_passed = stats.checks_passed + 1;
            } else {
                stats.checks_failed = stats.checks_failed + 1;
            }
        }
        let ghost after_references = (indicators@, stats);
        if config.check_streams {
            let (corrupted, mut found) = self.check_streams(document, data);
            indicators.append(&mut found);
            stats.checks_performed = stats.checks_performed + 1;
            if corrupted == 0 {
                stats.checks_passed = stats.checks_passed + 1;
            } else {
                stats.checks_failed = stats.checks_failed + 1;
            }
        }
        proof {
            assert(indicators_view(indicators@) =~= report_indicators(config, nodes, data@));
        }
        let findings = self.run_checkers(document, data);
        let overall_health = calculate_overall_health(integrity, &structure, &indicators);
        let recommendations = generate_recommendations(&indicators);
        stats.analysis_time_ms = #[verifier::truncate] (duration_millis(&instant_elapsed(&start)) as u64);
        stats.nodes_analyzed = document.ast.node_count();
        stats.bytes_analyzed = data.len() as u64;
        HealthReport {
            overall_health,
            structure_health: structure,
            integrity,
            corruption_indicators: indicators,
            recommendations,
            detailed_findings: findings,
            statistics: stats,
        }
    }
}

impl Default for DocumentDiagnostics {
    fn default() -> (r: Self)
        ensures
            r.spec_config() == (DiagnosticsConfig {
                deep_analysis: true,
                check_integrity: true,
                analyze_structure: true,
                validate_references: true,
                check_streams: true,
                timeout_ms: 30000,
            }),
            r.spec_checkers() == checker_list(r.spec_config()),
    {
        DocumentDiagnostics::new(DiagnosticsConfig::default())
    }
}

/// The configuration of a quick check: the default one without deep
/// analysis.
pub open spec fn quick_config() -> DiagnosticsConfig {
    DiagnosticsConfig {
        deep_analysis: false,
        check_integrity: true,
        analyze_structure: true,
        validate_references: true,
        check_streams: true,
        timeout_ms: 30000,
    }
}

/// The overall health that a full run of every check gives.
pub fn quick_health_check(document: &PdfDocument, data: &[u8]) -> (r: DocumentHealth)
    ensures
        ({
            let nodes = document.ast.nodes_spec();
            r == health_verdict(
                Fraction { part: (3 - integrity_issues(nodes, data@)) as usize, whole: 3 },
                penalty30(
                    structure_spec(nodes, document.ast.root_spec(), data@),
                    report_indicators(quick_config(), nodes, data@),
                ),
            )
        }),
{
    let defaults = DiagnosticsConfig::default();
    let diagnostics = DocumentDiagnostics::new(DiagnosticsConfig { deep_analysis: false, ..defaults });
    let report = diagnostics.analyze_health(document, data);
    report.overall_health
}


pub open spec fn priority_rank(p: Priority) -> int {
    match p {
        Priority::Low => 1,
        Priority::Medium => 2,
        Priority::High => 3,
        Priority::Critical => 4,
    }
}

proof fn lemma_with_priority_facts(recs: Seq<RecommendationView>, p: Priority, k: int)
    requires
        0 <= k <= recs.len(),
    ensures
        forall|i: int| 0 <= i < with_priority(recs, p, k).len() ==> (#[trigger] with_priority(recs, p, k)[i]).priority == p,
    decreases k,
{
    if k > 0 {
        lemma_with_priority_facts(recs, p, k - 1);
    }
}

proof fn lemma_with_priority_lengths(recs: Seq<RecommendationView>, k: int)
    requires
        0 <= k <= recs.len(),
    ensures
        with_priority(recs, Priority::Critical, k).len() + with_priority(recs, Priority::High, k).len()
            + with_priority(recs, Priority::Medium, k).len() + with_priority(recs, Priority::Low, k).len() == k,
    decreases k,
{
    if k > 0 {
        lemma_with_priority_lengths(recs, k - 1);
    }
}

/// Recommendations ordered by priority keep every one of them, and no
/// recommendation comes after one of lower priority.
pub proof fn lemma_recommendations_by_priority(recs: Seq<RecommendationView>)
    ensures
        by_priority(recs).len() == recs.len(),
        forall|i: int, j: int|
            0 <= i < j < by_priority(recs).len() ==> priority_rank(by_priority(recs)[i].priority) >= priority_rank(
                by_priority(recs)[j].priority,
            ),
{
    let n = recs.len() as int;
    let c = with_priority(recs, Priority::Critical, n);
    let h = with_priority(recs, Priority::High, n);
    let m = with_priority(recs, Priority::Medium, n);
    let l = with_priority(recs, Priority::Low, n);
    lemma_with_priority_lengths(recs, n);
    lemma_with_priority_facts(recs, Priority::Critical, n);
    lemma_with_priority_facts(recs, Priority::High, n);
    lemma_with_priority_facts(recs, Priority::Medium, n);
    lemma_with_priority_facts(recs, Priority::Low, n);
    let all = by_priority(recs);
    assert(all == c + h + m + l);
    assert forall|i: int| 0 <= i < all.len() implies priority_rank((#[trigger] all[i]).priority) == if i < c.len() {
        4int
    } else if i < c.len() + h.len() {
        3int
    } else if i < c.len() + h.len() + m.len() {
        2int
    } else {
        1int
    } by {
        if i < c.len() {
            assert(all[i] == c[i]);
        } else if i < c.len() + h.len() {
            assert(all[i] == h[i - c.len()]);
        } else if i < c.len() + h.len() + m.len() {
            assert(all[i] == m[i - c.len() - h.len()]);
        } else {
            assert(all[i] == l[i - c.len() - h.len() - m.len()]);
        }
    }
    assert forall|i: int, j: int| 0 <= i < j < all.len() implies priority_rank(all[i].priority) >= priority_rank(
        all[j].priority,
    ) by {
        assert(priority_rank(all[i].priority) == if i < c.len() {
            4int
        } else if i < c.len() + h.len() {
            3int
        } else if i < c.len() + h.len() + m.len() {
            2int
        } else {
            1int
        });
        assert(priority_rank(all[j].priority) == if j < c.len() {
            4int
        } else if j < c.len() + h.len() {
            3int
        } else if j < c.len() + h.len() + m.len() {
            2int
        } else {
            1int
        });
    }
}

} // verus!
