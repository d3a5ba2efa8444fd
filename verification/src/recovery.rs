//! Records of damaged documents: the errors found, what was tried, the
//! fragments of a file that could be recognised, and the checks of a file's
//! bytes that judge its health.
use crate::ast::NodeType;
use vstd::prelude::*;

verus! {

#[derive(Debug, Clone, Copy, PartialEq, Eq, Structural)]
pub enum RecoveryLevel {
    Conservative,
    Moderate,
    Aggressive,
    Experimental,
}

#[derive(Debug, Clone, Copy, PartialEq, Eq, Structural)]
pub struct RecoveryConfig {
    pub max_errors: usize,
    pub skip_corrupted_objects: bool,
    pub attempt_structure_reconstruction: bool,
    pub use_heuristic_parsing: bool,
    pub preserve_partial_objects: bool,
    pub enable_fuzzy_matching: bool,
    pub recovery_aggressiveness: RecoveryLevel,
    pub timeout_ms: u64,
}

#[derive(Debug, Clone, Copy, PartialEq, Eq, Structural)]
pub enum RecoveryErrorType {
    ParseError,
    StructuralError,
    ReferenceError,
    StreamError,
    EncodingError,
    IntegrityError,
    UnknownFormat,
}

#[derive(Debug, Clone)]
pub struct ErrorLocation {
    pub byte_offset: u64,
    pub line_number: Option<usize>,
    pub object_number: Option<u32>,
    pub context_description: String,
}

#[derive(Debug, Clone)]
pub struct RecoveryAttempt {
    pub strategy_used: String,
    pub success: bool,
    pub result_description: String,
    pub time_taken_ms: u64,
}

/// How bad an error is, from least to most severe.
#[derive(Debug, Clone, Copy, PartialEq, Eq, PartialOrd, Ord, Structural)]
pub enum ErrorSeverity {
    Info,
    Warning,
    Error,
    Critical,
    Fatal,
}

/// The rank of a severity, least severe first.
pub open spec fn severity_rank(s: ErrorSeverity) -> int {
    match s {
        ErrorSeverity::Info => 0,
        ErrorSeverity::Warning => 1,
        ErrorSeverity::Error => 2,
        ErrorSeverity::Critical => 3,
        ErrorSeverity::Fatal => 4,
    }
}

impl ErrorSeverity {
    /// Whether `self` is at least as severe as `other`.
    pub fn at_least(&self, other: &ErrorSeverity) -> (r: bool)
        ensures
            r == (severity_rank(*self) >= severity_rank(*other)),
    {
        rank(*self) >= rank(*other)
    }
}

fn rank(s: ErrorSeverity) -> (r: u8)
    ensures
        r == severity_rank(s),
{
    match s {
        ErrorSeverity::Info => 0,
        ErrorSeverity::Warning => 1,
        ErrorSeverity::Error => 2,
        ErrorSeverity::Critical => 3,
        ErrorSeverity::Fatal => 4,
    }
}

#[derive(Debug, Clone)]
pub struct ErrorContext {
    pub surrounding_data: Vec<u8>,
    pub object_hierarchy: Vec<String>,
    pub reference_chain: Vec<String>,
    pub hints: Vec<(String, String)>,
}

#[derive(Debug, Clone)]
pub struct RecoveryError {
    pub error_type: RecoveryErrorType,
    pub location: ErrorLocation,
    pub original_error: String,
    pub recovery_attempt: Option<RecoveryAttempt>,
    pub severity: ErrorSeverity,
    pub context: ErrorContext,
}

#[derive(Debug, Clone, Copy, PartialEq, Eq, Structural)]
pub enum RecoveryActionType {
    StructureRepair,
    ReferenceResolution,
    StreamDecoding,
    EncodingFix,
    HeuristicPatch,
    FuzzyMatch,
    DataReconstruction,
    Failed,
}

#[derive(Debug, Clone)]
pub struct RecoveryAction {
    pub strategy_name: String,
    pub action_type: RecoveryActionType,
    pub description: String,
    pub success: bool,
    pub data_modified: bool,
}

#[derive(Debug, Clone, Copy, PartialEq, Eq, Structural)]
pub enum DocumentHealth {
    Healthy,
    PartiallyRecovered,
    Damaged,
    SeverelyDamaged,
}

#[derive(Debug, Clone, Copy, PartialEq, Eq, Structural)]
pub struct ReconstructionConfig {
    pub aggressive_recovery: bool,
    pub preserve_unknown_objects: bool,
    pub attempt_structure_inference: bool,
    pub use_heuristic_typing: bool,
    pub max_fragments: usize,
    pub min_fragment_size: usize,
}

impl Default for ReconstructionConfig {
    fn default() -> (r: Self)
        ensures
            r == (ReconstructionConfig {
                aggressive_recovery: true,
                preserve_unknown_objects: true,
                attempt_structure_inference: true,
                use_heuristic_typing: true,
                max_fragments: 10000,
                min_fragment_size: 10,
            }),
    {
        ReconstructionConfig {
            aggressive_recovery: true,
            preserve_unknown_objects: true,
            attempt_structure_inference: true,
            use_heuristic_typing: true,
            max_fragments: 10000,
            min_fragment_size: 10,
        }
    }
}

#[derive(Debug, Clone, Copy, PartialEq, Eq, Structural)]
pub enum FragmentType {
    Header,
    Object,
    Stream,
    XrefTable,
    Trailer,
    Unknown,
    Garbage,
}

#[derive(Debug, Clone)]
pub struct FragmentMetadata {
    pub likely_object_number: Option<u32>,
    pub likely_node_type: Option<NodeType>,
    pub encoding_hints: Vec<String>,
    pub structural_hints: Vec<String>,
}

#[derive(Debug, Clone, Copy, PartialEq, Eq, Structural)]
pub enum ReconstructionEventType {
    FragmentDiscovered,
    ObjectReconstructed,
    StructureInferred,
    ReferenceResolved,
    ErrorEncountered,
    HeuristicApplied,
}

/// One step of a reconstruction; the time is in milliseconds since the
/// Unix epoch.
#[derive(Debug, Clone)]
pub struct ReconstructionEvent {
    pub event_type: ReconstructionEventType,
    pub timestamp_ms: u64,
    pub description: String,
    pub fragment_id: Option<String>,
}

#[derive(Debug, Clone, Copy, PartialEq, Eq, Structural)]
pub struct DiagnosticsConfig {
    pub deep_analysis: bool,
    pub check_integrity: bool,
    pub analyze_structure: bool,
    pub validate_references: bool,
    pub check_streams: bool,
    pub timeout_ms: u64,
}

impl Default for DiagnosticsConfig {
    fn default() -> (r: Self)
        ensures
            r == (DiagnosticsConfig {
                deep_analysis: true,
                check_integrity: true,
                analyze_structure: true,
                validate_references: true,
                check_streams: true,
                timeout_ms: 30000,
            }),
    {
        DiagnosticsConfig {
            deep_analysis: true,
            check_integrity: true,
            analyze_structure: true,
            validate_references: true,
            check_streams: true,
            timeout_ms: 30000,
        }
    }
}

#[derive(Debug, Clone, Copy, PartialEq, Eq, Structural)]
pub enum CorruptionType {
    StructuralDamage,
    DataCorruption,
    MissingComponents,
    InvalidReferences,
    StreamCorruption,
    EncodingIssues,
    IntegrityViolation,
}

#[derive(Debug, Clone, Copy, PartialEq, Eq, Structural)]
pub enum RecommendedAction {
    StructureRepair,
    ReferenceResolution,
    StreamReconstruction,
    EncodingFix,
    DataRecovery,
    ManualIntervention,
}

#[derive(Debug, Clone, Copy, PartialEq, Eq, PartialOrd, Ord, Structural)]
pub enum Priority {
    Low,
    Medium,
    High,
    Critical,
}

impl Priority {
    /// The priority's weight: 1 for low up to 4 for critical.
    pub fn weight(&self) -> (r: u8)
        ensures
            r == match *self {
                Priority::Low => 1u8,
                Priority::Medium => 2u8,
                Priority::High => 3u8,
                Priority::Critical => 4u8,
            },
    {
        match self {
            Priority::Low => 1,
            Priority::Medium => 2,
            Priority::High => 3,
            Priority::Critical => 4,
        }
    }
}

#[derive(Debug, Clone, Copy, PartialEq, Eq, Structural)]
pub enum CheckStatus {
    Passed,
    Warning,
    Failed,
    Error,
    Skipped,
}

#[derive(Debug, Clone, Copy, PartialEq, Eq, Structural)]
pub struct DiagnosticStatistics {
    pub checks_performed: usize,
    pub checks_passed: usize,
    pub checks_failed: usize,
    pub warnings_generated: usize,
    pub analysis_time_ms: u64,
    pub nodes_analyzed: usize,
    pub bytes_analyzed: u64,
}

/// Whether `data` begins with `prefix`.
pub open spec fn bytes_start_with(data: Seq<u8>, prefix: Seq<u8>) -> bool {
    prefix.len() <= data.len() && data.subrange(0, prefix.len() as int) == prefix
}

/// Whether `data` ends with `suffix`.
pub open spec fn bytes_end_with(data: Seq<u8>, suffix: Seq<u8>) -> bool {
    suffix.len() <= data.len() && data.subrange(data.len() - suffix.len(), data.len() as int) == suffix
}

/// How many windows of `data` equal `word`, overlapping ones included,
/// among those that start before `end`.
pub open spec fn count_windows(data: Seq<u8>, word: Seq<u8>, end: int) -> nat
    decreases end,
{
    if end <= 0 {
        0
    } else {
        count_windows(data, word, end - 1) + if end - 1 + word.len() <= data.len() && data.subrange(
            end - 1,
            end - 1 + word.len(),
        ) == word {
            1nat
        } else {
            0nat
        }
    }
}

pub fn starts_with_bytes(data: &[u8], prefix: &[u8]) -> (r: bool)
    ensures
        r == bytes_start_with(data@, prefix@),
{
    if prefix.len() > data.len() {
        return false;
    }
    let mut i: usize = 0;
    while i < prefix.len()
        invariant
            prefix@.len() <= data@.len(),
            i <= prefix@.len(),
            forall|j: int| 0 <= j < i ==> data@[j] == prefix@[j],
        decreases prefix@.len() - i,
    {
        if data[i] != prefix[i] {
            proof {
                assert(data@.subrange(0, prefix@.len() as int)[i as int] != prefix@[i as int]);
            }
            return false;
        }
        i = i + 1;
    }
    proof {
        assert(data@.subrange(0, prefix@.len() as int) =~= prefix@);
    }
    true
}

pub fn ends_with_bytes(data: &[u8], suffix: &[u8]) -> (r: bool)
    ensures
        r == bytes_end_with(data@, suffix@),
{
    if suffix.len() > data.len() {
        return false;
    }
    let off = data.len() - suffix.len();
    let mut i: usize = 0;
    while i < suffix.len()
        invariant
            suffix@.len() <= data@.len(),
            data@.len() <= usize::MAX,
            off == data@.len() - suffix@.len(),
            i <= suffix@.len(),
            forall|j: int| 0 <= j < i ==> data@[off + j] == suffix@[j],
        decreases suffix@.len() - i,
    {
        if data[off + i] != suffix[i] {
            proof {
                assert(data@.subrange(off as int, data@.len() as int)[i as int] != suffix@[i as int]);
            }
            return false;
        }
        i = i + 1;
    }
    proof {
        assert(data@.subrange(off as int, data@.len() as int) =~= suffix@);
    }
    true
}

/// Whether `word` occurs in `data` at `at`.
pub(crate) fn word_at(data: &[u8], word: &[u8], at: usize) -> (r: bool)
    ensures
        r == (at + word@.len() <= data@.len() && data@.subrange(at as int, at + word@.len()) == word@),
{
    if word.len() > data.len() || at > data.len() - word.len() {
        return false;
    }
    let mut i: usize = 0;
    while i < word.len()
        invariant
            at + word@.len() <= data@.len(),
            data@.len() <= usize::MAX,
            i <= word@.len(),
            forall|j: int| 0 <= j < i ==> data@[at + j] == word@[j],
        decreases word@.len() - i,
    {
        if data[at + i] != word[i] {
            proof {
                assert(data@.subrange(at as int, at + word@.len())[i as int] != word@[i as int]);
            }
            return false;
        }
        i = i + 1;
    }
    proof {
        assert(data@.subrange(at as int, at + word@.len()) =~= word@);
    }
    true
}

/// How many times `word` occurs in `data`, overlapping occurrences
/// included.
pub fn count_occurrences(data: &[u8], word: &[u8]) -> (r: usize)
    ensures
        r == count_windows(data@, word@, data@.len() as int),
{
    let mut count: usize = 0;
    let mut i: usize = 0;
    while i < data.len()
        invariant
            i <= data@.len(),
            count == count_windows(data@, word@, i as int),
            count <= i,
        decreases data@.len() - i,
    {
        if word_at(data, word, i) {
            count = count + 1;
        }
        i = i + 1;
    }
    count
}

/// Looks at a file's header.
pub struct HeaderChecker;

impl HeaderChecker {
    pub fn new() -> (r: Self) {
        HeaderChecker
    }

    /// A file passes when it begins with `%PDF-`.
    pub fn status(&self, data: &[u8]) -> (r: CheckStatus)
        ensures
            r == if bytes_start_with(data@, seq![37u8, 80u8, 68u8, 70u8, 45u8]) {
                CheckStatus::Passed
            } else {
                CheckStatus::Failed
            },
    {
        let header: [u8; 5] = [37, 80, 68, 70, 45];
        proof {
            assert(header@ =~= seq![37u8, 80u8, 68u8, 70u8, 45u8]);
        }
        if starts_with_bytes(data, header.as_slice()) {
            CheckStatus::Passed
        } else {
            CheckStatus::Failed
        }
    }
}

/// Looks at a document's structure.
pub struct StructureChecker;

impl StructureChecker {
    pub fn new() -> (r: Self) {
        StructureChecker
    }

    /// Passes with a root and nodes, warns with a root alone, fails without
    /// a root.
    pub fn status(&self, has_root: bool, node_count: usize) -> (r: CheckStatus)
        ensures
            r == if has_root && node_count > 0 {
                CheckStatus::Passed
            } else if has_root {
                CheckStatus::Warning
            } else {
                CheckStatus::Failed
            },
    {
        if has_root && node_count > 0 {
            CheckStatus::Passed
        } else if has_root {
            CheckStatus::Warning
        } else {
            CheckStatus::Failed
        }
    }
}

/// Looks at a document's references.
pub struct ReferenceChecker;

impl ReferenceChecker {
    pub fn new() -> (r: Self) {
        ReferenceChecker
    }
}

/// Counts a file's streams.
pub struct StreamChecker;

impl StreamChecker {
    pub fn new() -> (r: Self) {
        StreamChecker
    }

    /// How many times the keyword `stream` occurs in the file.
    pub fn stream_count(&self, data: &[u8]) -> (r: usize)
        ensures
            r == count_windows(data@, seq![115u8, 116u8, 114u8, 101u8, 97u8, 109u8], data@.len() as int),
    {
        let word: [u8; 6] = [115, 116, 114, 101, 97, 109];
        proof {
            assert(word@ =~= seq![115u8, 116u8, 114u8, 101u8, 97u8, 109u8]);
        }
        count_occurrences(data, word.as_slice())
    }
}

/// Looks at a file's end.
pub struct IntegrityChecker;

impl IntegrityChecker {
    pub fn new() -> (r: Self) {
        IntegrityChecker
    }

    /// Whether the file ends with `%%EOF`, or with `%%EOF` and a newline.
    pub fn has_eof(&self, data: &[u8]) -> (r: bool)
        ensures
            r == (bytes_end_with(data@, seq![37u8, 37u8, 69u8, 79u8, 70u8]) || bytes_end_with(
                data@,
                seq![37u8, 37u8, 69u8, 79u8, 70u8, 10u8],
            )),
    {
        let eof: [u8; 5] = [37, 37, 69, 79, 70];
        let eof_nl: [u8; 6] = [37, 37, 69, 79, 70, 10];
        proof {
            assert(eof@ =~= seq![37u8, 37u8, 69u8, 79u8, 70u8]);
            assert(eof_nl@ =~= seq![37u8, 37u8, 69u8, 79u8, 70u8, 10u8]);
        }
        ends_with_bytes(data, eof.as_slice()) || ends_with_bytes(data, eof_nl.as_slice())
    }

    /// Passes with an end-of-file marker, warns without one.
    pub fn status(&self, data: &[u8]) -> (r: CheckStatus)
        ensures
            r == if self.spec_has_eof(data@) {
                CheckStatus::Passed
            } else {
                CheckStatus::Warning
            },
    {
        if self.has_eof(data) {
            CheckStatus::Passed
        } else {
            CheckStatus::Warning
        }
    }

    pub open spec fn spec_has_eof(&self, data: Seq<u8>) -> bool {
        bytes_end_with(data, seq![37u8, 37u8, 69u8, 79u8, 70u8]) || bytes_end_with(
            data,
            seq![37u8, 37u8, 69u8, 79u8, 70u8, 10u8],
        )
    }
}

} // verus!
