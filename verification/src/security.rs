//! Signatures, encryption and permissions of a document, and the results of
//! checking it.
use crate::ast::{AstNode, NodeType, PdfAstGraph};
use crate::limits::ResourceBudget;
use crate::text::{contains_text, decimal, seq_starts_with, str_contains, str_starts_with, strings_sv, usize_text};
use crate::types::{
    lemma_array_view, lemma_dict_view, lemma_value_view, name_text, read_text, spec_dict_get, PdfDictionary,
    PdfValue, SpecValue,
};
use crate::xref::{decode_unfiltered_stream, unfiltered};
use vstd::prelude::*;

verus! {

#[derive(Debug, Clone, Copy, PartialEq, Eq, Structural)]
pub enum SignatureType {
    AdbePkcs7Detached,
    AdbePkcs7Sha1,
    AdbeX509RsaSha1,
    EtsiCadEsDetached,
    EtsiRfc3161,
}

#[derive(Debug, Clone)]
pub struct CertificateInfo {
    pub issuer: String,
    pub subject: String,
    pub serial_number: String,
    pub valid_from: String,
    pub valid_to: String,
    pub key_usage: Vec<String>,
    pub algorithm: String,
}

#[derive(Debug, Clone)]
pub struct TimestampDetails {
    pub time: Option<String>,
    pub policy_oid: Option<String>,
    pub hash_algorithm: Option<String>,
    pub signature_valid: bool,
    pub tsa_chain_valid: Option<bool>,
    pub tsa_pin_valid: Option<bool>,
}

#[derive(Debug, Clone)]
pub enum SignatureValidity {
    Valid,
    Invalid(String),
    Unknown(String),
}

#[derive(Debug, Clone)]
pub struct DigitalSignature {
    pub field_name: String,
    pub signature_type: SignatureType,
    pub signer: Option<String>,
    pub signing_time: Option<String>,
    pub certificate_info: Option<CertificateInfo>,
    pub validity: SignatureValidity,
    pub location: Option<String>,
    pub reason: Option<String>,
    pub contact_info: Option<String>,
    pub timestamp: Option<TimestampDetails>,
}

#[derive(Debug, Clone)]
pub struct EncryptionInfo {
    pub algorithm: String,
    pub key_length: u32,
    pub revision: u32,
    pub permissions: u32,
}

#[derive(Debug, Clone, Copy, PartialEq, Eq, Structural)]
pub struct DocumentPermissions {
    pub print: bool,
    pub modify: bool,
    pub copy: bool,
    pub add_notes: bool,
    pub fill_forms: bool,
    pub accessibility: bool,
    pub assemble: bool,
    pub high_quality_print: bool,
}

/// Permissions that allow everything.
pub open spec fn all_permitted() -> DocumentPermissions {
    DocumentPermissions {
        print: true,
        modify: true,
        copy: true,
        add_notes: true,
        fill_forms: true,
        accessibility: true,
        assemble: true,
        high_quality_print: true,
    }
}

impl Default for DocumentPermissions {
    /// Everything is allowed.
    fn default() -> (r: Self)
        ensures
            r == (DocumentPermissions {
                print: true,
                modify: true,
                copy: true,
                add_notes: true,
                fill_forms: true,
                accessibility: true,
                assemble: true,
                high_quality_print: true,
            }),
    {
        DocumentPermissions {
            print: true,
            modify: true,
            copy: true,
            add_notes: true,
            fill_forms: true,
            accessibility: true,
            assemble: true,
            high_quality_print: true,
        }
    }
}

#[derive(Debug, Clone, Copy, PartialEq, Eq, Structural)]
pub enum ValidationStatus {
    Pass,
    Fail,
    Warning,
}

/// Checks documents for signs of malicious content.
pub struct SecurityAnalyzer;


/// One finding of a check: what was checked, how it came out, and what was
/// seen.
#[derive(Debug, Clone)]
pub struct ValidationResult {
    pub check_type: String,
    pub status: ValidationStatus,
    pub message: String,
}

/// What is known of a document's security.
#[derive(Debug, Clone)]
pub struct SecurityInfo {
    pub signatures: Vec<DigitalSignature>,
    pub encryption: Option<EncryptionInfo>,
    pub permissions: DocumentPermissions,
    pub validation_results: Vec<ValidationResult>,
}

pub open spec fn results_view(v: Seq<ValidationResult>) -> Seq<(Seq<char>, ValidationStatus, Seq<char>)> {
    v.map_values(|r: ValidationResult| (r.check_type@, r.status, r.message@))
}

/// The text `str::to_lowercase` gives for `s`.
pub uninterp spec fn lowercase(s: Seq<char>) -> Seq<char>;

/// Calls `str::to_lowercase`, whose result depends on the text alone.
#[verifier::external_body]
fn to_lowercase(s: &str) -> (r: String)
    ensures
        r@ == lowercase(s@),
{
    s.to_lowercase()
}

/// Whether a text, in lower case, holds a sign of JavaScript.
pub open spec fn javascript_pattern(t: Seq<char>) -> bool {
    let l = lowercase(t);
    ||| contains_text(l, "javascript"@)
    ||| contains_text(l, "eval("@)
    ||| contains_text(l, "unescape("@)
    ||| contains_text(l, "fromcharcode"@)
    ||| contains_text(l, "app.launchurl"@)
    ||| contains_text(l, "this.exportdataobject"@)
    ||| contains_text(l, "submitform"@)
}

/// Whether a text, in lower case, holds a suspicious action, command or
/// address.
pub open spec fn suspicious_pattern(t: Seq<char>) -> bool {
    let l = lowercase(t);
    ||| contains_text(l, "/openaction"@)
    ||| contains_text(l, "/aa"@)
    ||| contains_text(l, "/launch"@)
    ||| contains_text(l, "/uri"@)
    ||| contains_text(l, "/xfa"@)
    ||| contains_text(l, "cmd.exe"@)
    ||| contains_text(l, "powershell"@)
    ||| contains_text(l, "javascript:"@)
    ||| contains_text(l, "file://"@)
    ||| contains_text(l, "http://"@)
    ||| contains_text(l, "https://"@)
}

pub fn is_javascript_pattern(text: &str) -> (r: bool)
    ensures
        r == javascript_pattern(text@),
{
    let lower = to_lowercase(text);
    let l = lower.as_str();
    str_contains(l, "javascript") || str_contains(l, "eval(") || str_contains(l, "unescape(") || str_contains(
        l,
        "fromcharcode",
    ) || str_contains(l, "app.launchurl") || str_contains(l, "this.exportdataobject") || str_contains(
        l,
        "submitform",
    )
}

pub fn is_suspicious_pattern(text: &str) -> (r: bool)
    ensures
        r == suspicious_pattern(text@),
{
    let lower = to_lowercase(text);
    let l = lower.as_str();
    str_contains(l, "/openaction") || str_contains(l, "/aa") || str_contains(l, "/launch") || str_contains(
        l,
        "/uri",
    ) || str_contains(l, "/xfa") || str_contains(l, "cmd.exe") || str_contains(l, "powershell")
        || str_contains(l, "javascript:") || str_contains(l, "file://") || str_contains(l, "http://")
        || str_contains(l, "https://")
}

/// A name's text without its leading `/`.
pub open spec fn bare_name(n: Seq<char>) -> Seq<char> {
    n.subrange(1, n.len() as int)
}

/// The text of a string or a name.
pub open spec fn string_value(v: SpecValue) -> Option<Seq<char>> {
    match v {
        SpecValue::String(b, _) => Some(read_text(b)),
        SpecValue::Name(n) => Some(bare_name(n)),
        _ => None,
    }
}

/// The texts a value holds: its strings, its names and its keys, in
/// reading order; a stream gives those of its dictionary.
pub open spec fn texts_of(v: SpecValue) -> Seq<Seq<char>>
    decreases v, 1nat, 0nat,
{
    match v {
        SpecValue::String(b, _) => seq![read_text(b)],
        SpecValue::Name(n) => seq![bare_name(n)],
        SpecValue::Array(items) => items_texts(items),
        SpecValue::Dictionary(e) => entries_texts(e),
        SpecValue::Stream(e, _, _) => entries_texts(e),
        _ => Seq::empty(),
    }
}

pub open spec fn items_texts(items: Seq<SpecValue>) -> Seq<Seq<char>>
    decreases items, 0nat, items.len(),
{
    if items.len() == 0 {
        Seq::empty()
    } else {
        proof {
            assert(decreases_to!(items => items[items.len() - 1]));
        }
        items_texts(items.drop_last()) + texts_of(items.last())
    }
}

pub open spec fn entries_texts(e: Seq<(Seq<char>, SpecValue)>) -> Seq<Seq<char>>
    decreases e, 0nat, e.len(),
{
    if e.len() == 0 {
        Seq::empty()
    } else {
        proof {
            assert(decreases_to!(e => e[e.len() - 1]));
            assert(decreases_to!(e[e.len() - 1] => e[e.len() - 1].1));
        }
        entries_texts(e.drop_last()).push(bare_name(e.last().0)) + texts_of(e.last().1)
    }
}

pub fn extract_string_value(value: &PdfValue) -> (r: Option<String>)
    ensures
        match r {
            Some(t) => string_value(value.sv()) == Some(t@),
            None => string_value(value.sv()) is None,
        },
{
    proof {
        lemma_value_view(value);
    }
    match value {
        PdfValue::String(s) => Some(s.to_string_lossy()),
        PdfValue::Name(n) => Some(String::from_str(n.without_slash())),
        _ => None,
    }
}

/// Appends the texts the value holds.
pub fn collect_textual_values(value: &PdfValue, out: &mut Vec<String>)
    ensures
        strings_sv(final(out)@) == strings_sv(old(out)@) + texts_of(value.sv()),
    decreases value, 2int,
{
    proof {
        lemma_value_view(value);
    }
    match value {
        PdfValue::String(s) => {
            let t = s.to_string_lossy();
            let ghost before = out@;
            out.push(t);
            proof {
                assert(strings_sv(out@) =~= strings_sv(before) + seq![t@]);
            }
        },
        PdfValue::Name(n) => {
            let t = String::from_str(n.without_slash());
            let ghost before = out@;
            out.push(t);
            proof {
                assert(strings_sv(out@) =~= strings_sv(before) + seq![t@]);
            }
        },
        PdfValue::Array(a) => collect_array_texts(a, out),
        PdfValue::Dictionary(d) => collect_dict_texts(d, out),
        PdfValue::Stream(st) => collect_dict_texts(&st.dict, out),
        _ => {
            proof {
                assert(strings_sv(out@) =~= strings_sv(out@) + Seq::<Seq<char>>::empty());
            }
        },
    }
}

fn collect_array_texts(a: &Vec<PdfValue>, out: &mut Vec<String>)
    ensures
        strings_sv(final(out)@) == strings_sv(old(out)@) + items_texts(crate::types::array_sv(a)),
    decreases a, 1int,
{
    let ghost items = crate::types::array_sv(a);
    let ghost start = strings_sv(out@);
    proof {
        lemma_array_view(a);
        assert(start + items_texts(items.take(0)) =~= start);
    }
    let mut i: usize = 0;
    while i < a.len()
        invariant
            i <= a@.len(),
            items == crate::types::array_sv(a),
            items.len() == a@.len(),
            forall|j: int| 0 <= j < a@.len() ==> #[trigger] items[j] == a@[j].sv(),
            start == strings_sv(old(out)@),
            strings_sv(out@) == start + items_texts(items.take(i as int)),
        decreases a@.len() - i,
    {
        proof {
            assert(decreases_to!(a@ => a@[i as int]));
            assert(items.take(i + 1).drop_last() =~= items.take(i as int));
        }
        collect_textual_values(&a[i], out);
        i = i + 1;
    }
    proof {
        assert(items.take(a@.len() as int) =~= items);
    }
}

fn collect_dict_texts(d: &PdfDictionary, out: &mut Vec<String>)
    ensures
        strings_sv(final(out)@) == strings_sv(old(out)@) + entries_texts(d.sv_entries()),
    decreases d, 1int,
{
    let ghost e = d.sv_entries();
    let ghost start = strings_sv(out@);
    proof {
        lemma_dict_view(d);
        assert(start + entries_texts(e.take(0)) =~= start);
    }
    let mut i: usize = 0;
    while i < d.entries.len()
        invariant
            i <= d.entries@.len(),
            e == d.sv_entries(),
            e.len() == d.entries@.len(),
            forall|j: int| 0 <= j < d.entries@.len() ==> #[trigger] e[j] == (d.entries@[j].0@, d.entries@[j].1.sv()),
            start == strings_sv(old(out)@),
            strings_sv(out@) == start + entries_texts(e.take(i as int)),
        decreases d.entries@.len() - i,
    {
        proof {
            assert(e[i as int] == (d.entries@[i as int].0@, d.entries@[i as int].1.sv()));
            assert(e.take(i + 1).drop_last() =~= e.take(i as int));
        }
        let key = String::from_str(d.entries[i].0.without_slash());
        let ghost before = out@;
        out.push(key);
        proof {
            assert(strings_sv(out@) =~= strings_sv(before).push(key@));
        }
        collect_textual_values(&d.entries[i].1, out);
        i = i + 1;
    }
    proof {
        assert(e.take(d.entries@.len() as int) =~= e);
    }
}


/// What the scan of nodes counts: dictionaries with an open action, with
/// additional actions, with XFA forms, signs of embedded files, launch
/// actions, signs of JavaScript and suspicious texts, and the addresses
/// found, in the order found.
pub struct Scan {
    pub open_action: nat,
    pub aa: nat,
    pub xfa: nat,
    pub embedded: nat,
    pub launch: nat,
    pub js: nat,
    pub suspicious: nat,
    pub uris: Seq<Seq<char>>,
}

pub open spec fn empty_scan() -> Scan {
    Scan { open_action: 0, aa: 0, xfa: 0, embedded: 0, launch: 0, js: 0, suspicious: 0, uris: Seq::empty() }
}

pub open spec fn scan_add(a: Scan, b: Scan) -> Scan {
    Scan {
        open_action: a.open_action + b.open_action,
        aa: a.aa + b.aa,
        xfa: a.xfa + b.xfa,
        embedded: a.embedded + b.embedded,
        launch: a.launch + b.launch,
        js: a.js + b.js,
        suspicious: a.suspicious + b.suspicious,
        uris: a.uris + b.uris,
    }
}

pub open spec fn one_if(b: bool) -> nat {
    if b {
        1
    } else {
        0
    }
}

/// The dictionary of a dictionary or a stream.
pub open spec fn dict_part(v: SpecValue) -> Option<Seq<(Seq<char>, SpecValue)>> {
    match v {
        SpecValue::Dictionary(e) => Some(e),
        SpecValue::Stream(e, _, _) => Some(e),
        _ => None,
    }
}

pub open spec fn entry_of(e: Seq<(Seq<char>, SpecValue)>, key: Seq<char>) -> Option<SpecValue> {
    spec_dict_get(e, name_text(key))
}

/// The action type a dictionary names under `/S`.
pub open spec fn action_of(e: Seq<(Seq<char>, SpecValue)>) -> Option<Seq<char>> {
    match entry_of(e, "S"@) {
        Some(SpecValue::Name(n)) => Some(bare_name(n)),
        _ => None,
    }
}

/// The text of a dictionary's `/URI`.
pub open spec fn uri_entry(e: Seq<(Seq<char>, SpecValue)>) -> Option<Seq<char>> {
    match entry_of(e, "URI"@) {
        Some(v) => string_value(v),
        None => None,
    }
}

pub open spec fn is_filespec(e: Seq<(Seq<char>, SpecValue)>) -> bool {
    match entry_of(e, "Type"@) {
        Some(SpecValue::Name(t)) => bare_name(t) == "Filespec"@,
        _ => false,
    }
}

/// What a dictionary shows: its keys and action, and its address, counted
/// once more when it is a URI action.
pub open spec fn dict_scan(e: Seq<(Seq<char>, SpecValue)>) -> Scan {
    Scan {
        open_action: one_if(entry_of(e, "OpenAction"@) is Some),
        aa: one_if(entry_of(e, "AA"@) is Some),
        xfa: one_if(entry_of(e, "XFA"@) is Some),
        embedded: one_if(entry_of(e, "EF"@) is Some || entry_of(e, "EmbeddedFiles"@) is Some) + one_if(is_filespec(e)),
        launch: one_if(action_of(e) == Some("Launch"@)),
        js: one_if(action_of(e) == Some("JavaScript"@)),
        suspicious: 0,
        uris: (if action_of(e) == Some("URI"@) && uri_entry(e) is Some {
            seq![uri_entry(e)->0]
        } else {
            Seq::empty()
        }) + match uri_entry(e) {
            Some(u) => seq![u],
            None => Seq::empty(),
        },
    }
}

/// How many of `texts` hold a sign of JavaScript (`js`) or a suspicious
/// pattern (otherwise).
pub open spec fn count_matching(texts: Seq<Seq<char>>, js: bool) -> nat
    decreases texts.len(),
{
    if texts.len() == 0 {
        0
    } else {
        count_matching(texts.drop_last(), js) + one_if(
            if js {
                javascript_pattern(texts.last())
            } else {
                suspicious_pattern(texts.last())
            },
        )
    }
}

/// What a node with value `v` shows, with the text of its stream when that
/// was decoded.
pub open spec fn node_scan(v: SpecValue, stream_text: Option<Seq<char>>) -> Scan {
    let base = match dict_part(v) {
        Some(e) => dict_scan(e),
        None => empty_scan(),
    };
    let texts = texts_of(v);
    Scan {
        js: base.js + count_matching(texts, true) + one_if(
            stream_text matches Some(t) && javascript_pattern(t),
        ),
        suspicious: base.suspicious + count_matching(texts, false) + one_if(
            stream_text matches Some(t) && suspicious_pattern(t),
        ),
        ..base
    }
}

/// The text of the first mebibyte of a stream's bytes.
pub open spec fn sample_text(v: SpecValue) -> Option<Seq<char>> {
    match v {
        SpecValue::Stream(_, d, _) => Some(
            read_text(
                d.take(
                    if d.len() < 1048576 {
                        d.len() as int
                    } else {
                        1048576
                    },
                ),
            ),
        ),
        _ => None,
    }
}

/// What the nodes `nodes[0..k]` show, `decoded[i]` telling whether the
/// stream of node `i` was decoded.
pub open spec fn scan_total(nodes: Seq<AstNode>, decoded: Seq<bool>, k: int) -> Scan
    decreases k,
{
    if k <= 0 {
        empty_scan()
    } else {
        scan_add(
            scan_total(nodes, decoded, k - 1),
            node_scan(
                nodes[k - 1].value.sv(),
                if decoded[k - 1] {
                    sample_text(nodes[k - 1].value.sv())
                } else {
                    None
                },
            ),
        )
    }
}

/// How many of `nodes[0..k]` have type `t`.
pub open spec fn type_count(nodes: Seq<AstNode>, t: NodeType, k: int) -> nat
    decreases k,
{
    if k <= 0 {
        0
    } else {
        type_count(nodes, t, k - 1) + one_if(nodes[k - 1].node_type == t)
    }
}

pub open spec fn finding_if(cond: bool, check: Seq<char>, status: ValidationStatus, message: Seq<char>) -> Seq<
    (Seq<char>, ValidationStatus, Seq<char>),
> {
    if cond {
        seq![(check, status, message)]
    } else {
        Seq::empty()
    }
}

/// An address fails when it is plain HTTP, FTP, a file, or a network share.
pub open spec fn uri_status(u: Seq<char>) -> ValidationStatus {
    if seq_starts_with(u, "http://"@) || seq_starts_with(u, "ftp://"@) || seq_starts_with(u, "file://"@)
        || contains_text(u, "\\\\"@) {
        ValidationStatus::Fail
    } else {
        ValidationStatus::Warning
    }
}

pub open spec fn uri_findings(uris: Seq<Seq<char>>) -> Seq<(Seq<char>, ValidationStatus, Seq<char>)> {
    uris.map_values(|u: Seq<char>| ("IOC:URI"@, uri_status(u), "External URI: "@ + u))
}

/// An address that is plain HTTP, FTP or a local file, or that names a
/// network share (`\\\\`), fails the URI check; an HTTPS address that names no
/// share is only a warning.
pub proof fn lemma_uri_status(u: Seq<char>)
    ensures
        (u.len() >= 7 && u.subrange(0, 7) == "http://"@) ==> uri_status(u) == ValidationStatus::Fail,
        (u.len() >= 6 && u.subrange(0, 6) == "ftp://"@) ==> uri_status(u) == ValidationStatus::Fail,
        (u.len() >= 7 && u.subrange(0, 7) == "file://"@) ==> uri_status(u) == ValidationStatus::Fail,
        (exists|k: int| 0 <= k && k + 2 <= u.len() && #[trigger] u.subrange(k, k + 2) == "\\\\"@) ==> uri_status(u)
            == ValidationStatus::Fail,
        (u.len() >= 8 && u.subrange(0, 8) == "https://"@ && !(exists|k: int|
            0 <= k && k + 2 <= u.len() && #[trigger] u.subrange(k, k + 2) == "\\\\"@)) ==> uri_status(u)
            == ValidationStatus::Warning,
{
    reveal_strlit("http://");
    reveal_strlit("https://");
    reveal_strlit("ftp://");
    reveal_strlit("file://");
    reveal_strlit("\\\\");
    assert("\\\\"@.len() == 2);
    if u.len() >= 8 && u.subrange(0, 8) == "https://"@ {
        assert(u[4] == u.subrange(0, 8)[4]);
        assert(u.subrange(0, 7)[4] == u[4]);
        assert(u.subrange(0, 6)[4] == u[4]);
        assert(u.subrange(0, 7)[0] == u[0]);
        assert(u.subrange(0, 6)[0] == u[0]);
    }
}

/// Every address found gives an `IOC:URI` check about it, and a plain HTTP
/// address gives a failed one.
pub proof fn lemma_uri_findings(uris: Seq<Seq<char>>, i: int)
    requires
        0 <= i < uris.len(),
    ensures
        uri_findings(uris).len() == uris.len(),
        uri_findings(uris)[i].0 == "IOC:URI"@,
        uri_findings(uris)[i].2 == "External URI: "@ + uris[i],
        (uris[i].len() >= 7 && uris[i].subrange(0, 7) == "http://"@) ==> uri_findings(uris)[i].1
            == ValidationStatus::Fail,
{
    lemma_uri_status(uris[i]);
}

pub open spec fn count_finding(n: nat, check: Seq<char>, status: ValidationStatus, label: Seq<char>) -> Seq<
    (Seq<char>, ValidationStatus, Seq<char>),
> {
    finding_if(n > 0, check, status, label + decimal(n))
}

/// The findings the analysis reports, in order: node types, then what the
/// nodes' dictionaries, texts and streams show.
pub open spec fn security_findings(nodes: Seq<AstNode>, decoded: Seq<bool>) -> Seq<
    (Seq<char>, ValidationStatus, Seq<char>),
> {
    let n = nodes.len() as int;
    let s = scan_total(nodes, decoded, n);
    count_finding(
        type_count(nodes, NodeType::JavaScriptAction, n),
        "IOC:JavaScriptAction"@,
        ValidationStatus::Fail,
        "JavaScript actions detected: "@,
    ) + count_finding(
        type_count(nodes, NodeType::URIAction, n),
        "IOC:URIAction"@,
        ValidationStatus::Warning,
        "URI actions detected: "@,
    ) + count_finding(
        type_count(nodes, NodeType::LaunchAction, n),
        "IOC:LaunchAction"@,
        ValidationStatus::Fail,
        "Launch actions detected: "@,
    ) + count_finding(
        type_count(nodes, NodeType::EmbeddedFile, n),
        "IOC:EmbeddedFile"@,
        ValidationStatus::Warning,
        "Embedded files detected: "@,
    ) + count_finding(
        type_count(nodes, NodeType::RichMedia, n),
        "IOC:RichMedia"@,
        ValidationStatus::Fail,
        "RichMedia content detected: "@,
    ) + count_finding(s.open_action, "IOC:OpenAction"@, ValidationStatus::Warning, "OpenAction present: "@)
        + count_finding(s.aa, "IOC:AdditionalActions"@, ValidationStatus::Warning, "Additional Actions (AA) present: "@)
        + count_finding(s.xfa, "IOC:XFA"@, ValidationStatus::Fail, "XFA forms detected: "@) + count_finding(
        s.launch,
        "IOC:Launch"@,
        ValidationStatus::Fail,
        "Launch actions detected: "@,
    ) + count_finding(s.embedded, "IOC:EmbeddedFiles"@, ValidationStatus::Warning, "Embedded file indicators: "@)
        + uri_findings(s.uris) + count_finding(
        s.js,
        "IOC:JavaScriptIndicators"@,
        ValidationStatus::Fail,
        "JavaScript indicators found: "@,
    ) + count_finding(s.suspicious, "IOC:SuspiciousPatterns"@, ValidationStatus::Warning, "Suspicious patterns found: "@)
}

/// The findings, or a single pass when there is none.
pub open spec fn security_results(nodes: Seq<AstNode>, decoded: Seq<bool>) -> Seq<
    (Seq<char>, ValidationStatus, Seq<char>),
> {
    let f = security_findings(nodes, decoded);
    if f.len() == 0 {
        seq![("Security"@, ValidationStatus::Pass, "No suspicious indicators detected"@)]
    } else {
        f
    }
}


/// Whether every `IOC:URI` result of `f` about a plain HTTP address fails.
pub open spec fn http_uris_fail(f: Seq<(Seq<char>, ValidationStatus, Seq<char>)>) -> bool {
    forall|i: int|
        0 <= i < f.len() && (#[trigger] f[i]).0 == "IOC:URI"@ && f[i].2.len() >= 21 && f[i].2.subrange(0, 14)
            == "External URI: "@ && f[i].2.subrange(14, 21) == "http://"@ ==> f[i].1 == ValidationStatus::Fail
}

proof fn lemma_http_uris_fail_add(
    a: Seq<(Seq<char>, ValidationStatus, Seq<char>)>,
    b: Seq<(Seq<char>, ValidationStatus, Seq<char>)>,
)
    requires
        http_uris_fail(a),
        http_uris_fail(b),
    ensures
        http_uris_fail(a + b),
{
    assert forall|i: int|
        0 <= i < (a + b).len() && (#[trigger] (a + b)[i]).0 == "IOC:URI"@ && (a + b)[i].2.len() >= 21 && (a
            + b)[i].2.subrange(0, 14) == "External URI: "@ && (a + b)[i].2.subrange(14, 21) == "http://"@ implies (a
        + b)[i].1 == ValidationStatus::Fail by {
        if i < a.len() {
            assert((a + b)[i] == a[i]);
        } else {
            assert((a + b)[i] == b[i - a.len()]);
        }
    }
}

proof fn lemma_count_not_uri(n: nat, check: Seq<char>, status: ValidationStatus, label: Seq<char>)
    requires
        check != "IOC:URI"@,
    ensures
        http_uris_fail(count_finding(n, check, status, label)),
{
}

proof fn lemma_uri_findings_fail(uris: Seq<Seq<char>>)
    ensures
        http_uris_fail(uri_findings(uris)),
{
    reveal_strlit("External URI: ");
    reveal_strlit("http://");
    assert forall|i: int|
        0 <= i < uri_findings(uris).len() && (#[trigger] uri_findings(uris)[i]).0 == "IOC:URI"@ && uri_findings(
            uris,
        )[i].2.len() >= 21 && uri_findings(uris)[i].2.subrange(0, 14) == "External URI: "@ && uri_findings(
            uris,
        )[i].2.subrange(14, 21) == "http://"@ implies uri_findings(uris)[i].1 == ValidationStatus::Fail by {
        let u = uris[i];
        let m = "External URI: "@ + u;
        assert(m.subrange(14, 21) =~= u.subrange(0, 7));
        lemma_uri_status(u);
    }
}

/// Whatever the graph, a result of the analysis that reports an address
/// (`IOC:URI`, "External URI: ...") starting with `http://` has status
/// `Fail`.
pub proof fn lemma_http_uri_results_fail(nodes: Seq<AstNode>, decoded: Seq<bool>)
    ensures
        forall|i: int|
            0 <= i < security_results(nodes, decoded).len() && (#[trigger] security_results(nodes, decoded)[i]).0
                == "IOC:URI"@ && security_results(nodes, decoded)[i].2.len() >= 21 && security_results(
                nodes,
                decoded,
            )[i].2.subrange(0, 14) == "External URI: "@ && security_results(nodes, decoded)[i].2.subrange(14, 21)
                == "http://"@ ==> security_results(nodes, decoded)[i].1 == ValidationStatus::Fail,
{
    reveal_strlit("IOC:URI");
    reveal_strlit("IOC:JavaScriptAction");
    reveal_strlit("IOC:URIAction");
    reveal_strlit("IOC:LaunchAction");
    reveal_strlit("IOC:EmbeddedFile");
    reveal_strlit("IOC:RichMedia");
    reveal_strlit("IOC:OpenAction");
    reveal_strlit("IOC:AdditionalActions");
    reveal_strlit("IOC:XFA");
    reveal_strlit("IOC:Launch");
    reveal_strlit("IOC:EmbeddedFiles");
    reveal_strlit("IOC:JavaScriptIndicators");
    reveal_strlit("IOC:SuspiciousPatterns");
    reveal_strlit("Security");
    assert("IOC:URI"@.len() == 7 && "IOC:XFA"@.len() == 7 && "IOC:XFA"@[4] == 'X' && "IOC:URI"@[4] == 'U');
    assert("IOC:URI"@ != "IOC:JavaScriptAction"@ && "IOC:URI"@ != "IOC:URIAction"@ && "IOC:URI"@
        != "IOC:LaunchAction"@ && "IOC:URI"@ != "IOC:EmbeddedFile"@ && "IOC:URI"@ != "IOC:RichMedia"@ && "IOC:URI"@
        != "IOC:OpenAction"@ && "IOC:URI"@ != "IOC:AdditionalActions"@ && "IOC:URI"@ != "IOC:XFA"@ && "IOC:URI"@
        != "IOC:Launch"@ && "IOC:URI"@ != "IOC:EmbeddedFiles"@ && "IOC:URI"@ != "IOC:JavaScriptIndicators"@
        && "IOC:URI"@ != "IOC:SuspiciousPatterns"@ && "IOC:URI"@ != "Security"@);
    let n = nodes.len() as int;
    let sc = scan_total(nodes, decoded, n);
    let p1 = count_finding(
        type_count(nodes, NodeType::JavaScriptAction, n),
        "IOC:JavaScriptAction"@,
        ValidationStatus::Fail,
        "JavaScript actions detected: "@,
    );
    let p2 = count_finding(
        type_count(nodes, NodeType::URIAction, n),
        "IOC:URIAction"@,
        ValidationStatus::Warning,
        "URI actions detected: "@,
    );
    let p3 = count_finding(
        type_count(nodes, NodeType::LaunchAction, n),
        "IOC:LaunchAction"@,
        ValidationStatus::Fail,
        "Launch actions detected: "@,
    );
    let p4 = count_finding(
        type_count(nodes, NodeType::EmbeddedFile, n),
        "IOC:EmbeddedFile"@,
        ValidationStatus::Warning,
        "Embedded files detected: "@,
    );
    let p5 = count_finding(
        type_count(nodes, NodeType::RichMedia, n),
        "IOC:RichMedia"@,
        ValidationStatus::Fail,
        "RichMedia content detected: "@,
    );
    let p6 = count_finding(sc.open_action, "IOC:OpenAction"@, ValidationStatus::Warning, "OpenAction present: "@);
    let p7 = count_finding(sc.aa, "IOC:AdditionalActions"@, ValidationStatus::Warning, "Additional Actions (AA) present: "@);
    let p8 = count_finding(sc.xfa, "IOC:XFA"@, ValidationStatus::Fail, "XFA forms detected: "@);
    let p9 = count_finding(sc.launch, "IOC:Launch"@, ValidationStatus::Fail, "Launch actions detected: "@);
    let p10 = count_finding(sc.embedded, "IOC:EmbeddedFiles"@, ValidationStatus::Warning, "Embedded file indicators: "@);
    let p11 = uri_findings(sc.uris);
    let p12 = count_finding(sc.js, "IOC:JavaScriptIndicators"@, ValidationStatus::Fail, "JavaScript indicators found: "@);
    let p13 = count_finding(
        sc.suspicious,
        "IOC:SuspiciousPatterns"@,
        ValidationStatus::Warning,
        "Suspicious patterns found: "@,
    );
    lemma_count_not_uri(type_count(nodes, NodeType::JavaScriptAction, n), "IOC:JavaScriptAction"@, ValidationStatus::Fail, "JavaScript actions detected: "@);
    lemma_count_not_uri(type_count(nodes, NodeType::URIAction, n), "IOC:URIAction"@, ValidationStatus::Warning, "URI actions detected: "@);
    lemma_count_not_uri(type_count(nodes, NodeType::LaunchAction, n), "IOC:LaunchAction"@, ValidationStatus::Fail, "Launch actions detected: "@);
    lemma_count_not_uri(type_count(nodes, NodeType::EmbeddedFile, n), "IOC:EmbeddedFile"@, ValidationStatus::Warning, "Embedded files detected: "@);
    lemma_count_not_uri(type_count(nodes, NodeType::RichMedia, n), "IOC:RichMedia"@, ValidationStatus::Fail, "RichMedia content detected: "@);
    lemma_count_not_uri(sc.open_action, "IOC:OpenAction"@, ValidationStatus::Warning, "OpenAction present: "@);
    lemma_count_not_uri(sc.aa, "IOC:AdditionalActions"@, ValidationStatus::Warning, "Additional Actions (AA) present: "@);
    lemma_count_not_uri(sc.xfa, "IOC:XFA"@, ValidationStatus::Fail, "XFA forms detected: "@);
    lemma_count_not_uri(sc.launch, "IOC:Launch"@, ValidationStatus::Fail, "Launch actions detected: "@);
    lemma_count_not_uri(sc.embedded, "IOC:EmbeddedFiles"@, ValidationStatus::Warning, "Embedded file indicators: "@);
    lemma_uri_findings_fail(sc.uris);
    lemma_count_not_uri(sc.js, "IOC:JavaScriptIndicators"@, ValidationStatus::Fail, "JavaScript indicators found: "@);
    lemma_count_not_uri(sc.suspicious, "IOC:SuspiciousPatterns"@, ValidationStatus::Warning, "Suspicious patterns found: "@);
    lemma_http_uris_fail_add(p1, p2);
    lemma_http_uris_fail_add(p1 + p2, p3);
    lemma_http_uris_fail_add(p1 + p2 + p3, p4);
    lemma_http_uris_fail_add(p1 + p2 + p3 + p4, p5);
    lemma_http_uris_fail_add(p1 + p2 + p3 + p4 + p5, p6);
    lemma_http_uris_fail_add(p1 + p2 + p3 + p4 + p5 + p6, p7);
    lemma_http_uris_fail_add(p1 + p2 + p3 + p4 + p5 + p6 + p7, p8);
    lemma_http_uris_fail_add(p1 + p2 + p3 + p4 + p5 + p6 + p7 + p8, p9);
    lemma_http_uris_fail_add(p1 + p2 + p3 + p4 + p5 + p6 + p7 + p8 + p9, p10);
    lemma_http_uris_fail_add(p1 + p2 + p3 + p4 + p5 + p6 + p7 + p8 + p9 + p10, p11);
    lemma_http_uris_fail_add(p1 + p2 + p3 + p4 + p5 + p6 + p7 + p8 + p9 + p10 + p11, p12);
    lemma_http_uris_fail_add(p1 + p2 + p3 + p4 + p5 + p6 + p7 + p8 + p9 + p10 + p11 + p12, p13);
    assert(security_findings(nodes, decoded) == p1 + p2 + p3 + p4 + p5 + p6 + p7 + p8 + p9 + p10 + p11 + p12 + p13);
    assert(http_uris_fail(security_results(nodes, decoded)));
}

/// Some node type is counted once the first `k` nodes contain one of it.
proof fn lemma_type_count_positive(nodes: Seq<AstNode>, t: NodeType, k: int, j: int)
    requires
        0 <= j < k <= nodes.len(),
        nodes[j].node_type == t,
    ensures
        type_count(nodes, t, k) > 0,
    decreases k,
{
    if j < k - 1 {
        lemma_type_count_positive(nodes, t, k - 1, j);
    }
}

/// The security results are never empty, and a graph that holds a
/// JavaScript action node makes the first result a failed
/// `IOC:JavaScriptAction` check.
pub proof fn lemma_security_results(nodes: Seq<AstNode>, decoded: Seq<bool>)
    ensures
        security_results(nodes, decoded).len() > 0,
        (exists|j: int| 0 <= j < nodes.len() && #[trigger] nodes[j].node_type == NodeType::JavaScriptAction) ==> (
        security_results(nodes, decoded)[0].0 == "IOC:JavaScriptAction"@ && security_results(nodes, decoded)[0].1
            == ValidationStatus::Fail),
{
    if exists|j: int| 0 <= j < nodes.len() && #[trigger] nodes[j].node_type == NodeType::JavaScriptAction {
        let j = choose|j: int| 0 <= j < nodes.len() && #[trigger] nodes[j].node_type == NodeType::JavaScriptAction;
        lemma_type_count_positive(nodes, NodeType::JavaScriptAction, nodes.len() as int, j);
        let f = security_findings(nodes, decoded);
        let first = count_finding(
            type_count(nodes, NodeType::JavaScriptAction, nodes.len() as int),
            "IOC:JavaScriptAction"@,
            ValidationStatus::Fail,
            "JavaScript actions detected: "@,
        );
        assert(first.len() == 1);
        assert(f.len() >= 1);
        assert(f[0] == first[0]);
    }
}

/// The places where each kind of sign was found, one entry per sign, and
/// the addresses found.
struct Hits {
    open_action: Vec<usize>,
    aa: Vec<usize>,
    xfa: Vec<usize>,
    embedded: Vec<usize>,
    launch: Vec<usize>,
    js: Vec<usize>,
    suspicious: Vec<usize>,
    uris: Vec<String>,
}

spec fn hits_view(h: Hits) -> Scan {
    Scan {
        open_action: h.open_action@.len(),
        aa: h.aa@.len(),
        xfa: h.xfa@.len(),
        embedded: h.embedded@.len(),
        launch: h.launch@.len(),
        js: h.js@.len(),
        suspicious: h.suspicious@.len(),
        uris: strings_sv(h.uris@),
    }
}

/// The address under a dictionary's `/URI`.
fn extract_uri(d: &PdfDictionary) -> (r: Option<String>)
    ensures
        match r {
            Some(t) => uri_entry(d.sv_entries()) == Some(t@),
            None => uri_entry(d.sv_entries()) is None,
        },
{
    match d.get("URI") {
        Some(v) => extract_string_value(v),
        None => None,
    }
}

/// The action type a dictionary names under `/S`.
fn action_name(d: &PdfDictionary) -> (r: Option<&str>)
    ensures
        match r {
            Some(t) => action_of(d.sv_entries()) == Some(t@),
            None => action_of(d.sv_entries()) is None,
        },
{
    match d.get("S") {
        Some(v) => {
            proof {
                lemma_value_view(v);
            }
            match v {
                PdfValue::Name(n) => Some(n.without_slash()),
                _ => None,
            }
        },
        None => None,
    }
}

fn names_filespec(d: &PdfDictionary) -> (r: bool)
    ensures
        r == is_filespec(d.sv_entries()),
{
    match d.get("Type") {
        Some(v) => {
            proof {
                lemma_value_view(v);
            }
            match v {
                PdfValue::Name(t) => crate::types::str_equal(t.without_slash(), "Filespec"),
                _ => false,
            }
        },
        None => false,
    }
}

fn scan_dict(d: &PdfDictionary, index: usize, hits: &mut Hits)
    ensures
        hits_view(*final(hits)) == scan_add(hits_view(*old(hits)), dict_scan(d.sv_entries())),
{
    let ghost e = d.sv_entries();
    let ghost start = hits_view(*hits);
    proof {
        reveal_strlit("JavaScript");
        reveal_strlit("Launch");
        reveal_strlit("URI");
        assert("Launch"@.len() == 6);
        assert("JavaScript"@.len() == 10);
        assert("URI"@.len() == 3);
    }
    if d.contains_key("OpenAction") {
        hits.open_action.push(index);
    }
    if d.contains_key("AA") {
        hits.aa.push(index);
    }
    if d.contains_key("XFA") {
        hits.xfa.push(index);
    }
    if d.contains_key("EF") || d.contains_key("EmbeddedFiles") {
        hits.embedded.push(index);
    }
    let action = action_name(d);
    let ghost before_uris = hits.uris@;
    match action {
        Some(a) => {
            if crate::types::str_equal(a, "JavaScript") {
                hits.js.push(index);
            } else if crate::types::str_equal(a, "Launch") {
                hits.launch.push(index);
            } else if crate::types::str_equal(a, "URI") {
                match extract_uri(d) {
                    Some(u) => hits.uris.push(u),
                    None => {},
                }
            }
        },
        None => {},
    }
    let ghost mid_uris = hits.uris@;
    match extract_uri(d) {
        Some(u) => hits.uris.push(u),
        None => {},
    }
    if names_filespec(d) {
        hits.embedded.push(index);
    }
    proof {
        assert(strings_sv(hits.uris@) =~= start.uris + dict_scan(e).uris);
        assert(hits_view(*hits).open_action == start.open_action + dict_scan(e).open_action);
        assert(hits_view(*hits).aa == start.aa + dict_scan(e).aa);
        assert(hits_view(*hits).xfa == start.xfa + dict_scan(e).xfa);
        assert(hits_view(*hits).embedded == start.embedded + dict_scan(e).embedded);
        assert(hits_view(*hits).launch == start.launch + dict_scan(e).launch);
        assert(hits_view(*hits).js == start.js + dict_scan(e).js);
        assert(hits_view(*hits).suspicious == start.suspicious + dict_scan(e).suspicious);
        assert(hits_view(*hits) == scan_add(start, dict_scan(e)));
    }
}

/// Counts the texts that hold a sign of JavaScript and those that hold a
/// suspicious pattern.
fn scan_texts(texts: &Vec<String>, index: usize, hits: &mut Hits)
    ensures
        hits_view(*final(hits)) == (Scan {
            js: hits_view(*old(hits)).js + count_matching(strings_sv(texts@), true),
            suspicious: hits_view(*old(hits)).suspicious + count_matching(strings_sv(texts@), false),
            ..hits_view(*old(hits))
        }),
{
    let ghost t = strings_sv(texts@);
    let ghost start = hits_view(*hits);
    let mut i: usize = 0;
    while i < texts.len()
        invariant
            i <= texts@.len(),
            t == strings_sv(texts@),
            hits_view(*hits) == (Scan {
                js: start.js + count_matching(t.take(i as int), true),
                suspicious: start.suspicious + count_matching(t.take(i as int), false),
                ..start
            }),
        decreases texts@.len() - i,
    {
        proof {
            assert(t.take(i + 1).drop_last() =~= t.take(i as int));
            assert(t.take(i + 1).last() == texts@[i as int]@);
        }
        if is_javascript_pattern(texts[i].as_str()) {
            hits.js.push(index);
        }
        if is_suspicious_pattern(texts[i].as_str()) {
            hits.suspicious.push(index);
        }
        i = i + 1;
    }
    proof {
        assert(t.take(texts@.len() as int) =~= t);
    }
}

fn scan_node(value: &PdfValue, index: usize, stream_text: Option<String>, hits: &mut Hits)
    ensures
        hits_view(*final(hits)) == scan_add(
            hits_view(*old(hits)),
            node_scan(
                value.sv(),
                match stream_text {
                    Some(t) => Some(t@),
                    None => None,
                },
            ),
        ),
{
    let ghost start = hits_view(*hits);
    proof {
        lemma_value_view(value);
    }
    match value.as_dict() {
        Some(d) => scan_dict(d, index, hits),
        None => {},
    }
    let mut texts: Vec<String> = Vec::new();
    collect_textual_values(value, &mut texts);
    proof {
        assert(strings_sv(texts@) =~= texts_of(value.sv()));
    }
    scan_texts(&texts, index, hits);
    match &stream_text {
        Some(t) => {
            if is_javascript_pattern(t.as_str()) {
                hits.js.push(index);
            }
            if is_suspicious_pattern(t.as_str()) {
                hits.suspicious.push(index);
            }
        },
        None => {},
    }
}

/// The text of the first mebibyte of bytes.
fn sample(bytes: &Vec<u8>) -> (r: String)
    ensures
        r@ == read_text(
            bytes@.take(
                if bytes@.len() < 1048576 {
                    bytes@.len() as int
                } else {
                    1048576
                },
            ),
        ),
{
    let n: usize = if bytes.len() < 1048576 {
        bytes.len()
    } else {
        1048576
    };
    let mut head: Vec<u8> = Vec::new();
    let mut i: usize = 0;
    while i < n
        invariant
            i <= n,
            n <= bytes@.len(),
            head@ == bytes@.take(i as int),
        decreases n - i,
    {
        head.push(bytes[i]);
        proof {
            assert(bytes@.take(i + 1) =~= bytes@.take(i as int).push(bytes@[i as int]));
        }
        i = i + 1;
    }
    crate::types::utf8_lossy(head.as_slice())
}

fn count_type(nodes: &Vec<AstNode>, t: NodeType) -> (r: usize)
    ensures
        r == type_count(nodes@, t, nodes@.len() as int),
{
    let mut n: usize = 0;
    let mut i: usize = 0;
    while i < nodes.len()
        invariant
            i <= nodes@.len(),
            n <= i,
            n == type_count(nodes@, t, i as int),
        decreases nodes@.len() - i,
    {
        if nodes[i].node_type == t {
            n = n + 1;
        }
        i = i + 1;
    }
    n
}

fn push_count(results: &mut Vec<ValidationResult>, n: usize, check: &str, status: ValidationStatus, label: &str)
    ensures
        results_view(final(results)@) == results_view(old(results)@) + count_finding(n as nat, check@, status, label@),
{
    let ghost before = results@;
    if n > 0 {
        let mut message = String::from_str(label);
        let d = usize_text(n);
        message.append(d.as_str());
        results.push(ValidationResult { check_type: String::from_str(check), status, message });
        proof {
            assert(results_view(results@) =~= results_view(before) + count_finding(n as nat, check@, status, label@));
        }
    } else {
        proof {
            assert(results_view(results@) =~= results_view(before) + count_finding(n as nat, check@, status, label@));
        }
    }
}

fn uri_result(u: &String) -> (r: ValidationResult)
    ensures
        (r.check_type@, r.status, r.message@) == ("IOC:URI"@, uri_status(u@), "External URI: "@ + u@),
        (u@.len() >= 7 && u@.subrange(0, 7) == "http://"@) ==> r.status == ValidationStatus::Fail,
{
    let t = u.as_str();
    let status = if str_starts_with(t, "http://") || str_starts_with(t, "ftp://") || str_starts_with(t, "file://")
        || str_contains(t, "\\\\") {
        ValidationStatus::Fail
    } else {
        ValidationStatus::Warning
    };
    let mut message = String::from_str("External URI: ");
    message.append(t);
    ValidationResult { check_type: String::from_str("IOC:URI"), status, message }
}

impl SecurityAnalyzer {
    /// Looks for signs of malicious content in a graph: actions, embedded
    /// files and media by node type; open and additional actions, XFA forms,
    /// embedded files, launch and URI actions in dictionaries; signs of
    /// JavaScript and suspicious patterns in texts and in the streams that
    /// can be decoded within the budget.  Which streams the budget lets
    /// through is left open; every other finding is fixed by the graph.
    pub fn analyze_with_budget(ast: &PdfAstGraph, budget: &ResourceBudget) -> (r: SecurityInfo)
        ensures
            exists|decoded: Seq<bool>|
                {
                    &&& decoded.len() == ast.nodes_spec().len()
                    &&& forall|i: int|
                        0 <= i < decoded.len() && #[trigger] decoded[i] ==> (ast.nodes_spec()[i].value matches PdfValue::Stream(
                            st,
                        ) && unfiltered(&st.dict))
                    &&& results_view(r.validation_results@) == security_results(ast.nodes_spec(), decoded)
                },
            r.signatures@.len() == 0,
            r.encryption is None,
            r.permissions == all_permitted(),
    {
        let nodes = ast.nodes();
        let mut results: Vec<ValidationResult> = Vec::new();
        push_count(&mut results, count_type(nodes, NodeType::JavaScriptAction), "IOC:JavaScriptAction", ValidationStatus::Fail, "JavaScript actions detected: ");
        push_count(&mut results, count_type(nodes, NodeType::URIAction), "IOC:URIAction", ValidationStatus::Warning, "URI actions detected: ");
        push_count(&mut results, count_type(nodes, NodeType::LaunchAction), "IOC:LaunchAction", ValidationStatus::Fail, "Launch actions detected: ");
        push_count(&mut results, count_type(nodes, NodeType::EmbeddedFile), "IOC:EmbeddedFile", ValidationStatus::Warning, "Embedded files detected: ");
        push_count(&mut results, count_type(nodes, NodeType::RichMedia), "IOC:RichMedia", ValidationStatus::Fail, "RichMedia content detected: ");
        let mut hits = Hits {
            open_action: Vec::new(),
            aa: Vec::new(),
            xfa: Vec::new(),
            embedded: Vec::new(),
            launch: Vec::new(),
            js: Vec::new(),
            suspicious: Vec::new(),
            uris: Vec::new(),
        };
        proof {
            assert(strings_sv(hits.uris@) =~= Seq::<Seq<char>>::empty());
            assert(hits_view(hits) == empty_scan());
        }
        let ghost mut decoded: Seq<bool> = Seq::empty();
        let mut i: usize = 0;
        while i < nodes.len()
            invariant
                i <= nodes@.len(),
                nodes@ == ast.nodes_spec(),
                decoded.len() == i,
                forall|j: int|
                    0 <= j < i && #[trigger] decoded[j] ==> (nodes@[j].value matches PdfValue::Stream(st) && unfiltered(
                        &st.dict,
                    )),
                hits_view(hits) == scan_total(nodes@, decoded, i as int),
            decreases nodes@.len() - i,
        {
            let node = &nodes[i];
            let mut stream_text: Option<String> = None;
            let mut ok = false;
            proof {
                lemma_value_view(&node.value);
            }
            match &node.value {
                PdfValue::Stream(st) => {
                    match decode_unfiltered_stream(st, budget) {
                        Ok(bytes) => {
                            stream_text = Some(sample(&bytes));
                            ok = true;
                        },
                        Err(_) => {},
                    }
                },
                _ => {},
            }
            let ghost old_decoded = decoded;
            proof {
                decoded = decoded.push(ok);
                assert(match stream_text {
                    Some(t) => Some(t@),
                    None => None,
                } == if decoded[i as int] {
                    sample_text(nodes@[i as int].value.sv())
                } else {
                    None
                });
                assert(scan_total(nodes@, decoded, i as int) == scan_total(nodes@, old_decoded, i as int)) by {
                    lemma_scan_total_prefix(nodes@, decoded, old_decoded, i as int);
                }
            }
            scan_node(&node.value, i, stream_text, &mut hits);
            i = i + 1;
        }
        push_count(&mut results, hits.open_action.len(), "IOC:OpenAction", ValidationStatus::Warning, "OpenAction present: ");
        push_count(&mut results, hits.aa.len(), "IOC:AdditionalActions", ValidationStatus::Warning, "Additional Actions (AA) present: ");
        push_count(&mut results, hits.xfa.len(), "IOC:XFA", ValidationStatus::Fail, "XFA forms detected: ");
        push_count(&mut results, hits.launch.len(), "IOC:Launch", ValidationStatus::Fail, "Launch actions detected: ");
        push_count(&mut results, hits.embedded.len(), "IOC:EmbeddedFiles", ValidationStatus::Warning, "Embedded file indicators: ");
        let ghost before_uris = results@;
        let mut k: usize = 0;
        while k < hits.uris.len()
            invariant
                k <= hits.uris@.len(),
                results_view(results@) == results_view(before_uris) + uri_findings(strings_sv(hits.uris@).take(k as int)),
            decreases hits.uris@.len() - k,
        {
            let r = uri_result(&hits.uris[k]);
            let ghost prev = results@;
            results.push(r);
            proof {
                let u = strings_sv(hits.uris@);
                assert(u.take(k + 1) =~= u.take(k as int).push(u[k as int]));
                assert(uri_findings(u.take(k + 1)) =~= uri_findings(u.take(k as int)).push(
                    ("IOC:URI"@, uri_status(u[k as int]), "External URI: "@ + u[k as int]),
                ));
                assert(results_view(results@) =~= results_view(prev).push((r.check_type@, r.status, r.message@)));
            }
            k = k + 1;
        }
        proof {
            assert(strings_sv(hits.uris@).take(hits.uris@.len() as int) =~= strings_sv(hits.uris@));
        }
        push_count(&mut results, hits.js.len(), "IOC:JavaScriptIndicators", ValidationStatus::Fail, "JavaScript indicators found: ");
        push_count(&mut results, hits.suspicious.len(), "IOC:SuspiciousPatterns", ValidationStatus::Warning, "Suspicious patterns found: ");
        proof {
            assert(results_view(results@) =~= security_findings(nodes@, decoded));
        }
        if results.len() == 0 {
            results.push(
                ValidationResult {
                    check_type: String::from_str("Security"),
                    status: ValidationStatus::Pass,
                    message: String::from_str("No suspicious indicators detected"),
                },
            );
            proof {
                assert(results_view(results@) =~= security_results(nodes@, decoded));
            }
        }
        proof {
            assert(results_view(results@) == security_results(ast.nodes_spec(), decoded));
            assert(decoded.len() == ast.nodes_spec().len());
        }
        SecurityInfo {
            signatures: Vec::new(),
            encryption: None,
            permissions: DocumentPermissions::default(),
            validation_results: results,
        }
    }

    /// The analysis with the default budget.
    pub fn analyze(ast: &PdfAstGraph) -> (r: SecurityInfo)
        ensures
            exists|decoded: Seq<bool>|
                {
                    &&& decoded.len() == ast.nodes_spec().len()
                    &&& forall|i: int|
                        0 <= i < decoded.len() && #[trigger] decoded[i] ==> (ast.nodes_spec()[i].value matches PdfValue::Stream(
                            st,
                        ) && unfiltered(&st.dict))
                    &&& results_view(r.validation_results@) == security_results(ast.nodes_spec(), decoded)
                },
            r.signatures@.len() == 0,
            r.encryption is None,
            r.permissions == all_permitted(),
    {
        Self::analyze_with_budget(ast, &ResourceBudget::default())
    }
}

proof fn lemma_scan_total_prefix(nodes: Seq<AstNode>, a: Seq<bool>, b: Seq<bool>, k: int)
    requires
        0 <= k <= a.len(),
        k <= b.len(),
        forall|j: int| 0 <= j < k ==> a[j] == b[j],
    ensures
        scan_total(nodes, a, k) == scan_total(nodes, b, k),
    decreases k,
{
    if k > 0 {
        lemma_scan_total_prefix(nodes, a, b, k - 1);
    }
}

} // verus!
