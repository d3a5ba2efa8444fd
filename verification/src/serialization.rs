//! Plain records that the serialized forms of graphs and documents are made
//! of, and the conversion of cross-reference entries to and from them.
use crate::ast::{
    holds_node, index_of_node, props_sv, spec_is_cyclic, AstEdge, AstNode, EdgeType, NodeId, NodeMetadata,
    NodeType, PdfAstGraph, TextMap,
};
use crate::type_names::{
    edge_type_name, lemma_edge_type_name_round_trip, lemma_node_type_name_round_trip, node_type_name,
    parse_edge_type, parse_node_type, spec_edge_type_name, spec_edge_type_of_name, spec_node_type_name,
    spec_object_of_type, spec_type_of_name,
};
use crate::types::{
    keys_unique, lemma_array_view, lemma_dict_absent, lemma_dict_view, lemma_value_view, name_text, read_text,
    spec_dict_insert, PdfDictionary, PdfName, PdfReal, PdfStream, PdfString, PdfStringKind, PdfValue,
    SpecValue, StreamData,
};
use vstd::string::StringSliceAdditionalSpecFns;
use vstd::utf8::{decode_utf8_encode_utf8, valid_utf8};
use crate::limits::{budget_error_name, ResourceBudget, ResourceBudgetError};
use crate::text::{concat2, decimal, msg, usize_text};
use crate::types::str_equal;
use crate::xref::XRefEntry;
use vstd::prelude::*;

verus! {

/// A cross-reference entry as a record: its kind by name and the fields
/// that kind has.
#[derive(Debug, Clone)]
pub struct SerializableXRefEntry {
    pub offset: Option<u64>,
    pub generation: u16,
    pub entry_type: String,
    pub next_free_object: Option<u32>,
    pub stream_object: Option<u32>,
    pub index: Option<u32>,
}

/// What was found when the cross-reference data was checked against the
/// objects of the file.
#[derive(Debug)]
pub struct SerializableForensicSnapshot {
    pub declared_xref: TextMap<XRefEntry>,
    pub recovered_xref: TextMap<XRefEntry>,
    pub duplicate_objects: Vec<(u32, u16)>,
    pub overwritten_objects: Vec<(u32, u16)>,
    pub residual_ranges: Vec<(u64, u64)>,
}

/// What a document holds, in brief.
#[derive(Debug, Clone)]
pub struct SerializableDocumentMetadata {
    pub file_size: Option<u64>,
    pub linearized: bool,
    pub encrypted: bool,
    pub has_forms: bool,
    pub has_xfa: bool,
    pub xfa_packets: usize,
    pub has_xfa_scripts: bool,
    pub xfa_script_nodes: usize,
    pub has_hybrid_forms: bool,
    pub form_field_count: usize,
    pub has_javascript: bool,
    pub has_embedded_files: bool,
    pub has_signatures: bool,
    pub has_richmedia: bool,
    pub richmedia_annotations: usize,
    pub richmedia_assets: usize,
    pub richmedia_scripts: usize,
    pub has_3d: bool,
    pub threed_annotations: usize,
    pub threed_u3d: usize,
    pub threed_prc: usize,
    pub has_audio: bool,
    pub audio_annotations: usize,
    pub has_video: bool,
    pub video_annotations: usize,
    pub has_dss: bool,
    pub dss_vri_count: usize,
    pub dss_certs: usize,
    pub dss_ocsp: usize,
    pub dss_crl: usize,
    pub dss_timestamps: usize,
    pub page_count: usize,
    pub producer: Option<String>,
    pub creator: Option<String>,
    pub creation_date: Option<String>,
    pub modification_date: Option<String>,
    pub title: Option<String>,
    pub author: Option<String>,
    pub subject: Option<String>,
}

#[derive(Debug, Clone)]
pub struct SerializableEdge {
    pub from: usize,
    pub to: usize,
    pub edge_type: String,
}

#[derive(Debug, Clone)]
pub struct GraphMetadata {
    pub node_count: usize,
    pub edge_count: usize,
    pub is_cyclic: bool,
    pub serialization_version: String,
}

/// Rebuilds graphs from their serialized form.
pub struct GraphDeserializer;

/// The record an entry becomes.
pub open spec fn spec_serialized(entry: XRefEntry) -> (Option<u64>, u16, Seq<char>, Option<u32>, Option<u32>, Option<u32>) {
    match entry {
        XRefEntry::InUse { offset, generation } => (Some(offset), generation, "InUse"@, None, None, None),
        XRefEntry::Free { next_free_object, generation } => (
            None,
            generation,
            "Free"@,
            Some(next_free_object),
            None,
            None,
        ),
        XRefEntry::Compressed { stream_object, index } => (
            None,
            0,
            "Compressed"@,
            None,
            Some(stream_object),
            Some(index),
        ),
    }
}

pub open spec fn record_view(e: &SerializableXRefEntry) -> (Option<u64>, u16, Seq<char>, Option<u32>, Option<u32>, Option<u32>) {
    (e.offset, e.generation, e.entry_type@, e.next_free_object, e.stream_object, e.index)
}

/// The entry a record stands for, or why it stands for none.
pub open spec fn spec_deserialized(e: &SerializableXRefEntry) -> Result<XRefEntry, Seq<char>> {
    if e.entry_type@ == "InUse"@ {
        match e.offset {
            Some(offset) => Ok(XRefEntry::InUse { offset, generation: e.generation }),
            None => Err("InUse xref entry is missing offset"@),
        }
    } else if e.entry_type@ == "Free"@ {
        match e.next_free_object {
            Some(n) => Ok(XRefEntry::Free { next_free_object: n, generation: e.generation }),
            None => Err("Free xref entry is missing next_free_object"@),
        }
    } else if e.entry_type@ == "Compressed"@ {
        if e.generation != 0 {
            Err("Compressed xref entry has non-zero generation"@)
        } else {
            match (e.stream_object, e.index) {
                (Some(s), Some(i)) => Ok(XRefEntry::Compressed { stream_object: s, index: i }),
                (None, _) => Err("Compressed xref entry is missing stream_object"@),
                (Some(_), None) => Err("Compressed xref entry is missing index"@),
            }
        }
    } else {
        Err("Unknown xref entry type: "@ + e.entry_type@)
    }
}

/// The record of a cross-reference entry.
pub fn serialize_xref_entry(entry: XRefEntry) -> (r: SerializableXRefEntry)
    ensures
        record_view(&r) == spec_serialized(entry),
{
    match entry {
        XRefEntry::InUse { offset, generation } => SerializableXRefEntry {
            offset: Some(offset),
            generation,
            entry_type: msg("InUse"),
            next_free_object: None,
            stream_object: None,
            index: None,
        },
        XRefEntry::Free { next_free_object, generation } => SerializableXRefEntry {
            offset: None,
            generation,
            entry_type: msg("Free"),
            next_free_object: Some(next_free_object),
            stream_object: None,
            index: None,
        },
        XRefEntry::Compressed { stream_object, index } => SerializableXRefEntry {
            offset: None,
            generation: 0,
            entry_type: msg("Compressed"),
            next_free_object: None,
            stream_object: Some(stream_object),
            index: Some(index),
        },
    }
}

/// The cross-reference entry a record stands for.
pub fn deserialize_xref_entry(entry: &SerializableXRefEntry) -> (r: Result<XRefEntry, String>)
    ensures
        match spec_deserialized(entry) {
            Ok(e) => r == Ok::<XRefEntry, String>(e),
            Err(m) => r matches Err(x) && x@ == m,
        },
{
    let kind = entry.entry_type.as_str();
    if str_equal(kind, "InUse") {
        match entry.offset {
            Some(offset) => Ok(XRefEntry::InUse { offset, generation: entry.generation }),
            None => Err(msg("InUse xref entry is missing offset")),
        }
    } else if str_equal(kind, "Free") {
        match entry.next_free_object {
            Some(n) => Ok(XRefEntry::Free { next_free_object: n, generation: entry.generation }),
            None => Err(msg("Free xref entry is missing next_free_object")),
        }
    } else if str_equal(kind, "Compressed") {
        if entry.generation != 0 {
            return Err(msg("Compressed xref entry has non-zero generation"));
        }
        let stream_object = match entry.stream_object {
            Some(s) => s,
            None => return Err(msg("Compressed xref entry is missing stream_object")),
        };
        let index = match entry.index {
            Some(i) => i,
            None => return Err(msg("Compressed xref entry is missing index")),
        };
        Ok(XRefEntry::Compressed { stream_object, index })
    } else {
        Err(concat2("Unknown xref entry type: ", kind))
    }
}

/// Reading back the record of an entry gives the entry: a compressed
/// entry's record carries generation 0, which is the only generation such
/// an entry is read with.
pub proof fn lemma_xref_entry_round_trip(entry: XRefEntry, record: SerializableXRefEntry)
    requires
        record_view(&record) == spec_serialized(entry),
    ensures
        spec_deserialized(&record) == Ok::<XRefEntry, Seq<char>>(entry),
{
    reveal_strlit("InUse");
    reveal_strlit("Free");
    reveal_strlit("Compressed");
    assert("InUse"@.len() == 5);
    assert("Free"@.len() == 4);
    assert("Compressed"@.len() == 10);
    assert("InUse"@ != "Free"@);
    assert("InUse"@ != "Compressed"@);
    assert("Free"@ != "Compressed"@);
}


/// A value in its serialized form: strings as text, dictionaries as lists of
/// keys and values in their order, streams with their bytes and whether
/// those are decoded.
#[derive(Debug)]
pub enum SerializableValue {
    Null,
    Boolean(bool),
    Integer(i64),
    Real(PdfReal),
    String(String),
    Name(String),
    Array(Vec<SerializableValue>),
    Dictionary(Vec<(String, SerializableValue)>),
    Stream { dictionary: Vec<(String, SerializableValue)>, data: Vec<u8>, decoded: bool },
    Reference { object_id: u32, generation: u16 },
}

/// A serialized value as mathematical values.
pub enum SerialValue {
    Null,
    Boolean(bool),
    Integer(int),
    Real(int, nat),
    String(Seq<char>),
    Name(Seq<char>),
    Array(Seq<SerialValue>),
    Dictionary(Seq<(Seq<char>, SerialValue)>),
    Stream(Seq<(Seq<char>, SerialValue)>, Seq<u8>, bool),
    Reference(u32, u16),
}

pub open spec fn serial_items_view(a: &Vec<SerializableValue>) -> Seq<SerialValue>
    decreases a, 0int,
{
    Seq::new(
        a@.len(),
        |i: int|
            if 0 <= i < a@.len() {
                a@[i].view_serial()
            } else {
                SerialValue::Null
            },
    )
}

pub open spec fn serial_entries_view(e: &Vec<(String, SerializableValue)>) -> Seq<(Seq<char>, SerialValue)>
    decreases e, 0int,
{
    Seq::new(
        e@.len(),
        |i: int|
            if 0 <= i < e@.len() {
                (e@[i].0@, e@[i].1.view_serial())
            } else {
                (Seq::empty(), SerialValue::Null)
            },
    )
}

impl SerializableValue {
    pub open spec fn view_serial(&self) -> SerialValue
        decreases self, 1int,
    {
        match self {
            SerializableValue::Null => SerialValue::Null,
            SerializableValue::Boolean(b) => SerialValue::Boolean(*b),
            SerializableValue::Integer(i) => SerialValue::Integer(*i as int),
            SerializableValue::Real(r) => SerialValue::Real(r.mantissa as int, r.scale as nat),
            SerializableValue::String(t) => SerialValue::String(t@),
            SerializableValue::Name(n) => SerialValue::Name(n@),
            SerializableValue::Array(a) => SerialValue::Array(serial_items_view(a)),
            SerializableValue::Dictionary(e) => SerialValue::Dictionary(serial_entries_view(e)),
            SerializableValue::Stream { dictionary, data, decoded } => SerialValue::Stream(
                serial_entries_view(dictionary),
                data@,
                *decoded,
            ),
            SerializableValue::Reference { object_id, generation } => SerialValue::Reference(
                *object_id,
                *generation,
            ),
        }
    }
}

/// The serialized form of a value: a string becomes the text its bytes read
/// as, everything else keeps its content.
pub open spec fn serial_of(v: SpecValue) -> SerialValue
    decreases v, 1nat, 0nat,
{
    match v {
        SpecValue::Null => SerialValue::Null,
        SpecValue::Boolean(b) => SerialValue::Boolean(b),
        SpecValue::Integer(i) => SerialValue::Integer(i),
        SpecValue::Real(m, e) => SerialValue::Real(m, e),
        SpecValue::String(bytes, _) => SerialValue::String(read_text(bytes)),
        SpecValue::Name(n) => SerialValue::Name(n),
        SpecValue::Array(items) => SerialValue::Array(serial_items_of(items)),
        SpecValue::Dictionary(e) => SerialValue::Dictionary(serial_entries_of(e)),
        SpecValue::Stream(e, data, decoded) => SerialValue::Stream(serial_entries_of(e), data, decoded),
        SpecValue::Reference(n, g) => SerialValue::Reference(n, g),
    }
}

pub open spec fn serial_items_of(items: Seq<SpecValue>) -> Seq<SerialValue>
    decreases items, 0nat, items.len(),
{
    if items.len() == 0 {
        Seq::empty()
    } else {
        proof {
            assert(decreases_to!(items => items[items.len() - 1]));
        }
        serial_items_of(items.drop_last()).push(serial_of(items.last()))
    }
}

pub open spec fn serial_entries_of(e: Seq<(Seq<char>, SpecValue)>) -> Seq<(Seq<char>, SerialValue)>
    decreases e, 0nat, e.len(),
{
    if e.len() == 0 {
        Seq::empty()
    } else {
        proof {
            assert(decreases_to!(e => e[e.len() - 1]));
            assert(decreases_to!(e[e.len() - 1] => e[e.len() - 1].1));
        }
        serial_entries_of(e.drop_last()).push((e.last().0, serial_of(e.last().1)))
    }
}

/// The value a serialized form reads back as: text becomes its UTF-8
/// bytes in a literal string, a name gets its `/`, and a dictionary's
/// entries are set one after another, a later one replacing an earlier one
/// with the same key.
pub open spec fn value_of(s: SerialValue) -> SpecValue
    decreases s, 1nat, 0nat,
{
    match s {
        SerialValue::Null => SpecValue::Null,
        SerialValue::Boolean(b) => SpecValue::Boolean(b),
        SerialValue::Integer(i) => SpecValue::Integer(i),
        SerialValue::Real(m, e) => SpecValue::Real(m, e),
        SerialValue::String(t) => SpecValue::String(vstd::utf8::encode_utf8(t), PdfStringKind::Literal),
        SerialValue::Name(n) => SpecValue::Name(name_text(n)),
        SerialValue::Array(items) => SpecValue::Array(values_of(items)),
        SerialValue::Dictionary(e) => SpecValue::Dictionary(dict_of(e)),
        SerialValue::Stream(e, data, decoded) => SpecValue::Stream(dict_of(e), data, decoded),
        SerialValue::Reference(n, g) => SpecValue::Reference(n, g),
    }
}

pub open spec fn values_of(items: Seq<SerialValue>) -> Seq<SpecValue>
    decreases items, 0nat, items.len(),
{
    if items.len() == 0 {
        Seq::empty()
    } else {
        proof {
            assert(decreases_to!(items => items[items.len() - 1]));
        }
        values_of(items.drop_last()).push(value_of(items.last()))
    }
}

pub open spec fn dict_of(e: Seq<(Seq<char>, SerialValue)>) -> Seq<(Seq<char>, SpecValue)>
    decreases e, 0nat, e.len(),
{
    if e.len() == 0 {
        Seq::empty()
    } else {
        proof {
            assert(decreases_to!(e => e[e.len() - 1]));
            assert(decreases_to!(e[e.len() - 1] => e[e.len() - 1].1));
        }
        spec_dict_insert(dict_of(e.drop_last()), name_text(e.last().0), value_of(e.last().1))
    }
}


pub open spec fn is_name_text(n: Seq<char>) -> bool {
    n.len() > 0 && n[0] == '/'
}

/// A value that reads back unchanged from its serialized form: its strings
/// are literal and valid UTF-8, and its names and dictionary keys are name
/// texts, no key twice in a dictionary.
pub open spec fn plain_value(v: SpecValue) -> bool
    decreases v, 1nat, 0nat,
{
    match v {
        SpecValue::String(b, kind) => kind == PdfStringKind::Literal && valid_utf8(b),
        SpecValue::Name(n) => is_name_text(n),
        SpecValue::Array(items) => plain_items(items),
        SpecValue::Dictionary(e) => plain_entries(e) && keys_unique(e),
        SpecValue::Stream(e, _, _) => plain_entries(e) && keys_unique(e),
        _ => true,
    }
}

pub open spec fn plain_items(items: Seq<SpecValue>) -> bool
    decreases items, 0nat, items.len(),
{
    if items.len() == 0 {
        true
    } else {
        proof {
            assert(decreases_to!(items => items[items.len() - 1]));
        }
        plain_items(items.drop_last()) && plain_value(items.last())
    }
}

pub open spec fn plain_entries(e: Seq<(Seq<char>, SpecValue)>) -> bool
    decreases e, 0nat, e.len(),
{
    if e.len() == 0 {
        true
    } else {
        proof {
            assert(decreases_to!(e => e[e.len() - 1]));
            assert(decreases_to!(e[e.len() - 1] => e[e.len() - 1].1));
        }
        plain_entries(e.drop_last()) && is_name_text(e.last().0) && plain_value(e.last().1)
    }
}

/// A plain value reads back from its serialized form as itself.
pub proof fn lemma_value_round_trip(v: SpecValue)
    requires
        plain_value(v),
    ensures
        value_of(serial_of(v)) == v,
    decreases v, 1nat, 0nat,
{
    match v {
        SpecValue::String(b, kind) => {
            decode_utf8_encode_utf8(b);
        },
        SpecValue::Array(items) => {
            lemma_items_round_trip(items);
        },
        SpecValue::Dictionary(e) => {
            lemma_entries_round_trip(e);
        },
        SpecValue::Stream(e, _, _) => {
            lemma_entries_round_trip(e);
        },
        _ => {},
    }
}

proof fn lemma_items_round_trip(items: Seq<SpecValue>)
    requires
        plain_items(items),
    ensures
        values_of(serial_items_of(items)) == items,
    decreases items, 0nat, items.len(),
{
    if items.len() > 0 {
        assert(decreases_to!(items => items[items.len() - 1]));
        lemma_items_round_trip(items.drop_last());
        lemma_value_round_trip(items.last());
        let s = serial_items_of(items);
        assert(s.drop_last() =~= serial_items_of(items.drop_last()));
        assert(items.drop_last().push(items.last()) =~= items);
    }
}

proof fn lemma_entries_round_trip(e: Seq<(Seq<char>, SpecValue)>)
    requires
        plain_entries(e),
        keys_unique(e),
    ensures
        dict_of(serial_entries_of(e)) == e,
    decreases e, 0nat, e.len(),
{
    if e.len() > 0 {
        assert(decreases_to!(e => e[e.len() - 1]));
        assert(decreases_to!(e[e.len() - 1] => e[e.len() - 1].1));
        let rest = e.drop_last();
        assert(keys_unique(rest));
        lemma_entries_round_trip(rest);
        lemma_value_round_trip(e.last().1);
        let s = serial_entries_of(e);
        assert(s.drop_last() =~= serial_entries_of(rest));
        assert forall|j: int| 0 <= j < rest.len() implies rest[j].0 != e.last().0 by {
            assert(rest[j] == e[j]);
        }
        lemma_dict_absent(rest, e.last().0, e.last().1);
        assert(rest.push(e.last()) =~= e);
    }
}

/// The serialized form of a value.
pub fn serialize_value(value: &PdfValue) -> (r: SerializableValue)
    ensures
        r.view_serial() == serial_of(value.sv()),
    decreases value, 2int,
{
    proof {
        lemma_value_view(value);
    }
    match value {
        PdfValue::Null => SerializableValue::Null,
        PdfValue::Boolean(b) => SerializableValue::Boolean(*b),
        PdfValue::Integer(i) => SerializableValue::Integer(*i),
        PdfValue::Real(x) => SerializableValue::Real(*x),
        PdfValue::String(t) => SerializableValue::String(t.to_string_lossy()),
        PdfValue::Name(n) => SerializableValue::Name(n.to_string()),
        PdfValue::Array(a) => SerializableValue::Array(serialize_items(a)),
        PdfValue::Dictionary(d) => SerializableValue::Dictionary(serialize_entries(d)),
        PdfValue::Stream(st) => {
            let dictionary = serialize_entries(&st.dict);
            let (data, decoded) = match &st.data {
                StreamData::Raw(b) => (vstd::slice::slice_to_vec(b.as_slice()), false),
                StreamData::Decoded(b) => (vstd::slice::slice_to_vec(b.as_slice()), true),
            };
            SerializableValue::Stream { dictionary, data, decoded }
        },
        PdfValue::Reference(r) => SerializableValue::Reference {
            object_id: r.object_number,
            generation: r.generation_number,
        },
    }
}

fn serialize_items(a: &Vec<PdfValue>) -> (r: Vec<SerializableValue>)
    ensures
        serial_items_view(&r) == serial_items_of(crate::types::array_sv(a)),
    decreases a, 1int,
{
    let ghost items = crate::types::array_sv(a);
    proof {
        lemma_array_view(a);
    }
    let mut out: Vec<SerializableValue> = Vec::new();
    let mut i: usize = 0;
    proof {
        assert(serial_items_view(&out) =~= serial_items_of(items.take(0)));
    }
    while i < a.len()
        invariant
            i <= a@.len(),
            items == crate::types::array_sv(a),
            items.len() == a@.len(),
            forall|j: int| 0 <= j < a@.len() ==> #[trigger] items[j] == a@[j].sv(),
            serial_items_view(&out) == serial_items_of(items.take(i as int)),
        decreases a@.len() - i,
    {
        proof {
            assert(decreases_to!(a@ => a@[i as int]));
        }
        let x = serialize_value(&a[i]);
        let ghost before = out;
        out.push(x);
        proof {
            assert(items.take(i + 1).drop_last() =~= items.take(i as int));
            assert(serial_items_view(&out) =~= serial_items_view(&before).push(x.view_serial()));
        }
        i = i + 1;
    }
    proof {
        assert(items.take(a@.len() as int) =~= items);
    }
    out
}

fn serialize_entries(d: &PdfDictionary) -> (r: Vec<(String, SerializableValue)>)
    ensures
        serial_entries_view(&r) == serial_entries_of(d.sv_entries()),
    decreases d, 1int,
{
    let ghost e = d.sv_entries();
    proof {
        lemma_dict_view(d);
    }
    let mut out: Vec<(String, SerializableValue)> = Vec::new();
    let mut i: usize = 0;
    proof {
        assert(serial_entries_view(&out) =~= serial_entries_of(e.take(0)));
    }
    while i < d.entries.len()
        invariant
            i <= d.entries@.len(),
            e == d.sv_entries(),
            e.len() == d.entries@.len(),
            forall|j: int| 0 <= j < d.entries@.len() ==> #[trigger] e[j] == (d.entries@[j].0@, d.entries@[j].1.sv()),
            serial_entries_view(&out) == serial_entries_of(e.take(i as int)),
        decreases d.entries@.len() - i,
    {
        let key = d.entries[i].0.to_string();
        let x = serialize_value(&d.entries[i].1);
        let ghost before = out;
        out.push((key, x));
        proof {
            assert(e[i as int] == (d.entries@[i as int].0@, d.entries@[i as int].1.sv()));
            assert(e.take(i + 1).drop_last() =~= e.take(i as int));
            assert(serial_entries_view(&out) =~= serial_entries_view(&before).push((key@, x.view_serial())));
        }
        i = i + 1;
    }
    proof {
        assert(e.take(d.entries@.len() as int) =~= e);
    }
    out
}

/// The value a serialized form reads back as.
pub fn deserialize_value(value: &SerializableValue) -> (r: PdfValue)
    ensures
        r.sv() == value_of(value.view_serial()),
    decreases value, 2int,
{
    let r = match value {
        SerializableValue::Null => PdfValue::Null,
        SerializableValue::Boolean(b) => PdfValue::Boolean(*b),
        SerializableValue::Integer(i) => PdfValue::Integer(*i),
        SerializableValue::Real(x) => PdfValue::Real(*x),
        SerializableValue::String(t) => PdfValue::String(PdfString::new_literal(t.as_str().as_bytes())),
        SerializableValue::Name(n) => PdfValue::Name(PdfName::new(n.as_str())),
        SerializableValue::Array(items) => PdfValue::Array(deserialize_items(items)),
        SerializableValue::Dictionary(e) => PdfValue::Dictionary(deserialize_entries(e)),
        SerializableValue::Stream { dictionary, data, decoded } => {
            let dict = deserialize_entries(dictionary);
            let bytes = vstd::slice::slice_to_vec(data.as_slice());
            let data = if *decoded {
                StreamData::Decoded(bytes)
            } else {
                StreamData::Raw(bytes)
            };
            PdfValue::Stream(PdfStream { dict, data })
        },
        SerializableValue::Reference { object_id, generation } => PdfValue::Reference(
            crate::types::PdfReference { object_number: *object_id, generation_number: *generation },
        ),
    };
    proof {
        lemma_value_view(&r);
    }
    r
}

fn deserialize_items(items: &Vec<SerializableValue>) -> (r: Vec<PdfValue>)
    ensures
        crate::types::array_sv(&r) == values_of(serial_items_view(items)),
    decreases items, 1int,
{
    let ghost s = serial_items_view(items);
    let mut out: Vec<PdfValue> = Vec::new();
    let mut i: usize = 0;
    proof {
        lemma_array_view(&out);
        assert(crate::types::array_sv(&out) =~= values_of(s.take(0)));
    }
    while i < items.len()
        invariant
            i <= items@.len(),
            s == serial_items_view(items),
            s.len() == items@.len(),
            crate::types::array_sv(&out) == values_of(s.take(i as int)),
        decreases items@.len() - i,
    {
        proof {
            assert(decreases_to!(items@ => items@[i as int]));
        }
        let x = deserialize_value(&items[i]);
        let ghost before = out;
        out.push(x);
        proof {
            assert(s[i as int] == items@[i as int].view_serial());
            assert(s.take(i + 1).drop_last() =~= s.take(i as int));
            lemma_array_view(&before);
            lemma_array_view(&out);
            assert(crate::types::array_sv(&out) =~= crate::types::array_sv(&before).push(x.sv()));
        }
        i = i + 1;
    }
    proof {
        assert(s.take(items@.len() as int) =~= s);
    }
    out
}

fn deserialize_entries(e: &Vec<(String, SerializableValue)>) -> (r: PdfDictionary)
    ensures
        r.sv_entries() == dict_of(serial_entries_view(e)),
    decreases e, 1int,
{
    let ghost s = serial_entries_view(e);
    let mut dict = PdfDictionary::new();
    let mut i: usize = 0;
    proof {
        assert(dict.sv_entries() =~= dict_of(s.take(0)));
    }
    while i < e.len()
        invariant
            i <= e@.len(),
            s == serial_entries_view(e),
            s.len() == e@.len(),
            dict.sv_entries() == dict_of(s.take(i as int)),
        decreases e@.len() - i,
    {
        proof {
            assert(decreases_to!(e@ => e@[i as int]));
        }
        let x = deserialize_value(&e[i].1);
        dict.insert(e[i].0.as_str(), x);
        proof {
            assert(s[i as int] == (e@[i as int].0@, e@[i as int].1.view_serial()));
            assert(s.take(i + 1).drop_last() =~= s.take(i as int));
        }
        i = i + 1;
    }
    proof {
        assert(s.take(e@.len() as int) =~= s);
    }
    dict
}


/// The version of the serialized graph format.
pub const AST_SCHEMA_VERSION: &'static str = "1.1.0";

/// A node in its serialized form: its place in the list, the id it had,
/// its type by name, its value, the object an object node stands for, and
/// its warnings and properties.
#[derive(Debug)]
pub struct SerializableNode {
    pub original_id: Option<usize>,
    pub id: usize,
    pub node_type: String,
    pub value: SerializableValue,
    pub object_id: Option<(u32, u16)>,
    pub warnings: Vec<String>,
    pub properties: Vec<(String, String)>,
}

/// A graph in its serialized form.
#[derive(Debug)]
pub struct SerializableGraph {
    pub nodes: Vec<SerializableNode>,
    pub edges: Vec<SerializableEdge>,
    pub root: Option<usize>,
    pub metadata: GraphMetadata,
}

/// A serialized node as mathematical values.
pub struct NodeRecord {
    pub original_id: Option<usize>,
    pub id: usize,
    pub node_type: Seq<char>,
    pub value: SerialValue,
    pub object_id: Option<(u32, u16)>,
    pub warnings: Seq<Seq<char>>,
    pub properties: Seq<(Seq<char>, Seq<char>)>,
}

/// A serialized edge as mathematical values.
pub struct EdgeRecord {
    pub from: usize,
    pub to: usize,
    pub edge_type: Seq<char>,
}

pub open spec fn texts_view(v: Seq<String>) -> Seq<Seq<char>> {
    v.map_values(|t: String| t@)
}

impl SerializableNode {
    pub open spec fn record(&self) -> NodeRecord {
        NodeRecord {
            original_id: self.original_id,
            id: self.id,
            node_type: self.node_type@,
            value: self.value.view_serial(),
            object_id: self.object_id,
            warnings: texts_view(self.warnings@),
            properties: props_sv(self.properties@),
        }
    }
}

impl SerializableEdge {
    pub open spec fn record(&self) -> EdgeRecord {
        EdgeRecord { from: self.from, to: self.to, edge_type: self.edge_type@ }
    }
}

pub open spec fn node_records(v: Seq<SerializableNode>) -> Seq<NodeRecord> {
    v.map_values(|n: SerializableNode| n.record())
}

pub open spec fn edge_records(v: Seq<SerializableEdge>) -> Seq<EdgeRecord> {
    v.map_values(|e: SerializableEdge| e.record())
}

/// The record node `n` becomes at place `i`.
pub open spec fn node_record(n: AstNode, i: int) -> NodeRecord {
    NodeRecord {
        original_id: Some(n.id.0),
        id: i as usize,
        node_type: spec_node_type_name(n.node_type),
        value: serial_of(n.value.sv()),
        object_id: spec_object_of_type(n.node_type),
        warnings: texts_view(n.metadata.warnings_spec()),
        properties: n.metadata.props(),
    }
}

pub open spec fn serial_nodes(nodes: Seq<AstNode>) -> Seq<NodeRecord> {
    Seq::new(nodes.len(), |i: int| node_record(nodes[i], i))
}

/// The edges between nodes of the graph, in their order, each by the
/// places of its ends.
pub open spec fn serial_edges(nodes: Seq<AstNode>, edges: Seq<AstEdge>) -> Seq<EdgeRecord>
    decreases edges.len(),
{
    if edges.len() == 0 {
        Seq::empty()
    } else {
        let rest = serial_edges(nodes, edges.drop_last());
        let e = edges.last();
        if holds_node(nodes, e.from) && holds_node(nodes, e.to) {
            rest.push(
                EdgeRecord {
                    from: index_of_node(nodes, e.from) as usize,
                    to: index_of_node(nodes, e.to) as usize,
                    edge_type: spec_edge_type_name(e.edge_type),
                },
            )
        } else {
            rest
        }
    }
}

/// The place of the root node, when the root is a node of the graph.
pub open spec fn serial_root(nodes: Seq<AstNode>, root: Option<NodeId>) -> Option<usize> {
    match root {
        Some(r) => if holds_node(nodes, r) {
            Some(index_of_node(nodes, r) as usize)
        } else {
            None
        },
        None => None,
    }
}

/// The place of the node with id `id` among `nodes`, whose ids differ.
pub(crate) fn node_place(nodes: &Vec<AstNode>, id: NodeId) -> (r: Option<usize>)
    requires
        forall|i: int, j: int| 0 <= i < j < nodes@.len() ==> (#[trigger] nodes@[i]).id != (#[trigger] nodes@[j]).id,
    ensures
        r is Some <==> holds_node(nodes@, id),
        r matches Some(i) ==> i == index_of_node(nodes@, id) && i < nodes@.len(),
{
    let mut i: usize = 0;
    while i < nodes.len()
        invariant
            i <= nodes@.len(),
            forall|a: int, b: int| 0 <= a < b < nodes@.len() ==> (#[trigger] nodes@[a]).id != (#[trigger] nodes@[b]).id,
            forall|j: int| 0 <= j < i ==> nodes@[j].id != id,
        decreases nodes@.len() - i,
    {
        if nodes[i].id == id {
            proof {
                assert(nodes@[i as int].id == id);
                assert(holds_node(nodes@, id));
                let k = index_of_node(nodes@, id);
                assert(nodes@[k].id == id);
                if k != i {
                    if k < i {
                        assert(nodes@[k].id != nodes@[i as int].id);
                    } else {
                        assert(nodes@[i as int].id != nodes@[k].id);
                    }
                }
            }
            return Some(i);
        }
        i = i + 1;
    }
    None
}

fn copy_texts(v: &Vec<String>) -> (r: Vec<String>)
    ensures
        texts_view(r@) == texts_view(v@),
{
    let mut out: Vec<String> = Vec::new();
    let mut i: usize = 0;
    while i < v.len()
        invariant
            i <= v@.len(),
            texts_view(out@) == texts_view(v@.take(i as int)),
        decreases v@.len() - i,
    {
        let c = v[i].clone();
        let ghost before = out@;
        out.push(c);
        proof {
            assert(c@ == v@[i as int]@);
            assert(v@.take(i + 1) =~= v@.take(i as int).push(v@[i as int]));
            assert(texts_view(before.push(c)) =~= texts_view(before).push(c@));
            assert(texts_view(v@.take(i as int).push(v@[i as int])) =~= texts_view(v@.take(i as int)).push(v@[i as int]@));
        }
        i = i + 1;
    }
    proof {
        assert(v@.take(v@.len() as int) =~= v@);
    }
    out
}

fn copy_properties(v: &Vec<(String, String)>) -> (r: Vec<(String, String)>)
    ensures
        props_sv(r@) == props_sv(v@),
{
    let mut out: Vec<(String, String)> = Vec::new();
    let mut i: usize = 0;
    while i < v.len()
        invariant
            i <= v@.len(),
            props_sv(out@) == props_sv(v@.take(i as int)),
        decreases v@.len() - i,
    {
        let a = v[i].0.clone();
        let b = v[i].1.clone();
        let ghost before = out@;
        out.push((a, b));
        proof {
            assert(a@ == v@[i as int].0@ && b@ == v@[i as int].1@);
            assert(v@.take(i + 1) =~= v@.take(i as int).push(v@[i as int]));
            assert(props_sv(before.push((a, b))) =~= props_sv(before).push((a@, b@)));
            assert(props_sv(v@.take(i as int).push(v@[i as int])) =~= props_sv(v@.take(i as int)).push((v@[i as int].0@, v@[i as int].1@)));
        }
        i = i + 1;
    }
    proof {
        assert(v@.take(v@.len() as int) =~= v@);
    }
    out
}

impl SerializableGraph {
    /// The serialized form of a graph: every node with its place, the edges
    /// between its nodes, the place of its root, and its counts and shape.
    pub fn from_ast(ast: &PdfAstGraph) -> (r: Self)
        ensures
            node_records(r.nodes@) == serial_nodes(ast.nodes_spec()),
            edge_records(r.edges@) == serial_edges(ast.nodes_spec(), ast.edges_spec()),
            r.root == serial_root(ast.nodes_spec(), ast.root_spec()),
            r.metadata.node_count == ast.nodes_spec().len(),
            r.metadata.edge_count == ast.edges_spec().len(),
            r.metadata.is_cyclic == spec_is_cyclic(*ast),
            r.metadata.serialization_version@ == AST_SCHEMA_VERSION@,
    {
        let nodes = ast.nodes();
        let mut out: Vec<SerializableNode> = Vec::new();
        let mut i: usize = 0;
        while i < nodes.len()
            invariant
                i <= nodes@.len(),
                nodes@ == ast.nodes_spec(),
                node_records(out@) == serial_nodes(nodes@).take(i as int),
            decreases nodes@.len() - i,
        {
            let node = &nodes[i];
            let record = SerializableNode {
                original_id: Some(node.id.0),
                id: i,
                node_type: String::from_str(node_type_name(&node.node_type)),
                value: serialize_value(&node.value),
                object_id: match node.node_type {
                    NodeType::Object(id) => Some((id.number, id.generation)),
                    _ => None,
                },
                warnings: copy_texts(node.metadata.warnings()),
                properties: copy_properties(node.metadata.properties()),
            };
            let ghost before = out@;
            proof {
                assert(record.record() == node_record(nodes@[i as int], i as int));
            }
            out.push(record);
            proof {
                assert(node_records(before.push(record)) =~= node_records(before).push(record.record()));
                assert(serial_nodes(nodes@).take(i + 1) =~= serial_nodes(nodes@).take(i as int).push(
                    node_record(nodes@[i as int], i as int),
                ));
            }
            i = i + 1;
        }
        proof {
            assert(serial_nodes(nodes@).take(nodes@.len() as int) =~= serial_nodes(nodes@));
        }
        let edges = ast.edges();
        let mut out_edges: Vec<SerializableEdge> = Vec::new();
        let mut k: usize = 0;
        while k < edges.len()
            invariant
                k <= edges@.len(),
                nodes@ == ast.nodes_spec(),
                edges@ == ast.edges_spec(),
                forall|a: int, b: int| 0 <= a < b < nodes@.len() ==> (#[trigger] nodes@[a]).id != (#[trigger] nodes@[b]).id,
                edge_records(out_edges@) == serial_edges(nodes@, edges@.take(k as int)),
            decreases edges@.len() - k,
        {
            let e = edges[k];
            proof {
                assert(edges@.take(k + 1).drop_last() =~= edges@.take(k as int));
            }
            match (node_place(nodes, e.from), node_place(nodes, e.to)) {
                (Some(from), Some(to)) => {
                    out_edges.push(SerializableEdge { from, to, edge_type: String::from_str(edge_type_name(e.edge_type)) });
                    proof {
                        assert(edge_records(out_edges@) =~= serial_edges(nodes@, edges@.take(k + 1)));
                    }
                },
                _ => {
                },
            }
            k = k + 1;
        }
        proof {
            assert(edges@.take(edges@.len() as int) =~= edges@);
        }
        let root = match ast.get_root() {
            Some(r) => node_place(nodes, r),
            None => None,
        };
        SerializableGraph {
            nodes: out,
            edges: out_edges,
            root,
            metadata: GraphMetadata {
                node_count: ast.node_count(),
                edge_count: ast.edge_count(),
                is_cyclic: ast.is_cyclic(),
                serialization_version: String::from_str(AST_SCHEMA_VERSION),
            },
        }
    }
}


/// A serialized graph as mathematical values.
pub struct GraphRecord {
    pub nodes: Seq<NodeRecord>,
    pub edges: Seq<EdgeRecord>,
    pub root: Option<usize>,
    pub node_count: usize,
    pub edge_count: usize,
    pub version: Seq<char>,
}

impl SerializableGraph {
    pub open spec fn record(&self) -> GraphRecord {
        GraphRecord {
            nodes: node_records(self.nodes@),
            edges: edge_records(self.edges@),
            root: self.root,
            node_count: self.metadata.node_count,
            edge_count: self.metadata.edge_count,
            version: self.metadata.serialization_version@,
        }
    }
}

/// The id a serialized node gets back: the one it had, or its place when
/// the record does not say.
pub open spec fn restored_id(r: NodeRecord) -> usize {
    match r.original_id {
        Some(o) => o,
        None => r.id,
    }
}

/// Why a graph written in `version` cannot be read: the current version
/// and the first one are read, the first only when each object node names
/// its object.
pub open spec fn version_error(version: Seq<char>, nodes: Seq<NodeRecord>) -> Option<Seq<char>> {
    if version == "1.0"@ || version == "1.0.0"@ {
        if exists|i: int| 0 <= i < nodes.len() && nodes[i].node_type == "Object"@ && nodes[i].object_id is None {
            Some("Cannot migrate AST 1.0 object node without object_id"@)
        } else {
            None
        }
    } else if version == AST_SCHEMA_VERSION@ {
        None
    } else {
        Some("Unsupported AST serialization version: "@ + version + "; expected "@ + AST_SCHEMA_VERSION@)
    }
}

/// Why the counts a graph records do not fit its lists.
pub open spec fn count_error(g: GraphRecord) -> Option<Seq<char>> {
    if g.node_count != g.nodes.len() {
        Some("AST node count mismatch: metadata="@ + decimal(g.node_count as nat) + ", actual="@ + decimal(g.nodes.len()))
    } else if g.edge_count != g.edges.len() {
        Some("AST edge count mismatch: metadata="@ + decimal(g.edge_count as nat) + ", actual="@ + decimal(g.edges.len()))
    } else {
        None
    }
}

/// Why the node at place `i` cannot be restored after those before it:
/// its place is taken, its type unknown, its id taken, or its id the
/// largest there is.
pub open spec fn node_error(nodes: Seq<NodeRecord>, i: int) -> Option<Seq<char>> {
    let r = nodes[i];
    if exists|j: int| 0 <= j < i && nodes[j].id == r.id {
        Some("Duplicate serialized node ID: "@ + decimal(r.id as nat))
    } else {
        match spec_type_of_name(r.node_type, r.object_id) {
            Err(e) => Some(e),
            Ok(_) => if exists|j: int| 0 <= j < i && restored_id(nodes[j]) == restored_id(r) {
                Some("Duplicate restored node ID: "@ + decimal(restored_id(r) as nat))
            } else if restored_id(r) == usize::MAX {
                Some("Node ID out of range: "@ + decimal(restored_id(r) as nat))
            } else {
                None
            },
        }
    }
}

/// The first error among the nodes `nodes[0..k]`.
pub open spec fn nodes_error(nodes: Seq<NodeRecord>, k: int) -> Option<Seq<char>>
    decreases k,
{
    if k <= 0 {
        None
    } else {
        match nodes_error(nodes, k - 1) {
            Some(e) => Some(e),
            None => node_error(nodes, k - 1),
        }
    }
}

pub open spec fn has_record(nodes: Seq<NodeRecord>, id: usize) -> bool {
    exists|i: int| 0 <= i < nodes.len() && nodes[i].id == id
}

/// Why an edge cannot be restored: an end that is no node, or an unknown
/// type.
pub open spec fn edge_error(nodes: Seq<NodeRecord>, e: EdgeRecord) -> Option<Seq<char>> {
    if !has_record(nodes, e.from) {
        Some("Invalid from node ID: "@ + decimal(e.from as nat))
    } else if !has_record(nodes, e.to) {
        Some("Invalid to node ID: "@ + decimal(e.to as nat))
    } else {
        match spec_edge_type_of_name(e.edge_type) {
            Err(m) => Some(m),
            Ok(_) => None,
        }
    }
}

/// The first error among the edges `edges[0..k]`.
pub open spec fn edges_error(nodes: Seq<NodeRecord>, edges: Seq<EdgeRecord>, k: int) -> Option<Seq<char>>
    decreases k,
{
    if k <= 0 {
        None
    } else {
        match edges_error(nodes, edges, k - 1) {
            Some(e) => Some(e),
            None => edge_error(nodes, edges[k - 1]),
        }
    }
}

pub open spec fn root_error(nodes: Seq<NodeRecord>, root: Option<usize>) -> Option<Seq<char>> {
    match root {
        Some(r) => if has_record(nodes, r) {
            None
        } else {
            Some("Invalid root node ID: "@ + decimal(r as nat))
        },
        None => None,
    }
}

/// Why a serialized graph cannot be restored, checked in this order: its
/// version, its counts, its nodes, its edges, its root.
pub open spec fn restore_error(g: GraphRecord) -> Option<Seq<char>> {
    match version_error(g.version, g.nodes) {
        Some(e) => Some(e),
        None => match count_error(g) {
            Some(e) => Some(e),
            None => match nodes_error(g.nodes, g.nodes.len() as int) {
                Some(e) => Some(e),
                None => match edges_error(g.nodes, g.edges, g.edges.len() as int) {
                    Some(e) => Some(e),
                    None => root_error(g.nodes, g.root),
                },
            },
        },
    }
}

/// The place of the node recorded under `id`.
pub open spec fn record_place(nodes: Seq<NodeRecord>, id: usize) -> int {
    choose|i: int| 0 <= i < nodes.len() && nodes[i].id == id
}

/// The id the node recorded under `id` gets back.
pub open spec fn restored_node(nodes: Seq<NodeRecord>, id: usize) -> NodeId {
    NodeId(restored_id(nodes[record_place(nodes, id)]))
}

pub open spec fn ok_type(r: Result<NodeType, Seq<char>>) -> NodeType {
    match r {
        Ok(t) => t,
        Err(_) => NodeType::Unknown,
    }
}

pub open spec fn ok_edge_type(r: Result<EdgeType, Seq<char>>) -> EdgeType {
    match r {
        Ok(t) => t,
        Err(_) => EdgeType::Child,
    }
}

/// The edges a serialized graph's edges become.
pub open spec fn restored_edges(nodes: Seq<NodeRecord>, edges: Seq<EdgeRecord>) -> Seq<AstEdge> {
    edges.map_values(
        |e: EdgeRecord|
            AstEdge {
                from: restored_node(nodes, e.from),
                to: restored_node(nodes, e.to),
                edge_type: ok_edge_type(spec_edge_type_of_name(e.edge_type)),
            },
    )
}

/// The properties a list of keys and values sets, one after another.
pub open spec fn props_of(p: Seq<(Seq<char>, Seq<char>)>) -> Seq<(Seq<char>, Seq<char>)>
    decreases p.len(),
{
    if p.len() == 0 {
        Seq::empty()
    } else {
        spec_dict_insert(props_of(p.drop_last()), p.last().0, p.last().1)
    }
}

/// Whether node `n` is what record `r` restores to.
pub open spec fn restores_to(r: NodeRecord, n: AstNode) -> bool {
    &&& n.id == NodeId(restored_id(r))
    &&& spec_type_of_name(r.node_type, r.object_id) == Ok::<NodeType, Seq<char>>(n.node_type)
    &&& n.value.sv() == value_of(r.value)
    &&& n.metadata.props() == props_of(r.properties)
    &&& texts_view(n.metadata.warnings_spec()) == r.warnings
}

/// Whether `g` is what the serialized graph restores to: its nodes one for
/// one, its edges, and its root.
pub open spec fn restores_graph(s: GraphRecord, g: PdfAstGraph) -> bool {
    &&& g.nodes_spec().len() == s.nodes.len()
    &&& forall|i: int| 0 <= i < s.nodes.len() ==> #[trigger] restores_to(s.nodes[i], g.nodes_spec()[i])
    &&& g.edges_spec() == restored_edges(s.nodes, s.edges)
    &&& g.root_spec() == match s.root {
        Some(r) => Some(restored_node(s.nodes, r)),
        None => None,
    }
}


proof fn lemma_nodes_error_sticks(nodes: Seq<NodeRecord>, k: int, m: int)
    requires
        0 <= k <= m,
        nodes_error(nodes, k) is Some,
    ensures
        nodes_error(nodes, m) == nodes_error(nodes, k),
    decreases m - k,
{
    if m > k {
        lemma_nodes_error_sticks(nodes, k, m - 1);
    }
}

proof fn lemma_nodes_error_none(nodes: Seq<NodeRecord>, k: int, i: int)
    requires
        0 <= i < k,
        nodes_error(nodes, k) is None,
    ensures
        nodes_error(nodes, i) is None,
        node_error(nodes, i) is None,
    decreases k - i,
{
    if k - 1 > i {
        lemma_nodes_error_none(nodes, k - 1, i);
    }
}

proof fn lemma_edges_error_sticks(nodes: Seq<NodeRecord>, edges: Seq<EdgeRecord>, k: int, m: int)
    requires
        0 <= k <= m,
        edges_error(nodes, edges, k) is Some,
    ensures
        edges_error(nodes, edges, m) == edges_error(nodes, edges, k),
    decreases m - k,
{
    if m > k {
        lemma_edges_error_sticks(nodes, edges, k, m - 1);
    }
}

/// Whether a pair of `map` starts with `id`.
fn serial_id_seen(map: &Vec<(usize, NodeId)>, id: usize) -> (r: bool)
    ensures
        r == exists|j: int| 0 <= j < map@.len() && map@[j].0 == id,
{
    let mut j: usize = 0;
    while j < map.len()
        invariant
            j <= map@.len(),
            forall|a: int| 0 <= a < j ==> map@[a].0 != id,
        decreases map@.len() - j,
    {
        if map[j].0 == id {
            return true;
        }
        j = j + 1;
    }
    false
}

/// Whether a pair of `map` ends with `id`.
fn restored_id_seen(map: &Vec<(usize, NodeId)>, id: NodeId) -> (r: bool)
    ensures
        r == exists|j: int| 0 <= j < map@.len() && map@[j].1 == id,
{
    let mut j: usize = 0;
    while j < map.len()
        invariant
            j <= map@.len(),
            forall|a: int| 0 <= a < j ==> map@[a].1 != id,
        decreases map@.len() - j,
    {
        if map[j].1 == id {
            return true;
        }
        j = j + 1;
    }
    false
}

/// The id paired with `id` first in `map`.
fn lookup_restored(map: &Vec<(usize, NodeId)>, id: usize) -> (r: Option<NodeId>)
    ensures
        r is Some <==> exists|j: int| 0 <= j < map@.len() && map@[j].0 == id,
        r matches Some(n) ==> exists|j: int| 0 <= j < map@.len() && map@[j].0 == id && map@[j].1 == n,
{
    let mut j: usize = 0;
    while j < map.len()
        invariant
            j <= map@.len(),
            forall|a: int| 0 <= a < j ==> map@[a].0 != id,
        decreases map@.len() - j,
    {
        if map[j].0 == id {
            return Some(map[j].1);
        }
        j = j + 1;
    }
    None
}

fn text2(a: &str, n: usize) -> (r: String)
    ensures
        r@ == a@ + decimal(n as nat),
{
    let mut t = String::from_str(a);
    let d = usize_text(n);
    t.append(d.as_str());
    t
}

fn text4(a: &str, n: usize, b: &str, m: usize) -> (r: String)
    ensures
        r@ == a@ + decimal(n as nat) + b@ + decimal(m as nat),
{
    let mut t = text2(a, n);
    t.append(b);
    let d = usize_text(m);
    t.append(d.as_str());
    t
}

/// The node a record restores to.
fn restore_node(record: &SerializableNode, id: NodeId, node_type: NodeType) -> (r: AstNode)
    ensures
        r.id == id,
        r.node_type == node_type,
        r.value.sv() == value_of(record.value.view_serial()),
        r.metadata.props() == props_of(props_sv(record.properties@)),
        texts_view(r.metadata.warnings_spec()) == texts_view(record.warnings@),
{
    let mut node = AstNode::new(id, node_type, deserialize_value(&record.value));
    let ghost p = props_sv(record.properties@);
    let mut i: usize = 0;
    proof {
        assert(p.take(0) =~= Seq::<(Seq<char>, Seq<char>)>::empty());
    }
    while i < record.properties.len()
        invariant
            i <= record.properties@.len(),
            p == props_sv(record.properties@),
            node.id == id,
            node.node_type == node_type,
            node.value.sv() == value_of(record.value.view_serial()),
            node.metadata.props() == props_of(p.take(i as int)),
            node.metadata.warnings_spec() == Seq::<String>::empty(),
        decreases record.properties@.len() - i,
    {
        let key = record.properties[i].0.clone();
        let value = record.properties[i].1.clone();
        node.metadata.set_property(key, value);
        proof {
            assert(p.take(i + 1).drop_last() =~= p.take(i as int));
        }
        i = i + 1;
    }
    proof {
        assert(p.take(record.properties@.len() as int) =~= p);
    }
    let mut k: usize = 0;
    while k < record.warnings.len()
        invariant
            k <= record.warnings@.len(),
            node.id == id,
            node.node_type == node_type,
            node.value.sv() == value_of(record.value.view_serial()),
            node.metadata.props() == props_of(p),
            p == props_sv(record.properties@),
            texts_view(node.metadata.warnings_spec()) == texts_view(record.warnings@.take(k as int)),
        decreases record.warnings@.len() - k,
    {
        let w = record.warnings[k].clone();
        let ghost before = node.metadata.warnings_spec();
        node.metadata.add_warning(w);
        proof {
            assert(texts_view(before.push(w)) =~= texts_view(before).push(w@));
            assert(record.warnings@.take(k + 1) =~= record.warnings@.take(k as int).push(record.warnings@[k as int]));
            assert(texts_view(record.warnings@.take(k as int).push(record.warnings@[k as int])) =~= texts_view(
                record.warnings@.take(k as int),
            ).push(record.warnings@[k as int]@));
        }
        k = k + 1;
    }
    proof {
        assert(record.warnings@.take(record.warnings@.len() as int) =~= record.warnings@);
    }
    node
}

impl GraphDeserializer {
    /// Brings a graph written in the first version of the format to the
    /// current one; refuses other versions.
    fn migrate(graph: SerializableGraph) -> (r: Result<SerializableGraph, String>)
        ensures
            match r {
                Ok(g) => version_error(graph.record().version, graph.record().nodes) is None && g.record() == (
                GraphRecord { version: AST_SCHEMA_VERSION@, ..graph.record() }),
                Err(e) => version_error(graph.record().version, graph.record().nodes) == Some(e@),
            },
    {
        let mut serialized = graph;
        let version = serialized.metadata.serialization_version.clone();
        if str_equal(version.as_str(), "1.0") || str_equal(version.as_str(), "1.0.0") {
            let ghost recs = node_records(serialized.nodes@);
            let mut i: usize = 0;
            while i < serialized.nodes.len()
                invariant
                    i <= serialized.nodes@.len(),
                    recs == node_records(serialized.nodes@),
                    serialized.record() == graph.record(),
                    version@ == graph.record().version,
                    version@ == "1.0"@ || version@ == "1.0.0"@,
                    forall|j: int| 0 <= j < i ==> !(recs[j].node_type == "Object"@ && recs[j].object_id is None),
                decreases serialized.nodes@.len() - i,
            {
                if str_equal(serialized.nodes[i].node_type.as_str(), "Object") && serialized.nodes[i].object_id.is_none() {
                    let e = String::from_str("Cannot migrate AST 1.0 object node without object_id");
                    proof {
                        assert(recs[i as int].node_type == "Object"@ && recs[i as int].object_id is None);
                        assert(version_error(graph.record().version, recs) == Some(e@));
                    }
                    return Err(e);
                }
                i = i + 1;
            }
            serialized.metadata.serialization_version = String::from_str(AST_SCHEMA_VERSION);
            Ok(serialized)
        } else if str_equal(version.as_str(), AST_SCHEMA_VERSION) {
            Ok(serialized)
        } else {
            let mut e = String::from_str("Unsupported AST serialization version: ");
            e.append(version.as_str());
            e.append("; expected ");
            e.append(AST_SCHEMA_VERSION);
            Err(e)
        }
    }
}


/// With no error among the nodes, no two records share a place and no two
/// restore to the same id.
proof fn lemma_records_distinct(nodes: Seq<NodeRecord>)
    requires
        nodes_error(nodes, nodes.len() as int) is None,
    ensures
        forall|a: int, b: int| 0 <= a < b < nodes.len() ==> (#[trigger] nodes[a]).id != (#[trigger] nodes[b]).id,
        forall|a: int, b: int|
            0 <= a < b < nodes.len() ==> restored_id(#[trigger] nodes[a]) != restored_id(#[trigger] nodes[b]),
        forall|a: int| 0 <= a < nodes.len() ==> restored_id(#[trigger] nodes[a]) != usize::MAX,
        forall|a: int|
            0 <= a < nodes.len() ==> (#[trigger] spec_type_of_name(nodes[a].node_type, nodes[a].object_id)) is Ok,
{
    assert forall|a: int, b: int| 0 <= a < b < nodes.len() implies (#[trigger] nodes[a]).id != (#[trigger] nodes[b]).id
        && restored_id(nodes[a]) != restored_id(nodes[b]) by {
        lemma_nodes_error_none(nodes, nodes.len() as int, b);
    }
    assert forall|a: int| 0 <= a < nodes.len() implies restored_id(#[trigger] nodes[a]) != usize::MAX
        && spec_type_of_name(nodes[a].node_type, nodes[a].object_id) is Ok by {
        lemma_nodes_error_none(nodes, nodes.len() as int, a);
    }
}

impl GraphDeserializer {
    /// Restores the nodes one after another, each checked against those
    /// before it; gives the graph and, for each record, its place and the id
    /// it got back.
    fn restore_nodes(nodes: &Vec<SerializableNode>) -> (r: Result<(PdfAstGraph, Vec<(usize, NodeId)>), String>)
        ensures
            ({
                let recs = node_records(nodes@);
                match r {
                    Ok((g, map)) => {
                        &&& nodes_error(recs, recs.len() as int) is None
                        &&& g.nodes_spec().len() == recs.len()
                        &&& forall|i: int| 0 <= i < recs.len() ==> #[trigger] restores_to(recs[i], g.nodes_spec()[i])
                        &&& g.edges_spec().len() == 0
                        &&& g.root_spec() is None
                        &&& map@.len() == recs.len()
                        &&& forall|j: int| 0 <= j < recs.len() ==> #[trigger] map@[j] == (recs[j].id, NodeId(restored_id(recs[j])))
                    },
                    Err(e) => nodes_error(recs, recs.len() as int) == Some(e@),
                }
            }),
    {
        let ghost recs = node_records(nodes@);
        let mut ast = PdfAstGraph::new();
        let mut map: Vec<(usize, NodeId)> = Vec::new();
        let mut i: usize = 0;
        while i < nodes.len()
            invariant
                i <= nodes@.len(),
                recs == node_records(nodes@),
                nodes_error(recs, i as int) is None,
                ast.nodes_spec().len() == i,
                forall|j: int| 0 <= j < i ==> #[trigger] restores_to(recs[j], ast.nodes_spec()[j]),
                ast.edges_spec().len() == 0,
                ast.root_spec() is None,
                map@.len() == i,
                forall|j: int| 0 <= j < i ==> #[trigger] map@[j] == (recs[j].id, NodeId(restored_id(recs[j]))),
            decreases nodes@.len() - i,
        {
            let record = &nodes[i];
            proof {
                assert(recs[i as int] == record.record());
            }
            if serial_id_seen(&map, record.id) {
                let e = text2("Duplicate serialized node ID: ", record.id);
                proof {
                    let j = choose|j: int| 0 <= j < map@.len() && map@[j].0 == record.id;
                    assert(map@[j] == (recs[j].id, NodeId(restored_id(recs[j]))));
                    assert(node_error(recs, i as int) == Some(e@));
                    lemma_nodes_error_sticks(recs, i + 1, recs.len() as int);
                }
                return Err(e);
            }
            proof {
                assert forall|j: int| 0 <= j < i implies recs[j].id != recs[i as int].id by {
                    assert(map@[j] == (recs[j].id, NodeId(restored_id(recs[j]))));
                }
            }
            let node_type = match parse_node_type(record.node_type.as_str(), record.object_id) {
                Ok(t) => t,
                Err(e) => {
                    proof {
                        assert(node_error(recs, i as int) == Some(e@));
                        lemma_nodes_error_sticks(recs, i + 1, recs.len() as int);
                    }
                    return Err(e);
                },
            };
            let node_id = NodeId(
                match record.original_id {
                    Some(o) => o,
                    None => record.id,
                },
            );
            if restored_id_seen(&map, node_id) {
                let e = text2("Duplicate restored node ID: ", node_id.0);
                proof {
                    let j = choose|j: int| 0 <= j < map@.len() && map@[j].1 == node_id;
                    assert(map@[j] == (recs[j].id, NodeId(restored_id(recs[j]))));
                    assert(node_error(recs, i as int) == Some(e@));
                    lemma_nodes_error_sticks(recs, i + 1, recs.len() as int);
                }
                return Err(e);
            }
            if node_id.0 == usize::MAX {
                let e = text2("Node ID out of range: ", node_id.0);
                proof {
                    assert forall|j: int| 0 <= j < i implies restored_id(recs[j]) != restored_id(recs[i as int]) by {
                        assert(map@[j] == (recs[j].id, NodeId(restored_id(recs[j]))));
                    }
                    assert(node_error(recs, i as int) == Some(e@));
                    lemma_nodes_error_sticks(recs, i + 1, recs.len() as int);
                }
                return Err(e);
            }
            proof {
                assert forall|j: int| 0 <= j < i implies restored_id(recs[j]) != restored_id(recs[i as int]) by {
                    assert(map@[j] == (recs[j].id, NodeId(restored_id(recs[j]))));
                }
                assert(node_error(recs, i as int) is None);
                assert(!ast.has_node(node_id)) by {
                    if ast.has_node(node_id) {
                        let k = choose|k: int| 0 <= k < ast.nodes_spec().len() && ast.nodes_spec()[k].id == node_id;
                        assert(restores_to(recs[k], ast.nodes_spec()[k]));
                    }
                }
            }
            let node = restore_node(record, node_id, node_type);
            let ghost before = ast.nodes_spec();
            ast.add_node(node);
            map.push((record.id, node_id));
            proof {
                assert(ast.nodes_spec() == before.push(node));
                assert forall|j: int| 0 <= j < i + 1 implies #[trigger] restores_to(recs[j], ast.nodes_spec()[j]) by {
                    if j < i {
                        assert(ast.nodes_spec()[j] == before[j]);
                    }
                }
            }
            i = i + 1;
        }
        Ok((ast, map))
    }
}


/// The id a record's place restores to, looked up in the pairs of places
/// and ids.
fn restored_for(map: &Vec<(usize, NodeId)>, id: usize, Ghost(recs): Ghost<Seq<NodeRecord>>) -> (r: Option<NodeId>)
    requires
        nodes_error(recs, recs.len() as int) is None,
        map@.len() == recs.len(),
        forall|j: int| 0 <= j < recs.len() ==> #[trigger] map@[j] == (recs[j].id, NodeId(restored_id(recs[j]))),
    ensures
        r is Some <==> has_record(recs, id),
        r matches Some(n) ==> n == restored_node(recs, id),
{
    proof {
        lemma_records_distinct(recs);
    }
    let r = lookup_restored(map, id);
    proof {
        if has_record(recs, id) {
            let i = choose|i: int| 0 <= i < recs.len() && recs[i].id == id;
            assert(map@[i] == (recs[i].id, NodeId(restored_id(recs[i]))));
        }
        match r {
            Some(n) => {
                let j = choose|j: int| 0 <= j < map@.len() && map@[j].0 == id && map@[j].1 == n;
                assert(map@[j] == (recs[j].id, NodeId(restored_id(recs[j]))));
                let k = record_place(recs, id);
                assert(has_record(recs, id));
                if k != j {
                    if k < j {
                        assert(recs[k].id != recs[j].id);
                    } else {
                        assert(recs[j].id != recs[k].id);
                    }
                }
            },
            None => {
                if has_record(recs, id) {
                    let i = choose|i: int| 0 <= i < recs.len() && recs[i].id == id;
                    assert(map@[i] == (recs[i].id, NodeId(restored_id(recs[i]))));
                }
            },
        }
    }
    r
}

impl GraphDeserializer {
    /// Restores the edges one after another between the restored nodes.
    fn restore_edges(
        ast: &mut PdfAstGraph,
        map: &Vec<(usize, NodeId)>,
        edges: &Vec<SerializableEdge>,
        Ghost(recs): Ghost<Seq<NodeRecord>>,
    ) -> (r: Result<(), String>)
        requires
            nodes_error(recs, recs.len() as int) is None,
            old(ast).nodes_spec().len() == recs.len(),
            forall|i: int| 0 <= i < recs.len() ==> #[trigger] restores_to(recs[i], old(ast).nodes_spec()[i]),
            old(ast).edges_spec().len() == 0,
            map@.len() == recs.len(),
            forall|j: int| 0 <= j < recs.len() ==> #[trigger] map@[j] == (recs[j].id, NodeId(restored_id(recs[j]))),
        ensures
            final(ast).nodes_spec() == old(ast).nodes_spec(),
            final(ast).root_spec() == old(ast).root_spec(),
            match r {
                Ok(_) => edges_error(recs, edge_records(edges@), edges@.len() as int) is None
                    && final(ast).edges_spec() == restored_edges(recs, edge_records(edges@)),
                Err(e) => edges_error(recs, edge_records(edges@), edges@.len() as int) == Some(e@),
            },
    {
        let ghost erecs = edge_records(edges@);
        let mut k: usize = 0;
        while k < edges.len()
            invariant
                k <= edges@.len(),
                erecs == edge_records(edges@),
                nodes_error(recs, recs.len() as int) is None,
                ast.nodes_spec() == old(ast).nodes_spec(),
                ast.root_spec() == old(ast).root_spec(),
                ast.nodes_spec().len() == recs.len(),
                forall|i: int| 0 <= i < recs.len() ==> #[trigger] restores_to(recs[i], ast.nodes_spec()[i]),
                map@.len() == recs.len(),
                forall|j: int| 0 <= j < recs.len() ==> #[trigger] map@[j] == (recs[j].id, NodeId(restored_id(recs[j]))),
                edges_error(recs, erecs, k as int) is None,
                ast.edges_spec() == restored_edges(recs, erecs.take(k as int)),
            decreases edges@.len() - k,
        {
            let edge = &edges[k];
            proof {
                assert(erecs[k as int] == edge.record());
            }
            let from = match restored_for(map, edge.from, Ghost(recs)) {
                Some(n) => n,
                None => {
                    let e = text2("Invalid from node ID: ", edge.from);
                    proof {
                        assert(edges_error(recs, erecs, k + 1) == Some(e@));
                        lemma_edges_error_sticks(recs, erecs, k + 1, erecs.len() as int);
                    }
                    return Err(e);
                },
            };
            let to = match restored_for(map, edge.to, Ghost(recs)) {
                Some(n) => n,
                None => {
                    let e = text2("Invalid to node ID: ", edge.to);
                    proof {
                        assert(edges_error(recs, erecs, k + 1) == Some(e@));
                        lemma_edges_error_sticks(recs, erecs, k + 1, erecs.len() as int);
                    }
                    return Err(e);
                },
            };
            let edge_type = match parse_edge_type(edge.edge_type.as_str()) {
                Ok(t) => t,
                Err(e) => {
                    proof {
                        assert(edges_error(recs, erecs, k + 1) == Some(e@));
                        lemma_edges_error_sticks(recs, erecs, k + 1, erecs.len() as int);
                    }
                    return Err(e);
                },
            };
            proof {
                let pf = record_place(recs, edge.from);
                let pt = record_place(recs, edge.to);
                assert(restores_to(recs[pf], ast.nodes_spec()[pf]));
                assert(restores_to(recs[pt], ast.nodes_spec()[pt]));
                assert(ast.nodes_spec()[pf].id == from);
                assert(ast.nodes_spec()[pt].id == to);
                assert(ast.has_node(from));
                assert(ast.has_node(to));
            }
            ast.add_edge(from, to, edge_type);
            proof {
                assert(erecs.take(k + 1) =~= erecs.take(k as int).push(erecs[k as int]));
                assert(restored_edges(recs, erecs.take(k + 1)) =~= restored_edges(recs, erecs.take(k as int)).push(
                    AstEdge { from, to, edge_type },
                ));
            }
            k = k + 1;
        }
        proof {
            assert(erecs.take(edges@.len() as int) =~= erecs);
        }
        Ok(())
    }

    /// Restores a graph from its serialized form: the version is brought up
    /// to date, the counts checked against the lists, then the nodes, the
    /// edges and the root restored, with the first problem met as the
    /// error.
    pub fn deserialize(serialized: SerializableGraph) -> (r: Result<PdfAstGraph, String>)
        ensures
            match r {
                Ok(g) => restore_error(serialized.record()) is None && restores_graph(serialized.record(), g),
                Err(e) => restore_error(serialized.record()) == Some(e@),
            },
    {
        let ghost rec = serialized.record();
        let graph = match Self::migrate(serialized) {
            Ok(g) => g,
            Err(e) => return Err(e),
        };
        if graph.metadata.node_count != graph.nodes.len() {
            return Err(text4("AST node count mismatch: metadata=", graph.metadata.node_count, ", actual=", graph.nodes.len()));
        }
        if graph.metadata.edge_count != graph.edges.len() {
            return Err(text4("AST edge count mismatch: metadata=", graph.metadata.edge_count, ", actual=", graph.edges.len()));
        }
        let ghost recs = node_records(graph.nodes@);
        let (mut ast, map) = match Self::restore_nodes(&graph.nodes) {
            Ok(p) => p,
            Err(e) => return Err(e),
        };
        match Self::restore_edges(&mut ast, &map, &graph.edges, Ghost(recs)) {
            Ok(_) => {},
            Err(e) => return Err(e),
        }
        match graph.root {
            Some(root) => {
                match restored_for(&map, root, Ghost(recs)) {
                    Some(id) => ast.set_root(id),
                    None => return Err(text2("Invalid root node ID: ", root)),
                }
            },
            None => {},
        }
        Ok(ast)
    }
}


/// Whether every edge of `edges` joins two of `nodes`.
pub open spec fn edges_join_nodes(nodes: Seq<AstNode>, edges: Seq<AstEdge>) -> bool {
    forall|k: int| 0 <= k < edges.len() ==> holds_node(nodes, #[trigger] edges[k].from) && holds_node(nodes, edges[k].to)
}

/// Whether the serialized graph's root restores to `r`.
pub open spec fn root_restores_to(s: GraphRecord, r: NodeId) -> bool {
    match s.root {
        Some(p) => restored_node(s.nodes, p) == r,
        None => false,
    }
}

/// The serialized form `SerializableGraph::from_ast` gives of a graph.
pub open spec fn graph_record_of(g: PdfAstGraph) -> GraphRecord {
    GraphRecord {
        nodes: serial_nodes(g.nodes_spec()),
        edges: serial_edges(g.nodes_spec(), g.edges_spec()),
        root: serial_root(g.nodes_spec(), g.root_spec()),
        node_count: g.nodes_spec().len() as usize,
        edge_count: g.edges_spec().len() as usize,
        version: AST_SCHEMA_VERSION@,
    }
}

proof fn lemma_props_round_trip(p: Seq<(Seq<char>, Seq<char>)>)
    requires
        keys_unique(p),
    ensures
        props_of(p) == p,
    decreases p.len(),
{
    if p.len() > 0 {
        let rest = p.drop_last();
        assert(keys_unique(rest));
        lemma_props_round_trip(rest);
        assert forall|j: int| 0 <= j < rest.len() implies rest[j].0 != p.last().0 by {
            assert(rest[j] == p[j]);
        }
        lemma_dict_absent(rest, p.last().0, p.last().1);
        assert(rest.push(p.last()) =~= p);
    }
}

proof fn lemma_serial_edges(nodes: Seq<AstNode>, edges: Seq<AstEdge>)
    requires
        nodes.len() <= usize::MAX,
        edges_join_nodes(nodes, edges),
        forall|i: int, j: int| 0 <= i < j < nodes.len() ==> (#[trigger] nodes[i]).id != (#[trigger] nodes[j]).id,
    ensures
        serial_edges(nodes, edges).len() == edges.len(),
        restored_edges(serial_nodes(nodes), serial_edges(nodes, edges)) == edges,
        forall|k: int|
            0 <= k < edges.len() ==> #[trigger] edge_error(serial_nodes(nodes), serial_edges(nodes, edges)[k]) is None,
    decreases edges.len(),
{
    let recs = serial_nodes(nodes);
    if edges.len() > 0 {
        let rest = edges.drop_last();
        assert(edges_join_nodes(nodes, rest)) by {
            assert forall|k: int| 0 <= k < rest.len() implies holds_node(nodes, #[trigger] rest[k].from) && holds_node(
                nodes,
                rest[k].to,
            ) by {
                assert(rest[k] == edges[k]);
            }
        }
        lemma_serial_edges(nodes, rest);
        let e = edges.last();
        assert(holds_node(nodes, edges[edges.len() - 1].from));
        let f = index_of_node(nodes, e.from);
        let t = index_of_node(nodes, e.to);
        let rec = EdgeRecord { from: f as usize, to: t as usize, edge_type: spec_edge_type_name(e.edge_type) };
        assert(serial_edges(nodes, edges) == serial_edges(nodes, rest).push(rec));
        assert(recs[f].id == f as usize);
        assert(recs[t].id == t as usize);
        assert(has_record(recs, f as usize));
        assert(has_record(recs, t as usize));
        lemma_edge_type_name_round_trip(e.edge_type);
        assert(edge_error(recs, rec) is None);
        assert forall|i: int| 0 <= i < recs.len() && recs[i].id == f as usize implies i == f by {
            assert(recs[i] == node_record(nodes[i], i));
        }
        assert forall|i: int| 0 <= i < recs.len() && recs[i].id == t as usize implies i == t by {
            assert(recs[i] == node_record(nodes[i], i));
        }
        assert(record_place(recs, f as usize) == f);
        assert(record_place(recs, t as usize) == t);
        assert(restored_node(recs, f as usize) == e.from);
        assert(restored_node(recs, t as usize) == e.to);
        assert(restored_edges(recs, serial_edges(nodes, edges)) =~= restored_edges(recs, serial_edges(nodes, rest)).push(e));
        assert(rest.push(e) =~= edges);
        assert forall|k: int| 0 <= k < edges.len() implies #[trigger] edge_error(recs, serial_edges(nodes, edges)[k]) is None by {
            if k < edges.len() - 1 {
                assert(serial_edges(nodes, edges)[k] == serial_edges(nodes, rest)[k]);
            }
        }
    }
}

proof fn lemma_edges_error_none(nodes: Seq<NodeRecord>, edges: Seq<EdgeRecord>, k: int)
    requires
        0 <= k <= edges.len(),
        forall|j: int| 0 <= j < edges.len() ==> #[trigger] edge_error(nodes, edges[j]) is None,
    ensures
        edges_error(nodes, edges, k) is None,
    decreases k,
{
    if k > 0 {
        lemma_edges_error_none(nodes, edges, k - 1);
    }
}

proof fn lemma_nodes_error_free(nodes: Seq<NodeRecord>, k: int)
    requires
        0 <= k <= nodes.len(),
        forall|j: int| 0 <= j < nodes.len() ==> #[trigger] node_error(nodes, j) is None,
    ensures
        nodes_error(nodes, k) is None,
    decreases k,
{
    if k > 0 {
        lemma_nodes_error_free(nodes, k - 1);
    }
}

/// A graph reads back from its serialized form as itself: nothing in the
/// form is refused, each node's record restores to that very node (id,
/// type, value, properties, warnings), the edges come back as they were,
/// and so does the root when it is a node of the graph.  The graph's ids
/// differ and lie below the largest id, its values are plain, its
/// properties have no key twice, and its edges join its nodes.
pub proof fn lemma_graph_round_trip(g: PdfAstGraph)
    requires
        g.nodes_spec().len() <= usize::MAX,
        g.edges_spec().len() <= usize::MAX,
        forall|i: int, j: int|
            0 <= i < j < g.nodes_spec().len() ==> (#[trigger] g.nodes_spec()[i]).id != (#[trigger] g.nodes_spec()[j]).id,
        forall|i: int| 0 <= i < g.nodes_spec().len() ==> (#[trigger] g.nodes_spec()[i]).id.0 < usize::MAX,
        forall|i: int| 0 <= i < g.nodes_spec().len() ==> plain_value((#[trigger] g.nodes_spec()[i]).value.sv()),
        forall|i: int| 0 <= i < g.nodes_spec().len() ==> keys_unique((#[trigger] g.nodes_spec()[i]).metadata.props()),
        edges_join_nodes(g.nodes_spec(), g.edges_spec()),
    ensures
        restore_error(graph_record_of(g)) is None,
        forall|i: int|
            0 <= i < g.nodes_spec().len() ==> #[trigger] restores_to(graph_record_of(g).nodes[i], g.nodes_spec()[i]),
        restored_edges(graph_record_of(g).nodes, graph_record_of(g).edges) == g.edges_spec(),
        forall|r: NodeId|
            g.root_spec() == Some(r) && holds_node(g.nodes_spec(), r) ==> #[trigger] root_restores_to(graph_record_of(g), r),
{
    let nodes = g.nodes_spec();
    let s = graph_record_of(g);
    let recs = s.nodes;
    reveal_strlit("1.0");
    reveal_strlit("1.0.0");
    reveal_strlit("1.1.0");
    assert("1.0.0"@[2] != "1.1.0"@[2]);
    assert(version_error(s.version, recs) is None);
    lemma_serial_edges(nodes, g.edges_spec());
    assert(count_error(s) is None);
    assert forall|i: int| 0 <= i < nodes.len() implies #[trigger] node_error(recs, i) is None
        && restores_to(recs[i], nodes[i]) by {
        assert(recs[i] == node_record(nodes[i], i));
        assert forall|j: int| 0 <= j < i implies recs[j].id != recs[i].id by {
            assert(recs[j] == node_record(nodes[j], j));
        }
        lemma_node_type_name_round_trip(nodes[i].node_type);
        assert forall|j: int| 0 <= j < i implies restored_id(recs[j]) != restored_id(recs[i]) by {
            assert(recs[j] == node_record(nodes[j], j));
        }
        lemma_value_round_trip(nodes[i].value.sv());
        lemma_props_round_trip(nodes[i].metadata.props());
    }
    assert forall|i: int| 0 <= i < nodes.len() implies #[trigger] restores_to(
        graph_record_of(g).nodes[i],
        g.nodes_spec()[i],
    ) by {
        assert(node_error(recs, i) is None);
    }
    lemma_nodes_error_free(recs, recs.len() as int);
    lemma_edges_error_none(recs, s.edges, s.edges.len() as int);
    match g.root_spec() {
        Some(r) => {
            if holds_node(nodes, r) {
                let p = index_of_node(nodes, r);
                assert(recs[p].id == p as usize);
                assert(has_record(recs, p as usize));
                assert forall|i: int| 0 <= i < recs.len() && recs[i].id == p as usize implies i == p by {
                    assert(recs[i] == node_record(nodes[i], i));
                }
                assert(record_place(recs, p as usize) == p);
            }
        },
        None => {},
    }
}


/// Whether `e` is an error charging a graph to `budget` can give: a limit
/// on nodes, edges or input bytes, or an interruption.
pub open spec fn graph_budget_error(budget: &ResourceBudget, e: ResourceBudgetError) -> bool {
    ||| e == ResourceBudgetError::Nodes
    ||| e == ResourceBudgetError::Edges
    ||| e == ResourceBudgetError::InputBytes
    ||| e == ResourceBudgetError::Cancelled
    ||| (e == ResourceBudgetError::Deadline && budget.deadline is Some)
}

/// Whether `e` is an error charging a value's text and bytes can give.
pub open spec fn input_budget_error(budget: &ResourceBudget, e: ResourceBudgetError) -> bool {
    ||| e == ResourceBudgetError::InputBytes
    ||| e == ResourceBudgetError::Cancelled
    ||| (e == ResourceBudgetError::Deadline && budget.deadline is Some)
}

fn charge_input(budget: &ResourceBudget, bytes: usize) -> (r: Result<(), ResourceBudgetError>)
    ensures
        r matches Err(e) ==> input_budget_error(budget, e),
        bytes > budget.max_input_bytes ==> r is Err,
{
    budget.consume_input(bytes as u64)
}

/// Charges the text of a value's strings, names and keys and the bytes of
/// its streams to the input budget.
fn check_value_budget(value: &PdfValue, budget: &ResourceBudget) -> (r: Result<(), ResourceBudgetError>)
    ensures
        r matches Err(e) ==> input_budget_error(budget, e),
        (value is Null || value is Boolean || value is Integer || value is Real || value is Reference) ==> r is Ok,
    decreases value, 2int,
{
    match value {
        PdfValue::String(t) => {
            let text = t.to_string_lossy();
            charge_input(budget, text.as_str().len())
        },
        PdfValue::Name(n) => charge_input(budget, n.as_str().len()),
        PdfValue::Array(items) => check_items_budget(items, budget),
        PdfValue::Dictionary(d) => check_dict_budget(d, budget),
        PdfValue::Stream(st) => {
            match &st.data {
                StreamData::Raw(b) => {
                    // The bytes of a raw stream are also its original bytes,
                    // and are charged once as each.
                    charge_input(budget, b.len())?;
                    charge_input(budget, b.len())?;
                },
                StreamData::Decoded(b) => {
                    charge_input(budget, b.len())?;
                },
            }
            check_dict_budget(&st.dict, budget)
        },
        _ => Ok(()),
    }
}

fn check_items_budget(items: &Vec<PdfValue>, budget: &ResourceBudget) -> (r: Result<(), ResourceBudgetError>)
    ensures
        r matches Err(e) ==> input_budget_error(budget, e),
        items@.len() == 0 ==> r is Ok,
    decreases items, 1int,
{
    let mut i: usize = 0;
    while i < items.len()
        invariant
            i <= items@.len(),
        decreases items@.len() - i,
    {
        proof {
            assert(decreases_to!(items@ => items@[i as int]));
        }
        check_value_budget(&items[i], budget)?;
        i = i + 1;
    }
    Ok(())
}

fn check_dict_budget(d: &PdfDictionary, budget: &ResourceBudget) -> (r: Result<(), ResourceBudgetError>)
    ensures
        r matches Err(e) ==> input_budget_error(budget, e),
        d.entries@.len() == 0 ==> r is Ok,
    decreases d, 1int,
{
    let mut i: usize = 0;
    while i < d.entries.len()
        invariant
            i <= d.entries@.len(),
        decreases d.entries@.len() - i,
    {
        charge_input(budget, d.entries[i].0.as_str().len())?;
        check_value_budget(&d.entries[i].1, budget)?;
        i = i + 1;
    }
    Ok(())
}

/// Charges the text of a serialized value's strings, names and keys and
/// the bytes of its streams to the input budget.
fn check_serializable_value_budget(value: &SerializableValue, budget: &ResourceBudget) -> (r: Result<(), ResourceBudgetError>)
    ensures
        r matches Err(e) ==> input_budget_error(budget, e),
        (value is Null || value is Boolean || value is Integer || value is Real || value is Reference) ==> r is Ok,
    decreases value, 2int,
{
    match value {
        SerializableValue::String(t) => charge_input(budget, t.as_str().len()),
        SerializableValue::Name(t) => charge_input(budget, t.as_str().len()),
        SerializableValue::Array(items) => check_serializable_items_budget(items, budget),
        SerializableValue::Dictionary(entries) => check_serializable_entries_budget(entries, budget),
        SerializableValue::Stream { dictionary, data, .. } => {
            charge_input(budget, data.len())?;
            check_serializable_entries_budget(dictionary, budget)
        },
        _ => Ok(()),
    }
}

fn check_serializable_items_budget(items: &Vec<SerializableValue>, budget: &ResourceBudget) -> (r: Result<
    (),
    ResourceBudgetError,
>)
    ensures
        r matches Err(e) ==> input_budget_error(budget, e),
        items@.len() == 0 ==> r is Ok,
    decreases items, 1int,
{
    let mut i: usize = 0;
    while i < items.len()
        invariant
            i <= items@.len(),
        decreases items@.len() - i,
    {
        proof {
            assert(decreases_to!(items@ => items@[i as int]));
        }
        check_serializable_value_budget(&items[i], budget)?;
        i = i + 1;
    }
    Ok(())
}

fn check_serializable_entries_budget(entries: &Vec<(String, SerializableValue)>, budget: &ResourceBudget) -> (r: Result<
    (),
    ResourceBudgetError,
>)
    ensures
        r matches Err(e) ==> input_budget_error(budget, e),
        entries@.len() == 0 ==> r is Ok,
    decreases entries, 1int,
{
    let mut i: usize = 0;
    while i < entries.len()
        invariant
            i <= entries@.len(),
        decreases entries@.len() - i,
    {
        proof {
            assert(decreases_to!(entries@ => entries@[i as int]));
        }
        charge_input(budget, entries[i].0.as_str().len())?;
        check_serializable_value_budget(&entries[i].1, budget)?;
        i = i + 1;
    }
    Ok(())
}

/// Charges each node, its value and each edge of a serialized graph to the
/// budget.
fn check_serializable_graph_budget(graph: &SerializableGraph, budget: &ResourceBudget) -> (r: Result<
    (),
    ResourceBudgetError,
>)
    ensures
        r matches Err(e) ==> graph_budget_error(budget, e),
        graph.nodes@.len() > 0 && budget.max_nodes == 0 ==> r is Err,
        graph.edges@.len() > 0 && budget.max_edges == 0 ==> r is Err,
{
    let mut i: usize = 0;
    while i < graph.nodes.len()
        invariant
            i <= graph.nodes@.len(),
            i > 0 ==> budget.max_nodes > 0,
        decreases graph.nodes@.len() - i,
    {
        budget.consume_node()?;
        match check_serializable_value_budget(&graph.nodes[i].value, budget) {
            Ok(_) => {},
            Err(e) => return Err(e),
        }
        i = i + 1;
    }
    let mut k: usize = 0;
    while k < graph.edges.len()
        invariant
            k <= graph.edges@.len(),
            k > 0 ==> budget.max_edges > 0,
            graph.nodes@.len() > 0 ==> budget.max_nodes > 0,
        decreases graph.edges@.len() - k,
    {
        budget.consume_edge()?;
        k = k + 1;
    }
    Ok(())
}

impl SerializableValue {
    /// A copy of the serialized value.
    pub fn clone_value(&self) -> (r: Self)
        ensures
            r.view_serial() == self.view_serial(),
        decreases self, 2int,
    {
        match self {
            SerializableValue::Null => SerializableValue::Null,
            SerializableValue::Boolean(b) => SerializableValue::Boolean(*b),
            SerializableValue::Integer(i) => SerializableValue::Integer(*i),
            SerializableValue::Real(x) => SerializableValue::Real(*x),
            SerializableValue::String(t) => SerializableValue::String(t.clone()),
            SerializableValue::Name(t) => SerializableValue::Name(t.clone()),
            SerializableValue::Array(items) => SerializableValue::Array(clone_items(items)),
            SerializableValue::Dictionary(entries) => SerializableValue::Dictionary(clone_entries(entries)),
            SerializableValue::Stream { dictionary, data, decoded } => SerializableValue::Stream {
                dictionary: clone_entries(dictionary),
                data: vstd::slice::slice_to_vec(data.as_slice()),
                decoded: *decoded,
            },
            SerializableValue::Reference { object_id, generation } => SerializableValue::Reference {
                object_id: *object_id,
                generation: *generation,
            },
        }
    }
}

fn clone_items(items: &Vec<SerializableValue>) -> (r: Vec<SerializableValue>)
    ensures
        serial_items_view(&r) == serial_items_view(items),
    decreases items, 1int,
{
    let mut out: Vec<SerializableValue> = Vec::new();
    let mut i: usize = 0;
    while i < items.len()
        invariant
            i <= items@.len(),
            serial_items_view(&out) == serial_items_view(items).take(i as int),
        decreases items@.len() - i,
    {
        proof {
            assert(decreases_to!(items@ => items@[i as int]));
        }
        let x = items[i].clone_value();
        let ghost before = out;
        out.push(x);
        proof {
            assert(serial_items_view(&out) =~= serial_items_view(&before).push(x.view_serial()));
            assert(serial_items_view(items).take(i + 1) =~= serial_items_view(items).take(i as int).push(
                items@[i as int].view_serial(),
            ));
        }
        i = i + 1;
    }
    proof {
        assert(serial_items_view(items).take(items@.len() as int) =~= serial_items_view(items));
    }
    out
}

fn clone_entries(entries: &Vec<(String, SerializableValue)>) -> (r: Vec<(String, SerializableValue)>)
    ensures
        serial_entries_view(&r) == serial_entries_view(entries),
    decreases entries, 1int,
{
    let mut out: Vec<(String, SerializableValue)> = Vec::new();
    let mut i: usize = 0;
    while i < entries.len()
        invariant
            i <= entries@.len(),
            serial_entries_view(&out) == serial_entries_view(entries).take(i as int),
        decreases entries@.len() - i,
    {
        proof {
            assert(decreases_to!(entries@ => entries@[i as int]));
        }
        let key = entries[i].0.clone();
        let x = entries[i].1.clone_value();
        let ghost before = out;
        out.push((key, x));
        proof {
            assert(serial_entries_view(&out) =~= serial_entries_view(&before).push((key@, x.view_serial())));
            assert(serial_entries_view(entries).take(i + 1) =~= serial_entries_view(entries).take(i as int).push(
                (entries@[i as int].0@, entries@[i as int].1.view_serial()),
            ));
        }
        i = i + 1;
    }
    proof {
        assert(serial_entries_view(entries).take(entries@.len() as int) =~= serial_entries_view(entries));
    }
    out
}

impl SerializableGraph {
    /// A copy of the serialized graph.
    pub fn clone_graph(&self) -> (r: Self)
        ensures
            r.record() == self.record(),
    {
        let mut nodes: Vec<SerializableNode> = Vec::new();
        let mut i: usize = 0;
        while i < self.nodes.len()
            invariant
                i <= self.nodes@.len(),
                node_records(nodes@) == node_records(self.nodes@).take(i as int),
            decreases self.nodes@.len() - i,
        {
            let n = &self.nodes[i];
            let copy = SerializableNode {
                original_id: n.original_id,
                id: n.id,
                node_type: n.node_type.clone(),
                value: n.value.clone_value(),
                object_id: n.object_id,
                warnings: copy_texts(&n.warnings),
                properties: copy_properties(&n.properties),
            };
            let ghost before = nodes@;
            nodes.push(copy);
            proof {
                assert(node_records(nodes@) =~= node_records(before).push(copy.record()));
                assert(node_records(self.nodes@).take(i + 1) =~= node_records(self.nodes@).take(i as int).push(
                    self.nodes@[i as int].record(),
                ));
            }
            i = i + 1;
        }
        let mut edges: Vec<SerializableEdge> = Vec::new();
        let mut k: usize = 0;
        while k < self.edges.len()
            invariant
                k <= self.edges@.len(),
                edge_records(edges@) == edge_records(self.edges@).take(k as int),
            decreases self.edges@.len() - k,
        {
            let e = &self.edges[k];
            let copy = SerializableEdge { from: e.from, to: e.to, edge_type: e.edge_type.clone() };
            let ghost before = edges@;
            edges.push(copy);
            proof {
                assert(edge_records(edges@) =~= edge_records(before).push(copy.record()));
                assert(edge_records(self.edges@).take(k + 1) =~= edge_records(self.edges@).take(k as int).push(
                    self.edges@[k as int].record(),
                ));
            }
            k = k + 1;
        }
        proof {
            assert(node_records(self.nodes@).take(self.nodes@.len() as int) =~= node_records(self.nodes@));
            assert(edge_records(self.edges@).take(self.edges@.len() as int) =~= edge_records(self.edges@));
        }
        SerializableGraph {
            nodes,
            edges,
            root: self.root,
            metadata: GraphMetadata {
                node_count: self.metadata.node_count,
                edge_count: self.metadata.edge_count,
                is_cyclic: self.metadata.is_cyclic,
                serialization_version: self.metadata.serialization_version.clone(),
            },
        }
    }

    /// Serializes a graph after charging each node, its value's text and
    /// bytes, and each edge to the budget.
    pub fn from_ast_with_budget(ast: &PdfAstGraph, budget: &ResourceBudget) -> (r: Result<Self, ResourceBudgetError>)
        ensures
            match r {
                Ok(g) => {
                    &&& node_records(g.nodes@) == serial_nodes(ast.nodes_spec())
                    &&& edge_records(g.edges@) == serial_edges(ast.nodes_spec(), ast.edges_spec())
                    &&& g.root == serial_root(ast.nodes_spec(), ast.root_spec())
                    &&& g.metadata.node_count == ast.nodes_spec().len()
                    &&& g.metadata.edge_count == ast.edges_spec().len()
                    &&& g.metadata.is_cyclic == spec_is_cyclic(*ast)
                    &&& g.metadata.serialization_version@ == AST_SCHEMA_VERSION@
                },
                Err(e) => graph_budget_error(budget, e),
            },
            ast.nodes_spec().len() > 0 && budget.max_nodes == 0 ==> r is Err,
            ast.edges_spec().len() > 0 && budget.max_edges == 0 ==> r is Err,
    {
        let nodes = ast.nodes();
        let mut i: usize = 0;
        while i < nodes.len()
            invariant
                i <= nodes@.len(),
                i > 0 ==> budget.max_nodes > 0,
            decreases nodes@.len() - i,
        {
            budget.consume_node()?;
            match check_value_budget(&nodes[i].value, budget) {
                Ok(_) => {},
                Err(e) => return Err(e),
            }
            i = i + 1;
        }
        let edges = ast.edges();
        let mut k: usize = 0;
        while k < edges.len()
            invariant
                k <= edges@.len(),
                k > 0 ==> budget.max_edges > 0,
                nodes@.len() > 0 ==> budget.max_nodes > 0,
                nodes@ == ast.nodes_spec(),
                edges@ == ast.edges_spec(),
            decreases edges@.len() - k,
        {
            budget.consume_edge()?;
            k = k + 1;
        }
        Ok(Self::from_ast(ast))
    }

    /// Restores the graph after charging its nodes, their values and its
    /// edges to the budget; a budget error is given as its message.
    pub fn deserialize_with_budget(&self, budget: &ResourceBudget) -> (r: Result<PdfAstGraph, String>)
        ensures
            match r {
                Ok(g) => restore_error(self.record()) is None && restores_graph(self.record(), g),
                Err(e) => restore_error(self.record()) == Some(e@) || exists|b: ResourceBudgetError|
                    graph_budget_error(budget, b) && e@ == "resource budget exceeded: "@ + budget_error_name(b),
            },
            self.nodes@.len() > 0 && budget.max_nodes == 0 ==> r is Err,
    {
        match check_serializable_graph_budget(self, budget) {
            Ok(_) => {},
            Err(e) => return Err(e.to_string()),
        }
        GraphDeserializer::deserialize(self.clone_graph())
    }
}

} // verus!
