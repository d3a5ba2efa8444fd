//! Documents in serialized form: the version and object ids as text, the
//! graph, the trailer and revision trailers as serialized values, and the
//! cross-reference entries as records; and reading them back.
use crate::ast::NodeId;
use crate::document::{DocumentRevision, PdfDocument, PdfVersion, XRefMap};
use crate::serialization::{
    lemma_value_round_trip, lemma_xref_entry_round_trip, plain_value,
    deserialize_value, deserialize_xref_entry, edge_records, node_records, record_view, restore_error,
    restored_id, restores_graph, serial_edges, serial_nodes, serial_of, serial_root, serialize_value,
    serialize_xref_entry, spec_deserialized, spec_serialized, value_of, GraphDeserializer, SerializableGraph,
    SerializableNode, SerializableValue, SerializableXRefEntry, AST_SCHEMA_VERSION,
};
use crate::text::{concat2, decimal, digit_char, msg, u64_text};
use crate::types::{lemma_value_view, ObjectId, PdfDictionary, PdfValue, SpecValue};
use crate::xref::{LinearizationInfo, XRefEntry};
use vstd::prelude::*;

verus! {

/// Whether a character is a decimal digit.
pub open spec fn is_digit_char(c: char) -> bool {
    '0' <= c && c <= '9'
}

/// The value of a decimal digit character.
pub open spec fn char_value(c: char) -> int {
    (c as u32) as int - 48
}

/// The value of the digits `t[a..b]`.
pub open spec fn chars_value(t: Seq<char>, a: int, b: int) -> int
    decreases b - a,
{
    if b <= a {
        0
    } else {
        chars_value(t, a, b - 1) * 10 + char_value(t[b - 1])
    }
}

/// The number that `t[a..b]` spells as `str::parse` reads an unsigned
/// integer (an optional `+`, then one or more digits), when at most `max`.
pub open spec fn spec_number_text(t: Seq<char>, a: int, b: int, max: int) -> Option<int> {
    let s = if a < b && t[a] == '+' { a + 1 } else { a };
    if s < b && (forall|i: int| s <= i < b ==> is_digit_char(#[trigger] t[i])) && chars_value(t, s, b) <= max {
        Some(chars_value(t, s, b))
    } else {
        None
    }
}

/// The first place at or after `i` where `c` stands in `t`, else its length.
pub open spec fn first_index(t: Seq<char>, c: char, i: int) -> int
    decreases t.len() - i,
{
    if i < 0 || i >= t.len() {
        t.len() as int
    } else if t[i] == c {
        i
    } else {
        first_index(t, c, i + 1)
    }
}

/// The two numbers on either side of the first `sep` in `t`, each within
/// its bound.
pub open spec fn spec_pair_text(t: Seq<char>, sep: char, max1: int, max2: int) -> Option<(int, int)> {
    let d = first_index(t, sep, 0);
    if d >= t.len() {
        None
    } else {
        match (spec_number_text(t, 0, d, max1), spec_number_text(t, d + 1, t.len() as int, max2)) {
            (Some(a), Some(b)) => Some((a, b)),
            _ => None,
        }
    }
}

/// The text of a version: `major.minor`.
pub open spec fn version_text(v: PdfVersion) -> Seq<char> {
    decimal(v.major as nat) + seq!['.'] + decimal(v.minor as nat)
}

/// The version a text names.
pub open spec fn spec_parse_version(t: Seq<char>) -> Option<PdfVersion> {
    match spec_pair_text(t, '.', 255, 255) {
        Some((a, b)) => Some(PdfVersion { major: a as u8, minor: b as u8 }),
        None => None,
    }
}

/// The text of an object id: `number_generation`.
pub open spec fn key_text(id: ObjectId) -> Seq<char> {
    decimal(id.number as nat) + seq!['_'] + decimal(id.generation as nat)
}

/// The object id a text names.
pub open spec fn spec_parse_key(t: Seq<char>) -> Option<ObjectId> {
    match spec_pair_text(t, '_', u32::MAX as int, u16::MAX as int) {
        Some((a, b)) => Some(ObjectId { number: a as u32, generation: b as u16 }),
        None => None,
    }
}

/// Decimal text is made of digits and spells its number.
pub proof fn lemma_decimal_digits(n: nat)
    ensures
        decimal(n).len() > 0,
        forall|i: int| 0 <= i < decimal(n).len() ==> is_digit_char(#[trigger] decimal(n)[i]),
        chars_value(decimal(n), 0, decimal(n).len() as int) == n,
    decreases n,
{
    if n < 10 {
        assert(char_value(digit_char(n)) == n);
        assert(chars_value(decimal(n), 0, 0) == 0);
    } else {
        lemma_decimal_digits(n / 10);
        let p = decimal(n / 10);
        let d = decimal(n);
        assert(d == p.push(digit_char(n % 10)));
        assert(char_value(digit_char(n % 10)) == n % 10);
        lemma_chars_value_prefix(p, digit_char(n % 10));
        assert(chars_value(d, 0, d.len() as int) == chars_value(d, 0, p.len() as int) * 10 + (n % 10));
        assert((n / 10) * 10 + n % 10 == n);
    }
}

/// The value of a prefix does not see what follows it.
proof fn lemma_chars_value_prefix(p: Seq<char>, c: char)
    ensures
        chars_value(p.push(c), 0, p.len() as int) == chars_value(p, 0, p.len() as int),
{
    lemma_chars_value_same(p.push(c), p, 0, p.len() as int);
}

/// Two texts that agree on `[a, b)` give `[a, b)` the same value.
proof fn lemma_chars_value_same(t: Seq<char>, u: Seq<char>, a: int, b: int)
    requires
        0 <= a,
        b <= t.len(),
        b <= u.len(),
        forall|i: int| a <= i < b ==> t[i] == u[i],
    ensures
        chars_value(t, a, b) == chars_value(u, a, b),
    decreases b - a,
{
    if b > a {
        lemma_chars_value_same(t, u, a, b - 1);
    }
}

/// Places before the first `c` hold no `c`.
pub(crate) proof fn lemma_first_index(t: Seq<char>, c: char, i: int, k: int)
    requires
        0 <= i <= k,
        k < t.len(),
        t[k] == c,
        forall|j: int| i <= j < k ==> t[j] != c,
    ensures
        first_index(t, c, i) == k,
    decreases k - i,
{
    if i < k {
        lemma_first_index(t, c, i + 1, k);
    }
}

/// Reading back the text of two numbers joined by a separator that is no
/// digit gives the numbers.
pub proof fn lemma_pair_round_trip(a: nat, b: nat, sep: char, max1: int, max2: int)
    requires
        !is_digit_char(sep),
        sep != '+',
        a <= max1,
        b <= max2,
    ensures
        spec_pair_text(decimal(a) + seq![sep] + decimal(b), sep, max1, max2) == Some((a as int, b as int)),
{
    lemma_decimal_digits(a);
    lemma_decimal_digits(b);
    let da = decimal(a);
    let db = decimal(b);
    let t = da + seq![sep] + db;
    let d = da.len() as int;
    assert(t[d] == sep);
    assert forall|j: int| 0 <= j < d implies t[j] != sep by {
        assert(t[j] == da[j]);
    }
    lemma_first_index(t, sep, 0, d);
    assert forall|i: int| 0 <= i < d implies is_digit_char(#[trigger] t[i]) by {
        assert(t[i] == da[i]);
    }
    assert forall|i: int| d + 1 <= i < t.len() implies is_digit_char(#[trigger] t[i]) by {
        assert(t[i] == db[i - d - 1]);
    }
    lemma_chars_value_same(t, da, 0, d);
    lemma_chars_value_shift(t, db, d + 1, 0, db.len() as int);
    assert(t[0] != '+');
    assert(t[d + 1] != '+');
}

/// The value of a part of a text is the value of that part taken alone.
proof fn lemma_chars_value_shift(t: Seq<char>, u: Seq<char>, off: int, a: int, b: int)
    requires
        0 <= a <= b <= u.len(),
        off >= 0,
        off + b <= t.len(),
        forall|i: int| a <= i < b ==> t[off + i] == u[i],
    ensures
        chars_value(t, off + a, off + b) == chars_value(u, a, b),
    decreases b - a,
{
    if b > a {
        lemma_chars_value_shift(t, u, off, a, b - 1);
    }
}

/// Reading back the text of a version gives the version.
pub proof fn lemma_version_round_trip(v: PdfVersion)
    ensures
        spec_parse_version(version_text(v)) == Some(v),
{
    lemma_pair_round_trip(v.major as nat, v.minor as nat, '.', 255, 255);
}

/// Reading back the text of an object id gives the id.
pub proof fn lemma_key_round_trip(id: ObjectId)
    ensures
        spec_parse_key(key_text(id)) == Some(id),
{
    lemma_pair_round_trip(id.number as nat, id.generation as nat, '_', u32::MAX as int, u16::MAX as int);
}


/// Reads `s[a..b]` as `str::parse` reads an unsigned integer.
pub(crate) fn number_text(s: &str, a: usize, b: usize, max: u64) -> (r: Option<u64>)
    requires
        a <= b <= s@.len(),
    ensures
        match spec_number_text(s@, a as int, b as int, max as int) {
            Some(v) => r == Some(v as u64),
            None => r is None,
        },
        r matches Some(v) ==> v <= max && spec_number_text(s@, a as int, b as int, max as int) == Some(v as int),
{
    let st = if a < b && s.get_char(a) == '+' {
        a + 1
    } else {
        a
    };
    if st >= b {
        return None;
    }
    let mut v: u64 = 0;
    let mut i = st;
    while i < b
        invariant
            st <= i <= b <= s@.len(),
            a <= st,
            st == (if a < b && s@[a as int] == '+' { a + 1 } else { a as int }),
            forall|k: int| st <= k < i ==> is_digit_char(#[trigger] s@[k]),
            v == chars_value(s@, st as int, i as int),
            v <= max,
        decreases b - i,
    {
        let c = s.get_char(i);
        if !('0' <= c && c <= '9') {
            return None;
        }
        let d = (c as u32 - 48) as u64;
        proof {
            assert(chars_value(s@, st as int, i + 1) == v * 10 + d);
        }
        if d > max || v > (max - d) / 10 {
            proof {
                if d <= max {
                    assert(v * 10 + d > max) by (nonlinear_arith)
                        requires
                            v > (max - d) / 10,
                            d <= max,
                    ;
                }
                if forall|k: int| st <= k < b ==> is_digit_char(#[trigger] s@[k]) {
                    lemma_chars_grow(s@, st as int, i + 1, b as int);
                }
            }
            return None;
        }
        proof {
            assert(v * 10 + d <= max) by (nonlinear_arith)
                requires
                    v <= (max - d) / 10,
                    d <= max,
            ;
        }
        v = v * 10 + d;
        i = i + 1;
    }
    Some(v)
}

/// Over digits, a longer prefix is worth at least as much.
proof fn lemma_chars_grow(t: Seq<char>, a: int, e1: int, e2: int)
    requires
        a <= e1 <= e2,
        forall|k: int| a <= k < e2 ==> is_digit_char(#[trigger] t[k]),
    ensures
        chars_value(t, a, e2) >= chars_value(t, a, e1),
        chars_value(t, a, e1) >= 0,
    decreases e2 - a,
{
    if e2 > e1 {
        lemma_chars_grow(t, a, e1, e2 - 1);
        assert(is_digit_char(t[e2 - 1]));
    } else if e1 > a {
        lemma_chars_grow(t, a, e1 - 1, e1 - 1);
        assert(is_digit_char(t[e1 - 1]));
    }
}

/// The two numbers on either side of the first `sep` of `s`.
fn pair_text(s: &str, sep: char, max1: u64, max2: u64) -> (r: Option<(u64, u64)>)
    ensures
        match spec_pair_text(s@, sep, max1 as int, max2 as int) {
            Some((a, b)) => r == Some((a as u64, b as u64)),
            None => r is None,
        },
        r matches Some((a, b)) ==> a <= max1 && b <= max2 && spec_pair_text(s@, sep, max1 as int, max2 as int) == Some(
            (a as int, b as int),
        ),
{
    let n = s.unicode_len();
    let mut d: usize = 0;
    while d < n && s.get_char(d) != sep
        invariant
            d <= n,
            n == s@.len(),
            first_index(s@, sep, d as int) == first_index(s@, sep, 0),
        decreases n - d,
    {
        d = d + 1;
    }
    if d >= n {
        return None;
    }
    let a = number_text(s, 0, d, max1);
    let b = number_text(s, d + 1, n, max2);
    match (a, b) {
        (Some(x), Some(y)) => Some((x, y)),
        _ => None,
    }
}

/// The text of a version, `major.minor`.
pub fn version_to_text(v: PdfVersion) -> (r: String)
    ensures
        r@ == version_text(v),
{
    let mut m = u64_text(v.major as u64);
    m.append(".");
    m.append(u64_text(v.minor as u64).as_str());
    proof {
        reveal_strlit(".");
    }
    m
}

/// The version a text names; `None` unless it is two numbers up to 255
/// around its first `.`.
pub fn parse_version(s: &str) -> (r: Option<PdfVersion>)
    ensures
        r == spec_parse_version(s@),
{
    match pair_text(s, '.', 255, 255) {
        Some((a, b)) => Some(PdfVersion::new(a as u8, b as u8)),
        None => None,
    }
}

/// The text of an object id, `number_generation`.
pub fn key_to_text(id: ObjectId) -> (r: String)
    ensures
        r@ == key_text(id),
{
    let mut m = u64_text(id.number as u64);
    m.append("_");
    m.append(u64_text(id.generation as u64).as_str());
    proof {
        reveal_strlit("_");
    }
    m
}

/// The object id a text names.
pub fn parse_key(s: &str) -> (r: Option<ObjectId>)
    ensures
        r == spec_parse_key(s@),
{
    match pair_text(s, '_', 0xffff_ffff, 0xffff) {
        Some((a, b)) => Some(ObjectId::new(a as u32, b as u16)),
        None => None,
    }
}


/// A revision in serialized form.
pub struct SerializableRevision {
    pub revision_number: u32,
    pub xref_offset: u64,
    pub trailer: SerializableValue,
    pub modified_objects: Vec<(u32, u16)>,
    pub added_objects: Vec<(u32, u16)>,
    pub deleted_objects: Vec<(u32, u16)>,
}

/// A document in serialized form.
pub struct SerializableDocument {
    pub version: String,
    pub schema_version: String,
    pub ast: SerializableGraph,
    pub catalog: Option<usize>,
    pub info: Option<usize>,
    pub trailer: SerializableValue,
    pub xref_entries: Vec<(String, SerializableXRefEntry)>,
    pub xref_hybrid_mode: bool,
    pub revisions: Vec<SerializableRevision>,
    pub file_size: Option<u64>,
    pub has_forms: bool,
    pub linearization: Option<LinearizationInfo>,
}

/// Object ids as pairs of number and generation.
pub open spec fn id_pairs(v: Seq<ObjectId>) -> Seq<(u32, u16)> {
    v.map_values(|id: ObjectId| (id.number, id.generation))
}

/// Pairs of number and generation as object ids.
pub open spec fn pair_ids(v: Seq<(u32, u16)>) -> Seq<ObjectId> {
    v.map_values(|p: (u32, u16)| ObjectId { number: p.0, generation: p.1 })
}

/// Whether `s` is the serialized form of revision `r`.
pub open spec fn revision_serialized(r: &DocumentRevision, s: &SerializableRevision) -> bool {
    &&& s.revision_number == r.revision_number
    &&& s.xref_offset == r.xref_offset
    &&& s.trailer.view_serial() == serial_of(SpecValue::Dictionary(r.trailer.sv_entries()))
    &&& s.modified_objects@ == id_pairs(r.modified_objects@)
    &&& s.added_objects@ == id_pairs(r.added_objects@)
    &&& s.deleted_objects@ == id_pairs(r.deleted_objects@)
}

fn ids_to_pairs(v: &Vec<ObjectId>) -> (r: Vec<(u32, u16)>)
    ensures
        r@ == id_pairs(v@),
{
    let mut out: Vec<(u32, u16)> = Vec::new();
    let mut i: usize = 0;
    while i < v.len()
        invariant
            i <= v@.len(),
            out@ == id_pairs(v@.take(i as int)),
        decreases v@.len() - i,
    {
        out.push((v[i].number, v[i].generation));
        proof {
            assert(id_pairs(v@.take(i + 1)) =~= id_pairs(v@.take(i as int)).push((v@[i as int].number, v@[i as int].generation)));
        }
        i = i + 1;
    }
    proof {
        assert(v@.take(i as int) =~= v@);
    }
    out
}

fn pairs_to_ids(v: &Vec<(u32, u16)>) -> (r: Vec<ObjectId>)
    ensures
        r@ == pair_ids(v@),
{
    let mut out: Vec<ObjectId> = Vec::new();
    let mut i: usize = 0;
    while i < v.len()
        invariant
            i <= v@.len(),
            out@ == pair_ids(v@.take(i as int)),
        decreases v@.len() - i,
    {
        out.push(ObjectId::new(v[i].0, v[i].1));
        proof {
            assert(pair_ids(v@.take(i + 1)) =~= pair_ids(v@.take(i as int)).push(
                ObjectId { number: v@[i as int].0, generation: v@[i as int].1 },
            ));
        }
        i = i + 1;
    }
    proof {
        assert(v@.take(i as int) =~= v@);
    }
    out
}

impl SerializableDocument {
    /// The serialized form of a document: its version as text, its graph,
    /// the places of its catalog and info nodes, its trailer, its
    /// cross-reference entries keyed by `number_generation`, its revisions
    /// and what it records of its size, forms and linearization.
    pub fn from_document(document: &PdfDocument) -> (r: SerializableDocument)
        ensures
            r.version@ == version_text(document.version),
            r.schema_version@ == AST_SCHEMA_VERSION@,
            node_records(r.ast.nodes@) == serial_nodes(document.ast.nodes_spec()),
            edge_records(r.ast.edges@) == serial_edges(document.ast.nodes_spec(), document.ast.edges_spec()),
            r.ast.root == serial_root(document.ast.nodes_spec(), document.ast.root_spec()),
            r.catalog == serial_root(document.ast.nodes_spec(), document.catalog),
            r.info == serial_root(document.ast.nodes_spec(), document.info),
            r.trailer.view_serial() == serial_of(SpecValue::Dictionary(document.trailer.sv_entries())),
            r.xref_entries@.len() == document.xref.entries.entries_spec().len(),
            forall|i: int|
                0 <= i < r.xref_entries@.len() ==> (#[trigger] r.xref_entries@[i]).0@ == key_text(
                    document.xref.entries.entries_spec()[i].0,
                ) && record_view(&r.xref_entries@[i].1) == spec_serialized(document.xref.entries.entries_spec()[i].1),
            r.xref_hybrid_mode == document.xref.hybrid_mode,
            r.revisions@.len() == document.revisions@.len(),
            forall|i: int|
                0 <= i < r.revisions@.len() ==> revision_serialized(&document.revisions@[i], &(#[trigger] r.revisions@[i])),
            r.file_size == document.file_size,
            r.has_forms == document.has_forms,
            r.linearization == document.linearization,
    {
        let ast = SerializableGraph::from_ast(&document.ast);
        let catalog = serial_place(document.ast.nodes(), document.catalog);
        let info = serial_place(document.ast.nodes(), document.info);
        let trailer_value = PdfValue::Dictionary(document.trailer.clone_dict());
        proof {
            lemma_value_view(&trailer_value);
        }
        let trailer = serialize_value(&trailer_value);
        let entries = document.xref.entries.entries();
        let mut xref_entries: Vec<(String, SerializableXRefEntry)> = Vec::new();
        let mut i: usize = 0;
        while i < entries.len()
            invariant
                i <= entries@.len(),
                entries@ == document.xref.entries.entries_spec(),
                xref_entries@.len() == i,
                forall|k: int|
                    0 <= k < i ==> (#[trigger] xref_entries@[k]).0@ == key_text(entries@[k].0) && record_view(
                        &xref_entries@[k].1,
                    ) == spec_serialized(entries@[k].1),
            decreases entries@.len() - i,
        {
            let (id, e) = entries[i];
            xref_entries.push((key_to_text(id), serialize_xref_entry(e)));
            i = i + 1;
        }
        let mut revisions: Vec<SerializableRevision> = Vec::new();
        let mut k: usize = 0;
        while k < document.revisions.len()
            invariant
                k <= document.revisions@.len(),
                revisions@.len() == k,
                forall|j: int|
                    0 <= j < k ==> revision_serialized(&document.revisions@[j], &(#[trigger] revisions@[j])),
            decreases document.revisions@.len() - k,
        {
            let rev = &document.revisions[k];
            let tv = PdfValue::Dictionary(rev.trailer.clone_dict());
            proof {
                lemma_value_view(&tv);
            }
            revisions.push(
                SerializableRevision {
                    revision_number: rev.revision_number,
                    xref_offset: rev.xref_offset,
                    trailer: serialize_value(&tv),
                    modified_objects: ids_to_pairs(&rev.modified_objects),
                    added_objects: ids_to_pairs(&rev.added_objects),
                    deleted_objects: ids_to_pairs(&rev.deleted_objects),
                },
            );
            k = k + 1;
        }
        SerializableDocument {
            version: version_to_text(document.version),
            schema_version: msg(AST_SCHEMA_VERSION),
            ast,
            catalog,
            info,
            trailer,
            xref_entries,
            xref_hybrid_mode: document.xref.hybrid_mode,
            revisions,
            file_size: document.file_size,
            has_forms: document.has_forms,
            linearization: document.linearization,
        }
    }
}

/// The place of node `id` among `nodes`, as `serial_root` gives it.
fn serial_place(nodes: &Vec<crate::ast::AstNode>, id: Option<NodeId>) -> (r: Option<usize>)
    requires
        forall|i: int, j: int| 0 <= i < j < nodes@.len() ==> (#[trigger] nodes@[i]).id != (#[trigger] nodes@[j]).id,
    ensures
        r == serial_root(nodes@, id),
{
    match id {
        Some(n) => crate::serialization::node_place(nodes, n),
        None => None,
    }
}


/// The object id a serialized node stands for: the first node with place
/// `c`, by the id it had.
pub open spec fn serial_node(nodes: Seq<SerializableNode>, c: usize, i: int) -> Option<NodeId>
    decreases nodes.len() - i,
{
    if i < 0 || i >= nodes.len() {
        None
    } else if nodes[i].id == c {
        Some(NodeId(restored_id(nodes[i].record())))
    } else {
        serial_node(nodes, c, i + 1)
    }
}

/// The node a serialized place names, or none when none is named.
pub open spec fn named_node(nodes: Seq<SerializableNode>, place: Option<usize>) -> Option<NodeId> {
    match place {
        Some(c) => serial_node(nodes, c, 0),
        None => None,
    }
}

/// Why one cross-reference record cannot be read.
pub open spec fn record_error(e: (String, SerializableXRefEntry)) -> Option<Seq<char>> {
    if spec_parse_key(e.0@) is None {
        Some("Invalid object ID: "@ + e.0@)
    } else {
        match spec_deserialized(&e.1) {
            Err(m) => Some(m),
            Ok(_) => None,
        }
    }
}

/// The first problem among the first `k` records.
pub open spec fn records_error(v: Seq<(String, SerializableXRefEntry)>, k: int) -> Option<Seq<char>>
    decreases k,
{
    if k <= 0 || k > v.len() {
        None
    } else {
        match records_error(v, k - 1) {
            Some(m) => Some(m),
            None => record_error(v[k - 1]),
        }
    }
}

/// The entries the first `k` records give, a later key replacing an
/// earlier one.
pub open spec fn records_map(v: Seq<(String, SerializableXRefEntry)>, k: int) -> Seq<(ObjectId, XRefEntry)>
    decreases k,
{
    if k <= 0 || k > v.len() {
        Seq::empty()
    } else {
        crate::types::spec_dict_insert(
            records_map(v, k - 1),
            spec_parse_key(v[k - 1].0@)->Some_0,
            spec_deserialized(&v[k - 1].1)->Ok_0,
        )
    }
}

/// Why a serialized revision's trailer cannot be read.
pub open spec fn trailer_error(prefix: Seq<char>, t: &SerializableValue) -> Option<Seq<char>> {
    match value_of(t.view_serial()) {
        SpecValue::Dictionary(_) => None,
        v => Some(prefix + crate::types::spec_kind_name(v)),
    }
}

/// The first revision whose trailer cannot be read, among the first `k`.
pub open spec fn revisions_error(v: Seq<SerializableRevision>, k: int) -> Option<Seq<char>>
    decreases k,
{
    if k <= 0 || k > v.len() {
        None
    } else {
        match revisions_error(v, k - 1) {
            Some(m) => Some(m),
            None => trailer_error("Revision trailer must be a dictionary, got "@, &v[k - 1].trailer),
        }
    }
}

/// Whether `r` is revision `s` read back.
pub open spec fn revision_restored(s: &SerializableRevision, r: &DocumentRevision) -> bool {
    &&& r.revision_number == s.revision_number
    &&& r.xref_offset == s.xref_offset
    &&& SpecValue::Dictionary(r.trailer.sv_entries()) == value_of(s.trailer.view_serial())
    &&& r.modified_objects@ == pair_ids(s.modified_objects@)
    &&& r.added_objects@ == pair_ids(s.added_objects@)
    &&& r.deleted_objects@ == pair_ids(s.deleted_objects@)
}

impl SerializableDocument {
    /// Why the document cannot be read back, the first problem in this
    /// order: the graph, the version, the trailer, the cross-reference
    /// records, the revisions' trailers, the catalog and the info places.
    pub open spec fn document_error(&self) -> Option<Seq<char>> {
        if restore_error(self.ast.record()) is Some {
            restore_error(self.ast.record())
        } else if spec_parse_version(self.version@) is None {
            Some("Invalid PDF version: "@ + self.version@)
        } else if trailer_error("Document trailer must be a dictionary, got "@, &self.trailer) is Some {
            trailer_error("Document trailer must be a dictionary, got "@, &self.trailer)
        } else if records_error(self.xref_entries@, self.xref_entries@.len() as int) is Some {
            records_error(self.xref_entries@, self.xref_entries@.len() as int)
        } else if revisions_error(self.revisions@, self.revisions@.len() as int) is Some {
            revisions_error(self.revisions@, self.revisions@.len() as int)
        } else if self.catalog is Some && named_node(self.ast.nodes@, self.catalog) is None {
            Some("Document catalog references an unknown AST node"@)
        } else if self.info is Some && named_node(self.ast.nodes@, self.info) is None {
            Some("Document info references an unknown AST node"@)
        } else {
            None
        }
    }

    /// The document a serialized form stands for (see `document_error` for
    /// when it stands for none).
    pub fn deserialize_document(&self) -> (r: Result<PdfDocument, String>)
        ensures
            match self.document_error() {
                Some(m) => r matches Err(e) && e@ == m,
                None => r is Ok,
            },
            r matches Ok(d) ==> {
                &&& Some(d.version) == spec_parse_version(self.version@)
                &&& restores_graph(self.ast.record(), d.ast)
                &&& SpecValue::Dictionary(d.trailer.sv_entries()) == value_of(self.trailer.view_serial())
                &&& d.xref.entries.entries_spec() == records_map(self.xref_entries@, self.xref_entries@.len() as int)
                &&& d.xref.hybrid_mode == self.xref_hybrid_mode
                &&& d.revisions@.len() == self.revisions@.len()
                &&& (forall|i: int|
                    0 <= i < d.revisions@.len() ==> revision_restored(&self.revisions@[i], &(#[trigger] d.revisions@[i])))
                &&& d.catalog == named_node(self.ast.nodes@, self.catalog)
                &&& d.info == named_node(self.ast.nodes@, self.info)
                &&& d.file_size == self.file_size
                &&& d.has_forms == self.has_forms
                &&& d.linearization == self.linearization
            },
    {
        let ast = match GraphDeserializer::deserialize(self.ast.clone_graph()) {
            Ok(g) => g,
            Err(m) => return Err(m),
        };
        let version = match parse_version(self.version.as_str()) {
            Some(v) => v,
            None => {
                proof {
                    reveal_strlit("Invalid PDF version: ");
                }
                return Err(concat2("Invalid PDF version: ", self.version.as_str()));
            },
        };
        let trailer = match read_trailer(&self.trailer, "Document trailer must be a dictionary, got ") {
            Ok(d) => d,
            Err(m) => return Err(m),
        };
        let mut document = PdfDocument::new(version);
        let mut i: usize = 0;
        proof {
            assert(document.xref.entries.entries_spec() =~= records_map(self.xref_entries@, 0));
        }
        while i < self.xref_entries.len()
            invariant
                i <= self.xref_entries@.len(),
                records_error(self.xref_entries@, i as int) is None,
                document.xref.entries.entries_spec() == records_map(self.xref_entries@, i as int),
                document.version == version,
                restore_error(self.ast.record()) is None,
                spec_parse_version(self.version@) == Some(version),
                trailer_error("Document trailer must be a dictionary, got "@, &self.trailer) is None,
            decreases self.xref_entries@.len() - i,
        {
            let key = self.xref_entries[i].0.as_str();
            let id = match parse_key(key) {
                Some(id) => id,
                None => {
                    proof {
                        reveal_strlit("Invalid object ID: ");
                        lemma_records_error_stays(self.xref_entries@, i + 1);
                    }
                    return Err(concat2("Invalid object ID: ", key));
                },
            };
            let entry = match deserialize_xref_entry(&self.xref_entries[i].1) {
                Ok(e) => e,
                Err(m) => {
                    proof {
                        lemma_records_error_stays(self.xref_entries@, i + 1);
                    }
                    return Err(m);
                },
            };
            document.xref.entries.insert(id, entry);
            i = i + 1;
        }
        let mut revisions: Vec<DocumentRevision> = Vec::new();
        let mut k: usize = 0;
        while k < self.revisions.len()
            invariant
                k <= self.revisions@.len(),
                revisions_error(self.revisions@, k as int) is None,
                revisions@.len() == k,
                restore_error(self.ast.record()) is None,
                spec_parse_version(self.version@) == Some(version),
                trailer_error("Document trailer must be a dictionary, got "@, &self.trailer) is None,
                records_error(self.xref_entries@, self.xref_entries@.len() as int) is None,
                forall|j: int| 0 <= j < k ==> revision_restored(&self.revisions@[j], &(#[trigger] revisions@[j])),
            decreases self.revisions@.len() - k,
        {
            let rev = &self.revisions[k];
            let t = match read_trailer(&rev.trailer, "Revision trailer must be a dictionary, got ") {
                Ok(d) => d,
                Err(m) => {
                    proof {
                        lemma_revisions_error_stays(self.revisions@, k + 1);
                    }
                    return Err(m);
                },
            };
            revisions.push(
                DocumentRevision {
                    revision_number: rev.revision_number,
                    xref_offset: rev.xref_offset,
                    trailer: t,
                    modified_objects: pairs_to_ids(&rev.modified_objects),
                    added_objects: pairs_to_ids(&rev.added_objects),
                    deleted_objects: pairs_to_ids(&rev.deleted_objects),
                },
            );
            k = k + 1;
        }
        let catalog = find_serial_node(&self.ast.nodes, self.catalog);
        if self.catalog.is_some() && catalog.is_none() {
            return Err(msg("Document catalog references an unknown AST node"));
        }
        let info = find_serial_node(&self.ast.nodes, self.info);
        if self.info.is_some() && info.is_none() {
            return Err(msg("Document info references an unknown AST node"));
        }
        document.ast = ast;
        document.trailer = trailer;
        document.xref.hybrid_mode = self.xref_hybrid_mode;
        document.revisions = revisions;
        document.catalog = catalog;
        document.info = info;
        document.file_size = self.file_size;
        document.has_forms = self.has_forms;
        document.linearization = self.linearization;
        Ok(document)
    }
}

/// Once a prefix of the records has a problem, so do all longer ones.
proof fn lemma_records_error_stays(v: Seq<(String, SerializableXRefEntry)>, k: int)
    requires
        0 < k <= v.len(),
        records_error(v, k) is Some,
    ensures
        records_error(v, v.len() as int) == records_error(v, k),
    decreases v.len() - k,
{
    if k < v.len() {
        lemma_records_error_stays(v, k + 1);
    }
}

/// Once a prefix of the revisions has a problem, so do all longer ones.
proof fn lemma_revisions_error_stays(v: Seq<SerializableRevision>, k: int)
    requires
        0 < k <= v.len(),
        revisions_error(v, k) is Some,
    ensures
        revisions_error(v, v.len() as int) == revisions_error(v, k),
    decreases v.len() - k,
{
    if k < v.len() {
        lemma_revisions_error_stays(v, k + 1);
    }
}

/// A serialized trailer read back: a dictionary, or the message `prefix`
/// with the kind of value it holds.
fn read_trailer(t: &SerializableValue, prefix: &str) -> (r: Result<PdfDictionary, String>)
    ensures
        match trailer_error(prefix@, t) {
            Some(m) => r matches Err(e) && e@ == m,
            None => r matches Ok(d) && SpecValue::Dictionary(d.sv_entries()) == value_of(t.view_serial()),
        },
{
    let v = deserialize_value(t);
    proof {
        lemma_value_view(&v);
    }
    match v {
        PdfValue::Dictionary(d) => Ok(d),
        other => Err(concat2(prefix, other.kind_name())),
    }
}

/// The node a serialized place names.
fn find_serial_node(nodes: &Vec<SerializableNode>, place: Option<usize>) -> (r: Option<NodeId>)
    ensures
        r == named_node(nodes@, place),
{
    let c = match place {
        Some(c) => c,
        None => return None,
    };
    let mut i: usize = 0;
    while i < nodes.len()
        invariant
            i <= nodes@.len(),
            serial_node(nodes@, c, i as int) == serial_node(nodes@, c, 0),
            place == Some(c),
        decreases nodes@.len() - i,
    {
        if nodes[i].id == c {
            let id = match nodes[i].original_id {
                Some(o) => o,
                None => nodes[i].id,
            };
            proof {
                assert(nodes@[i as int].record().original_id == nodes@[i as int].original_id);
                assert(nodes@[i as int].record().id == nodes@[i as int].id);
                assert(serial_node(nodes@, c, i as int) == Some(NodeId(restored_id(nodes@[i as int].record()))));
                assert(id == restored_id(nodes@[i as int].record()));
            }
            return Some(NodeId(id));
        }
        i = i + 1;
    }
    None
}


/// Whether `s` lists the serialized cross-reference entries of `e`, in
/// order, keyed by `number_generation`.
pub open spec fn records_of(s: Seq<(String, SerializableXRefEntry)>, e: Seq<(ObjectId, XRefEntry)>) -> bool {
    &&& s.len() == e.len()
    &&& forall|i: int|
        0 <= i < s.len() ==> (#[trigger] s[i]).0@ == key_text(e[i].0) && record_view(&s[i].1) == spec_serialized(e[i].1)
}

/// Reading back the records of entries with distinct ids gives the
/// entries, with no problem on the way.
proof fn lemma_records_round_trip(s: Seq<(String, SerializableXRefEntry)>, e: Seq<(ObjectId, XRefEntry)>, k: int)
    requires
        records_of(s, e),
        crate::types::keys_unique(e),
        0 <= k <= s.len(),
    ensures
        records_error(s, k) is None,
        records_map(s, k) == e.take(k),
    decreases k,
{
    if k > 0 {
        lemma_records_round_trip(s, e, k - 1);
        lemma_key_round_trip(e[k - 1].0);
        lemma_xref_entry_round_trip(e[k - 1].1, s[k - 1].1);
        assert forall|j: int| 0 <= j < e.take(k - 1).len() implies (#[trigger] e.take(k - 1)[j]).0 != e[k - 1].0 by {
            assert(e[j].0 != e[k - 1].0);
        }
        crate::types::lemma_dict_absent(e.take(k - 1), e[k - 1].0, e[k - 1].1);
        assert(e.take(k - 1).push((e[k - 1].0, e[k - 1].1)) =~= e.take(k));
    }
}

/// Reading back the revisions' trailers, when they hold plain values,
/// gives them with no problem.
proof fn lemma_revisions_round_trip(s: Seq<SerializableRevision>, r: Seq<DocumentRevision>, k: int)
    requires
        s.len() == r.len(),
        0 <= k <= s.len(),
        forall|i: int| 0 <= i < s.len() ==> revision_serialized(&r[i], &(#[trigger] s[i])),
        forall|i: int| 0 <= i < r.len() ==> plain_value(SpecValue::Dictionary((#[trigger] r[i]).trailer.sv_entries())),
    ensures
        revisions_error(s, k) is None,
        forall|i: int| 0 <= i < k ==> value_of((#[trigger] s[i]).trailer.view_serial()) == SpecValue::Dictionary(
            r[i].trailer.sv_entries(),
        ),
    decreases k,
{
    if k > 0 {
        lemma_revisions_round_trip(s, r, k - 1);
        assert(revision_serialized(&r[k - 1], &s[k - 1]));
        assert(plain_value(SpecValue::Dictionary(r[k - 1].trailer.sv_entries())));
        lemma_value_round_trip(SpecValue::Dictionary(r[k - 1].trailer.sv_entries()));
    }
}

/// Reading back the serialized form of a document gives its version, its
/// trailer, its cross-reference entries and its revisions' numbers,
/// offsets and trailers, with no problem among them, when the trailers hold
/// plain values.
pub proof fn lemma_document_parts_round_trip(d: &PdfDocument, s: &SerializableDocument)
    requires
        s.version@ == version_text(d.version),
        s.trailer.view_serial() == serial_of(SpecValue::Dictionary(d.trailer.sv_entries())),
        plain_value(SpecValue::Dictionary(d.trailer.sv_entries())),
        records_of(s.xref_entries@, d.xref.entries.entries_spec()),
        crate::types::keys_unique(d.xref.entries.entries_spec()),
        s.revisions@.len() == d.revisions@.len(),
        forall|i: int| 0 <= i < s.revisions@.len() ==> revision_serialized(&d.revisions@[i], &(#[trigger] s.revisions@[i])),
        forall|i: int|
            0 <= i < d.revisions@.len() ==> plain_value(SpecValue::Dictionary((#[trigger] d.revisions@[i]).trailer.sv_entries())),
    ensures
        spec_parse_version(s.version@) == Some(d.version),
        trailer_error("Document trailer must be a dictionary, got "@, &s.trailer) is None,
        value_of(s.trailer.view_serial()) == SpecValue::Dictionary(d.trailer.sv_entries()),
        records_error(s.xref_entries@, s.xref_entries@.len() as int) is None,
        records_map(s.xref_entries@, s.xref_entries@.len() as int) == d.xref.entries.entries_spec(),
        revisions_error(s.revisions@, s.revisions@.len() as int) is None,
        forall|i: int|
            0 <= i < s.revisions@.len() ==> value_of((#[trigger] s.revisions@[i]).trailer.view_serial())
                == SpecValue::Dictionary(d.revisions@[i].trailer.sv_entries()),
{
    lemma_version_round_trip(d.version);
    lemma_value_round_trip(SpecValue::Dictionary(d.trailer.sv_entries()));
    let e = d.xref.entries.entries_spec();
    lemma_records_round_trip(s.xref_entries@, e, s.xref_entries@.len() as int);
    assert(e.take(e.len() as int) =~= e);
    lemma_revisions_round_trip(s.revisions@, d.revisions@, s.revisions@.len() as int);
}

} // verus!
