//! Mapping object ids to graph nodes, and resolving the references of a
//! graph against the objects of a file held in memory.
use crate::ast::{EdgeType, NodeId, NodeType, PdfAstGraph};
use crate::document::{PdfDocument, XRefMap};
use crate::limits::PerformanceLimits;
use crate::object_parser::{bytes_at, find_bytes, parse_indirect_object, parse_value, skip_ws};
use crate::text::{concat2, msg, u64_text, usize_text};
use crate::types::{lemma_array_view, lemma_value_view, ObjectId, PdfDictionary, PdfReference, PdfStream, PdfValue, SpecValue, StreamData};
use crate::xref::XRefEntry;
use vstd::prelude::*;

verus! {

/// Object ids mapped to node ids; each object id at most once.
pub struct ObjectNodeMap {
    object_to_node: Vec<(ObjectId, NodeId)>,
}

pub open spec fn assoc_map(e: Seq<(ObjectId, NodeId)>) -> Map<ObjectId, NodeId>
    decreases e.len(),
{
    if e.len() == 0 {
        Map::empty()
    } else {
        assoc_map(e.drop_last()).insert(e.last().0, e.last().1)
    }
}

impl ObjectNodeMap {
    #[verifier::type_invariant]
    closed spec fn wf(&self) -> bool {
        forall|i: int, j: int|
            0 <= i < j < self.object_to_node@.len() ==> (#[trigger] self.object_to_node@[i]).0 != (
            #[trigger] self.object_to_node@[j]).0
    }

    pub closed spec fn view_map(&self) -> Map<ObjectId, NodeId> {
        assoc_map(self.object_to_node@)
    }

    pub fn new() -> (r: Self)
        ensures
            r.view_map() == Map::<ObjectId, NodeId>::empty(),
    {
        ObjectNodeMap { object_to_node: Vec::new() }
    }

    fn position(&self, obj_id: &ObjectId) -> (r: Option<usize>)
        ensures
            r matches Some(i) ==> i < self.object_to_node@.len() && self.object_to_node@[i as int].0 == *obj_id,
            r is None ==> forall|j: int| 0 <= j < self.object_to_node@.len() ==> self.object_to_node@[j].0 != *obj_id,
    {
        let mut i: usize = 0;
        while i < self.object_to_node.len()
            invariant
                i <= self.object_to_node@.len(),
                forall|j: int| 0 <= j < i ==> self.object_to_node@[j].0 != *obj_id,
            decreases self.object_to_node@.len() - i,
        {
            if self.object_to_node[i].0 == *obj_id {
                return Some(i);
            }
            i = i + 1;
        }
        None
    }

    /// Maps `obj_id` to `node_id`, replacing an earlier mapping.
    pub fn insert(&mut self, obj_id: ObjectId, node_id: NodeId)
        ensures
            final(self).view_map() == old(self).view_map().insert(obj_id, node_id),
    {
        proof {
            use_type_invariant(&*self);
        }
        let ghost old_e = self.object_to_node@;
        let found = self.position(&obj_id);
        let mut e: Vec<(ObjectId, NodeId)> = Vec::new();
        std::mem::swap(&mut e, &mut self.object_to_node);
        match found {
            Some(i) => {
                e.set(i, (obj_id, node_id));
                proof {
                    lemma_assoc_update(old_e, i as int, node_id);
                }
            },
            None => {
                e.push((obj_id, node_id));
                proof {
                    assert(e@.drop_last() =~= old_e);
                }
            },
        }
        proof {
            assert forall|a: int, b: int| 0 <= a < b < e@.len() implies (#[trigger] e@[a]).0 != (
            #[trigger] e@[b]).0 by {
                if b < old_e.len() {
                    assert(old_e[a].0 != old_e[b].0);
                }
            }
        }
        self.object_to_node = e;
    }

    pub fn get_node_id(&self, obj_id: &ObjectId) -> (r: Option<NodeId>)
        ensures
            r is Some <==> self.view_map().contains_key(*obj_id),
            r matches Some(n) ==> self.view_map()[*obj_id] == n,
    {
        proof {
            use_type_invariant(self);
        }
        match self.position(obj_id) {
            Some(i) => {
                proof {
                    lemma_assoc_get(self.object_to_node@, i as int);
                }
                Some(self.object_to_node[i].1)
            },
            None => {
                proof {
                    lemma_assoc_absent(self.object_to_node@, *obj_id);
                }
                None
            },
        }
    }

    /// A copy of the map.
    pub fn get_object_node_map(&self) -> (r: ObjectNodeMap)
        ensures
            r.view_map() == self.view_map(),
    {
        proof {
            use_type_invariant(self);
        }
        let mut e: Vec<(ObjectId, NodeId)> = Vec::new();
        let mut i: usize = 0;
        while i < self.object_to_node.len()
            invariant
                i <= self.object_to_node@.len(),
                e@ == self.object_to_node@.take(i as int),
            decreases self.object_to_node@.len() - i,
        {
            e.push(self.object_to_node[i]);
            proof {
                assert(self.object_to_node@.take(i + 1) =~= self.object_to_node@.take(i as int).push(
                    self.object_to_node@[i as int],
                ));
            }
            i = i + 1;
        }
        proof {
            assert(self.object_to_node@.take(i as int) =~= self.object_to_node@);
        }
        ObjectNodeMap { object_to_node: e }
    }

    /// A map holding the given pairs; a later pair for the same object
    /// replaces an earlier one.
    pub fn from_map(map: Vec<(ObjectId, NodeId)>) -> (r: Self)
        ensures
            r.view_map() == assoc_map(map@),
    {
        let mut r = ObjectNodeMap::new();
        let mut i: usize = 0;
        while i < map.len()
            invariant
                i <= map@.len(),
                r.view_map() == assoc_map(map@.take(i as int)),
            decreases map@.len() - i,
        {
            let (o, n) = map[i];
            r.insert(o, n);
            proof {
                assert(map@.take(i + 1).drop_last() =~= map@.take(i as int));
            }
            i = i + 1;
        }
        proof {
            assert(map@.take(i as int) =~= map@);
        }
        r
    }
}

proof fn lemma_assoc_absent(e: Seq<(ObjectId, NodeId)>, k: ObjectId)
    requires
        forall|j: int| 0 <= j < e.len() ==> e[j].0 != k,
    ensures
        !assoc_map(e).contains_key(k),
    decreases e.len(),
{
    if e.len() > 0 {
        lemma_assoc_absent(e.drop_last(), k);
    }
}

proof fn lemma_assoc_get(e: Seq<(ObjectId, NodeId)>, i: int)
    requires
        0 <= i < e.len(),
        forall|a: int, b: int| 0 <= a < b < e.len() ==> (#[trigger] e[a]).0 != (#[trigger] e[b]).0,
    ensures
        assoc_map(e).contains_key(e[i].0),
        assoc_map(e)[e[i].0] == e[i].1,
    decreases e.len(),
{
    if i < e.len() - 1 {
        lemma_assoc_get(e.drop_last(), i);
        assert(e.last().0 != e[i].0);
    }
}

proof fn lemma_assoc_update(e: Seq<(ObjectId, NodeId)>, i: int, n: NodeId)
    requires
        0 <= i < e.len(),
        forall|a: int, b: int| 0 <= a < b < e.len() ==> (#[trigger] e[a]).0 != (#[trigger] e[b]).0,
    ensures
        assoc_map(e.update(i, (e[i].0, n))) == assoc_map(e).insert(e[i].0, n),
    decreases e.len(),
{
    let k = e[i].0;
    if i == e.len() - 1 {
        assert(e.update(i, (k, n)).drop_last() =~= e.drop_last());
        lemma_assoc_absent(e.drop_last(), k);
        assert(assoc_map(e).insert(k, n) =~= assoc_map(e.drop_last()).insert(k, n));
    } else {
        lemma_assoc_update(e.drop_last(), i, n);
        assert(e.update(i, (k, n)).drop_last() =~= e.drop_last().update(i, (k, n)));
        assert(e.last().0 != k);
        assert(assoc_map(e.update(i, (k, n))) =~= assoc_map(e).insert(k, n));
    }
}

/// Resolves the references of a graph: each referenced object becomes a
/// node (once), joined to the nodes that refer to it.
pub struct ReferenceResolver {
    pub data: Vec<u8>,
    pub xref_table: XRefMap,
    pub object_to_node: ObjectNodeMap,
    pub resolved_objects: Vec<ObjectId>,
    pub pending_references: Vec<(NodeId, PdfReference)>,
    pub tolerant: bool,
    pub limits: PerformanceLimits,
}

/// Whether a byte is white space as text splitting sees it.
pub open spec fn is_text_ws(b: u8) -> bool {
    b == 9 || b == 10 || b == 11 || b == 12 || b == 13 || b == 32
}

pub(crate) fn text_ws(b: u8) -> (r: bool)
    ensures
        r == is_text_ws(b),
{
    b == 9 || b == 10 || b == 11 || b == 12 || b == 13 || b == 32
}

/// The value of decimal digits `d[start..end]`.
pub open spec fn digits_value(d: Seq<u8>, start: int, end: int) -> int
    decreases end - start,
{
    if end <= start {
        0
    } else {
        digits_value(d, start, end - 1) * 10 + (d[end - 1] - 48)
    }
}

/// The unsigned number the text `d[start..end]` spells (an optional `+`,
/// then one or more digits), when it is at most `max`.
pub open spec fn spec_unsigned(d: Seq<u8>, start: int, end: int, max: int) -> Option<int> {
    let s = if start < end && d[start] == 43 {
        start + 1
    } else {
        start
    };
    if s < end && (forall|i: int| s <= i < end ==> 48 <= #[trigger] d[i] <= 57) && digits_value(d, s, end) <= max {
        Some(digits_value(d, s, end))
    } else {
        None
    }
}

/// Over digits, a longer prefix is worth at least as much.
pub(crate) proof fn lemma_digits_grow(d: Seq<u8>, s: int, e1: int, e2: int)
    requires
        s <= e1 <= e2,
        forall|k: int| s <= k < e2 ==> 48 <= #[trigger] d[k] <= 57,
    ensures
        digits_value(d, s, e2) >= digits_value(d, s, e1),
    decreases e2 - e1,
{
    if e2 > e1 {
        lemma_digits_grow(d, s, e1, e2 - 1);
        lemma_digits_nonneg(d, s, e2 - 1);
        assert(digits_value(d, s, e2) == digits_value(d, s, e2 - 1) * 10 + (d[e2 - 1] - 48));
    }
}

pub(crate) proof fn lemma_digits_nonneg(d: Seq<u8>, s: int, e: int)
    requires
        forall|k: int| s <= k < e ==> 48 <= #[trigger] d[k] <= 57,
    ensures
        digits_value(d, s, e) >= 0,
    decreases e - s,
{
    if e > s {
        lemma_digits_nonneg(d, s, e - 1);
    }
}

/// Reads an unsigned number from text, as `str::parse` does.
pub(crate) fn parse_unsigned(d: &[u8], start: usize, end: usize, max: u64) -> (r: Option<u64>)
    requires
        start <= end <= d@.len(),
    ensures
        r == (match spec_unsigned(d@, start as int, end as int, max as int) {
            Some(v) => Some(v as u64),
            None => None::<u64>,
        }),
        r matches Some(v) ==> v <= max,
        r matches Some(v) ==> spec_unsigned(d@, start as int, end as int, max as int) == Some(v as int),
        r is None <==> spec_unsigned(d@, start as int, end as int, max as int) is None,
{
    let s = if start < end && d[start] == 43 {
        start + 1
    } else {
        start
    };
    if s >= end {
        return None;
    }
    let mut v: u64 = 0;
    let mut i = s;
    while i < end
        invariant
            s <= i <= end <= d@.len(),
            start <= s,
            s == (if start < end && d@[start as int] == 43 { start + 1 } else { start as int }),
            forall|k: int| s <= k < i ==> 48 <= #[trigger] d@[k] <= 57,
            v == digits_value(d@, s as int, i as int),
            v <= max,
        decreases end - i,
    {
        let c = d[i];
        if c < 48 || c > 57 {
            proof {
                assert(!(48 <= d@[i as int] <= 57));
            }
            return None;
        }
        let digit = (c - 48) as u64;
        if digit > max || v > (max - digit) / 10 {
            proof {
                assert(digits_value(d@, s as int, i + 1) == v * 10 + digit);
                if digit <= max {
                    assert(v * 10 + digit > max) by (nonlinear_arith)
                        requires
                            v > (max - digit) / 10,
                            digit <= max,
                    ;
                }
                if forall|k: int| s <= k < end ==> 48 <= #[trigger] d@[k] <= 57 {
                    lemma_digits_grow(d@, s as int, i + 1, end as int);
                }
            }
            return None;
        }
        proof {
            assert(v * 10 + digit <= max) by (nonlinear_arith)
                requires
                    v <= (max - digit) / 10,
                    digit <= max,
            ;
        }
        v = v * 10 + digit;
        i = i + 1;
    }
    Some(v)
}

/// The line that starts at `pos`: its bounds without the line break, and
/// where the next line starts.
fn next_line(buf: &[u8], pos: usize) -> (r: Option<(usize, usize, usize)>)
    requires
        pos <= buf@.len(),
    ensures
        r matches Some((a, b, n)) ==> a == pos && a <= b <= n <= buf@.len() && n > pos,
        r is None ==> pos == buf@.len(),
{
    if pos >= buf.len() {
        return None;
    }
    let mut q = pos;
    while q < buf.len() && buf[q] != 10
        invariant
            pos <= q <= buf@.len(),
        decreases buf@.len() - q,
    {
        q = q + 1;
    }
    if q < buf.len() {
        let end = if q > pos && buf[q - 1] == 13 {
            q - 1
        } else {
            q
        };
        Some((pos, end, q + 1))
    } else {
        Some((pos, q, q))
    }
}

/// The bounds of `buf[a..b]` without white space at either end.
fn trim(buf: &[u8], a: usize, b: usize) -> (r: (usize, usize))
    requires
        a <= b <= buf@.len(),
    ensures
        a <= r.0 <= r.1 <= b,
{
    let mut x = a;
    while x < b && text_ws(buf[x])
        invariant
            a <= x <= b,
            b <= buf@.len(),
        decreases b - x,
    {
        x = x + 1;
    }
    let mut y = b;
    while y > x && text_ws(buf[y - 1])
        invariant
            x <= y <= b,
            b <= buf@.len(),
        decreases y - x,
    {
        y = y - 1;
    }
    (x, y)
}

/// Whether `(s, e)` is a field of `buf[a..b]`: a run of bytes that are no
/// white space, as long as it can be.
pub open spec fn is_field(buf: Seq<u8>, a: int, b: int, s: int, e: int) -> bool {
    &&& a <= s < e <= b
    &&& forall|k: int| s <= k < e ==> !is_text_ws(#[trigger] buf[k])
    &&& (s == a || is_text_ws(buf[s - 1]))
    &&& (e == b || is_text_ws(buf[e]))
}

/// The white-space separated fields of `buf[a..b]`.
fn split_fields(buf: &[u8], a: usize, b: usize) -> (r: Vec<(usize, usize)>)
    requires
        a <= b <= buf@.len(),
    ensures
        forall|i: int| 0 <= i < r@.len() ==> a <= (#[trigger] r@[i]).0 < r@[i].1 <= b,
        forall|i: int| 0 <= i < r@.len() ==> is_field(buf@, a as int, b as int, (#[trigger] r@[i]).0 as int, r@[i].1 as int),
        forall|i: int| 0 <= i < r@.len() - 1 ==> (#[trigger] r@[i]).1 < r@[i + 1].0,
        forall|k: int|
            a <= k < b && !is_text_ws(#[trigger] buf@[k]) ==> exists|i: int|
                0 <= i < r@.len() && (#[trigger] r@[i]).0 <= k < r@[i].1,
{
    let mut fields: Vec<(usize, usize)> = Vec::new();
    let mut p = a;
    while p < b
        invariant
            a <= p <= b <= buf@.len(),
            forall|i: int| 0 <= i < fields@.len() ==> a <= (#[trigger] fields@[i]).0 < fields@[i].1 <= b,
            forall|i: int|
                0 <= i < fields@.len() ==> is_field(buf@, a as int, b as int, (#[trigger] fields@[i]).0 as int, fields@[i].1 as int),
            forall|i: int| 0 <= i < fields@.len() - 1 ==> (#[trigger] fields@[i]).1 < fields@[i + 1].0,
            fields@.len() > 0 ==> fields@.last().1 <= p,
            p == a || is_text_ws(buf@[p - 1]) || (fields@.len() > 0 && fields@.last().1 == p),
            forall|k: int|
                a <= k < p && !is_text_ws(#[trigger] buf@[k]) ==> exists|i: int|
                    0 <= i < fields@.len() && (#[trigger] fields@[i]).0 <= k < fields@[i].1,
        decreases b - p,
    {
        if text_ws(buf[p]) {
            p = p + 1;
        } else {
            let start = p;
            while p < b && !text_ws(buf[p])
                invariant
                    start <= p <= b,
                    b <= buf@.len(),
                    forall|k: int| start <= k < p ==> !is_text_ws(#[trigger] buf@[k]),
                decreases b - p,
            {
                p = p + 1;
            }
            let ghost before = fields@;
            proof {
                if before.len() > 0 {
                    assert(before.last().1 < start);
                }
            }
            fields.push((start, p));
            proof {
                assert(fields@[fields@.len() - 1] == (start, p));
                assert forall|k: int|
                    a <= k < p && !is_text_ws(#[trigger] buf@[k]) implies exists|i: int|
                        0 <= i < fields@.len() && (#[trigger] fields@[i]).0 <= k < fields@[i].1 by {
                    if k >= start {
                        assert(fields@[fields@.len() - 1].0 <= k < fields@[fields@.len() - 1].1);
                    } else {
                        let i = choose|i: int| 0 <= i < before.len() && (#[trigger] before[i]).0 <= k < before[i].1;
                        assert(fields@[i] == before[i]);
                    }
                }
                assert forall|i: int| 0 <= i < fields@.len() - 1 implies (#[trigger] fields@[i]).1 < fields@[i + 1].0 by {
                    if i < before.len() - 1 {
                        assert(fields@[i] == before[i] && fields@[i + 1] == before[i + 1]);
                    }
                }
            }
        }
    }
    fields
}

/// Whether `buf[a..b]` starts with `word`.
fn range_starts_with(buf: &[u8], a: usize, b: usize, word: &[u8]) -> (r: bool)
    requires
        a <= b <= buf@.len(),
{
    b - a >= word.len() && bytes_at(buf, a, word)
}

/// Whether `buf[a..b]` is `word`.
fn range_is(buf: &[u8], a: usize, b: usize, word: &[u8]) -> (r: bool)
    requires
        a <= b <= buf@.len(),
{
    b - a == word.len() && bytes_at(buf, a, word)
}

impl ReferenceResolver {
    /// A resolver for `data`: its cross-reference entries are read from
    /// the section `startxref` (in the last kilobyte) points to, or found
    /// by scanning the file for objects.  A file under a kilobyte is
    /// refused.
    pub fn new(data: Vec<u8>, tolerant: bool, limits: PerformanceLimits) -> (r: Result<Self, String>)
        ensures
            data@.len() < 1024 ==> r is Err,
            data@.len() < 1024 ==> (r matches Err(e) && e@ == "Seek error: invalid seek to a negative or overflowing position"@),
            data@.len() >= 1024 && crate::pdf_file::last_occurrence(
                data@.subrange(data@.len() - 1024, data@.len() as int),
                startxref_word(),
            ) is None ==> r is Ok,
            r matches Ok(v) ==> v.data@ == data@ && v.tolerant == tolerant && v.limits == limits
                && v.pending_references@.len() == 0 && v.resolved_objects@.len() == 0,
    {
        let xref_table = Self::build_xref_table(data.as_slice(), &limits)?;
        Ok(
            ReferenceResolver {
                data,
                xref_table,
                object_to_node: ObjectNodeMap::new(),
                resolved_objects: Vec::new(),
                pending_references: Vec::new(),
                tolerant,
                limits,
            },
        )
    }

    /// A resolver that takes the document's cross-reference entries: the
    /// offsets of objects in use and the places of compressed objects.
    pub fn from_document(data: Vec<u8>, document: &PdfDocument, tolerant: bool, limits: PerformanceLimits) -> (r: Self)
        ensures
            r.data@ == data@,
            r.tolerant == tolerant,
            r.limits == limits,
            r.pending_references@.len() == 0,
            r.resolved_objects@.len() == 0,
            forall|id: ObjectId|
                #[trigger] r.xref_table.spec_get(id) == match document.xref.entries.spec_get(id) {
                    Some(XRefEntry::Free { .. }) => None,
                    other => other,
                },
    {
        let mut table = XRefMap::new();
        let entries = document.xref.entries.entries();
        let ghost src = document.xref.entries.entries_spec();
        let mut i: usize = 0;
        while i < entries.len()
            invariant
                i <= entries@.len(),
                entries@ == src,
                crate::types::keys_unique(src),
                forall|id: ObjectId|
                    #[trigger] table.spec_get(id) == match crate::types::spec_dict_get(src.take(i as int), id) {
                        Some(XRefEntry::Free { .. }) => None,
                        other => other,
                    },
            decreases entries@.len() - i,
        {
            let (id, entry) = entries[i];
            proof {
                assert(src.take(i + 1).drop_last() =~= src.take(i as int));
                assert(src[i as int] == (id, entry));
            }
            match entry {
                XRefEntry::Free { .. } => {},
                _ => {
                    table.insert(id, entry);
                },
            }
            proof {
                assert forall|k: ObjectId| #[trigger] table.spec_get(k) == match crate::types::spec_dict_get(
                    src.take(i + 1),
                    k,
                ) {
                    Some(XRefEntry::Free { .. }) => None,
                    other => other,
                } by {
                    lemma_get_take_unique(src, i as int, k);
                }
            }
            i = i + 1;
        }
        proof {
            assert(src.take(entries@.len() as int) =~= src);
        }
        ReferenceResolver {
            data,
            xref_table: table,
            object_to_node: ObjectNodeMap::new(),
            resolved_objects: Vec::new(),
            pending_references: Vec::new(),
            tolerant,
            limits,
        }
    }

    /// The offsets of the objects: from the section `startxref` points to,
    /// else from a scan of the file.
    pub fn build_xref_table(data: &[u8], limits: &PerformanceLimits) -> (r: Result<XRefMap, String>)
        ensures
            data@.len() < 1024 ==> r is Err,
            data@.len() < 1024 ==> (r matches Err(e) && e@ == "Seek error: invalid seek to a negative or overflowing position"@),
            data@.len() >= 1024 && crate::pdf_file::last_occurrence(
                data@.subrange(data@.len() - 1024, data@.len() as int),
                startxref_word(),
            ) is None ==> r is Ok,
    {
        if data.len() < 1024 {
            return Err(msg("Seek error: invalid seek to a negative or overflowing position"));
        }
        let tail = vstd::slice::slice_subrange(data, data.len() - 1024, data.len());
        let kw: [u8; 9] = [115, 116, 97, 114, 116, 120, 114, 101, 102];
        proof {
            assert(kw@ =~= startxref_word());
        }
        match crate::pdf_file::rfind_pattern(tail, kw.as_slice()) {
            Some(p) => {
                match next_line(tail, p) {
                    Some((_, _, n)) => {
                        match next_line(tail, n) {
                            Some((a, b, _)) => {
                                let (x, y) = trim(tail, a, b);
                                match parse_unsigned(tail, x, y, u64::MAX) {
                                    Some(offset) => return Self::parse_xref_table(data, offset, limits),
                                    None => {},
                                }
                            },
                            None => {},
                        }
                    },
                    None => {},
                }
            },
            None => {},
        }
        Ok(Self::scan_for_objects(data))
    }

    /// The entries at `offset`: a cross-reference stream's objects in use,
    /// or the rows marked `n` of a classic table, read line by line.
    pub fn parse_xref_table(data: &[u8], offset: u64, limits: &PerformanceLimits) -> (r: Result<XRefMap, String>) {
        let buffer = if offset < data.len() as u64 {
            vstd::slice::slice_subrange(data, offset as usize, data.len())
        } else {
            vstd::slice::slice_subrange(data, data.len(), data.len())
        };
        let mut looks_like_object = buffer.len() >= 2 && buffer[0] == 60 && buffer[1] == 60;
        let mut k: usize = 0;
        while k < buffer.len() && k < 20
            invariant
                k <= buffer@.len(),
            decreases buffer@.len() - k,
        {
            if buffer[k] >= 48 && buffer[k] <= 57 {
                looks_like_object = true;
            }
            k = k + 1;
        }
        if looks_like_object {
            match parse_indirect_object(buffer, 0, limits.max_depth, &limits.budget, None) {
                Ok(((_, PdfValue::Stream(stream)), _)) => {
                    let entries = crate::xref::parse_xref_stream(&stream, limits)?;
                    let mut table = XRefMap::new();
                    let mut i: usize = 0;
                    while i < entries.len()
                        invariant
                            i <= entries@.len(),
                        decreases entries@.len() - i,
                    {
                        let (id, entry) = entries[i];
                        match entry {
                            XRefEntry::InUse { .. } => {
                                table.insert(id, entry);
                            },
                            _ => {},
                        }
                        i = i + 1;
                    }
                    return Ok(table);
                },
                _ => {},
            }
        }
        let mut table = XRefMap::new();
        let xref_kw: [u8; 4] = [120, 114, 101, 102];
        if !(buffer.len() >= 4 && bytes_at(buffer, 0, xref_kw.as_slice())) {
            return Ok(table);
        }
        let trailer_kw: [u8; 7] = [116, 114, 97, 105, 108, 101, 114];
        let n_kw: [u8; 1] = [110];
        let mut pos = match next_line(buffer, 0) {
            Some((_, _, n)) => n,
            None => return Ok(table),
        };
        loop
            invariant
                pos <= buffer@.len(),
            decreases buffer@.len() - pos,
        {
            let (a, b, n) = match next_line(buffer, pos) {
                Some(l) => l,
                None => break,
            };
            pos = n;
            let (x, y) = trim(buffer, a, b);
            if x == y || range_starts_with(buffer, x, y, trailer_kw.as_slice()) {
                break;
            }
            let parts = split_fields(buffer, x, y);
            if parts.len() != 2 {
                continue;
            }
            let start = match parse_unsigned(buffer, parts[0].0, parts[0].1, 0xffff_ffff) {
                Some(v) => v,
                None => continue,
            };
            let count = match parse_unsigned(buffer, parts[1].0, parts[1].1, 0xffff_ffff) {
                Some(v) => v,
                None => continue,
            };
            let mut i: u64 = 0;
            while i < count
                invariant
                    n <= pos <= buffer@.len(),
                    i <= count,
                    start <= 0xffff_ffff,
                    count <= 0xffff_ffff,
                decreases count - i,
            {
                match next_line(buffer, pos) {
                    Some((ea, eb, en)) => {
                        pos = en;
                        let fields = split_fields(buffer, ea, eb);
                        if fields.len() >= 3 && range_is(buffer, fields[2].0, fields[2].1, n_kw.as_slice()) {
                            let off = parse_unsigned(buffer, fields[0].0, fields[0].1, u64::MAX);
                            let generation = parse_unsigned(buffer, fields[1].0, fields[1].1, 0xffff);
                            match (off, generation) {
                                (Some(o), Some(g)) => {
                                    if start + i <= 0xffff_ffff {
                                        let id = ObjectId::new((start + i) as u32, g as u16);
                                        table.insert(id, XRefEntry::InUse { offset: o, generation: g as u16 });
                                    }
                                },
                                _ => {},
                            }
                        }
                    },
                    None => {},
                }
                i = i + 1;
            }
        }
        Ok(table)
    }

    /// Objects found by scanning the whole file for headers, at the
    /// offsets where their headers start.
    pub fn scan_for_objects(data: &[u8]) -> (r: XRefMap)
        ensures
            forall|id: ObjectId|
                #[trigger] r.spec_get(id) matches Some(e) ==> (e matches XRefEntry::InUse { offset, .. } && offset
                    < data@.len()),
            forall|id: ObjectId|
                #[trigger] r.spec_get(id) matches Some(XRefEntry::InUse { offset, generation }) ==> (generation
                    == id.generation && (spec_header_at_start(data@.subrange(offset as int, data@.len() as int)) matches Some((_, h))
                    && h == id)),
            (forall|j: int|
                0 <= j < data@.len() ==> #[trigger] spec_header_at_start(data@.subrange(j, data@.len() as int)) is None)
                ==> forall|id: ObjectId| #[trigger] r.spec_get(id) is None,
    {
        let mut table = XRefMap::new();
        let mut pos: usize = 0;
        while pos < data.len()
            invariant
                pos <= data@.len(),
                forall|id: ObjectId|
                    #[trigger] table.spec_get(id) matches Some(e) ==> (e matches XRefEntry::InUse { offset, .. }
                        && offset < data@.len()),
                forall|id: ObjectId|
                    #[trigger] table.spec_get(id) matches Some(XRefEntry::InUse { offset, generation }) ==> (generation
                        == id.generation && (spec_header_at_start(data@.subrange(offset as int, data@.len() as int)) matches Some((_, h))
                        && h == id)),
                (forall|j: int|
                    0 <= j < data@.len() ==> #[trigger] spec_header_at_start(data@.subrange(j, data@.len() as int)) is None)
                    ==> forall|id: ObjectId| #[trigger] table.spec_get(id) is None,
            decreases data@.len() - pos,
        {
            let rest = vstd::slice::slice_subrange(data, pos, data.len());
            let found = match crate::object_parser::find_next_object(rest) {
                Some(p) => p,
                None => break,
            };
            let absolute = pos + found;
            match Self::parse_object_header(vstd::slice::slice_subrange(data, absolute, data.len())) {
                Ok((_, id)) => {
                    table.insert(id, XRefEntry::InUse { offset: absolute as u64, generation: id.generation });
                },
                Err(_) => {},
            }
            pos = absolute + 1;
        }
        table
    }

    /// Where the next object header starts.
    pub fn find_next_object(data: &[u8]) -> (r: Option<usize>)
        ensures
            r matches Some(i) ==> i + 10 < data@.len() && crate::object_parser::object_pattern_at(data@, i as int)
                && forall|j: int| 0 <= j < i ==> !crate::object_parser::object_pattern_at(data@, j),
            r is None ==> forall|j: int|
                0 <= j && j + 10 < data@.len() ==> !crate::object_parser::object_pattern_at(data@, j),
    {
        crate::object_parser::find_next_object(data)
    }

    /// An object header `n g obj` at the start of `data`: digits, spaces
    /// or tabs, digits, spaces or tabs, and `obj`; a number too large for
    /// its place reads as 0.  Gives how far the header reaches.
    pub fn parse_object_header(data: &[u8]) -> (r: Result<(usize, ObjectId), String>)
        ensures
            r matches Ok((end, _)) ==> end <= data@.len(),
            r is Err <==> spec_header_at_start(data@) is None,
            r matches Ok((end, id)) ==> spec_header_at_start(data@) == Some((end as int, id)),
    {
        let n1 = digit_run(data, 0);
        if n1 == 0 {
            return Err(msg("Expected object number"));
        }
        let s1 = blank_run(data, n1);
        if s1 == n1 {
            return Err(msg("Expected space"));
        }
        let n2 = digit_run(data, s1);
        if n2 == s1 {
            return Err(msg("Expected generation number"));
        }
        let s2 = blank_run(data, n2);
        if s2 == n2 {
            return Err(msg("Expected space"));
        }
        let obj: [u8; 3] = [111, 98, 106];
        if !(data.len() - s2 >= 3 && bytes_at(data, s2, obj.as_slice())) {
            return Err(msg("Expected obj"));
        }
        let number = match parse_unsigned(data, 0, n1, 0xffff_ffff) {
            Some(v) => v as u32,
            None => 0,
        };
        let generation = match parse_unsigned(data, s1, n2, 0xffff) {
            Some(v) => v as u16,
            None => 0,
        };
        Ok((s2 + 3, ObjectId::new(number, generation)))
    }
}

/// An object header at the start of `d`: digits, spaces or tabs, digits,
/// spaces or tabs, and `obj`; a number too large for its place reads as 0.
/// Where it ends, and the object id.
pub open spec fn spec_header_at_start(d: Seq<u8>) -> Option<(int, ObjectId)> {
    let n1 = crate::object_parser::digits_end(d, 0);
    let s1 = crate::xref::blank_end(d, n1);
    let n2 = crate::object_parser::digits_end(d, s1);
    let s2 = crate::xref::blank_end(d, n2);
    if n1 == 0 || s1 == n1 || n2 == s1 || s2 == n2 || !crate::object_parser::occurs_at(
        d,
        seq![111u8, 98u8, 106u8],
        s2,
    ) {
        None
    } else {
        let number = match spec_unsigned(d, 0, n1, 0xffff_ffff) {
            Some(v) => v as u32,
            None => 0,
        };
        let generation = match spec_unsigned(d, s1, n2, 0xffff) {
            Some(v) => v as u16,
            None => 0,
        };
        Some((s2 + 3, ObjectId { number, generation }))
    }
}

/// How far the digits from `p` reach.
fn digit_run(data: &[u8], p: usize) -> (r: usize)
    requires
        p <= data@.len(),
    ensures
        p <= r <= data@.len(),
        forall|i: int| p <= i < r ==> 48 <= #[trigger] data@[i] <= 57,
        r == data@.len() || !(48 <= data@[r as int] <= 57),
        r == crate::object_parser::digits_end(data@, p as int),
{
    let mut q = p;
    while q < data.len() && data[q] >= 48 && data[q] <= 57
        invariant
            p <= q <= data@.len(),
            forall|i: int| p <= i < q ==> 48 <= #[trigger] data@[i] <= 57,
            crate::object_parser::digits_end(data@, q as int) == crate::object_parser::digits_end(data@, p as int),
        decreases data@.len() - q,
    {
        q = q + 1;
    }
    q
}

/// How far the spaces and tabs from `p` reach.
fn blank_run(data: &[u8], p: usize) -> (r: usize)
    requires
        p <= data@.len(),
    ensures
        p <= r <= data@.len(),
        forall|i: int| p <= i < r ==> (#[trigger] data@[i] == 32 || data@[i] == 9),
        r == data@.len() || !(data@[r as int] == 32 || data@[r as int] == 9),
        r == crate::xref::blank_end(data@, p as int),
{
    let mut q = p;
    while q < data.len() && (data[q] == 32 || data[q] == 9)
        invariant
            p <= q <= data@.len(),
            forall|i: int| p <= i < q ==> (#[trigger] data@[i] == 32 || data@[i] == 9),
            crate::xref::blank_end(data@, q as int) == crate::xref::blank_end(data@, p as int),
        decreases data@.len() - q,
    {
        q = q + 1;
    }
    q
}

/// With unique keys, looking up in one more entry adds that entry.
proof fn lemma_get_take_unique(src: Seq<(ObjectId, XRefEntry)>, i: int, k: ObjectId)
    requires
        0 <= i < src.len(),
        crate::types::keys_unique(src),
    ensures
        crate::types::spec_dict_get(src.take(i + 1), k) == if k == src[i].0 {
            Some(src[i].1)
        } else {
            crate::types::spec_dict_get(src.take(i), k)
        },
        k == src[i].0 ==> crate::types::spec_dict_get(src.take(i), k) is None,
{
    let t = src.take(i + 1);
    if k == src[i].0 {
        assert forall|j: int| 0 <= j < i implies t[j].0 != k by {
            assert(src[j].0 != src[i].0);
        }
        crate::types::lemma_dict_get_first(t, k, i);
        crate::types::lemma_dict_absent(src.take(i), k, src[i].1);
    } else {
        lemma_get_prefix_other(t, k);
        assert(t.drop_last() =~= src.take(i));
    }
}

/// An entry at the end for another key leaves lookups alone.
proof fn lemma_get_prefix_other(t: Seq<(ObjectId, XRefEntry)>, k: ObjectId)
    requires
        t.len() > 0,
        t.last().0 != k,
    ensures
        crate::types::spec_dict_get(t, k) == crate::types::spec_dict_get(t.drop_last(), k),
    decreases t.len(),
{
    reveal_with_fuel(crate::types::spec_dict_get, 2);
    if t.len() > 1 {
        assert(t.drop_last()[0] == t[0]);
        if t[0].0 != k {
            lemma_get_prefix_other(t.drop_first(), k);
            assert(t.drop_first().drop_last() =~= t.drop_last().drop_first());
        }
    } else {
        assert(t.drop_last().len() == 0);
        assert(t.drop_first().len() == 0);
        assert(t[0].0 != k);
    }
}

/// Where a compressed object was found.
pub struct CompressedObjectMeta {
    pub file_offset: Option<u64>,
    pub container_offset: Option<u64>,
    pub object_offset: Option<u64>,
    pub object_length: Option<usize>,
}

/// A resolved object's `/Type` decides its node type: `Catalog`, `Pages`,
/// `Page`, `Font`, `XObject` (an `Image` by its `/Subtype`), `Annot` and
/// `Metadata` give their own types, any other dictionary a plain object
/// with its id, and a stream a content stream.
pub proof fn lemma_object_node_type_table(e: Seq<(Seq<char>, SpecValue)>, id: ObjectId)
    ensures
        crate::pdf_file::spec_name_entry(e, "Type"@) == Some("Catalog"@) ==> spec_object_node_type(
            SpecValue::Dictionary(e),
            id,
        ) == NodeType::Catalog,
        crate::pdf_file::spec_name_entry(e, "Type"@) == Some("Pages"@) ==> spec_object_node_type(
            SpecValue::Dictionary(e),
            id,
        ) == NodeType::Pages,
        crate::pdf_file::spec_name_entry(e, "Type"@) == Some("Page"@) ==> spec_object_node_type(
            SpecValue::Dictionary(e),
            id,
        ) == NodeType::Page,
        crate::pdf_file::spec_name_entry(e, "Type"@) == Some("Font"@) ==> spec_object_node_type(
            SpecValue::Dictionary(e),
            id,
        ) == NodeType::Font,
        crate::pdf_file::spec_name_entry(e, "Type"@) == Some("XObject"@) ==> spec_object_node_type(
            SpecValue::Dictionary(e),
            id,
        ) == if crate::pdf_file::spec_name_entry(e, "Subtype"@) == Some("Image"@) {
            NodeType::Image
        } else {
            NodeType::XObject
        },
        crate::pdf_file::spec_name_entry(e, "Type"@) == Some("Annot"@) ==> spec_object_node_type(
            SpecValue::Dictionary(e),
            id,
        ) == NodeType::Annotation,
        crate::pdf_file::spec_name_entry(e, "Type"@) == Some("Metadata"@) ==> spec_object_node_type(
            SpecValue::Dictionary(e),
            id,
        ) == NodeType::Metadata,
        crate::pdf_file::spec_name_entry(e, "Type"@) is None ==> spec_object_node_type(SpecValue::Dictionary(e), id)
            == NodeType::Object(id),
        (crate::pdf_file::spec_name_entry(e, "Type"@) matches Some(t) && t != "Catalog"@ && t != "Pages"@ && t
            != "Page"@ && t != "Font"@ && t != "XObject"@ && t != "Annot"@ && t != "Metadata"@) ==> spec_object_node_type(
            SpecValue::Dictionary(e),
            id,
        ) == NodeType::Object(id),
        forall|d: Seq<(Seq<char>, SpecValue)>, b: Seq<u8>, dec: bool|
            #[trigger] spec_object_node_type(SpecValue::Stream(d, b, dec), id) == NodeType::ContentStream,
{
    reveal_strlit("Catalog");
    reveal_strlit("Pages");
    reveal_strlit("Page");
    reveal_strlit("Font");
    reveal_strlit("XObject");
    reveal_strlit("Annot");
    reveal_strlit("Metadata");
    reveal_strlit("Image");
    assert("Catalog"@.len() == 7 && "Pages"@.len() == 5 && "Page"@.len() == 4 && "Font"@.len() == 4
        && "XObject"@.len() == 7 && "Annot"@.len() == 5 && "Metadata"@.len() == 8);
    assert("Catalog"@[0] == 'C' && "Pages"@[0] == 'P' && "Page"@[0] == 'P' && "Font"@[0] == 'F' && "XObject"@[0]
        == 'X' && "Annot"@[0] == 'A');
}

/// The node type an object's value gives it.
pub open spec fn spec_object_node_type(v: SpecValue, id: ObjectId) -> NodeType {
    match v {
        SpecValue::Dictionary(e) => {
            let t = crate::pdf_file::spec_name_entry(e, "Type"@);
            if t == Some("Catalog"@) {
                NodeType::Catalog
            } else if t == Some("Pages"@) {
                NodeType::Pages
            } else if t == Some("Page"@) {
                NodeType::Page
            } else if t == Some("Font"@) {
                NodeType::Font
            } else if t == Some("XObject"@) {
                if crate::pdf_file::spec_name_entry(e, "Subtype"@) == Some("Image"@) {
                    NodeType::Image
                } else {
                    NodeType::XObject
                }
            } else if t == Some("Annot"@) {
                NodeType::Annotation
            } else if t == Some("Metadata"@) {
                NodeType::Metadata
            } else {
                NodeType::Object(id)
            }
        },
        SpecValue::Stream(_, _, _) => NodeType::ContentStream,
        _ => NodeType::Object(id),
    }
}

/// The keyword `startxref`.
pub open spec fn startxref_word() -> Seq<u8> {
    seq![115u8, 116u8, 97u8, 114u8, 116u8, 120u8, 114u8, 101u8, 102u8]
}

/// The keyword `endobj`.
pub open spec fn endobj_word() -> Seq<u8> {
    seq![101u8, 110u8, 100u8, 111u8, 98u8, 106u8]
}

/// Whether `endobj` lies whole inside `d[lo..hi]`.
pub open spec fn endobj_in(d: Seq<u8>, lo: int, hi: int) -> bool {
    exists|j: int| lo <= j && j + 6 <= hi && #[trigger] crate::object_parser::occurs_at(d, endobj_word(), j)
}

/// Where the chunk that ends at `t` starts, chunks being 64 KiB.
pub open spec fn chunk_start(t: int) -> int {
    ((t - 1) / 65536) * 65536
}

/// What a read of at most `max` bytes from `start` in 64 KiB chunks gives:
/// `total` bytes, and whether `endobj` was among them. Without it, all
/// that the limit and the data allow; with it, the first chunk that
/// completes it.
pub open spec fn read_outcome(d: Seq<u8>, start: int, max: int, total: int, found: bool) -> bool {
    let cap = if max < d.len() - start { max } else { d.len() - start };
    if !found {
        total == cap && !endobj_in(d, start, start + total)
    } else {
        &&& 0 < total <= cap
        &&& (total % 65536 == 0 || total == cap)
        &&& endobj_in(d, start, start + total)
        &&& !endobj_in(d, start, start + chunk_start(total))
    }
}

/// How far a read of object bytes from `start` goes: 64 KiB chunks until
/// `endobj` has been read, the size limit is reached or the data ends.
fn read_until_endobj(data: &[u8], start: usize, max_bytes: usize) -> (r: (usize, bool))
    requires
        start <= data@.len(),
    ensures
        r.0 <= max_bytes,
        start + r.0 <= data@.len(),
        read_outcome(data@, start as int, max_bytes as int, r.0 as int, r.1),
{
    let endobj: [u8; 6] = [101, 110, 100, 111, 98, 106];
    proof {
        assert(endobj@ =~= seq![101u8, 110u8, 100u8, 111u8, 98u8, 106u8]);
    }
    let ghost cap: int = if max_bytes < data@.len() - start { max_bytes as int } else { data@.len() - start };
    let mut total: usize = 0;
    while total < max_bytes
        invariant
            start <= data@.len(),
            total <= max_bytes,
            start + total <= data@.len(),
            endobj@ == seq![101u8, 110u8, 100u8, 111u8, 98u8, 106u8],
            cap == (if max_bytes < data@.len() - start { max_bytes as int } else { data@.len() - start }),
            total <= cap,
            total % 65536 == 0 || total == cap,
            !endobj_in(data@, start as int, start + total),
        decreases max_bytes - total,
    {
        let to_read = if max_bytes - total < 65536 {
            max_bytes - total
        } else {
            65536
        };
        let avail = data.len() - (start + total);
        let bytes = if to_read < avail {
            to_read
        } else {
            avail
        };
        if bytes == 0 {
            return (total, false);
        }
        let from = if total > 5 {
            total - 5
        } else {
            0
        };
        let ghost prev = total as int;
        total = total + bytes;
        let window = vstd::slice::slice_subrange(data, start + from, start + total);
        proof {
            assert(prev % 65536 == 0);
            assert(chunk_start(total as int) == prev) by (nonlinear_arith)
                requires
                    prev % 65536 == 0,
                    prev >= 0,
                    0 < bytes <= 65536,
                    total == prev + bytes,
            ;
            assert(total % 65536 == 0 || total == cap) by (nonlinear_arith)
                requires
                    prev % 65536 == 0,
                    bytes == 65536 || total == cap,
                    total == prev + bytes,
            ;
        }
        match find_bytes(window, 0, endobj.as_slice()) {
            Some(i) => {
                proof {
                    let j = start + from + i;
                    assert(data@.subrange(j, j + 6) =~= window@.subrange(i as int, i + 6));
                    assert(crate::object_parser::occurs_at(data@, endobj_word(), j));
                    assert(endobj_in(data@, start as int, start + total));
                }
                return (total, true);
            },
            None => {
                proof {
                    assert forall|j: int|
                        start <= j && j + 6 <= start + total implies !#[trigger] crate::object_parser::occurs_at(
                        data@,
                        endobj_word(),
                        j,
                    ) by {
                        if j + 6 > start + prev {
                            let i = j - (start + from);
                            assert(window@.subrange(i, i + 6) =~= data@.subrange(j, j + 6));
                            assert(!crate::object_parser::occurs_at(window@, endobj@, i));
                        } else {
                            assert(!endobj_in(data@, start as int, start + prev));
                        }
                    }
                }
            },
        }
    }
    (total, false)
}

impl ReferenceResolver {
    /// Queues the references in `value`, found from `node_id`.
    pub fn collect_references_from_node(&mut self, node_id: NodeId, value: &PdfValue)
        ensures
            final(self).pending_references@ == old(self).pending_references@ + crate::types::refs_seq(
                crate::types::value_refs(value.sv()),
            ).map_values(|r: PdfReference| (node_id, r)),
            final(self).data == old(self).data,
            final(self).xref_table == old(self).xref_table,
            final(self).limits == old(self).limits,
            final(self).tolerant == old(self).tolerant,
    {
        let mut refs: Vec<PdfReference> = Vec::new();
        value.collect_references(&mut refs);
        let ghost start = self.pending_references@;
        let mut i: usize = 0;
        while i < refs.len()
            invariant
                i <= refs@.len(),
                self.pending_references@ == start + refs@.take(i as int).map_values(|r: PdfReference| (node_id, r)),
                self.data == old(self).data,
                self.xref_table == old(self).xref_table,
                self.limits == old(self).limits,
                self.tolerant == old(self).tolerant,
            decreases refs@.len() - i,
        {
            self.pending_references.push((node_id, refs[i]));
            proof {
                assert(refs@.take(i + 1).map_values(|r: PdfReference| (node_id, r)) =~= refs@.take(i as int).map_values(
                    |r: PdfReference| (node_id, r),
                ).push((node_id, refs@[i as int])));
            }
            i = i + 1;
        }
        proof {
            assert(refs@.take(refs@.len() as int) =~= refs@);
            assert(refs@ =~= crate::types::refs_seq(crate::types::value_refs(value.sv())));
        }
    }

    /// A node for a value, while the node budget allows.
    pub fn create_node(&self, ast: &mut PdfAstGraph, node_type: NodeType, value: PdfValue) -> (r: Result<NodeId, String>)
        ensures
            crate::ast::nodes_remain(*old(ast), *final(ast)),
            forall|id: NodeId| #[trigger] old(ast).has_node(id) ==> final(ast).node(id) == old(ast).node(id),
            r matches Ok(id) ==> !old(ast).has_node(id) && (final(ast).node(id) matches Some(n) && n.node_type
                == node_type && n.value == value && n.metadata.props() == Seq::<(Seq<char>, Seq<char>)>::empty()
                && n.metadata.warnings_spec() == Seq::<String>::empty()),
            r matches Ok(id) ==> id.0 == old(ast).next_id_spec() && final(ast).next_id_spec() == old(ast).next_id_spec()
                + 1,
            final(ast).edges_spec() == old(ast).edges_spec(),
            r is Err ==> *final(ast) == *old(ast),
    {
        match self.limits.budget.consume_node() {
            Ok(()) => {},
            Err(e) => return Err(e.to_string()),
        }
        if ast.next_node_id().0 == usize::MAX {
            return Err(msg("Node ids exhausted"));
        }
        let id = ast.create_node(node_type, value);
        Ok(id)
    }

    /// An edge between two nodes, while the edge budget allows; refused
    /// when an end is missing.
    pub fn add_edge(&self, ast: &mut PdfAstGraph, from: NodeId, to: NodeId, edge_type: EdgeType) -> (r: Result<
        (),
        String,
    >)
        ensures
            final(ast).nodes_spec() == old(ast).nodes_spec(),
            final(ast).next_id_spec() == old(ast).next_id_spec(),
            r is Ok ==> final(ast).edges_spec() == old(ast).edges_spec().push(
                crate::ast::AstEdge { from, to, edge_type },
            ),
            r is Err ==> final(ast).edges_spec() == old(ast).edges_spec(),
    {
        match self.limits.budget.consume_edge() {
            Ok(()) => {},
            Err(e) => return Err(e.to_string()),
        }
        if ast.add_edge(from, to, edge_type) {
            Ok(())
        } else {
            Err(msg("Cannot add AST edge: node endpoint is missing"))
        }
    }

    /// The node type of an object's value: its `/Type` (an image when an
    /// `XObject` has `/Subtype /Image`), a content stream for other
    /// streams, else a plain object.
    pub fn determine_node_type(&self, value: &PdfValue, obj_id: ObjectId) -> (r: NodeType)
        ensures
            r == spec_object_node_type(value.sv(), obj_id),
    {
        proof {
            lemma_value_view(value);
        }
        match value {
            PdfValue::Dictionary(dict) => {
                let t = crate::pdf_file::name_entry(dict, "Type");
                proof {
                    reveal_strlit("Catalog");
                    reveal_strlit("Pages");
                    reveal_strlit("Page");
                    reveal_strlit("Font");
                    reveal_strlit("XObject");
                    reveal_strlit("Annot");
                    reveal_strlit("Metadata");
                    reveal_strlit("Image");
                }
                if crate::pdf_file::name_is(t, "Catalog") {
                    NodeType::Catalog
                } else if crate::pdf_file::name_is(t, "Pages") {
                    NodeType::Pages
                } else if crate::pdf_file::name_is(t, "Page") {
                    NodeType::Page
                } else if crate::pdf_file::name_is(t, "Font") {
                    NodeType::Font
                } else if crate::pdf_file::name_is(t, "XObject") {
                    let st = crate::pdf_file::name_entry(dict, "Subtype");
                    if crate::pdf_file::name_is(st, "Image") {
                        NodeType::Image
                    } else {
                        NodeType::XObject
                    }
                } else if crate::pdf_file::name_is(t, "Annot") {
                    NodeType::Annotation
                } else if crate::pdf_file::name_is(t, "Metadata") {
                    NodeType::Metadata
                } else {
                    NodeType::Object(obj_id)
                }
            },
            PdfValue::Stream(_) => NodeType::ContentStream,
            _ => NodeType::Object(obj_id),
        }
    }
}

/// Sets a property of node `id`; every other node stays as it is.
fn set_prop(ast: &mut PdfAstGraph, id: NodeId, key: &str, value: &str)
    ensures
        forall|other: NodeId| other != id ==> #[trigger] final(ast).node(other) == old(ast).node(other),
        forall|x: NodeId| #[trigger] final(ast).has_node(x) == old(ast).has_node(x),
        old(ast).has_node(id) ==> (final(ast).node(id) matches Some(n) && old(ast).node(id) matches Some(o)
            && n.node_type == o.node_type && n.value == o.value && n.metadata.props()
            == crate::types::spec_dict_insert(o.metadata.props(), key@, value@) && n.metadata.warnings_spec()
            == o.metadata.warnings_spec()),
        !old(ast).has_node(id) ==> final(ast).nodes_spec() == old(ast).nodes_spec(),
        final(ast).next_id_spec() == old(ast).next_id_spec(),
        final(ast).edges_spec() == old(ast).edges_spec(),
{
    let ghost before = *ast;
    ast.set_node_property(id, String::from_str(key), String::from_str(value));
    proof {
        assert forall|x: NodeId| #[trigger] ast.has_node(x) == before.has_node(x) by {
            if x != id {
                assert(ast.node(x) == before.node(x));
            }
        }
    }
}

/// Adds a warning to node `id`; every other node stays as it is.
fn add_warning(ast: &mut PdfAstGraph, id: NodeId, text: &str)
    ensures
        forall|other: NodeId| other != id ==> #[trigger] final(ast).node(other) == old(ast).node(other),
        forall|x: NodeId| #[trigger] final(ast).has_node(x) == old(ast).has_node(x),
        old(ast).has_node(id) ==> (final(ast).node(id) matches Some(n) && old(ast).node(id) matches Some(o)
            && n.node_type == o.node_type && n.value == o.value && n.metadata.props() == o.metadata.props()
            && n.metadata.warnings_spec().len() == o.metadata.warnings_spec().len() + 1
            && n.metadata.warnings_spec().drop_last() == o.metadata.warnings_spec()
            && n.metadata.warnings_spec().last()@ == text@),
        !old(ast).has_node(id) ==> final(ast).nodes_spec() == old(ast).nodes_spec(),
        final(ast).next_id_spec() == old(ast).next_id_spec(),
        final(ast).edges_spec() == old(ast).edges_spec(),
{
    let ghost before = *ast;
    ast.add_node_warning(id, String::from_str(text));
    proof {
        assert forall|x: NodeId| #[trigger] ast.has_node(x) == before.has_node(x) by {
            if x != id {
                assert(ast.node(x) == before.node(x));
            }
        }
    }
}

/// The names among `a`, without their `/`, in order.
pub open spec fn names_of(a: Seq<SpecValue>) -> Seq<Seq<char>>
    decreases a.len(),
{
    if a.len() == 0 {
        Seq::empty()
    } else {
        match a.last() {
            SpecValue::Name(n) => names_of(a.drop_last()).push(n.subrange(1, n.len() as int)),
            _ => names_of(a.drop_last()),
        }
    }
}

/// The text that names a stream's filters: the name of `/Filter`, or the
/// names of its array joined by commas; empty otherwise.
pub open spec fn spec_filter_names(v: Option<SpecValue>) -> Seq<char> {
    match v {
        Some(SpecValue::Name(n)) => n.subrange(1, n.len() as int),
        Some(SpecValue::Array(a)) => crate::text::join_seq(names_of(a), ","@),
        _ => Seq::empty(),
    }
}

/// The names of a stream's filters, without their `/`, joined by commas.
pub fn filter_names(dict: &PdfDictionary) -> (r: String)
    ensures
        r@ == spec_filter_names(dict.spec_get("Filter"@)),
{
    let mut out = String::new();
    proof {
        reveal_strlit(",");
    }
    match dict.get("Filter") {
        Some(v) => {
            proof {
                lemma_value_view(v);
            }
            match v {
                PdfValue::Name(n) => {
                    out.append(n.without_slash());
                    proof {
                        assert(out@ =~= n@.subrange(1, n@.len() as int));
                    }
                },
                PdfValue::Array(items) => {
                    proof {
                        lemma_array_view(items);
                    }
                    let ghost a = crate::types::array_sv(items);
                    let mut first = true;
                    let mut i: usize = 0;
                    while i < items.len()
                        invariant
                            i <= items@.len(),
                            a == crate::types::array_sv(items),
                            a.len() == items@.len(),
                            forall|k: int| 0 <= k < items@.len() ==> #[trigger] a[k] == items@[k].sv(),
                            out@ == crate::text::join_seq(names_of(a.take(i as int)), ","@),
                            first == (names_of(a.take(i as int)).len() == 0),
                        decreases items@.len() - i,
                    {
                        proof {
                            assert(a.take(i + 1).drop_last() =~= a.take(i as int));
                            assert(a.take(i + 1).last() == a[i as int]);
                            lemma_value_view(&items[i as int]);
                        }
                        match &items[i] {
                            PdfValue::Name(n) => {
                                let ghost before = out@;
                                if !first {
                                    out.append(",");
                                }
                                out.append(n.without_slash());
                                proof {
                                    let ns = names_of(a.take(i + 1));
                                    assert(ns == names_of(a.take(i as int)).push(n@.subrange(1, n@.len() as int)));
                                    assert(ns.drop_last() =~= names_of(a.take(i as int)));
                                    if first {
                                        assert(out@ =~= n@.subrange(1, n@.len() as int));
                                    } else {
                                        assert(out@ =~= before + ","@ + n@.subrange(1, n@.len() as int));
                                    }
                                }
                                first = false;
                            },
                            _ => {},
                        }
                        i = i + 1;
                    }
                    proof {
                        assert(a.take(i as int) =~= a);
                    }
                },
                _ => {},
            }
        },
        None => {},
    }
    out
}

impl ReferenceResolver {
    /// The size limit of one object's bytes: the configured megabytes,
    /// or `usize::MAX` where they do not fit.
    pub open spec fn max_object_bytes_spec(&self) -> int {
        if self.limits.max_object_size_mb > usize::MAX / 1048576 {
            usize::MAX as int
        } else {
            self.limits.max_object_size_mb * 1048576
        }
    }

    /// The size limit of one object's bytes.
    fn max_object_bytes(&self) -> (r: usize)
        ensures
            r == self.max_object_bytes_spec(),
    {
        if self.limits.max_object_size_mb > usize::MAX / 1048576 {
            usize::MAX
        } else {
            self.limits.max_object_size_mb * 1048576
        }
    }

    /// The bytes read for the object at `offset`, and whether `endobj`
    /// was among them.
    fn read_object_bytes(&self, offset: u64) -> (r: (Vec<u8>, bool))
        ensures
            ({
                let start = if offset < self.data@.len() { offset as int } else { self.data@.len() as int };
                &&& start + r.0@.len() <= self.data@.len()
                &&& r.0@ == self.data@.subrange(start, start + r.0@.len())
                &&& read_outcome(self.data@, start, self.max_object_bytes_spec(), r.0@.len() as int, r.1)
            }),
    {
        let len = self.data.len();
        let start = if offset < len as u64 {
            offset as usize
        } else {
            len
        };
        let max_bytes = self.max_object_bytes();
        let (total, found) = read_until_endobj(self.data.as_slice(), start, max_bytes);
        (vstd::slice::slice_to_vec(vstd::slice::slice_subrange(self.data.as_slice(), start, start + total)), found)
    }

    /// The value of an object in use, parsed from its bytes; `None` when
    /// it has no offset or does not parse.
    pub fn load_object_value(&self, obj_id: ObjectId) -> (r: Option<PdfValue>)
        ensures
            !(self.xref_table.spec_get(obj_id) matches Some(XRefEntry::InUse { .. })) ==> r is None,
    {
        let offset = match self.xref_table.get(&obj_id) {
            Some(XRefEntry::InUse { offset, .. }) => offset,
            _ => return None,
        };
        let (buffer, _) = self.read_object_bytes(offset);
        match parse_indirect_object(buffer.as_slice(), 0, self.limits.max_depth, &self.limits.budget, None) {
            Ok(((_, value), _)) => Some(value),
            Err(_) => None,
        }
    }

    /// The value after the first `obj` in `buffer`, for objects whose
    /// header or end cannot be read.
    pub fn parse_object_value_fallback(&self, buffer: &[u8]) -> (r: Option<PdfValue>) {
        let n = buffer.len();
        let obj: [u8; 3] = [111, 98, 106];
        proof {
            assert(obj@.len() == 3);
            assert(buffer@.len() == n);
        }
        let p = match find_bytes(buffer, 0, obj.as_slice()) {
            Some(p) => p,
            None => return None,
        };
        let mut pos = p + 3;
        while pos < buffer.len() && text_ws(buffer[pos])
            invariant
                pos <= buffer@.len(),
            decreases buffer@.len() - pos,
        {
            pos = pos + 1;
        }
        let rest = vstd::slice::slice_subrange(buffer, pos, buffer.len());
        match parse_value(rest, 0, 0, self.limits.max_depth, &self.limits.budget) {
            Ok((value, _)) => Some(value),
            Err(_) => None,
        }
    }

    /// The decoded data and dictionary of object stream `stream_object`.
    pub fn load_object_stream(&self, stream_object: u32) -> (r: Result<(Vec<u8>, PdfDictionary), String>)
        ensures
            !(self.xref_table.spec_get(ObjectId { number: stream_object, generation: 0 }) matches Some(
                XRefEntry::InUse { .. },
            )) ==> r is Err,
    {
        let stream_id = ObjectId::new(stream_object, 0);
        let offset = match self.xref_table.get(&stream_id) {
            Some(XRefEntry::InUse { offset, .. }) => offset,
            _ => {
                let mut m = msg("Object stream ");
                m.append(u64_text(stream_object as u64).as_str());
                m.append(" offset missing");
                return Err(m);
            },
        };
        let (buffer, found) = self.read_object_bytes(offset);
        if !found && !self.tolerant {
            return Err(msg("Object stream missing endobj"));
        }
        let value = match parse_indirect_object(buffer.as_slice(), 0, self.limits.max_depth, &self.limits.budget, None) {
            Ok(((_, v), _)) => v,
            Err(e) => return Err(concat2("Failed to parse object stream: ", e.as_str())),
        };
        let stream = match value {
            PdfValue::Stream(s) => s,
            _ => return Err(msg("Object stream is not a stream")),
        };
        match stream.raw_data() {
            Some(_) => {},
            None => return Err(msg("Object stream has no data")),
        }
        let decoded = match crate::xref::decode_unfiltered_stream(&stream, &self.limits.budget) {
            Ok(d) => d,
            Err(e) => return Err(concat2("Failed to decode object stream: ", e.as_str())),
        };
        Ok((decoded, stream.dict))
    }

    /// Object `index` of a decoded object stream: its value, its offset in
    /// the data and the length up to the next object.
    pub fn parse_object_stream_entry(&self, data: &[u8], dict: &PdfDictionary, index: u32) -> (r: Result<
        (PdfValue, usize, usize),
        String,
    >)
        ensures
            r matches Ok((_, start, length)) ==> start + length <= data@.len() && length > 0,
            match crate::pdf_file::spec_object_stream_header(dict, index) {
                Err(m) => r matches Err(e) && e@ == m,
                Ok((n, _)) => index >= n ==> r is Err,
            },
            r matches Ok((v, start, length)) ==> stream_entry_of(data@, dict, index, self.limits.max_depth as int) == Some(
                (v.sv(), start as int, length as int),
            ),
            stream_entry_of(data@, dict, index, self.limits.max_depth as int) is None ==> r is Err,
    {
        let n = match usize_entry_text(dict, "N", "Missing N in object stream", "Invalid N in object stream") {
            Ok(v) => v,
            Err(e) => return Err(e),
        };
        let first = match usize_entry_text(dict, "First", "Missing First in object stream", "Invalid First in object stream") {
            Ok(v) => v,
            Err(e) => return Err(e),
        };
        let index = index as usize;
        if index >= n {
            return Err(msg("Object stream index out of range"));
        }
        let offsets = crate::object_parser::parse_object_stream_offsets(data, n, first, &self.limits.budget)?;
        let start = offsets[index];
        let mut next_offset = data.len();
        let mut k: usize = 0;
        while k < offsets.len()
            invariant
                k <= offsets@.len(),
                next_offset <= data@.len(),
                next_offset == crate::pdf_file::min_above(offsets@, start as int, k as int, data@.len() as int),
            decreases offsets@.len() - k,
        {
            let candidate = offsets[k];
            if candidate > start && candidate < next_offset {
                next_offset = candidate;
            }
            k = k + 1;
        }
        if start >= data.len() || start >= next_offset {
            return Err(msg("Invalid object stream offsets"));
        }
        let slice = vstd::slice::slice_subrange(data, start, next_offset);
        match parse_value(slice, 0, 0, self.limits.max_depth, &self.limits.budget) {
            Ok((value, _)) => {
                proof {
                    assert(slice@ == data@.subrange(start as int, next_offset as int));
                }
                Ok((value, start, next_offset - start))
            },
            Err(e) => Err(concat2("Parse value error: ", e.as_str())),
        }
    }

    /// A compressed object's value and where it was found.
    pub fn resolve_compressed_object(&self, stream_object: u32, index: u32) -> (r: Result<
        (PdfValue, CompressedObjectMeta),
        String,
    >)
        ensures
            !(self.xref_table.spec_get(ObjectId { number: stream_object, generation: 0 }) matches Some(
                XRefEntry::InUse { .. },
            )) ==> r is Err,
            r matches Ok((v, meta)) ==> (self.xref_table.spec_get(ObjectId { number: stream_object, generation: 0 })
                matches Some(XRefEntry::InUse { offset, .. }) && meta.file_offset == Some(offset)
                && meta.container_offset == Some(offset)),
            r matches Ok((v, meta)) ==> exists|d: PdfDictionary, b: Seq<u8>|
                #[trigger] stream_entry_of(b, &d, index, self.limits.max_depth as int) matches Some((x, o, l)) && x
                    == v.sv() && meta.object_offset == Some(o as u64) && meta.object_length == Some(l as usize),
    {
        let stream_id = ObjectId::new(stream_object, 0);
        let stream_offset = match self.xref_table.get(&stream_id) {
            Some(XRefEntry::InUse { offset, .. }) => Some(offset),
            _ => None,
        };
        let (stream, dict) = self.load_object_stream(stream_object)?;
        let (value, object_offset, object_length) = self.parse_object_stream_entry(stream.as_slice(), &dict, index)?;
        proof {
            assert(stream_entry_of(stream@, &dict, index, self.limits.max_depth as int) matches Some((x, o, l)) && x
                == value.sv() && o == object_offset && l == object_length);
        }
        Ok(
            (
                value,
                CompressedObjectMeta {
                    file_offset: stream_offset,
                    container_offset: stream_offset,
                    object_offset: Some(object_offset as u64),
                    object_length: Some(object_length),
                },
            ),
        )
    }
}

/// Object `index` of an object stream's data whose dictionary is `dict`:
/// its value, read from its offset up to the next larger offset, that
/// offset and the length up to the next; none when it cannot be read.
pub open spec fn stream_entry_of(data: Seq<u8>, dict: &PdfDictionary, index: u32, max_depth: int) -> Option<
    (SpecValue, int, int),
> {
    match crate::pdf_file::spec_object_stream_header(dict, index) {
        Err(_) => None,
        Ok((n, first)) => if index >= n {
            None
        } else {
            match crate::object_parser::spec_stream_offsets(data, 0, n, first as int) {
                None => None,
                Some(o) => {
                    let start = o[index as int] as int;
                    let next = crate::pdf_file::min_above(o, start, o.len() as int, data.len() as int);
                    if start >= data.len() || start >= next {
                        None
                    } else {
                        match crate::object_parser::spec_value(data.subrange(start, next), 0, 0, max_depth) {
                            Some((v, _)) => Some((v, start, next - start)),
                            None => None,
                        }
                    }
                },
            }
        },
    }
}

/// A non-negative integer entry that fits a `usize`, or the message for
/// a missing or an invalid one.
fn usize_entry_text(dict: &PdfDictionary, key: &str, missing: &str, invalid: &str) -> (r: Result<usize, String>)
    ensures
        match dict.spec_get(key@) {
            Some(SpecValue::Integer(n)) => if n < 0 || n > usize::MAX {
                r matches Err(e) && e@ == invalid@
            } else {
                r == Ok::<usize, String>(n as usize)
            },
            _ => r matches Err(e) && e@ == missing@,
        },
{
    match dict.get(key) {
        Some(v) => {
            proof {
                lemma_value_view(v);
            }
            match v {
                PdfValue::Integer(n) => {
                    if *n < 0 || (*n as u64) > (usize::MAX as u64) {
                        Err(msg(invalid))
                    } else {
                        Ok(*n as usize)
                    }
                },
                _ => Err(msg(missing)),
            }
        },
        None => Err(msg(missing)),
    }
}

/// Whether `v` is the value of the object at the start of `d` as the
/// resolver reads it: to its `endstream`, or, when its `/Length` is given
/// by reference, with some length.
pub open spec fn resolver_parsed(d: Seq<u8>, max_depth: int, v: SpecValue) -> bool {
    ||| (crate::object_parser::spec_indirect(d, 0, max_depth, None) matches Some((x, _)) && x.1 == v)
    ||| (crate::pdf_file::spec_stream_length_ref(d, max_depth) is Some && exists|n: usize|
        #[trigger] crate::object_parser::spec_indirect(d, 0, max_depth, Some(n)) matches Some((x, _)) && x.1 == v)
}

/// Whether `v` is the value the resolver reads at `offset`: from the bytes
/// that a chunked read up to `endobj` gives there.
pub open spec fn resolver_read_at(r: &ReferenceResolver, offset: u64, v: SpecValue) -> bool {
    exists|t: int, found: bool|
        #[trigger] read_outcome(r.data@, read_start(r.data@, offset), r.max_object_bytes_spec(), t, found) && 0 <= t
            && read_start(r.data@, offset) + t <= r.data@.len() && resolver_parsed(
            r.data@.subrange(read_start(r.data@, offset), read_start(r.data@, offset) + t),
            r.limits.max_depth as int,
            v,
        )
}

/// Where a read at `offset` starts: there, or at the end of the data.
pub open spec fn read_start(data: Seq<u8>, offset: u64) -> int {
    if offset < data.len() {
        offset as int
    } else {
        data.len() as int
    }
}

/// Whether `g` holds a node with id `from` whose value refers to `x`.
pub open spec fn node_refers(g: PdfAstGraph, from: NodeId, x: PdfReference) -> bool {
    exists|k: int|
        0 <= k < g.nodes_spec().len() && (#[trigger] g.nodes_spec()[k]).id == from && crate::types::refs_seq(
            crate::types::value_refs(g.nodes_spec()[k].value.sv()),
        ).contains(x)
}

/// Whether the reference edges among `edges` from index `start` on each
/// join a node of `g` to the node `map` gives for an object it refers to.
pub open spec fn reference_edges_sound(
    edges: Seq<crate::ast::AstEdge>,
    start: int,
    g: PdfAstGraph,
    map: Map<ObjectId, NodeId>,
) -> bool {
    forall|k: int|
        start <= k < edges.len() && (#[trigger] edges[k]).edge_type == EdgeType::Reference ==> exists|x: PdfReference|
            #[trigger] node_refers(g, edges[k].from, x) && map.contains_key(x.spec_id()) && map[x.spec_id()]
                == edges[k].to
}

/// A new reference edge to the node mapped for an object its source refers
/// to keeps the reference edges sound.
proof fn lemma_sound_push(
    edges: Seq<crate::ast::AstEdge>,
    start: int,
    g: PdfAstGraph,
    map: Map<ObjectId, NodeId>,
    e: crate::ast::AstEdge,
    x: PdfReference,
)
    requires
        reference_edges_sound(edges, start, g, map),
        0 <= start <= edges.len(),
        node_refers(g, e.from, x),
        map.contains_key(x.spec_id()),
        map[x.spec_id()] == e.to,
    ensures
        reference_edges_sound(edges.push(e), start, g, map),
{
    let b = edges.push(e);
    assert forall|k: int| start <= k < b.len() && (#[trigger] b[k]).edge_type == EdgeType::Reference implies exists|
        y: PdfReference,
    | #[trigger] node_refers(g, b[k].from, y) && map.contains_key(y.spec_id()) && map[y.spec_id()] == b[k].to by {
        if k < edges.len() {
            assert(edges.push(e)[k] == edges[k]);
        } else {
            assert(edges.push(e)[k] == e);
            assert(node_refers(g, b[k].from, x));
        }
    }
}

/// Mapping one more object keeps the reference edges sound.
proof fn lemma_sound_insert(
    edges: Seq<crate::ast::AstEdge>,
    start: int,
    g: PdfAstGraph,
    map: Map<ObjectId, NodeId>,
    id: ObjectId,
    n: NodeId,
)
    requires
        reference_edges_sound(edges, start, g, map),
        !map.contains_key(id),
    ensures
        reference_edges_sound(edges, start, g, map.insert(id, n)),
{
    let m2 = map.insert(id, n);
    assert forall|k: int| start <= k < edges.len() && (#[trigger] edges[k]).edge_type == EdgeType::Reference implies exists|
        y: PdfReference,
    | #[trigger] node_refers(g, edges[k].from, y) && m2.contains_key(y.spec_id()) && m2[y.spec_id()] == edges[k].to by {
        let y = choose|y: PdfReference|
            #[trigger] node_refers(g, edges[k].from, y) && map.contains_key(y.spec_id()) && map[y.spec_id()] == edges[k].to;
        assert(y.spec_id() != id);
        assert(m2[y.spec_id()] == map[y.spec_id()]);
    }
}

/// Appending child edges keeps the reference edges sound.
proof fn lemma_sound_children(
    a: Seq<crate::ast::AstEdge>,
    b: Seq<crate::ast::AstEdge>,
    start: int,
    g: PdfAstGraph,
    map: Map<ObjectId, NodeId>,
)
    requires
        reference_edges_sound(a, start, g, map),
        child_edges_added(a, b),
        0 <= start,
    ensures
        reference_edges_sound(b, start, g, map),
{
    assert forall|k: int| start <= k < b.len() && (#[trigger] b[k]).edge_type == EdgeType::Reference implies exists|
        y: PdfReference,
    | #[trigger] node_refers(g, b[k].from, y) && map.contains_key(y.spec_id()) && map[y.spec_id()] == b[k].to by {
        if k >= a.len() {
            assert(b[k].edge_type == EdgeType::Child);
        } else {
            assert(b[k] == a[k]);
        }
    }
}

/// `b` is `a` with edges of type `Child` appended.
pub open spec fn child_edges_added(a: Seq<crate::ast::AstEdge>, b: Seq<crate::ast::AstEdge>) -> bool {
    &&& b.len() >= a.len()
    &&& forall|k: int| 0 <= k < a.len() ==> #[trigger] b[k] == a[k]
    &&& forall|k: int| a.len() <= k < b.len() ==> (#[trigger] b[k]).edge_type == EdgeType::Child
}

/// Appending child edges twice appends child edges.
proof fn lemma_child_edges_trans(a: Seq<crate::ast::AstEdge>, b: Seq<crate::ast::AstEdge>, c: Seq<crate::ast::AstEdge>)
    requires
        child_edges_added(a, b),
        child_edges_added(b, c),
    ensures
        child_edges_added(a, c),
{
    assert forall|k: int| 0 <= k < a.len() implies #[trigger] c[k] == a[k] by {
        assert(c[k] == b[k]);
    }
    assert forall|k: int| a.len() <= k < c.len() implies (#[trigger] c[k]).edge_type == EdgeType::Child by {
        if k < b.len() {
            assert(c[k] == b[k]);
        }
    }
}

/// No edge, or one child edge, appended.
proof fn lemma_child_edge_step(a: Seq<crate::ast::AstEdge>, b: Seq<crate::ast::AstEdge>, e: crate::ast::AstEdge)
    requires
        b == a || (b == a.push(e) && e.edge_type == EdgeType::Child),
    ensures
        child_edges_added(a, b),
{
}

/// `n g R` for an object id.
fn reference_text(id: &ObjectId) -> (r: String)
    ensures
        r@ == crate::text::decimal(id.number as nat) + " "@ + crate::text::decimal(id.generation as nat) + " R"@,
{
    let mut m = u64_text(id.number as u64);
    m.append(" ");
    m.append(u64_text(id.generation as u64).as_str());
    m.append(" R");
    proof {
        reveal_strlit(" ");
        reveal_strlit(" R");
    }
    m
}

/// What resolving keeps of a graph: every node as it was, and no smaller
/// ids handed out.
pub open spec fn graph_grows(a: PdfAstGraph, b: PdfAstGraph) -> bool {
    &&& crate::ast::nodes_remain(a, b)
    &&& forall|id: NodeId| #[trigger] a.has_node(id) ==> b.node(id) == a.node(id)
}

impl ReferenceResolver {
    /// The node of an object: read at its offset (a stream whose length
    /// is a reference is read with that length) or taken from its object
    /// stream, typed by its value and marked with its id.  In tolerant mode
    /// an object that cannot be read or has no entry becomes a node of its
    /// own kind with a warning; strict mode fails.
    pub fn resolve_object(&self, obj_id: ObjectId, ast: &mut PdfAstGraph) -> (r: Result<NodeId, String>)
        ensures
            graph_grows(*old(ast), *final(ast)),
            final(ast).edges_spec() == old(ast).edges_spec(),
            r matches Ok(id) ==> !old(ast).has_node(id) && final(ast).has_node(id),
            self.xref_table.spec_get(obj_id) is None && !self.tolerant ==> r is Err,
            r matches Ok(id) ==> (final(ast).node(id) matches Some(n) && n.node_type == spec_object_node_type(
                n.value.sv(),
                obj_id,
            )) || !(self.xref_table.spec_get(obj_id) matches Some(e) && (e is InUse || e is Compressed)),
            !self.tolerant ==> match self.xref_table.spec_get(obj_id) {
                Some(XRefEntry::InUse { offset, .. }) => r matches Ok(id) ==> (final(ast).node(id) matches Some(n)
                    && resolver_read_at(self, offset, n.value.sv())),
                _ => true,
            },
            self.xref_table.spec_get(obj_id) is None && self.tolerant ==> (r matches Ok(id) ==> (final(ast).node(id) matches Some(n)
                && n.node_type == NodeType::Object(obj_id) && n.value == PdfValue::Null)),
            !(self.xref_table.spec_get(obj_id) matches Some(e) && (e is InUse || e is Compressed)) ==> if self.tolerant {
                r matches Ok(id) ==> (final(ast).node(id) matches Some(n) && n.node_type == NodeType::Object(obj_id)
                    && n.value == PdfValue::Null && n.metadata.props() == crate::types::spec_dict_insert(
                    Seq::<(Seq<char>, Seq<char>)>::empty(),
                    "recovery"@,
                    "xref_missing_object"@,
                ) && n.metadata.warnings_spec().len() == 1 && n.metadata.warnings_spec()[0]@
                    == "Recovered missing object reference"@)
            } else {
                r is Err
            },
    {
        match self.limits.budget.consume_object() {
            Ok(()) => {},
            Err(e) => return Err(e.to_string()),
        }
        match self.xref_table.get(&obj_id) {
            Some(XRefEntry::InUse { offset, .. }) => self.resolve_in_use(obj_id, offset, ast),
            Some(XRefEntry::Compressed { stream_object, index }) => self.resolve_compressed(obj_id, stream_object, index, ast),
            _ => {
                if !self.tolerant {
                    let mut m = msg("Object ");
                    m.append(reference_text(&obj_id).as_str());
                    m.append(" not found in xref table");
                    return Err(m);
                }
                let ghost before = *ast;
                let id = self.create_node(ast, NodeType::Object(obj_id), PdfValue::Null)?;
                let ghost created = *ast;
                add_warning(ast, id, "Recovered missing object reference");
                let ghost warned = *ast;
                set_prop(ast, id, "recovery", "xref_missing_object");
                proof {
                    reveal_strlit("recovery");
                    reveal_strlit("xref_missing_object");
                    reveal_strlit("Recovered missing object reference");
                    assert forall|x: NodeId| #[trigger] before.has_node(x) implies ast.node(x) == before.node(x) by {
                        assert(x != id);
                        assert(created.node(x) == before.node(x));
                        assert(warned.node(x) == created.node(x));
                    }
                }
                Ok(id)
            },
        }
    }

    /// Parses the bytes at `offset` as an indirect object, reading a stream
    /// whose length is a reference with the length that object holds.
    fn parse_at(&self, buffer: &[u8]) -> (r: Result<Result<((ObjectId, PdfValue), usize), String>, String>)
        ensures
            r matches Ok(Ok((y, _))) ==> resolver_parsed(buffer@, self.limits.max_depth as int, y.1.sv()),
            crate::pdf_file::spec_stream_length_ref(buffer@, self.limits.max_depth as int) is None ==> (r matches Ok(
                x,
            ) && (x matches Ok((y, _)) ==> crate::object_parser::spec_indirect(
                buffer@,
                0,
                self.limits.max_depth as int,
                None,
            ) matches Some((z, _)) && z.1 == y.1.sv())),
    {
        let max_depth = self.limits.max_depth;
        let length_id = match crate::pdf_file::stream_length_reference(buffer, max_depth, &self.limits.budget) {
            Ok(Some(id)) => id,
            Ok(None) => return Ok(parse_indirect_object(buffer, 0, max_depth, &self.limits.budget, None)),
            Err(m) => return Ok(Err(m)),
        };
        match self.load_object_value(length_id) {
            Some(PdfValue::Integer(length)) => {
                if length >= 0 {
                    if (length as u64) > (usize::MAX as u64) {
                        if !self.tolerant {
                            return Err(msg("Indirect stream Length is too large"));
                        }
                        Ok(parse_indirect_object(buffer, 0, max_depth, &self.limits.budget, None))
                    } else {
                        Ok(parse_indirect_object(buffer, 0, max_depth, &self.limits.budget, Some(length as usize)))
                    }
                } else {
                    if !self.tolerant {
                        return Err(msg("Indirect stream Length is not an integer"));
                    }
                    Ok(parse_indirect_object(buffer, 0, max_depth, &self.limits.budget, None))
                }
            },
            Some(_) => {
                if !self.tolerant {
                    return Err(msg("Indirect stream Length is not an integer"));
                }
                Ok(parse_indirect_object(buffer, 0, max_depth, &self.limits.budget, None))
            },
            None => {
                if !self.tolerant {
                    return Err(msg("Failed to resolve indirect stream Length"));
                }
                Ok(parse_indirect_object(buffer, 0, max_depth, &self.limits.budget, None))
            },
        }
    }

    fn resolve_in_use(&self, obj_id: ObjectId, offset: u64, ast: &mut PdfAstGraph) -> (r: Result<NodeId, String>)
        ensures
            graph_grows(*old(ast), *final(ast)),
            final(ast).edges_spec() == old(ast).edges_spec(),
            r matches Ok(id) ==> !old(ast).has_node(id) && final(ast).has_node(id),
            r matches Ok(id) ==> (final(ast).node(id) matches Some(n) && n.node_type == spec_object_node_type(
                n.value.sv(),
                obj_id,
            ) && (!self.tolerant ==> resolver_read_at(self, offset, n.value.sv()))),
    {
        let (buffer, found) = self.read_object_bytes(offset);
        let ghost start: int = if offset < self.data@.len() { offset as int } else { self.data@.len() as int };
        let max_bytes = self.max_object_bytes();
        if !found && buffer.len() >= max_bytes && !self.tolerant {
            let mut m = msg("Object ");
            m.append(u64_text(obj_id.number as u64).as_str());
            m.append(" exceeds max size ");
            m.append(usize_text(self.limits.max_object_size_mb).as_str());
            m.append("MB");
            return Err(m);
        }
        let parsed = self.parse_at(buffer.as_slice())?;
        let ghost before = *ast;
        match parsed {
            Ok(((_, value), _)) => {
                proof {
                    assert(read_outcome(
                        self.data@,
                        start,
                        self.max_object_bytes_spec(),
                        buffer@.len() as int,
                        found,
                    ));
                    assert(buffer@ == self.data@.subrange(start, start + buffer@.len()));
                    assert(resolver_parsed(buffer@, self.limits.max_depth as int, value.sv()));
                    assert(resolver_parsed(
                        self.data@.subrange(start, start + buffer@.len()),
                        self.limits.max_depth as int,
                        value.sv(),
                    ));
                    assert(start == read_start(self.data@, offset));
                    assert(read_outcome(
                        self.data@,
                        read_start(self.data@, offset),
                        self.max_object_bytes_spec(),
                        buffer@.len() as int,
                        found,
                    ));
                    assert(resolver_read_at(self, offset, value.sv()));
                }
                let node_type = self.determine_node_type(&value, obj_id);
                let stream_info = match &value {
                    PdfValue::Stream(st) => Some((st.data.bytes().len(), filter_names(&st.dict))),
                    _ => None,
                };
                let id = self.create_node(ast, node_type, value)?;
                let ghost created = *ast;
                set_prop(ast, id, "object_id", reference_text(&obj_id).as_str());
                let ghost marked = *ast;
                match stream_info {
                    Some((len, filters)) => {
                        set_prop(ast, id, "stream_length", usize_text(len).as_str());
                        let ghost mid = *ast;
                        set_prop(ast, id, "stream_filters", filters.as_str());
                        proof {
                            assert forall|x: NodeId| #[trigger] before.has_node(x) implies ast.node(x) == before.node(x) by {
                                assert(x != id);
                                assert(created.node(x) == before.node(x));
                                assert(marked.node(x) == created.node(x));
                                assert(mid.node(x) == marked.node(x));
                            }
                        }
                    },
                    None => {
                        proof {
                            assert forall|x: NodeId| #[trigger] before.has_node(x) implies ast.node(x) == before.node(x) by {
                                assert(x != id);
                                assert(created.node(x) == before.node(x));
                            }
                        }
                    },
                }
                Ok(id)
            },
            Err(e) => {
                if !self.tolerant {
                    let mut m = msg("Failed to parse object at offset ");
                    m.append(u64_text(offset).as_str());
                    m.append(": ");
                    m.append(e.as_str());
                    return Err(m);
                }
                match self.parse_object_value_fallback(buffer.as_slice()) {
                    Some(recovered) => {
                        let node_type = self.determine_node_type(&recovered, obj_id);
                        let id = self.create_node(ast, node_type, recovered)?;
                        let ghost created = *ast;
                        add_warning(ast, id, "Recovered object by parsing value after obj keyword");
                        let ghost warned = *ast;
                        set_prop(ast, id, "recovery", "parse_value_after_obj");
                        proof {
                            assert forall|x: NodeId| #[trigger] before.has_node(x) implies ast.node(x) == before.node(x) by {
                                assert(x != id);
                                assert(created.node(x) == before.node(x));
                                assert(warned.node(x) == created.node(x));
                            }
                        }
                        Ok(id)
                    },
                    None => {
                        proof {
                            lemma_value_view(&PdfValue::Null);
                        }
                        let id = self.create_node(ast, NodeType::Object(obj_id), PdfValue::Null)?;
                        let ghost created = *ast;
                        add_warning(ast, id, "Recovered from parse error");
                        let ghost warned = *ast;
                        set_prop(ast, id, "recovery", "parse_indirect_object_failed");
                        proof {
                            assert forall|x: NodeId| #[trigger] before.has_node(x) implies ast.node(x) == before.node(x) by {
                                assert(x != id);
                                assert(created.node(x) == before.node(x));
                                assert(warned.node(x) == created.node(x));
                            }
                        }
                        Ok(id)
                    },
                }
            },
        }
    }

    fn resolve_compressed(&self, obj_id: ObjectId, stream_object: u32, index: u32, ast: &mut PdfAstGraph) -> (r: Result<
        NodeId,
        String,
    >)
        ensures
            graph_grows(*old(ast), *final(ast)),
            final(ast).edges_spec() == old(ast).edges_spec(),
            r matches Ok(id) ==> !old(ast).has_node(id) && final(ast).has_node(id),
            r matches Ok(id) ==> (final(ast).node(id) matches Some(n) && n.node_type == spec_object_node_type(
                n.value.sv(),
                obj_id,
            )),
    {
        let (value, meta) = match self.resolve_compressed_object(stream_object, index) {
            Ok(x) => x,
            Err(e) => {
                let mut m = msg("Compressed object ");
                m.append(u64_text(obj_id.number as u64).as_str());
                m.append(" error: ");
                m.append(e.as_str());
                return Err(m);
            },
        };
        let ghost before = *ast;
        let node_type = self.determine_node_type(&value, obj_id);
        let id = self.create_node(ast, node_type, value)?;
        let ghost created = *ast;
        set_prop(ast, id, "object_id", reference_text(&obj_id).as_str());
        let mut container = u64_text(stream_object as u64);
        container.append(" 0 R");
        set_prop(ast, id, "container_stream", container.as_str());
        match meta.container_offset {
            Some(o) => {
                set_prop(ast, id, "container_stream_offset", u64_text(o).as_str());
            },
            None => {},
        }
        match meta.object_offset {
            Some(o) => {
                set_prop(ast, id, "object_stream_offset", u64_text(o).as_str());
            },
            None => {},
        }
        match meta.object_length {
            Some(l) => {
                set_prop(ast, id, "object_stream_length", usize_text(l).as_str());
            },
            None => {},
        }
        let ghost props = *ast;
        set_prop(ast, id, "object_stream_index", u64_text(index as u64).as_str());
        proof {
            assert(!before.has_node(id));
            assert forall|x: NodeId| #[trigger] before.has_node(x) implies ast.node(x) == before.node(x) by {
                assert(x != id);
                assert(created.node(x) == before.node(x));
            }
        }
        Ok(id)
    }
}

impl ReferenceResolver {
    /// Streams whose `/Length` refers to an object holding an integer get
    /// that integer as their length, and their raw bytes are cut to it.
    pub fn resolve_stream_lengths(&self, ast: &mut PdfAstGraph) -> (r: Result<(), String>)
        ensures
            crate::ast::nodes_remain(*old(ast), *final(ast)),
            final(ast).edges_spec() == old(ast).edges_spec(),
    {
        let mut updates: Vec<(NodeId, i64)> = Vec::new();
        let nodes = ast.nodes();
        let mut i: usize = 0;
        while i < nodes.len()
            invariant
                i <= nodes@.len(),
            decreases nodes@.len() - i,
        {
            match &nodes[i].value {
                PdfValue::Stream(st) => {
                    match st.dict.get("Length") {
                        Some(PdfValue::Reference(length_ref)) => {
                            let length_id = length_ref.id();
                            match self.xref_table.get(&length_id) {
                                Some(XRefEntry::InUse { offset, .. }) => {
                                    let len = self.data.len();
                                    let start = if offset < len as u64 {
                                        offset as usize
                                    } else {
                                        len
                                    };
                                    let end = if len - start < 1024 {
                                        len
                                    } else {
                                        start + 1024
                                    };
                                    let buffer = vstd::slice::slice_subrange(self.data.as_slice(), start, end);
                                    match parse_indirect_object(buffer, 0, self.limits.max_depth, &self.limits.budget, None) {
                                        Ok(((_, PdfValue::Integer(length)), _)) => {
                                            updates.push((nodes[i].id, length));
                                        },
                                        _ => {},
                                    }
                                },
                                _ => {},
                            }
                        },
                        _ => {},
                    }
                },
                _ => {},
            }
            i = i + 1;
        }
        let mut k: usize = 0;
        while k < updates.len()
            invariant
                k <= updates@.len(),
                crate::ast::nodes_remain(*old(ast), *ast),
                ast.edges_spec() == old(ast).edges_spec(),
            decreases updates@.len() - k,
        {
            let (id, length) = updates[k];
            let replacement = match ast.get_node(id) {
                Some(node) => match &node.value {
                    PdfValue::Stream(st) => {
                        let mut dict = st.dict.clone_dict();
                        dict.insert("Length", PdfValue::Integer(length));
                        let data = match &st.data {
                            StreamData::Raw(bytes) => {
                                if length >= 0 && (bytes.len() as u64) > (length as u64) {
                                    StreamData::Raw(vstd::slice::slice_to_vec(vstd::slice::slice_subrange(bytes.as_slice(), 0, length as usize)))
                                } else {
                                    StreamData::Raw(vstd::slice::slice_to_vec(bytes.as_slice()))
                                }
                            },
                            StreamData::Decoded(bytes) => StreamData::Decoded(vstd::slice::slice_to_vec(bytes.as_slice())),
                        };
                        Some(PdfValue::Stream(PdfStream { dict, data }))
                    },
                    _ => None,
                },
                None => None,
            };
            match replacement {
                Some(v) => {
                    let ghost before = *ast;
                    ast.set_node_value(id, v);
                    proof {
                        assert forall|x: NodeId| #[trigger] old(ast).has_node(x) implies ast.has_node(x)
                            && ast.node(x).unwrap().node_type == old(ast).node(x).unwrap().node_type by {
                            assert(before.has_node(x));
                            if x != id {
                                assert(ast.node(x) == before.node(x));
                            }
                        }
                    }
                },
                None => {},
            }
            k = k + 1;
        }
        Ok(())
    }

    /// Dictionaries with `/JS` or `/JavaScript` and no JavaScript child get
    /// one, holding the script (loaded when it is a reference).
    pub fn build_javascript_nodes(&self, ast: &mut PdfAstGraph) -> (r: Result<(), String>)
        ensures
            graph_grows(*old(ast), *final(ast)),
            child_edges_added(old(ast).edges_spec(), final(ast).edges_spec()),
    {
        let count = ast.nodes().len();
        let mut ids: Vec<NodeId> = Vec::new();
        let mut i: usize = 0;
        while i < count
            invariant
                i <= count,
                count == ast.nodes_spec().len(),
            decreases count - i,
        {
            ids.push(ast.nodes()[i].id);
            i = i + 1;
        }
        let mut k: usize = 0;
        while k < ids.len()
            invariant
                k <= ids@.len(),
                graph_grows(*old(ast), *ast),
                child_edges_added(old(ast).edges_spec(), ast.edges_spec()),
            decreases ids@.len() - k,
        {
            let node_id = ids[k];
            k = k + 1;
            let dict = match ast.get_node(node_id) {
                Some(node) => match node.as_dict() {
                    Some(d) => d.clone_dict(),
                    None => continue,
                },
                None => continue,
            };
            let js_value = match dict.get("JS") {
                Some(v) => v,
                None => match dict.get("JavaScript") {
                    Some(v) => v,
                    None => continue,
                },
            };
            let children = ast.get_children(node_id);
            let mut existing = false;
            let mut c: usize = 0;
            while c < children.len()
                invariant
                    c <= children@.len(),
                decreases children@.len() - c,
            {
                match ast.get_node(children[c]) {
                    Some(child) => {
                        if child.node_type == NodeType::JavaScript {
                            existing = true;
                        }
                    },
                    None => {},
                }
                c = c + 1;
            }
            if existing {
                continue;
            }
            let resolved = match js_value {
                PdfValue::Reference(r) => match self.load_object_value(r.id()) {
                    Some(v) => v,
                    None => PdfValue::Null,
                },
                other => other.deep_clone(),
            };
            let ghost before = *ast;
            let js_id = self.create_node(ast, NodeType::JavaScript, resolved)?;
            let ghost created = *ast;
            let res = self.add_edge(ast, node_id, js_id, EdgeType::Child);
            proof {
                lemma_child_edge_step(before.edges_spec(), ast.edges_spec(), crate::ast::AstEdge { from: node_id, to: js_id, edge_type: EdgeType::Child });
                lemma_child_edges_trans(old(ast).edges_spec(), before.edges_spec(), ast.edges_spec());
            }
            res?;
            proof {
                assert forall|x: NodeId| #[trigger] old(ast).has_node(x) implies ast.node(x) == old(ast).node(x) by {
                    assert(before.has_node(x));
                    assert(created.node(x) == before.node(x));
                }
            }
        }
        Ok(())
    }

    /// A node for a font's encoding (loaded when it is a reference), under
    /// the font.
    pub fn attach_encoding_node(&self, ast: &mut PdfAstGraph, font_id: NodeId, value: &PdfValue) -> (r: Result<(), String>)
        ensures
            graph_grows(*old(ast), *final(ast)),
            child_edges_added(old(ast).edges_spec(), final(ast).edges_spec()),
            r is Ok ==> exists|id: NodeId|
                !old(ast).has_node(id) && (#[trigger] final(ast).node(id) matches Some(n) && n.node_type
                    == NodeType::Encoding && (!(value is Reference) ==> n.value.sv() == value.sv()))
                    && final(ast).edges_spec() == old(ast).edges_spec().push(
                    crate::ast::AstEdge { from: font_id, to: id, edge_type: EdgeType::Child },
                ),
    {
        let resolved = match value {
            PdfValue::Reference(r) => match self.load_object_value(r.id()) {
                Some(v) => v,
                None => PdfValue::Null,
            },
            other => other.deep_clone(),
        };
        let ghost before = *ast;
        let id = self.create_node(ast, NodeType::Encoding, resolved)?;
        let ghost created = *ast;
        set_prop(ast, id, "metadata_kind", "font_encoding");
        let ghost marked = *ast;
        let res = self.add_edge(ast, font_id, id, EdgeType::Child);
        proof {
            assert forall|x: NodeId| #[trigger] before.has_node(x) implies ast.node(x) == before.node(x) by {
                assert(x != id);
                assert(created.node(x) == before.node(x));
                assert(marked.node(x) == created.node(x));
            }
            if res is Ok {
                assert(ast.node(id) == marked.node(id));
                assert(!before.has_node(id));
            }
            lemma_child_edge_step(before.edges_spec(), ast.edges_spec(), crate::ast::AstEdge { from: font_id, to: id, edge_type: EdgeType::Child });
        }
        res
    }

    /// A font's `/ToUnicode` (loaded when it is a reference): a value that
    /// is no stream becomes a node under the font; a CMap stream gets no
    /// node here.
    pub fn attach_tounicode_node(&self, ast: &mut PdfAstGraph, font_id: NodeId, value: &PdfValue) -> (r: Result<(), String>)
        ensures
            graph_grows(*old(ast), *final(ast)),
            child_edges_added(old(ast).edges_spec(), final(ast).edges_spec()),
            value is Stream ==> r is Ok && *final(ast) == *old(ast),
            !(value is Stream || value is Reference) && r is Ok ==> exists|id: NodeId|
                !old(ast).has_node(id) && (#[trigger] final(ast).node(id) matches Some(n) && n.node_type
                    == NodeType::ToUnicode && n.value.sv() == value.sv()) && final(ast).edges_spec()
                    == old(ast).edges_spec().push(crate::ast::AstEdge { from: font_id, to: id, edge_type: EdgeType::Child }),
    {
        proof {
            lemma_value_view(value);
        }
        let resolved = match value {
            PdfValue::Reference(r) => match self.load_object_value(r.id()) {
                Some(v) => v,
                None => PdfValue::Null,
            },
            other => other.deep_clone(),
        };
        proof {
            lemma_value_view(&resolved);
        }
        match resolved {
            PdfValue::Stream(_) => Ok(()),
            other => {
                let ghost before = *ast;
                let id = self.create_node(ast, NodeType::ToUnicode, other)?;
                let ghost created = *ast;
                let res = self.add_edge(ast, font_id, id, EdgeType::Child);
                proof {
                    assert forall|x: NodeId| #[trigger] before.has_node(x) implies ast.node(x) == before.node(x) by {
                        assert(created.node(x) == before.node(x));
                    }
                    if res is Ok {
                        assert(ast.node(id) == created.node(id));
                    }
                    lemma_child_edge_step(before.edges_spec(), ast.edges_spec(), crate::ast::AstEdge { from: font_id, to: id, edge_type: EdgeType::Child });
                }
                res
            },
        }
    }

    /// For each font: a node for its encoding, its `/ToUnicode`, and its
    /// `/CIDSystemInfo`.
    pub fn build_font_resources(&self, ast: &mut PdfAstGraph) -> (r: Result<(), String>)
        ensures
            graph_grows(*old(ast), *final(ast)),
            child_edges_added(old(ast).edges_spec(), final(ast).edges_spec()),
    {
        let count = ast.nodes().len();
        let mut fonts: Vec<NodeId> = Vec::new();
        let mut i: usize = 0;
        while i < count
            invariant
                i <= count,
                count == ast.nodes_spec().len(),
            decreases count - i,
        {
            if ast.nodes()[i].node_type == NodeType::Font {
                fonts.push(ast.nodes()[i].id);
            }
            i = i + 1;
        }
        let mut k: usize = 0;
        while k < fonts.len()
            invariant
                k <= fonts@.len(),
                graph_grows(*old(ast), *ast),
                child_edges_added(old(ast).edges_spec(), ast.edges_spec()),
            decreases fonts@.len() - k,
        {
            let font_id = fonts[k];
            k = k + 1;
            let dict = match ast.get_node(font_id) {
                Some(node) => match node.as_dict() {
                    Some(d) => d.clone_dict(),
                    None => continue,
                },
                None => continue,
            };
            let ghost e0 = ast.edges_spec();
            match dict.get("Encoding") {
                Some(v) => {
                    let res = self.attach_encoding_node(ast, font_id, v);
                    proof {
                        lemma_child_edges_trans(old(ast).edges_spec(), e0, ast.edges_spec());
                    }
                    res?;
                },
                None => {},
            }
            let ghost e1 = ast.edges_spec();
            match dict.get("ToUnicode") {
                Some(v) => {
                    let res = self.attach_tounicode_node(ast, font_id, v);
                    proof {
                        lemma_child_edges_trans(old(ast).edges_spec(), e1, ast.edges_spec());
                    }
                    res?;
                },
                None => {},
            }
            match dict.get("CIDSystemInfo") {
                Some(info) => {
                    let ghost before = *ast;
                    let id = self.create_node(ast, NodeType::Metadata, info.deep_clone())?;
                    let ghost created = *ast;
                    set_prop(ast, id, "metadata_kind", "cid_system_info");
                    let ghost marked = *ast;
                    let res = self.add_edge(ast, font_id, id, EdgeType::Child);
                    proof {
                        assert forall|x: NodeId| #[trigger] before.has_node(x) implies ast.node(x) == before.node(x) by {
                            assert(x != id);
                            assert(created.node(x) == before.node(x));
                            assert(marked.node(x) == created.node(x));
                        }
                        lemma_child_edge_step(before.edges_spec(), ast.edges_spec(), crate::ast::AstEdge { from: font_id, to: id, edge_type: EdgeType::Child });
                        lemma_child_edges_trans(old(ast).edges_spec(), before.edges_spec(), ast.edges_spec());
                    }
                    res?;
                },
                None => {},
            }
        }
        Ok(())
    }

    /// Resolves the references of the graph: the references in every
    /// node's value are queued; each referenced object becomes a node once
    /// (an object that cannot be resolved is skipped) and is joined to the
    /// referring node by a reference edge.  Then stream lengths given by
    /// reference are applied, fonts get their resource nodes, and scripts
    /// their JavaScript nodes.
    pub fn resolve_references(&mut self, ast: &mut PdfAstGraph) -> (r: Result<(), String>)
        ensures
            crate::ast::nodes_remain(*old(ast), *final(ast)),
            r is Ok ==> final(self).pending_references@.len() == 0,
            forall|k: int| 0 <= k < old(ast).edges_spec().len() ==> #[trigger] final(ast).edges_spec()[k] == old(
                ast,
            ).edges_spec()[k],
            final(ast).edges_spec().len() >= old(ast).edges_spec().len(),
            old(self).pending_references@.len() == 0 ==> reference_edges_sound(
                final(ast).edges_spec(),
                old(ast).edges_spec().len() as int,
                *old(ast),
                final(self).object_to_node.view_map(),
            ),
    {
        let ghost g0 = *ast;
        let ghost no_pending = self.pending_references@.len() == 0;
        let count = ast.nodes().len();
        let mut i: usize = 0;
        while i < count
            invariant
                i <= count,
                count == ast.nodes_spec().len(),
                *ast == g0,
                no_pending ==> forall|k: int|
                    0 <= k < self.pending_references@.len() ==> #[trigger] node_refers(
                        g0,
                        self.pending_references@[k].0,
                        self.pending_references@[k].1,
                    ),
            decreases count - i,
        {
            let node = &ast.nodes()[i];
            let ghost before = self.pending_references@;
            self.collect_references_from_node(node.id, &node.value);
            proof {
                if no_pending {
                    assert forall|k: int| 0 <= k < self.pending_references@.len() implies #[trigger] node_refers(
                        g0,
                        self.pending_references@[k].0,
                        self.pending_references@[k].1,
                    ) by {
                        if k >= before.len() {
                            let refs = crate::types::refs_seq(crate::types::value_refs(node.value.sv()));
                            let j = k - before.len();
                            assert(self.pending_references@[k] == (node.id, refs[j]));
                            assert(g0.nodes_spec()[i as int] == *node);
                            assert(refs.contains(refs[j]));
                        } else {
                            assert(self.pending_references@[k] == before[k]);
                        }
                    }
                }
            }
            i = i + 1;
        }
        let ghost map0 = self.object_to_node.view_map();
        let mut idx: usize = 0;
        while idx < self.pending_references.len()
            invariant
                idx <= self.pending_references@.len(),
                graph_grows(*old(ast), *ast),
                g0 == *old(ast),
                no_pending == (old(self).pending_references@.len() == 0),
                ast.edges_spec().len() >= g0.edges_spec().len(),
                forall|k: int| 0 <= k < g0.edges_spec().len() ==> #[trigger] ast.edges_spec()[k] == g0.edges_spec()[k],
                no_pending ==> forall|k: int|
                    0 <= k < self.pending_references@.len() ==> #[trigger] node_refers(
                        g0,
                        self.pending_references@[k].0,
                        self.pending_references@[k].1,
                    ),
                no_pending ==> reference_edges_sound(
                    ast.edges_spec(),
                    g0.edges_spec().len() as int,
                    g0,
                    self.object_to_node.view_map(),
                ),
            decreases self.pending_references@.len() - idx,
        {
            let (source, reference) = self.pending_references[idx];
            proof {
                if no_pending {
                    assert(node_refers(g0, self.pending_references@[idx as int].0, self.pending_references@[idx as int].1));
                }
            }
            idx = idx + 1;
            match self.limits.budget.check() {
                Ok(()) => {},
                Err(e) => {
                    self.pending_references = vstd::slice::slice_to_vec(
                        vstd::slice::slice_subrange(self.pending_references.as_slice(), idx, self.pending_references.len()),
                    );
                    return Err(e.to_string());
                },
            }
            let obj_id = reference.id();
            let target = match self.object_to_node.get_node_id(&obj_id) {
                Some(t) => t,
                None => {
                    let mut known = false;
                    let mut j: usize = 0;
                    while j < self.resolved_objects.len()
                        invariant
                            j <= self.resolved_objects@.len(),
                        decreases self.resolved_objects@.len() - j,
                    {
                        if self.resolved_objects[j] == obj_id {
                            known = true;
                        }
                        j = j + 1;
                    }
                    if known {
                        continue;
                    }
                    match self.resolve_object(obj_id, ast) {
                        Ok(node_id) => {
                            self.resolved_objects.push(obj_id);
                            let ghost m_before = self.object_to_node.view_map();
                            self.object_to_node.insert(obj_id, node_id);
                            proof {
                                if no_pending {
                                    lemma_sound_insert(
                                        ast.edges_spec(),
                                        g0.edges_spec().len() as int,
                                        g0,
                                        m_before,
                                        obj_id,
                                        node_id,
                                    );
                                }
                            }
                            node_id
                        },
                        Err(_) => continue,
                    }
                },
            };
            let ghost edges_before = ast.edges_spec();
            proof {
                assert(self.object_to_node.view_map().contains_key(obj_id));
                assert(self.object_to_node.view_map()[obj_id] == target);
            }
            let edge = match self.limits.budget.consume_edge() {
                Ok(()) => self.add_edge(ast, source, target, EdgeType::Reference),
                Err(e) => Err(e.to_string()),
            };
            proof {
                if no_pending && edge is Ok {
                    lemma_sound_push(
                        edges_before,
                        g0.edges_spec().len() as int,
                        g0,
                        self.object_to_node.view_map(),
                        crate::ast::AstEdge { from: source, to: target, edge_type: EdgeType::Reference },
                        reference,
                    );
                }
            }
            match edge {
                Ok(()) => {},
                Err(e) => {
                    self.pending_references = vstd::slice::slice_to_vec(
                        vstd::slice::slice_subrange(self.pending_references.as_slice(), idx, self.pending_references.len()),
                    );
                    return Err(e);
                },
            }
        }
        self.pending_references = Vec::new();
        let ghost linked = *ast;
        self.resolve_stream_lengths(ast)?;
        let ghost lengths = *ast;
        let res = self.build_font_resources(ast);
        proof {
            if no_pending {
                lemma_sound_children(
                    lengths.edges_spec(),
                    ast.edges_spec(),
                    g0.edges_spec().len() as int,
                    g0,
                    self.object_to_node.view_map(),
                );
            }
        }
        res?;
        let ghost fonts = *ast;
        let res = self.build_javascript_nodes(ast);
        proof {
            if no_pending {
                lemma_sound_children(
                    fonts.edges_spec(),
                    ast.edges_spec(),
                    g0.edges_spec().len() as int,
                    g0,
                    self.object_to_node.view_map(),
                );
            }
        }
        res?;
        Ok(())
    }
}

} // verus!
