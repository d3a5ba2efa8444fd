//! The structure tree of a Tagged PDF: role and class maps, the parent
//! tree, structure elements and their marked content.
use crate::ast::{AstNode, EdgeType, NodeId, NodeType, PdfAstGraph, TextMap};
use crate::limits::{budget_outcome, ResourceBudget, ResourceBudgetError};
use crate::reference_resolver::ObjectNodeMap;
use crate::text::{concat3, i64_text, join_strings, str_ends_with, str_starts_with, usize_text};
use crate::types::{
    lemma_array_view, lemma_value_view, str_equal, utf8_lossy, ObjectId, PdfArray, PdfDictionary, PdfName,
    PdfReference, PdfValue, SpecValue,
};
use vstd::prelude::*;

verus! {

#[derive(Debug)]
pub enum ParentTreeEntry {
    Single(NodeId),
    Multiple(Vec<NodeId>),
}

/// Marked-content parents by structure-parent key; each key at most once.
pub struct ParentTree {
    entries: Vec<(u32, ParentTreeEntry)>,
    pub limits: Option<(i64, i64)>,
}

impl ParentTree {
    #[verifier::type_invariant]
    closed spec fn wf(&self) -> bool {
        forall|i: int, j: int|
            0 <= i < j < self.entries@.len() ==> (#[trigger] self.entries@[i]).0 != (#[trigger] self.entries@[j]).0
    }

    pub closed spec fn keys(&self) -> Seq<u32> {
        Seq::new(self.entries@.len(), |i: int| self.entries@[i].0)
    }

    pub closed spec fn spec_entry(&self, key: u32) -> Option<ParentTreeEntry> {
        if exists|i: int| 0 <= i < self.entries@.len() && self.entries@[i].0 == key {
            Some(self.entries@[choose|i: int| 0 <= i < self.entries@.len() && self.entries@[i].0 == key].1)
        } else {
            None
        }
    }

    pub closed spec fn limits_spec(&self) -> Option<(i64, i64)> {
        self.limits
    }

    pub fn new() -> (r: Self)
        ensures
            forall|k: u32| #[trigger] r.spec_entry(k) is None,
            r.limits_spec() is None,
    {
        ParentTree { entries: Vec::new(), limits: None }
    }

    fn position(&self, key: u32) -> (r: Option<usize>)
        ensures
            r matches Some(i) ==> i < self.entries@.len() && self.entries@[i as int].0 == key,
            r is None ==> forall|j: int| 0 <= j < self.entries@.len() ==> self.entries@[j].0 != key,
    {
        let mut i: usize = 0;
        while i < self.entries.len()
            invariant
                i <= self.entries@.len(),
                forall|j: int| 0 <= j < i ==> self.entries@[j].0 != key,
            decreases self.entries@.len() - i,
        {
            if self.entries[i].0 == key {
                return Some(i);
            }
            i = i + 1;
        }
        None
    }

    /// Records the parents of marked content under `key`, replacing what
    /// the key had.
    pub fn add_parent_entry(&mut self, key: u32, entry: ParentTreeEntry)
        ensures
            final(self).spec_entry(key) == Some(entry),
            forall|k: u32| k != key ==> #[trigger] final(self).spec_entry(k) == old(self).spec_entry(k),
            final(self).limits_spec() == old(self).limits_spec(),
    {
        proof {
            use_type_invariant(&*self);
        }
        let ghost old_e = self.entries@;
        let found = self.position(key);
        let mut e: Vec<(u32, ParentTreeEntry)> = Vec::new();
        std::mem::swap(&mut e, &mut self.entries);
        match found {
            Some(i) => {
                e.set(i, (key, entry));
            },
            None => {
                e.push((key, entry));
            },
        }
        proof {
            assert forall|a: int, b: int| 0 <= a < b < e@.len() implies (#[trigger] e@[a]).0 != (
            #[trigger] e@[b]).0 by {
                if b < old_e.len() && a < old_e.len() {
                    assert(old_e[a].0 != old_e[b].0);
                }
            }
        }
        self.entries = e;
        proof {
            let n = self.entries@;
            assert(n[if found is Some { found->0 as int } else { old_e.len() as int }].0 == key);
            assert forall|k: u32| k != key implies #[trigger] self.spec_entry(k) == old(self).spec_entry(k) by {
                if exists|i: int| 0 <= i < old_e.len() && old_e[i].0 == k {
                    let i = choose|i: int| 0 <= i < old_e.len() && old_e[i].0 == k;
                    assert(n[i].0 == k);
                    let j = choose|j: int| 0 <= j < n.len() && n[j].0 == k;
                    if j != i {
                        if j < i {
                            assert(n[j].0 != n[i].0);
                        } else {
                            assert(n[i].0 != n[j].0);
                        }
                    }
                }
                if exists|j: int| 0 <= j < n.len() && n[j].0 == k {
                    let j = choose|j: int| 0 <= j < n.len() && n[j].0 == k;
                    assert(old_e[j].0 == k);
                }
            }
            let ki = choose|i: int| 0 <= i < n.len() && n[i].0 == key;
            let pos = if found is Some { found->0 as int } else { old_e.len() as int };
            if ki != pos {
                if ki < pos {
                    assert(n[ki].0 != n[pos].0);
                } else {
                    assert(n[pos].0 != n[ki].0);
                }
            }
        }
    }

    pub fn get_parents(&self, key: u32) -> (r: Option<&ParentTreeEntry>)
        ensures
            r is Some <==> self.spec_entry(key) is Some,
            r matches Some(e) ==> self.spec_entry(key) == Some(*e),
    {
        proof {
            use_type_invariant(self);
        }
        match self.position(key) {
            Some(i) => {
                proof {
                    let n = self.entries@;
                    let j = choose|j: int| 0 <= j < n.len() && n[j].0 == key;
                    if j != i as int {
                        if j < i {
                            assert(n[j].0 != n[i as int].0);
                        } else {
                            assert(n[i as int].0 != n[j].0);
                        }
                    }
                }
                Some(&self.entries[i].1)
            },
            None => None,
        }
    }

    pub fn set_limits(&mut self, min: i64, max: i64)
        ensures
            final(self).limits_spec() == Some((min, max)),
            forall|k: u32| #[trigger] final(self).spec_entry(k) == old(self).spec_entry(k),
    {
        proof {
            use_type_invariant(&*self);
        }
        self.limits = Some((min, max));
    }
}

/// Names of an identifier tree.
pub struct NameTreeNode {
    pub names: Vec<(String, NodeId)>,
}

pub struct StructureTree {
    pub root: NodeId,
    pub role_map: TextMap<String>,
    pub class_map: TextMap<NodeId>,
    pub parent_tree: ParentTree,
    pub id_tree: Option<NameTreeNode>,
}

/// Properties of marked content that an operator may carry.
pub enum MarkedContentProps {
    Dictionary(PdfDictionary),
    Name(String),
}

/// The content-stream operators that link content to the structure tree.
pub enum ContentOperator {
    BeginMarkedContent(String),
    BeginMarkedContentWithProps(String, MarkedContentProps),
    EndMarkedContent,
    ShowText(Vec<u8>),
    Other,
}

/// Property `k` of node `x` of `g`.
pub open spec fn prop_of(g: PdfAstGraph, x: NodeId, k: Seq<char>) -> Option<Seq<char>> {
    match g.node(x) {
        Some(n) => crate::types::spec_dict_get(n.metadata.props(), k),
        None => None,
    }
}

/// Whether operator `j` of `ops` shows the text that reads as `t`.
pub open spec fn shows_text(ops: Seq<ContentOperator>, j: int, t: Seq<char>) -> bool {
    0 <= j < ops.len() && (ops[j] matches ContentOperator::ShowText(b) && crate::types::lossy_text(b@) == t)
}

/// Whether no operator strictly between `a` and `b` ends marked content.
pub open spec fn no_end_between(ops: Seq<ContentOperator>, a: int, b: int) -> bool {
    forall|j: int| a < j < b ==> !(#[trigger] ops[j] is EndMarkedContent)
}

/// Whether the texts `c` are, in order, texts shown by operators strictly
/// between `a` and `b`, each by its own operator.
pub open spec fn drawn_from(c: Seq<Seq<char>>, ops: Seq<ContentOperator>, a: int, b: int) -> bool {
    exists|idx: Seq<int>| #[trigger] drawn_at(idx, c, ops, a, b)
}

/// `idx` picks, in order, the operators that show the texts `c`, all
/// strictly between `a` and `b`.
pub open spec fn drawn_at(idx: Seq<int>, c: Seq<Seq<char>>, ops: Seq<ContentOperator>, a: int, b: int) -> bool {
    &&& idx.len() == c.len()
    &&& forall|k: int| 0 <= k < idx.len() ==> a < #[trigger] idx[k] < b && shows_text(ops, idx[k], c[k])
    &&& forall|k1: int, k2: int| 0 <= k1 < k2 < idx.len() ==> #[trigger] idx[k1] < #[trigger] idx[k2]
}

/// The marked-content id that operator `b` opens: a `BDC` whose property
/// dictionary has an integer `/MCID`.
pub open spec fn mcid_opened(ops: Seq<ContentOperator>, b: int) -> Option<i32> {
    if 0 <= b < ops.len() {
        match ops[b] {
            ContentOperator::BeginMarkedContentWithProps(_, MarkedContentProps::Dictionary(d)) => match d.spec_get(
                "MCID"@,
            ) {
                Some(SpecValue::Integer(v)) => Some(v as i32),
                _ => None,
            },
            _ => None,
        }
    } else {
        None
    }
}

/// The last marked-content id opened by an operator strictly between `a`
/// and `b`.
pub open spec fn last_opened(ops: Seq<ContentOperator>, a: int, b: int) -> Option<i32>
    decreases b - a,
{
    if b <= a + 1 {
        None
    } else if mcid_opened(ops, b - 1) is Some {
        mcid_opened(ops, b - 1)
    } else {
        last_opened(ops, a, b - 1)
    }
}

/// Whether operator `i` ends a marked-content sequence of id `m` whose
/// collected texts are `c`: after the previous end of marked content, `m`
/// is the last id opened, and `c` are texts shown there, in order.
pub open spec fn ends_sequence(ops: Seq<ContentOperator>, i: int, m: i32, c: Seq<Seq<char>>) -> bool {
    &&& 0 <= i < ops.len()
    &&& ops[i] is EndMarkedContent
    &&& exists|a: int|
        -1 <= a < i && #[trigger] no_end_between(ops, a, i) && last_opened(ops, a, i) == Some(m) && drawn_from(
            c,
            ops,
            a,
            i,
        )
}

/// The property under which the text of marked content `mcid` is stored.
pub open spec fn mcid_key(mcid: i32) -> Seq<char> {
    "mcid_"@ + crate::text::signed_decimal(mcid as int) + "_content"@
}

pub struct StructTreeParser<'a> {
    ast: &'a mut PdfAstGraph,
    resolver: &'a ObjectNodeMap,
    mcid_map: Vec<((NodeId, i32), NodeId)>,
    budget: ResourceBudget,
    active_elements: Vec<NodeId>,
}

impl<'a> StructTreeParser<'a> {
    pub closed spec fn graph(&self) -> PdfAstGraph {
        *self.ast
    }

    pub closed spec fn objects(&self) -> ObjectNodeMap {
        *self.resolver
    }

    pub closed spec fn budget_spec(&self) -> ResourceBudget {
        self.budget
    }

    pub closed spec fn mcid_entries(&self) -> Seq<((NodeId, i32), NodeId)> {
        self.mcid_map@
    }

    pub closed spec fn active(&self) -> Seq<NodeId> {
        self.active_elements@
    }

    pub fn new(ast: &'a mut PdfAstGraph, resolver: &'a ObjectNodeMap) -> (r: Self)
        ensures
            r.graph() == *old(ast),
            r.objects() == *resolver,
            r.mcid_entries().len() == 0,
            r.budget_spec().max_depth == 1000,
    {
        let budget = ResourceBudget::default();
        Self::new_with_budget(ast, resolver, &budget)
    }

    pub fn new_with_budget(ast: &'a mut PdfAstGraph, resolver: &'a ObjectNodeMap, budget: &ResourceBudget) -> (r:
        Self)
        ensures
            r.graph() == *old(ast),
            r.objects() == *resolver,
            r.mcid_entries().len() == 0,
            r.active().len() == 0,
            r.budget_spec().max_depth == budget.max_depth,
            r.budget_spec().max_objects == budget.max_objects,
            r.budget_spec().max_nodes == budget.max_nodes,
            r.budget_spec().max_edges == budget.max_edges,
    {
        let b = ResourceBudget {
            max_input_bytes: budget.max_input_bytes,
            max_decoded_bytes_total: budget.max_decoded_bytes_total,
            max_decoded_bytes_per_stream: budget.max_decoded_bytes_per_stream,
            max_decode_ratio: budget.max_decode_ratio,
            max_objects: budget.max_objects,
            max_nodes: budget.max_nodes,
            max_edges: budget.max_edges,
            max_depth: budget.max_depth,
            deadline: budget.deadline,
            cancellation: budget.cancellation.clone(),
            counters: budget.counters.clone(),
        };
        StructTreeParser { ast, resolver, mcid_map: Vec::new(), budget: b, active_elements: Vec::new() }
    }

    /// The value a reference points to: the value of the node that the
    /// object maps to.
    pub open spec fn referenced(&self, r: PdfReference) -> Option<PdfValue> {
        if self.objects().view_map().contains_key(r.spec_id()) {
            match self.graph().node(self.objects().view_map()[r.spec_id()]) {
                Some(n) => Some(n.value),
                None => None,
            }
        } else {
            None
        }
    }

    fn referenced_value(&self, reference: &PdfReference) -> (r: Option<&PdfValue>)
        ensures
            match self.referenced(*reference) {
                Some(v) => r == Some(&v),
                None => r is None,
            },
    {
        let id = reference.id();
        match self.resolver.get_node_id(&id) {
            Some(node_id) => match self.ast.get_node(node_id) {
                Some(node) => Some(&node.value),
                None => None,
            },
            None => None,
        }
    }

    /// A string, directly or through a reference, read as UTF-8.
    fn resolve_string(&self, value: &PdfValue) -> (r: Option<String>)
        ensures
            match value {
                PdfValue::String(s) => r is Some,
                PdfValue::Reference(x) => r is Some <==> (self.referenced(*x) matches Some(v) && v is String),
                _ => r is None,
            },
    {
        match value {
            PdfValue::String(s) => Some(s.to_string_lossy()),
            PdfValue::Reference(reference) => match self.referenced_value(reference) {
                Some(v) => match v.as_string() {
                    Some(s) => Some(s.to_string_lossy()),
                    None => None,
                },
                None => None,
            },
            _ => None,
        }
    }

    /// An array, directly or through a reference.
    fn resolve_array(&self, value: &PdfValue) -> (r: Option<PdfArray>)
        ensures
            match value {
                PdfValue::Array(a) => r matches Some(b) && crate::types::array_sv(&b) == crate::types::array_sv(a),
                PdfValue::Reference(x) => match self.referenced(*x) {
                    Some(PdfValue::Array(a)) => r matches Some(b) && crate::types::array_sv(&b)
                        == crate::types::array_sv(&a),
                    _ => r is None,
                },
                _ => r is None,
            },
    {
        match value {
            PdfValue::Array(a) => Some(crate::types::clone_array(a)),
            PdfValue::Reference(reference) => match self.referenced_value(reference) {
                Some(v) => match v.as_array() {
                    Some(a) => Some(crate::types::clone_array(a)),
                    None => None,
                },
                None => None,
            },
            _ => None,
        }
    }

    /// A dictionary, directly or through a reference (a stream's
    /// dictionary counts too).
    fn resolve_dict(&self, value: &PdfValue) -> (r: Option<PdfDictionary>)
        ensures
            match value {
                PdfValue::Dictionary(d) => r matches Some(e) && e.sv_entries() == d.sv_entries(),
                PdfValue::Reference(x) => match self.referenced(*x) {
                    Some(PdfValue::Dictionary(d)) => r matches Some(e) && e.sv_entries() == d.sv_entries(),
                    Some(PdfValue::Stream(s)) => r matches Some(e) && e.sv_entries() == s.dict.sv_entries(),
                    _ => r is None,
                },
                _ => r is None,
            },
    {
        match value {
            PdfValue::Dictionary(d) => Some(d.clone_dict()),
            PdfValue::Reference(reference) => match self.referenced_value(reference) {
                Some(v) => match v.as_dict() {
                    Some(d) => Some(d.clone_dict()),
                    None => None,
                },
                None => None,
            },
            _ => None,
        }
    }

    /// A name without its `/`, directly or through a reference.
    fn resolve_name(&self, value: &PdfValue) -> (r: Option<String>)
        ensures
            match value {
                PdfValue::Name(n) => r matches Some(s) && s@ == n@.subrange(1, n@.len() as int),
                PdfValue::Reference(x) => match self.referenced(*x) {
                    Some(PdfValue::Name(n)) => r matches Some(s) && s@ == n@.subrange(1, n@.len() as int),
                    _ => r is None,
                },
                _ => r is None,
            },
    {
        match value {
            PdfValue::Name(n) => Some(String::from_str(n.without_slash())),
            PdfValue::Reference(reference) => match self.referenced_value(reference) {
                Some(v) => match v.as_name() {
                    Some(n) => Some(String::from_str(n.without_slash())),
                    None => None,
                },
                None => None,
            },
            _ => None,
        }
    }

    /// Adds a node when the node budget allows; `None` otherwise.
    fn new_node(&mut self, node_type: NodeType, value: PdfValue) -> (r: Option<NodeId>)
        ensures
            r matches Some(id) ==> !old(self).graph().has_node(id),
            r matches Some(id) ==> (final(self).graph().node(id) matches Some(n) && n.node_type == node_type
                && n.value == value && n.metadata.props() == Seq::<(Seq<char>, Seq<char>)>::empty()),
            r is None ==> final(self).graph() == old(self).graph(),
            old(self).graph().next_id_spec() == usize::MAX ==> r is None,
            forall|other: NodeId|
                old(self).graph().has_node(other) ==> #[trigger] final(self).graph().node(other) == old(
                    self,
                ).graph().node(other),
            final(self).objects() == old(self).objects(),
            final(self).budget_spec() == old(self).budget_spec(),
            final(self).mcid_entries() == old(self).mcid_entries(),
            final(self).active() == old(self).active(),
            final(self).graph().edges_spec() == old(self).graph().edges_spec(),
            old(self).step(final(self)),
            old(self).keeps_unmapped(final(self), None),
            old(self).active_in_graph() ==> old(self).keeps_active(final(self)),
    {
        if self.budget.consume_node().is_err() {
            return None;
        }
        let next = self.ast.next_node_id();
        if next.0 == usize::MAX {
            return None;
        }
        let id = self.ast.create_node(node_type, value);
        proof {
            assert forall|x: NodeId| #[trigger] old(self).graph().has_node(x) implies self.graph().has_node(x) by {
                assert(x != id);
                assert(self.graph().node(x) == old(self).graph().node(x));
            }
        }
        Some(id)
    }

    /// Adds an edge when the edge budget allows.
    fn add_edge(&mut self, from: NodeId, to: NodeId, edge_type: EdgeType)
        ensures
            final(self).graph().nodes_spec() == old(self).graph().nodes_spec(),
            forall|x: NodeId| #[trigger] final(self).graph().node(x) == old(self).graph().node(x),
            old(self).step(final(self)),
            final(self).graph().edges_spec() == old(self).graph().edges_spec() || (final(self).graph().edges_spec()
                == old(self).graph().edges_spec().push(crate::ast::AstEdge { from, to, edge_type })
                && old(self).graph().has_node(from) && old(self).graph().has_node(to)),
            final(self).graph().next_id_spec() == old(self).graph().next_id_spec(),
            final(self).objects() == old(self).objects(),
            final(self).budget_spec() == old(self).budget_spec(),
            final(self).mcid_entries() == old(self).mcid_entries(),
            final(self).active() == old(self).active(),
    {
        if self.budget.consume_edge().is_ok() {
            self.ast.add_edge(from, to, edge_type);
        }
    }
}

impl<'a> StructTreeParser<'a> {
    /// The name that a role-map value resolves to, without its `/`.
    pub open spec fn spec_resolve_name(&self, v: SpecValue) -> Option<Seq<char>> {
        match v {
            SpecValue::Name(n) => Some(n.subrange(1, n.len() as int)),
            SpecValue::Reference(num, generation) => match self.referenced(
                PdfReference { object_number: num, generation_number: generation },
            ) {
                Some(PdfValue::Name(n)) => Some(n@.subrange(1, n@.len() as int)),
                _ => None,
            },
            _ => None,
        }
    }

    /// The role-map pairs: each key with the name its value resolves to,
    /// in order, leaving out values that resolve to no name.
    pub open spec fn role_entries(&self, e: Seq<(Seq<char>, SpecValue)>) -> Seq<(Seq<char>, Seq<char>)>
        decreases e.len(),
    {
        if e.len() == 0 {
            Seq::empty()
        } else {
            let rest = self.role_entries(e.drop_last());
            match self.spec_resolve_name(e.last().1) {
                Some(n) => rest.push((e.last().0, n)),
                None => rest,
            }
        }
    }

    proof fn lemma_role_keys(&self, e: Seq<(Seq<char>, SpecValue)>, j: int)
        requires
            0 <= j < self.role_entries(e).len(),
        ensures
            exists|i: int| 0 <= i < e.len() && e[i].0 == #[trigger] self.role_entries(e)[j].0,
        decreases e.len(),
    {
        let rest = self.role_entries(e.drop_last());
        if j < rest.len() {
            self.lemma_role_keys(e.drop_last(), j);
            let i = choose|i: int| 0 <= i < e.drop_last().len() && e.drop_last()[i].0 == rest[j].0;
            assert(e[i].0 == self.role_entries(e)[j].0);
        } else {
            assert(e[e.len() - 1].0 == self.role_entries(e)[j].0);
        }
    }

    /// The role map: for each entry of `/RoleMap` (a dictionary, or a
    /// reference to one), its key with the name its value resolves to.
    fn parse_role_map(&self, dict: &PdfDictionary) -> (r: TextMap<String>)
        ensures
            dict.spec_get("RoleMap"@) is None ==> r.entries_spec().len() == 0,
            forall|e: Seq<(Seq<char>, SpecValue)>|
                #![trigger self.role_entries(e)]
                self.role_map_source(dict) == Some(e) ==> roles_match(r.entries_spec(), self.role_entries(e)),
    {
        let mut role_map: TextMap<String> = TextMap::new();
        let rm_value = match dict.get("RoleMap") {
            Some(v) => v,
            None => return role_map,
        };
        proof {
            lemma_value_view(rm_value);
        }
        let rm = match self.resolve_dict(rm_value) {
            Some(d) => d,
            None => return role_map,
        };
        proof {
            use_type_invariant(&rm);
        }
        let entries = rm.entries();
        let ghost big_e = rm.sv_entries();
        let mut i: usize = 0;
        while i < entries.len()
            invariant
                i <= entries@.len(),
                crate::types::entries_sv(entries@) == big_e,
                crate::types::keys_unique(big_e),
                roles_match(role_map.entries_spec(), self.role_entries(big_e.take(i as int))),
            decreases entries@.len() - i,
        {
            proof {
                lemma_value_view(&entries@[i as int].1);
                assert(big_e.take(i + 1).drop_last() =~= big_e.take(i as int));
                assert(big_e[i as int] == (entries@[i as int].0@, entries@[i as int].1.sv()));
            }
            match self.resolve_name(&entries[i].1) {
                Some(mapped) => {
                    let key = entries[i].0.to_string();
                    proof {
                        let rs = role_map.entries_spec();
                        assert forall|j: int| 0 <= j < rs.len() implies rs[j].0 != key@ by {
                            self.lemma_role_keys(big_e.take(i as int), j);
                            let m = choose|m: int|
                                0 <= m < big_e.take(i as int).len() && big_e.take(i as int)[m].0
                                    == self.role_entries(big_e.take(i as int))[j].0;
                            assert(big_e[m].0 != big_e[i as int].0);
                        }
                        crate::types::lemma_dict_absent(rs, key@, mapped);
                    }
                    role_map.insert(key, mapped);
                },
                None => {},
            }
            i = i + 1;
        }
        proof {
            assert(big_e.take(i as int) =~= big_e);
        }
        role_map
    }

    /// The role-map dictionary's entries, when `/RoleMap` resolves to one.
    pub open spec fn role_map_source(&self, dict: &PdfDictionary) -> Option<Seq<(Seq<char>, SpecValue)>> {
        match dict.spec_get("RoleMap"@) {
            Some(SpecValue::Dictionary(e)) => Some(e),
            Some(SpecValue::Reference(num, generation)) => match self.referenced(
                PdfReference { object_number: num, generation_number: generation },
            ) {
                Some(PdfValue::Dictionary(d)) => Some(d.sv_entries()),
                Some(PdfValue::Stream(s)) => Some(s.dict.sv_entries()),
                _ => None,
            },
            _ => None,
        }
    }
}

/// Every node of `a` is still in `b`, and `b` hands out no smaller ids.
pub open spec fn graph_grows(a: PdfAstGraph, b: PdfAstGraph) -> bool {
    &&& forall|id: NodeId| #[trigger] a.has_node(id) ==> b.has_node(id)
    &&& b.next_id_spec() >= a.next_id_spec()
}

impl<'a> StructTreeParser<'a> {
    /// What every parsing step keeps: the object map and the budget, and
    /// the graph only grows.
    pub open spec fn step(&self, next: &Self) -> bool {
        &&& graph_grows(self.graph(), next.graph())
        &&& next.objects() == self.objects()
        &&& next.budget_spec() == self.budget_spec()
        &&& next.active() == self.active()
    }

    fn set_type(&mut self, id: NodeId, node_type: NodeType)
        ensures
            old(self).step(final(self)),
            final(self).mcid_entries() == old(self).mcid_entries(),
            forall|x: NodeId| x != id ==> #[trigger] final(self).graph().node(x) == old(self).graph().node(x),
            old(self).graph().node(id) matches Some(o) ==> (final(self).graph().node(id) matches Some(n)
                && n.node_type == node_type && n.value == o.value && n.metadata == o.metadata),
            final(self).graph().edges_spec() == old(self).graph().edges_spec(),
    {
        self.ast.set_node_type(id, node_type);
        proof {
            assert forall|x: NodeId| #[trigger] old(self).graph().has_node(x) implies self.graph().has_node(x) by {
                if x != id {
                    assert(self.graph().node(x) == old(self).graph().node(x));
                }
            }
        }
    }

    fn set_property(&mut self, id: NodeId, key: String, value: String)
        ensures
            old(self).step(final(self)),
            final(self).mcid_entries() == old(self).mcid_entries(),
            forall|x: NodeId| x != id ==> #[trigger] final(self).graph().node(x) == old(self).graph().node(x),
            old(self).graph().node(id) matches Some(o) ==> (final(self).graph().node(id) matches Some(n)
                && n.node_type == o.node_type && n.value == o.value && n.metadata.props()
                == crate::types::spec_dict_insert(o.metadata.props(), key@, value@)),
            final(self).graph().edges_spec() == old(self).graph().edges_spec(),
    {
        self.ast.set_node_property(id, key, value);
        proof {
            assert forall|x: NodeId| #[trigger] old(self).graph().has_node(x) implies self.graph().has_node(x) by {
                if x != id {
                    assert(self.graph().node(x) == old(self).graph().node(x));
                }
            }
        }
    }

    /// The class map: each `/ClassMap` entry that refers to a mapped object
    /// gives that object's node; an inline dictionary gets a node of its own
    /// (while the node budget allows).
    fn parse_class_map(&mut self, dict: &PdfDictionary) -> (r: TextMap<NodeId>)
        ensures
            forall|x: NodeId|
                old(self).graph().has_node(x) ==> #[trigger] final(self).graph().node(x) == old(self).graph().node(x),
            old(self).step(final(self)),
            final(self).mcid_entries() == old(self).mcid_entries(),
            dict.spec_get("ClassMap"@) is None ==> r.entries_spec().len() == 0,
            forall|k: Seq<char>|
                #[trigger] r.spec_get(k) matches Some(n) ==> final(self).objects().view_map().contains_value(n)
                    || final(self).graph().has_node(n),
    {
        let mut class_map: TextMap<NodeId> = TextMap::new();
        let cm_value = match dict.get("ClassMap") {
            Some(v) => v,
            None => return class_map,
        };
        let cm = match self.resolve_dict(cm_value) {
            Some(d) => d,
            None => return class_map,
        };
        let entries = cm.entries();
        let mut i: usize = 0;
        while i < entries.len()
            invariant
                i <= entries@.len(),
                old(self).step(self),
                self.mcid_entries() == old(self).mcid_entries(),
                forall|x: NodeId|
                    old(self).graph().has_node(x) ==> #[trigger] self.graph().node(x) == old(self).graph().node(x),
                forall|k: Seq<char>|
                    #[trigger] class_map.spec_get(k) matches Some(n) ==> self.objects().view_map().contains_value(n)
                        || self.graph().has_node(n),
            decreases entries@.len() - i,
        {
            match &entries[i].1 {
                PdfValue::Reference(obj) => {
                    let id = obj.id();
                    match self.resolver.get_node_id(&id) {
                        Some(node_id) => {
                            proof {
                                assert(self.objects().view_map().contains_key(id));
                                assert(self.objects().view_map()[id] == node_id);
                            }
                            class_map.insert(entries[i].0.to_string(), node_id);
                        },
                        None => {},
                    }
                },
                PdfValue::Dictionary(d) => {
                    let value = PdfValue::Dictionary(d.clone_dict());
                    let ghost before = *self;
                    match self.new_node(NodeType::Unknown, value) {
                        Some(class_id) => {
                            class_map.insert(entries[i].0.to_string(), class_id);
                        },
                        None => {},
                    }
                },
                _ => {},
            }
            i = i + 1;
        }
        class_map
    }

    /// The parent tree of `/ParentTree`, a dictionary or a reference to
    /// one; `None` when there is none.
    fn parse_parent_tree(&mut self, dict: &PdfDictionary) -> (r: Option<ParentTree>)
        ensures
            final(self).graph() == old(self).graph(),
            old(self).step(final(self)),
            final(self).mcid_entries() == old(self).mcid_entries(),
            !(dict.spec_get("ParentTree"@) matches Some(v) && (v is Dictionary || v is Reference)) ==> r is None,
            dict.spec_get("ParentTree"@) matches Some(v) && v is Dictionary ==> r is Some,
    {
        let value = match dict.get("ParentTree") {
            Some(v) => v,
            None => return None,
        };
        proof {
            lemma_value_view(value);
        }
        let tree_dict = match value {
            PdfValue::Dictionary(d) => d.clone_dict(),
            PdfValue::Reference(reference) => match self.referenced_value(reference) {
                Some(PdfValue::Dictionary(d)) => d.clone_dict(),
                _ => return None,
            },
            _ => return None,
        };
        Some(self.parse_complete_parent_tree(&tree_dict))
    }

    fn parse_complete_parent_tree(&mut self, tree_dict: &PdfDictionary) -> (r: ParentTree)
        ensures
            final(self).graph() == old(self).graph(),
            old(self).step(final(self)),
            final(self).mcid_entries() == old(self).mcid_entries(),
    {
        let mut parent_tree = ParentTree::new();
        match tree_dict.get("Nums") {
            Some(v) => match self.resolve_array(v) {
                Some(nums) => self.parse_parent_tree_nums(&nums, &mut parent_tree),
                None => {},
            },
            None => {},
        }
        match tree_dict.get("Kids") {
            Some(v) => match self.resolve_array(v) {
                Some(kids) => {
                    let mut i: usize = 0;
                    while i < kids.len()
                        invariant
                            i <= kids@.len(),
                            old(self).step(self),
                            self.mcid_entries() == old(self).mcid_entries(),
                            self.graph() == old(self).graph(),
                        decreases kids@.len() - i,
                    {
                        match &kids[i] {
                            PdfValue::Reference(obj) => {
                                let id = obj.id();
                                self.parse_parent_tree_intermediate(&id, &mut parent_tree);
                            },
                            PdfValue::Dictionary(kid_dict) => {
                                self.parse_parent_tree_intermediate_dict(kid_dict, &mut parent_tree);
                            },
                            _ => {},
                        }
                        i = i + 1;
                    }
                },
                None => {},
            },
            None => {},
        }
        match tree_dict.get("Limits") {
            Some(v) => match self.resolve_array(v) {
                Some(limits) => {
                    if limits.len() >= 2 {
                        match (&limits[0], &limits[1]) {
                            (PdfValue::Integer(min), PdfValue::Integer(max)) => {
                                parent_tree.set_limits(*min, *max);
                            },
                            _ => {},
                        }
                    }
                },
                None => {},
            },
            None => {},
        }
        parent_tree
    }

    /// Reads `/Nums`: keys and values alternate; a value is a reference to
    /// one parent, or an array of references to several.
    fn parse_parent_tree_nums(&self, nums: &PdfArray, parent_tree: &mut ParentTree)
        ensures
            final(parent_tree).limits_spec() == old(parent_tree).limits_spec(),
            forall|k: u32|
                #[trigger] final(parent_tree).spec_entry(k) != old(parent_tree).spec_entry(k) ==> exists|i: int|
                    #![trigger nums@[i]]
                    0 <= i && i + 1 < nums@.len() && (nums@[i] matches PdfValue::Integer(n) && n as u32 == k),
    {
        let mut i: usize = 0;
        while i < nums.len() && nums.len() - i >= 2
            invariant
                i <= nums@.len(),
                parent_tree.limits_spec() == old(parent_tree).limits_spec(),
                forall|k: u32|
                    #[trigger] parent_tree.spec_entry(k) != old(parent_tree).spec_entry(k) ==> exists|j: int|
                        #![trigger nums@[j]]
                        0 <= j && j + 1 < nums@.len() && (nums@[j] matches PdfValue::Integer(n) && n as u32 == k),
            decreases nums@.len() - i,
        {
            match (&nums[i], &nums[i + 1]) {
                (PdfValue::Integer(page_obj_num), parent_value) => {
                    let key = *page_obj_num as u32;
                    match parent_value {
                        PdfValue::Reference(parent_ref) => {
                            let id = parent_ref.id();
                            match self.resolver.get_node_id(&id) {
                                Some(parent_node_id) => {
                                    parent_tree.add_parent_entry(key, ParentTreeEntry::Single(parent_node_id));
                                },
                                None => {},
                            }
                        },
                        PdfValue::Array(parent_array) => {
                            let mut parents: Vec<NodeId> = Vec::new();
                            let mut j: usize = 0;
                            while j < parent_array.len()
                                invariant
                                    j <= parent_array@.len(),
                                decreases parent_array@.len() - j,
                            {
                                match &parent_array[j] {
                                    PdfValue::Reference(r) => {
                                        let id = r.id();
                                        match self.resolver.get_node_id(&id) {
                                            Some(node_id) => parents.push(node_id),
                                            None => {},
                                        }
                                    },
                                    _ => {},
                                }
                                j = j + 1;
                            }
                            if parents.len() > 0 {
                                parent_tree.add_parent_entry(key, ParentTreeEntry::Multiple(parents));
                            }
                        },
                        _ => {},
                    }
                },
                _ => {},
            }
            i = i + 2;
        }
    }

    fn parse_parent_tree_intermediate(&mut self, obj_id: &ObjectId, parent_tree: &mut ParentTree)
        ensures
            final(self).graph() == old(self).graph(),
            old(self).step(final(self)),
            final(self).mcid_entries() == old(self).mcid_entries(),
            final(parent_tree).limits_spec() == old(parent_tree).limits_spec(),
    {
        match self.resolver.get_node_id(obj_id) {
            Some(node_id) => match self.ast.get_node(node_id) {
                Some(node) => match &node.value {
                    PdfValue::Dictionary(dict) => {
                        let d = dict.clone_dict();
                        self.parse_parent_tree_intermediate_dict(&d, parent_tree);
                    },
                    _ => {},
                },
                None => {},
            },
            None => {},
        }
    }

    fn parse_parent_tree_intermediate_dict(&mut self, dict: &PdfDictionary, parent_tree: &mut ParentTree)
        ensures
            final(self).graph() == old(self).graph(),
            old(self).step(final(self)),
            final(self).mcid_entries() == old(self).mcid_entries(),
            final(parent_tree).limits_spec() == old(parent_tree).limits_spec(),
    {
        match dict.get("Nums") {
            Some(v) => match self.resolve_array(v) {
                Some(nums) => self.parse_parent_tree_nums(&nums, parent_tree),
                None => {},
            },
            None => {},
        }
    }

    fn parse_id_tree(&mut self, dict: &PdfDictionary) -> (r: Option<NameTreeNode>)
        ensures
            final(self).graph() == old(self).graph(),
            r is None,
            old(self).step(final(self)),
    {
        None
    }
}


/// Whether `t` is one of the standard structure types.
pub open spec fn is_standard_tag(t: Seq<char>) -> bool {
    ||| t == "Document"@ ||| t == "Part"@ ||| t == "Art"@ ||| t == "Sect"@ ||| t == "Div"@
    ||| t == "BlockQuote"@ ||| t == "Caption"@ ||| t == "TOC"@ ||| t == "TOCI"@ ||| t == "Index"@
    ||| t == "NonStruct"@ ||| t == "Private"@ ||| t == "P"@ ||| t == "H"@ ||| t == "H1"@ ||| t == "H2"@
    ||| t == "H3"@ ||| t == "H4"@ ||| t == "H5"@ ||| t == "H6"@ ||| t == "L"@ ||| t == "LI"@ ||| t == "Lbl"@
    ||| t == "LBody"@ ||| t == "Table"@ ||| t == "TR"@ ||| t == "TH"@ ||| t == "TD"@ ||| t == "THead"@
    ||| t == "TBody"@ ||| t == "TFoot"@ ||| t == "Span"@ ||| t == "Quote"@ ||| t == "Note"@
    ||| t == "Reference"@ ||| t == "BibEntry"@ ||| t == "Code"@ ||| t == "Link"@ ||| t == "Annot"@
    ||| t == "Ruby"@ ||| t == "Warichu"@ ||| t == "WT"@ ||| t == "WP"@ ||| t == "Figure"@ ||| t == "Formula"@
    ||| t == "Form"@
}

/// Whether a property key names the collected text of one marked-content
/// sequence: `mcid_` ... `_content`.
pub open spec fn is_mcid_text_key(k: Seq<char>) -> bool {
    crate::text::seq_starts_with(k, "mcid_"@) && crate::text::seq_ends_with(k, "_content"@)
}

/// The values of the marked-content text properties, in property order.
pub open spec fn mcid_texts(p: Seq<(Seq<char>, Seq<char>)>) -> Seq<Seq<char>>
    decreases p.len(),
{
    if p.len() == 0 {
        Seq::empty()
    } else if is_mcid_text_key(p.last().0) {
        mcid_texts(p.drop_last()).push(p.last().1)
    } else {
        mcid_texts(p.drop_last())
    }
}

/// The text of a node's properties: its marked-content texts, then its
/// actual text when it has one.
pub open spec fn node_texts(m: crate::ast::NodeMetadata) -> Seq<Seq<char>> {
    mcid_texts(m.props()) + match m.spec_property("actual_text"@) {
        Some(a) => seq![a],
        None => Seq::empty(),
    }
}

impl<'a> StructTreeParser<'a> {
    /// Every object of the map points at a node of the graph.
    pub open spec fn resolves_within(&self) -> bool {
        forall|o: ObjectId|
            #[trigger] self.objects().view_map().contains_key(o) ==> self.graph().has_node(
                self.objects().view_map()[o],
            )
    }

    /// Every element on the path being parsed is a node of the graph.
    pub open spec fn active_in_graph(&self) -> bool {
        forall|i: int| 0 <= i < self.active().len() ==> self.graph().has_node(#[trigger] self.active()[i])
    }

    /// The nodes on the path being parsed are as they were.
    pub open spec fn keeps_active(&self, next: &Self) -> bool {
        forall|i: int|
            0 <= i < self.active().len() ==> #[trigger] next.graph().node(self.active()[i]) == self.graph().node(
                self.active()[i],
            )
    }

    /// Nodes that no object points to are as they were, but for `except`.
    pub open spec fn keeps_unmapped(&self, next: &Self, except: Option<NodeId>) -> bool {
        forall|id: NodeId|
            #![trigger next.graph().node(id)]
            self.graph().has_node(id) && !self.objects().view_map().contains_value(id) && except != Some(id)
                ==> next.graph().node(id) == self.graph().node(id)
    }

    /// A dictionary node reached below the depth limit, and not on the path
    /// being parsed, becomes a structure element with its value kept.
    pub open spec fn marks_element(&self, next: &Self, elem_id: NodeId, depth: usize) -> bool {
        match self.graph().node(elem_id) {
            Some(o) => (self.active_in_graph() && depth < self.budget_spec().max_depth && !self.active().contains(
                elem_id,
            ) && (o.value is Dictionary || o.value is Stream)) ==> (next.graph().node(elem_id) matches Some(n)
                && n.node_type == NodeType::StructElem && n.value == o.value),
            None => true,
        }
    }

    /// The structure element that marked content `mcid` of a page belongs to.
    pub open spec fn spec_mcid(&self, page_id: NodeId, mcid: i32) -> Option<NodeId> {
        crate::types::spec_dict_get(self.mcid_entries(), (page_id, mcid))
    }

    fn mcid_position(&self, key: (NodeId, i32)) -> (r: Option<usize>)
        ensures
            r matches Some(i) ==> i < self.mcid_entries().len() && self.mcid_entries()[i as int].0 == key
                && forall|j: int| 0 <= j < i ==> self.mcid_entries()[j].0 != key,
            r is None ==> forall|j: int| 0 <= j < self.mcid_entries().len() ==> self.mcid_entries()[j].0 != key,
    {
        let mut i: usize = 0;
        while i < self.mcid_map.len()
            invariant
                i <= self.mcid_map@.len(),
                forall|j: int| 0 <= j < i ==> self.mcid_map@[j].0 != key,
            decreases self.mcid_map@.len() - i,
        {
            let k = self.mcid_map[i].0;
            if k.0 == key.0 && k.1 == key.1 {
                return Some(i);
            }
            i = i + 1;
        }
        None
    }

    fn mcid_insert(&mut self, key: (NodeId, i32), value: NodeId)
        ensures
            final(self).mcid_entries() == crate::types::spec_dict_insert(old(self).mcid_entries(), key, value),
            old(self).step(final(self)),
            final(self).graph() == old(self).graph(),
    {
        match self.mcid_position(key) {
            Some(i) => {
                proof {
                    crate::types::lemma_dict_insert_at(self.mcid_map@, key, value, i as int);
                }
                self.mcid_map.set(i, (key, value));
            },
            None => {
                proof {
                    assert forall|j: int| 0 <= j < self.mcid_map@.len() implies self.mcid_map@[j].0 != key by {
                        assert(self.mcid_entries()[j] == self.mcid_map@[j]);
                    }
                    crate::types::lemma_dict_absent(self.mcid_map@, key, value);
                }
                self.mcid_map.push((key, value));
            },
        }
    }

    /// The structure element that marked content `mcid` of page `page_id`
    /// was linked to.
    pub fn get_structure_for_mcid(&self, page_id: NodeId, mcid: i32) -> (r: Option<NodeId>)
        ensures
            r == self.spec_mcid(page_id, mcid),
    {
        match self.mcid_position((page_id, mcid)) {
            Some(i) => {
                proof {
                    crate::types::lemma_dict_get_first(self.mcid_map@, (page_id, mcid), i as int);
                }
                Some(self.mcid_map[i].1)
            },
            None => {
                proof {
                    crate::types::lemma_dict_absent(self.mcid_map@, (page_id, mcid), page_id);
                }
                None
            },
        }
    }

    /// Whether `tag` is a standard structure type.
    fn is_structure_tag(&self, tag: &str) -> (r: bool)
        ensures
            r == is_standard_tag(tag@),
    {
        str_equal(tag, "Document") || str_equal(tag, "Part") || str_equal(tag, "Art") || str_equal(tag, "Sect")
            || str_equal(tag, "Div") || str_equal(tag, "BlockQuote") || str_equal(tag, "Caption") || str_equal(
            tag,
            "TOC",
        ) || str_equal(tag, "TOCI") || str_equal(tag, "Index") || str_equal(tag, "NonStruct") || str_equal(
            tag,
            "Private",
        ) || str_equal(tag, "P") || str_equal(tag, "H") || str_equal(tag, "H1") || str_equal(tag, "H2")
            || str_equal(tag, "H3") || str_equal(tag, "H4") || str_equal(tag, "H5") || str_equal(tag, "H6")
            || str_equal(tag, "L") || str_equal(tag, "LI") || str_equal(tag, "Lbl") || str_equal(tag, "LBody")
            || str_equal(tag, "Table") || str_equal(tag, "TR") || str_equal(tag, "TH") || str_equal(tag, "TD")
            || str_equal(tag, "THead") || str_equal(tag, "TBody") || str_equal(tag, "TFoot") || str_equal(
            tag,
            "Span",
        ) || str_equal(tag, "Quote") || str_equal(tag, "Note") || str_equal(tag, "Reference") || str_equal(
            tag,
            "BibEntry",
        ) || str_equal(tag, "Code") || str_equal(tag, "Link") || str_equal(tag, "Annot") || str_equal(
            tag,
            "Ruby",
        ) || str_equal(tag, "Warichu") || str_equal(tag, "WT") || str_equal(tag, "WP") || str_equal(
            tag,
            "Figure",
        ) || str_equal(tag, "Formula") || str_equal(tag, "Form")
    }
}


impl<'a> StructTreeParser<'a> {
    /// A node for marked content `mcid` under `parent_id`, while the budget
    /// allows.
    fn create_mcr_node(&mut self, mcid: i32, parent_id: NodeId)
        ensures
            old(self).step(final(self)),
            final(self).mcid_entries() == old(self).mcid_entries(),
            forall|x: NodeId|
                old(self).graph().has_node(x) ==> #[trigger] final(self).graph().node(x) == old(self).graph().node(x),
            final(self).graph() == old(self).graph() || exists|id: NodeId|
                !old(self).graph().has_node(id) && (#[trigger] final(self).graph().node(id) matches Some(n)
                    && n.node_type == NodeType::Unknown && n.value == PdfValue::Integer(mcid as i64)
                    && n.metadata.props() == crate::types::spec_dict_insert(
                    crate::types::spec_dict_insert(Seq::<(Seq<char>, Seq<char>)>::empty(), "mcr_type"@, "MCID"@),
                    "mcid"@,
                    crate::text::signed_decimal(mcid as int),
                )) && (final(self).graph().edges_spec() == old(self).graph().edges_spec()
                    || final(self).graph().edges_spec() == old(self).graph().edges_spec().push(
                    crate::ast::AstEdge { from: parent_id, to: id, edge_type: EdgeType::Child },
                )),
    {
        let created = self.new_node(NodeType::Unknown, PdfValue::Integer(mcid as i64));
        match created {
            Some(mcr_id) => {
                let ghost m1 = *self;
                self.set_property(mcr_id, String::from_str("mcr_type"), String::from_str("MCID"));
                let ghost m2 = *self;
                self.set_property(mcr_id, String::from_str("mcid"), i64_text(mcid as i64));
                let ghost m3 = *self;
                self.add_edge(parent_id, mcr_id, EdgeType::Child);
                proof {
                    reveal_strlit("mcr_type");
                    reveal_strlit("MCID");
                    reveal_strlit("mcid");
                    assert(self.graph().node(mcr_id) == m3.graph().node(mcr_id));
                    assert forall|x: NodeId| old(self).graph().has_node(x) implies #[trigger] self.graph().node(x)
                        == old(self).graph().node(x) by {
                        assert(x != mcr_id);
                        assert(m1.graph().node(x) == old(self).graph().node(x));
                        assert(m2.graph().node(x) == m1.graph().node(x));
                        assert(m3.graph().node(x) == m2.graph().node(x));
                        assert(self.graph().node(x) == m3.graph().node(x));
                    }
                    assert forall|x: NodeId| #[trigger] old(self).graph().has_node(x) implies self.graph().has_node(x) by {
                        assert(x != mcr_id);
                    }
                }
            },
            None => {},
        }
    }

    /// A marked-content reference (`/Type /MCR`, the default) or an object
    /// reference (`/Type /OBJR`) among an element's kids.
    fn parse_content_reference(&mut self, mcr_dict: &PdfDictionary, parent_id: NodeId)
        ensures
            old(self).step(final(self)),
            forall|x: NodeId|
                old(self).graph().has_node(x) ==> #[trigger] final(self).graph().node(x) == old(self).graph().node(x),
    {
        let is_mcr = match mcr_dict.get("Type") {
            Some(PdfValue::Name(n)) => str_equal(n.without_slash(), "MCR"),
            _ => true,
        };
        let is_objr = match mcr_dict.get("Type") {
            Some(PdfValue::Name(n)) => str_equal(n.without_slash(), "OBJR"),
            _ => false,
        };
        if is_mcr {
            match mcr_dict.get("MCID") {
                Some(PdfValue::Integer(mcid)) => self.create_mcr_node(*mcid as i32, parent_id),
                _ => {},
            }
        } else if is_objr {
            match mcr_dict.get("Obj") {
                Some(PdfValue::Reference(obj_ref)) => {
                    let id = obj_ref.id();
                    match self.resolver.get_node_id(&id) {
                        Some(obj_node) => self.add_edge(parent_id, obj_node, EdgeType::Reference),
                        None => {},
                    }
                },
                _ => {},
            }
        }
        match mcr_dict.get("Pg") {
            Some(PdfValue::Reference(page_ref)) => {
                let id = page_ref.id();
                match self.resolver.get_node_id(&id) {
                    Some(page_id) => match mcr_dict.get("MCID") {
                        Some(PdfValue::Integer(mcid)) => self.mcid_insert((page_id, *mcid as i32), parent_id),
                        _ => {},
                    },
                    None => {},
                }
            },
            _ => {},
        }
    }

    /// The kids (`/K`) of a structure element or of the root: a reference
    /// to an element, an array of element references, marked-content ids and
    /// content references, or an inline element dictionary.
    fn parse_struct_elements_at_depth(&mut self, dict: &PdfDictionary, parent_id: NodeId, depth: usize)
        ensures
            old(self).step(final(self)),
            old(self).keeps_unmapped(final(self), None),
            old(self).active_in_graph() ==> old(self).keeps_active(final(self)),
        decreases old(self).budget_spec().max_depth - depth, 0int,
    {
        if depth >= self.budget.max_depth {
            return ;
        }
        match dict.get("K") {
            Some(PdfValue::Reference(obj)) => {
                let id = obj.id();
                match self.resolver.get_node_id(&id) {
                    Some(elem_id) => {
                        proof {
                            assert(self.objects().view_map().contains_value(elem_id));
                        }
                        self.parse_struct_elem(elem_id, parent_id, depth + 1);
                    },
                    None => {},
                }
            },
            Some(PdfValue::Array(kids)) => {
                let mut i: usize = 0;
                while i < kids.len()
                    invariant
                        i <= kids@.len(),
                        depth < old(self).budget_spec().max_depth,
                        old(self).step(self),
                        old(self).keeps_unmapped(self, None),
                        old(self).active_in_graph() ==> old(self).keeps_active(self),
                    decreases kids@.len() - i,
                {
                    let ghost before = *self;
                    let ghost mut except: Option<NodeId> = None;
                    match &kids[i] {
                        PdfValue::Reference(obj) => {
                            let id = obj.id();
                            match self.resolver.get_node_id(&id) {
                                Some(elem_id) => {
                                    proof {
                                        assert(self.objects().view_map().contains_value(elem_id));
                                        except = Some(elem_id);
                                    }
                                    self.parse_struct_elem(elem_id, parent_id, depth + 1);
                                },
                                None => {},
                            }
                        },
                        PdfValue::Integer(mcid) => self.create_mcr_node(*mcid as i32, parent_id),
                        PdfValue::Dictionary(mcr_dict) => self.parse_content_reference(mcr_dict, parent_id),
                        _ => {},
                    }
                    proof {
                        lemma_frames_compose(old(self), &before, self, except);
                    }
                    i = i + 1;
                }
            },
            Some(PdfValue::Dictionary(elem_dict)) => {
                let value = PdfValue::Dictionary(elem_dict.clone_dict());
                match self.new_node(NodeType::StructElem, value) {
                    Some(elem_id) => {
                        self.add_edge(parent_id, elem_id, EdgeType::Child);
                        let ghost before = *self;
                        self.parse_struct_elem(elem_id, parent_id, depth + 1);
                        proof {
                            lemma_frames_compose(old(self), &before, self, Some(elem_id));
                        }
                    },
                    None => {},
                }
            },
            _ => {},
        }
    }

    /// One structure element: its type, language, alternative and actual
    /// text, page, and kids. An element already on the path being parsed is
    /// skipped, so cyclic kids end.
    fn parse_struct_elem(&mut self, elem_id: NodeId, parent_id: NodeId, depth: usize)
        ensures
            old(self).step(final(self)),
            old(self).keeps_unmapped(final(self), Some(elem_id)),
            old(self).active_in_graph() ==> old(self).keeps_active(final(self)),
            old(self).marks_element(final(self), elem_id, depth),
        decreases old(self).budget_spec().max_depth - depth, 1int,
    {
        if depth >= self.budget.max_depth || contains_node_id(&self.active_elements, elem_id) {
            return ;
        }
        if !self.ast.contains_node(elem_id) {
            self.add_edge(parent_id, elem_id, EdgeType::Child);
            return ;
        }
        self.active_elements.push(elem_id);
        let ghost pushed = *self;
        self.set_type(elem_id, NodeType::StructElem);
        self.add_edge(parent_id, elem_id, EdgeType::Child);
        let elem_dict = match self.ast.get_node(elem_id) {
            Some(node) => match node.as_dict() {
                Some(d) => d.clone_dict(),
                None => {
                    self.active_elements.pop();
                    proof {
                        assert(self.active() =~= old(self).active());
                    }
                    return ;
                },
            },
            None => {
                self.active_elements.pop();
                return ;
            },
        };
        match elem_dict.get("S") {
            Some(PdfValue::Name(s_type)) => {
                self.set_property(elem_id, String::from_str("struct_type"), String::from_str(s_type.without_slash()));
            },
            _ => {},
        }
        match elem_dict.get("Lang") {
            Some(v) => match self.resolve_string(v) {
                Some(lang) => self.set_property(elem_id, String::from_str("language"), lang),
                None => {},
            },
            None => {},
        }
        match elem_dict.get("Alt") {
            Some(v) => match self.resolve_string(v) {
                Some(alt) => self.set_property(elem_id, String::from_str("alt_text"), alt),
                None => {},
            },
            None => {},
        }
        match elem_dict.get("ActualText") {
            Some(v) => match self.resolve_string(v) {
                Some(actual) => self.set_property(elem_id, String::from_str("actual_text"), actual),
                None => {},
            },
            None => {},
        }
        match elem_dict.get("Pg") {
            Some(PdfValue::Reference(page_ref)) => {
                let id = page_ref.id();
                match self.resolver.get_node_id(&id) {
                    Some(page_id) => self.add_edge(elem_id, page_id, EdgeType::Reference),
                    None => {},
                }
            },
            _ => {},
        }
        let ghost before_kids = *self;
        self.parse_struct_elements_at_depth(&elem_dict, elem_id, depth);
        self.active_elements.pop();
        proof {
            assert(self.active() =~= old(self).active());
        }
    }
}

impl<'a> StructTreeParser<'a> {
    /// Parses the structure tree root: a node for the root, the role map,
    /// the class map, the parent tree and the kids. `None` when the node
    /// budget refuses the root or there is no parent tree; when
    /// `/ParentTree` is a dictionary, a refusal of the root is the only way
    /// to `None`, and it leaves the graph as it was.
    pub fn parse_struct_tree_root(&mut self, root_dict: &PdfDictionary) -> (r: Option<StructureTree>)
        ensures
            old(self).step(final(self)),
            !(root_dict.spec_get("ParentTree"@) matches Some(v) && (v is Dictionary || v is Reference)) ==> r is None,
            r matches Some(t) ==> t.root.0 == old(self).graph().next_id_spec() && !old(self).graph().has_node(t.root)
                && final(self).graph().has_node(t.root),
            r matches Some(t) ==> (old(self).resolves_within() ==> (final(self).graph().node(t.root) matches Some(n)
                && n.node_type == NodeType::StructTreeRoot && n.value is Dictionary)),
            r matches Some(t) ==> (old(self).resolves_within() ==> forall|e: Seq<(Seq<char>, SpecValue)>|
                #![trigger old(self).role_entries(e)]
                old(self).role_map_source(root_dict) == Some(e) ==> roles_match(
                    t.role_map.entries_spec(),
                    old(self).role_entries(e),
                )),
            r matches Some(t) ==> forall|k: Seq<char>|
                #[trigger] t.class_map.spec_get(k) matches Some(n) ==> final(self).objects().view_map().contains_value(n)
                    || final(self).graph().has_node(n),
            r matches Some(t) ==> t.id_tree is None,
            old(self).budget_spec().max_nodes == 0 ==> r is None,
            ((root_dict.spec_get("ParentTree"@) matches Some(v) && v is Dictionary) && r is None) ==> final(self).graph()
                == old(self).graph(),
    {
        if self.budget.consume_node().is_err() {
            return None;
        }
        let next = self.ast.next_node_id();
        if next.0 == usize::MAX {
            return None;
        }
        let root_value = PdfValue::Dictionary(root_dict.clone_dict());
        let root_id = self.ast.create_node(NodeType::StructTreeRoot, root_value);
        let ghost after_root = *self;
        proof {
            assert(self.graph().node(root_id) matches Some(n) && n.node_type == NodeType::StructTreeRoot
                && n.value is Dictionary);
            assert forall|x: NodeId| #[trigger] old(self).graph().has_node(x) implies self.graph().node(x) == old(
                self,
            ).graph().node(x) by {
                assert(x != root_id);
            }
        }
        let role_map = self.parse_role_map(root_dict);
        let class_map = self.parse_class_map(root_dict);
        let ghost after_class = *self;
        let parent_tree = match self.parse_parent_tree(root_dict) {
            Some(t) => t,
            None => return None,
        };
        let id_tree = self.parse_id_tree(root_dict);
        let ghost before_kids = *self;
        proof {
            assert forall|k: Seq<char>|
                (#[trigger] class_map.spec_get(k)) matches Some(n) ==> self.objects().view_map().contains_value(n)
                    || self.graph().has_node(n) by {
                if let Some(n) = class_map.spec_get(k) {
                    if after_class.graph().has_node(n) {
                        assert(before_kids.graph().has_node(n));
                    }
                }
            }
        }
        self.parse_struct_elements_at_depth(root_dict, root_id, 0);
        proof {
            assert forall|k: Seq<char>|
                (#[trigger] class_map.spec_get(k)) matches Some(n) ==> self.objects().view_map().contains_value(n)
                    || self.graph().has_node(n) by {
                if let Some(n) = class_map.spec_get(k) {
                    if before_kids.graph().has_node(n) {
                        assert(self.graph().has_node(n));
                    }
                }
            }
            assert(after_root.graph().has_node(root_id));
            assert(before_kids.graph().has_node(root_id));
            if old(self).resolves_within() {
                assert(!old(self).objects().view_map().contains_value(root_id)) by {
                    if old(self).objects().view_map().contains_value(root_id) {
                        let o = choose|o: ObjectId|
                            #![auto]
                            old(self).objects().view_map().contains_key(o) && old(self).objects().view_map()[o]
                                == root_id;
                        assert(old(self).graph().has_node(root_id));
                    }
                }
                assert(after_root.graph().node(root_id) matches Some(n) && n.node_type == NodeType::StructTreeRoot);
                assert(before_kids.graph().node(root_id) == after_root.graph().node(root_id));
                assert(self.graph().node(root_id) == before_kids.graph().node(root_id));
            }
            assert forall|x: NodeId| #[trigger] old(self).graph().has_node(x) implies self.graph().has_node(x) by {
                assert(after_root.graph().has_node(x));
                assert(before_kids.graph().has_node(x));
            }
        }
        proof {
            if old(self).resolves_within() {
                lemma_resolution_kept(old(self), &after_root);
                assert forall|e: Seq<(Seq<char>, SpecValue)>|
                    #![trigger old(self).role_entries(e)]
                    old(self).role_map_source(root_dict) == Some(e) implies roles_match(
                        role_map.entries_spec(),
                        old(self).role_entries(e),
                    ) by {
                    assert(after_root.role_entries(e) == old(self).role_entries(e));
                }
            }
        }
        Some(StructureTree { root: root_id, role_map, class_map, parent_tree, id_tree })
    }
}

/// `b` is `a` with `e1` then `e2` appended, each of them possibly left out.
pub open spec fn edges_added_at_most(
    a: Seq<crate::ast::AstEdge>,
    b: Seq<crate::ast::AstEdge>,
    e1: crate::ast::AstEdge,
    e2: crate::ast::AstEdge,
) -> bool {
    ||| b == a
    ||| b == a.push(e1)
    ||| b == a.push(e2)
    ||| b == a.push(e1).push(e2)
}

impl<'a> StructTreeParser<'a> {
    /// A node for the content of marked content `mcid` on page `page_id`,
    /// linked from the structure element and from the page.
    fn create_mcid_content_node(&mut self, page_id: NodeId, mcid: i32, struct_elem_id: NodeId)
        ensures
            old(self).step(final(self)),
            final(self).mcid_entries() == old(self).mcid_entries(),
            forall|x: NodeId|
                old(self).graph().has_node(x) ==> #[trigger] final(self).graph().node(x) == old(self).graph().node(x),
            final(self).graph() == old(self).graph() || exists|id: NodeId|
                !old(self).graph().has_node(id) && (#[trigger] final(self).graph().node(id) matches Some(n)
                    && n.node_type == NodeType::Unknown && n.value == PdfValue::Null && n.metadata.props()
                    == crate::types::spec_dict_insert(
                    crate::types::spec_dict_insert(
                        crate::types::spec_dict_insert(
                            Seq::<(Seq<char>, Seq<char>)>::empty(),
                            "content_type"@,
                            "MCID"@,
                        ),
                        "mcid"@,
                        crate::text::signed_decimal(mcid as int),
                    ),
                    "page"@,
                    "NodeId("@ + crate::text::decimal(page_id.0 as nat) + ")"@,
                )) && edges_added_at_most(
                    old(self).graph().edges_spec(),
                    final(self).graph().edges_spec(),
                    crate::ast::AstEdge { from: struct_elem_id, to: id, edge_type: EdgeType::Content },
                    crate::ast::AstEdge { from: page_id, to: id, edge_type: EdgeType::Content },
                ),
    {
        match self.new_node(NodeType::Unknown, PdfValue::Null) {
            Some(content_id) => {
                let ghost m1 = *self;
                self.set_property(content_id, String::from_str("content_type"), String::from_str("MCID"));
                let ghost m2 = *self;
                self.set_property(content_id, String::from_str("mcid"), i64_text(mcid as i64));
                let ghost m3 = *self;
                let page_text = concat3("NodeId(", usize_text(page_id.0).as_str(), ")");
                self.set_property(content_id, String::from_str("page"), page_text);
                let ghost m4 = *self;
                self.add_edge(struct_elem_id, content_id, EdgeType::Content);
                self.add_edge(page_id, content_id, EdgeType::Content);
                proof {
                    reveal_strlit("content_type");
                    reveal_strlit("MCID");
                    reveal_strlit("mcid");
                    reveal_strlit("page");
                    reveal_strlit("NodeId(");
                    reveal_strlit(")");
                    assert(self.graph().node(content_id) == m4.graph().node(content_id));
                    assert forall|x: NodeId| old(self).graph().has_node(x) implies #[trigger] self.graph().node(x)
                        == old(self).graph().node(x) by {
                        assert(x != content_id);
                        assert(m1.graph().node(x) == old(self).graph().node(x));
                        assert(m2.graph().node(x) == m1.graph().node(x));
                        assert(m3.graph().node(x) == m2.graph().node(x));
                        assert(m4.graph().node(x) == m3.graph().node(x));
                    }
                    assert forall|x: NodeId| #[trigger] old(self).graph().has_node(x) implies self.graph().has_node(x) by {
                        assert(x != content_id);
                    }
                }
            },
            None => {},
        }
    }

    /// Stores the text collected for marked content `mcid` of page
    /// `page_id` on its structure element, joined by spaces, as the
    /// property `mcid_<mcid>_content`, when the decoded-bytes budget allows.
    fn store_mcid_content(&mut self, page_id: NodeId, mcid: i32, content: &Vec<String>)
        ensures
            old(self).spec_mcid(page_id, mcid) is None ==> *final(self) == *old(self),
            old(self).step(final(self)),
            final(self).mcid_entries() == old(self).mcid_entries(),
            forall|x: NodeId|
                Some(x) != old(self).spec_mcid(page_id, mcid) ==> #[trigger] final(self).graph().node(x) == old(
                    self,
                ).graph().node(x),
            old(self).spec_mcid(page_id, mcid) matches Some(se) ==> (final(self).graph().node(se) == old(self).graph().node(
                se,
            ) || (final(self).graph().node(se) matches Some(n) && old(self).graph().node(se) matches Some(o)
                && n.node_type == o.node_type && n.value == o.value && n.metadata.props()
                == crate::types::spec_dict_insert(
                o.metadata.props(),
                "mcid_"@ + crate::text::signed_decimal(mcid as int) + "_content"@,
                crate::text::join_seq(crate::text::strings_sv(content@), " "@),
            ))),
    {
        match self.get_structure_for_mcid(page_id, mcid) {
            Some(struct_elem_id) => {
                if !self.ast.contains_node(struct_elem_id) {
                    return ;
                }
                let mut total: usize = 0;
                let mut i: usize = 0;
                while i < content.len()
                    invariant
                        i <= content@.len(),
                    decreases content@.len() - i,
                {
                    total = total.saturating_add(content[i].as_str().len());
                    i = i + 1;
                }
                if content.len() > 0 {
                    total = total.saturating_add(content.len() - 1);
                }
                if self.budget.consume_decoded(total as u64).is_err() {
                    return ;
                }
                let text = join_strings(content, " ");
                let number = i64_text(mcid as i64);
                let key = concat3("mcid_", number.as_str(), "_content");
                self.set_property(struct_elem_id, key, text);
            },
            None => {},
        }
    }

    /// Links the marked content of one page's content stream to the
    /// structure: a content node for each marked-content id the structure
    /// knows, and the text shown inside each, stored on its element.
    pub fn link_content_to_structure(&mut self, page_id: NodeId, operators: &[ContentOperator])
        ensures
            old(self).mcid_entries().len() == 0 ==> *final(self) == *old(self),
            old(self).step(final(self)),
            final(self).mcid_entries() == old(self).mcid_entries(),
            forall|x: NodeId|
                old(self).graph().has_node(x) && !old(self).is_mcid_target(x) ==> #[trigger] final(self).graph().node(x)
                    == old(self).graph().node(x),
            old(self).stores_only_sequences(final(self), page_id, operators@),
    {
        let mut current_mcid: Option<i32> = None;
        let mut mcid_content: Vec<String> = Vec::new();
        let ghost mut last_end: int = -1;
        let ghost mut idx: Seq<int> = Seq::empty();
        let mut i: usize = 0;
        while i < operators.len()
            invariant
                i <= operators@.len(),
                old(self).step(self),
                self.mcid_entries() == old(self).mcid_entries(),
                forall|x: NodeId|
                    old(self).graph().has_node(x) && !old(self).is_mcid_target(x) ==> #[trigger] self.graph().node(x)
                        == old(self).graph().node(x),
                old(self).mcid_entries().len() == 0 ==> *self == *old(self),
                -1 <= last_end < i,
                no_end_between(operators@, last_end, i as int),
                drawn_at(idx, crate::text::strings_sv(mcid_content@), operators@, last_end, i as int),
                current_mcid is None ==> mcid_content@.len() == 0,
                current_mcid == last_opened(operators@, last_end, i as int),
                old(self).stores_only_sequences(self, page_id, operators@),
            decreases operators@.len() - i,
        {
            let ghost before = *self;
            match &operators[i] {
                ContentOperator::BeginMarkedContent(tag) => {
                    if self.is_structure_tag(tag.as_str()) {
                        mcid_content = Vec::new();
                        proof {
                            idx = Seq::empty();
                            assert(crate::text::strings_sv(mcid_content@) =~= Seq::<Seq<char>>::empty());
                        }
                    }
                },
                ContentOperator::BeginMarkedContentWithProps(_tag, props) => match props {
                    MarkedContentProps::Dictionary(dict) => match dict.get("MCID") {
                        Some(mv) => {
                            proof {
                                lemma_value_view(mv);
                            }
                            match mv {
                                PdfValue::Integer(mcid) => {
                                    let m = *mcid as i32;
                                    proof {
                                        assert(mcid_opened(operators@, i as int) == Some(m));
                                    }
                                    current_mcid = Some(m);
                                    match self.get_structure_for_mcid(page_id, m) {
                                        Some(struct_elem) => {
                                            self.create_mcid_content_node(page_id, m, struct_elem);
                                            proof {
                                                lemma_sequences_kept(old(self), &before, self, page_id, operators@);
                                            }
                                        },
                                        None => {},
                                    }
                                },
                                _ => {},
                            }
                        },
                        None => {},
                    },
                    _ => {},
                },
                ContentOperator::EndMarkedContent => {
                    match current_mcid {
                        Some(m) => {
                            proof {
                                assert(ends_sequence(operators@, i as int, m, crate::text::strings_sv(mcid_content@))) by {
                                    assert(drawn_from(crate::text::strings_sv(mcid_content@), operators@, last_end, i as int));
                                    assert(no_end_between(operators@, last_end, i as int));
                                }
                            }
                            self.store_mcid_content(page_id, m, &mcid_content);
                            proof {
                                assert forall|x: NodeId|
                                    old(self).graph().has_node(x) && !old(self).is_mcid_target(x) implies #[trigger] self.graph().node(x)
                                        == old(self).graph().node(x) by {
                                    assert(crate::types::spec_dict_get(old(self).mcid_entries(), (page_id, m)) != Some(x));
                                    assert(before.graph().node(x) == old(self).graph().node(x));
                                }
                                lemma_store_keeps_sequences(
                                    old(self),
                                    &before,
                                    self,
                                    page_id,
                                    operators@,
                                    m,
                                    i as int,
                                    crate::text::strings_sv(mcid_content@),
                                );
                            }
                            current_mcid = None;
                            mcid_content = Vec::new();
                        },
                        None => {},
                    }
                    proof {
                        last_end = i as int;
                        idx = Seq::empty();
                        assert(crate::text::strings_sv(mcid_content@) =~= Seq::<Seq<char>>::empty());
                    }
                },
                ContentOperator::ShowText(bytes) => {
                    if current_mcid.is_some() {
                        let text = utf8_lossy(bytes.as_slice());
                        if self.budget.consume_object().is_ok() && self.budget.consume_decoded(
                            text.as_str().len() as u64,
                        ).is_ok() {
                            let ghost before_sv = crate::text::strings_sv(mcid_content@);
                            mcid_content.push(text);
                            proof {
                                assert(crate::text::strings_sv(mcid_content@) =~= before_sv.push(
                                    crate::types::lossy_text(bytes@),
                                ));
                                idx = idx.push(i as int);
                            }
                        }
                    }
                },
                ContentOperator::Other => {},
            }
            proof {
                assert forall|x: NodeId| #[trigger] old(self).graph().has_node(x) implies self.graph().has_node(x) by {
                    assert(before.graph().has_node(x));
                }
            }
            i = i + 1;
        }
    }

    /// Every property of a node of this state that `next` holds with another
    /// value is the text of a marked-content sequence of `ops` stored on the
    /// element that `page_id`'s marked content `mcid` belongs to, under
    /// that id's key: the texts shown between the end of the previous
    /// sequence and the end of this one, in order and joined by spaces.
    pub open spec fn stores_only_sequences(&self, next: &Self, page_id: NodeId, ops: Seq<ContentOperator>) -> bool {
        forall|x: NodeId, k: Seq<char>|
            self.graph().has_node(x) && #[trigger] prop_of(next.graph(), x, k) != prop_of(self.graph(), x, k)
                ==> exists|i: int, m: i32, c: Seq<Seq<char>>|
                #![trigger ends_sequence(ops, i, m, c), self.spec_mcid(page_id, m)]
                ends_sequence(ops, i, m, c) && self.spec_mcid(page_id, m) == Some(x) && k == mcid_key(m) && prop_of(
                    next.graph(),
                    x,
                    k,
                ) == Some(crate::text::join_seq(c, " "@))
    }

    /// Whether some marked content is linked to node `x`.
    pub open spec fn is_mcid_target(&self, x: NodeId) -> bool {
        exists|k: (NodeId, i32)| #[trigger] crate::types::spec_dict_get(self.mcid_entries(), k) == Some(x)
    }

    /// The texts of a structure element, while the budget allows them.
    pub open spec fn structure_texts(&self, struct_elem_id: NodeId) -> Seq<Seq<char>> {
        match self.graph().node(struct_elem_id) {
            Some(n) => node_texts(n.metadata),
            None => Seq::empty(),
        }
    }

    fn get_text_for_structure_into(&self, struct_elem_id: NodeId, texts: &mut Vec<String>) -> (r: Result<
        (),
        ResourceBudgetError,
    >)
        ensures
            r is Ok ==> crate::text::strings_sv(final(texts)@) == crate::text::strings_sv(old(texts)@)
                + self.structure_texts(struct_elem_id),
            r is Err ==> exists|n: int|
                0 <= n < self.structure_texts(struct_elem_id).len() && crate::text::strings_sv(final(texts)@)
                    == crate::text::strings_sv(old(texts)@) + self.structure_texts(struct_elem_id).take(n),
            r matches Err(e) ==> (e == ResourceBudgetError::Objects || e == ResourceBudgetError::DecodedBytes || e
                == ResourceBudgetError::Cancelled || (e == ResourceBudgetError::Deadline
                && self.budget_spec().deadline is Some)),
            self.budget_spec().max_objects == 0 ==> final(texts)@ == old(texts)@,
    {
        let ghost start = crate::text::strings_sv(texts@);
        match self.ast.get_node(struct_elem_id) {
            Some(node) => {
                let props = node.metadata.properties();
                let ghost p = node.metadata.props();
                let ghost all = node_texts(node.metadata);
                proof {
                    lemma_mcid_texts_prefix(p, p.len() as int);
                    assert(p.take(p.len() as int) =~= p);
                    assert(self.structure_texts(struct_elem_id) == all);
                }
                let mut i: usize = 0;
                while i < props.len()
                    invariant
                        i <= props@.len(),
                        self.structure_texts(struct_elem_id) == all,
                        start == crate::text::strings_sv(old(texts)@),
                        crate::ast::props_sv(props@) == p,
                        all == mcid_texts(p) + match node.metadata.spec_property("actual_text"@) {
                            Some(a) => seq![a],
                            None => Seq::empty(),
                        },
                        crate::text::strings_sv(texts@) == start + mcid_texts(p.take(i as int)),
                        self.budget_spec().max_objects == 0 ==> texts@ == old(texts)@,
                    decreases props@.len() - i,
                {
                    proof {
                        assert(p.take(i + 1).drop_last() =~= p.take(i as int));
                        assert(p.take(i + 1).last() == p[i as int]);
                        assert(p[i as int] == (props@[i as int].0@, props@[i as int].1@));
                        lemma_mcid_texts_prefix(p, i as int);
                        lemma_mcid_texts_prefix(p, i + 1);
                    }
                    let key = props[i].0.as_str();
                    if str_starts_with(key, "mcid_") && str_ends_with(key, "_content") {
                        let value = &props[i].1;
                        match self.budget.consume_object() {
                            Ok(()) => {},
                            Err(e) => {
                                proof {
                                    let n = mcid_texts(p.take(i as int)).len() as int;
                                    assert(mcid_texts(p.take(i + 1)) == mcid_texts(p.take(i as int)).push(p[i as int].1));
                                    assert(n < all.len());
                                    assert(all.take(n) =~= mcid_texts(p.take(i as int)));
                                    assert(self.structure_texts(struct_elem_id) == all);
                                    assert(crate::text::strings_sv(texts@) == start + self.structure_texts(struct_elem_id).take(n));
                                }
                                return Err(e);
                            },
                        }
                        match self.budget.consume_decoded(value.as_str().len() as u64) {
                            Ok(()) => {},
                            Err(e) => {
                                proof {
                                    let n = mcid_texts(p.take(i as int)).len() as int;
                                    assert(mcid_texts(p.take(i + 1)) == mcid_texts(p.take(i as int)).push(p[i as int].1));
                                    assert(n < all.len());
                                    assert(all.take(n) =~= mcid_texts(p.take(i as int)));
                                    assert(self.structure_texts(struct_elem_id) == all);
                                    assert(crate::text::strings_sv(texts@) == start + self.structure_texts(struct_elem_id).take(n));
                                }
                                return Err(e);
                            },
                        }
                        let ghost before_push = texts@;
                        let cloned = value.clone();
                        texts.push(cloned);
                        proof {
                            assert(crate::text::strings_sv(texts@) =~= crate::text::strings_sv(before_push).push(cloned@));
                            assert(mcid_texts(p.take(i + 1)) == mcid_texts(p.take(i as int)).push(p[i as int].1));
                            assert(crate::text::strings_sv(texts@) =~= start + mcid_texts(p.take(i + 1)));
                        }
                    } else {
                        proof {
                            assert(crate::text::strings_sv(texts@) =~= start + mcid_texts(p.take(i + 1)));
                        }
                    }
                    i = i + 1;
                }
                proof {
                    assert(p.take(i as int) =~= p);
                }
                match node.metadata.get_property("actual_text") {
                    Some(actual) => {
                        match self.budget.consume_object() {
                            Ok(()) => {},
                            Err(e) => {
                                proof {
                                    let n = mcid_texts(p).len() as int;
                                    assert(all.take(n) =~= mcid_texts(p));
                                    assert(self.structure_texts(struct_elem_id) == all);
                                    assert(crate::text::strings_sv(texts@) == start + self.structure_texts(struct_elem_id).take(n));
                                }
                                return Err(e);
                            },
                        }
                        match self.budget.consume_decoded(actual.as_str().len() as u64) {
                            Ok(()) => {},
                            Err(e) => {
                                proof {
                                    let n = mcid_texts(p).len() as int;
                                    assert(all.take(n) =~= mcid_texts(p));
                                    assert(self.structure_texts(struct_elem_id) == all);
                                    assert(crate::text::strings_sv(texts@) == start + self.structure_texts(struct_elem_id).take(n));
                                }
                                return Err(e);
                            },
                        }
                        let ghost before_push = texts@;
                        let cloned = actual.clone();
                        texts.push(cloned);
                        proof {
                            assert(crate::text::strings_sv(texts@) =~= crate::text::strings_sv(before_push).push(cloned@));
                            assert(crate::text::strings_sv(texts@) =~= start + all);
                        }
                    },
                    None => {
                        proof {
                            assert(crate::text::strings_sv(texts@) =~= start + all);
                        }
                    },
                }
                Ok(())
            },
            None => {
                proof {
                    assert(crate::text::strings_sv(texts@) =~= start + Seq::<Seq<char>>::empty());
                }
                Ok(())
            },
        }
    }

    /// The texts of a structure element: its marked-content texts, then its
    /// actual text; as many of them as the budget allows.
    pub fn get_text_for_structure(&self, struct_elem_id: NodeId) -> (r: Vec<String>)
        ensures
            self.budget_spec().max_objects == 0 ==> r@.len() == 0,
            exists|n: int|
                0 <= n <= self.structure_texts(struct_elem_id).len() && crate::text::strings_sv(r@)
                    == self.structure_texts(struct_elem_id).take(n),
    {
        let mut texts: Vec<String> = Vec::new();
        let result = self.get_text_for_structure_into(struct_elem_id, &mut texts);
        proof {
            assert(crate::text::strings_sv(Seq::<String>::empty()) =~= Seq::<Seq<char>>::empty());
            let all = self.structure_texts(struct_elem_id);
            if result is Ok {
                assert(all.take(all.len() as int) =~= all);
                assert(crate::text::strings_sv(texts@) =~= all);
            } else {
                let n = choose|n: int|
                    0 <= n < all.len() && crate::text::strings_sv(texts@) == crate::text::strings_sv(
                        Seq::<String>::empty(),
                    ) + all.take(n);
                assert(crate::text::strings_sv(texts@) =~= all.take(n));
            }
        }
        texts
    }

    /// The texts of a structure element, or the budget error that stopped
    /// collecting them.
    pub fn get_text_for_structure_with_budget(&self, struct_elem_id: NodeId) -> (r: Result<
        Vec<String>,
        ResourceBudgetError,
    >)
        ensures
            r matches Ok(v) ==> crate::text::strings_sv(v@) == self.structure_texts(struct_elem_id),
            self.budget_spec().max_objects == 0 && self.structure_texts(struct_elem_id).len() > 0 ==> r is Err,
            r matches Err(e) ==> self.structure_texts(struct_elem_id).len() > 0 && (e == ResourceBudgetError::Objects
                || e == ResourceBudgetError::DecodedBytes || e == ResourceBudgetError::Cancelled || (e
                == ResourceBudgetError::Deadline && self.budget_spec().deadline is Some)),
    {
        let mut texts: Vec<String> = Vec::new();
        proof {
            assert(crate::text::strings_sv(texts@) =~= Seq::<Seq<char>>::empty());
        }
        match self.get_text_for_structure_into(struct_elem_id, &mut texts) {
            Ok(()) => {
                proof {
                    assert(crate::text::strings_sv(texts@) =~= self.structure_texts(struct_elem_id));
                }
                Ok(texts)
            },
            Err(e) => Err(e),
        }
    }
}

/// The marked-content texts of the first `i` properties begin those of all.
proof fn lemma_mcid_texts_prefix(p: Seq<(Seq<char>, Seq<char>)>, i: int)
    requires
        0 <= i <= p.len(),
    ensures
        mcid_texts(p.take(i)).len() <= mcid_texts(p).len(),
        mcid_texts(p).take(mcid_texts(p.take(i)).len() as int) == mcid_texts(p.take(i)),
    decreases p.len(),
{
    if i == p.len() {
        assert(p.take(i) =~= p);
        assert(mcid_texts(p).take(mcid_texts(p).len() as int) =~= mcid_texts(p));
    } else {
        lemma_mcid_texts_prefix(p.drop_last(), i);
        assert(p.drop_last().take(i) =~= p.take(i));
        let a = mcid_texts(p.take(i));
        let b = mcid_texts(p.drop_last());
        assert(mcid_texts(p).take(a.len() as int) =~= b.take(a.len() as int));
    }
}

/// Adding nodes that no object points to leaves every resolution as it was.
proof fn lemma_resolution_kept<'a>(a: &StructTreeParser<'a>, b: &StructTreeParser<'a>)
    requires
        a.resolves_within(),
        b.objects() == a.objects(),
        forall|x: NodeId| #[trigger] a.graph().has_node(x) ==> b.graph().node(x) == a.graph().node(x),
    ensures
        forall|x: PdfReference| #[trigger] b.referenced(x) == a.referenced(x),
        forall|v: SpecValue| #[trigger] b.spec_resolve_name(v) == a.spec_resolve_name(v),
        forall|e: Seq<(Seq<char>, SpecValue)>| #[trigger] b.role_entries(e) == a.role_entries(e),
        forall|d: &PdfDictionary| #[trigger] b.role_map_source(d) == a.role_map_source(d),
{
    assert forall|x: PdfReference| #[trigger] b.referenced(x) == a.referenced(x) by {
        if a.objects().view_map().contains_key(x.spec_id()) {
            let n = a.objects().view_map()[x.spec_id()];
            assert(a.graph().has_node(n));
            assert(b.graph().node(n) == a.graph().node(n));
        }
    }
    assert forall|v: SpecValue| #[trigger] b.spec_resolve_name(v) == a.spec_resolve_name(v) by {
        match v {
            SpecValue::Reference(num, generation) => {
                let x = PdfReference { object_number: num, generation_number: generation };
                assert(b.referenced(x) == a.referenced(x));
            },
            _ => {},
        }
    }
    assert forall|e: Seq<(Seq<char>, SpecValue)>| #[trigger] b.role_entries(e) == a.role_entries(e) by {
        lemma_role_entries_same(a, b, e);
    }
    assert forall|d: &PdfDictionary| #[trigger] b.role_map_source(d) == a.role_map_source(d) by {
        match d.spec_get("RoleMap"@) {
            Some(SpecValue::Reference(num, generation)) => {
                let x = PdfReference { object_number: num, generation_number: generation };
                assert(b.referenced(x) == a.referenced(x));
            },
            _ => {},
        }
    }
}

/// The role pairs depend on the graph only through what names resolve to.
proof fn lemma_role_entries_same<'a>(
    a: &StructTreeParser<'a>,
    b: &StructTreeParser<'a>,
    e: Seq<(Seq<char>, SpecValue)>,
)
    requires
        forall|v: SpecValue| #[trigger] b.spec_resolve_name(v) == a.spec_resolve_name(v),
    ensures
        b.role_entries(e) == a.role_entries(e),
    decreases e.len(),
{
    if e.len() > 0 {
        lemma_role_entries_same(a, b, e.drop_last());
        assert(b.spec_resolve_name(e.last().1) == a.spec_resolve_name(e.last().1));
    }
}

/// Two parsing steps in a row keep what each keeps.
proof fn lemma_frames_compose<'a>(
    a: &StructTreeParser<'a>,
    b: &StructTreeParser<'a>,
    c: &StructTreeParser<'a>,
    except: Option<NodeId>,
)
    requires
        a.step(b),
        b.step(c),
        a.keeps_unmapped(b, None),
        b.keeps_unmapped(c, except),
        except matches Some(x) ==> (a.objects().view_map().contains_value(x) || !a.graph().has_node(x)),
        a.active_in_graph() ==> a.keeps_active(b),
        b.active_in_graph() ==> b.keeps_active(c),
    ensures
        a.step(c),
        a.keeps_unmapped(c, None),
        a.active_in_graph() ==> a.keeps_active(c),
{
    assert forall|id: NodeId| #[trigger] a.graph().has_node(id) implies c.graph().has_node(id) by {
        assert(b.graph().has_node(id));
    }
    assert forall|id: NodeId|
        #![trigger c.graph().node(id)]
        a.graph().has_node(id) && !a.objects().view_map().contains_value(id) implies c.graph().node(id)
            == a.graph().node(id) by {
        assert(b.graph().node(id) == a.graph().node(id));
        assert(b.graph().has_node(id));
    }
    if a.active_in_graph() {
        assert forall|i: int| 0 <= i < b.active().len() implies b.graph().has_node(#[trigger] b.active()[i]) by {
            assert(b.graph().node(a.active()[i]) == a.graph().node(a.active()[i]));
            assert(a.graph().has_node(a.active()[i]));
        }
        assert forall|i: int| 0 <= i < a.active().len() implies #[trigger] c.graph().node(a.active()[i])
            == a.graph().node(a.active()[i]) by {
            assert(c.graph().node(b.active()[i]) == b.graph().node(b.active()[i]));
            assert(b.graph().node(a.active()[i]) == a.graph().node(a.active()[i]));
        }
    }
}

/// Whether `id` is among `ids`.
fn contains_node_id(ids: &Vec<NodeId>, id: NodeId) -> (r: bool)
    ensures
        r == ids@.contains(id),
{
    let mut i: usize = 0;
    while i < ids.len()
        invariant
            i <= ids@.len(),
            forall|j: int| 0 <= j < i ==> ids@[j] != id,
        decreases ids@.len() - i,
    {
        if ids[i] == id {
            return true;
        }
        i = i + 1;
    }
    false
}

/// The map's entries are the expected pairs, value texts compared.
pub open spec fn roles_match(m: Seq<(Seq<char>, String)>, expected: Seq<(Seq<char>, Seq<char>)>) -> bool {
    &&& m.len() == expected.len()
    &&& forall|j: int| 0 <= j < m.len() ==> (#[trigger] m[j]).0 == expected[j].0 && m[j].1@ == expected[j].1
}

/// A key that a lookup finds is held by some entry.
pub proof fn lemma_get_found<V>(e: Seq<(Seq<char>, V)>, k: Seq<char>)
    ensures
        crate::types::spec_dict_get(e, k) matches Some(v) ==> exists|j: int| 0 <= j < e.len() && e[j] == (k, v),
    decreases e.len(),
{
    if e.len() > 0 && e[0].0 != k {
        lemma_get_found(e.drop_first(), k);
        if let Some(v) = crate::types::spec_dict_get(e, k) {
            let j = choose|j: int| 0 <= j < e.drop_first().len() && e.drop_first()[j] == (k, v);
            assert(e[j + 1] == (k, v));
        }
    } else if e.len() > 0 {
        assert(e[0] == (k, e[0].1));
    }
}

/// A step that leaves every node of the starting state as it was keeps
/// what was stored.
proof fn lemma_sequences_kept(
    o: &StructTreeParser,
    before: &StructTreeParser,
    after: &StructTreeParser,
    page_id: NodeId,
    ops: Seq<ContentOperator>,
)
    requires
        o.stores_only_sequences(before, page_id, ops),
        graph_grows(o.graph(), before.graph()),
        forall|x: NodeId| #[trigger] before.graph().has_node(x) ==> after.graph().node(x) == before.graph().node(x),
    ensures
        o.stores_only_sequences(after, page_id, ops),
{
    assert forall|x: NodeId, k: Seq<char>|
        o.graph().has_node(x) && #[trigger] prop_of(after.graph(), x, k) != prop_of(o.graph(), x, k) implies exists|
        i: int,
        m: i32,
        c: Seq<Seq<char>>,
    |
        #![trigger ends_sequence(ops, i, m, c), o.spec_mcid(page_id, m)]
        ends_sequence(ops, i, m, c) && o.spec_mcid(page_id, m) == Some(x) && k == mcid_key(m) && prop_of(
            after.graph(),
            x,
            k,
        ) == Some(crate::text::join_seq(c, " "@)) by {
        assert(before.graph().has_node(x));
        assert(prop_of(after.graph(), x, k) == prop_of(before.graph(), x, k));
    }
}

/// Storing the texts `c` of the sequence that operator `i` ends, under the
/// key of marked content `m`, keeps what was stored.
proof fn lemma_store_keeps_sequences(
    o: &StructTreeParser,
    before: &StructTreeParser,
    after: &StructTreeParser,
    page_id: NodeId,
    ops: Seq<ContentOperator>,
    m: i32,
    i: int,
    c: Seq<Seq<char>>,
)
    requires
        o.stores_only_sequences(before, page_id, ops),
        o.step(before),
        before.mcid_entries() == o.mcid_entries(),
        ends_sequence(ops, i, m, c),
        forall|x: NodeId|
            Some(x) != before.spec_mcid(page_id, m) ==> #[trigger] after.graph().node(x) == before.graph().node(x),
        before.spec_mcid(page_id, m) matches Some(se) ==> (after.graph().node(se) == before.graph().node(se) || (
        after.graph().node(se) matches Some(n) && before.graph().node(se) matches Some(b) && n.metadata.props()
            == crate::types::spec_dict_insert(b.metadata.props(), mcid_key(m), crate::text::join_seq(c, " "@)))),
    ensures
        o.stores_only_sequences(after, page_id, ops),
{
    assert forall|x: NodeId, k: Seq<char>|
        o.graph().has_node(x) && #[trigger] prop_of(after.graph(), x, k) != prop_of(o.graph(), x, k) implies exists|
        i2: int,
        m2: i32,
        c2: Seq<Seq<char>>,
    |
        #![trigger ends_sequence(ops, i2, m2, c2), o.spec_mcid(page_id, m2)]
        ends_sequence(ops, i2, m2, c2) && o.spec_mcid(page_id, m2) == Some(x) && k == mcid_key(m2) && prop_of(
            after.graph(),
            x,
            k,
        ) == Some(crate::text::join_seq(c2, " "@)) by {
        assert(before.graph().has_node(x));
        if Some(x) != before.spec_mcid(page_id, m) || after.graph().node(x) == before.graph().node(x) {
            assert(prop_of(after.graph(), x, k) == prop_of(before.graph(), x, k));
        } else {
            let b = before.graph().node(x)->Some_0;
            crate::types::lemma_insert_get(b.metadata.props(), mcid_key(m), crate::text::join_seq(c, " "@), k);
            if k == mcid_key(m) {
                assert(o.spec_mcid(page_id, m) == Some(x));
                assert(ends_sequence(ops, i, m, c) && o.spec_mcid(page_id, m) == Some(x) && k == mcid_key(m) && prop_of(
                    after.graph(),
                    x,
                    k,
                ) == Some(crate::text::join_seq(c, " "@)));
            } else {
                assert(prop_of(after.graph(), x, k) == prop_of(before.graph(), x, k));
            }
        }
    }
}

/// The texts stored for a marked-content sequence were all shown after
/// every earlier end of marked content: a sequence never takes texts from
/// one that ended before it.
pub proof fn lemma_sequence_after_previous_end(
    ops: Seq<ContentOperator>,
    i: int,
    m: i32,
    c: Seq<Seq<char>>,
    j: int,
    k: int,
)
    requires
        ends_sequence(ops, i, m, c),
        0 <= j < i,
        ops[j] is EndMarkedContent,
        0 <= k < c.len(),
    ensures
        exists|p: int| j < p < i && #[trigger] shows_text(ops, p, c[k]),
{
    let a = choose|a: int|
        -1 <= a < i && #[trigger] no_end_between(ops, a, i) && last_opened(ops, a, i) == Some(m) && drawn_from(
            c,
            ops,
            a,
            i,
        );
    assert(!(a < j)) by {
        if a < j {
            assert(ops[j] is EndMarkedContent);
        }
    }
    let idx = choose|idx: Seq<int>| #[trigger] drawn_at(idx, c, ops, a, i);
    assert(a < idx[k] < i && shows_text(ops, idx[k], c[k]));
}

} // verus!
