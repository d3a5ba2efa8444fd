//! The document graph: nodes that hold PDF values and typed edges between
//! them.
use crate::types::{
    lemma_dict_absent, lemma_dict_get_first, lemma_dict_insert_at, lemma_insert_keeps_unique, keys_unique,
    spec_dict_get, spec_dict_insert, str_equal, ObjectId, PdfDictionary, PdfValue,
};
use vstd::prelude::*;

verus! {

#[derive(Debug, Clone, Copy, PartialEq, Eq, Hash, Structural)]
pub struct NodeId(pub usize);

#[derive(Debug, Clone, Copy, PartialEq, Eq, Structural)]
pub enum NodeType {
    Root,
    Catalog,
    Pages,
    Page,
    Resource,
    Font,
    Image,
    ContentStream,
    Annotation,
    Action,
    Metadata,
    EmbeddedFile,
    Signature,
    Object(ObjectId),
    Unknown,
    Stream,
    FilteredStream,
    DecodedStream,
    XObject,
    FormXObject,
    ImageXObject,
    Type1Font,
    TrueTypeFont,
    Type3Font,
    CIDFont,
    JavaScriptAction,
    GoToAction,
    URIAction,
    LaunchAction,
    SubmitFormAction,
    AcroForm,
    Field,
    Encrypt,
    Permission,
    ContentOperator,
    TextOperator,
    GraphicsOperator,
    EmbeddedJS,
    SuspiciousAction,
    ExternalReference,
    EncodedContent,
    Outline,
    OutlineItem,
    NameTree,
    StructTreeRoot,
    StructElem,
    ColorSpace,
    ICCBased,
    Separation,
    DeviceN,
    Indexed,
    Pattern,
    Shading,
    ExtGState,
    Function,
    CMap,
    ToUnicode,
    Encoding,
    OCG,
    OCProperties,
    OCMD,
    RichMedia,
    Rendition,
    Screen,
    Sound,
    Movie,
    ThreeD,
    U3D,
    PRC,
    OutputIntent,
    LinkAnnotation,
    WidgetAnnotation,
    FileAttachmentAnnotation,
    InlineImage,
    Form,
    Structure,
    Multimedia,
    JavaScript,
    Encryption,
    Content,
    Other,
}

#[derive(Debug, Clone, Copy, PartialEq, Eq, Structural)]
pub enum EdgeType {
    Child,
    Reference,
    Parent,
    Resource,
    Annotation,
    Content,
}

/// Text properties of a node: each key at most once, in the order set.
#[derive(Debug)]
pub struct NodeMetadata {
    properties: Vec<(String, String)>,
    pub warnings: Vec<String>,
}

pub open spec fn props_sv(p: Seq<(String, String)>) -> Seq<(Seq<char>, Seq<char>)> {
    Seq::new(p.len(), |i: int| (p[i].0@, p[i].1@))
}

impl NodeMetadata {
    #[verifier::type_invariant]
    closed spec fn wf(&self) -> bool {
        forall|i: int, j: int|
            0 <= i < j < self.properties@.len() ==> (#[trigger] self.properties@[i]).0@ != (
            #[trigger] self.properties@[j]).0@
    }

    pub closed spec fn warnings_spec(&self) -> Seq<String> {
        self.warnings@
    }

    pub closed spec fn props(&self) -> Seq<(Seq<char>, Seq<char>)> {
        props_sv(self.properties@)
    }

    pub open spec fn spec_property(&self, key: Seq<char>) -> Option<Seq<char>> {
        spec_dict_get(self.props(), key)
    }

    pub fn new() -> (r: Self)
        ensures
            r.props() == Seq::<(Seq<char>, Seq<char>)>::empty(),
            r.warnings_spec() == Seq::<String>::empty(),
    {
        let r = NodeMetadata { properties: Vec::new(), warnings: Vec::new() };
        proof {
            assert(r.props() =~= Seq::<(Seq<char>, Seq<char>)>::empty());
        }
        r
    }

    fn find(&self, key: &str) -> (r: Option<usize>)
        ensures
            r matches Some(i) ==> i < self.props().len() && self.props()[i as int].0 == key@ && forall|j: int|
                0 <= j < i ==> self.props()[j].0 != key@,
            r is None ==> forall|j: int| 0 <= j < self.props().len() ==> self.props()[j].0 != key@,
    {
        let mut i: usize = 0;
        while i < self.properties.len()
            invariant
                i <= self.properties@.len(),
                forall|j: int| 0 <= j < i ==> self.props()[j].0 != key@,
            decreases self.properties@.len() - i,
        {
            if str_equal(self.properties[i].0.as_str(), key) {
                return Some(i);
            }
            i = i + 1;
        }
        None
    }

    pub fn get_property(&self, key: &str) -> (r: Option<&String>)
        ensures
            r is Some <==> self.spec_property(key@) is Some,
            r matches Some(v) ==> self.spec_property(key@) == Some(v@),
    {
        match self.find(key) {
            Some(i) => {
                proof {
                    lemma_dict_get_first(self.props(), key@, i as int);
                }
                Some(&self.properties[i].1)
            },
            None => {
                proof {
                    lemma_dict_absent(self.props(), key@, Seq::<char>::empty());
                }
                None
            },
        }
    }

    /// Adds a warning after the ones there are.
    pub fn add_warning(&mut self, warning: String)
        ensures
            final(self).props() == old(self).props(),
            final(self).warnings_spec() == old(self).warnings_spec().push(warning),
    {
        proof {
            use_type_invariant(&*self);
        }
        let mut ws: Vec<String> = Vec::new();
        std::mem::swap(&mut ws, &mut self.warnings);
        ws.push(warning);
        self.warnings = ws;
    }

    /// Sets `key` to `value`, replacing the value it had.
    pub fn set_property(&mut self, key: String, value: String)
        ensures
            final(self).props() == spec_dict_insert(old(self).props(), key@, value@),
            final(self).warnings_spec() == old(self).warnings_spec(),
            final(self).spec_property(key@) == Some(value@),
            forall|k: Seq<char>|
                k != key@ ==> #[trigger] final(self).spec_property(k) == old(self).spec_property(k),
    {
        proof {
            use_type_invariant(&*self);
        }
        let ghost old_props = self.props();
        assert(keys_unique(old_props));
        let ghost kv = key@;
        let ghost vv = value@;
        let found = self.find(key.as_str());
        let mut props: Vec<(String, String)> = Vec::new();
        std::mem::swap(&mut props, &mut self.properties);
        assert(props_sv(props@) =~= old_props);
        match found {
            Some(i) => {
                props.set(i, (key, value));
                proof {
                    lemma_dict_insert_at(old_props, kv, vv, i as int);
                    assert(props_sv(props@) =~= old_props.update(i as int, (kv, vv)));
                }
            },
            None => {
                props.push((key, value));
                proof {
                    lemma_dict_absent(old_props, kv, vv);
                    assert(props_sv(props@) =~= old_props.push((kv, vv)));
                }
            },
        }
        proof {
            lemma_insert_keeps_unique(old_props, kv, vv);
            let e = props@;
            assert forall|i: int, j: int| 0 <= i < j < e.len() implies (#[trigger] e[i]).0@ != (
            #[trigger] e[j]).0@ by {
                assert(props_sv(e)[i].0 == e[i].0@);
                assert(props_sv(e)[j].0 == e[j].0@);
            }
        }
        self.properties = props;
        proof {
            assert(self.props() =~= props_sv(self.properties@));
        }
    }

    /// The warnings in the order they were added.
    pub fn warnings(&self) -> (r: &Vec<String>)
        ensures
            r@ == self.warnings_spec(),
    {
        &self.warnings
    }

    /// The properties in the order they were first set.
    pub fn properties(&self) -> (r: &Vec<(String, String)>)
        ensures
            props_sv(r@) == self.props(),
            keys_unique(self.props()),
    {
        proof {
            use_type_invariant(self);
            assert forall|i: int, j: int| 0 <= i < j < self.props().len() implies self.props()[i].0 != self.props()[j].0 by {
                assert(self.props()[i].0 == self.properties@[i].0@);
                assert(self.props()[j].0 == self.properties@[j].0@);
            }
        }
        &self.properties
    }
}

/// A map from text keys to values; each key at most once, in the order
/// first set.
#[derive(Debug)]
pub struct TextMap<V> {
    entries: Vec<(String, V)>,
}

pub open spec fn text_entries_sv<V>(e: Seq<(String, V)>) -> Seq<(Seq<char>, V)> {
    Seq::new(e.len(), |i: int| (e[i].0@, e[i].1))
}

impl<V> TextMap<V> {
    #[verifier::type_invariant]
    closed spec fn wf(&self) -> bool {
        forall|i: int, j: int|
            0 <= i < j < self.entries@.len() ==> (#[trigger] self.entries@[i]).0@ != (
            #[trigger] self.entries@[j]).0@
    }

    pub closed spec fn entries_spec(&self) -> Seq<(Seq<char>, V)> {
        text_entries_sv(self.entries@)
    }

    pub open spec fn spec_get(&self, key: Seq<char>) -> Option<V> {
        spec_dict_get(self.entries_spec(), key)
    }

    pub fn new() -> (r: Self)
        ensures
            r.entries_spec() == Seq::<(Seq<char>, V)>::empty(),
    {
        let r = TextMap { entries: Vec::new() };
        proof {
            assert(r.entries_spec() =~= Seq::<(Seq<char>, V)>::empty());
        }
        r
    }

    pub fn len(&self) -> (r: usize)
        ensures
            r == self.entries_spec().len(),
    {
        self.entries.len()
    }

    fn find(&self, key: &str) -> (r: Option<usize>)
        ensures
            r matches Some(i) ==> i < self.entries_spec().len() && self.entries_spec()[i as int].0 == key@
                && forall|j: int| 0 <= j < i ==> self.entries_spec()[j].0 != key@,
            r is None ==> forall|j: int| 0 <= j < self.entries_spec().len() ==> self.entries_spec()[j].0 != key@,
    {
        let mut i: usize = 0;
        while i < self.entries.len()
            invariant
                i <= self.entries@.len(),
                forall|j: int| 0 <= j < i ==> self.entries_spec()[j].0 != key@,
            decreases self.entries@.len() - i,
        {
            if str_equal(self.entries[i].0.as_str(), key) {
                return Some(i);
            }
            i = i + 1;
        }
        None
    }

    pub fn get(&self, key: &str) -> (r: Option<&V>)
        ensures
            r is Some <==> self.spec_get(key@) is Some,
            r matches Some(v) ==> self.spec_get(key@) == Some(*v),
    {
        match self.find(key) {
            Some(i) => {
                proof {
                    lemma_dict_get_first(self.entries_spec(), key@, i as int);
                }
                Some(&self.entries[i].1)
            },
            None => {
                proof {
                    lemma_dict_absent(self.entries_spec(), key@, arbitrary::<V>());
                }
                None
            },
        }
    }

    /// Sets `key` to `value`, replacing the value it had.
    pub fn insert(&mut self, key: String, value: V)
        ensures
            final(self).entries_spec() == spec_dict_insert(old(self).entries_spec(), key@, value),
            final(self).spec_get(key@) == Some(value),
            forall|k: Seq<char>| k != key@ ==> #[trigger] final(self).spec_get(k) == old(self).spec_get(k),
    {
        proof {
            use_type_invariant(&*self);
        }
        let ghost old_e = self.entries_spec();
        assert(keys_unique(old_e));
        let ghost kv = key@;
        let ghost vv = value;
        let found = self.find(key.as_str());
        let mut e: Vec<(String, V)> = Vec::new();
        std::mem::swap(&mut e, &mut self.entries);
        assert(text_entries_sv(e@) =~= old_e);
        match found {
            Some(i) => {
                e.set(i, (key, value));
                proof {
                    lemma_dict_insert_at(old_e, kv, vv, i as int);
                    assert(text_entries_sv(e@) =~= old_e.update(i as int, (kv, vv)));
                }
            },
            None => {
                e.push((key, value));
                proof {
                    lemma_dict_absent(old_e, kv, vv);
                    assert(text_entries_sv(e@) =~= old_e.push((kv, vv)));
                }
            },
        }
        proof {
            lemma_insert_keeps_unique(old_e, kv, vv);
            let x = e@;
            assert forall|i: int, j: int| 0 <= i < j < x.len() implies (#[trigger] x[i]).0@ != (
            #[trigger] x[j]).0@ by {
                assert(text_entries_sv(x)[i].0 == x[i].0@);
                assert(text_entries_sv(x)[j].0 == x[j].0@);
            }
        }
        self.entries = e;
        proof {
            assert(self.entries_spec() =~= text_entries_sv(self.entries@));
        }
    }

    pub fn entries(&self) -> (r: &Vec<(String, V)>)
        ensures
            text_entries_sv(r@) == self.entries_spec(),
    {
        &self.entries
    }
}

#[derive(Debug)]
pub struct AstNode {
    pub id: NodeId,
    pub node_type: NodeType,
    pub value: PdfValue,
    pub metadata: NodeMetadata,
}

impl AstNode {
    pub fn new(id: NodeId, node_type: NodeType, value: PdfValue) -> (r: Self)
        ensures
            r.id == id,
            r.node_type == node_type,
            r.value == value,
            r.metadata.props() == Seq::<(Seq<char>, Seq<char>)>::empty(),
            r.metadata.warnings_spec() == Seq::<String>::empty(),
    {
        AstNode { id, node_type, value, metadata: NodeMetadata::new() }
    }

    pub fn as_dict(&self) -> (r: Option<&PdfDictionary>)
        ensures
            match &self.value {
                PdfValue::Dictionary(d) => r == Some(d),
                PdfValue::Stream(s) => r == Some(&s.dict),
                _ => r is None,
            },
    {
        self.value.as_dict()
    }
}

#[derive(Debug, Clone, Copy, PartialEq, Eq, Structural)]
pub struct AstEdge {
    pub from: NodeId,
    pub to: NodeId,
    pub edge_type: EdgeType,
}

/// Nodes with distinct ids, all below the next id to hand out, and edges
/// between them.
#[derive(Debug)]
pub struct PdfAstGraph {
    nodes: Vec<AstNode>,
    edges: Vec<AstEdge>,
    root: Option<NodeId>,
    next_id: usize,
}

pub open spec fn index_of_node(nodes: Seq<AstNode>, id: NodeId) -> int {
    choose|i: int| 0 <= i < nodes.len() && nodes[i].id == id
}

pub open spec fn holds_node(nodes: Seq<AstNode>, id: NodeId) -> bool {
    exists|i: int| 0 <= i < nodes.len() && nodes[i].id == id
}

impl PdfAstGraph {
    #[verifier::type_invariant]
    closed spec fn wf(&self) -> bool {
        &&& forall|i: int, j: int|
            0 <= i < j < self.nodes@.len() ==> (#[trigger] self.nodes@[i]).id != (#[trigger] self.nodes@[j]).id
        &&& forall|i: int| 0 <= i < self.nodes@.len() ==> (#[trigger] self.nodes@[i]).id.0 < self.next_id
    }

    pub closed spec fn nodes_spec(&self) -> Seq<AstNode> {
        self.nodes@
    }

    pub closed spec fn edges_spec(&self) -> Seq<AstEdge> {
        self.edges@
    }

    pub closed spec fn root_spec(&self) -> Option<NodeId> {
        self.root
    }

    pub closed spec fn next_id_spec(&self) -> usize {
        self.next_id
    }

    pub open spec fn has_node(&self, id: NodeId) -> bool {
        holds_node(self.nodes_spec(), id)
    }

    /// The node with id `id`, when there is one.
    pub open spec fn node(&self, id: NodeId) -> Option<AstNode> {
        if self.has_node(id) {
            Some(self.nodes_spec()[index_of_node(self.nodes_spec(), id)])
        } else {
            None
        }
    }

    pub fn new() -> (r: Self)
        ensures
            r.nodes_spec().len() == 0,
            r.edges_spec().len() == 0,
            r.root_spec() is None,
            r.next_id_spec() == 0,
    {
        PdfAstGraph { nodes: Vec::new(), edges: Vec::new(), root: None, next_id: 0 }
    }

    /// The id the next created node gets; no node holds it yet.
    pub fn next_node_id(&self) -> (r: NodeId)
        ensures
            r.0 == self.next_id_spec(),
            !self.has_node(r),
    {
        proof {
            use_type_invariant(self);
        }
        NodeId(self.next_id)
    }

    pub fn node_count(&self) -> (r: usize)
        ensures
            r == self.nodes_spec().len(),
    {
        self.nodes.len()
    }

    pub fn edge_count(&self) -> (r: usize)
        ensures
            r == self.edges_spec().len(),
    {
        self.edges.len()
    }

    fn position(&self, id: NodeId) -> (r: Option<usize>)
        ensures
            r matches Some(i) ==> i < self.nodes_spec().len() && self.nodes_spec()[i as int].id == id
                && i == index_of_node(self.nodes_spec(), id),
            r is None ==> !self.has_node(id),
    {
        proof {
            use_type_invariant(self);
        }
        let mut i: usize = 0;
        while i < self.nodes.len()
            invariant
                i <= self.nodes@.len(),
                forall|j: int| 0 <= j < i ==> self.nodes@[j].id != id,
            decreases self.nodes@.len() - i,
        {
            if self.nodes[i].id == id {
                proof {
                    use_type_invariant(self);
                    assert(self.nodes@[i as int].id == id);
                    let k = index_of_node(self.nodes@, id);
                    assert(self.nodes@[k].id == id);
                    if k < i {
                        assert(self.nodes@[k].id != self.nodes@[i as int].id);
                    } else if k > i {
                        assert(self.nodes@[i as int].id != self.nodes@[k].id);
                    }
                }
                return Some(i);
            }
            i = i + 1;
        }
        None
    }

    pub fn get_node(&self, id: NodeId) -> (r: Option<&AstNode>)
        ensures
            r is Some <==> self.has_node(id),
            r matches Some(n) ==> self.node(id) == Some(*n) && n.id == id,
    {
        match self.position(id) {
            Some(i) => Some(&self.nodes[i]),
            None => None,
        }
    }

    pub fn contains_node(&self, id: NodeId) -> (r: bool)
        ensures
            r == self.has_node(id),
    {
        self.position(id).is_some()
    }

    /// Adds `node` under its own id, replacing a node that had that id.
    pub fn add_node(&mut self, node: AstNode) -> (r: NodeId)
        requires
            node.id.0 < usize::MAX,
        ensures
            r == node.id,
            final(self).node(r) == Some(node),
            forall|other: NodeId|
                other != r ==> #[trigger] final(self).node(other) == old(self).node(other),
            final(self).nodes_spec().len() == old(self).nodes_spec().len() + (if old(self).has_node(r) {
                0int
            } else {
                1int
            }),
            final(self).edges_spec() == old(self).edges_spec(),
            final(self).root_spec() == old(self).root_spec(),
            final(self).next_id_spec() >= old(self).next_id_spec(),
            final(self).next_id_spec() > node.id.0,
            (!old(self).has_node(r) && node.id.0 == old(self).next_id_spec()) ==> final(self).next_id_spec()
                == old(self).next_id_spec() + 1,
            !old(self).has_node(r) ==> final(self).nodes_spec() == old(self).nodes_spec().push(node),
    {
        proof {
            use_type_invariant(&*self);
        }
        let id = node.id;
        let ghost old_nodes = self.nodes@;
        let found = self.position(id);
        let mut nodes: Vec<AstNode> = Vec::new();
        std::mem::swap(&mut nodes, &mut self.nodes);
        let new_next = if id.0 >= self.next_id {
            id.0 + 1
        } else {
            self.next_id
        };
        match found {
            Some(i) => {
                nodes.set(i, node);
                proof {
                    assert forall|other: NodeId| #[trigger] holds_node(nodes@, other) == holds_node(old_nodes, other) by {
                        if holds_node(old_nodes, other) {
                            let k = choose|k: int| 0 <= k < old_nodes.len() && old_nodes[k].id == other;
                            assert(nodes@[k].id == other);
                        }
                        if holds_node(nodes@, other) {
                            let k = choose|k: int| 0 <= k < nodes@.len() && nodes@[k].id == other;
                            assert(old_nodes[k].id == other);
                        }
                    }
                    assert forall|other: NodeId| holds_node(nodes@, other) implies index_of_node(nodes@, other)
                        == index_of_node(old_nodes, other) by {
                        let a = index_of_node(nodes@, other);
                        let b = index_of_node(old_nodes, other);
                        assert(nodes@[b].id == other);
                    }
                }
            },
            None => {
                nodes.push(node);
                proof {
                    assert forall|other: NodeId| other != id implies #[trigger] holds_node(nodes@, other)
                        == holds_node(old_nodes, other) by {
                        if holds_node(old_nodes, other) {
                            let k = choose|k: int| 0 <= k < old_nodes.len() && old_nodes[k].id == other;
                            assert(nodes@[k].id == other);
                        }
                    }
                    assert(nodes@[old_nodes.len() as int].id == id);
                    assert(holds_node(nodes@, id));
                    assert forall|other: NodeId| holds_node(nodes@, other) implies index_of_node(nodes@, other)
                        == if other == id {
                        old_nodes.len() as int
                    } else {
                        index_of_node(old_nodes, other)
                    } by {
                        let a = index_of_node(nodes@, other);
                        if other != id {
                            let b = index_of_node(old_nodes, other);
                            assert(nodes@[b].id == other);
                        }
                    }
                }
            },
        }
        self.next_id = new_next;
        self.nodes = nodes;
        id
    }

    /// Adds a node under the next free id.
    pub fn create_node(&mut self, node_type: NodeType, value: PdfValue) -> (r: NodeId)
        requires
            old(self).next_id_spec() < usize::MAX,
        ensures
            r.0 == old(self).next_id_spec(),
            !old(self).has_node(r),
            final(self).has_node(r),
            final(self).node(r) matches Some(n) && n.node_type == node_type && n.value == value
                && n.metadata.props() == Seq::<(Seq<char>, Seq<char>)>::empty() && n.metadata.warnings_spec()
                == Seq::<String>::empty(),
            forall|other: NodeId|
                other != r ==> #[trigger] final(self).node(other) == old(self).node(other),
            final(self).nodes_spec().len() == old(self).nodes_spec().len() + 1,
            final(self).edges_spec() == old(self).edges_spec(),
            final(self).root_spec() == old(self).root_spec(),
            final(self).next_id_spec() == old(self).next_id_spec() + 1,
    {
        let id = self.next_node_id();
        let node = AstNode::new(id, node_type, value);
        self.add_node(node)
    }

    /// Adds an edge between two nodes of the graph; refused (and `false`)
    /// when either end is missing.
    pub fn add_edge(&mut self, from: NodeId, to: NodeId, edge_type: EdgeType) -> (r: bool)
        ensures
            r == (old(self).has_node(from) && old(self).has_node(to)),
            r ==> final(self).edges_spec() == old(self).edges_spec().push(
                AstEdge { from, to, edge_type },
            ),
            !r ==> final(self).edges_spec() == old(self).edges_spec(),
            final(self).nodes_spec() == old(self).nodes_spec(),
            final(self).root_spec() == old(self).root_spec(),
            final(self).next_id_spec() == old(self).next_id_spec(),
    {
        proof {
            use_type_invariant(&*self);
        }
        if self.contains_node(from) && self.contains_node(to) {
            let mut edges: Vec<AstEdge> = Vec::new();
            std::mem::swap(&mut edges, &mut self.edges);
            edges.push(AstEdge { from, to, edge_type });
            self.edges = edges;
            true
        } else {
            false
        }
    }

    pub fn set_root(&mut self, id: NodeId)
        ensures
            final(self).root_spec() == Some(id),
            final(self).nodes_spec() == old(self).nodes_spec(),
            final(self).edges_spec() == old(self).edges_spec(),
            final(self).next_id_spec() == old(self).next_id_spec(),
    {
        proof {
            use_type_invariant(&*self);
        }
        self.root = Some(id);
    }

    pub fn get_root(&self) -> (r: Option<NodeId>)
        ensures
            r == self.root_spec(),
    {
        self.root
    }

    /// The nodes in the order they were added; no two share an id, and
    /// every id is below the next id to hand out.
    pub fn nodes(&self) -> (r: &Vec<AstNode>)
        ensures
            r@ == self.nodes_spec(),
            forall|i: int, j: int| 0 <= i < j < r@.len() ==> (#[trigger] r@[i]).id != (#[trigger] r@[j]).id,
            forall|i: int| 0 <= i < r@.len() ==> (#[trigger] r@[i]).id.0 < self.next_id_spec(),
    {
        proof {
            use_type_invariant(self);
        }
        &self.nodes
    }

    pub fn edges(&self) -> (r: &Vec<AstEdge>)
        ensures
            r@ == self.edges_spec(),
    {
        &self.edges
    }

    /// Takes the node with id `id` out of the graph, leaving a placeholder
    /// in its place; `put_back` returns it.
    fn take_node(&mut self, i: usize) -> (r: AstNode)
        requires
            i < old(self).nodes_spec().len(),
        ensures
            r == old(self).nodes_spec()[i as int],
            final(self).nodes_spec().len() == old(self).nodes_spec().len(),
            final(self).nodes_spec()[i as int].id == r.id,
            forall|j: int| 0 <= j < old(self).nodes_spec().len() && j != i ==> final(self).nodes_spec()[j] == old(self).nodes_spec()[j],
            final(self).edges_spec() == old(self).edges_spec(),
            final(self).root_spec() == old(self).root_spec(),
            final(self).next_id_spec() == old(self).next_id_spec(),
    {
        proof {
            use_type_invariant(&*self);
        }
        let mut nodes: Vec<AstNode> = Vec::new();
        std::mem::swap(&mut nodes, &mut self.nodes);
        let id = nodes[i].id;
        let placeholder = AstNode::new(id, NodeType::Unknown, PdfValue::Null);
        let ghost before = nodes@;
        let taken = nodes.remove(i);
        nodes.insert(i, placeholder);
        proof {
            assert forall|a: int, b: int| 0 <= a < b < nodes@.len() implies (#[trigger] nodes@[a]).id != (
            #[trigger] nodes@[b]).id by {
                assert(before[a].id != before[b].id);
            }
            assert forall|a: int| 0 <= a < nodes@.len() implies (#[trigger] nodes@[a]).id.0 < self.next_id by {
                assert(before[a].id.0 < self.next_id);
            }
        }
        self.nodes = nodes;
        taken
    }

    fn put_back(&mut self, i: usize, node: AstNode)
        requires
            i < old(self).nodes_spec().len(),
            old(self).nodes_spec()[i as int].id == node.id,
        ensures
            final(self).nodes_spec() == old(self).nodes_spec().update(i as int, node),
            final(self).edges_spec() == old(self).edges_spec(),
            final(self).root_spec() == old(self).root_spec(),
            final(self).next_id_spec() == old(self).next_id_spec(),
    {
        proof {
            use_type_invariant(&*self);
        }
        let mut nodes: Vec<AstNode> = Vec::new();
        std::mem::swap(&mut nodes, &mut self.nodes);
        let ghost before = nodes@;
        nodes.set(i, node);
        proof {
            assert forall|a: int, b: int| 0 <= a < b < nodes@.len() implies (#[trigger] nodes@[a]).id != (
            #[trigger] nodes@[b]).id by {
                assert(before[a].id != before[b].id);
            }
            assert forall|a: int| 0 <= a < nodes@.len() implies (#[trigger] nodes@[a]).id.0 < self.next_id by {
                assert(before[a].id.0 < self.next_id);
            }
        }
        self.nodes = nodes;
    }

    /// Changes the type of the node with id `id`; `false` when there is none.
    pub fn set_node_type(&mut self, id: NodeId, node_type: NodeType) -> (r: bool)
        ensures
            r == old(self).has_node(id),
            r ==> (final(self).node(id) matches Some(n) && old(self).node(id) matches Some(o) && n.node_type
                == node_type && n.value == o.value && n.metadata == o.metadata),
            forall|other: NodeId|
                other != id ==> #[trigger] final(self).node(other) == old(self).node(other),
            final(self).nodes_spec().len() == old(self).nodes_spec().len(),
            final(self).edges_spec() == old(self).edges_spec(),
            final(self).root_spec() == old(self).root_spec(),
            final(self).next_id_spec() == old(self).next_id_spec(),
    {
        proof {
            use_type_invariant(&*self);
        }
        match self.position(id) {
            Some(i) => {
                let ghost old_nodes = self.nodes@;
                let mut node = self.take_node(i);
                node.node_type = node_type;
                self.put_back(i, node);
                proof {
                    self.lemma_same_ids(old_nodes, i as int);
                }
                true
            },
            None => false,
        }
    }

    /// Sets a property of the node with id `id`; `false` when there is none.
    pub fn set_node_property(&mut self, id: NodeId, key: String, value: String) -> (r: bool)
        ensures
            r == old(self).has_node(id),
            !r ==> final(self).nodes_spec() == old(self).nodes_spec(),
            r ==> (final(self).node(id) matches Some(n) && old(self).node(id) matches Some(o) && n.node_type
                == o.node_type && n.value == o.value && n.metadata.props() == spec_dict_insert(
                o.metadata.props(),
                key@,
                value@,
            ) && n.metadata.warnings_spec() == o.metadata.warnings_spec()),
            forall|other: NodeId|
                other != id ==> #[trigger] final(self).node(other) == old(self).node(other),
            final(self).nodes_spec().len() == old(self).nodes_spec().len(),
            final(self).edges_spec() == old(self).edges_spec(),
            final(self).root_spec() == old(self).root_spec(),
            final(self).next_id_spec() == old(self).next_id_spec(),
    {
        proof {
            use_type_invariant(&*self);
        }
        match self.position(id) {
            Some(i) => {
                let ghost old_nodes = self.nodes@;
                let mut node = self.take_node(i);
                node.metadata.set_property(key, value);
                self.put_back(i, node);
                proof {
                    self.lemma_same_ids(old_nodes, i as int);
                }
                true
            },
            None => false,
        }
    }

    /// After one node at index `i` changed, but not its id, every id is
    /// found where it was found before.
    proof fn lemma_same_ids(&self, old_nodes: Seq<AstNode>, i: int)
        requires
            0 <= i < old_nodes.len(),
            self.nodes@.len() == old_nodes.len(),
            self.nodes@[i].id == old_nodes[i].id,
            forall|j: int| 0 <= j < old_nodes.len() && j != i ==> self.nodes@[j] == old_nodes[j],
            forall|a: int, b: int| 0 <= a < b < old_nodes.len() ==> (#[trigger] old_nodes[a]).id != (#[trigger] old_nodes[b]).id,
        ensures
            forall|other: NodeId| #[trigger] holds_node(self.nodes@, other) == holds_node(old_nodes, other),
            forall|other: NodeId|
                holds_node(old_nodes, other) ==> #[trigger] index_of_node(self.nodes@, other) == index_of_node(
                    old_nodes,
                    other,
                ),
    {
        let nodes = self.nodes@;
        assert forall|other: NodeId| #[trigger] holds_node(nodes, other) == holds_node(old_nodes, other) by {
            if holds_node(old_nodes, other) {
                let k = choose|k: int| 0 <= k < old_nodes.len() && old_nodes[k].id == other;
                assert(nodes[k].id == other);
            }
            if holds_node(nodes, other) {
                let k = choose|k: int| 0 <= k < nodes.len() && nodes[k].id == other;
                assert(old_nodes[k].id == other);
            }
        }
        assert forall|other: NodeId|
            holds_node(old_nodes, other) implies #[trigger] index_of_node(nodes, other) == index_of_node(
            old_nodes,
            other,
        ) by {
            let a = index_of_node(nodes, other);
            let b = index_of_node(old_nodes, other);
            assert(nodes[b].id == other);
            assert(old_nodes[a].id == other);
        }
    }
}

impl PdfAstGraph {
    /// Adds a warning to the node with id `id`; `false` when there is none.
    pub fn add_node_warning(&mut self, id: NodeId, warning: String) -> (r: bool)
        ensures
            r == old(self).has_node(id),
            !r ==> final(self).nodes_spec() == old(self).nodes_spec(),
            r ==> (final(self).node(id) matches Some(n) && old(self).node(id) matches Some(o) && n.node_type
                == o.node_type && n.value == o.value && n.metadata.props() == o.metadata.props()
                && n.metadata.warnings_spec() == o.metadata.warnings_spec().push(warning)),
            forall|other: NodeId|
                other != id ==> #[trigger] final(self).node(other) == old(self).node(other),
            final(self).nodes_spec().len() == old(self).nodes_spec().len(),
            final(self).edges_spec() == old(self).edges_spec(),
            final(self).root_spec() == old(self).root_spec(),
            final(self).next_id_spec() == old(self).next_id_spec(),
    {
        proof {
            use_type_invariant(&*self);
        }
        match self.position(id) {
            Some(i) => {
                let ghost old_nodes = self.nodes@;
                let mut node = self.take_node(i);
                node.metadata.add_warning(warning);
                self.put_back(i, node);
                proof {
                    self.lemma_same_ids(old_nodes, i as int);
                }
                true
            },
            None => false,
        }
    }

    /// Replaces the value of the node with id `id`; `false` when there is
    /// none.
    pub fn set_node_value(&mut self, id: NodeId, value: PdfValue) -> (r: bool)
        ensures
            r == old(self).has_node(id),
            !r ==> final(self).nodes_spec() == old(self).nodes_spec(),
            r ==> (final(self).node(id) matches Some(n) && old(self).node(id) matches Some(o) && n.node_type
                == o.node_type && n.value == value && n.metadata == o.metadata),
            forall|other: NodeId|
                other != id ==> #[trigger] final(self).node(other) == old(self).node(other),
            final(self).nodes_spec().len() == old(self).nodes_spec().len(),
            final(self).edges_spec() == old(self).edges_spec(),
            final(self).root_spec() == old(self).root_spec(),
            final(self).next_id_spec() == old(self).next_id_spec(),
    {
        proof {
            use_type_invariant(&*self);
        }
        match self.position(id) {
            Some(i) => {
                let ghost old_nodes = self.nodes@;
                let mut node = self.take_node(i);
                node.value = value;
                self.put_back(i, node);
                proof {
                    self.lemma_same_ids(old_nodes, i as int);
                }
                true
            },
            None => false,
        }
    }

    /// The targets of the edges that leave `id`, in the order the edges
    /// were added.
    pub fn get_children(&self, id: NodeId) -> (r: Vec<NodeId>)
        ensures
            r@ == children_in(self.edges_spec(), id),
    {
        let mut out: Vec<NodeId> = Vec::new();
        let mut k: usize = 0;
        while k < self.edges.len()
            invariant
                k <= self.edges@.len(),
                out@ == children_in(self.edges@.take(k as int), id),
            decreases self.edges@.len() - k,
        {
            proof {
                assert(self.edges@.take(k + 1).drop_last() =~= self.edges@.take(k as int));
            }
            let e = self.edges[k];
            if e.from == id {
                out.push(e.to);
            }
            k = k + 1;
        }
        proof {
            assert(self.edges@.take(self.edges@.len() as int) =~= self.edges@);
        }
        out
    }
}

/// The targets of the edges from `id`, in order.
pub open spec fn children_in(edges: Seq<AstEdge>, id: NodeId) -> Seq<NodeId>
    decreases edges.len(),
{
    if edges.len() == 0 {
        Seq::empty()
    } else if edges.last().from == id {
        children_in(edges.drop_last(), id).push(edges.last().to)
    } else {
        children_in(edges.drop_last(), id)
    }
}

/// Every node of `a` is still in `b`, with its type, and `b` hands out no
/// smaller ids.
pub open spec fn nodes_remain(a: PdfAstGraph, b: PdfAstGraph) -> bool {
    &&& forall|id: NodeId| #[trigger] a.has_node(id) ==> b.has_node(id) && b.node(id).unwrap().node_type == a.node(
        id,
    ).unwrap().node_type
    &&& b.next_id_spec() >= a.next_id_spec()
}


/// Whether the node with id `id` is among `nodes` and not yet taken away.
pub open spec fn alive(nodes: Seq<AstNode>, removed: Seq<bool>, id: NodeId) -> bool {
    exists|j: int| 0 <= j < nodes.len() && nodes[j].id == id && !removed[j]
}

/// Whether some edge leads to `id` from a node still there.
pub open spec fn live_in_edge(nodes: Seq<AstNode>, edges: Seq<AstEdge>, removed: Seq<bool>, id: NodeId) -> bool {
    exists|k: int| 0 <= k < edges.len() && edges[k].to == id && alive(nodes, removed, edges[k].from)
}

/// A non-empty set of nodes each of which an edge reaches from the set;
/// a finite graph has one exactly when it has a cycle.
pub open spec fn cyclic_core(g: PdfAstGraph, s: Set<NodeId>) -> bool {
    &&& exists|n: NodeId| s.contains(n)
    &&& forall|n: NodeId|
        #![trigger s.contains(n)]
        s.contains(n) ==> g.has_node(n) && exists|k: int|
            0 <= k < g.edges_spec().len() && g.edges_spec()[k].to == n && s.contains(g.edges_spec()[k].from)
}

pub open spec fn spec_is_cyclic(g: PdfAstGraph) -> bool {
    exists|s: Set<NodeId>| cyclic_core(g, s)
}

impl PdfAstGraph {
    fn is_alive(&self, removed: &Vec<bool>, id: NodeId) -> (r: bool)
        requires
            removed@.len() == self.nodes_spec().len(),
        ensures
            r == alive(self.nodes_spec(), removed@, id),
    {
        let nodes = self.nodes();
        let mut j: usize = 0;
        while j < nodes.len()
            invariant
                j <= nodes@.len(),
                nodes@ == self.nodes_spec(),
                removed@.len() == nodes@.len(),
                forall|i: int| 0 <= i < j ==> !(nodes@[i].id == id && !removed@[i]),
            decreases nodes@.len() - j,
        {
            if nodes[j].id == id && !removed[j] {
                return true;
            }
            j = j + 1;
        }
        false
    }

    fn has_live_in_edge(&self, removed: &Vec<bool>, id: NodeId) -> (r: bool)
        requires
            removed@.len() == self.nodes_spec().len(),
        ensures
            r == live_in_edge(self.nodes_spec(), self.edges_spec(), removed@, id),
    {
        let edges = self.edges();
        let mut k: usize = 0;
        while k < edges.len()
            invariant
                k <= edges@.len(),
                edges@ == self.edges_spec(),
                removed@.len() == self.nodes_spec().len(),
                forall|i: int|
                    0 <= i < k ==> !(edges@[i].to == id && alive(self.nodes_spec(), removed@, edges@[i].from)),
            decreases edges@.len() - k,
        {
            if edges[k].to == id && self.is_alive(removed, edges[k].from) {
                return true;
            }
            k = k + 1;
        }
        false
    }

    /// A node still there that no edge reaches from a node still there.
    fn find_removable(&self, removed: &Vec<bool>) -> (r: Option<usize>)
        requires
            removed@.len() == self.nodes_spec().len(),
        ensures
            r matches Some(f) ==> f < removed@.len() && !removed@[f as int] && !live_in_edge(
                self.nodes_spec(),
                self.edges_spec(),
                removed@,
                self.nodes_spec()[f as int].id,
            ),
            r is None ==> forall|j: int|
                0 <= j < removed@.len() && !removed@[j] ==> live_in_edge(
                    self.nodes_spec(),
                    self.edges_spec(),
                    removed@,
                    #[trigger] self.nodes_spec()[j].id,
                ),
    {
        let nodes = self.nodes();
        let mut i: usize = 0;
        while i < nodes.len()
            invariant
                i <= nodes@.len(),
                nodes@ == self.nodes_spec(),
                removed@.len() == nodes@.len(),
                forall|j: int|
                    0 <= j < i && !removed@[j] ==> live_in_edge(nodes@, self.edges_spec(), removed@, #[trigger] nodes@[j].id),
            decreases nodes@.len() - i,
        {
            if !removed[i] && !self.has_live_in_edge(removed, nodes[i].id) {
                return Some(i);
            }
            i = i + 1;
        }
        None
    }

    /// Whether the graph has a cycle: nodes are taken away while one has no
    /// edge coming from a node still there, and the graph is cyclic when
    /// some are left.
    pub fn is_cyclic(&self) -> (r: bool)
        ensures
            r == spec_is_cyclic(*self),
    {
        let nodes = self.nodes();
        let ghost g = *self;
        let n = nodes.len();
        let mut removed: Vec<bool> = Vec::new();
        let mut i: usize = 0;
        while i < n
            invariant
                i <= n,
                n == nodes@.len(),
                removed@.len() == i,
                forall|j: int| 0 <= j < i ==> !removed@[j],
            decreases n - i,
        {
            removed.push(false);
            i = i + 1;
        }
        proof {
            lemma_count_all_false(removed@, n as int);
        }
        let mut left: usize = n;
        loop
            invariant
                nodes@ == self.nodes_spec(),
                g == *self,
                removed@.len() == nodes@.len(),
                n == nodes@.len(),
                left == count_false(removed@, n as int),
                forall|s: Set<NodeId>, j: int|
                    #![trigger cyclic_core(g, s), nodes@[j]]
                    cyclic_core(g, s) && 0 <= j < n && removed@[j] ==> !s.contains(nodes@[j].id),
            ensures
                removed@.len() == n,
                forall|s: Set<NodeId>, j: int|
                    #![trigger cyclic_core(g, s), nodes@[j]]
                    cyclic_core(g, s) && 0 <= j < n && removed@[j] ==> !s.contains(nodes@[j].id),
                forall|j: int|
                    0 <= j < n && !removed@[j] ==> live_in_edge(nodes@, self.edges_spec(), removed@, #[trigger] nodes@[j].id),
            decreases left,
        {
            match self.find_removable(&removed) {
                Some(f) => {
                    let ghost before = removed@;
                    proof {
                        assert forall|s: Set<NodeId>| cyclic_core(g, s) implies !s.contains(nodes@[f as int].id) by {
                            assert forall|j: int| 0 <= j < before.len() && before[j] implies !s.contains(
                                #[trigger] g.nodes_spec()[j].id,
                            ) by {
                                assert(nodes@[j] == g.nodes_spec()[j]);
                            }
                            lemma_not_in_core(g, before, f as int, s);
                        }
                        lemma_count_set(removed@, f as int, n as int);
                    }
                    removed.set(f, true);
                    proof {
                        assert forall|s: Set<NodeId>, j: int|
                            #![trigger cyclic_core(g, s), nodes@[j]]
                            cyclic_core(g, s) && 0 <= j < n && removed@[j] implies !s.contains(nodes@[j].id) by {
                            if j != f {
                                assert(before[j]);
                            }
                        }
                    }
                    left = left - 1;
                },
                None => {
                    break;
                },
            }
        }
        let mut cyclic = false;
        let mut i: usize = 0;
        while i < n
            invariant
                i <= n,
                n == nodes@.len(),
                removed@.len() == n,
                cyclic == exists|j: int| 0 <= j < i && !removed@[j],
            decreases n - i,
        {
            if !removed[i] {
                cyclic = true;
            }
            i = i + 1;
        }
        proof {
            if cyclic {
                let s = Set::new(|id: NodeId| alive(nodes@, removed@, id));
                let j0 = choose|j: int| 0 <= j < n && !removed@[j];
                assert(s.contains(nodes@[j0].id));
                assert forall|m: NodeId| #![trigger s.contains(m)] s.contains(m) implies g.has_node(m) && exists|k: int|
                    0 <= k < g.edges_spec().len() && g.edges_spec()[k].to == m && s.contains(g.edges_spec()[k].from) by {
                    let j = choose|j: int| 0 <= j < nodes@.len() && nodes@[j].id == m && !removed@[j];
                    assert(live_in_edge(nodes@, self.edges_spec(), removed@, nodes@[j].id));
                    let k = choose|k: int|
                        0 <= k < self.edges_spec().len() && self.edges_spec()[k].to == m && alive(
                            nodes@,
                            removed@,
                            self.edges_spec()[k].from,
                        );
                    assert(s.contains(g.edges_spec()[k].from));
                }
                assert(cyclic_core(g, s));
            } else {
                assert forall|s: Set<NodeId>| !cyclic_core(g, s) by {
                    if cyclic_core(g, s) {
                        let m = choose|m: NodeId| s.contains(m);
                        assert(g.has_node(m));
                        let j = choose|j: int| 0 <= j < nodes@.len() && nodes@[j].id == m;
                        assert(nodes@[j] == nodes@[j]);
                        assert(removed@[j]);
                    }
                }
            }
        }
        cyclic
    }
}


/// How many of `r[0..k]` are false.
pub open spec fn count_false(r: Seq<bool>, k: int) -> nat
    decreases k,
{
    if k <= 0 {
        0
    } else {
        count_false(r, k - 1) + if r[k - 1] {
            0nat
        } else {
            1nat
        }
    }
}

proof fn lemma_count_all_false(r: Seq<bool>, k: int)
    requires
        0 <= k <= r.len(),
        forall|j: int| 0 <= j < k ==> !r[j],
    ensures
        count_false(r, k) == k,
    decreases k,
{
    if k > 0 {
        lemma_count_all_false(r, k - 1);
    }
}

proof fn lemma_count_set(r: Seq<bool>, f: int, k: int)
    requires
        0 <= f < k <= r.len(),
        !r[f],
    ensures
        count_false(r.update(f, true), k) + 1 == count_false(r, k),
    decreases k,
{
    if k - 1 > f {
        lemma_count_set(r, f, k - 1);
    } else {
        lemma_count_same(r, r.update(f, true), f);
    }
}

proof fn lemma_count_same(a: Seq<bool>, b: Seq<bool>, k: int)
    requires
        0 <= k <= a.len(),
        k <= b.len(),
        forall|j: int| 0 <= j < k ==> a[j] == b[j],
    ensures
        count_false(a, k) == count_false(b, k),
    decreases k,
{
    if k > 0 {
        lemma_count_same(a, b, k - 1);
    }
}

/// A node no edge reaches from a node still there lies in no cyclic core
/// whose nodes are all still there.
proof fn lemma_not_in_core(g: PdfAstGraph, removed: Seq<bool>, f: int, s: Set<NodeId>)
    requires
        removed.len() == g.nodes_spec().len(),
        0 <= f < removed.len(),
        cyclic_core(g, s),
        !live_in_edge(g.nodes_spec(), g.edges_spec(), removed, g.nodes_spec()[f].id),
        forall|j: int| 0 <= j < removed.len() && removed[j] ==> !s.contains(#[trigger] g.nodes_spec()[j].id),
    ensures
        !s.contains(g.nodes_spec()[f].id),
{
    let nodes = g.nodes_spec();
    let id = nodes[f].id;
    if s.contains(id) {
        let k = choose|k: int|
            0 <= k < g.edges_spec().len() && g.edges_spec()[k].to == id && s.contains(g.edges_spec()[k].from);
        let from = g.edges_spec()[k].from;
        assert(g.has_node(from));
        let i = choose|i: int| 0 <= i < nodes.len() && nodes[i].id == from;
        assert(nodes[i].id == g.nodes_spec()[i].id);
        assert(!removed[i]);
        assert(alive(nodes, removed, from));
    }
}

} // verus!
