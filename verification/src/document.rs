//! A parsed document: its version, graph, cross-reference entries, trailer
//! and the diagnostics recorded while reading it.
use crate::ast::{NodeId, PdfAstGraph};
use crate::limits::ResourceBudget;
use crate::reference_resolver::ObjectNodeMap;
use crate::text::concat2;
use crate::types::{ObjectId, PdfDictionary};
use crate::xref::{LinearizationInfo, XRefEntry};
use vstd::prelude::*;

verus! {

/// How strictly malformed input is handled.
#[derive(Debug, Clone, Copy, PartialEq, Eq, Structural)]
pub enum ParseMode {
    /// Any malformation is an error.
    Strict,
    /// Malformations are recorded as diagnostics and parsing goes on.
    Tolerant,
    /// Tolerant, and keeps what it finds about the file's history.
    Forensic,
}

impl ParseMode {
    pub open spec fn spec_tolerant(self) -> bool {
        !(self is Strict)
    }

    pub fn is_tolerant(&self) -> (r: bool)
        ensures
            r == self.spec_tolerant(),
    {
        match self {
            ParseMode::Strict => false,
            _ => true,
        }
    }

    pub fn is_forensic(&self) -> (r: bool)
        ensures
            r == (*self is Forensic),
    {
        match self {
            ParseMode::Forensic => true,
            _ => false,
        }
    }
}

/// Why a document could not be read.
#[derive(Debug, Clone)]
pub enum AstError {
    ParseError(String),
}

impl AstError {
    pub open spec fn message(&self) -> Seq<char> {
        match self {
            AstError::ParseError(m) => m@,
        }
    }

    /// The error as text.
    pub fn to_string(&self) -> (r: String)
        ensures
            r@ == "Parse error: "@ + self.message(),
    {
        match self {
            AstError::ParseError(m) => concat2("Parse error: ", m.as_str()),
        }
    }
}

#[derive(Debug, Clone, Copy, PartialEq, Eq, Structural)]
pub struct PdfVersion {
    pub major: u8,
    pub minor: u8,
}

impl PdfVersion {
    pub fn new(major: u8, minor: u8) -> (r: Self)
        ensures
            r == (PdfVersion { major, minor }),
    {
        PdfVersion { major, minor }
    }
}

/// Something found wrong while reading, and what was done about it.
#[derive(Debug, Clone)]
pub struct ParseDiagnostic {
    pub object_id: Option<ObjectId>,
    pub offset: Option<u64>,
    pub error_code: String,
    pub recovery_action: String,
    /// How sure the recovery is, in percent.
    pub confidence_percent: u8,
    pub bytes_consumed: u64,
    pub message: String,
}

/// Cross-reference entries by object id; each id at most once.
#[derive(Debug)]
pub struct XRefMap {
    entries: Vec<(ObjectId, XRefEntry)>,
}

impl XRefMap {
    #[verifier::type_invariant]
    closed spec fn wf(&self) -> bool {
        crate::types::keys_unique(self.entries@)
    }

    pub closed spec fn entries_spec(&self) -> Seq<(ObjectId, XRefEntry)> {
        self.entries@
    }

    /// The entry of `id`.
    pub open spec fn spec_get(&self, id: ObjectId) -> Option<XRefEntry> {
        crate::types::spec_dict_get(self.entries_spec(), id)
    }

    pub fn new() -> (r: Self)
        ensures
            forall|id: ObjectId| #[trigger] r.spec_get(id) is None,
            r.entries_spec().len() == 0,
    {
        XRefMap { entries: Vec::new() }
    }

    fn position(&self, id: &ObjectId) -> (r: Option<usize>)
        ensures
            r matches Some(i) ==> i < self.entries_spec().len() && self.entries_spec()[i as int].0 == *id
                && forall|j: int| 0 <= j < i ==> self.entries_spec()[j].0 != *id,
            r is None ==> forall|j: int| 0 <= j < self.entries_spec().len() ==> self.entries_spec()[j].0 != *id,
    {
        let mut i: usize = 0;
        while i < self.entries.len()
            invariant
                i <= self.entries@.len(),
                forall|j: int| 0 <= j < i ==> self.entries@[j].0 != *id,
            decreases self.entries@.len() - i,
        {
            if self.entries[i].0 == *id {
                return Some(i);
            }
            i = i + 1;
        }
        None
    }

    pub fn get(&self, id: &ObjectId) -> (r: Option<XRefEntry>)
        ensures
            r == self.spec_get(*id),
    {
        match self.position(id) {
            Some(i) => {
                proof {
                    crate::types::lemma_dict_get_first(self.entries@, *id, i as int);
                }
                Some(self.entries[i].1)
            },
            None => {
                proof {
                    crate::types::lemma_dict_absent(self.entries@, *id, XRefEntry::Free { next_free_object: 0, generation: 0 });
                }
                None
            },
        }
    }

    pub fn contains_key(&self, id: &ObjectId) -> (r: bool)
        ensures
            r == self.spec_get(*id) is Some,
    {
        self.get(id).is_some()
    }

    pub fn len(&self) -> (r: usize)
        ensures
            r == self.entries_spec().len(),
    {
        self.entries.len()
    }

    /// Sets the entry of `id`, replacing the one it had.
    pub fn insert(&mut self, id: ObjectId, entry: XRefEntry)
        ensures
            final(self).spec_get(id) == Some(entry),
            forall|other: ObjectId| other != id ==> #[trigger] final(self).spec_get(other) == old(self).spec_get(other),
            final(self).entries_spec() == crate::types::spec_dict_insert(old(self).entries_spec(), id, entry),
    {
        proof {
            use_type_invariant(&*self);
        }
        let ghost old_e = self.entries@;
        let found = self.position(&id);
        let mut e: Vec<(ObjectId, XRefEntry)> = Vec::new();
        std::mem::swap(&mut e, &mut self.entries);
        match found {
            Some(i) => {
                proof {
                    crate::types::lemma_dict_insert_at(old_e, id, entry, i as int);
                }
                e.set(i, (id, entry));
            },
            None => {
                proof {
                    crate::types::lemma_dict_absent(old_e, id, entry);
                }
                e.push((id, entry));
            },
        }
        proof {
            crate::types::lemma_insert_keeps_unique(old_e, id, entry);
            assert forall|k: ObjectId| #![auto] k != id implies crate::types::spec_dict_get(e@, k)
                == crate::types::spec_dict_get(old_e, k) by {
                crate::types::lemma_insert_get(old_e, id, entry, k);
            }
            crate::types::lemma_insert_get(old_e, id, entry, id);
        }
        self.entries = e;
    }

    /// The entries in the order their ids were first set.
    pub fn entries(&self) -> (r: &Vec<(ObjectId, XRefEntry)>)
        ensures
            r@ == self.entries_spec(),
            crate::types::keys_unique(self.entries_spec()),
    {
        proof {
            use_type_invariant(self);
        }
        &self.entries
    }
}

#[derive(Debug)]
pub struct XRefTable {
    pub entries: XRefMap,
    pub hybrid_mode: bool,
}

/// One revision of the file: a cross-reference section and its trailer.
#[derive(Debug)]
pub struct DocumentRevision {
    pub revision_number: u32,
    pub xref_offset: u64,
    pub trailer: PdfDictionary,
    pub modified_objects: Vec<ObjectId>,
    pub added_objects: Vec<ObjectId>,
    pub deleted_objects: Vec<ObjectId>,
}

/// What is known of a document while and after reading it.
pub struct PdfDocument {
    pub version: PdfVersion,
    pub ast: PdfAstGraph,
    pub xref: XRefTable,
    pub trailer: PdfDictionary,
    pub diagnostics: Vec<ParseDiagnostic>,
    pub revisions: Vec<DocumentRevision>,
    pub catalog: Option<NodeId>,
    pub info: Option<NodeId>,
    pub file_size: Option<u64>,
    pub has_forms: bool,
    pub linearization: Option<LinearizationInfo>,
    pub object_nodes: ObjectNodeMap,
    pub budget: ResourceBudget,
}

impl PdfDocument {
    pub fn new(version: PdfVersion) -> (r: Self)
        ensures
            r.version == version,
            r.ast.nodes_spec().len() == 0,
            r.ast.next_id_spec() == 0,
            r.xref.entries.entries_spec().len() == 0,
            r.trailer.sv_entries().len() == 0,
            r.diagnostics@.len() == 0,
            r.catalog is None,
    {
        PdfDocument {
            version,
            ast: PdfAstGraph::new(),
            xref: XRefTable { entries: XRefMap::new(), hybrid_mode: false },
            trailer: PdfDictionary::new(),
            diagnostics: Vec::new(),
            revisions: Vec::new(),
            catalog: None,
            info: None,
            file_size: None,
            has_forms: false,
            linearization: None,
            object_nodes: ObjectNodeMap::new(),
            budget: ResourceBudget::default(),
        }
    }
}

} // verus!
