//! Lazy loading of document parts: what is loaded of a page or an image,
//! and a least-recently-used cache keyed by object id.
use crate::types::ObjectId;
use vstd::prelude::*;

verus! {

/// Load priorities by kind of content; higher loads first.
#[derive(Debug, Clone, Copy, PartialEq, Eq, Structural)]
pub struct ContentPriorities {
    pub text: u8,
    pub images: u8,
    pub vector_graphics: u8,
    pub forms: u8,
    pub annotations: u8,
    pub metadata: u8,
}

impl Default for ContentPriorities {
    fn default() -> (r: Self)
        ensures
            r == (ContentPriorities {
                text: 10,
                images: 7,
                vector_graphics: 8,
                forms: 6,
                annotations: 5,
                metadata: 3,
            }),
    {
        ContentPriorities { text: 10, images: 7, vector_graphics: 8, forms: 6, annotations: 5, metadata: 3 }
    }
}

/// Which parts of a page have been loaded.
#[derive(Debug, Clone, Copy, PartialEq, Eq, Structural)]
pub struct LoadedComponents {
    pub basic_info: bool,
    pub content_streams: bool,
    pub resources: bool,
    pub annotations: bool,
    pub images: bool,
    pub fonts: bool,
}

/// How far a page is loaded; times are milliseconds on the loader's clock.
#[derive(Debug, Clone)]
pub enum PageLoadState {
    NotLoaded,
    Loading { started_at_ms: u64 },
    PartiallyLoaded { components: LoadedComponents },
    FullyLoaded { loaded_at_ms: u64 },
    LoadError { error: String },
}

/// A page known by its objects, loaded on demand.
#[derive(Debug)]
pub struct LazyPage {
    pub page_number: u32,
    pub content_streams: Vec<ObjectId>,
    pub annotations: Vec<ObjectId>,
    pub load_state: PageLoadState,
    pub load_priority: u8,
}

#[derive(Debug, Clone)]
pub struct ImageMetadata {
    pub width: u32,
    pub height: u32,
    pub bits_per_component: u8,
    pub color_space: String,
    pub compression: Option<String>,
    pub size_bytes: usize,
    pub is_mask: bool,
    pub is_inline: bool,
}

#[derive(Debug)]
pub struct DecodedImage {
    pub pixels: Vec<u8>,
    pub width: u32,
    pub height: u32,
    pub color_space: String,
    pub decoded_at_ms: u64,
}

/// Values by object id, most recently used first; each id at most once.
/// When full, inserting a new id drops the least recently used entry.
pub struct LruCache<V> {
    entries: Vec<(ObjectId, V)>,
    capacity: usize,
}

/// How many entries a cache of `capacity` holds at most: an empty capacity
/// still keeps the entry just inserted.
pub open spec fn lru_bound(capacity: usize) -> int {
    if capacity == 0 {
        1
    } else {
        capacity as int
    }
}

pub open spec fn ids_unique<V>(e: Seq<(ObjectId, V)>) -> bool {
    forall|i: int, j: int| 0 <= i < j < e.len() ==> (#[trigger] e[i]).0 != (#[trigger] e[j]).0
}

impl<V> LruCache<V> {
    #[verifier::type_invariant]
    closed spec fn wf(&self) -> bool {
        &&& ids_unique(self.entries@)
        &&& self.entries@.len() <= lru_bound(self.capacity)
    }

    /// The entries, most recently used first.
    pub closed spec fn entries_spec(&self) -> Seq<(ObjectId, V)> {
        self.entries@
    }

    pub closed spec fn capacity_spec(&self) -> usize {
        self.capacity
    }

    pub fn new(capacity: usize) -> (r: Self)
        ensures
            r.entries_spec().len() == 0,
            r.capacity_spec() == capacity,
    {
        LruCache { entries: Vec::new(), capacity }
    }

    fn position(&self, key: &ObjectId) -> (r: Option<usize>)
        ensures
            r matches Some(i) ==> i < self.entries_spec().len() && self.entries_spec()[i as int].0 == *key,
            r is None ==> forall|j: int| 0 <= j < self.entries_spec().len() ==> self.entries_spec()[j].0 != *key,
    {
        let mut i: usize = 0;
        while i < self.entries.len()
            invariant
                i <= self.entries@.len(),
                forall|j: int| 0 <= j < i ==> self.entries@[j].0 != *key,
            decreases self.entries@.len() - i,
        {
            if self.entries[i].0 == *key {
                return Some(i);
            }
            i = i + 1;
        }
        None
    }

    /// The value under `key`, which becomes the most recently used.
    pub fn get(&mut self, key: &ObjectId) -> (r: Option<&V>)
        ensures
            final(self).capacity_spec() == old(self).capacity_spec(),
            final(self).entries_spec().len() <= lru_bound(final(self).capacity_spec()),
            ids_unique(final(self).entries_spec()),
            match crate::types::spec_dict_get(old(self).entries_spec(), *key) {
                Some(v) => r == Some(&v) && final(self).entries_spec()[0] == (*key, v) && exists|i: int|
                    0 <= i < old(self).entries_spec().len() && old(self).entries_spec()[i] == (*key, v)
                        && final(self).entries_spec() == seq![(*key, v)] + old(self).entries_spec().remove(i),
                None => r is None && final(self).entries_spec() == old(self).entries_spec(),
            },
    {
        proof {
            use_type_invariant(&*self);
        }
        match self.position(key) {
            Some(i) => {
                proof {
                    let e = self.entries@;
                    assert forall|j: int| 0 <= j < i implies e[j].0 != *key by {
                        assert(e[j].0 != e[i as int].0);
                    }
                    crate::types::lemma_dict_get_first(e, *key, i as int);
                }
                let ghost old_e = self.entries@;
                let mut e: Vec<(ObjectId, V)> = Vec::new();
                std::mem::swap(&mut e, &mut self.entries);
                let entry = e.remove(i);
                e.insert(0, entry);
                proof {
                    assert(e@ =~= seq![old_e[i as int]] + old_e.remove(i as int));
                    assert forall|a: int, b: int| 0 <= a < b < e@.len() implies (#[trigger] e@[a]).0 != (
                    #[trigger] e@[b]).0 by {
                        let oa = if a == 0 { i as int } else if a - 1 < i { a - 1 } else { a };
                        let ob = if b - 1 < i { b - 1 } else { b };
                        assert(e@[a] == old_e[oa]);
                        assert(e@[b] == old_e[ob]);
                        if oa < ob {
                            assert(old_e[oa].0 != old_e[ob].0);
                        } else {
                            assert(old_e[ob].0 != old_e[oa].0);
                        }
                    }
                }
                self.entries = e;
                proof {
                    use_type_invariant(&*self);
                }
                Some(&self.entries[0].1)
            },
            None => {
                proof {
                    crate::types::lemma_dict_absent(self.entries@, *key, arbitrary::<V>());
                    use_type_invariant(&*self);
                }
                None
            },
        }
    }

    /// Puts `value` under `key` as the most recently used entry; gives back
    /// the value the key had. A new key in a full cache first drops the
    /// least recently used entry.
    pub fn insert(&mut self, key: ObjectId, value: V) -> (r: Option<V>)
        ensures
            final(self).capacity_spec() == old(self).capacity_spec(),
            final(self).entries_spec().len() <= lru_bound(final(self).capacity_spec()),
            ids_unique(final(self).entries_spec()),
            final(self).entries_spec()[0] == (key, value),
            match crate::types::spec_dict_get(old(self).entries_spec(), key) {
                Some(v) => r == Some(v) && exists|i: int|
                    0 <= i < old(self).entries_spec().len() && old(self).entries_spec()[i] == (key, v)
                        && final(self).entries_spec() == seq![(key, value)] + old(self).entries_spec().remove(i),
                None => r is None && final(self).entries_spec() == seq![(key, value)] + (
                if old(self).entries_spec().len() >= old(self).capacity_spec() && old(self).entries_spec().len() > 0 {
                    old(self).entries_spec().drop_last()
                } else {
                    old(self).entries_spec()
                }),
            },
    {
        proof {
            use_type_invariant(&*self);
        }
        let ghost old_e = self.entries@;
        match self.position(&key) {
            Some(i) => {
                proof {
                    assert forall|j: int| 0 <= j < i implies old_e[j].0 != key by {
                        assert(old_e[j].0 != old_e[i as int].0);
                    }
                    crate::types::lemma_dict_get_first(old_e, key, i as int);
                }
                let mut e: Vec<(ObjectId, V)> = Vec::new();
                std::mem::swap(&mut e, &mut self.entries);
                let (_, old_value) = e.remove(i);
                e.insert(0, (key, value));
                proof {
                    assert(e@ =~= seq![(key, value)] + old_e.remove(i as int));
                    assert forall|a: int, b: int| 0 <= a < b < e@.len() implies (#[trigger] e@[a]).0 != (
                    #[trigger] e@[b]).0 by {
                        let ob = if b - 1 < i { b - 1 } else { b };
                        assert(e@[b] == old_e[ob]);
                        if a == 0 {
                            assert(old_e[i as int].0 == key);
                            if ob < i {
                                assert(old_e[ob].0 != old_e[i as int].0);
                            } else {
                                assert(old_e[i as int].0 != old_e[ob].0);
                            }
                        } else {
                            let oa = if a - 1 < i { a - 1 } else { a };
                            assert(e@[a] == old_e[oa]);
                            assert(old_e[oa].0 != old_e[ob].0);
                        }
                    }
                }
                self.entries = e;
                proof {
                    use_type_invariant(&*self);
                }
                Some(old_value)
            },
            None => {
                proof {
                    crate::types::lemma_dict_absent(old_e, key, value);
                }
                let mut e: Vec<(ObjectId, V)> = Vec::new();
                std::mem::swap(&mut e, &mut self.entries);
                if e.len() >= self.capacity && e.len() > 0 {
                    e.pop();
                }
                let ghost kept = e@;
                e.insert(0, (key, value));
                proof {
                    assert(e@ =~= seq![(key, value)] + kept);
                    assert forall|a: int, b: int| 0 <= a < b < e@.len() implies (#[trigger] e@[a]).0 != (
                    #[trigger] e@[b]).0 by {
                        assert(e@[b] == old_e[b - 1]);
                        if a > 0 {
                            assert(e@[a] == old_e[a - 1]);
                            assert(old_e[a - 1].0 != old_e[b - 1].0);
                        }
                    }
                }
                self.entries = e;
                proof {
                    use_type_invariant(&*self);
                }
                None
            },
        }
    }
}

/// After an insert the key is found with the inserted value.
pub proof fn lemma_lru_insert_then_lookup<V>(entries: Seq<(ObjectId, V)>, key: ObjectId, value: V)
    requires
        entries.len() > 0,
        entries[0] == (key, value),
    ensures
        crate::types::spec_dict_get(entries, key) == Some(value),
{
}

} // verus!
