//! PDF object values: names, strings, arrays, dictionaries, streams and
//! references, with a mathematical view of each.
use vstd::prelude::*;
use vstd::utf8::{decode_utf8, valid_utf8};

verus! {

#[derive(Debug, Clone, Copy, PartialEq, Eq, Hash, Structural)]
pub struct ObjectId {
    pub number: u32,
    pub generation: u16,
}

impl ObjectId {
    pub fn new(number: u32, generation: u16) -> (r: Self)
        ensures
            r.number == number,
            r.generation == generation,
    {
        ObjectId { number, generation }
    }
}

#[derive(Debug, Clone, Copy, PartialEq, Eq, Hash, Structural)]
pub struct PdfReference {
    pub object_number: u32,
    pub generation_number: u16,
}

impl PdfReference {
    pub fn new(object_number: u32, generation_number: u16) -> (r: Self)
        ensures
            r.object_number == object_number,
            r.generation_number == generation_number,
    {
        PdfReference { object_number, generation_number }
    }

    pub open spec fn spec_id(self) -> ObjectId {
        ObjectId { number: self.object_number, generation: self.generation_number }
    }

    pub fn id(&self) -> (r: ObjectId)
        ensures
            r == self.spec_id(),
    {
        ObjectId::new(self.object_number, self.generation_number)
    }

    pub fn object_id(&self) -> (r: ObjectId)
        ensures
            r == self.spec_id(),
    {
        self.id()
    }
}

/// A real number written in decimal: `mantissa / 10^scale`.
#[derive(Debug, Clone, Copy, PartialEq, Eq, Structural)]
pub struct PdfReal {
    pub mantissa: i64,
    pub scale: u32,
}

impl PdfReal {
    pub fn new(mantissa: i64, scale: u32) -> (r: Self)
        ensures
            r.mantissa == mantissa,
            r.scale == scale,
    {
        PdfReal { mantissa, scale }
    }

    pub fn from_integer(value: i64) -> (r: Self)
        ensures
            r.mantissa == value,
            r.scale == 0,
    {
        PdfReal { mantissa: value, scale: 0 }
    }
}

/// A PDF name, kept with its leading `/`.
#[derive(Debug, PartialEq, Eq, Hash)]
pub struct PdfName(String);

/// The name text for `s`: a `/` is put in front unless `s` starts with one.
pub open spec fn name_text(s: Seq<char>) -> Seq<char> {
    if s.len() > 0 && s[0] == '/' {
        s
    } else {
        seq!['/'] + s
    }
}

impl View for PdfName {
    type V = Seq<char>;

    closed spec fn view(&self) -> Seq<char> {
        self.0@
    }
}

impl PdfName {
    /// A name's text always starts with `/`.
    #[verifier::type_invariant]
    pub open spec fn wf(&self) -> bool {
        self@.len() > 0 && self@[0] == '/'
    }

    pub fn new(s: &str) -> (r: Self)
        ensures
            r@ == name_text(s@),
    {
        let n = s.unicode_len();
        if n > 0 && s.get_char(0) == '/' {
            PdfName(String::from_str(s))
        } else {
            let mut t = String::from_str("/");
            proof {
                reveal_strlit("/");
            }
            t.append(s);
            PdfName(t)
        }
    }

    pub fn as_str(&self) -> (r: &str)
        ensures
            r@ == self@,
    {
        self.0.as_str()
    }

    /// The name without its leading `/`.
    pub fn without_slash(&self) -> (r: &str)
        ensures
            r@ == self@.subrange(1, self@.len() as int),
    {
        proof {
            use_type_invariant(self);
        }
        let s = self.0.as_str();
        let n = s.unicode_len();
        s.substring_char(1, n)
    }

    pub fn to_string(&self) -> (r: String)
        ensures
            r@ == self@,
    {
        self.0.clone()
    }

    pub fn clone_name(&self) -> (r: Self)
        ensures
            r@ == self@,
    {
        proof {
            use_type_invariant(self);
        }
        PdfName(self.0.clone())
    }

    /// Compares the name with the name text for `key`.
    pub fn matches_key(&self, key: &str) -> (r: bool)
        ensures
            r == (self@ == name_text(key@)),
    {
        let other = PdfName::new(key);
        let a = self.0.as_str();
        let b = other.0.as_str();
        str_equal(a, b)
    }
}

/// Compares two strings character by character.
pub fn str_equal(a: &str, b: &str) -> (r: bool)
    ensures
        r == (a@ == b@),
{
    let n = a.unicode_len();
    let m = b.unicode_len();
    if n != m {
        return false;
    }
    let mut i: usize = 0;
    while i < n
        invariant
            n == a@.len(),
            m == b@.len(),
            n == m,
            i <= n,
            forall|j: int| 0 <= j < i ==> a@[j] == b@[j],
        decreases n - i,
    {
        if a.get_char(i) != b.get_char(i) {
            return false;
        }
        i = i + 1;
    }
    proof {
        assert(a@ =~= b@);
    }
    true
}

#[derive(Debug, Clone, Copy, PartialEq, Eq, Structural)]
pub enum PdfStringKind {
    Literal,
    Hexadecimal,
}

/// A PDF string: raw bytes as written in the file.
#[derive(Debug, PartialEq, Eq)]
pub struct PdfString {
    pub bytes: Vec<u8>,
    pub kind: PdfStringKind,
}

impl PdfString {
    pub fn new_literal(bytes: &[u8]) -> (r: Self)
        ensures
            r.bytes@ == bytes@,
            r.kind == PdfStringKind::Literal,
    {
        PdfString { bytes: vstd::slice::slice_to_vec(bytes), kind: PdfStringKind::Literal }
    }

    pub fn new_hex(bytes: &[u8]) -> (r: Self)
        ensures
            r.bytes@ == bytes@,
            r.kind == PdfStringKind::Hexadecimal,
    {
        PdfString { bytes: vstd::slice::slice_to_vec(bytes), kind: PdfStringKind::Hexadecimal }
    }

    pub fn as_bytes(&self) -> (r: &[u8])
        ensures
            r@ == self.bytes@,
    {
        self.bytes.as_slice()
    }

    /// The bytes read as UTF-8, with invalid sequences replaced.
    pub fn to_string_lossy(&self) -> (r: String)
        ensures
            r@ == lossy_text(self.bytes@),
            r@ == read_text(self.bytes@),
            ascii_bytes(self.bytes@) ==> r@ == ascii_chars(self.bytes@),
    {
        utf8_lossy(self.bytes.as_slice())
    }
}

pub open spec fn ascii_bytes(b: Seq<u8>) -> bool {
    forall|i: int| 0 <= i < b.len() ==> b[i] < 128
}

pub open spec fn ascii_chars(b: Seq<u8>) -> Seq<char> {
    Seq::new(b.len(), |i: int| b[i] as char)
}

/// The text `String::from_utf8_lossy` reads from `b`.
pub uninterp spec fn lossy_text(b: Seq<u8>) -> Seq<char>;

/// The text bytes read as: their characters where they are valid UTF-8,
/// what the lossy reading gives otherwise.
pub open spec fn read_text(b: Seq<u8>) -> Seq<char> {
    if valid_utf8(b) {
        decode_utf8(b)
    } else {
        lossy_text(b)
    }
}

/// Calls `String::from_utf8_lossy`, which depends on the bytes alone and,
/// by its documentation, gives the string the bytes encode when they are
/// valid UTF-8; UTF-8 encodes each ASCII byte as the character with that
/// code.  Nothing more is stated of invalid bytes.
#[verifier::external_body]
pub fn utf8_lossy(bytes: &[u8]) -> (r: String)
    ensures
        r@ == lossy_text(bytes@),
        valid_utf8(bytes@) ==> r@ == decode_utf8(bytes@),
        ascii_bytes(bytes@) ==> r@ == ascii_chars(bytes@),
{
    String::from_utf8_lossy(bytes).into_owned()
}

pub type PdfArray = Vec<PdfValue>;

/// Key/value pairs in insertion order; a key occurs at most once.
#[derive(Debug, PartialEq)]
pub struct PdfDictionary {
    pub(crate) entries: Vec<(PdfName, PdfValue)>,
}

#[derive(Debug, PartialEq, Eq)]
pub enum StreamData {
    Raw(Vec<u8>),
    Decoded(Vec<u8>),
}

#[derive(Debug, PartialEq)]
pub struct PdfStream {
    pub dict: PdfDictionary,
    pub data: StreamData,
}

#[derive(Debug, PartialEq)]
pub enum PdfValue {
    Null,
    Boolean(bool),
    Integer(i64),
    Real(PdfReal),
    String(PdfString),
    Name(PdfName),
    Array(PdfArray),
    Dictionary(PdfDictionary),
    Stream(PdfStream),
    Reference(PdfReference),
}

/// The mathematical value of a `PdfValue`.
pub enum SpecValue {
    Null,
    Boolean(bool),
    Integer(int),
    Real(int, nat),
    String(Seq<u8>, PdfStringKind),
    Name(Seq<char>),
    Array(Seq<SpecValue>),
    Dictionary(Seq<(Seq<char>, SpecValue)>),
    Stream(Seq<(Seq<char>, SpecValue)>, Seq<u8>, bool),
    Reference(u32, u16),
}

pub open spec fn spec_dict_get<K, V>(entries: Seq<(K, V)>, key: K) -> Option<V>
    decreases entries.len(),
{
    if entries.len() == 0 {
        None
    } else if entries[0].0 == key {
        Some(entries[0].1)
    } else {
        spec_dict_get(entries.drop_first(), key)
    }
}

pub open spec fn keys_unique<K, V>(entries: Seq<(K, V)>) -> bool {
    forall|i: int, j: int| 0 <= i < j < entries.len() ==> entries[i].0 != entries[j].0
}

pub open spec fn array_sv(a: &Vec<PdfValue>) -> Seq<SpecValue>
    decreases a, 0int,
{
    Seq::new(
        a@.len(),
        |i: int|
            if 0 <= i < a@.len() {
                a@[i].sv()
            } else {
                SpecValue::Null
            },
    )
}

pub closed spec fn dict_sv(d: &PdfDictionary) -> Seq<(Seq<char>, SpecValue)>
    decreases d, 0int,
{
    Seq::new(
        d.entries@.len(),
        |i: int|
            if 0 <= i < d.entries@.len() {
                (d.entries@[i].0@, d.entries@[i].1.sv())
            } else {
                (Seq::empty(), SpecValue::Null)
            },
    )
}

impl PdfValue {
    pub closed spec fn sv(&self) -> SpecValue
        decreases self, 1int,
    {
        match self {
            PdfValue::Null => SpecValue::Null,
            PdfValue::Boolean(b) => SpecValue::Boolean(*b),
            PdfValue::Integer(i) => SpecValue::Integer(*i as int),
            PdfValue::Real(r) => SpecValue::Real(r.mantissa as int, r.scale as nat),
            PdfValue::String(s) => SpecValue::String(s.bytes@, s.kind),
            PdfValue::Name(n) => SpecValue::Name(n@),
            PdfValue::Array(a) => SpecValue::Array(array_sv(a)),
            PdfValue::Dictionary(d) => SpecValue::Dictionary(dict_sv(d)),
            PdfValue::Stream(s) => SpecValue::Stream(
                dict_sv(&s.dict),
                match &s.data {
                    StreamData::Raw(b) => b@,
                    StreamData::Decoded(b) => b@,
                },
                match &s.data {
                    StreamData::Raw(_) => false,
                    StreamData::Decoded(_) => true,
                },
            ),
            PdfValue::Reference(r) => SpecValue::Reference(r.object_number, r.generation_number),
        }
    }
}

pub open spec fn spec_dict_insert<K, V>(
    entries: Seq<(K, V)>,
    key: K,
    value: V,
) -> Seq<(K, V)>
    decreases entries.len(),
{
    if entries.len() == 0 {
        seq![(key, value)]
    } else if entries[0].0 == key {
        seq![(key, value)] + entries.drop_first()
    } else {
        seq![entries[0]] + spec_dict_insert(entries.drop_first(), key, value)
    }
}

/// Looking up a key finds the first entry that holds it.
pub proof fn lemma_dict_get_first<K, V>(entries: Seq<(K, V)>, key: K, i: int)
    requires
        0 <= i < entries.len(),
        entries[i].0 == key,
        forall|j: int| 0 <= j < i ==> entries[j].0 != key,
    ensures
        spec_dict_get(entries, key) == Some(entries[i].1),
        spec_dict_insert(entries, key, entries[i].1) == entries,
    decreases i,
{
    if i > 0 {
        lemma_dict_get_first(entries.drop_first(), key, i - 1);
        assert(entries =~= seq![entries[0]] + entries.drop_first());
    } else {
        assert(entries =~= seq![(key, entries[0].1)] + entries.drop_first());
    }
}

pub proof fn lemma_dict_insert_at<K, V>(
    entries: Seq<(K, V)>,
    key: K,
    value: V,
    i: int,
)
    requires
        0 <= i < entries.len(),
        entries[i].0 == key,
        forall|j: int| 0 <= j < i ==> entries[j].0 != key,
    ensures
        spec_dict_insert(entries, key, value) == entries.update(i, (key, value)),
    decreases i,
{
    if i > 0 {
        lemma_dict_insert_at(entries.drop_first(), key, value, i - 1);
        assert(seq![entries[0]] + entries.drop_first().update(i - 1, (key, value)) =~= entries.update(
            i,
            (key, value),
        ));
    } else {
        assert(seq![(key, value)] + entries.drop_first() =~= entries.update(0, (key, value)));
    }
}

pub proof fn lemma_dict_absent<K, V>(entries: Seq<(K, V)>, key: K, value: V)
    requires
        forall|j: int| 0 <= j < entries.len() ==> entries[j].0 != key,
    ensures
        spec_dict_get(entries, key) is None,
        spec_dict_insert(entries, key, value) == entries.push((key, value)),
    decreases entries.len(),
{
    if entries.len() > 0 {
        lemma_dict_absent(entries.drop_first(), key, value);
        assert(seq![entries[0]] + entries.drop_first().push((key, value)) =~= entries.push((key, value)));
    } else {
        assert(seq![(key, value)] =~= entries.push((key, value)));
    }
}

pub proof fn lemma_insert_keeps_unique<K, V>(
    entries: Seq<(K, V)>,
    key: K,
    value: V,
)
    requires
        keys_unique(entries),
    ensures
        keys_unique(spec_dict_insert(entries, key, value)),
        forall|k: K|
            #![trigger spec_dict_get(spec_dict_insert(entries, key, value), k)]
            spec_dict_get(spec_dict_insert(entries, key, value), k) == if k == key {
                Some(value)
            } else {
                spec_dict_get(entries, k)
            },
    decreases entries.len(),
{
    reveal_with_fuel(spec_dict_get, 2);
    let result = spec_dict_insert(entries, key, value);
    if entries.len() == 0 {
        assert(result.drop_first() =~= Seq::<(K, V)>::empty());
    } else {
        let rest = entries.drop_first();
        assert(keys_unique(rest));
        lemma_insert_keeps_unique(rest, key, value);
        if entries[0].0 != key {
            let ins = spec_dict_insert(rest, key, value);
            assert forall|j: int| 0 <= j < ins.len() implies ins[j].0 != entries[0].0 by {
                lemma_insert_keys(rest, key, value, j);
            }
            assert(result.drop_first() =~= ins);
            assert(result[0] == entries[0]);
            assert forall|k: K| #[trigger] spec_dict_get(result, k) == if k == key {
                Some(value)
            } else {
                spec_dict_get(entries, k)
            } by {
                assert(spec_dict_get(ins, k) == if k == key { Some(value) } else { spec_dict_get(rest, k) });
            }
        } else {
            assert(result.drop_first() =~= rest);
            assert(result[0] == (key, value));
            assert forall|k: K| #[trigger] spec_dict_get(result, k) == if k == key {
                Some(value)
            } else {
                spec_dict_get(entries, k)
            } by {
            }
        }
    }
}

/// A lookup after an insert finds the inserted value under its key and
/// what was there before under every other key.
pub proof fn lemma_insert_get<K, V>(entries: Seq<(K, V)>, key: K, value: V, k: K)
    ensures
        spec_dict_get(spec_dict_insert(entries, key, value), k) == if k == key {
            Some(value)
        } else {
            spec_dict_get(entries, k)
        },
    decreases entries.len(),
{
    let ins = spec_dict_insert(entries, key, value);
    if entries.len() == 0 {
        assert(ins.drop_first() =~= Seq::<(K, V)>::empty());
        assert(spec_dict_get(ins.drop_first(), k) is None);
    } else if entries[0].0 == key {
        assert(ins.drop_first() =~= entries.drop_first());
        assert(ins[0] == (key, value));
    } else {
        lemma_insert_get(entries.drop_first(), key, value, k);
        assert(ins.drop_first() =~= spec_dict_insert(entries.drop_first(), key, value));
        assert(ins[0] == entries[0]);
    }
}

/// Every key after an insert is the inserted key or an old key.
pub proof fn lemma_insert_keys<K, V>(entries: Seq<(K, V)>, key: K, value: V, j: int)
    requires
        0 <= j < spec_dict_insert(entries, key, value).len(),
    ensures
        spec_dict_insert(entries, key, value)[j].0 == key || exists|i: int|
            0 <= i < entries.len() && entries[i].0 == spec_dict_insert(entries, key, value)[j].0,
    decreases entries.len(),
{
    if entries.len() > 0 && entries[0].0 != key && j > 0 {
        lemma_insert_keys(entries.drop_first(), key, value, j - 1);
        let k = spec_dict_insert(entries, key, value)[j].0;
        if k != key {
            let i = choose|i: int| 0 <= i < entries.drop_first().len() && entries.drop_first()[i].0 == k;
            assert(entries[i + 1].0 == k);
        }
    } else if entries.len() > 0 && entries[0].0 == key && j > 0 {
        assert(entries[j].0 == spec_dict_insert(entries, key, value)[j].0);
    }
}

pub open spec fn entries_sv(e: Seq<(PdfName, PdfValue)>) -> Seq<(Seq<char>, SpecValue)> {
    Seq::new(e.len(), |i: int| (e[i].0@, e[i].1.sv()))
}

impl PdfDictionary {
    /// The entries as mathematical values.
    pub closed spec fn sv_entries(&self) -> Seq<(Seq<char>, SpecValue)> {
        dict_sv(self)
    }

    /// No key occurs twice.
    #[verifier::type_invariant]
    pub closed spec fn wf(&self) -> bool {
        forall|i: int, j: int|
            0 <= i < j < self.entries@.len() ==> (#[trigger] self.entries@[i]).0@ != (#[trigger] self.entries@[j]).0@
    }

    pub open spec fn spec_get(&self, key: Seq<char>) -> Option<SpecValue> {
        spec_dict_get(self.sv_entries(), name_text(key))
    }

    pub fn new() -> (r: Self)
        ensures
            r.sv_entries() == Seq::<(Seq<char>, SpecValue)>::empty(),
    {
        let r = PdfDictionary { entries: Vec::new() };
        proof {
            assert(r.sv_entries() =~= Seq::<(Seq<char>, SpecValue)>::empty());
        }
        r
    }

    pub fn len(&self) -> (r: usize)
        ensures
            r == self.sv_entries().len(),
    {
        self.entries.len()
    }

    pub fn is_empty(&self) -> (r: bool)
        ensures
            r == (self.sv_entries().len() == 0),
    {
        self.entries.len() == 0
    }

    /// The entries in insertion order.
    pub fn entries(&self) -> (r: &Vec<(PdfName, PdfValue)>)
        ensures
            entries_sv(r@) == self.sv_entries(),
            keys_unique(self.sv_entries()),
    {
        proof {
            use_type_invariant(self);
        }
        &self.entries
    }

    fn find(&self, key: &str) -> (r: Option<usize>)
        ensures
            r matches Some(i) ==> i < self.sv_entries().len() && self.sv_entries()[i as int].0 == name_text(key@)
                && forall|j: int| 0 <= j < i ==> self.sv_entries()[j].0 != name_text(key@),
            r is None ==> forall|j: int| 0 <= j < self.sv_entries().len() ==> self.sv_entries()[j].0 != name_text(key@),
    {
        let target = PdfName::new(key);
        let mut i: usize = 0;
        while i < self.entries.len()
            invariant
                i <= self.entries@.len(),
                target@ == name_text(key@),
                forall|j: int| 0 <= j < i ==> self.sv_entries()[j].0 != name_text(key@),
            decreases self.entries@.len() - i,
        {
            if str_equal(self.entries[i].0.as_str(), target.as_str()) {
                return Some(i);
            }
            i = i + 1;
        }
        None
    }

    pub fn get(&self, key: &str) -> (r: Option<&PdfValue>)
        ensures
            r is Some <==> self.spec_get(key@) is Some,
            r matches Some(v) ==> self.spec_get(key@) == Some(v.sv()),
    {
        match self.find(key) {
            Some(i) => {
                proof {
                    lemma_dict_get_first(self.sv_entries(), name_text(key@), i as int);
                }
                Some(&self.entries[i].1)
            },
            None => {
                proof {
                    lemma_dict_absent(self.sv_entries(), name_text(key@), SpecValue::Null);
                }
                None
            },
        }
    }

    pub fn contains_key(&self, key: &str) -> (r: bool)
        ensures
            r == self.spec_get(key@) is Some,
    {
        self.get(key).is_some()
    }

    /// Sets `key` to `value`, replacing the value it had.
    pub fn insert(&mut self, key: &str, value: PdfValue)
        ensures
            final(self).sv_entries() == spec_dict_insert(old(self).sv_entries(), name_text(key@), value.sv()),
    {
        proof {
            use_type_invariant(&*self);
        }
        let ghost old_entries = self.sv_entries();
        assert(keys_unique(old_entries));
        let ghost vsv = value.sv();
        let found = self.find(key);
        let mut entries: Vec<(PdfName, PdfValue)> = Vec::new();
        std::mem::swap(&mut entries, &mut self.entries);
        assert(entries_sv(entries@) =~= old_entries);
        let name = PdfName::new(key);
        match found {
            Some(i) => {
                entries.set(i, (name, value));
                proof {
                    lemma_dict_insert_at(old_entries, name_text(key@), vsv, i as int);
                    assert(entries_sv(entries@) =~= old_entries.update(i as int, (name_text(key@), vsv)));
                }
            },
            None => {
                entries.push((name, value));
                proof {
                    lemma_dict_absent(old_entries, name_text(key@), vsv);
                    assert(entries_sv(entries@) =~= old_entries.push((name_text(key@), vsv)));
                }
            },
        }
        proof {
            lemma_insert_keeps_unique(old_entries, name_text(key@), vsv);
            let e = entries@;
            assert forall|i: int, j: int| 0 <= i < j < e.len() implies (#[trigger] e[i]).0@ != (#[trigger] e[j]).0@ by {
                assert(entries_sv(e)[i].0 == e[i].0@);
                assert(entries_sv(e)[j].0 == e[j].0@);
            }
        }
        self.entries = entries;
        proof {
            assert(self.sv_entries() =~= entries_sv(self.entries@));
        }
    }
}

impl PdfString {
    pub fn clone_string(&self) -> (r: Self)
        ensures
            r.bytes@ == self.bytes@,
            r.kind == self.kind,
    {
        PdfString { bytes: vstd::slice::slice_to_vec(self.bytes.as_slice()), kind: self.kind }
    }
}

impl StreamData {
    pub fn clone_data(&self) -> (r: Self)
        ensures
            match (*self, r) {
                (StreamData::Raw(a), StreamData::Raw(b)) => a@ == b@,
                (StreamData::Decoded(a), StreamData::Decoded(b)) => a@ == b@,
                _ => false,
            },
    {
        match self {
            StreamData::Raw(b) => StreamData::Raw(vstd::slice::slice_to_vec(b.as_slice())),
            StreamData::Decoded(b) => StreamData::Decoded(vstd::slice::slice_to_vec(b.as_slice())),
        }
    }

    pub fn bytes(&self) -> (r: &[u8])
        ensures
            match self {
                StreamData::Raw(b) => r@ == b@,
                StreamData::Decoded(b) => r@ == b@,
            },
    {
        match self {
            StreamData::Raw(b) => b.as_slice(),
            StreamData::Decoded(b) => b.as_slice(),
        }
    }
}

impl PdfDictionary {
    pub fn clone_dict(&self) -> (r: Self)
        ensures
            r.sv_entries() == self.sv_entries(),
        decreases self, 0int,
    {
        proof {
            use_type_invariant(self);
        }
        let mut entries: Vec<(PdfName, PdfValue)> = Vec::new();
        let mut i: usize = 0;
        while i < self.entries.len()
            invariant
                i <= self.entries@.len(),
                entries@.len() == i,
                forall|j: int| 0 <= j < i ==> (#[trigger] entries@[j]).0@ == self.entries@[j].0@ && entries@[j].1.sv()
                    == self.entries@[j].1.sv(),
            decreases self.entries@.len() - i,
        {
            let name = self.entries[i].0.clone_name();
            let value = self.entries[i].1.deep_clone();
            entries.push((name, value));
            i = i + 1;
        }
        proof {
            let e = entries@;
            assert forall|a: int, b: int| 0 <= a < b < e.len() implies (#[trigger] e[a]).0@ != (#[trigger] e[b]).0@ by {
                assert(self.entries@[a].0@ != self.entries@[b].0@);
            }
        }
        let r = PdfDictionary { entries };
        proof {
            assert(dict_sv(&r) =~= dict_sv(self));
        }
        r
    }
}

impl PdfStream {
    pub fn new(dict: PdfDictionary, data: Vec<u8>) -> (r: Self)
        ensures
            r.dict == dict,
            r.data == StreamData::Raw(data),
    {
        PdfStream { dict, data: StreamData::Raw(data) }
    }

    /// The stream bytes as they were read, before any decoding.
    pub fn raw_data(&self) -> (r: Option<&[u8]>)
        ensures
            match &self.data {
                StreamData::Raw(b) => r matches Some(s) && s@ == b@,
                StreamData::Decoded(_) => r is None,
            },
    {
        match &self.data {
            StreamData::Raw(b) => Some(b.as_slice()),
            StreamData::Decoded(_) => None,
        }
    }

    pub fn clone_stream(&self) -> (r: Self)
        ensures
            PdfValue::Stream(r).sv() == PdfValue::Stream(*self).sv(),
        decreases self, 1int,
    {
        PdfStream { dict: self.dict.clone_dict(), data: self.data.clone_data() }
    }
}

impl PdfValue {
    pub fn deep_clone(&self) -> (r: PdfValue)
        ensures
            r.sv() == self.sv(),
        decreases self, 2int,
    {
        match self {
            PdfValue::Null => PdfValue::Null,
            PdfValue::Boolean(b) => PdfValue::Boolean(*b),
            PdfValue::Integer(i) => PdfValue::Integer(*i),
            PdfValue::Real(r) => PdfValue::Real(*r),
            PdfValue::String(s) => PdfValue::String(s.clone_string()),
            PdfValue::Name(n) => PdfValue::Name(n.clone_name()),
            PdfValue::Reference(r) => PdfValue::Reference(*r),
            PdfValue::Dictionary(d) => {
                let c = d.clone_dict();
                PdfValue::Dictionary(c)
            },
            PdfValue::Stream(s) => PdfValue::Stream(s.clone_stream()),
            PdfValue::Array(a) => {
                let out = clone_array(a);
                PdfValue::Array(out)
            },
        }
    }
}

pub fn clone_array(a: &Vec<PdfValue>) -> (r: Vec<PdfValue>)
    ensures
        array_sv(&r) == array_sv(a),
    decreases a, 0int,
{
    let mut out: Vec<PdfValue> = Vec::new();
    let mut i: usize = 0;
    while i < a.len()
        invariant
            i <= a@.len(),
            out@.len() == i,
            forall|j: int| 0 <= j < i ==> (#[trigger] out@[j]).sv() == a@[j].sv(),
        decreases a@.len() - i,
    {
        proof {
            assert(decreases_to!(a@ => a@[i as int]));
        }
        let v = a[i].deep_clone();
        out.push(v);
        i = i + 1;
    }
    proof {
        assert(array_sv(&out) =~= array_sv(a));
    }
    out
}

impl PdfValue {
    pub fn as_integer(&self) -> (r: Option<i64>)
        ensures
            match self {
                PdfValue::Integer(i) => r == Some(*i),
                _ => r is None,
            },
    {
        match self {
            PdfValue::Integer(i) => Some(*i),
            _ => None,
        }
    }

    pub fn as_real(&self) -> (r: Option<PdfReal>)
        ensures
            match self {
                PdfValue::Real(x) => r == Some(*x),
                PdfValue::Integer(i) => r == Some(PdfReal { mantissa: *i, scale: 0 }),
                _ => r is None,
            },
    {
        match self {
            PdfValue::Real(x) => Some(*x),
            PdfValue::Integer(i) => Some(PdfReal::from_integer(*i)),
            _ => None,
        }
    }

    pub fn as_array(&self) -> (r: Option<&PdfArray>)
        ensures
            match self {
                PdfValue::Array(a) => r == Some(a),
                _ => r is None,
            },
    {
        match self {
            PdfValue::Array(a) => Some(a),
            _ => None,
        }
    }

    pub fn as_dict(&self) -> (r: Option<&PdfDictionary>)
        ensures
            match self {
                PdfValue::Dictionary(d) => r == Some(d),
                PdfValue::Stream(s) => r == Some(&s.dict),
                _ => r is None,
            },
    {
        match self {
            PdfValue::Dictionary(d) => Some(d),
            PdfValue::Stream(s) => Some(&s.dict),
            _ => None,
        }
    }

    pub fn as_name(&self) -> (r: Option<&PdfName>)
        ensures
            match self {
                PdfValue::Name(n) => r == Some(n),
                _ => r is None,
            },
    {
        match self {
            PdfValue::Name(n) => Some(n),
            _ => None,
        }
    }

    pub fn as_string(&self) -> (r: Option<&PdfString>)
        ensures
            match self {
                PdfValue::String(x) => r == Some(x),
                _ => r is None,
            },
    {
        match self {
            PdfValue::String(x) => Some(x),
            _ => None,
        }
    }

    pub fn as_reference(&self) -> (r: Option<PdfReference>)
        ensures
            match self {
                PdfValue::Reference(x) => r == Some(*x),
                _ => r is None,
            },
    {
        match self {
            PdfValue::Reference(x) => Some(*x),
            _ => None,
        }
    }

    pub fn is_null(&self) -> (r: bool)
        ensures
            r == (*self is Null),
    {
        match self {
            PdfValue::Null => true,
            _ => false,
        }
    }
}

/// What each kind of value is, mathematically.
pub proof fn lemma_value_view(v: &PdfValue)
    ensures
        match v {
            PdfValue::Null => v.sv() == SpecValue::Null,
            PdfValue::Boolean(b) => v.sv() == SpecValue::Boolean(*b),
            PdfValue::Integer(i) => v.sv() == SpecValue::Integer(*i as int),
            PdfValue::Real(x) => v.sv() == SpecValue::Real(x.mantissa as int, x.scale as nat),
            PdfValue::String(x) => v.sv() == SpecValue::String(x.bytes@, x.kind),
            PdfValue::Name(n) => v.sv() == SpecValue::Name(n@),
            PdfValue::Array(a) => v.sv() == SpecValue::Array(array_sv(a)),
            PdfValue::Dictionary(d) => v.sv() == SpecValue::Dictionary(d.sv_entries()),
            PdfValue::Stream(s) => v.sv() == SpecValue::Stream(
                s.dict.sv_entries(),
                match &s.data {
                    StreamData::Raw(b) => b@,
                    StreamData::Decoded(b) => b@,
                },
                s.data is Decoded,
            ),
            PdfValue::Reference(r) => v.sv() == SpecValue::Reference(r.object_number, r.generation_number),
        },
{
}

/// An array's view lists its elements' views.
pub proof fn lemma_array_view(a: &Vec<PdfValue>)
    ensures
        array_sv(a).len() == a@.len(),
        forall|i: int| 0 <= i < a@.len() ==> #[trigger] array_sv(a)[i] == a@[i].sv(),
{
}

impl Clone for PdfValue {
    fn clone(&self) -> (r: Self)
        ensures
            r.sv() == self.sv(),
    {
        self.deep_clone()
    }
}

impl Clone for PdfDictionary {
    fn clone(&self) -> (r: Self)
        ensures
            r.sv_entries() == self.sv_entries(),
    {
        self.clone_dict()
    }
}

impl Clone for PdfName {
    fn clone(&self) -> (r: Self)
        ensures
            r@ == self@,
    {
        self.clone_name()
    }
}

impl Clone for PdfString {
    fn clone(&self) -> (r: Self)
        ensures
            r.bytes@ == self.bytes@,
            r.kind == self.kind,
    {
        self.clone_string()
    }
}

impl Clone for PdfStream {
    fn clone(&self) -> (r: Self)
        ensures
            PdfValue::Stream(r).sv() == PdfValue::Stream(*self).sv(),
    {
        self.clone_stream()
    }
}

impl PdfValue {
    /// The name of the value's kind.
    pub fn kind_name(&self) -> (r: &'static str)
        ensures
            r@ == spec_kind_name(self.sv()),
    {
        let r = match self {
            PdfValue::Null => "null",
            PdfValue::Boolean(_) => "boolean",
            PdfValue::Integer(_) => "integer",
            PdfValue::Real(_) => "real",
            PdfValue::String(_) => "string",
            PdfValue::Name(_) => "name",
            PdfValue::Array(_) => "array",
            PdfValue::Dictionary(_) => "dictionary",
            PdfValue::Stream(_) => "stream",
            PdfValue::Reference(_) => "reference",
        };
        proof {
            lemma_value_view(self);
        }
        r
    }
}

/// The name of a value's kind.
pub open spec fn spec_kind_name(v: SpecValue) -> Seq<char> {
    match v {
        SpecValue::Null => "null"@,
        SpecValue::Boolean(_) => "boolean"@,
        SpecValue::Integer(_) => "integer"@,
        SpecValue::Real(_, _) => "real"@,
        SpecValue::String(_, _) => "string"@,
        SpecValue::Name(_) => "name"@,
        SpecValue::Array(_) => "array"@,
        SpecValue::Dictionary(_) => "dictionary"@,
        SpecValue::Stream(_, _, _) => "stream"@,
        SpecValue::Reference(_, _) => "reference"@,
    }
}

/// The references in a value, in the order a last-in-first-out walk meets
/// them: a container's elements are walked from the last to the first.
pub open spec fn value_refs(v: SpecValue) -> Seq<(u32, u16)>
    decreases v, 1nat, 0nat,
{
    match v {
        SpecValue::Reference(n, g) => seq![(n, g)],
        SpecValue::Array(items) => items_refs(items, items.len() as nat),
        SpecValue::Dictionary(e) => entries_refs(e, e.len() as nat),
        SpecValue::Stream(e, _, _) => entries_refs(e, e.len() as nat),
        _ => Seq::empty(),
    }
}

/// The references of `items[0..k]`, from the last item to the first.
pub open spec fn items_refs(items: Seq<SpecValue>, k: nat) -> Seq<(u32, u16)>
    decreases items, 0nat, k,
{
    if k == 0 || k > items.len() {
        Seq::empty()
    } else {
        proof {
            assert(decreases_to!(items => items[k - 1]));
        }
        value_refs(items[k - 1]) + items_refs(items, (k - 1) as nat)
    }
}

/// The references of the values of `e[0..k]`, from the last entry to the
/// first.
pub open spec fn entries_refs(e: Seq<(Seq<char>, SpecValue)>, k: nat) -> Seq<(u32, u16)>
    decreases e, 0nat, k,
{
    if k == 0 || k > e.len() {
        Seq::empty()
    } else {
        proof {
            assert(decreases_to!(e => e[k - 1]));
            assert(decreases_to!(e[k - 1] => e[k - 1].1));
        }
        value_refs(e[k - 1].1) + entries_refs(e, (k - 1) as nat)
    }
}

/// References for pairs of object and generation numbers.
pub open spec fn refs_seq(s: Seq<(u32, u16)>) -> Seq<PdfReference> {
    s.map_values(|p: (u32, u16)| PdfReference { object_number: p.0, generation_number: p.1 })
}

pub proof fn lemma_refs_seq_add(a: Seq<(u32, u16)>, b: Seq<(u32, u16)>)
    ensures
        refs_seq(a + b) == refs_seq(a) + refs_seq(b),
{
    assert(refs_seq(a + b) =~= refs_seq(a) + refs_seq(b));
}

impl PdfValue {
    /// Appends the references in the value, in the order of
    /// `value_refs`.
    pub fn collect_references(&self, out: &mut Vec<PdfReference>)
        ensures
            final(out)@ == old(out)@ + refs_seq(value_refs(self.sv())),
        decreases self, 2int,
    {
        proof {
            lemma_value_view(self);
        }
        match self {
            PdfValue::Reference(r) => {
                out.push(*r);
                proof {
                    assert(refs_seq(seq![(r.object_number, r.generation_number)]) =~= seq![*r]);
                }
            },
            PdfValue::Array(a) => {
                collect_array_references(a, out);
            },
            PdfValue::Dictionary(d) => {
                d.collect_references(out);
            },
            PdfValue::Stream(st) => {
                st.dict.collect_references(out);
            },
            _ => {
                proof {
                    assert(refs_seq(Seq::<(u32, u16)>::empty()) =~= Seq::<PdfReference>::empty());
                    assert(old(out)@ + Seq::<PdfReference>::empty() =~= old(out)@);
                }
            },
        }
    }
}

/// Appends the references in the items, from the last item to the first.
pub fn collect_array_references(a: &Vec<PdfValue>, out: &mut Vec<PdfReference>)
    ensures
        final(out)@ == old(out)@ + refs_seq(items_refs(array_sv(a), a@.len() as nat)),
    decreases a, 1int,
{
    let ghost items = array_sv(a);
    proof {
        lemma_array_view(a);
    }
    let mut k = a.len();
    while k > 0
        invariant
            k <= a@.len(),
            items == array_sv(a),
            items.len() == a@.len(),
            forall|i: int| 0 <= i < a@.len() ==> #[trigger] items[i] == a@[i].sv(),
            old(out)@ + refs_seq(items_refs(items, a@.len() as nat)) == out@ + refs_seq(items_refs(items, k as nat)),
        decreases k,
    {
        proof {
            assert(decreases_to!(a@ => a@[k - 1]));
            lemma_refs_seq_add(value_refs(items[k - 1]), items_refs(items, (k - 1) as nat));
        }
        let ghost before = out@;
        a[k - 1].collect_references(out);
        proof {
            assert(out@ + refs_seq(items_refs(items, (k - 1) as nat)) =~= before + refs_seq(items_refs(items, k as nat)));
        }
        k = k - 1;
    }
    proof {
        assert(out@ + refs_seq(items_refs(items, 0)) =~= out@);
    }
}

impl PdfDictionary {
    /// Appends the references in the values, from the last entry to the
    /// first.
    pub fn collect_references(&self, out: &mut Vec<PdfReference>)
        ensures
            final(out)@ == old(out)@ + refs_seq(entries_refs(self.sv_entries(), self.sv_entries().len() as nat)),
        decreases self, 1int,
    {
        let ghost e = self.sv_entries();
        proof {
            assert(e.len() == self.entries@.len());
        }
        let mut k = self.entries.len();
        while k > 0
            invariant
                k <= self.entries@.len(),
                e == self.sv_entries(),
                e.len() == self.entries@.len(),
                old(out)@ + refs_seq(entries_refs(e, e.len() as nat)) == out@ + refs_seq(entries_refs(e, k as nat)),
            decreases k,
        {
            proof {
                assert(e[k - 1] == (self.entries@[k - 1].0@, self.entries@[k - 1].1.sv()));
                lemma_refs_seq_add(value_refs(e[k - 1].1), entries_refs(e, (k - 1) as nat));
            }
            let ghost before = out@;
            self.entries[k - 1].1.collect_references(out);
            proof {
                assert(out@ + refs_seq(entries_refs(e, (k - 1) as nat)) =~= before + refs_seq(entries_refs(e, k as nat)));
            }
            k = k - 1;
        }
        proof {
            assert(out@ + refs_seq(entries_refs(e, 0)) =~= out@);
        }
    }
}


/// The references a value holds in its arrays and dictionaries, in reading
/// order; a stream's dictionary is not looked into.
pub open spec fn plain_refs(v: SpecValue) -> Seq<(u32, u16)>
    decreases v, 1nat, 0nat,
{
    match v {
        SpecValue::Reference(n, g) => seq![(n, g)],
        SpecValue::Array(items) => plain_items_refs(items, items.len() as nat),
        SpecValue::Dictionary(e) => plain_entries_refs(e, e.len() as nat),
        _ => Seq::empty(),
    }
}

/// The plain references of `items[0..k]`, first item first.
pub open spec fn plain_items_refs(items: Seq<SpecValue>, k: nat) -> Seq<(u32, u16)>
    decreases items, 0nat, k,
{
    if k == 0 || k > items.len() {
        Seq::empty()
    } else {
        proof {
            assert(decreases_to!(items => items[k - 1]));
        }
        plain_items_refs(items, (k - 1) as nat) + plain_refs(items[k - 1])
    }
}

/// The plain references of the values of `e[0..k]`, first entry first.
pub open spec fn plain_entries_refs(e: Seq<(Seq<char>, SpecValue)>, k: nat) -> Seq<(u32, u16)>
    decreases e, 0nat, k,
{
    if k == 0 || k > e.len() {
        Seq::empty()
    } else {
        proof {
            assert(decreases_to!(e => e[k - 1]));
            assert(decreases_to!(e[k - 1] => e[k - 1].1));
        }
        plain_entries_refs(e, (k - 1) as nat) + plain_refs(e[k - 1].1)
    }
}

impl PdfValue {
    /// Appends the references the value holds in its arrays and
    /// dictionaries, in reading order, leaving streams unopened.
    pub fn collect_plain_references(&self, out: &mut Vec<PdfReference>)
        ensures
            final(out)@ == old(out)@ + refs_seq(plain_refs(self.sv())),
        decreases self, 2int,
    {
        proof {
            lemma_value_view(self);
        }
        match self {
            PdfValue::Reference(r) => {
                out.push(*r);
                proof {
                    assert(refs_seq(seq![(r.object_number, r.generation_number)]) =~= seq![*r]);
                }
            },
            PdfValue::Array(a) => {
                collect_plain_array_references(a, out);
            },
            PdfValue::Dictionary(d) => {
                d.collect_plain_references(out);
            },
            _ => {
                proof {
                    assert(refs_seq(Seq::<(u32, u16)>::empty()) =~= Seq::<PdfReference>::empty());
                    assert(old(out)@ + Seq::<PdfReference>::empty() =~= old(out)@);
                }
            },
        }
    }
}

/// Appends the plain references of the items, first item first.
pub fn collect_plain_array_references(a: &Vec<PdfValue>, out: &mut Vec<PdfReference>)
    ensures
        final(out)@ == old(out)@ + refs_seq(plain_items_refs(array_sv(a), a@.len() as nat)),
    decreases a, 1int,
{
    let ghost items = array_sv(a);
    let ghost start = out@;
    proof {
        lemma_array_view(a);
        assert(start + refs_seq(plain_items_refs(items, 0)) =~= start);
    }
    let mut k: usize = 0;
    while k < a.len()
        invariant
            k <= a@.len(),
            items == array_sv(a),
            items.len() == a@.len(),
            forall|i: int| 0 <= i < a@.len() ==> #[trigger] items[i] == a@[i].sv(),
            start == old(out)@,
            out@ == start + refs_seq(plain_items_refs(items, k as nat)),
        decreases a@.len() - k,
    {
        proof {
            assert(decreases_to!(a@ => a@[k as int]));
            lemma_refs_seq_add(plain_items_refs(items, k as nat), plain_refs(items[k as int]));
        }
        let ghost before = out@;
        a[k].collect_plain_references(out);
        proof {
            assert(plain_items_refs(items, (k + 1) as nat) == plain_items_refs(items, k as nat) + plain_refs(items[k as int]));
            assert(out@ =~= start + refs_seq(plain_items_refs(items, (k + 1) as nat)));
        }
        k = k + 1;
    }
}

impl PdfDictionary {
    /// Appends the plain references of the values, first entry first.
    pub fn collect_plain_references(&self, out: &mut Vec<PdfReference>)
        ensures
            final(out)@ == old(out)@ + refs_seq(plain_entries_refs(self.sv_entries(), self.sv_entries().len() as nat)),
        decreases self, 1int,
    {
        let ghost e = self.sv_entries();
        let ghost start = out@;
        proof {
            assert(e.len() == self.entries@.len());
            assert(start + refs_seq(plain_entries_refs(e, 0)) =~= start);
        }
        let mut k: usize = 0;
        while k < self.entries.len()
            invariant
                k <= self.entries@.len(),
                e == self.sv_entries(),
                e.len() == self.entries@.len(),
                start == old(out)@,
                out@ == start + refs_seq(plain_entries_refs(e, k as nat)),
            decreases self.entries@.len() - k,
        {
            proof {
                assert(e[k as int] == (self.entries@[k as int].0@, self.entries@[k as int].1.sv()));
                lemma_refs_seq_add(plain_entries_refs(e, k as nat), plain_refs(e[k as int].1));
            }
            self.entries[k].1.collect_plain_references(out);
            proof {
                assert(plain_entries_refs(e, (k + 1) as nat) == plain_entries_refs(e, k as nat) + plain_refs(e[k as int].1));
                assert(out@ =~= start + refs_seq(plain_entries_refs(e, (k + 1) as nat)));
            }
            k = k + 1;
        }
    }
}


/// A dictionary's view lists its entries' names and values' views.
pub(crate) proof fn lemma_dict_view(d: &PdfDictionary)
    ensures
        d.sv_entries().len() == d.entries@.len(),
        forall|i: int|
            0 <= i < d.entries@.len() ==> #[trigger] d.sv_entries()[i] == (d.entries@[i].0@, d.entries@[i].1.sv()),
{
}

} // verus!
