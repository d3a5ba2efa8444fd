//! Cutting the bytes of a damaged file into fragments that can be looked at
//! one by one: a header, an indirect object, a stream, a cross-reference
//! table, a trailer, or an unrecognised chunk.
use crate::ast::NodeType;
use crate::document_serial::{first_index, number_text, spec_number_text};
use crate::object_parser::{find_bytes, occurs_at};
use crate::recovery::{bytes_start_with, FragmentMetadata, FragmentType, ReconstructionConfig};
use crate::text::{decimal, msg, usize_text};
use crate::types::{lossy_text, utf8_lossy};
use vstd::prelude::*;
use vstd::string::StringSliceAdditionalSpecFns;

verus! {

/// Whether the regular expression `pattern` compiles and matches somewhere
/// in `text` (`None` when it does not compile).
pub uninterp spec fn regex_match(pattern: Seq<char>, text: Seq<char>) -> Option<bool>;

/// The text of the first capture group of the leftmost match of the
/// regular expression `pattern` in `text` (`None` when it does not compile,
/// does not match, or the group took no part in the match).
pub uninterp spec fn regex_group_one(pattern: Seq<char>, text: Seq<char>) -> Option<Seq<char>>;

/// Compiles `pattern` with `regex::Regex::new` and asks `Regex::find`
/// whether it matches in `text`.  Both depend on their arguments alone, so
/// the outcome is named by `regex_match`; nothing more is stated of it.
#[verifier::external_body]
fn regex_finds(pattern: &str, text: &str) -> (r: Option<bool>)
    ensures
        r == regex_match(pattern@, text@),
{
    match regex::Regex::new(pattern) {
        Ok(re) => Some(re.find(text).is_some()),
        Err(_) => None,
    }
}

/// Compiles `pattern` with `regex::Regex::new`, takes `Regex::captures` of
/// `text` and the text of its group 1.  The outcome depends on the
/// arguments alone and is named by `regex_group_one`.
#[verifier::external_body]
fn regex_first_group(pattern: &str, text: &str) -> (r: Option<String>)
    ensures
        r is None <==> regex_group_one(pattern@, text@) is None,
        r matches Some(g) ==> regex_group_one(pattern@, text@) == Some(g@),
{
    match regex::Regex::new(pattern) {
        Ok(re) => match re.captures(text) {
            Some(caps) => match caps.get(1) {
                Some(m) => Some(m.as_str().to_string()),
                None => None,
            },
            None => None,
        },
        Err(_) => None,
    }
}

/// A piece of a file, with what it was recognised as and how sure that is,
/// in percent.
#[derive(Debug, Clone)]
pub struct DocumentFragment {
    pub fragment_id: String,
    pub offset: u64,
    pub data: Vec<u8>,
    pub fragment_type: FragmentType,
    pub confidence: u8,
    pub metadata: FragmentMetadata,
}

/// Cuts damaged files into fragments.
pub struct DocumentReconstructor {
    pub config: ReconstructionConfig,
    pub fragments: Vec<DocumentFragment>,
}

/// The pattern of an object header such as `12 0 obj`.
pub open spec fn object_pattern() -> Seq<char> {
    "\\d+\\s+\\d+\\s+obj"@
}

/// The same pattern, capturing the object number.
pub open spec fn object_number_pattern() -> Seq<char> {
    "(\\d+)\\s+\\d+\\s+obj"@
}

/// The line of `t` that starts at `s`, without its line break and without
/// a carriage return before it (as `str::lines` gives it).
pub open spec fn line_from(t: Seq<char>, s: int) -> Seq<char> {
    let e = first_index(t, '\n', s);
    let le = if e > s && t[e - 1] == '\r' {
        e - 1
    } else {
        e
    };
    t.subrange(s, le)
}

/// The length in bytes of the text `line`, as `str::len` gives it.
pub open spec fn byte_len(line: Seq<char>) -> int {
    (vstd::utf8::encode_utf8(line).len() as usize) as int
}

/// Going through the lines of `t` from the one at `s`, numbered from `i`:
/// for the first line in which an object header occurs, its number times
/// its length in bytes, when that fits in a `usize`.
pub open spec fn object_line_from(t: Seq<char>, s: int, i: int) -> Option<int>
    decreases t.len() - s,
{
    if s < 0 || s >= t.len() {
        None
    } else {
        let line = line_from(t, s);
        match regex_match(object_pattern(), line) {
            Some(true) => if i * byte_len(line) <= usize::MAX {
                Some(i * byte_len(line))
            } else {
                None
            },
            Some(false) => if s < first_index(t, '\n', s) + 1 <= t.len() {
                object_line_from(t, first_index(t, '\n', s) + 1, i + 1)
            } else {
                None
            },
            None => None,
        }
    }
}

/// Where an object is taken to start in `d`: the line number of the first
/// line of its text that holds an object header, times that line's length
/// in bytes.
pub open spec fn spec_object_start(d: Seq<u8>) -> Option<int> {
    object_line_from(lossy_text(d), 0, 0)
}

/// The object number in the first object header of `d`, read as
/// `str::parse` reads a `u32`.
pub open spec fn spec_object_number(d: Seq<u8>) -> Option<u32> {
    match regex_group_one(object_number_pattern(), lossy_text(d)) {
        Some(g) => match spec_number_text(g, 0, g.len() as int, u32::MAX as int) {
            Some(v) => Some(v as u32),
            None => None,
        },
        None => None,
    }
}

/// Where `w` first occurs in `d` at or after `from`.
pub open spec fn first_occurrence(d: Seq<u8>, w: Seq<u8>, from: int) -> Option<int> {
    if exists|i: int| from <= i && #[trigger] occurs_at(d, w, i) {
        Some(
            choose|i: int|
                from <= i && #[trigger] occurs_at(d, w, i) && forall|j: int|
                    from <= j < i ==> !#[trigger] occurs_at(d, w, j),
        )
    } else {
        None
    }
}

/// Where the object that `d[s..]` holds ends, if one is recognised: its
/// header's place (see `spec_object_start`) and the first `endobj` after
/// it, both within `d`.
pub open spec fn spec_object_span(d: Seq<u8>, s: int) -> Option<(int, int)> {
    match spec_object_start(d.subrange(s, d.len() as int)) {
        Some(m) => if s + m <= d.len() {
            match first_occurrence(d, ascii("endobj"@), s + m) {
                Some(p) => Some((s + m, p + 6)),
                None => None,
            }
        } else {
            None
        },
        None => None,
    }
}

/// The bytes of an ASCII literal.
pub open spec fn ascii(s: Seq<char>) -> Seq<u8> {
    s.map_values(|c: char| c as u8)
}

/// What `d[s..]` is recognised as: the fragment's kind, where it starts and
/// where it ends.
///
/// A header runs to the end of its line (or 8 bytes); an object from its
/// header to its `endobj`; a stream to its `endstream`; a cross-reference
/// table up to `trailer`; a trailer to 100 bytes past `startxref`, when
/// those bytes are in `d`.  Anything else is a chunk of up to 1024 bytes,
/// kept when it has at least `min_size` bytes.
pub open spec fn spec_fragment(d: Seq<u8>, s: int, min_size: int) -> Option<(FragmentType, int, int)> {
    let rest = d.subrange(s, d.len() as int);
    if s < 0 || s >= d.len() {
        None
    } else if bytes_start_with(rest, ascii("%PDF-"@)) {
        let end = match first_occurrence(d, ascii("\n"@), s) {
            Some(i) => i + 1,
            None => if s + 8 <= d.len() {
                s + 8
            } else {
                d.len() as int
            },
        };
        Some((FragmentType::Header, s, end))
    } else if spec_object_span(d, s) is Some {
        let (a, b) = spec_object_span(d, s)->0;
        Some((FragmentType::Object, a, b))
    } else {
        spec_later_fragment(d, s, min_size)
    }
}

/// What `d[s..]` is recognised as when it holds neither a header nor an
/// object: a stream, a cross-reference table, a trailer or a chunk.
pub open spec fn spec_later_fragment(d: Seq<u8>, s: int, min_size: int) -> Option<(FragmentType, int, int)> {
    let rest = d.subrange(s, d.len() as int);
    if bytes_start_with(rest, ascii("stream"@)) && first_occurrence(d, ascii("endstream"@), s) is Some {
        Some((FragmentType::Stream, s, first_occurrence(d, ascii("endstream"@), s)->0 + 9))
    } else if bytes_start_with(rest, ascii("xref"@)) && first_occurrence(d, ascii("trailer"@), s) is Some {
        Some((FragmentType::XrefTable, s, first_occurrence(d, ascii("trailer"@), s)->0))
    } else if bytes_start_with(rest, ascii("trailer"@)) && first_occurrence(d, ascii("startxref"@), s) is Some
        && first_occurrence(d, ascii("startxref"@), s)->0 + 100 <= d.len() {
        Some((FragmentType::Trailer, s, first_occurrence(d, ascii("startxref"@), s)->0 + 100))
    } else {
        let chunk = if d.len() - s < 1024 {
            d.len() - s
        } else {
            1024
        };
        if chunk >= min_size {
            Some((FragmentType::Unknown, s, s + chunk))
        } else {
            None
        }
    }
}

/// How sure a fragment of kind `t` is, in percent.
pub open spec fn spec_confidence(t: FragmentType) -> u8 {
    match t {
        FragmentType::Header => 90,
        FragmentType::Object => 80,
        FragmentType::Stream => 70,
        FragmentType::XrefTable => 90,
        FragmentType::Trailer => 90,
        _ => 10,
    }
}

/// The texts of `v`.
pub open spec fn texts(v: Seq<String>) -> Seq<Seq<char>> {
    v.map_values(|h: String| h@)
}

/// The encoding hints given to a fragment of kind `t`.
pub open spec fn spec_encoding_hints(t: FragmentType) -> Seq<Seq<char>> {
    match t {
        FragmentType::Header => seq!["ascii"@],
        FragmentType::XrefTable => seq!["ascii"@],
        FragmentType::Trailer => seq!["ascii"@],
        _ => seq![],
    }
}

/// The structural hints given to a fragment of kind `t`.
pub open spec fn spec_structural_hints(t: FragmentType) -> Seq<Seq<char>> {
    match t {
        FragmentType::Header => seq!["document_header"@],
        FragmentType::Object => seq!["pdf_object"@],
        FragmentType::Stream => seq!["stream_content"@],
        FragmentType::XrefTable => seq!["cross_reference"@],
        FragmentType::Trailer => seq!["document_trailer"@],
        _ => seq![],
    }
}

/// `f` is the fragment `spec_fragment` describes, numbered `id`, cut from `d`.
pub open spec fn fragment_matches(f: DocumentFragment, d: Seq<u8>, id: int, kind: (FragmentType, int, int)) -> bool {
    &&& f.fragment_type == kind.0
    &&& f.offset == kind.1
    &&& f.data@ == d.subrange(kind.1, kind.2)
    &&& f.confidence == spec_confidence(kind.0)
    &&& f.fragment_id@ == "frag_"@ + decimal(id as nat)
    &&& f.metadata.likely_object_number == if kind.0 == FragmentType::Object {
        spec_object_number(f.data@)
    } else {
        None
    }
    &&& f.metadata.likely_node_type == if kind.0 == FragmentType::Stream {
        Some(NodeType::ContentStream)
    } else {
        None
    }
    &&& texts(f.metadata.encoding_hints@) == spec_encoding_hints(kind.0)
    &&& texts(f.metadata.structural_hints@) == spec_structural_hints(kind.0)
}

/// The first place after `s` where `'\n'` stands, when every character in
/// between is another.
proof fn lemma_first_index_none(t: Seq<char>, c: char, i: int)
    requires
        0 <= i <= t.len(),
        forall|j: int| i <= j < t.len() ==> t[j] != c,
    ensures
        first_index(t, c, i) == t.len(),
    decreases t.len() - i,
{
    if i < t.len() {
        lemma_first_index_none(t, c, i + 1);
    }
}

/// What `find_bytes` finds is the first occurrence.
proof fn lemma_first_occurrence(d: Seq<u8>, w: Seq<u8>, from: int, i: int)
    requires
        from <= i,
        occurs_at(d, w, i),
        forall|j: int| from <= j < i ==> !#[trigger] occurs_at(d, w, j),
    ensures
        first_occurrence(d, w, from) == Some(i),
{
    assert(exists|k: int| from <= k && #[trigger] occurs_at(d, w, k));
    let c = choose|k: int|
        from <= k && #[trigger] occurs_at(d, w, k) && forall|j: int| from <= j < k ==> !#[trigger] occurs_at(d, w, j);
    assert(from <= c && occurs_at(d, w, c) && forall|j: int| from <= j < c ==> !#[trigger] occurs_at(d, w, j));
    if c < i {
        assert(!occurs_at(d, w, c));
    }
    if i < c {
        assert(!occurs_at(d, w, i));
    }
}

/// Where `word` first occurs in `data` at or after `from`.
fn first_from(data: &[u8], from: usize, word: &[u8]) -> (r: Option<usize>)
    requires
        from <= data@.len(),
    ensures
        r matches Some(i) ==> first_occurrence(data@, word@, from as int) == Some(i as int) && i + word@.len()
            <= data@.len() && from <= i,
        r is None ==> first_occurrence(data@, word@, from as int) is None,
{
    let r = find_bytes(data, from, word);
    proof {
        match r {
            Some(i) => lemma_first_occurrence(data@, word@, from as int, i as int),
            None => {},
        }
    }
    r
}

/// The bytes of `data` from `start` on.
fn tail_of(data: &[u8], start: usize) -> (r: Vec<u8>)
    requires
        start <= data@.len(),
    ensures
        r@ == data@.subrange(start as int, data@.len() as int),
{
    let mut v: Vec<u8> = Vec::new();
    let mut i = start;
    while i < data.len()
        invariant
            start <= i <= data@.len(),
            v@ == data@.subrange(start as int, i as int),
        decreases data@.len() - i,
    {
        v.push(data[i]);
        i = i + 1;
        proof {
            assert(v@ =~= data@.subrange(start as int, i as int));
        }
    }
    v
}

/// The bytes `data[a..b]`.
fn bytes_between(data: &[u8], a: usize, b: usize) -> (r: Vec<u8>)
    requires
        a <= b <= data@.len(),
    ensures
        r@ == data@.subrange(a as int, b as int),
{
    let mut v: Vec<u8> = Vec::new();
    let mut i = a;
    while i < b
        invariant
            a <= i <= b <= data@.len(),
            v@ == data@.subrange(a as int, i as int),
        decreases b - i,
    {
        v.push(data[i]);
        i = i + 1;
        proof {
            assert(v@ =~= data@.subrange(a as int, i as int));
        }
    }
    v
}

/// Where an object starts in `bytes`, as `spec_object_start` says.
pub fn find_object_start(bytes: &[u8]) -> (r: Option<usize>)
    ensures
        r is None <==> spec_object_start(bytes@) is None,
        r matches Some(v) ==> spec_object_start(bytes@) == Some(v as int),
{
    let text = utf8_lossy(bytes);
    let t = text.as_str();
    let n = t.unicode_len();
    let ghost tv = t@;
    let mut s: usize = 0;
    let mut i: usize = 0;
    while s < n
        invariant
            n == tv.len(),
            tv == t@,
            tv == lossy_text(bytes@),
            i <= s <= n,
            object_line_from(tv, s as int, i as int) == object_line_from(tv, 0, 0),
        decreases n - s,
    {
        let mut e = s;
        while e < n && t.get_char(e) != '\n'
            invariant
                s <= e <= n,
                n == tv.len(),
                tv == t@,
                forall|k: int| s <= k < e ==> tv[k] != '\n',
            decreases n - e,
        {
            e = e + 1;
        }
        proof {
            if e < n {
                crate::document_serial::lemma_first_index(tv, '\n', s as int, e as int);
            } else {
                lemma_first_index_none(tv, '\n', s as int);
            }
        }
        let le = if e > s && t.get_char(e - 1) == '\r' {
            e - 1
        } else {
            e
        };
        let line = t.substring_char(s, le);
        proof {
            assert(line@ == line_from(tv, s as int));
        }
        match regex_finds("\\d+\\s+\\d+\\s+obj", line) {
            None => {
                return None;
            },
            Some(true) => {
                let bl = line.len();
                return i.checked_mul(bl);
            },
            Some(false) => {},
        }
        if e >= n {
            proof {
                assert(object_line_from(tv, e + 1, i + 1) is None);
            }
            return None;
        }
        s = e + 1;
        i = i + 1;
    }
    None
}

/// The object number in the first object header of `bytes`.
pub fn extract_object_number(bytes: &[u8]) -> (r: Option<u32>)
    ensures
        r == spec_object_number(bytes@),
{
    let text = utf8_lossy(bytes);
    match regex_first_group("(\\d+)\\s+\\d+\\s+obj", text.as_str()) {
        Some(g) => {
            let gs = g.as_str();
            let n = gs.unicode_len();
            match number_text(gs, 0, n, 0xFFFF_FFFFu64) {
                Some(v) => Some(v as u32),
                None => None,
            }
        },
        None => None,
    }
}

/// A `String` for each of `texts`.
fn strings(a: &str, b: &str, count: usize) -> (r: Vec<String>)
    requires
        count <= 2,
    ensures
        count == 0 ==> texts(r@) == Seq::<Seq<char>>::empty(),
        count == 1 ==> texts(r@) == seq![a@],
        count == 2 ==> texts(r@) == seq![a@, b@],
{
    let mut v: Vec<String> = Vec::new();
    if count >= 1 {
        v.push(msg(a));
    }
    if count >= 2 {
        v.push(msg(b));
    }
    proof {
        if count == 0 {
            assert(texts(v@) =~= Seq::<Seq<char>>::empty());
        } else if count == 1 {
            assert(texts(v@) =~= seq![a@]);
        } else {
            assert(texts(v@) =~= seq![a@, b@]);
        }
    }
    v
}

/// The fragment of kind `kind` for `data[a..b]`, numbered `id`.
fn make_fragment(data: &[u8], a: usize, b: usize, id: usize, kind: FragmentType) -> (r: DocumentFragment)
    requires
        a <= b <= data@.len(),
    ensures
        fragment_matches(r, data@, id as int, (kind, a as int, b as int)),
{
    let bytes = bytes_between(data, a, b);
    let number = if kind == FragmentType::Object {
        extract_object_number(bytes.as_slice())
    } else {
        None
    };
    let node = if kind == FragmentType::Stream {
        Some(NodeType::ContentStream)
    } else {
        None
    };
    let (confidence, encoding, structural) = match kind {
        FragmentType::Header => (90u8, strings("ascii", "", 1), strings("document_header", "", 1)),
        FragmentType::Object => (80u8, strings("", "", 0), strings("pdf_object", "", 1)),
        FragmentType::Stream => (70u8, strings("", "", 0), strings("stream_content", "", 1)),
        FragmentType::XrefTable => (90u8, strings("ascii", "", 1), strings("cross_reference", "", 1)),
        FragmentType::Trailer => (90u8, strings("ascii", "", 1), strings("document_trailer", "", 1)),
        _ => (10u8, strings("", "", 0), strings("", "", 0)),
    };
    let mut id_text = msg("frag_");
    id_text.append(usize_text(id).as_str());
    DocumentFragment {
        fragment_id: id_text,
        offset: a as u64,
        data: bytes,
        fragment_type: kind,
        confidence,
        metadata: FragmentMetadata {
            likely_object_number: number,
            likely_node_type: node,
            encoding_hints: encoding,
            structural_hints: structural,
        },
    }
}

/// The bytes of the ASCII text `s`.
fn ascii_word(s: &str) -> (r: Vec<u8>)
    requires
        vstd::string::is_ascii(s),
    ensures
        r@ == ascii(s@),
{
    proof {
        broadcast use vstd::string::is_ascii_spec_bytes;
    }
    let b = s.as_bytes();
    let mut v: Vec<u8> = Vec::new();
    let mut i: usize = 0;
    while i < b.len()
        invariant
            i <= b@.len(),
            b@ == s.spec_bytes(),
            b@ =~= Seq::new(s@.len(), |k: int| s@[k] as u8),
            v@ == ascii(s@).subrange(0, i as int),
        decreases b@.len() - i,
    {
        v.push(b[i]);
        i = i + 1;
        proof {
            assert(v@ =~= ascii(s@).subrange(0, i as int));
        }
    }
    proof {
        assert(v@ =~= ascii(s@));
    }
    v
}

/// Whether `data` holds the ASCII text `word` at `at`.
fn ascii_at(data: &[u8], at: usize, word: &[u8]) -> (r: bool)
    requires
        at <= data@.len(),
    ensures
        r == bytes_start_with(data@.subrange(at as int, data@.len() as int), word@),
{
    let r = crate::recovery::word_at(data, word, at);
    proof {
        let rest = data@.subrange(at as int, data@.len() as int);
        if word@.len() <= rest.len() {
            assert(rest.subrange(0, word@.len() as int) =~= data@.subrange(at as int, at + word@.len()));
        }
    }
    r
}

/// The object fragment that `data[start_pos..]` holds, numbered `id`.
#[verifier::rlimit(60)]
fn object_fragment(data: &[u8], start_pos: usize, id: usize) -> (r: Option<DocumentFragment>)
    requires
        start_pos < data@.len(),
    ensures
        match spec_object_span(data@, start_pos as int) {
            Some(span) => r matches Some(f) && fragment_matches(
                f,
                data@,
                id as int,
                (FragmentType::Object, span.0, span.1),
            ) && start_pos <= span.0 <= span.1 <= data@.len(),
            None => r is None,
        },
{
    proof {
        reveal_strlit("endobj");
    }
    let endobj_kw = ascii_word("endobj");
    assert(endobj_kw@.len() == 6);
    let tail = tail_of(data, start_pos);
    let found = find_object_start(tail.as_slice());
    proof {
        assert(tail@ == data@.subrange(start_pos as int, data@.len() as int));
    }
    match found {
        Some(m) => {
            if m <= data.len() - start_pos {
                let obj_start = start_pos + m;
                match first_from(data, obj_start, endobj_kw.as_slice()) {
                    Some(p) => {
                        return Some(make_fragment(data, obj_start, p + 6, id, FragmentType::Object));
                    },
                    None => {
                        return None;
                    },
                }
            }
            None
        },
        None => None,
    }
}

/// The stream, cross-reference table, trailer or chunk fragment that
/// `data[start_pos..]` holds, numbered `id`.
#[verifier::rlimit(40)]
fn later_fragment(data: &[u8], start_pos: usize, id: usize, min_size: usize) -> (r: Option<DocumentFragment>)
    requires
        start_pos < data@.len(),
    ensures
        match spec_later_fragment(data@, start_pos as int, min_size as int) {
            Some(k) => r matches Some(f) && fragment_matches(f, data@, id as int, k) && start_pos == k.1 <= k.2
                <= data@.len(),
            None => r is None,
        },
{
    proof {
        reveal_strlit("stream");
        reveal_strlit("endstream");
        reveal_strlit("xref");
        reveal_strlit("trailer");
        reveal_strlit("startxref");
    }
    let stream_kw = ascii_word("stream");
    let endstream_kw = ascii_word("endstream");
    let xref_kw = ascii_word("xref");
    let trailer_kw = ascii_word("trailer");
    let startxref_kw = ascii_word("startxref");
    assert(endstream_kw@.len() == 9);
    assert(trailer_kw@.len() == 7);
    assert(startxref_kw@.len() == 9);
    if ascii_at(data, start_pos, stream_kw.as_slice()) {
        match first_from(data, start_pos, endstream_kw.as_slice()) {
            Some(p) => {
                assert(data@.len() == data.len());
                return Some(make_fragment(data, start_pos, p + 9, id, FragmentType::Stream));
            },
            None => {},
        }
    }
    if ascii_at(data, start_pos, xref_kw.as_slice()) {
        match first_from(data, start_pos, trailer_kw.as_slice()) {
            Some(p) => {
                return Some(make_fragment(data, start_pos, p, id, FragmentType::XrefTable));
            },
            None => {},
        }
    }
    if ascii_at(data, start_pos, trailer_kw.as_slice()) {
        match first_from(data, start_pos, startxref_kw.as_slice()) {
            Some(p) => {
                if data.len() >= 100 && p <= data.len() - 100 {
                    return Some(make_fragment(data, start_pos, p + 100, id, FragmentType::Trailer));
                }
            },
            None => {},
        }
    }
    let chunk = if data.len() - start_pos < 1024 {
        data.len() - start_pos
    } else {
        1024
    };
    if chunk >= min_size {
        Some(make_fragment(data, start_pos, start_pos + chunk, id, FragmentType::Unknown))
    } else {
        None
    }
}

impl DocumentReconstructor {
    pub fn new(config: ReconstructionConfig) -> (r: Self)
        ensures
            r.config == config,
            r.fragments@.len() == 0,
    {
        DocumentReconstructor { config, fragments: Vec::new() }
    }

    /// The fragment that starts at `start_pos` (or, for an object, at its
    /// header further on), numbered `fragment_id`, as `spec_fragment`
    /// describes it; `None` past the end and for a short unrecognised tail.
    #[verifier::rlimit(60)]
    pub fn extract_next_fragment(&self, data: &[u8], start_pos: usize, fragment_id: usize) -> (r: Option<
        DocumentFragment,
    >)
        ensures
            start_pos >= data@.len() ==> r is None,
            r is Some <==> spec_fragment(data@, start_pos as int, self.config.min_fragment_size as int) is Some,
            r matches Some(f) ==> fragment_matches(
                f,
                data@,
                fragment_id as int,
                spec_fragment(data@, start_pos as int, self.config.min_fragment_size as int)->0,
            ),
            r matches Some(f) ==> f.offset >= start_pos && f.offset + f.data@.len() <= data@.len()
                && f.data@ == data@.subrange(f.offset as int, f.offset + f.data@.len()),
    {
        if start_pos >= data.len() {
            return None;
        }
        proof {
            reveal_strlit("%PDF-");
            reveal_strlit("\n");
        }
        let header_kw = ascii_word("%PDF-");
        let newline_kw = ascii_word("\n");
        assert(newline_kw@.len() == 1);
        if ascii_at(data, start_pos, header_kw.as_slice()) {
            let end_pos = match first_from(data, start_pos, newline_kw.as_slice()) {
                Some(i) => i + 1,
                None => if data.len() - start_pos >= 8 {
                    start_pos + 8
                } else {
                    data.len()
                },
            };
            return Some(make_fragment(data, start_pos, end_pos, fragment_id, FragmentType::Header));
        }
        proof {
            assert(!bytes_start_with(data@.subrange(start_pos as int, data@.len() as int), ascii("%PDF-"@)));
        }
        match object_fragment(data, start_pos, fragment_id) {
            Some(f) => {
                return Some(f);
            },
            None => {},
        }
        proof {
            assert(spec_object_span(data@, start_pos as int) is None);
            assert(spec_fragment(data@, start_pos as int, self.config.min_fragment_size as int) == spec_later_fragment(
                data@,
                start_pos as int,
                self.config.min_fragment_size as int,
            ));
        }
        later_fragment(data, start_pos, fragment_id, self.config.min_fragment_size)
    }
}

} // verus!
