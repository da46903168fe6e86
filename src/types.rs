//! The parsed submission: metadata tree, per-document metadata, options.
use vstd::prelude::*;

verus! {

broadcast use vstd::std_specs::vec::group_vec_axioms;

/// Header dialect, detected once from the header prefix.
#[derive(Debug, Clone, Copy, PartialEq, Eq, Structural)]
pub enum SubmissionFormat {
    TabPrivacy,
    TabDefault,
    Archive,
}

/// A metadata value: a string, an ordered list, or an object whose entries
/// keep their order of insertion and have distinct keys.
#[derive(Debug)]
pub enum MetadataValue {
    String(String),
    List(Vec<MetadataValue>),
    Object(Vec<(String, MetadataValue)>),
}

/// The mathematical content of a `MetadataValue`.
pub enum Tree {
    Str(Seq<char>),
    List(Seq<Tree>),
    Obj(Seq<(Seq<char>, Tree)>),
}

impl MetadataValue {
    /// The tree that this value holds.
    pub open spec fn tree(&self) -> Tree
        decreases self,
    {
        match self {
            MetadataValue::String(s) => Tree::Str(s@),
            MetadataValue::List(items) => Tree::List(
                Seq::new(
                    items@.len(),
                    |i: int|
                        if 0 <= i < items@.len() {
                            items[i].tree()
                        } else {
                            Tree::Str(Seq::empty())
                        },
                ),
            ),
            MetadataValue::Object(es) => Tree::Obj(
                Seq::new(
                    es@.len(),
                    |i: int|
                        if 0 <= i < es@.len() {
                            (es[i].0@, es[i].1.tree())
                        } else {
                            (Seq::empty(), Tree::Str(Seq::empty()))
                        },
                ),
            ),
        }
    }
}

/// The entries of an object, as keys and trees.
pub open spec fn entries_tree(es: Seq<(String, MetadataValue)>) -> Seq<(Seq<char>, Tree)> {
    Seq::new(es.len(), |i: int| (es[i].0@, es[i].1.tree()))
}

/// The items of a list, as trees.
pub open spec fn items_tree(items: Seq<MetadataValue>) -> Seq<Tree> {
    Seq::new(items.len(), |i: int| items[i].tree())
}

/// The tree of an object is the tree of its entries.
pub proof fn lemma_object_tree(es: Vec<(String, MetadataValue)>)
    ensures
        MetadataValue::Object(es).tree() == Tree::Obj(entries_tree(es@)),
{
    assert(MetadataValue::Object(es).tree()->Obj_0 =~= entries_tree(es@));
}

/// The tree of a list is the list of its items' trees.
pub proof fn lemma_list_tree(items: Vec<MetadataValue>)
    ensures
        MetadataValue::List(items).tree() == Tree::List(items_tree(items@)),
{
    assert(MetadataValue::List(items).tree()->List_0 =~= items_tree(items@));
}

/// Keys and values of a flat field list, as char sequences.
pub open spec fn pairs_view(fs: Seq<(String, String)>) -> Seq<(Seq<char>, Seq<char>)> {
    Seq::new(fs.len(), |i: int| (fs[i].0@, fs[i].1@))
}

/// The first index at or after `i` whose key is `k`.
pub open spec fn field_pos_from(fs: Seq<(Seq<char>, Seq<char>)>, k: Seq<char>, i: int) -> Option<
    int,
>
    decreases fs.len() - i,
{
    if i < 0 || i >= fs.len() {
        None
    } else if fs[i].0 == k {
        Some(i)
    } else {
        field_pos_from(fs, k, i + 1)
    }
}

/// What `field_pos_from` returns: the first matching index, or none.
pub proof fn lemma_field_pos_from(fs: Seq<(Seq<char>, Seq<char>)>, k: Seq<char>, i: int)
    requires
        0 <= i,
    ensures
        match field_pos_from(fs, k, i) {
            Some(j) => i <= j < fs.len() && fs[j].0 == k && forall|m: int|
                i <= m < j ==> fs[m].0 != k,
            None => forall|m: int| i <= m < fs.len() ==> fs[m].0 != k,
        },
    decreases fs.len() - i,
{
    if i < fs.len() && fs[i].0 != k {
        lemma_field_pos_from(fs, k, i + 1);
    }
}

/// The value of the field `k`, if present.
pub open spec fn field_get(fs: Seq<(Seq<char>, Seq<char>)>, k: Seq<char>) -> Option<Seq<char>> {
    match field_pos_from(fs, k, 0) {
        Some(i) => Some(fs[i].1),
        None => None,
    }
}

/// The fields once `k` is set to `v`: an existing key keeps its place and
/// takes the new value; a new key is appended.
pub open spec fn set_field(fs: Seq<(Seq<char>, Seq<char>)>, k: Seq<char>, v: Seq<char>) -> Seq<
    (Seq<char>, Seq<char>),
> {
    match field_pos_from(fs, k, 0) {
        Some(i) => fs.update(i, (k, v)),
        None => fs.push((k, v)),
    }
}

/// Index of the field whose key is `k`.
pub fn field_index(fs: &Vec<(String, String)>, k: &String) -> (r: Option<usize>)
    ensures
        r matches Some(i) ==> field_pos_from(pairs_view(fs@), k@, 0) == Some(i as int) && i
            < fs@.len(),
        r is None ==> field_pos_from(pairs_view(fs@), k@, 0) is None,
{
    let ghost t = pairs_view(fs@);
    proof {
        lemma_field_pos_from(t, k@, 0);
    }
    let mut i: usize = 0;
    while i < fs.len()
        invariant
            i <= fs@.len(),
            t == pairs_view(fs@),
            field_pos_from(t, k@, 0) == field_pos_from(t, k@, i as int),
        decreases fs@.len() - i,
    {
        if fs[i].0 == *k {
            return Some(i);
        }
        i = i + 1;
    }
    None
}

/// No two fields share a key.
pub open spec fn fields_distinct(fs: Seq<(Seq<char>, Seq<char>)>) -> bool {
    forall|i: int, j: int| 0 <= i < j < fs.len() ==> (#[trigger] fs[i]).0 != (#[trigger] fs[j]).0
}

/// Setting a field keeps the keys distinct.
pub proof fn lemma_set_field_distinct(fs: Seq<(Seq<char>, Seq<char>)>, k: Seq<char>, v: Seq<char>)
    requires
        fields_distinct(fs),
    ensures
        fields_distinct(set_field(fs, k, v)),
{
    lemma_field_pos_from(fs, k, 0);
    let r = set_field(fs, k, v);
    assert forall|a: int, b: int| 0 <= a < b < r.len() implies (#[trigger] r[a]).0 != (
    #[trigger] r[b]).0 by {
        if b < fs.len() {
            assert(fs[a].0 != fs[b].0);
        } else {
            assert(r[a] == fs[a]);
        }
    }
}

/// Sets the field `k` to `v`, replacing the value of a present key.
pub fn put_field(fs: &mut Vec<(String, String)>, k: String, v: String)
    ensures
        pairs_view(final(fs)@) == set_field(pairs_view(old(fs)@), k@, v@),
{
    match field_index(fs, &k) {
        Some(i) => {
            fs.remove(i);
            fs.insert(i, (k, v));
            proof {
                lemma_field_pos_from(pairs_view(old(fs)@), k@, 0);
                assert(pairs_view(fs@) =~= set_field(pairs_view(old(fs)@), k@, v@));
            }
        },
        None => {
            fs.push((k, v));
            proof {
                assert(pairs_view(fs@) =~= set_field(pairs_view(old(fs)@), k@, v@));
            }
        },
    }
}

/// Metadata of one document: its fields in order of first appearance, the
/// decoded payload length, and, once placed in an archive, the payload's
/// first and one-past-last byte offsets as 10-digit decimals.
pub struct DocumentMetadata {
    pub fields: Vec<(String, String)>,
    pub size_bytes: usize,
    pub start_byte: Option<String>,
    pub end_byte: Option<String>,
}

impl DocumentMetadata {
    /// The field list of this document, as char sequences.
    pub open spec fn fields_view(&self) -> Seq<(Seq<char>, Seq<char>)> {
        pairs_view(self.fields@)
    }

    fn get(&self, key: &str) -> (r: Option<&str>)
        ensures
            r is Some <==> field_get(self.fields_view(), key@) is Some,
            r matches Some(s) ==> field_get(self.fields_view(), key@) == Some(s@),
    {
        let k = key.to_owned();
        match field_index(&self.fields, &k) {
            Some(i) => Some(self.fields[i].1.as_str()),
            None => None,
        }
    }

    /// The `type` field.
    pub fn doc_type(&self) -> (r: Option<&str>)
        ensures
            r is Some <==> field_get(self.fields_view(), "type"@) is Some,
            r matches Some(s) ==> field_get(self.fields_view(), "type"@) == Some(s@),
    {
        self.get("type")
    }

    /// The `filename` field.
    pub fn filename(&self) -> (r: Option<&str>)
        ensures
            r is Some <==> field_get(self.fields_view(), "filename"@) is Some,
            r matches Some(s) ==> field_get(self.fields_view(), "filename"@) == Some(s@),
    {
        self.get("filename")
    }

    /// The `sequence` field.
    pub fn sequence(&self) -> (r: Option<&str>)
        ensures
            r is Some <==> field_get(self.fields_view(), "sequence"@) is Some,
            r matches Some(s) ==> field_get(self.fields_view(), "sequence"@) == Some(s@),
    {
        self.get("sequence")
    }
}

/// Metadata of a submission: the header tree and the documents' metadata.
pub struct SubmissionMetadata {
    pub fields: Vec<(String, MetadataValue)>,
    pub documents: Vec<DocumentMetadata>,
}

/// Options of a parse.
pub struct ParseOptions {
    /// Document types to keep (empty keeps all).
    pub filter_document_types: Vec<String>,
    /// Keep the metadata of documents that the filter drops.
    pub keep_filtered_metadata: bool,
    /// Map keys to canonical names and reduce values.
    pub standardize_metadata: bool,
    /// Parse documents concurrently where the caller can.
    pub parallel: bool,
}

impl ParseOptions {
    /// Standardizing, without a filter, documents parsed concurrently where
    /// the caller can.
    pub fn new() -> (r: Self)
        ensures
            r.filter_document_types@.len() == 0,
            !r.keep_filtered_metadata,
            r.standardize_metadata,
            r.parallel,
    {
        ParseOptions {
            filter_document_types: Vec::new(),
            keep_filtered_metadata: false,
            standardize_metadata: true,
            parallel: true,
        }
    }

    /// Keys and values as they stand, without a filter, documents parsed
    /// concurrently where the caller can.
    pub fn preserve_original() -> (r: Self)
        ensures
            r.filter_document_types@.len() == 0,
            !r.keep_filtered_metadata,
            !r.standardize_metadata,
            r.parallel,
    {
        ParseOptions {
            filter_document_types: Vec::new(),
            keep_filtered_metadata: false,
            standardize_metadata: false,
            parallel: true,
        }
    }

    /// These options with `types` as the filter.
    pub fn with_filter(self, types: Vec<String>) -> (r: Self)
        ensures
            r.filter_document_types@ == types@,
            r.keep_filtered_metadata == self.keep_filtered_metadata,
            r.standardize_metadata == self.standardize_metadata,
            r.parallel == self.parallel,
    {
        let mut s = self;
        s.filter_document_types = types;
        s
    }
}

/// A parsed submission: metadata, payloads, and the detected dialect.
pub struct ParsedSubmission {
    pub metadata: SubmissionMetadata,
    pub documents: Vec<Vec<u8>>,
    pub format: SubmissionFormat,
}

/// Why a parse or an archive failed.
#[derive(Debug)]
pub enum ParseError {
    Io(String),
    InvalidStructure(String),
    EncodingError,
    UuDecodeError(String),
    JsonError(String),
}

impl Default for MetadataValue {
    /// An empty object.
    fn default() -> (r: Self)
        ensures
            r.tree() == Tree::Obj(Seq::empty()),
    {
        MetadataValue::object()
    }
}

impl MetadataValue {
    /// A string value.
    pub fn string(s: String) -> (r: Self)
        ensures
            r.tree() == Tree::Str(s@),
    {
        MetadataValue::String(s)
    }

    /// An empty object.
    pub fn object() -> (r: Self)
        ensures
            r.tree() == Tree::Obj(Seq::empty()),
    {
        let r = MetadataValue::Object(Vec::new());
        assert(r.tree()->Obj_0 =~= Seq::<(Seq<char>, Tree)>::empty());
        r
    }

    /// The string, if this is a string value.
    pub fn as_str(&self) -> (r: Option<&str>)
        ensures
            r is Some <==> self.tree() is Str,
            r matches Some(s) ==> self.tree() == Tree::Str(s@),
    {
        match self {
            MetadataValue::String(s) => Some(s.as_str()),
            _ => None,
        }
    }

    /// The entries, if this is an object, to change in place.
    pub fn as_object_mut(&mut self) -> (r: Option<&mut Vec<(String, MetadataValue)>>)
        ensures
            r is Some <==> old(self).tree() is Obj,
            r matches Some(es) ==> *old(self) == MetadataValue::Object(*es) && *final(self)
                == MetadataValue::Object(*final(es)),
            r is None ==> *final(self) == *old(self),
    {
        match self {
            MetadataValue::Object(es) => Some(es),
            _ => None,
        }
    }

    /// The entries, if this is an object.
    pub fn as_object(&self) -> (r: Option<&Vec<(String, MetadataValue)>>)
        ensures
            r is Some <==> self.tree() is Obj,
            r matches Some(es) ==> self.tree() == Tree::Obj(entries_tree(es@)),
    {
        match self {
            MetadataValue::Object(es) => {
                proof {
                    lemma_object_tree(*es);
                }
                Some(es)
            },
            _ => None,
        }
    }
}

fn copy_opt(o: &Option<String>) -> (r: Option<String>)
    ensures
        r == *o,
{
    match o {
        Some(s) => Some(s.clone()),
        None => None,
    }
}

impl MetadataValue {
    /// A copy of this value.
    pub fn duplicate(&self) -> (r: Self)
        ensures
            r.tree() == self.tree(),
        decreases self, 0nat,
    {
        match self {
            MetadataValue::String(s) => MetadataValue::String(s.clone()),
            MetadataValue::List(items) => {
                proof {
                    lemma_list_tree(*items);
                }
                let mut out: Vec<MetadataValue> = Vec::new();
                let mut i: usize = 0;
                while i < items.len()
                    invariant
                        i <= items@.len(),
                        *self == MetadataValue::List(*items),
                        out@.len() == i,
                        forall|j: int| 0 <= j < i ==> (#[trigger] out@[j]).tree() == items@[j].tree(),
                    decreases items@.len() - i,
                {
                    proof {
                        assert(decreases_to!(*self => (*self)->List_0));
                        assert(decreases_to!(*items => items[i as int]));
                    }
                    let c = items[i].duplicate();
                    out.push(c);
                    i = i + 1;
                }
                proof {
                    lemma_list_tree(out);
                    assert(items_tree(out@) =~= items_tree(items@));
                }
                MetadataValue::List(out)
            },
            MetadataValue::Object(es) => {
                proof {
                    lemma_object_tree(*es);
                }
                let out = duplicate_entries(es);
                proof {
                    lemma_object_tree(out);
                }
                MetadataValue::Object(out)
            },
        }
    }
}

/// A copy of an object's entries.
pub fn duplicate_entries(es: &Vec<(String, MetadataValue)>) -> (r: Vec<(String, MetadataValue)>)
    ensures
        entries_tree(r@) == entries_tree(es@),
    decreases es, 1nat,
{
    let mut out: Vec<(String, MetadataValue)> = Vec::new();
    let mut i: usize = 0;
    while i < es.len()
        invariant
            i <= es@.len(),
            out@.len() == i,
            forall|j: int| 0 <= j < i ==> (#[trigger] out@[j]).0@ == es@[j].0@ && out@[j].1.tree() == es@[j].1.tree(),
        decreases es@.len() - i,
    {
        let k = es[i].0.clone();
        let v = es[i].1.duplicate();
        out.push((k, v));
        i = i + 1;
    }
    proof {
        assert(entries_tree(out@) =~= entries_tree(es@));
    }
    out
}

impl DocumentMetadata {
    /// A copy of this document's metadata.
    pub fn duplicate(&self) -> (r: Self)
        ensures
            r.fields_view() == self.fields_view(),
            r.size_bytes == self.size_bytes,
            r.start_byte == self.start_byte,
            r.end_byte == self.end_byte,
    {
        let mut fields: Vec<(String, String)> = Vec::new();
        let mut i: usize = 0;
        while i < self.fields.len()
            invariant
                i <= self.fields@.len(),
                fields@.len() == i,
                forall|j: int| 0 <= j < i ==> (#[trigger] fields@[j]).0@ == self.fields@[j].0@ && fields@[j].1@ == self.fields@[j].1@,
            decreases self.fields@.len() - i,
        {
            fields.push((self.fields[i].0.clone(), self.fields[i].1.clone()));
            i = i + 1;
        }
        proof {
            assert(pairs_view(fields@) =~= pairs_view(self.fields@));
        }
        DocumentMetadata {
            fields,
            size_bytes: self.size_bytes,
            start_byte: copy_opt(&self.start_byte),
            end_byte: copy_opt(&self.end_byte),
        }
    }
}

impl SubmissionMetadata {
    /// A copy of this metadata.
    pub fn duplicate(&self) -> (r: Self)
        ensures
            entries_tree(r.fields@) == entries_tree(self.fields@),
            r.documents@.len() == self.documents@.len(),
            forall|i: int|
                0 <= i < r.documents@.len() ==> (#[trigger] r.documents@[i]).fields_view()
                    == self.documents@[i].fields_view() && r.documents@[i].size_bytes
                    == self.documents@[i].size_bytes && r.documents@[i].start_byte
                    == self.documents@[i].start_byte && r.documents@[i].end_byte
                    == self.documents@[i].end_byte,
    {
        let fields = duplicate_entries(&self.fields);
        let mut documents: Vec<DocumentMetadata> = Vec::new();
        let mut i: usize = 0;
        while i < self.documents.len()
            invariant
                i <= self.documents@.len(),
                documents@.len() == i,
                forall|j: int|
                    0 <= j < i ==> (#[trigger] documents@[j]).fields_view()
                        == self.documents@[j].fields_view() && documents@[j].size_bytes
                        == self.documents@[j].size_bytes && documents@[j].start_byte
                        == self.documents@[j].start_byte && documents@[j].end_byte
                        == self.documents@[j].end_byte,
            decreases self.documents@.len() - i,
        {
            documents.push(self.documents[i].duplicate());
            i = i + 1;
        }
        SubmissionMetadata { fields, documents }
    }
}

} // verus!
