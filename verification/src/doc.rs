//! The document data model and its mathematical view.
//!
//! A [`Document`] carries the text of one record (`content`, logically
//! split into lines), an unordered string-to-string header mapping, and
//! [`Metadata`]: a document-level language [`Identification`], an
//! optional ordered list of annotation tags, and one optional
//! identification per line of the content.
//!
//! A language probability is carried as the decimal token it was read
//! from (or will be written as), so that records survive a decode and
//! re-encode unchanged; consumers that need the numeric value convert
//! the token outside this crate.

use vstd::prelude::*;

verus! {

/// Spec-level view of an [`Identification`].
#[verifier::ext_equal]
pub ghost struct IdentV {
    pub label: Seq<char>,
    pub prob: Seq<char>,
}

/// Spec-level view of a [`Metadata`].
#[verifier::ext_equal]
pub ghost struct MetadataV {
    pub identification: IdentV,
    pub annotation: Option<Seq<Seq<char>>>,
    pub sentence_identifications: Seq<Option<IdentV>>,
}

/// Spec-level view of a [`Document`].
#[verifier::ext_equal]
pub ghost struct DocumentV {
    pub content: Seq<char>,
    pub warc_headers: Seq<(Seq<char>, Seq<char>)>,
    pub metadata: MetadataV,
}

/// A character this crate can place inside a JSON string: anything at
/// or above the space character, plus the five control characters that
/// the serializer escapes by name.
pub open spec fn stringable_char(c: char) -> bool {
    (c as u32) >= 32 || c == '\n' || c == '\r' || c == '\t' || c == '\u{8}' || c == '\u{c}'
}

pub open spec fn stringable(s: Seq<char>) -> bool {
    forall|i: int| 0 <= i < s.len() ==> stringable_char(#[trigger] s[i])
}

pub open spec fn is_digit(c: char) -> bool {
    '0' <= c && c <= '9'
}

/// One step of the JSON number grammar, as a deterministic automaton.
/// States: 0 start, 1 after minus, 2 integer part zero, 3 integer part
/// nonzero, 4 after decimal point, 5 fraction digits, 6 after exponent
/// mark, 7 after exponent sign, 8 exponent digits, 9 reject.
pub open spec fn num_step(st: int, c: char) -> int {
    if st == 0 {
        if c == '-' { 1 } else if c == '0' { 2 } else if is_digit(c) { 3 } else { 9 }
    } else if st == 1 {
        if c == '0' { 2 } else if is_digit(c) { 3 } else { 9 }
    } else if st == 2 {
        if c == '.' { 4 } else if c == 'e' || c == 'E' { 6 } else { 9 }
    } else if st == 3 {
        if is_digit(c) { 3 } else if c == '.' { 4 } else if c == 'e' || c == 'E' { 6 } else { 9 }
    } else if st == 4 {
        if is_digit(c) { 5 } else { 9 }
    } else if st == 5 {
        if is_digit(c) { 5 } else if c == 'e' || c == 'E' { 6 } else { 9 }
    } else if st == 6 {
        if c == '+' || c == '-' { 7 } else if is_digit(c) { 8 } else { 9 }
    } else if st == 7 {
        if is_digit(c) { 8 } else { 9 }
    } else if st == 8 {
        if is_digit(c) { 8 } else { 9 }
    } else {
        9
    }
}

pub open spec fn num_run(st: int, s: Seq<char>) -> int
    decreases s.len(),
{
    if s.len() == 0 {
        st
    } else {
        num_run(num_step(st, s[0]), s.drop_first())
    }
}

pub open spec fn num_accepting(st: int) -> bool {
    st == 2 || st == 3 || st == 5 || st == 8
}

/// Whether `s` is exactly one JSON number token.
pub open spec fn is_number_token(s: Seq<char>) -> bool {
    num_accepting(num_run(0, s))
}

pub open spec fn ident_wf(id: IdentV) -> bool {
    &&& stringable(id.label)
    &&& is_number_token(id.prob)
}

pub open spec fn opt_ident_wf(id: Option<IdentV>) -> bool {
    match id {
        Some(i) => ident_wf(i),
        None => true,
    }
}

pub open spec fn metadata_wf(m: MetadataV) -> bool {
    &&& ident_wf(m.identification)
    &&& match m.annotation {
        Some(tags) => forall|i: int| 0 <= i < tags.len() ==> stringable(#[trigger] tags[i]),
        None => true,
    }
    &&& forall|i: int|
        0 <= i < m.sentence_identifications.len() ==> opt_ident_wf(
            #[trigger] m.sentence_identifications[i],
        )
}

/// A document whose every string the serializer can represent and whose
/// probability tokens follow the number grammar.
pub open spec fn doc_wf(d: DocumentV) -> bool {
    &&& stringable(d.content)
    &&& forall|i: int|
        0 <= i < d.warc_headers.len() ==> stringable(#[trigger] d.warc_headers[i].0) && stringable(
            d.warc_headers[i].1,
        )
    &&& metadata_wf(d.metadata)
}

/// A language label together with the decimal token of its confidence.
#[derive(Debug, PartialEq)]
pub struct Identification {
    label: String,
    prob: String,
}

impl View for Identification {
    type V = IdentV;

    closed spec fn view(&self) -> IdentV {
        IdentV { label: self.label@, prob: self.prob@ }
    }
}

impl Identification {
    pub fn new(label: String, prob: String) -> (r: Self)
        ensures
            r@ == (IdentV { label: label@, prob: prob@ }),
    {
        Identification { label, prob }
    }

    pub fn label(&self) -> (r: &String)
        ensures
            r@ == self@.label,
    {
        &self.label
    }

    pub fn prob(&self) -> (r: &String)
        ensures
            r@ == self@.prob,
    {
        &self.prob
    }
}

impl Clone for Identification {
    fn clone(&self) -> (r: Self)
        ensures
            r == *self,
    {
        Identification { label: self.label.clone(), prob: self.prob.clone() }
    }
}

pub open spec fn strs_view(v: Seq<String>) -> Seq<Seq<char>> {
    Seq::new(v.len(), |i: int| v[i]@)
}

pub open spec fn pairs_view(v: Seq<(String, String)>) -> Seq<(Seq<char>, Seq<char>)> {
    Seq::new(v.len(), |i: int| (v[i].0@, v[i].1@))
}

pub open spec fn opt_idents_view(v: Seq<Option<Identification>>) -> Seq<Option<IdentV>> {
    Seq::new(
        v.len(),
        |i: int|
            match v[i] {
                Some(id) => Some(id@),
                None => None,
            },
    )
}

/// Per-document metadata: document identification, optional tag list,
/// one optional identification per line of the content.
#[derive(Debug, PartialEq)]
pub struct Metadata {
    identification: Identification,
    annotation: Option<Vec<String>>,
    sentence_identifications: Vec<Option<Identification>>,
}

impl View for Metadata {
    type V = MetadataV;

    closed spec fn view(&self) -> MetadataV {
        MetadataV {
            identification: self.identification@,
            annotation: match self.annotation {
                Some(tags) => Some(strs_view(tags@)),
                None => None,
            },
            sentence_identifications: opt_idents_view(self.sentence_identifications@),
        }
    }
}

impl Metadata {
    pub fn new(
        identification: Identification,
        annotation: Option<Vec<String>>,
        sentence_identifications: Vec<Option<Identification>>,
    ) -> (r: Self)
        ensures
            r@.identification == identification@,
            r@.annotation == (match annotation {
                Some(tags) => Some(strs_view(tags@)),
                None => None::<Seq<Seq<char>>>,
            }),
            r@.sentence_identifications == opt_idents_view(sentence_identifications@),
    {
        Metadata { identification, annotation, sentence_identifications }
    }

    pub fn identification(&self) -> (r: &Identification)
        ensures
            r@ == self@.identification,
    {
        &self.identification
    }

    pub fn annotation(&self) -> (r: &Option<Vec<String>>)
        ensures
            (match r {
                Some(tags) => self@.annotation == Some(strs_view(tags@)),
                None => self@.annotation is None,
            }),
    {
        &self.annotation
    }

    pub fn sentence_identifications(&self) -> (r: &Vec<Option<Identification>>)
        ensures
            opt_idents_view(r@) == self@.sentence_identifications,
    {
        &self.sentence_identifications
    }
}

pub(crate) fn clone_strs(v: &Vec<String>) -> (r: Vec<String>)
    ensures
        strs_view(r@) == strs_view(v@),
        r@.len() == v@.len(),
{
    let mut r: Vec<String> = Vec::new();
    let mut i: usize = 0;
    while i < v.len()
        invariant
            i <= v.len(),
            r@.len() == i,
            forall|j: int| 0 <= j < i ==> #[trigger] r@[j]@ == v@[j]@,
        decreases v.len() - i,
    {
        r.push(v[i].clone());
        i += 1;
    }
    proof {
        assert(strs_view(r@) =~= strs_view(v@));
    }
    r
}

pub(crate) fn clone_opt_idents(v: &Vec<Option<Identification>>) -> (r: Vec<Option<Identification>>)
    ensures
        opt_idents_view(r@) == opt_idents_view(v@),
        r@.len() == v@.len(),
{
    let mut r: Vec<Option<Identification>> = Vec::new();
    let mut i: usize = 0;
    while i < v.len()
        invariant
            i <= v.len(),
            r@.len() == i,
            forall|j: int|
                0 <= j < i ==> (match #[trigger] r@[j] {
                    Some(id) => v@[j] is Some && id@ == v@[j]->0@,
                    None => v@[j] is None,
                }),
        decreases v.len() - i,
    {
        let e: Option<Identification> = match &v[i] {
            Some(id) => Some(id.clone()),
            None => None,
        };
        r.push(e);
        i += 1;
    }
    proof {
        assert(opt_idents_view(r@) =~= opt_idents_view(v@));
    }
    r
}

pub(crate) fn clone_pairs(v: &Vec<(String, String)>) -> (r: Vec<(String, String)>)
    ensures
        pairs_view(r@) == pairs_view(v@),
        r@.len() == v@.len(),
{
    let mut r: Vec<(String, String)> = Vec::new();
    let mut i: usize = 0;
    while i < v.len()
        invariant
            i <= v.len(),
            r@.len() == i,
            forall|j: int|
                0 <= j < i ==> #[trigger] r@[j].0@ == v@[j].0@ && r@[j].1@ == v@[j].1@,
        decreases v.len() - i,
    {
        let p = &v[i];
        r.push((p.0.clone(), p.1.clone()));
        i += 1;
    }
    proof {
        assert(pairs_view(r@) =~= pairs_view(v@));
    }
    r
}

impl Clone for Metadata {
    fn clone(&self) -> (r: Self)
        ensures
            r@ == self@,
    {
        let annotation = match &self.annotation {
            Some(tags) => Some(clone_strs(tags)),
            None => None,
        };
        let r = Metadata {
            identification: self.identification.clone(),
            annotation,
            sentence_identifications: clone_opt_idents(&self.sentence_identifications),
        };
        proof {
            assert(r@ =~= self@);
        }
        r
    }
}

/// One record of the corpus: its text, its header mapping, and its
/// metadata. Immutable once constructed.
#[derive(Debug, PartialEq)]
pub struct Document {
    content: String,
    warc_headers: Vec<(String, String)>,
    metadata: Metadata,
}

impl View for Document {
    type V = DocumentV;

    closed spec fn view(&self) -> DocumentV {
        DocumentV {
            content: self.content@,
            warc_headers: pairs_view(self.warc_headers@),
            metadata: self.metadata@,
        }
    }
}

impl Document {
    pub fn new(content: String, warc_headers: Vec<(String, String)>, metadata: Metadata) -> (r:
        Self)
        ensures
            r@ == (DocumentV {
                content: content@,
                warc_headers: pairs_view(warc_headers@),
                metadata: metadata@,
            }),
    {
        Document { content, warc_headers, metadata }
    }

    pub fn content(&self) -> (r: &String)
        ensures
            r@ == self@.content,
    {
        &self.content
    }

    pub fn warc_headers(&self) -> (r: &Vec<(String, String)>)
        ensures
            pairs_view(r@) == self@.warc_headers,
    {
        &self.warc_headers
    }

    pub fn metadata(&self) -> (r: &Metadata)
        ensures
            r@ == self@.metadata,
    {
        &self.metadata
    }

    /// The document-level identification, straight from the metadata.
    pub fn identification(&self) -> (r: &Identification)
        ensures
            r@ == self@.metadata.identification,
    {
        self.metadata.identification()
    }
}

impl Default for Metadata {
    /// The default metadata: an
    /// English identification with probability token `1.0`, no
    /// annotation, and one sentence identification equal to the
    /// document identification.
    fn default() -> (r: Self)
        ensures
            r@.identification == (IdentV { label: "en"@, prob: "1.0"@ }),
            r@.annotation is None,
            r@.sentence_identifications =~= seq![
                Some(IdentV { label: "en"@, prob: "1.0"@ }),
            ],
    {
        let id = Identification::new("en".to_owned(), "1.0".to_owned());
        let id2 = Identification::new("en".to_owned(), "1.0".to_owned());
        let mut sids: Vec<Option<Identification>> = Vec::new();
        sids.push(Some(id2));
        let r = Metadata { identification: id, annotation: None, sentence_identifications: sids };
        proof {
            assert(r@.sentence_identifications =~= seq![
                Some(IdentV { label: "en"@, prob: "1.0"@ }),
            ]);
        }
        r
    }
}

impl Clone for Document {
    fn clone(&self) -> (r: Self)
        ensures
            r@ == self@,
    {
        let r = Document {
            content: self.content.clone(),
            warc_headers: clone_pairs(&self.warc_headers),
            metadata: self.metadata.clone(),
        };
        proof {
            assert(r@ =~= self@);
        }
        r
    }
}

} // verus!
