//! Nested column encoding: documents to flat leaf arrays with
//! definition and repetition levels.
//!
//! A batch of documents becomes, per schema leaf, a value array paired
//! with a definition-level array (how many optional or repeated
//! ancestors are actually present at that position) and a
//! repetition-level array (the nesting depth at which a new list
//! begins; 0 opens a new record). The arrays preserve exact
//! reconstruction of nesting and absence.
//!
//! For a document's `sentence_identifications` the rule, with `base`
//! the level of the enclosing group, is: an entry is encoded at
//! definition level `base + 1` except a first entry that is absent,
//! which collapses the whole list to level `base`; the repetition
//! level is `base + 1` once some earlier entry was present (the list
//! is open and continues) and `base` before that (this position opens
//! the list, or no list is ever opened). Only the first absent entry
//! may collapse the list: this distinguishes "list never populated"
//! from "list populated but this element null".

use vstd::prelude::*;

use crate::doc::{
    clone_opt_idents, clone_pairs, clone_strs, opt_idents_view, pairs_view, strs_view, Document,
    DocumentV, IdentV, Identification, Metadata,
};
use crate::error::Error;

verus! {

// ---------------------------------------------------------------------
// Views of the exec column arrays.
// ---------------------------------------------------------------------
pub open spec fn opt_strs_view(v: Seq<Option<String>>) -> Seq<Option<Seq<char>>> {
    Seq::new(
        v.len(),
        |i: int|
            match v[i] {
                Some(s) => Some(s@),
                None => None,
            },
    )
}

pub open spec fn levels_view(v: Seq<u16>) -> Seq<int> {
    Seq::new(v.len(), |i: int| v[i] as int)
}

// ---------------------------------------------------------------------
// Sentence identification levels.
// ---------------------------------------------------------------------
/// Whether some entry before position `i` is present, i.e. whether the
/// entry at `i` finds the list already open.
pub open spec fn sid_opened(ids: Seq<Option<IdentV>>, i: int) -> bool {
    exists|j: int| 0 <= j < i && ids[j] is Some
}

/// Definition levels: `base + 1` everywhere, except a first entry that
/// is absent, which collapses the list to `base`.
pub open spec fn sid_def(ids: Seq<Option<IdentV>>, base: int) -> Seq<int> {
    Seq::new(
        ids.len(),
        |i: int|
            if i == 0 && ids[0] is None {
                base
            } else {
                base + 1
            },
    )
}

/// Repetition levels: `base` until the list is opened by a present
/// entry, `base + 1` from the next position on.
pub open spec fn sid_rep(ids: Seq<Option<IdentV>>, base: int) -> Seq<int> {
    Seq::new(
        ids.len(),
        |i: int|
            if sid_opened(ids, i) {
                base + 1
            } else {
                base
            },
    )
}

pub open spec fn sid_labels(ids: Seq<Option<IdentV>>) -> Seq<Option<Seq<char>>> {
    Seq::new(
        ids.len(),
        |i: int|
            match ids[i] {
                Some(id) => Some(id.label),
                None => None,
            },
    )
}

pub open spec fn sid_probs(ids: Seq<Option<IdentV>>) -> Seq<Option<Seq<char>>> {
    Seq::new(
        ids.len(),
        |i: int|
            match ids[i] {
                Some(id) => Some(id.prob),
                None => None,
            },
    )
}

/// The two parallel leaves of one document's sentence identifications:
/// label and probability values with their shared level arrays.
#[derive(Debug)]
pub struct IdentColumns {
    pub labels: Vec<Option<String>>,
    pub probs: Vec<Option<String>>,
    pub def_levels: Vec<u16>,
    pub rep_levels: Vec<u16>,
}

/// Encode one document's ordered sentence identifications, `base`
/// being the definition/repetition level of the enclosing group.
pub fn encode_sentence_ids(ids: &Vec<Option<Identification>>, base: u16) -> (r: IdentColumns)
    requires
        base < u16::MAX,
    ensures
        opt_strs_view(r.labels@) == sid_labels(opt_idents_view(ids@)),
        opt_strs_view(r.probs@) == sid_probs(opt_idents_view(ids@)),
        levels_view(r.def_levels@) == sid_def(opt_idents_view(ids@), base as int),
        levels_view(r.rep_levels@) == sid_rep(opt_idents_view(ids@), base as int),
        r.labels@.len() == ids@.len(),
        r.probs@.len() == ids@.len(),
        r.def_levels@.len() == ids@.len(),
        r.rep_levels@.len() == ids@.len(),
{
    let ghost idv = opt_idents_view(ids@);
    let mut labels: Vec<Option<String>> = Vec::new();
    let mut probs: Vec<Option<String>> = Vec::new();
    let mut def_levels: Vec<u16> = Vec::new();
    let mut rep_levels: Vec<u16> = Vec::new();
    let mut opened = false;
    let mut k: usize = 0;
    while k < ids.len()
        invariant
            base < u16::MAX,
            k <= ids@.len(),
            idv == opt_idents_view(ids@),
            idv.len() == ids@.len(),
            opened == sid_opened(idv, k as int),
            labels@.len() == k,
            probs@.len() == k,
            def_levels@.len() == k,
            rep_levels@.len() == k,
            forall|t: int|
                0 <= t < k ==> (match #[trigger] labels@[t] {
                    Some(s) => idv[t] is Some && s@ == idv[t]->0.label,
                    None => idv[t] is None,
                }),
            forall|t: int|
                0 <= t < k ==> (match #[trigger] probs@[t] {
                    Some(s) => idv[t] is Some && s@ == idv[t]->0.prob,
                    None => idv[t] is None,
                }),
            forall|t: int| 0 <= t < k ==> #[trigger] def_levels@[t] as int == sid_def(
                idv,
                base as int,
            )[t],
            forall|t: int| 0 <= t < k ==> #[trigger] rep_levels@[t] as int == sid_rep(
                idv,
                base as int,
            )[t],
        decreases ids@.len() - k,
    {
        let rep: u16 = if opened {
            base + 1
        } else {
            base
        };
        match &ids[k] {
            Some(id) => {
                labels.push(Some(id.label().clone()));
                probs.push(Some(id.prob().clone()));
                def_levels.push(base + 1);
                rep_levels.push(rep);
                proof {
                    assert(idv[k as int] is Some);
                    assert(sid_opened(idv, k as int + 1)) by {
                        assert(0 <= (k as int) && (k as int) < (k as int) + 1 && idv[k as int] is Some);
                    }
                }
                opened = true;
            }
            None => {
                labels.push(None);
                probs.push(None);
                let d: u16 = if k == 0 {
                    base
                } else {
                    base + 1
                };
                def_levels.push(d);
                rep_levels.push(rep);
                proof {
                    assert(idv[k as int] is None);
                    assert(sid_opened(idv, k as int + 1) == sid_opened(idv, k as int)) by {
                        if sid_opened(idv, k as int + 1) {
                            let j = choose|j: int|
                                0 <= j < k as int + 1 && idv[j] is Some;
                            assert(j < k as int);
                        }
                    }
                }
            }
        }
        k += 1;
    }
    let r = IdentColumns { labels, probs, def_levels, rep_levels };
    proof {
        assert(opt_strs_view(r.labels@) =~= sid_labels(idv));
        assert(opt_strs_view(r.probs@) =~= sid_probs(idv));
        assert(levels_view(r.def_levels@) =~= sid_def(idv, base as int));
        assert(levels_view(r.rep_levels@) =~= sid_rep(idv, base as int));
    }
    r
}

/// A pattern starting with a present entry never collapses: pattern
/// [present, absent, present, present] has repetition levels
/// `[base, base+1, base+1, base+1]` and definition levels all
/// `base + 1`.
pub proof fn lemma_sid_open_pattern(ids: Seq<Option<IdentV>>, base: int)
    requires
        ids.len() == 4,
        ids[0] is Some,
        ids[1] is None,
        ids[2] is Some,
        ids[3] is Some,
    ensures
        sid_rep(ids, base) =~= seq![base, base + 1, base + 1, base + 1],
        sid_def(ids, base) =~= seq![base + 1, base + 1, base + 1, base + 1],
{
    assert(!sid_opened(ids, 0));
    assert(sid_opened(ids, 1)) by {
        assert(0 <= 0 < 1 && ids[0] is Some);
    }
    assert(sid_opened(ids, 2)) by {
        assert(0 <= 0 < 2 && ids[0] is Some);
    }
    assert(sid_opened(ids, 3)) by {
        assert(0 <= 0 < 3 && ids[0] is Some);
    }
}

/// A first absent entry collapses only its own position: pattern
/// [absent, present] has repetition levels `[base, base]` (the second
/// entry opens the list) and definition levels `[base, base + 1]`.
pub proof fn lemma_sid_collapsed_pattern(ids: Seq<Option<IdentV>>, base: int)
    requires
        ids.len() == 2,
        ids[0] is None,
        ids[1] is Some,
    ensures
        sid_rep(ids, base) =~= seq![base, base],
        sid_def(ids, base) =~= seq![base, base + 1],
{
    assert(!sid_opened(ids, 0));
    assert(!sid_opened(ids, 1)) by {
        if sid_opened(ids, 1) {
            let j = choose|j: int| 0 <= j < 1 && ids[j] is Some;
            assert(false);
        }
    }
}

// ---------------------------------------------------------------------
// Leaf buffers, their invariant, and the schema descriptor.
// ---------------------------------------------------------------------
/// One leaf's output buffers: values (absent positions carry no value)
/// and the two parallel level arrays.
#[derive(Debug)]
pub struct LeafColumn {
    pub values: Vec<Option<String>>,
    pub def_levels: Vec<u16>,
    pub rep_levels: Vec<u16>,
}

pub open spec fn leaf_wf(c: &LeafColumn) -> bool {
    c.values@.len() == c.def_levels@.len() && c.values@.len() == c.rep_levels@.len()
}

impl LeafColumn {
    /// The invariant every encoded leaf must meet: its three arrays
    /// run in parallel. A mismatch is an internal defect
    /// ([`Error::EncodingInvariantViolation`]), never caused by input.
    pub fn check(&self) -> (r: Result<(), Error>)
        ensures
            r is Ok <==> leaf_wf(self),
            r is Err ==> (r matches Err(e) && e is EncodingInvariantViolation),
    {
        if self.values.len() == self.def_levels.len() && self.values.len()
            == self.rep_levels.len() {
            Ok(())
        } else {
            Err(Error::EncodingInvariantViolation)
        }
    }
}

/// What kind of value a leaf holds.
#[derive(PartialEq, Eq, Structural, Clone, Copy, Debug)]
pub enum LeafKind {
    Text,
    Number,
}

/// One leaf of the schema: its value kind and maximum levels.
#[derive(PartialEq, Eq, Structural, Clone, Copy, Debug)]
pub struct SchemaLeaf {
    pub kind: LeafKind,
    pub max_def: u16,
    pub max_rep: u16,
}

/// An immutable descriptor of the sink's leaf shape, built once and
/// shared read-only across encode calls.
pub struct SchemaDescriptor {
    pub leaves: Vec<SchemaLeaf>,
}

/// The schema this encoder writes: lines, annotation, header key,
/// header value, sentence label, sentence probability.
pub open spec fn document_schema_leaves() -> Seq<SchemaLeaf> {
    seq![
        SchemaLeaf { kind: LeafKind::Text, max_def: 1, max_rep: 1 },
        SchemaLeaf { kind: LeafKind::Text, max_def: 2, max_rep: 1 },
        SchemaLeaf { kind: LeafKind::Text, max_def: 1, max_rep: 1 },
        SchemaLeaf { kind: LeafKind::Text, max_def: 1, max_rep: 1 },
        SchemaLeaf { kind: LeafKind::Text, max_def: 2, max_rep: 2 },
        SchemaLeaf { kind: LeafKind::Number, max_def: 2, max_rep: 2 },
    ]
}

/// Build the canonical schema descriptor for documents.
pub fn document_schema() -> (r: SchemaDescriptor)
    ensures
        r.leaves@ == document_schema_leaves(),
{
    let mut leaves: Vec<SchemaLeaf> = Vec::new();
    leaves.push(SchemaLeaf { kind: LeafKind::Text, max_def: 1, max_rep: 1 });
    leaves.push(SchemaLeaf { kind: LeafKind::Text, max_def: 2, max_rep: 1 });
    leaves.push(SchemaLeaf { kind: LeafKind::Text, max_def: 1, max_rep: 1 });
    leaves.push(SchemaLeaf { kind: LeafKind::Text, max_def: 1, max_rep: 1 });
    leaves.push(SchemaLeaf { kind: LeafKind::Text, max_def: 2, max_rep: 2 });
    leaves.push(SchemaLeaf { kind: LeafKind::Number, max_def: 2, max_rep: 2 });
    proof {
        assert(leaves@ =~= document_schema_leaves());
    }
    SchemaDescriptor { leaves }
}

/// Reject a configured sink schema that disagrees with the document
/// schema: an input-level error, distinct from the internal
/// array-length invariant.
pub fn check_schema(s: &SchemaDescriptor) -> (r: Result<(), Error>)
    ensures
        r is Ok <==> s.leaves@ == document_schema_leaves(),
        r is Err ==> (r matches Err(e) && e is SchemaMismatch),
{
    if schema_matches(s) {
        Ok(())
    } else {
        Err(Error::SchemaMismatch)
    }
}

/// Whether a configured sink schema agrees with the document schema.
pub fn schema_matches(s: &SchemaDescriptor) -> (r: bool)
    ensures
        r == (s.leaves@ == document_schema_leaves()),
{
    if s.leaves.len() != 6 {
        proof {
            assert(s.leaves@ != document_schema_leaves());
        }
        return false;
    }
    let canon = document_schema();
    let mut k: usize = 0;
    while k < 6
        invariant
            k <= 6,
            s.leaves@.len() == 6,
            canon.leaves@ == document_schema_leaves(),
            canon.leaves@.len() == 6,
            forall|t: int| 0 <= t < k ==> s.leaves@[t] == document_schema_leaves()[t],
        decreases 6 - k,
    {
        if !(s.leaves[k] == canon.leaves[k]) {
            proof {
                assert(s.leaves@[k as int] != document_schema_leaves()[k as int]);
            }
            return false;
        }
        k += 1;
    }
    proof {
        assert(s.leaves@ =~= document_schema_leaves());
    }
    true
}

// ---------------------------------------------------------------------
// Batch grouping (the column-major transposition of a batch).
// ---------------------------------------------------------------------
/// A batch of documents regrouped by field, ready for per-leaf
/// encoding. The inputs are copied; callers keep their documents.
#[derive(Debug)]
pub struct DocGroup {
    pub contents: Vec<String>,
    pub warc_headers: Vec<Vec<(String, String)>>,
    pub annotations: Vec<Option<Vec<String>>>,
    pub ids: Vec<Identification>,
    pub line_ids: Vec<Vec<Option<Identification>>>,
    pub nb_col: usize,
}

impl DocGroup {
    /// Regroup a batch field by field, in document order.
    pub fn new(docs: &Vec<Document>) -> (r: Self)
        ensures
            r.contents@.len() == docs@.len(),
            r.warc_headers@.len() == docs@.len(),
            r.annotations@.len() == docs@.len(),
            r.ids@.len() == docs@.len(),
            r.line_ids@.len() == docs@.len(),
            r.nb_col == 0,
            forall|i: int|
                0 <= i < docs@.len() ==> #[trigger] r.contents@[i]@ == docs@[i]@.content,
            forall|i: int|
                0 <= i < docs@.len() ==> pairs_view(#[trigger] r.warc_headers@[i]@)
                    == docs@[i]@.warc_headers,
            forall|i: int|
                0 <= i < docs@.len() ==> (match #[trigger] r.annotations@[i] {
                    Some(ref tags) => docs@[i]@.metadata.annotation == Some(strs_view(tags@)),
                    None => docs@[i]@.metadata.annotation is None,
                }),
            forall|i: int|
                0 <= i < docs@.len() ==> #[trigger] r.ids@[i]@
                    == docs@[i]@.metadata.identification,
            forall|i: int|
                0 <= i < docs@.len() ==> opt_idents_view(#[trigger] r.line_ids@[i]@)
                    == docs@[i]@.metadata.sentence_identifications,
    {
        let mut contents: Vec<String> = Vec::new();
        let mut warc_headers: Vec<Vec<(String, String)>> = Vec::new();
        let mut annotations: Vec<Option<Vec<String>>> = Vec::new();
        let mut ids: Vec<Identification> = Vec::new();
        let mut line_ids: Vec<Vec<Option<Identification>>> = Vec::new();
        let mut k: usize = 0;
        while k < docs.len()
            invariant
                k <= docs@.len(),
                contents@.len() == k,
                warc_headers@.len() == k,
                annotations@.len() == k,
                ids@.len() == k,
                line_ids@.len() == k,
                forall|i: int|
                    0 <= i < k ==> #[trigger] contents@[i]@ == docs@[i]@.content,
                forall|i: int|
                    0 <= i < k ==> pairs_view(#[trigger] warc_headers@[i]@)
                        == docs@[i]@.warc_headers,
                forall|i: int|
                    0 <= i < k ==> (match #[trigger] annotations@[i] {
                        Some(ref tags) => docs@[i]@.metadata.annotation == Some(
                            strs_view(tags@),
                        ),
                        None => docs@[i]@.metadata.annotation is None,
                    }),
                forall|i: int|
                    0 <= i < k ==> #[trigger] ids@[i]@ == docs@[i]@.metadata.identification,
                forall|i: int|
                    0 <= i < k ==> opt_idents_view(#[trigger] line_ids@[i]@)
                        == docs@[i]@.metadata.sentence_identifications,
            decreases docs@.len() - k,
        {
            let d = &docs[k];
            contents.push(d.content().clone());
            warc_headers.push(clone_pairs(d.warc_headers()));
            let ann = match d.metadata().annotation() {
                Some(tags) => Some(clone_strs(tags)),
                None => None,
            };
            annotations.push(ann);
            ids.push(d.metadata().identification().clone());
            line_ids.push(clone_opt_idents(d.metadata().sentence_identifications()));
            k += 1;
        }
        DocGroup { contents, warc_headers, annotations, ids, line_ids, nb_col: 0 }
    }
}

// ---------------------------------------------------------------------
// The remaining leaves: content lines, annotation, headers.
// ---------------------------------------------------------------------
/// Position of the first line feed at or after `pos`, or the end.
pub open spec fn nl_pos(s: Seq<char>, pos: int) -> int
    decreases s.len() - pos when 0 <= pos <= s.len()
{
    if pos >= s.len() {
        pos
    } else if s[pos] == '\n' {
        pos
    } else {
        nl_pos(s, pos + 1)
    }
}

pub proof fn lemma_nl_pos_bounds(s: Seq<char>, pos: int)
    requires
        0 <= pos <= s.len(),
    ensures
        pos <= nl_pos(s, pos) <= s.len(),
    decreases s.len() - pos,
{
    if pos < s.len() && s[pos] != '\n' {
        lemma_nl_pos_bounds(s, pos + 1);
    }
}

/// The lines of a text from `pos` on: the segments between line
/// feeds. A text of n line feeds has n + 1 lines; an empty text has
/// one empty line.
pub open spec fn lines_from(s: Seq<char>, pos: int) -> Seq<Seq<char>>
    decreases s.len() - pos when 0 <= pos <= s.len() via lines_from_dec
{
    let e = nl_pos(s, pos);
    if e >= s.len() {
        seq![s.subrange(pos, s.len() as int)]
    } else {
        seq![s.subrange(pos, e)] + lines_from(s, e + 1)
    }
}

#[via_fn]
proof fn lines_from_dec(s: Seq<char>, pos: int) {
    if 0 <= pos <= s.len() {
        lemma_nl_pos_bounds(s, pos);
    }
}

/// The lines of a document's content.
pub open spec fn split_lines(s: Seq<char>) -> Seq<Seq<char>> {
    lines_from(s, 0)
}

proof fn lemma_nl_pos_at(s: Seq<char>, pos: int, j: int)
    requires
        0 <= pos <= j <= s.len(),
        forall|t: int| pos <= t < j ==> s[t] != '\n',
        j == s.len() || s[j] == '\n',
    ensures
        nl_pos(s, pos) == j,
    decreases j - pos,
{
    if pos < j {
        lemma_nl_pos_at(s, pos + 1, j);
    }
}

/// Split a text into its lines.
pub fn split_content(s: &String) -> (r: Vec<String>)
    ensures
        strs_view(r@) == split_lines(s@),
        r@.len() == split_lines(s@).len(),
        r@.len() >= 1,
{
    let c = crate::json::string_chars(s.as_str());
    let n = c.len();
    let mut out: Vec<String> = Vec::new();
    let mut pos: usize = 0;
    proof {
        assert(Seq::<Seq<char>>::empty() + lines_from(c@, 0) =~= lines_from(c@, 0));
    }
    loop
        invariant_except_break
            lines_from(c@, 0) == strs_view(out@) + lines_from(c@, pos as int),
        invariant
            pos <= n,
            n == c@.len(),
            c@ == s@,
        ensures
            lines_from(c@, 0) == strs_view(out@),
            out@.len() >= 1,
        decreases n - pos,
    {
        let mut e = pos;
        while e < n && c[e] != '\n'
            invariant
                pos <= e <= n,
                n == c@.len(),
                forall|t: int| pos <= t < e ==> c@[t] != '\n',
            decreases n - e,
        {
            e += 1;
        }
        proof {
            lemma_nl_pos_at(c@, pos as int, e as int);
        }
        let mut seg: Vec<char> = Vec::new();
        let mut k = pos;
        while k < e
            invariant
                pos <= k <= e <= n,
                n == c@.len(),
                seg@ =~= c@.subrange(pos as int, k as int),
            decreases e - k,
        {
            seg.push(c[k]);
            k += 1;
        }
        let ghost pre = out@;
        out.push(crate::json::chars_to_string(&seg));
        proof {
            assert(seg@ =~= c@.subrange(pos as int, e as int));
            assert(strs_view(out@) =~= strs_view(pre).push(c@.subrange(pos as int, e as int)));
        }
        if e == n {
            proof {
                assert(lines_from(c@, pos as int) =~= seq![
                    c@.subrange(pos as int, n as int),
                ]);
                assert(strs_view(pre) + lines_from(c@, pos as int) =~= strs_view(out@));
            }
            break ;
        }
        proof {
            assert(lines_from(c@, pos as int) =~= seq![c@.subrange(pos as int, e as int)]
                + lines_from(c@, e as int + 1));
            assert(strs_view(pre) + lines_from(c@, pos as int) =~= strs_view(out@)
                + lines_from(c@, e as int + 1));
        }
        pos = e + 1;
    }
    out
}

pub open spec fn lines_vals(s: Seq<char>) -> Seq<Option<Seq<char>>> {
    Seq::new(split_lines(s).len(), |i: int| Some(split_lines(s)[i]))
}

pub open spec fn lines_defs(s: Seq<char>) -> Seq<int> {
    Seq::new(split_lines(s).len(), |i: int| 1)
}

pub open spec fn lines_reps(s: Seq<char>) -> Seq<int> {
    Seq::new(
        split_lines(s).len(),
        |i: int|
            if i == 0 {
                0
            } else {
                1
            },
    )
}

/// Encode one document's content as the required repeated lines leaf:
/// every line present at the maximum definition level, the first line
/// opening the record's list and the rest continuing it.
pub fn encode_lines(content: &String) -> (r: LeafColumn)
    ensures
        opt_strs_view(r.values@) == lines_vals(content@),
        levels_view(r.def_levels@) == lines_defs(content@),
        levels_view(r.rep_levels@) == lines_reps(content@),
        leaf_wf(&r),
{
    let lines = split_content(content);
    let mut values: Vec<Option<String>> = Vec::new();
    let mut def_levels: Vec<u16> = Vec::new();
    let mut rep_levels: Vec<u16> = Vec::new();
    let mut k: usize = 0;
    while k < lines.len()
        invariant
            k <= lines@.len(),
            strs_view(lines@) == split_lines(content@),
            lines@.len() == split_lines(content@).len(),
            values@.len() == k,
            def_levels@.len() == k,
            rep_levels@.len() == k,
            forall|t: int|
                0 <= t < k ==> (match #[trigger] values@[t] {
                    Some(s) => s@ == split_lines(content@)[t],
                    None => false,
                }),
            forall|t: int| 0 <= t < k ==> #[trigger] def_levels@[t] == 1,
            forall|t: int|
                0 <= t < k ==> #[trigger] rep_levels@[t] == (if t == 0 {
                    0u16
                } else {
                    1u16
                }),
        decreases lines@.len() - k,
    {
        values.push(Some(lines[k].clone()));
        def_levels.push(1);
        rep_levels.push(if k == 0 {
            0
        } else {
            1
        });
        k += 1;
    }
    let r = LeafColumn { values, def_levels, rep_levels };
    proof {
        assert(opt_strs_view(r.values@) =~= lines_vals(content@));
        assert(levels_view(r.def_levels@) =~= lines_defs(content@));
        assert(levels_view(r.rep_levels@) =~= lines_reps(content@));
    }
    r
}

pub open spec fn ann_vals(a: Option<Seq<Seq<char>>>) -> Seq<Option<Seq<char>>> {
    match a {
        None => seq![None],
        Some(tags) => if tags.len() == 0 {
            seq![None]
        } else {
            Seq::new(tags.len(), |i: int| Some(tags[i]))
        },
    }
}

pub open spec fn ann_defs(a: Option<Seq<Seq<char>>>) -> Seq<int> {
    match a {
        None => seq![0],
        Some(tags) => if tags.len() == 0 {
            seq![1]
        } else {
            Seq::new(tags.len(), |i: int| 2)
        },
    }
}

pub open spec fn ann_reps(a: Option<Seq<Seq<char>>>) -> Seq<int> {
    match a {
        None => seq![0],
        Some(tags) => if tags.len() == 0 {
            seq![0]
        } else {
            Seq::new(
                tags.len(),
                |i: int|
                    if i == 0 {
                        0
                    } else {
                        1
                    },
            )
        },
    }
}

/// Encode one document's optional tag list: an absent list is one
/// placeholder at the level that marks the list itself absent, a
/// present but empty list one placeholder at the list's own level,
/// and tags follow the first-opens/rest-continue rule.
pub fn encode_annotation(a: &Option<Vec<String>>) -> (r: LeafColumn)
    ensures
        (match a {
            Some(tags) => {
                &&& opt_strs_view(r.values@) == ann_vals(Some(strs_view(tags@)))
                &&& levels_view(r.def_levels@) == ann_defs(Some(strs_view(tags@)))
                &&& levels_view(r.rep_levels@) == ann_reps(Some(strs_view(tags@)))
            },
            None => {
                &&& opt_strs_view(r.values@) == ann_vals(None)
                &&& levels_view(r.def_levels@) == ann_defs(None)
                &&& levels_view(r.rep_levels@) == ann_reps(None)
            },
        }),
        leaf_wf(&r),
{
    let mut values: Vec<Option<String>> = Vec::new();
    let mut def_levels: Vec<u16> = Vec::new();
    let mut rep_levels: Vec<u16> = Vec::new();
    match a {
        None => {
            values.push(None);
            def_levels.push(0);
            rep_levels.push(0);
            let r = LeafColumn { values, def_levels, rep_levels };
            proof {
                assert(opt_strs_view(r.values@) =~= ann_vals(None));
                assert(levels_view(r.def_levels@) =~= ann_defs(None));
                assert(levels_view(r.rep_levels@) =~= ann_reps(None));
            }
            r
        }
        Some(tags) => {
            if tags.len() == 0 {
                values.push(None);
                def_levels.push(1);
                rep_levels.push(0);
                let r = LeafColumn { values, def_levels, rep_levels };
                proof {
                    assert(opt_strs_view(r.values@) =~= ann_vals(Some(strs_view(tags@))));
                    assert(levels_view(r.def_levels@) =~= ann_defs(Some(strs_view(tags@))));
                    assert(levels_view(r.rep_levels@) =~= ann_reps(Some(strs_view(tags@))));
                }
                return r;
            }
            let mut k: usize = 0;
            while k < tags.len()
                invariant
                    k <= tags@.len(),
                    values@.len() == k,
                    def_levels@.len() == k,
                    rep_levels@.len() == k,
                    forall|t: int|
                        0 <= t < k ==> (match #[trigger] values@[t] {
                            Some(s) => s@ == tags@[t]@,
                            None => false,
                        }),
                    forall|t: int| 0 <= t < k ==> #[trigger] def_levels@[t] == 2,
                    forall|t: int|
                        0 <= t < k ==> #[trigger] rep_levels@[t] == (if t == 0 {
                            0u16
                        } else {
                            1u16
                        }),
                decreases tags@.len() - k,
            {
                values.push(Some(tags[k].clone()));
                def_levels.push(2);
                rep_levels.push(if k == 0 {
                    0
                } else {
                    1
                });
                k += 1;
            }
            let r = LeafColumn { values, def_levels, rep_levels };
            proof {
                assert(opt_strs_view(r.values@) =~= ann_vals(Some(strs_view(tags@))));
                assert(levels_view(r.def_levels@) =~= ann_defs(Some(strs_view(tags@))));
                assert(levels_view(r.rep_levels@) =~= ann_reps(Some(strs_view(tags@))));
            }
            r
        }
    }
}

pub open spec fn hdr_keys(ps: Seq<(Seq<char>, Seq<char>)>) -> Seq<Option<Seq<char>>> {
    if ps.len() == 0 {
        seq![None]
    } else {
        Seq::new(ps.len(), |i: int| Some(ps[i].0))
    }
}

pub open spec fn hdr_vals(ps: Seq<(Seq<char>, Seq<char>)>) -> Seq<Option<Seq<char>>> {
    if ps.len() == 0 {
        seq![None]
    } else {
        Seq::new(ps.len(), |i: int| Some(ps[i].1))
    }
}

pub open spec fn hdr_defs(ps: Seq<(Seq<char>, Seq<char>)>) -> Seq<int> {
    if ps.len() == 0 {
        seq![0]
    } else {
        Seq::new(ps.len(), |i: int| 1)
    }
}

pub open spec fn hdr_reps(ps: Seq<(Seq<char>, Seq<char>)>) -> Seq<int> {
    if ps.len() == 0 {
        seq![0]
    } else {
        Seq::new(
            ps.len(),
            |i: int|
                if i == 0 {
                    0
                } else {
                    1
                },
        )
    }
}

/// The parallel key and value leaves of one document's header mapping.
#[derive(Debug)]
pub struct PairColumns {
    pub keys: Vec<Option<String>>,
    pub values: Vec<Option<String>>,
    pub def_levels: Vec<u16>,
    pub rep_levels: Vec<u16>,
}

/// Encode one document's header mapping as parallel key and value
/// leaves sized to the map; a zero-entry map still emits one
/// null-marked pair so the document's boundary stays structurally
/// intact.
pub fn encode_headers(ps: &Vec<(String, String)>) -> (r: PairColumns)
    ensures
        opt_strs_view(r.keys@) == hdr_keys(pairs_view(ps@)),
        opt_strs_view(r.values@) == hdr_vals(pairs_view(ps@)),
        levels_view(r.def_levels@) == hdr_defs(pairs_view(ps@)),
        levels_view(r.rep_levels@) == hdr_reps(pairs_view(ps@)),
        r.keys@.len() == r.values@.len(),
        r.keys@.len() == r.def_levels@.len(),
        r.keys@.len() == r.rep_levels@.len(),
{
    let mut keys: Vec<Option<String>> = Vec::new();
    let mut values: Vec<Option<String>> = Vec::new();
    let mut def_levels: Vec<u16> = Vec::new();
    let mut rep_levels: Vec<u16> = Vec::new();
    if ps.len() == 0 {
        keys.push(None);
        values.push(None);
        def_levels.push(0);
        rep_levels.push(0);
        let r = PairColumns { keys, values, def_levels, rep_levels };
        proof {
            assert(opt_strs_view(r.keys@) =~= hdr_keys(pairs_view(ps@)));
            assert(opt_strs_view(r.values@) =~= hdr_vals(pairs_view(ps@)));
            assert(levels_view(r.def_levels@) =~= hdr_defs(pairs_view(ps@)));
            assert(levels_view(r.rep_levels@) =~= hdr_reps(pairs_view(ps@)));
        }
        return r;
    }
    let mut k: usize = 0;
    while k < ps.len()
        invariant
            k <= ps@.len(),
            keys@.len() == k,
            values@.len() == k,
            def_levels@.len() == k,
            rep_levels@.len() == k,
            forall|t: int|
                0 <= t < k ==> (match #[trigger] keys@[t] {
                    Some(s) => s@ == ps@[t].0@,
                    None => false,
                }),
            forall|t: int|
                0 <= t < k ==> (match #[trigger] values@[t] {
                    Some(s) => s@ == ps@[t].1@,
                    None => false,
                }),
            forall|t: int| 0 <= t < k ==> #[trigger] def_levels@[t] == 1,
            forall|t: int|
                0 <= t < k ==> #[trigger] rep_levels@[t] == (if t == 0 {
                    0u16
                } else {
                    1u16
                }),
        decreases ps@.len() - k,
    {
        keys.push(Some(ps[k].0.clone()));
        values.push(Some(ps[k].1.clone()));
        def_levels.push(1);
        rep_levels.push(if k == 0 {
            0
        } else {
            1
        });
        k += 1;
    }
    let r = PairColumns { keys, values, def_levels, rep_levels };
    proof {
        assert(opt_strs_view(r.keys@) =~= hdr_keys(pairs_view(ps@)));
        assert(opt_strs_view(r.values@) =~= hdr_vals(pairs_view(ps@)));
        assert(levels_view(r.def_levels@) =~= hdr_defs(pairs_view(ps@)));
        assert(levels_view(r.rep_levels@) =~= hdr_reps(pairs_view(ps@)));
    }
    r
}

/// Every leaf of one document, encoded.
#[derive(Debug)]
pub struct DocColumns {
    pub lines: LeafColumn,
    pub annotation: LeafColumn,
    pub headers: PairColumns,
    pub sentence_ids: IdentColumns,
}

/// Whether `c` is the encoding of the document `d`, leaf by leaf, with
/// the sentence identifications at their group level.
pub open spec fn doc_cols_ok(c: DocColumns, d: DocumentV) -> bool {
    &&& opt_strs_view(c.lines.values@) == lines_vals(d.content)
    &&& levels_view(c.lines.def_levels@) == lines_defs(d.content)
    &&& levels_view(c.lines.rep_levels@) == lines_reps(d.content)
    &&& opt_strs_view(c.annotation.values@) == ann_vals(d.metadata.annotation)
    &&& levels_view(c.annotation.def_levels@) == ann_defs(d.metadata.annotation)
    &&& levels_view(c.annotation.rep_levels@) == ann_reps(d.metadata.annotation)
    &&& opt_strs_view(c.headers.keys@) == hdr_keys(d.warc_headers)
    &&& opt_strs_view(c.headers.values@) == hdr_vals(d.warc_headers)
    &&& levels_view(c.headers.def_levels@) == hdr_defs(d.warc_headers)
    &&& levels_view(c.headers.rep_levels@) == hdr_reps(d.warc_headers)
    &&& opt_strs_view(c.sentence_ids.labels@) == sid_labels(d.metadata.sentence_identifications)
    &&& opt_strs_view(c.sentence_ids.probs@) == sid_probs(d.metadata.sentence_identifications)
    &&& levels_view(c.sentence_ids.def_levels@) == sid_def(
        d.metadata.sentence_identifications,
        1,
    )
    &&& levels_view(c.sentence_ids.rep_levels@) == sid_rep(
        d.metadata.sentence_identifications,
        1,
    )
}

/// Encode a whole batch against a configured sink schema. A schema
/// that disagrees with the document schema is an input-level error;
/// the documents themselves are read-only and every one is encoded.
pub fn encode_batch(docs: &Vec<Document>, schema: &SchemaDescriptor) -> (r: Result<
    Vec<DocColumns>,
    Error,
>)
    ensures
        (match r {
            Ok(cols) => {
                &&& schema.leaves@ == document_schema_leaves()
                &&& cols@.len() == docs@.len()
                &&& forall|i: int|
                    0 <= i < docs@.len() ==> doc_cols_ok(#[trigger] cols@[i], docs@[i]@)
            },
            Err(e) => schema.leaves@ != document_schema_leaves() && e is SchemaMismatch,
        }),
{
    if let Err(e) = check_schema(schema) {
        return Err(e);
    }
    let mut cols: Vec<DocColumns> = Vec::new();
    let mut k: usize = 0;
    while k < docs.len()
        invariant
            k <= docs@.len(),
            cols@.len() == k,
            forall|i: int| 0 <= i < k ==> doc_cols_ok(#[trigger] cols@[i], docs@[i]@),
        decreases docs@.len() - k,
    {
        let d = &docs[k];
        let c = DocColumns {
            lines: encode_lines(d.content()),
            annotation: encode_annotation(d.metadata().annotation()),
            headers: encode_headers(d.warc_headers()),
            sentence_ids: encode_sentence_ids(d.metadata().sentence_identifications(), 1),
        };
        proof {
            assert(doc_cols_ok(c, docs@[k as int]@));
        }
        cols.push(c);
        k += 1;
    }
    Ok(cols)
}

// ---------------------------------------------------------------------
// Walking one document field by field.
// ---------------------------------------------------------------------
/// One field of a document, detached from it.
#[derive(Debug, PartialEq)]
pub enum DocPart {
    Content(String),
    Warc(Vec<(String, String)>),
    Annotation(Option<Vec<String>>),
    Id(Identification),
    LineIds(Vec<Option<Identification>>),
}

/// Yields a document's fields one by one, in schema order.
pub struct DocumentFieldsIterator<'a> {
    pub inner: &'a Document,
    pub part_nb: usize,
}

impl<'a> DocumentFieldsIterator<'a> {
    /// The next field, or `None` once all five have been yielded.
    pub fn next(&mut self) -> (r: Option<DocPart>)
        ensures
            final(self).inner == old(self).inner,
            old(self).part_nb < 5 ==> final(self).part_nb == old(self).part_nb + 1,
            old(self).part_nb >= 5 ==> final(self).part_nb == old(self).part_nb,
            (match r {
                Some(p) => old(self).part_nb < 5 && (match p {
                    DocPart::Content(c) => old(self).part_nb == 0 && c@
                        == old(self).inner@.content,
                    DocPart::Warc(w) => old(self).part_nb == 1 && pairs_view(w@)
                        == old(self).inner@.warc_headers,
                    DocPart::Annotation(a) => old(self).part_nb == 2 && (match a {
                        Some(tags) => old(self).inner@.metadata.annotation == Some(
                            strs_view(tags@),
                        ),
                        None => old(self).inner@.metadata.annotation is None,
                    }),
                    DocPart::Id(id) => old(self).part_nb == 3 && id@
                        == old(self).inner@.metadata.identification,
                    DocPart::LineIds(l) => old(self).part_nb == 4 && opt_idents_view(l@)
                        == old(self).inner@.metadata.sentence_identifications,
                }),
                None => old(self).part_nb >= 5,
            }),
    {
        let r = match self.part_nb {
            0 => Some(DocPart::Content(self.inner.content().clone())),
            1 => Some(DocPart::Warc(clone_pairs(self.inner.warc_headers()))),
            2 => Some(
                DocPart::Annotation(
                    match self.inner.metadata().annotation() {
                        Some(tags) => Some(clone_strs(tags)),
                        None => None,
                    },
                ),
            ),
            3 => Some(DocPart::Id(self.inner.metadata().identification().clone())),
            4 => Some(
                DocPart::LineIds(clone_opt_idents(self.inner.metadata().sentence_identifications())),
            ),
            _ => None,
        };
        if self.part_nb < 5 {
            self.part_nb = self.part_nb + 1;
        }
        r
    }
}

impl Document {
    /// Walk this document's fields in schema order.
    pub fn iter_parquet(&self) -> (r: DocumentFieldsIterator<'_>)
        ensures
            r.inner == self,
            r.part_nb == 0,
    {
        DocumentFieldsIterator { inner: self, part_nb: 0 }
    }
}

} // verus!
