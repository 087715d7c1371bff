//! Sequencing a pre-enumerated, deterministically sorted list of files.
//!
//! [`SplitFolderFileIter`] presents the documents of a fixed list of
//! files as one continuous sequence. Construction takes the immediate
//! entries of a directory (path and whether it is a plain file), keeps
//! the plain files, fails on an empty result, and sorts the kept paths
//! lexicographically for determinism. The machine does no I/O: it asks
//! for the next queued file and is told the outcome. Unlike the
//! numbered-shard sequencer, a file that fails to open is not fatal:
//! the failure is yielded as one error item, the entry is discarded,
//! and the following pull proceeds with the next queued file.

use vstd::multiset::Multiset;
use vstd::prelude::*;

use crate::doc::{strs_view, Document, DocumentV};
use crate::error::Error;
use crate::json::string_chars;
use crate::reader::{items_of, DocReader};

verus! {

/// Lexicographic order on character sequences, by code point.
pub open spec fn lex_le(a: Seq<char>, b: Seq<char>) -> bool
    decreases a.len(),
{
    if a.len() == 0 {
        true
    } else if b.len() == 0 {
        false
    } else if a[0] != b[0] {
        a[0] < b[0]
    } else {
        lex_le(a.drop_first(), b.drop_first())
    }
}

pub proof fn lemma_lex_le_total(a: Seq<char>, b: Seq<char>)
    ensures
        lex_le(a, b) || lex_le(b, a),
    decreases a.len(),
{
    if a.len() > 0 && b.len() > 0 && a[0] == b[0] {
        lemma_lex_le_total(a.drop_first(), b.drop_first());
    }
}

/// Decide the lexicographic order of two paths.
pub fn str_lex_le(a: &String, b: &String) -> (r: bool)
    ensures
        r == lex_le(a@, b@),
{
    let av = string_chars(a.as_str());
    let bv = string_chars(b.as_str());
    let mut k: usize = 0;
    proof {
        assert(a@.skip(0) =~= a@);
        assert(b@.skip(0) =~= b@);
    }
    loop
        invariant
            k <= av@.len(),
            k <= bv@.len(),
            av@ == a@,
            bv@ == b@,
            lex_le(a@, b@) == lex_le(a@.skip(k as int), b@.skip(k as int)),
        decreases av@.len() - k,
    {
        if k == av.len() {
            proof {
                assert(a@.skip(k as int).len() == 0);
            }
            return true;
        }
        if k == bv.len() {
            proof {
                assert(b@.skip(k as int).len() == 0);
                assert(a@.skip(k as int).len() > 0);
            }
            return false;
        }
        let ca = av[k];
        let cb = bv[k];
        proof {
            assert(a@.skip(k as int)[0] == a@[k as int]);
            assert(b@.skip(k as int)[0] == b@[k as int]);
            assert(a@.skip(k as int).drop_first() =~= a@.skip(k as int + 1));
            assert(b@.skip(k as int).drop_first() =~= b@.skip(k as int + 1));
        }
        if ca != cb {
            return ca < cb;
        }
        k += 1;
    }
}

/// The paths of the plain-file entries, in listed order.
pub open spec fn plain_files(entries: Seq<(String, bool)>) -> Seq<Seq<char>>
    decreases entries.len(),
{
    if entries.len() == 0 {
        Seq::empty()
    } else {
        (if entries[0].1 {
            seq![entries[0].0@]
        } else {
            Seq::empty()
        }) + plain_files(entries.drop_first())
    }
}

/// One position of a folder run's item sequence: a document, a
/// malformed record, or a file that could not be opened.
pub ghost enum FolderItemV {
    Doc(DocumentV),
    Malformed,
    OpenFailed,
}

/// A document source's items, seen as folder run items.
pub open spec fn file_items(b: Seq<u8>) -> Seq<FolderItemV> {
    items_of(b).map_values(
        |o: Option<DocumentV>|
            match o {
                Some(d) => FolderItemV::Doc(d),
                None => FolderItemV::Malformed,
            },
    )
}

/// The item sequence a run presents, given what happened to each
/// dequeued file in order: the items of each file that opened, and
/// exactly one error item for each file that did not.
pub open spec fn folder_run_items(events: Seq<Option<Seq<u8>>>) -> Seq<FolderItemV>
    decreases events.len(),
{
    if events.len() == 0 {
        Seq::empty()
    } else {
        (match events[0] {
            Some(b) => file_items(b),
            None => seq![FolderItemV::OpenFailed],
        }) + folder_run_items(events.drop_first())
    }
}

pub proof fn lemma_folder_run_items_snoc(events: Seq<Option<Seq<u8>>>, e: Option<Seq<u8>>)
    ensures
        folder_run_items(events.push(e)) == folder_run_items(events) + (match e {
            Some(b) => file_items(b),
            None => seq![FolderItemV::OpenFailed],
        }),
    decreases events.len(),
{
    let tail = (match e {
        Some(b) => file_items(b),
        None => seq![FolderItemV::OpenFailed],
    });
    if events.len() == 0 {
        assert(events.push(e)[0] == e);
        assert(events.push(e).drop_first() =~= Seq::<Option<Seq<u8>>>::empty());
        assert(folder_run_items(Seq::<Option<Seq<u8>>>::empty())
            == Seq::<FolderItemV>::empty());
        assert(tail + Seq::<FolderItemV>::empty() =~= tail);
        assert(Seq::<FolderItemV>::empty() + tail =~= tail);
        assert(folder_run_items(events.push(e)) =~= folder_run_items(events) + tail);
    } else {
        assert(events.push(e)[0] == events[0]);
        assert(events.push(e).drop_first() =~= events.drop_first().push(e));
        lemma_folder_run_items_snoc(events.drop_first(), e);
        let head = (match events[0] {
            Some(b) => file_items(b),
            None => seq![FolderItemV::OpenFailed],
        });
        assert(head + (folder_run_items(events.drop_first()) + tail) =~= (head
            + folder_run_items(events.drop_first())) + tail);
        assert(folder_run_items(events.push(e)) =~= folder_run_items(events) + tail);
    }
}

/// Sort paths ascending, keeping exactly the same multiset of paths.
fn sort_paths(input: Vec<String>) -> (r: Vec<String>)
    ensures
        r@.len() == input@.len(),
        strs_view(r@).to_multiset() == strs_view(input@).to_multiset(),
        forall|i: int, j: int|
            0 <= i < j < r@.len() ==> lex_le(#[trigger] r@[i]@, #[trigger] r@[j]@),
{
    broadcast use vstd::seq_lib::group_to_multiset_ensures;
    broadcast use vstd::multiset::group_multiset_axioms;
    broadcast use vstd::multiset::group_multiset_properties;

    let mut rest = input;
    let mut sorted: Vec<String> = Vec::new();
    let ghost total = strs_view(rest@).to_multiset();
    while rest.len() > 0
        invariant
            strs_view(sorted@).to_multiset().add(strs_view(rest@).to_multiset()) =~= total,
            sorted@.len() + rest@.len() == total.len(),
            forall|i: int, j: int|
                0 <= i < j < sorted@.len() ==> lex_le(
                    #[trigger] sorted@[i]@,
                    #[trigger] sorted@[j]@,
                ),
            forall|i: int, j: int|
                0 <= i < sorted@.len() && 0 <= j < rest@.len() ==> lex_le(
                    #[trigger] sorted@[i]@,
                    #[trigger] rest@[j]@,
                ),
        decreases rest@.len(),
    {
        let mut best: usize = 0;
        let mut m: usize = 1;
        proof {
            lemma_lex_le_refl(rest@[0]@);
        }
        while m < rest.len()
            invariant
                best < m <= rest@.len(),
                rest@.len() > 0,
                forall|j: int| 0 <= j < m ==> lex_le(rest@[best as int]@, #[trigger] rest@[j]@),
            decreases rest@.len() - m,
        {
            if str_lex_le(&rest[m], &rest[best]) {
                proof {
                    assert forall|j: int| 0 <= j < m implies lex_le(
                        rest@[m as int]@,
                        #[trigger] rest@[j]@,
                    ) by {
                        lemma_lex_le_total_helper(
                            rest@[m as int]@,
                            rest@[j]@,
                            rest@[best as int]@,
                        );
                    }
                }
                best = m;
            } else {
                proof {
                    lemma_lex_le_total(rest@[m as int]@, rest@[best as int]@);
                }
            }
            proof {
                lemma_lex_le_refl(rest@[best as int]@);
            }
            m += 1;
        }
        proof {
            lemma_lex_le_refl(rest@[best as int]@);
        }
        let ghost pre_rest = rest@;
        let x = rest.remove(best);
        let ghost pre_sorted = sorted@;
        sorted.push(x);
        proof {
            assert(strs_view(pre_rest).remove(best as int) =~= strs_view(rest@));
            assert(strs_view(pre_rest).to_multiset().remove(x@) =~= strs_view(
                rest@,
            ).to_multiset()) by {
                strs_view(pre_rest).to_multiset_ensures();
                assert(strs_view(pre_rest)[best as int] == x@);
                assert(strs_view(pre_rest).remove(best as int).to_multiset() =~= strs_view(
                    pre_rest,
                ).to_multiset().remove(strs_view(pre_rest)[best as int]));
            }
            assert(strs_view(sorted@) =~= strs_view(pre_sorted).push(x@));
            proof_multiset_push(strs_view(pre_sorted), x@);
            assert(strs_view(sorted@).to_multiset() =~= strs_view(
                pre_sorted,
            ).to_multiset().insert(x@));
            assert(strs_view(pre_rest).to_multiset().count(x@) > 0) by {
                strs_view(pre_rest).to_multiset_ensures();
                assert(strs_view(pre_rest)[best as int] == x@);
                assert(strs_view(pre_rest).contains(x@));
            }
            assert(strs_view(sorted@).to_multiset().add(strs_view(rest@).to_multiset())
                =~= total);
        }
    }
    proof {
        assert(strs_view(rest@).to_multiset() =~= Multiset::<Seq<char>>::empty());
        assert(strs_view(sorted@).to_multiset() =~= total);
        assert(strs_view(sorted@).to_multiset().len() == strs_view(sorted@).len());
    }
    sorted
}

proof fn proof_multiset_push(s: Seq<Seq<char>>, x: Seq<char>)
    ensures
        s.push(x).to_multiset() == s.to_multiset().insert(x),
{
    s.to_multiset_ensures();
    assert(s.push(x).to_multiset() =~= s.to_multiset().insert(x));
}

proof fn lemma_lex_le_refl(a: Seq<char>)
    ensures
        lex_le(a, a),
    decreases a.len(),
{
    if a.len() > 0 {
        lemma_lex_le_refl(a.drop_first());
    }
}

proof fn lemma_lex_le_total_helper(a: Seq<char>, b: Seq<char>, c: Seq<char>)
    requires
        lex_le(a, c),
        lex_le(c, b),
    ensures
        lex_le(a, b),
    decreases a.len() + b.len() + c.len(),
{
    if a.len() == 0 {
    } else if c.len() == 0 {
    } else if b.len() == 0 {
    } else {
        if a[0] == c[0] && c[0] == b[0] {
            lemma_lex_le_total_helper(a.drop_first(), b.drop_first(), c.drop_first());
        }
    }
}

/// How an attempt to open a queued file went.
pub enum FolderOpenOutcome {
    Opened(Vec<u8>),
    Failed(String),
}

/// What a pull of the folder sequencer asks for or yields.
pub enum FolderPull {
    /// No file is open: open this path and report the outcome through
    /// [`SplitFolderFileIter::open_next_file`].
    NeedOpen(String),
    /// The next item of the continuous sequence.
    Item(Result<Document, Error>),
    /// The queue is empty and the last source ended: clean end.
    Done,
}

/// Sequencer over a sorted, pre-enumerated list of files. The queue is
/// kept back-to-front: the next file to open is the last element.
pub struct SplitFolderFileIter {
    pub files: Vec<String>,
    pub nb_files: usize,
    pub files_done: usize,
    pub current_file: Option<DocReader>,
    /// What happened to each dequeued file so far, in order: the bytes
    /// of an opened file, or nothing for one that failed to open.
    pub events: Ghost<Seq<Option<Seq<u8>>>>,
    /// The items yielded so far.
    pub emitted: Ghost<Seq<FolderItemV>>,
}

impl SplitFolderFileIter {
    pub open spec fn wf(&self) -> bool {
        &&& self.files_done + self.files@.len() <= self.nb_files
        &&& match self.current_file {
            Some(dr) => dr.wf(),
            None => true,
        }
    }

    /// The run's accounting: what was yielded so far, followed by what
    /// the open source still holds, is exactly the item sequence of
    /// the files dequeued so far, one error item per failed open
    /// included.
    pub open spec fn trace_ok(&self) -> bool {
        self.emitted@ + (match self.current_file {
            Some(dr) => dr.remaining().map_values(
                |o: Option<DocumentV>|
                    match o {
                        Some(d) => FolderItemV::Doc(d),
                        None => FolderItemV::Malformed,
                    },
            ),
            None => Seq::empty(),
        }) == folder_run_items(self.events@)
    }

    /// Build a sequencer from the immediate entries of a location:
    /// each entry a path and whether it is a plain file. Keeps the
    /// plain files, fails with an empty-input error if there are none,
    /// and queues them in descending path order so that they are
    /// opened in ascending lexicographic order.
    pub fn new(entries: &Vec<(String, bool)>) -> (r: Result<SplitFolderFileIter, Error>)
        ensures
            (match r {
                Ok(it) => {
                    &&& plain_files(entries@).len() > 0
                    &&& it.wf()
                    &&& it.trace_ok()
                    &&& it.events@ == Seq::<Option<Seq<u8>>>::empty()
                    &&& it.emitted@ == Seq::<FolderItemV>::empty()
                    &&& it.current_file is None
                    &&& it.files_done == 0
                    &&& it.nb_files == it.files@.len()
                    &&& it.files@.len() == plain_files(entries@).len()
                    &&& strs_view(it.files@).to_multiset() == plain_files(
                        entries@,
                    ).to_multiset()
                    &&& forall|i: int, j: int|
                        0 <= i < j < it.files@.len() ==> lex_le(
                            #[trigger] it.files@[j]@,
                            #[trigger] it.files@[i]@,
                        )
                },
                Err(e) => plain_files(entries@).len() == 0 && e is EmptyInput,
            }),
    {
        broadcast use vstd::seq_lib::group_to_multiset_ensures;

        let mut kept: Vec<String> = Vec::new();
        let mut k: usize = 0;
        proof {
            assert(entries@.skip(0) =~= entries@);
            assert(strs_view(kept@) + plain_files(entries@) =~= plain_files(entries@));
        }
        while k < entries.len()
            invariant
                k <= entries@.len(),
                strs_view(kept@) + plain_files(entries@.skip(k as int)) =~= plain_files(
                    entries@,
                ),
            decreases entries@.len() - k,
        {
            proof {
                assert(entries@.skip(k as int)[0] == entries@[k as int]);
                assert(entries@.skip(k as int).drop_first() =~= entries@.skip(k as int + 1));
            }
            let ghost pre = kept@;
            if entries[k].1 {
                kept.push(entries[k].0.clone());
                proof {
                    assert(strs_view(kept@) =~= strs_view(pre).push(entries@[k as int].0@));
                    assert(strs_view(kept@) + plain_files(entries@.skip(k as int + 1))
                        =~= plain_files(entries@));
                }
            } else {
                proof {
                    assert(strs_view(kept@) + plain_files(entries@.skip(k as int + 1))
                        =~= plain_files(entries@));
                }
            }
            k += 1;
        }
        proof {
            assert(plain_files(entries@.skip(entries@.len() as int)).len() == 0);
            assert(strs_view(kept@) =~= plain_files(entries@));
        }
        if kept.len() == 0 {
            return Err(Error::EmptyInput("no plain files among the entries".to_owned()));
        }
        let sorted = sort_paths(kept);
        let n = sorted.len();
        let mut files: Vec<String> = Vec::new();
        let mut k2: usize = n;
        while k2 > 0
            invariant
                k2 <= n,
                n == sorted@.len(),
                files@.len() == n - k2,
                forall|t: int|
                    0 <= t < files@.len() ==> #[trigger] files@[t] == sorted@[n - 1 - t],
            decreases k2,
        {
            k2 -= 1;
            files.push(sorted[k2].clone());
        }
        proof {
            assert(strs_view(files@) =~= strs_view(sorted@).reverse());
            strs_view(sorted@).lemma_reverse_to_multiset();
            assert(forall|i: int, j: int|
                0 <= i < j < files@.len() ==> lex_le(
                    #[trigger] files@[j]@,
                    #[trigger] files@[i]@,
                ));
        }
        let it = SplitFolderFileIter {
            files,
            nb_files: n,
            files_done: 0,
            current_file: None,
            events: Ghost(Seq::empty()),
            emitted: Ghost(Seq::empty()),
        };
        proof {
            assert(it.emitted@ + Seq::<FolderItemV>::empty() =~= folder_run_items(it.events@));
        }
        Ok(it)
    }

    /// Files started so far, and total files discovered: the
    /// operator-visible progress of the run.
    pub fn progress(&self) -> (r: (usize, usize))
        ensures
            r.0 == self.files_done,
            r.1 == self.nb_files,
    {
        (self.files_done, self.nb_files)
    }

    /// Feed the outcome of opening the path the last pull asked for.
    /// Returns `None` when no file was queued. On success the file
    /// becomes current and progress advances; on failure the entry is
    /// discarded, one error item is returned to be yielded in the
    /// sequence, and the next pull proceeds with the next queued file.
    pub fn open_next_file(&mut self, outcome: FolderOpenOutcome) -> (r: Option<Result<(), Error>>)
        requires
            old(self).wf(),
            old(self).trace_ok(),
            old(self).current_file is None,
        ensures
            final(self).wf(),
            final(self).trace_ok(),
            final(self).nb_files == old(self).nb_files,
            (match r {
                None => old(self).files@.len() == 0 && *final(self) == *old(self),
                Some(step) => {
                    &&& old(self).files@.len() > 0
                    &&& final(self).files@ == old(self).files@.drop_last()
                    &&& (match step {
                        Ok(()) => {
                            &&& (outcome matches FolderOpenOutcome::Opened(bytes) && (match final(self).current_file {
                                Some(dr) => dr.remaining() == items_of(bytes@),
                                None => false,
                            }))
                            &&& (outcome matches FolderOpenOutcome::Opened(bytes)
                                && final(self).events@ == old(self).events@.push(Some(bytes@)))
                            &&& final(self).emitted@ == old(self).emitted@
                            &&& final(self).files_done == old(self).files_done + 1
                        },
                        Err(e) => {
                            &&& outcome is Failed
                            &&& e is IoFailure
                            &&& final(self).current_file is None
                            &&& final(self).events@ == old(self).events@.push(None)
                            &&& final(self).emitted@ == old(self).emitted@.push(
                                FolderItemV::OpenFailed,
                            )
                            &&& final(self).files_done == old(self).files_done
                        },
                    })
                },
            }),
    {
        if self.files.len() == 0 {
            return None;
        }
        let _discarded = self.files.pop();
        match outcome {
            FolderOpenOutcome::Opened(bytes) => {
                let ghost bv = bytes@;
                self.current_file = Some(DocReader::new(bytes));
                self.files_done = self.files_done + 1;
                proof {
                    self.events@ = self.events@.push(Some(bv));
                    lemma_folder_run_items_snoc(old(self).events@, Some(bv));
                    assert(items_of(bv).map_values(
                        |o: Option<DocumentV>|
                            match o {
                                Some(d) => FolderItemV::Doc(d),
                                None => FolderItemV::Malformed,
                            },
                    ) =~= file_items(bv));
                    assert(self.emitted@ + file_items(bv) =~= folder_run_items(self.events@));
                }
                Some(Ok(()))
            }
            FolderOpenOutcome::Failed(msg) => {
                proof {
                    self.events@ = self.events@.push(None);
                    lemma_folder_run_items_snoc(old(self).events@, None);
                    self.emitted@ = self.emitted@.push(FolderItemV::OpenFailed);
                    assert(old(self).emitted@.push(FolderItemV::OpenFailed)
                        + Seq::<FolderItemV>::empty() =~= old(self).emitted@ + seq![
                        FolderItemV::OpenFailed,
                    ]);
                }
                Some(Err(Error::IoFailure(msg)))
            }
        }
    }

    /// Pull once: the next item of the open source, a request to open
    /// the next queued path, or the clean end when the queue is empty.
    pub fn next(&mut self) -> (r: FolderPull)
        requires
            old(self).wf(),
            old(self).trace_ok(),
        ensures
            final(self).wf(),
            final(self).trace_ok(),
            final(self).events@ == old(self).events@,
            final(self).nb_files == old(self).nb_files,
            final(self).files_done == old(self).files_done,
            final(self).files@ == old(self).files@,
            (match r {
                FolderPull::Done => old(self).files@.len() == 0 && final(self).current_file
                    is None && final(self).emitted@ == folder_run_items(old(self).events@) && (
                old(self).current_file is None || (old(self).current_file matches Some(dr)
                    && dr.remaining().len() == 0)),
                FolderPull::NeedOpen(p) => {
                    &&& old(self).files@.len() > 0
                    &&& p@ == old(self).files@.last()@
                    &&& final(self).current_file is None
                    &&& final(self).emitted@ == folder_run_items(old(self).events@)
                    &&& (old(self).current_file is None || (old(self).current_file matches Some(
                        dr,
                    ) && dr.remaining().len() == 0))
                },
                FolderPull::Item(item) => {
                    &&& (match item {
                        Ok(d) => final(self).emitted@ == old(self).emitted@.push(
                            FolderItemV::Doc(d@),
                        ),
                        Err(_) => final(self).emitted@ == old(self).emitted@.push(
                            FolderItemV::Malformed,
                        ),
                    })
                    &&& match (old(self).current_file, final(self).current_file) {
                        (Some(dr0), Some(dr1)) => dr0.remaining().len() > 0 && dr1.remaining()
                            == dr0.remaining().drop_first() && (match item {
                            Ok(d) => dr0.remaining()[0] == Some(d@),
                            Err(e) => dr0.remaining()[0] is None && e is MalformedRecord,
                        }),
                        _ => false,
                    }
                },
            }),
    {
        let ghost to_item = (|o: Option<DocumentV>|
            match o {
                Some(d) => FolderItemV::Doc(d),
                None => FolderItemV::Malformed,
            });
        let cur = self.current_file.take();
        match cur {
            Some(mut dr) => {
                let ghost rem0 = dr.remaining();
                match dr.next() {
                    Some(item) => {
                        let ghost iv: FolderItemV = (match item {
                            Ok(ref d) => FolderItemV::Doc(d@),
                            Err(_) => FolderItemV::Malformed,
                        });
                        proof {
                            self.emitted@ = self.emitted@.push(iv);
                            assert(rem0.map_values(to_item)[0] == iv);
                            assert(rem0.map_values(to_item).drop_first()
                                =~= rem0.drop_first().map_values(to_item));
                            assert(old(self).emitted@ + rem0.map_values(to_item)
                                =~= (old(self).emitted@.push(iv))
                                + rem0.drop_first().map_values(to_item));
                        }
                        self.current_file = Some(dr);
                        return FolderPull::Item(item);
                    }
                    None => {
                        // the source ended cleanly: fall through and
                        // ask for the next queued file at once
                        proof {
                            assert(rem0.map_values(to_item).len() == 0);
                            assert(old(self).emitted@ + rem0.map_values(to_item)
                                =~= old(self).emitted@);
                        }
                    }
                }
            }
            None => {}
        }
        proof {
            assert(self.emitted@ + Seq::<FolderItemV>::empty() =~= self.emitted@);
        }
        if self.files.len() == 0 {
            return FolderPull::Done;
        }
        let p = self.files[self.files.len() - 1].clone();
        FolderPull::NeedOpen(p)
    }
}

/// At the clean end of a run (the queue is empty and the last source
/// has ended), the items yielded are exactly the item sequence of the
/// dequeued files in their sorted order: every opened file's items,
/// and one error item for every file that failed to open. No file's
/// content is silently dropped.
pub proof fn lemma_folder_run_accounting(it: SplitFolderFileIter)
    requires
        it.trace_ok(),
        it.current_file is None,
    ensures
        it.emitted@ == folder_run_items(it.events@),
{
    assert(it.emitted@ + Seq::<FolderItemV>::empty() =~= it.emitted@);
}

} // verus!
