//! Sequencing a contiguous, numbered family of shard files.
//!
//! [`SplitFileIter`] presents the documents of files named
//! `{prefix}{index}{suffix}{extension}`, index incrementing by one
//! from a starting value, as one continuous sequence. The machine is
//! iterative and pull-based, and does no I/O itself: when it needs the
//! next file it says so, and the caller answers with that file's bytes
//! or with the reason it could not be opened. The rules of shard
//! rotation are part of the contracts: a missing shard after at least
//! one success ends the run cleanly, a missing first shard is a fatal
//! error and never a silent empty sequence, and any other open failure
//! is fatal.

use vstd::prelude::*;

use crate::doc::{Document, DocumentV};
use crate::error::Error;
use crate::reader::{items_of, DocReader};
use vstd::string::StringExecFns;

verus! {

pub open spec fn digit_char(d: int) -> char {
    if d == 0 {
        '0'
    } else if d == 1 {
        '1'
    } else if d == 2 {
        '2'
    } else if d == 3 {
        '3'
    } else if d == 4 {
        '4'
    } else if d == 5 {
        '5'
    } else if d == 6 {
        '6'
    } else if d == 7 {
        '7'
    } else if d == 8 {
        '8'
    } else {
        '9'
    }
}

/// The decimal writing of a number, most significant digit first.
pub open spec fn dec_digits(n: int) -> Seq<char>
    decreases n,
{
    if n < 10 {
        seq![digit_char(n)]
    } else {
        dec_digits(n / 10) + seq![digit_char(n % 10)]
    }
}

fn e_digit_char(d: u64) -> (r: char)
    requires
        d < 10,
    ensures
        r == digit_char(d as int),
{
    if d == 0 {
        '0'
    } else if d == 1 {
        '1'
    } else if d == 2 {
        '2'
    } else if d == 3 {
        '3'
    } else if d == 4 {
        '4'
    } else if d == 5 {
        '5'
    } else if d == 6 {
        '6'
    } else if d == 7 {
        '7'
    } else if d == 8 {
        '8'
    } else {
        '9'
    }
}

/// Write a number in decimal.
pub fn u64_to_decimal(n: u64) -> (r: String)
    ensures
        r@ == dec_digits(n as int),
{
    let mut acc: Vec<char> = Vec::new();
    let mut cur: u64 = n;
    acc.push(e_digit_char(cur % 10));
    cur = cur / 10;
    while cur > 0
        invariant
            dec_digits(n as int) == dec_digits(cur as int) + acc@.reverse() || (cur == 0
                && dec_digits(n as int) == acc@.reverse()),
            cur > 0 ==> dec_digits(n as int) == dec_digits(cur as int) + acc@.reverse(),
            cur == 0 ==> dec_digits(n as int) == acc@.reverse(),
            acc@.len() >= 1,
        decreases cur,
    {
        let d = cur % 10;
        let ghost pre = acc@;
        acc.push(e_digit_char(d));
        let next = cur / 10;
        proof {
            assert(pre.push(digit_char(d as int)).reverse() =~= seq![digit_char(d as int)]
                + pre.reverse());
            if next > 0 {
                assert(cur >= 10);
                assert(dec_digits(cur as int) == dec_digits(next as int) + seq![
                    digit_char(cur as int % 10),
                ]);
                assert(dec_digits(next as int) + (seq![digit_char(d as int)] + pre.reverse())
                    =~= (dec_digits(next as int) + seq![digit_char(d as int)]) + pre.reverse());
            } else {
                assert(cur < 10);
                assert(dec_digits(cur as int) == seq![digit_char(cur as int)]);
                assert(seq![digit_char(d as int)] + pre.reverse() =~= dec_digits(cur as int)
                    + pre.reverse());
            }
        }
        cur = next;
    }
    let mut out: Vec<char> = Vec::new();
    let mut k: usize = acc.len();
    while k > 0
        invariant
            k <= acc@.len(),
            out@ =~= acc@.reverse().take((acc@.len() - k) as int),
        decreases k,
    {
        k -= 1;
        out.push(acc[k]);
        proof {
            assert(acc@.reverse()[acc@.len() - k - 1] == acc@[k as int]);
            assert(out@ =~= acc@.reverse().take((acc@.len() - k) as int));
        }
    }
    proof {
        assert(out@ =~= acc@.reverse());
    }
    crate::json::chars_to_string(&out)
}

/// The one continuous item sequence that a run over the given shard
/// byte streams presents: each shard's items, in shard order.
pub open spec fn concat_items(shards: Seq<Seq<u8>>) -> Seq<Option<DocumentV>>
    decreases shards.len(),
{
    if shards.len() == 0 {
        Seq::empty()
    } else {
        items_of(shards[0]) + concat_items(shards.drop_first())
    }
}

pub proof fn lemma_concat_items_snoc(shards: Seq<Seq<u8>>, b: Seq<u8>)
    ensures
        concat_items(shards.push(b)) == concat_items(shards) + items_of(b),
    decreases shards.len(),
{
    if shards.len() == 0 {
        assert(shards.push(b)[0] == b);
        assert(shards.push(b).drop_first() =~= Seq::<Seq<u8>>::empty());
        assert(concat_items(Seq::<Seq<u8>>::empty()) == Seq::<Option<DocumentV>>::empty());
        assert(items_of(b) + Seq::<Option<DocumentV>>::empty() =~= items_of(b));
        assert(Seq::<Option<DocumentV>>::empty() + items_of(b) =~= items_of(b));
        assert(concat_items(shards.push(b)) =~= concat_items(shards) + items_of(b));
    } else {
        assert(shards.push(b)[0] == shards[0]);
        assert(shards.push(b).drop_first() =~= shards.drop_first().push(b));
        lemma_concat_items_snoc(shards.drop_first(), b);
        assert(items_of(shards[0]) + (concat_items(shards.drop_first()) + items_of(b)) =~= (
        items_of(shards[0]) + concat_items(shards.drop_first())) + items_of(b));
        assert(concat_items(shards.push(b)) =~= concat_items(shards) + items_of(b));
    }
}

/// How an attempt to open a shard file went. The caller performs the
/// open and reports the outcome here.
pub enum OpenOutcome {
    /// The file exists and these are its bytes.
    Opened(Vec<u8>),
    /// The file does not exist.
    NotFound,
    /// The file exists but could not be read, or another failure.
    OtherError(String),
}

/// What a pull of the sequencer asks for or yields.
pub enum ShardPull {
    /// No file is open: open the shard with this index and report the
    /// outcome through [`SplitFileIter::rotate_file`].
    NeedOpen(u64),
    /// The next item of the continuous sequence.
    Item(Result<Document, Error>),
    /// The sequence has ended (cleanly or after a fatal error).
    Done,
}

/// Iterative sequencer over numbered shard files. Exactly one
/// underlying stream is open at a time; the cursor `counter` only
/// advances.
pub struct SplitFileIter {
    pub base_path: String,
    pub file_name_start: String,
    pub file_name_end: String,
    pub file_name_extension: String,
    pub counter_start: u64,
    pub counter: u64,
    pub current_file: Option<DocReader>,
    pub done: bool,
    /// The byte streams of the shards opened so far, in order.
    pub opened: Ghost<Seq<Seq<u8>>>,
    /// The items yielded so far.
    pub emitted: Ghost<Seq<Option<DocumentV>>>,
}

impl SplitFileIter {
    pub open spec fn wf(&self) -> bool {
        &&& self.counter >= self.counter_start
        &&& match self.current_file {
            Some(dr) => dr.wf(),
            None => true,
        }
    }

    /// The run's accounting: what was yielded so far, followed by what
    /// the open source still holds, is exactly the item sequence of
    /// the shards opened so far.
    pub open spec fn trace_ok(&self) -> bool {
        self.emitted@ + (match self.current_file {
            Some(dr) => dr.remaining(),
            None => Seq::empty(),
        }) == concat_items(self.opened@)
    }

    pub fn new(
        base_path: String,
        file_name_start: &str,
        file_name_end: &str,
        file_name_extension: &str,
        counter_start: u64,
    ) -> (r: SplitFileIter)
        ensures
            r.wf(),
            r.base_path@ == base_path@,
            r.file_name_start@ == file_name_start@,
            r.file_name_end@ == file_name_end@,
            r.file_name_extension@ == file_name_extension@,
            r.counter_start == counter_start,
            r.counter == counter_start,
            r.current_file is None,
            !r.done,
            r.trace_ok(),
            r.opened@ == Seq::<Seq<u8>>::empty(),
            r.emitted@ == Seq::<Option<DocumentV>>::empty(),
    {
        let r = SplitFileIter {
            base_path,
            file_name_start: file_name_start.to_owned(),
            file_name_end: file_name_end.to_owned(),
            file_name_extension: file_name_extension.to_owned(),
            counter_start,
            counter: counter_start,
            current_file: None,
            done: false,
            opened: Ghost(Seq::empty()),
            emitted: Ghost(Seq::empty()),
        };
        proof {
            assert(r.emitted@ + Seq::<Option<DocumentV>>::empty() =~= concat_items(r.opened@));
        }
        r
    }

    /// The file name of the shard at the current index:
    /// `{prefix}{index}{suffix}{extension}`.
    pub fn shard_filename(&self) -> (r: String)
        ensures
            r@ == self.file_name_start@ + dec_digits(self.counter as int) + self.file_name_end@
                + self.file_name_extension@,
    {
        let mut r = self.file_name_start.clone();
        let num = u64_to_decimal(self.counter);
        r.append(num.as_str());
        r.append(self.file_name_end.as_str());
        r.append(self.file_name_extension.as_str());
        r
    }

    /// Feed the outcome of opening the shard at the current index.
    ///
    /// Opened: the source becomes current and the cursor advances.
    /// NotFound after at least one successful open: clean exhaustion,
    /// the sequence is over and that is no error. NotFound on the very
    /// first index: a fatal error, never a silent empty sequence. Any
    /// other failure: fatal.
    pub fn rotate_file(&mut self, outcome: OpenOutcome) -> (r: Result<(), Error>)
        requires
            old(self).wf(),
            old(self).trace_ok(),
            old(self).current_file is None,
            !old(self).done,
        ensures
            final(self).wf(),
            final(self).trace_ok(),
            final(self).emitted@ == old(self).emitted@,
            final(self).counter_start == old(self).counter_start,
            final(self).base_path == old(self).base_path,
            final(self).file_name_start == old(self).file_name_start,
            final(self).file_name_end == old(self).file_name_end,
            final(self).file_name_extension == old(self).file_name_extension,
            (match outcome {
                OpenOutcome::Opened(bytes) => {
                    if old(self).counter < u64::MAX {
                        &&& r is Ok
                        &&& final(self).current_file matches Some(dr) && dr.remaining()
                            == items_of(bytes@)
                        &&& final(self).counter == old(self).counter + 1
                        &&& !final(self).done
                        &&& final(self).opened@ == old(self).opened@.push(bytes@)
                    } else {
                        &&& r matches Err(e) && e is IoFailure
                        &&& final(self).done
                        &&& final(self).counter == old(self).counter
                        &&& final(self).current_file is None
                    }
                },
                OpenOutcome::NotFound => {
                    &&& final(self).done
                    &&& final(self).counter == old(self).counter
                    &&& final(self).current_file is None
                    &&& (if old(self).counter > old(self).counter_start {
                        r is Ok
                    } else {
                        r matches Err(e) && e is ShardNotFound
                    })
                },
                OpenOutcome::OtherError(_) => {
                    &&& r matches Err(e) && e is IoFailure
                    &&& final(self).done
                    &&& final(self).counter == old(self).counter
                    &&& final(self).current_file is None
                },
            }),
    {
        match outcome {
            OpenOutcome::Opened(bytes) => {
                if self.counter == u64::MAX {
                    self.done = true;
                    return Err(Error::IoFailure("shard index overflow".to_owned()));
                }
                let ghost bv = bytes@;
                self.current_file = Some(DocReader::new(bytes));
                self.counter = self.counter + 1;
                proof {
                    self.opened@ = self.opened@.push(bv);
                    lemma_concat_items_snoc(old(self).opened@, bv);
                    assert(self.emitted@ + items_of(bv) =~= concat_items(self.opened@));
                }
                Ok(())
            }
            OpenOutcome::NotFound => {
                self.done = true;
                if self.counter > self.counter_start {
                    Ok(())
                } else {
                    Err(
                        Error::ShardNotFound(
                            "the first expected shard does not exist".to_owned(),
                        ),
                    )
                }
            }
            OpenOutcome::OtherError(msg) => {
                self.done = true;
                Err(Error::IoFailure(msg))
            }
        }
    }

    /// Pull once. Yields the next item of the open source, asks for
    /// the next shard the moment the open source ends (no gap is
    /// observable), or reports the end of the whole sequence.
    /// Per-record errors propagate without closing the source.
    pub fn next(&mut self) -> (r: ShardPull)
        requires
            old(self).wf(),
            old(self).trace_ok(),
        ensures
            final(self).wf(),
            final(self).trace_ok(),
            final(self).opened@ == old(self).opened@,
            final(self).counter_start == old(self).counter_start,
            final(self).counter == old(self).counter,
            final(self).done == old(self).done,
            final(self).base_path == old(self).base_path,
            final(self).file_name_start == old(self).file_name_start,
            final(self).file_name_end == old(self).file_name_end,
            final(self).file_name_extension == old(self).file_name_extension,
            (match r {
                ShardPull::Done => old(self).done && final(self).current_file
                    == old(self).current_file && final(self).emitted@ == old(self).emitted@,
                ShardPull::NeedOpen(n) => {
                    &&& !old(self).done
                    &&& n == old(self).counter
                    &&& final(self).current_file is None
                    &&& final(self).emitted@ == old(self).emitted@
                    &&& (old(self).current_file is None || (old(self).current_file matches Some(
                        dr,
                    ) && dr.remaining().len() == 0))
                },
                ShardPull::Item(item) => {
                    &&& !old(self).done
                    &&& (match item {
                        Ok(d) => final(self).emitted@ == old(self).emitted@.push(Some(d@)),
                        Err(_) => final(self).emitted@ == old(self).emitted@.push(None),
                    })
                    &&& match (old(self).current_file, final(self).current_file) {
                        (Some(dr0), Some(dr1)) => dr0.remaining().len() > 0 && dr1.remaining()
                            == dr0.remaining().drop_first() && (match item {
                            Ok(d) => dr0.remaining()[0] == Some(d@),
                            Err(e) => dr0.remaining()[0] is None && e is MalformedRecord,
                        }),
                        _ => false,
                    }
                },
            }),
    {
        if self.done {
            return ShardPull::Done;
        }
        let cur = self.current_file.take();
        match cur {
            None => ShardPull::NeedOpen(self.counter),
            Some(mut dr) => {
                let ghost rem0 = dr.remaining();
                match dr.next() {
                    Some(item) => {
                        let ghost iv: Option<DocumentV> = (match item {
                            Ok(ref d) => Some(d@),
                            Err(_) => None,
                        });
                        proof {
                            self.emitted@ = self.emitted@.push(iv);
                            assert(rem0[0] == iv);
                            assert(old(self).emitted@ + rem0 =~= (old(self).emitted@.push(iv))
                                + rem0.drop_first());
                        }
                        self.current_file = Some(dr);
                        ShardPull::Item(item)
                    }
                    None => {
                        // the open source ended cleanly: ask for the
                        // next index at once, no gap observed
                        proof {
                            assert(old(self).emitted@ + rem0 =~= old(self).emitted@);
                        }
                        ShardPull::NeedOpen(self.counter)
                    }
                }
            }
        }
    }
}

/// Whenever no source is open (in particular at the clean end of a
/// run over shards `start..start+k` with shard `start+k` absent), the
/// items yielded so far are exactly the concatenation of each opened
/// shard's items, in shard order: no document is dropped, duplicated
/// or reordered across file boundaries.
pub proof fn lemma_shard_run_concatenation(it: SplitFileIter)
    requires
        it.trace_ok(),
        it.current_file is None,
    ensures
        it.emitted@ == concat_items(it.opened@),
{
    assert(it.emitted@ + Seq::<Option<DocumentV>>::empty() =~= it.emitted@);
}

} // verus!
