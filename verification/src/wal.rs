//! Write-ahead log: an append-only, totally ordered record of mutations.
//!
//! Records are appended by `log_insert` and become durable when `flush`
//! returns; a crash keeps exactly the flushed prefix.  Each record names
//! the page and slot its mutation targets.

use vstd::prelude::*;
use crate::value::{Value, ValueModel};

verus! {

/// The operation a WAL record describes.
#[derive(Clone, Copy, Debug, PartialEq, Eq, Structural)]
pub enum WalOp {
    Insert,
}

/// One mutation: the table it hits, the page and slot the row goes to,
/// and the row values.
#[derive(Debug)]
pub struct WalRecord {
    pub table: String,
    pub op: WalOp,
    pub page_no: u64,
    pub slot: u64,
    pub values: Vec<Value>,
}

/// Mathematical model of a [`WalRecord`].
pub struct WalRecordModel {
    pub table: Seq<char>,
    pub op: WalOp,
    pub page_no: u64,
    pub slot: u64,
    pub values: Seq<ValueModel>,
}

impl View for WalRecord {
    type V = WalRecordModel;

    open spec fn view(&self) -> WalRecordModel {
        WalRecordModel {
            table: self.table@,
            op: self.op,
            page_no: self.page_no,
            slot: self.slot,
            values: self.values.deep_view(),
        }
    }
}

impl DeepView for WalRecord {
    type V = WalRecordModel;

    open spec fn deep_view(&self) -> WalRecordModel {
        self.view()
    }
}

/// The log itself: every appended record, and how many of them are durable.
pub struct WriteAheadLog {
    records: Vec<WalRecord>,
    durable: usize,
}

impl WriteAheadLog {
    /// All records ever appended, in append order.
    pub closed spec fn view(&self) -> Seq<WalRecordModel> {
        self.records.deep_view()
    }

    /// How many leading records are durable.
    pub closed spec fn durable_count(&self) -> int {
        self.durable as int
    }

    pub open spec fn wf(&self) -> bool {
        0 <= self.durable_count() <= self.view().len()
    }

    /// The records that survive a crash.
    pub open spec fn durable_records(&self) -> Seq<WalRecordModel> {
        self.view().take(self.durable_count())
    }

    pub fn new() -> (w: Self)
        ensures
            w.wf(),
            w.view() =~= Seq::<WalRecordModel>::empty(),
            w.durable_count() == 0,
    {
        WriteAheadLog { records: Vec::new(), durable: 0 }
    }

    /// Appends one record; it is not yet durable.
    pub fn log_insert(&mut self, rec: WalRecord)
        requires
            old(self).wf(),
        ensures
            final(self).wf(),
            final(self).view() == old(self).view().push(rec@),
            final(self).durable_count() == old(self).durable_count(),
            final(self).durable_records() == old(self).durable_records(),
    {
        let ghost oldv = self.records.deep_view();
        self.records.push(rec);
        proof {
            assert(self.records.deep_view() =~= oldv.push(rec@));
            assert(self.records.deep_view().take(self.durable as int) =~= oldv.take(
                self.durable as int,
            ));
        }
    }

    /// Forces every buffered record to stable storage; afterwards the whole
    /// log is durable.
    pub fn flush(&mut self)
        requires
            old(self).wf(),
        ensures
            final(self).wf(),
            final(self).view() == old(self).view(),
            final(self).durable_records() == final(self).view(),
    {
        self.durable = self.records.len();
        proof {
            assert(self.records.deep_view().take(self.records@.len() as int)
                =~= self.records.deep_view());
        }
    }

    /// How many records the log holds.
    pub fn len(&self) -> (n: usize)
        ensures
            n == self.view().len(),
    {
        self.records.len()
    }

    /// Read access for replay: the record at index `i`.
    pub fn record_at(&self, i: usize) -> (r: &WalRecord)
        requires
            i < self.view().len(),
        ensures
            r@ == self.view()[i as int],
    {
        &self.records[i]
    }

    /// How many leading records are durable.
    pub fn durable_len(&self) -> (n: usize)
        requires
            self.wf(),
        ensures
            n == self.durable_count(),
    {
        self.durable
    }

    /// Models a crash: only the durable prefix survives.
    pub fn crashed_copy(&self) -> (w: Self)
        requires
            self.wf(),
        ensures
            w.wf(),
            w.view() == self.durable_records(),
            w.durable_records() == w.view(),
    {
        let mut recs: Vec<WalRecord> = Vec::new();
        let n = self.durable;
        let mut i: usize = 0;
        while i < n
            invariant
                i <= n,
                n <= self.records@.len(),
                n == self.durable_count(),
                recs@.len() == i,
                recs.deep_view() == self.view().take(i as int),
            decreases n - i,
        {
            let r = &self.records[i];
            let nr = WalRecord {
                table: r.table.clone(),
                op: r.op,
                page_no: r.page_no,
                slot: r.slot,
                values: clone_values(&r.values),
            };
            let ghost prevv = recs@;
            let ghost prevd = recs.deep_view();
            recs.push(nr);
            proof {
                assert(prevv.len() == i);
                assert(prevd.len() == i);
                assert(recs@[i as int]@ == self.view()[i as int]);
                assert forall|j: int| 0 <= j < i + 1 implies recs.deep_view()[j] == self.view()
                    .take(i + 1)[j] by {
                    if j < i {
                        assert(recs@[j] == prevv[j]);
                        assert(prevd[j] == prevv[j].deep_view());
                        assert(prevd[j] == self.view()[j]);
                    }
                }
                assert(recs.deep_view() =~= self.view().take(i + 1));
            }
            i += 1;
        }
        let w = WriteAheadLog { records: recs, durable: n };
        proof {
            assert(w.view().take(n as int) =~= w.view());
        }
        w
    }
}

/// Copies a row, preserving its model.
pub fn clone_values(vs: &Vec<Value>) -> (r: Vec<Value>)
    ensures
        r.deep_view() == vs.deep_view(),
{
    let mut out: Vec<Value> = Vec::new();
    let mut i: usize = 0;
    while i < vs.len()
        invariant
            i <= vs@.len(),
            out@.len() == i,
            out.deep_view() == vs.deep_view().take(i as int),
        decreases vs@.len() - i,
    {
        let ghost prevv = out@;
        let ghost prevd = out.deep_view();
        let c = vs[i].clone();
        out.push(c);
        proof {
            assert(prevv.len() == i);
            assert(prevd.len() == i);
            assert(out@ == prevv.push(vs@[i as int]));
            assert forall|j: int| 0 <= j < i + 1 implies out.deep_view()[j] == vs.deep_view().take(
                i + 1,
            )[j] by {
                if j < i {
                    assert(out@[j] == prevv[j]);
                    assert(prevd[j] == prevv[j].deep_view());
                    assert(prevd[j] == vs.deep_view()[j]);
                } else {
                    assert(out@[j] == vs@[i as int]);
                    assert(vs.deep_view()[j] == vs@[j].deep_view());
                }
            }
            assert(out.deep_view() =~= vs.deep_view().take(i + 1));
        }
        i += 1;
    }
    proof {
        assert(vs.deep_view().take(vs@.len() as int) =~= vs.deep_view());
    }
    out
}

} // verus!
