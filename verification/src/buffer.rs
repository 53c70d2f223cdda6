//! Buffer pool: a bounded in-memory cache of pages over one backing file.
//!
//! Every read and write of the backing file goes through the pool.  At most
//! `capacity` pages are resident at a time; `get` pins a page until
//! `release`, and a pinned page is never evicted.  Eviction takes the
//! least-recently-used resident page that is neither pinned nor dirty, so a
//! dirty page reaches the file only through an explicit flush.
//!
//! The pool's `logical` view is the file as callers observe it (cached
//! pages shadow the file); its `durable` view is the backing file itself,
//! which is what survives a crash.

use vstd::prelude::*;
use vstd::pervasive::VecAdditionalExecFns;
use crate::codec::{PAGE_SIZE, zero_seq};
use crate::error::GSQLError;
use crate::page::{Page, zero_page};

verus! {

/// A resident page: the page itself plus its pin state and recency stamp.
pub struct CacheEntry {
    pub page: Page,
    pub pinned: bool,
    pub stamp: u64,
}

/// How many entries of the cache are occupied.
pub open spec fn count_resident(s: Seq<Option<CacheEntry>>) -> int
    decreases s.len(),
{
    if s.len() == 0 {
        0
    } else {
        count_resident(s.drop_last()) + if s.last() is Some {
            1int
        } else {
            0int
        }
    }
}

proof fn lemma_count_push(s: Seq<Option<CacheEntry>>, v: Option<CacheEntry>)
    ensures
        count_resident(s.push(v)) == count_resident(s) + if v is Some {
            1int
        } else {
            0int
        },
{
    assert(s.push(v).drop_last() =~= s);
}

proof fn lemma_count_update(s: Seq<Option<CacheEntry>>, j: int, v: Option<CacheEntry>)
    requires
        0 <= j < s.len(),
    ensures
        count_resident(s.update(j, v)) == count_resident(s) + (if v is Some {
            1int
        } else {
            0int
        }) - (if s[j] is Some {
            1int
        } else {
            0int
        }),
    decreases s.len(),
{
    let t = s.update(j, v);
    if j == s.len() - 1 {
        assert(t.drop_last() =~= s.drop_last());
    } else {
        assert(t.drop_last() =~= s.drop_last().update(j, v));
        lemma_count_update(s.drop_last(), j, v);
    }
}

proof fn lemma_count_bounds(s: Seq<Option<CacheEntry>>)
    ensures
        0 <= count_resident(s) <= s.len(),
    decreases s.len(),
{
    if s.len() > 0 {
        lemma_count_bounds(s.drop_last());
    }
}

proof fn lemma_count_pos_exists(s: Seq<Option<CacheEntry>>)
    requires
        count_resident(s) > 0,
    ensures
        exists|j: int| 0 <= j < s.len() && s[j] is Some,
    decreases s.len(),
{
    if s.last() is Some {
        assert(s[s.len() - 1] is Some);
    } else {
        lemma_count_pos_exists(s.drop_last());
        let j = choose|j: int| 0 <= j < s.drop_last().len() && s.drop_last()[j] is Some;
        assert(s[j] is Some);
    }
}

/// The page cache plus the backing file it mediates.
pub struct BufferPool {
    capacity: usize,
    tick: u64,
    resident: usize,
    slots: Vec<Option<CacheEntry>>,
    disk: Vec<Vec<u8>>,
}

impl BufferPool {
    /// The backing file: what survives a crash.
    pub closed spec fn durable(&self) -> Seq<Seq<u8>> {
        self.disk.deep_view()
    }

    /// The file as callers observe it: resident pages shadow the file.
    pub closed spec fn logical(&self) -> Seq<Seq<u8>> {
        Seq::new(
            self.slots@.len(),
            |p: int|
                match self.slots@[p] {
                    Some(e) => e.page.data@,
                    None => self.disk@[p]@,
                },
        )
    }

    pub closed spec fn resident(&self, p: int) -> bool {
        0 <= p < self.slots@.len() && self.slots@[p] is Some
    }

    pub closed spec fn is_pinned(&self, p: int) -> bool {
        self.resident(p) && self.slots@[p]->0.pinned
    }

    pub closed spec fn is_dirty(&self, p: int) -> bool {
        self.resident(p) && self.slots@[p]->0.page.dirty
    }

    pub closed spec fn cap(&self) -> int {
        self.capacity as int
    }

    pub open spec fn no_pins(&self) -> bool {
        forall|p: int| !self.is_pinned(p)
    }

    pub open spec fn all_clean(&self) -> bool {
        forall|p: int| !self.is_dirty(p)
    }

    /// Whether `get` on page `p` is owed success: the page is resident, or
    /// there is room, or some resident page can be evicted.
    pub open spec fn can_admit(&self, p: int) -> bool {
        ||| self.resident(p)
        ||| self.resident_count() < self.cap()
        ||| exists|q: int| self.resident(q) && !self.is_pinned(q) && !self.is_dirty(q)
    }

    pub closed spec fn resident_count(&self) -> int {
        count_resident(self.slots@)
    }

    pub closed spec fn wf(&self) -> bool {
        &&& self.capacity >= 1
        &&& self.slots@.len() == self.disk@.len()
        &&& self.resident as int == count_resident(self.slots@)
        &&& count_resident(self.slots@) <= self.capacity
        &&& forall|p: int|
            0 <= p < self.disk@.len() ==> (#[trigger] self.disk@[p])@.len() == PAGE_SIZE
        &&& forall|p: int|
            0 <= p < self.slots@.len() ==> (#[trigger] self.slots@[p] matches Some(e) ==> {
                &&& e.page.data@.len() == PAGE_SIZE
                &&& e.page.id == p as u64
                &&& (!e.page.dirty ==> e.page.data@ == self.disk@[p]@)
            })
    }

    /// A pinned page is resident.
    pub proof fn lemma_pinned_resident(&self, p: int)
        requires
            self.is_pinned(p),
        ensures
            self.resident(p),
    {
    }

    /// With no page pinned and no page dirty, every existing page can be
    /// admitted: there is room, or some resident page is evictable.
    pub proof fn lemma_can_admit(&self, p: int)
        requires
            self.wf(),
            self.no_pins(),
            self.all_clean(),
        ensures
            self.can_admit(p),
    {
        if self.resident_count() >= self.cap() {
            lemma_count_pos_exists(self.slots@);
            let j = choose|j: int| 0 <= j < self.slots@.len() && self.slots@[j] is Some;
            assert(self.resident(j) && !self.is_pinned(j) && !self.is_dirty(j));
        }
    }

    /// The resident page count never exceeds the configured capacity.
    pub proof fn lemma_capacity_bound(&self)
        requires
            self.wf(),
        ensures
            0 <= self.resident_count() <= self.cap(),
    {
        lemma_count_bounds(self.slots@);
    }

    pub fn new(capacity: usize) -> (b: Self)
        requires
            capacity >= 1,
        ensures
            b.wf(),
            b.logical() =~= Seq::<Seq<u8>>::empty(),
            b.durable() =~= Seq::<Seq<u8>>::empty(),
            b.no_pins(),
            b.all_clean(),
            b.cap() == capacity,
    {
        BufferPool {
            capacity,
            tick: 0,
            resident: 0,
            slots: Vec::new(),
            disk: Vec::new(),
        }
    }

    /// Models a crash: the backing file survives, every cached page (and so
    /// every unflushed page write) is lost.
    pub fn crashed_copy(&self) -> (b: BufferPool)
        requires
            self.wf(),
        ensures
            b.wf(),
            b.logical() == self.durable(),
            b.durable() == self.durable(),
            b.no_pins(),
            b.all_clean(),
            b.cap() == self.cap(),
    {
        let n = self.disk.len();
        let mut disk2: Vec<Vec<u8>> = Vec::new();
        let mut slots2: Vec<Option<CacheEntry>> = Vec::new();
        let mut i: usize = 0;
        while i < n
            invariant
                i <= n,
                n == self.disk@.len(),
                self.wf(),
                disk2@.len() == i,
                slots2@.len() == i,
                forall|p: int| 0 <= p < i ==> (#[trigger] disk2@[p])@ == self.disk@[p]@,
                forall|p: int| 0 <= p < i ==> (#[trigger] slots2@[p]) is None,
                count_resident(slots2@) == 0,
            decreases n - i,
        {
            let ghost prevs = slots2@;
            disk2.push(vstd::slice::slice_to_vec(self.disk[i].as_slice()));
            slots2.push(None);
            proof {
                lemma_count_push(prevs, None);
            }
            i += 1;
        }
        let b = BufferPool {
            capacity: self.capacity,
            tick: 0,
            resident: 0,
            slots: slots2,
            disk: disk2,
        };
        proof {
            assert forall|p: int| 0 <= p < b.logical().len() implies b.logical()[p]
                == self.durable()[p] by {
                assert(b.slots@[p] is None);
                assert(b.disk@[p]@ == self.disk@[p]@);
            }
            assert(b.logical() =~= self.durable());
            assert forall|p: int| 0 <= p < b.durable().len() implies b.durable()[p]
                == self.durable()[p] by {
                assert(b.disk@[p]@ == self.disk@[p]@);
            }
            assert(b.durable() =~= self.durable());
        }
        b
    }

    /// How many pages are resident in the cache.
    pub fn resident_pages(&self) -> (n: usize)
        requires
            self.wf(),
        ensures
            n as int == self.resident_count(),
            n <= self.cap(),
    {
        self.resident
    }

    /// Whether a page is currently resident.
    pub fn is_resident(&self, pno: u64) -> (b: bool)
        requires
            self.wf(),
        ensures
            b == self.resident(pno as int),
    {
        pno < self.slots.len() as u64 && self.slots[pno as usize].is_some()
    }

    /// Number of pages in the file.
    pub fn num_pages(&self) -> (n: usize)
        requires
            self.wf(),
        ensures
            n == self.logical().len(),
    {
        self.disk.len()
    }

    /// Extends the backing file by one zero page and returns its id; the
    /// file's length stays an exact multiple of the page size.
    pub fn allocate_page(&mut self) -> (r: u64)
        requires
            old(self).wf(),
        ensures
            final(self).wf(),
            r as int == old(self).logical().len(),
            final(self).logical() =~= old(self).logical().push(zero_seq(PAGE_SIZE as nat)),
            final(self).durable() =~= old(self).durable().push(zero_seq(PAGE_SIZE as nat)),
            final(self).cap() == old(self).cap(),
            forall|p: int| final(self).is_pinned(p) == old(self).is_pinned(p),
            forall|p: int| final(self).is_dirty(p) == old(self).is_dirty(p),
            forall|p: int| final(self).resident(p) == old(self).resident(p),
            final(self).resident_count() == old(self).resident_count(),
    {
        let id = self.disk.len() as u64;
        self.disk.push(zero_page());
        self.slots.push(None);
        proof {
            lemma_count_push(old(self).slots@, None);
            let oldn = old(self).disk@.len() as int;
            assert(self.disk@.len() == oldn + 1);
            assert forall|p: int| 0 <= p < self.disk@.len() implies self.disk.deep_view()[p]
                == old(self).disk.deep_view().push(zero_seq(PAGE_SIZE as nat))[p] by {
                if p < oldn {
                    assert(self.disk@[p] == old(self).disk@[p]);
                    assert(old(self).disk.deep_view()[p] == old(self).disk@[p]@);
                } else {
                    assert(self.disk@[p]@ == zero_seq(PAGE_SIZE as nat));
                }
            }
            assert(self.disk.deep_view() =~= old(self).disk.deep_view().push(
                zero_seq(PAGE_SIZE as nat),
            ));
        }
        id
    }

    /// Returns the page's current bytes and pins it until `release`.
    ///
    /// Succeeds exactly when the page exists and is resident, or can be
    /// admitted (room left, or an unpinned clean page to evict).  A pinned
    /// page is never evicted.
    #[verifier::rlimit(50)]
    #[verifier::spinoff_prover]
    pub fn get(&mut self, pno: u64) -> (r: Result<Vec<u8>, GSQLError>)
        requires
            old(self).wf(),
        ensures
            final(self).wf(),
            final(self).logical() == old(self).logical(),
            final(self).durable() == old(self).durable(),
            final(self).cap() == old(self).cap(),
            forall|p: int| old(self).is_pinned(p) ==> final(self).is_pinned(p),
            forall|p: int| final(self).is_dirty(p) == old(self).is_dirty(p),
            match r {
                Ok(d) => {
                    &&& (pno as int) < old(self).logical().len()
                    &&& d@ == old(self).logical()[pno as int]
                    &&& final(self).is_pinned(pno as int)
                    &&& forall|p: int| p != pno as int ==> final(self).is_pinned(p)
                        == old(self).is_pinned(p)
                },
                Err(e) => {
                    &&& forall|p: int| final(self).is_pinned(p) == old(self).is_pinned(p)
                    &&& final(self).resident_count() == old(self).resident_count()
                    &&& !((pno as int) < old(self).logical().len() && old(self).can_admit(
                        pno as int,
                    ))
                    &&& (e is IoError <==> (pno as int) >= old(self).logical().len())
                },
            },
    {
        proof {
            lemma_count_bounds(self.slots@);
        }
        if pno >= self.slots.len() as u64 {
            return Err(GSQLError::IoError("page beyond allocated extent".to_owned()));
        }
        let pn = pno as usize;
        let mut tmp: Option<CacheEntry> = None;
        self.slots.set_and_swap(pn, &mut tmp);
        match tmp {
            Some(mut e) => {
                if self.tick < u64::MAX {
                    self.tick = self.tick + 1;
                }
                e.pinned = true;
                e.stamp = self.tick;
                let d = vstd::slice::slice_to_vec(e.page.data.as_slice());
                self.slots.set(pn, Some(e));
                proof {
                    lemma_count_update(old(self).slots@, pn as int, None);
                    lemma_count_update(
                        old(self).slots@.update(pn as int, None),
                        pn as int,
                        self.slots@[pn as int],
                    );
                    assert(self.logical() =~= old(self).logical());
                    assert(self.disk.deep_view() =~= old(self).disk.deep_view());
                }
                Ok(d)
            },
            None => {
                // not resident: make room if needed, then read from the file
                self.slots.set(pn, None);
                assert(self.slots@ =~= old(self).slots@);
                if self.resident >= self.capacity {
                    let mut q: usize = 0;
                    let mut found = false;
                    let mut best: usize = 0;
                    let mut best_stamp: u64 = 0;
                    while q < self.slots.len()
                        invariant
                            self.slots@ == old(self).slots@,
                            self.disk@ == old(self).disk@,
                            self.resident == old(self).resident,
                            self.capacity == old(self).capacity,
                            self.tick == old(self).tick,
                            q <= self.slots@.len(),
                            found ==> best < self.slots@.len() && old(self).resident(best as int)
                                && !old(self).is_pinned(best as int) && !old(self).is_dirty(
                                best as int,
                            ),
                            !found ==> forall|x: int| 0 <= x < q ==> !(old(self).resident(x)
                                && !old(self).is_pinned(x) && !old(self).is_dirty(x)),
                        decreases self.slots@.len() - q,
                    {
                        match &self.slots[q] {
                            Some(e) => {
                                if !e.pinned && !e.page.dirty && (!found || e.stamp < best_stamp) {
                                    found = true;
                                    best = q;
                                    best_stamp = e.stamp;
                                }
                            },
                            None => {},
                        }
                        q += 1;
                    }
                    if !found {
                        proof {
                            assert(!old(self).can_admit(pno as int));
                            assert(self.logical() == old(self).logical());
                            assert(self.durable() == old(self).durable());
                        }
                        return Err(GSQLError::Other("every resident page is pinned or dirty".to_owned()));
                    }
                    // evict: the page is clean, so the file already has it
                    self.slots.set(best, None);
                    self.resident = self.resident - 1;
                    proof {
                        lemma_count_update(old(self).slots@, best as int, None);
                        assert(self.logical() =~= old(self).logical());
                    }
                }
                if self.tick < u64::MAX {
                    self.tick = self.tick + 1;
                }
                let d = vstd::slice::slice_to_vec(self.disk[pn].as_slice());
                let d2 = vstd::slice::slice_to_vec(self.disk[pn].as_slice());
                let e = CacheEntry {
                    page: Page { id: pno, data: d2, dirty: false },
                    pinned: true,
                    stamp: self.tick,
                };
                let ghost mid = *self;
                self.slots.set(pn, Some(e));
                self.resident = self.resident + 1;
                proof {
                    lemma_count_update(mid.slots@, pn as int, self.slots@[pn as int]);
                    assert(self.logical() =~= old(self).logical());
                    assert(self.disk.deep_view() =~= old(self).disk.deep_view());
                }
                Ok(d)
            },
        }
    }

    /// Unpins a page, making it eligible for eviction again.
    pub fn release(&mut self, pno: u64)
        requires
            old(self).wf(),
        ensures
            final(self).wf(),
            final(self).logical() == old(self).logical(),
            final(self).durable() == old(self).durable(),
            final(self).cap() == old(self).cap(),
            final(self).resident_count() == old(self).resident_count(),
            !final(self).is_pinned(pno as int),
            forall|p: int| p != pno as int ==> final(self).is_pinned(p) == old(self).is_pinned(p),
            forall|p: int| final(self).is_dirty(p) == old(self).is_dirty(p),
            forall|p: int| final(self).resident(p) == old(self).resident(p),
    {
        if pno >= self.slots.len() as u64 {
            return ;
        }
        let pn = pno as usize;
        let mut tmp: Option<CacheEntry> = None;
        self.slots.set_and_swap(pn, &mut tmp);
        match tmp {
            Some(mut e) => {
                e.pinned = false;
                self.slots.set(pn, Some(e));
                proof {
                    lemma_count_update(old(self).slots@, pn as int, None);
                    lemma_count_update(
                        old(self).slots@.update(pn as int, None),
                        pn as int,
                        self.slots@[pn as int],
                    );
                    assert(self.logical() =~= old(self).logical());
                    assert(self.disk.deep_view() =~= old(self).disk.deep_view());
                }
            },
            None => {
                self.slots.set(pn, None);
                proof {
                    assert(self.slots@ =~= old(self).slots@);
                }
            },
        }
    }

    /// Replaces a resident page's bytes and marks it dirty.
    /// Fails only when the page is not resident.
    pub fn write_page(&mut self, pno: u64, data: &Vec<u8>) -> (r: Result<(), GSQLError>)
        requires
            old(self).wf(),
            data@.len() == PAGE_SIZE,
        ensures
            final(self).wf(),
            final(self).durable() == old(self).durable(),
            final(self).cap() == old(self).cap(),
            final(self).resident_count() == old(self).resident_count(),
            forall|p: int| final(self).is_pinned(p) == old(self).is_pinned(p),
            forall|p: int| final(self).resident(p) == old(self).resident(p),
            match r {
                Ok(_) => {
                    &&& old(self).resident(pno as int)
                    &&& final(self).logical() == old(self).logical().update(pno as int, data@)
                    &&& final(self).is_dirty(pno as int)
                    &&& forall|p: int| p != pno as int ==> final(self).is_dirty(p)
                        == old(self).is_dirty(p)
                },
                Err(e) => {
                    &&& !old(self).resident(pno as int)
                    &&& final(self).logical() == old(self).logical()
                    &&& (forall|p: int| final(self).is_dirty(p) == old(self).is_dirty(p))
                    &&& e is Other
                },
            },
    {
        if pno >= self.slots.len() as u64 {
            return Err(GSQLError::Other("page not resident".to_owned()));
        }
        let pn = pno as usize;
        let mut tmp: Option<CacheEntry> = None;
        self.slots.set_and_swap(pn, &mut tmp);
        match tmp {
            Some(mut e) => {
                e.page.data = vstd::slice::slice_to_vec(data.as_slice());
                e.page.dirty = true;
                self.slots.set(pn, Some(e));
                proof {
                    lemma_count_update(old(self).slots@, pn as int, None);
                    lemma_count_update(
                        old(self).slots@.update(pn as int, None),
                        pn as int,
                        self.slots@[pn as int],
                    );
                    assert(self.logical() =~= old(self).logical().update(pn as int, data@));
                    assert(self.disk.deep_view() =~= old(self).disk.deep_view());
                }
                Ok(())
            },
            None => {
                self.slots.set(pn, None);
                proof {
                    assert(self.slots@ =~= old(self).slots@);
                }
                Err(GSQLError::Other("page not resident".to_owned()))
            },
        }
    }

    /// Flags a resident page for a later flush.
    /// Fails only when the page is not resident.
    pub fn mark_dirty(&mut self, pno: u64) -> (r: Result<(), GSQLError>)
        requires
            old(self).wf(),
        ensures
            final(self).wf(),
            final(self).logical() == old(self).logical(),
            final(self).durable() == old(self).durable(),
            final(self).cap() == old(self).cap(),
            final(self).resident_count() == old(self).resident_count(),
            forall|p: int| final(self).is_pinned(p) == old(self).is_pinned(p),
            forall|p: int| final(self).resident(p) == old(self).resident(p),
            match r {
                Ok(_) => old(self).resident(pno as int) && final(self).is_dirty(pno as int)
                    && (forall|p: int| p != pno as int ==> final(self).is_dirty(p)
                    == old(self).is_dirty(p)),
                Err(e) => !old(self).resident(pno as int) && e is Other && (forall|p: int|
                    final(self).is_dirty(p) == old(self).is_dirty(p)),
            },
    {
        if pno >= self.slots.len() as u64 {
            return Err(GSQLError::Other("page not resident".to_owned()));
        }
        let pn = pno as usize;
        let mut tmp: Option<CacheEntry> = None;
        self.slots.set_and_swap(pn, &mut tmp);
        match tmp {
            Some(mut e) => {
                e.page.dirty = true;
                self.slots.set(pn, Some(e));
                proof {
                    lemma_count_update(old(self).slots@, pn as int, None);
                    lemma_count_update(
                        old(self).slots@.update(pn as int, None),
                        pn as int,
                        self.slots@[pn as int],
                    );
                    assert(self.logical() =~= old(self).logical());
                    assert(self.disk.deep_view() =~= old(self).disk.deep_view());
                }
                Ok(())
            },
            None => {
                self.slots.set(pn, None);
                proof {
                    assert(self.slots@ =~= old(self).slots@);
                }
                Err(GSQLError::Other("page not resident".to_owned()))
            },
        }
    }

    /// Writes every dirty page back to the backing file and clears the
    /// dirty flags; afterwards the file holds exactly the logical state.
    pub fn flush_all(&mut self)
        requires
            old(self).wf(),
        ensures
            final(self).wf(),
            final(self).logical() == old(self).logical(),
            final(self).durable() == old(self).logical(),
            final(self).cap() == old(self).cap(),
            final(self).resident_count() == old(self).resident_count(),
            final(self).all_clean(),
            forall|p: int| final(self).is_pinned(p) == old(self).is_pinned(p),
            forall|p: int| final(self).resident(p) == old(self).resident(p),
    {
        let n = self.slots.len();
        let mut q: usize = 0;
        while q < n
            invariant
                q <= n,
                n == self.slots@.len(),
                old(self).wf(),
                n == old(self).slots@.len(),
                self.wf(),
                self.logical() == old(self).logical(),
                self.cap() == old(self).cap(),
                self.resident_count() == old(self).resident_count(),
                forall|p: int| self.is_pinned(p) == old(self).is_pinned(p),
                forall|p: int| self.resident(p) == old(self).resident(p),
                forall|p: int| 0 <= p < q ==> !self.is_dirty(p),
                forall|p: int| 0 <= p < q ==> self.durable()[p] == old(self).logical()[p],
                forall|p: int| q <= p < n ==> self.durable()[p] == old(self).durable()[p],
                forall|p: int| q <= p < n ==> self.is_dirty(p) == old(self).is_dirty(p),
            decreases n - q,
        {
            let ghost pre = *self;
            let mut tmp: Option<CacheEntry> = None;
            self.slots.set_and_swap(q, &mut tmp);
            match tmp {
                Some(mut e) => {
                    if e.page.dirty {
                        self.disk.set(q, vstd::slice::slice_to_vec(e.page.data.as_slice()));
                        e.page.dirty = false;
                    }
                    self.slots.set(q, Some(e));
                    proof {
                        lemma_count_update(pre.slots@, q as int, None);
                        lemma_count_update(
                            pre.slots@.update(q as int, None),
                            q as int,
                            self.slots@[q as int],
                        );
                        assert forall|p2: int| 0 <= p2 < self.disk@.len() implies
                            self.disk.deep_view()[p2] == (if p2 == q as int {
                                pre.logical()[q as int]
                            } else {
                                pre.durable()[p2]
                            }) by {
                            if p2 != q as int {
                                assert(self.disk@[p2] == pre.disk@[p2]);
                                assert(pre.disk.deep_view()[p2] == pre.disk@[p2]@);
                            }
                        }
                        assert(self.logical() =~= pre.logical());
                        assert(!self.is_dirty(q as int));
                    }
                },
                None => {
                    self.slots.set(q, None);
                    proof {
                        assert(self.slots@ =~= pre.slots@);
                        assert(self.logical()[q as int] == self.durable()[q as int]);
                        assert(!self.is_dirty(q as int));
                    }
                },
            }
            proof {
                assert forall|p: int| 0 <= p < q + 1 implies !self.is_dirty(p) by {
                    if p < q {
                        assert(self.slots@[p] == pre.slots@[p]);
                        assert(!pre.is_dirty(p));
                    }
                }
            }
            q += 1;
        }
        proof {
            assert(self.durable() =~= old(self).logical());
        }
    }

    /// Writes one page back to the backing file if it is resident, clearing
    /// its dirty flag.  Fails only when the page is not resident.
    pub fn flush(&mut self, pno: u64) -> (r: Result<(), GSQLError>)
        requires
            old(self).wf(),
        ensures
            final(self).wf(),
            final(self).logical() == old(self).logical(),
            final(self).cap() == old(self).cap(),
            final(self).resident_count() == old(self).resident_count(),
            forall|p: int| final(self).is_pinned(p) == old(self).is_pinned(p),
            forall|p: int| final(self).resident(p) == old(self).resident(p),
            match r {
                Ok(_) => {
                    &&& old(self).resident(pno as int)
                    &&& !final(self).is_dirty(pno as int)
                    &&& final(self).durable() == old(self).durable().update(
                        pno as int,
                        old(self).logical()[pno as int],
                    )
                    &&& forall|p: int| p != pno as int ==> final(self).is_dirty(p)
                        == old(self).is_dirty(p)
                },
                Err(e) => {
                    &&& !old(self).resident(pno as int)
                    &&& final(self).durable() == old(self).durable()
                    &&& (forall|p: int| final(self).is_dirty(p) == old(self).is_dirty(p))
                    &&& e is Other
                },
            },
    {
        if pno >= self.slots.len() as u64 {
            return Err(GSQLError::Other("page not resident".to_owned()));
        }
        let pn = pno as usize;
        let mut tmp: Option<CacheEntry> = None;
        self.slots.set_and_swap(pn, &mut tmp);
        match tmp {
            Some(mut e) => {
                self.disk.set(pn, vstd::slice::slice_to_vec(e.page.data.as_slice()));
                e.page.dirty = false;
                self.slots.set(pn, Some(e));
                proof {
                    lemma_count_update(old(self).slots@, pn as int, None);
                    lemma_count_update(
                        old(self).slots@.update(pn as int, None),
                        pn as int,
                        self.slots@[pn as int],
                    );
                    assert(self.logical() =~= old(self).logical());
                    assert forall|p2: int| 0 <= p2 < self.disk@.len() implies
                        self.disk.deep_view()[p2] == old(self).disk.deep_view().update(
                        pn as int,
                        old(self).logical()[pn as int],
                    )[p2] by {
                        if p2 != pn as int {
                            assert(self.disk@[p2] == old(self).disk@[p2]);
                            assert(old(self).disk.deep_view()[p2] == old(self).disk@[p2]@);
                        }
                    }
                    assert(self.durable() =~= old(self).durable().update(
                        pn as int,
                        old(self).logical()[pn as int],
                    ));
                }
                Ok(())
            },
            None => {
                self.slots.set(pn, None);
                proof {
                    assert(self.slots@ =~= old(self).slots@);
                }
                Err(GSQLError::Other("page not resident".to_owned()))
            },
        }
    }
}

} // verus!
