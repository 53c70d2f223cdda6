//! Pages: fixed-size byte containers, the unit of disk I/O and caching.
//!
//! A data page holds a 4-byte header (2-byte row count, 2-byte free offset)
//! followed by encoded rows laid back to back.  A freshly allocated page is
//! all zeroes; its free offset is read as the start of the data area.

use vstd::prelude::*;
use vstd::bytes::*;
use vstd::pervasive::VecAdditionalExecFns;
use crate::codec::{PAGE_SIZE, PAGE_HEADER, spec_decode_row};
use crate::parser::ColumnDef;
use crate::value::ValueModel;

verus! {

/// A fixed-size page: its id, its bytes, and an in-memory dirty flag.
#[derive(Debug)]
pub struct Page {
    pub id: u64,
    pub data: Vec<u8>,
    pub dirty: bool,
}

impl Page {
    pub open spec fn wf(&self) -> bool {
        self.data@.len() == PAGE_SIZE
    }

    /// A fresh, zero-filled, clean page.
    pub fn new(id: u64) -> (p: Page)
        ensures
            p.wf(),
            p.id == id,
            p.data@ == crate::codec::zero_seq(PAGE_SIZE as nat),
            !p.dirty,
    {
        Page { id, data: zero_page(), dirty: false }
    }
}

/// A zero-filled page image.
pub fn zero_page() -> (v: Vec<u8>)
    ensures
        v@ == crate::codec::zero_seq(PAGE_SIZE as nat),
{
    let mut v: Vec<u8> = Vec::new();
    let mut i: usize = 0;
    while i < PAGE_SIZE
        invariant
            i <= PAGE_SIZE,
            v@ == crate::codec::zero_seq(i as nat),
        decreases PAGE_SIZE - i,
    {
        v.push(0);
        assert(crate::codec::zero_seq((i + 1) as nat) =~= crate::codec::zero_seq(i as nat).push(
            0u8,
        ));
        i += 1;
    }
    v
}

/// Number of rows stored in the page.
pub open spec fn page_num_rows(p: Seq<u8>) -> int
    recommends
        p.len() >= PAGE_HEADER,
{
    spec_u16_from_le_bytes(p.subrange(0, 2)) as int
}

/// First free byte of the page; a fresh zero page is read as having its
/// data area start free.
pub open spec fn page_free(p: Seq<u8>) -> int
    recommends
        p.len() >= PAGE_HEADER,
{
    let raw = spec_u16_from_le_bytes(p.subrange(2, 4)) as int;
    if raw < PAGE_HEADER {
        PAGE_HEADER as int
    } else {
        raw
    }
}

/// The page after one encoded row is appended: row count up by one, free
/// offset moved past the row, the row's bytes in place, all else unchanged.
pub open spec fn spec_page_append(p: Seq<u8>, row: Seq<u8>) -> Seq<u8>
    recommends
        p.len() == PAGE_SIZE,
        page_free(p) + row.len() <= PAGE_SIZE,
        page_num_rows(p) < 0xffff,
{
    let nr = spec_u16_to_le_bytes((page_num_rows(p) + 1) as u16);
    let fo = spec_u16_to_le_bytes((page_free(p) + row.len()) as u16);
    Seq::new(
        p.len(),
        |i: int|
            if i < 2 {
                nr[i]
            } else if i < 4 {
                fo[i - 2]
            } else if page_free(p) <= i < page_free(p) + row.len() {
                row[i - page_free(p)]
            } else {
                p[i]
            },
    )
}

/// Decodes `k` rows laid back to back from `off`; returns them and the end
/// offset of the last row.
pub open spec fn dec_rows(cols: Seq<ColumnDef>, p: Seq<u8>, off: int, k: nat) -> Option<
    (Seq<Seq<ValueModel>>, int),
>
    decreases k,
{
    if k == 0 {
        Some((Seq::empty(), off))
    } else {
        match spec_decode_row(cols, p, off) {
            Some(rv) => match dec_rows(cols, p, rv.1, (k - 1) as nat) {
                Some(rest) => Some((seq![rv.0] + rest.0, rest.1)),
                None => None,
            },
            None => None,
        }
    }
}

/// A well-formed data page under a schema: its rows decode back to back
/// from the start of the data area and end exactly at the free offset.
pub open spec fn page_wf(cols: Seq<ColumnDef>, p: Seq<u8>) -> bool {
    &&& p.len() == PAGE_SIZE
    &&& PAGE_HEADER <= page_free(p) <= PAGE_SIZE
    &&& match dec_rows(cols, p, PAGE_HEADER as int, page_num_rows(p) as nat) {
        Some(re) => re.1 == page_free(p),
        None => false,
    }
}

/// The rows of a well-formed page.
pub open spec fn page_rows(cols: Seq<ColumnDef>, p: Seq<u8>) -> Seq<Seq<ValueModel>> {
    match dec_rows(cols, p, PAGE_HEADER as int, page_num_rows(p) as nat) {
        Some(re) => re.0,
        None => Seq::empty(),
    }
}

/// Reads the row count of a page.
pub fn read_num_rows(p: &Vec<u8>) -> (n: u16)
    requires
        p@.len() == PAGE_SIZE,
    ensures
        n as int == page_num_rows(p@),
{
    let sl = vstd::slice::slice_subrange(p.as_slice(), 0, 2);
    u16_from_le_bytes(sl)
}

/// Reads the free offset of a page.
pub fn read_free(p: &Vec<u8>) -> (n: u16)
    requires
        p@.len() == PAGE_SIZE,
    ensures
        n as int == page_free(p@),
        PAGE_HEADER <= n as int <= 0xffff,
{
    let sl = vstd::slice::slice_subrange(p.as_slice(), 2, 4);
    let raw = u16_from_le_bytes(sl);
    if raw < 4 {
        4
    } else {
        raw
    }
}

/// Appends an encoded row to a page image.
pub fn page_append_row(p: &mut Vec<u8>, row: &Vec<u8>)
    requires
        old(p)@.len() == PAGE_SIZE,
        page_free(old(p)@) + row@.len() <= PAGE_SIZE,
        page_num_rows(old(p)@) < 0xffff,
    ensures
        final(p)@ == spec_page_append(old(p)@, row@),
{
    proof {
        lemma_auto_spec_u16_to_from_le_bytes();
    }
    let nr = read_num_rows(p);
    let fo = read_free(p);
    let nrb = u16_to_le_bytes(nr + 1);
    let fob = u16_to_le_bytes(fo + row.len() as u16);
    p.set(0, nrb[0]);
    p.set(1, nrb[1]);
    p.set(2, fob[0]);
    p.set(3, fob[1]);
    let mut k: usize = 0;
    let base = fo as usize;
    while k < row.len()
        invariant
            k <= row@.len(),
            base as int == page_free(old(p)@),
            base + row@.len() <= PAGE_SIZE,
            p@.len() == PAGE_SIZE,
            nrb@ == spec_u16_to_le_bytes((page_num_rows(old(p)@) + 1) as u16),
            fob@ == spec_u16_to_le_bytes((page_free(old(p)@) + row@.len()) as u16),
            p@[0] == nrb@[0] && p@[1] == nrb@[1] && p@[2] == fob@[0] && p@[3] == fob@[1],
            forall|i: int| 4 <= i < p@.len() && !(base <= i < base + k) ==> p@[i] == old(p)@[i],
            forall|i: int| base <= i < base + k ==> p@[i] == row@[i - base],
        decreases row@.len() - k,
    {
        p.set(base + k, row[k]);
        k += 1;
    }
    proof {
        lemma_auto_spec_u16_to_from_le_bytes();
        assert(p@ =~= spec_page_append(old(p)@, row@));
    }
}

} // verus!
