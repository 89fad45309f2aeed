//! Physical memory: an array of pages, read and written by bytes and by
//! eight-byte little-endian words.

use vstd::bytes::{
    lemma_auto_spec_u64_to_from_le_bytes, spec_u64_from_le_bytes, spec_u64_to_le_bytes,
    spec_u64_to_le_bytes_to_open, u64_from_le_bytes, u64_to_le_bytes,
};
use vstd::prelude::*;
use vstd::slice::slice_subrange;
use super::addr::{PhysPageNum, PAGE_SIZE, PPN_LIMIT};

verus! {

/// Eight-byte words in a page.
pub const WORDS_PER_PAGE: usize = 512;

/// The word at index `idx` of a page.
pub open spec fn page_word(page: Seq<u8>, idx: int) -> u64 {
    spec_u64_from_le_bytes(page.subrange(8 * idx, 8 * idx + 8))
}

/// A page with the word at index `idx` replaced by `v`.
pub open spec fn page_set_word(page: Seq<u8>, idx: int, v: u64) -> Seq<u8> {
    page.subrange(0, 8 * idx) + spec_u64_to_le_bytes(v) + page.subrange(
        8 * idx + 8,
        page.len() as int,
    )
}

/// A page of zero bytes.
pub open spec fn zero_page() -> Seq<u8> {
    Seq::new(PAGE_SIZE as nat, |i: int| 0u8)
}

/// Writing a word changes that word and no other word of the page.
pub proof fn lemma_page_set_word(page: Seq<u8>, idx: int, v: u64)
    requires
        page.len() == PAGE_SIZE,
        0 <= idx < 512,
    ensures
        page_set_word(page, idx, v).len() == PAGE_SIZE,
        page_word(page_set_word(page, idx, v), idx) == v,
        forall|j: int|
            0 <= j < 512 && j != idx ==> #[trigger] page_word(page_set_word(page, idx, v), j)
                == page_word(page, j),
{
    lemma_auto_spec_u64_to_from_le_bytes();
    let le = spec_u64_to_le_bytes(v);
    let q = page_set_word(page, idx, v);
    assert(le.len() == 8);
    assert(q.subrange(8 * idx, 8 * idx + 8) =~= le);
    assert forall|j: int| 0 <= j < 512 && j != idx implies #[trigger] page_word(q, j) == page_word(
        page,
        j,
    ) by {
        assert(q.subrange(8 * j, 8 * j + 8) =~= page.subrange(8 * j, 8 * j + 8));
    }
}

/// Every word of a zero page is zero.
pub proof fn lemma_zero_page_word(idx: int)
    requires
        0 <= idx < 512,
    ensures
        page_word(zero_page(), idx) == 0,
{
    lemma_auto_spec_u64_to_from_le_bytes();
    spec_u64_to_le_bytes_to_open(0u64);
    assert(0u64 & 0xff == 0 && (0u64 >> 8) & 0xff == 0 && (0u64 >> 16) & 0xff == 0 && (0u64 >> 24)
        & 0xff == 0 && (0u64 >> 32) & 0xff == 0 && (0u64 >> 40) & 0xff == 0 && (0u64 >> 48) & 0xff
        == 0 && (0u64 >> 56) & 0xff == 0) by (bit_vector);
    assert(zero_page().subrange(8 * idx, 8 * idx + 8) =~= spec_u64_to_le_bytes(0u64));
}

/// What RAM holds: the number of its first page, and the bytes of each page.
pub struct MemoryView {
    pub base: nat,
    pub pages: Seq<Seq<u8>>,
}

impl MemoryView {
    /// Every page has the page size, and every page number fits a
    /// page-table entry.
    pub open spec fn wf(self) -> bool {
        &&& self.base + self.pages.len() <= PPN_LIMIT
        &&& self.pages.len() * PAGE_SIZE <= usize::MAX
        &&& forall|i: int| 0 <= i < self.pages.len() ==> (#[trigger] self.pages[i]).len() == PAGE_SIZE
    }

    /// Whether page `ppn` is part of RAM.
    pub open spec fn contains(self, ppn: u64) -> bool {
        self.base <= ppn < self.base + self.pages.len()
    }

    /// The bytes of page `ppn`.
    pub open spec fn page(self, ppn: u64) -> Seq<u8> {
        self.pages[ppn - self.base]
    }

    /// The word at index `idx` of page `ppn`.
    pub open spec fn word(self, ppn: u64, idx: int) -> u64 {
        page_word(self.page(ppn), idx)
    }

    /// RAM with page `ppn` replaced by `data`.
    pub open spec fn set_page(self, ppn: u64, data: Seq<u8>) -> MemoryView {
        MemoryView { base: self.base, pages: self.pages.update(ppn - self.base, data) }
    }

    /// RAM with one word replaced.
    pub open spec fn set_word(self, ppn: u64, idx: int, v: u64) -> MemoryView {
        self.set_page(ppn, page_set_word(self.page(ppn), idx, v))
    }

    /// RAM with one byte replaced.
    pub open spec fn set_byte(self, ppn: u64, off: int, v: u8) -> MemoryView {
        self.set_page(ppn, self.page(ppn).update(off, v))
    }

    /// Whether two memories cover the same pages.
    pub open spec fn same_shape(self, other: MemoryView) -> bool {
        self.base == other.base && self.pages.len() == other.pages.len()
    }
}

/// RAM of a machine: `count` pages, the first of which is page `base`.
pub struct PhysMemory {
    base: u64,
    count: usize,
    bytes: Vec<u8>,
}

impl View for PhysMemory {
    type V = MemoryView;

    closed spec fn view(&self) -> MemoryView {
        MemoryView {
            base: self.base as nat,
            pages: Seq::new(
                self.count as nat,
                |i: int| self.bytes@.subrange(i * PAGE_SIZE, (i + 1) * PAGE_SIZE),
            ),
        }
    }
}

impl PhysMemory {
    /// The byte array has one page size of bytes for each page.
    pub closed spec fn inv(&self) -> bool {
        &&& self.bytes@.len() == self.count * PAGE_SIZE
        &&& self.count * PAGE_SIZE <= usize::MAX
        &&& self.base + self.count <= PPN_LIMIT
    }

    /// Well-formedness of the memory and of its view.
    pub open spec fn wf(&self) -> bool {
        self.inv() && self@.wf()
    }

    /// Index of the first byte of page `ppn` in the byte array.
    fn page_start(&self, ppn: PhysPageNum) -> (at: usize)
        requires
            self.wf(),
            self@.contains(ppn.0),
        ensures
            at == (ppn.0 - self.base) * PAGE_SIZE,
            at + PAGE_SIZE <= self.bytes@.len(),
            self.bytes@.len() <= usize::MAX,
    {
        let i: usize = (ppn.0 - self.base) as usize;
        let n: usize = self.bytes.len();
        assert(i * PAGE_SIZE + PAGE_SIZE <= self.count * PAGE_SIZE) by (nonlinear_arith)
            requires
                i < self.count,
        ;
        i * PAGE_SIZE
    }

    /// RAM of `count` zeroed pages starting at page `base`; `None` when the
    /// pages would reach past the last page number or the bytes past the
    /// host's address range.
    pub fn new(base: PhysPageNum, count: usize) -> (r: Option<PhysMemory>)
        ensures
            r.is_none() <==> (base.0 + count > PPN_LIMIT || count * PAGE_SIZE > usize::MAX),
            r matches Some(m) ==> {
                &&& m.wf()
                &&& m@.base == base.0
                &&& m@.pages.len() == count
                &&& forall|p: u64| m@.contains(p) ==> #[trigger] m@.page(p) == zero_page()
            },
    {
        if base.0 > PPN_LIMIT || count as u64 > PPN_LIMIT - base.0 {
            return None;
        }
        if count > usize::MAX / PAGE_SIZE {
            return None;
        }
        let bytes: Vec<u8> = vec![0u8; count * PAGE_SIZE];
        let m = PhysMemory { base: base.0, count, bytes };
        proof {
            assert forall|p: u64| m@.contains(p) implies #[trigger] m@.page(p) == zero_page() by {
                assert(m@.page(p) =~= zero_page());
            }
        }
        Some(m)
    }

    /// Number of the first page.
    pub fn base(&self) -> (b: PhysPageNum)
        ensures
            b.0 == self@.base,
    {
        PhysPageNum(self.base)
    }

    /// Number of pages.
    pub fn page_count(&self) -> (n: usize)
        ensures
            n == self@.pages.len(),
    {
        self.count
    }

    /// Whether page `ppn` is part of this memory.
    pub fn contains(&self, ppn: PhysPageNum) -> (b: bool)
        requires
            self.wf(),
        ensures
            b == self@.contains(ppn.0),
    {
        ppn.0 >= self.base && ppn.0 - self.base < self.count as u64
    }

    /// The byte at offset `off` of page `ppn`.
    pub fn read_byte(&self, ppn: PhysPageNum, off: usize) -> (v: u8)
        requires
            self.wf(),
            self@.contains(ppn.0),
            off < PAGE_SIZE,
        ensures
            v == self@.page(ppn.0)[off as int],
    {
        let at: usize = self.page_start(ppn) + off;
        self.bytes[at]
    }

    /// Stores `v` at offset `off` of page `ppn`.
    pub fn write_byte(&mut self, ppn: PhysPageNum, off: usize, v: u8)
        requires
            old(self).wf(),
            old(self)@.contains(ppn.0),
            off < PAGE_SIZE,
        ensures
            final(self).wf(),
            final(self)@ == old(self)@.set_byte(ppn.0, off as int, v),
    {
        let at: usize = self.page_start(ppn) + off;
        self.bytes.set(at, v);
        proof {
            let want = old(self)@.set_byte(ppn.0, off as int, v);
            assert(self@.pages.len() == want.pages.len());
            assert forall|i: int| 0 <= i < self@.pages.len() implies #[trigger] self@.pages[i]
                =~= want.pages[i] by {}
            assert(self@.pages =~= want.pages);
        }
    }

    /// The word at index `idx` of page `ppn`.
    pub fn read_word(&self, ppn: PhysPageNum, idx: usize) -> (v: u64)
        requires
            self.wf(),
            self@.contains(ppn.0),
            idx < WORDS_PER_PAGE,
        ensures
            v == self@.word(ppn.0, idx as int),
    {
        let at: usize = self.page_start(ppn) + idx * 8;
        let s = slice_subrange(self.bytes.as_slice(), at, at + 8);
        proof {
            assert(s@ =~= self@.page(ppn.0).subrange(8 * idx, 8 * idx + 8));
        }
        u64_from_le_bytes(s)
    }

    /// Stores `v` at index `idx` of page `ppn`.
    pub fn write_word(&mut self, ppn: PhysPageNum, idx: usize, v: u64)
        requires
            old(self).wf(),
            old(self)@.contains(ppn.0),
            idx < WORDS_PER_PAGE,
        ensures
            final(self).wf(),
            final(self)@ == old(self)@.set_word(ppn.0, idx as int, v),
    {
        let at: usize = self.page_start(ppn) + idx * 8;
        let le = u64_to_le_bytes(v);
        let mut k: usize = 0;
        while k < 8
            invariant
                k <= 8,
                le@.len() == 8,
                at + 8 <= self.bytes@.len(),
                self.bytes@.len() <= usize::MAX,
                self.bytes@.len() == old(self).bytes@.len(),
                self.base == old(self).base,
                self.count == old(self).count,
                forall|i: int|
                    0 <= i < self.bytes@.len() ==> #[trigger] self.bytes@[i] == (if at <= i < at
                        + k {
                        le@[i - at]
                    } else {
                        old(self).bytes@[i]
                    }),
            decreases 8 - k,
        {
            self.bytes.set(at + k, le[k]);
            k += 1;
        }
        proof {
            let want = old(self)@.set_word(ppn.0, idx as int, v);
            assert(self@.pages.len() == want.pages.len());
            assert forall|i: int| 0 <= i < self@.pages.len() implies #[trigger] self@.pages[i]
                =~= want.pages[i] by {}
            assert(self@.pages =~= want.pages);
        }
    }

    /// Fills page `ppn` with zero bytes.
    pub fn zero_page(&mut self, ppn: PhysPageNum)
        requires
            old(self).wf(),
            old(self)@.contains(ppn.0),
        ensures
            final(self).wf(),
            final(self)@ == old(self)@.set_page(ppn.0, zero_page()),
    {
        let at: usize = self.page_start(ppn);
        let mut k: usize = 0;
        while k < PAGE_SIZE
            invariant
                k <= PAGE_SIZE,
                at + PAGE_SIZE <= self.bytes@.len(),
                self.bytes@.len() <= usize::MAX,
                self.bytes@.len() == old(self).bytes@.len(),
                self.base == old(self).base,
                self.count == old(self).count,
                forall|i: int|
                    0 <= i < self.bytes@.len() ==> #[trigger] self.bytes@[i] == (if at <= i < at
                        + k {
                        0u8
                    } else {
                        old(self).bytes@[i]
                    }),
            decreases PAGE_SIZE - k,
        {
            self.bytes.set(at + k, 0u8);
            k += 1;
        }
        proof {
            let want = old(self)@.set_page(ppn.0, zero_page());
            assert(self@.pages.len() == want.pages.len());
            assert forall|i: int| 0 <= i < self@.pages.len() implies #[trigger] self@.pages[i]
                =~= want.pages[i] by {}
            assert(self@.pages =~= want.pages);
        }
    }
}

} // verus!
