//! Virtual memory objects: named runs of pages that can be read, written
//! and mapped.
//!
//! A physical object stands for a fixed range of pages that it does not
//! own. A paged object owns the frames that back it.

use vstd::prelude::*;
use crate::error::KernelError;
use super::addr::{PhysAddr, PhysPageNum, PAGE_SIZE, PAGE_SIZE_U64};
use super::frame::{
    changes, lemma_alloc_changes, lemma_changes_refl, lemma_changes_trans, lemma_dealloc_changes,
    Frame, FrameAllocatorView, LinkedStackFrameAllocator,
};
use super::memory::{zero_page, MemoryView, PhysMemory};

verus! {

/// The bytes of the object whose pages are `pages`, first page first.
pub open spec fn contents(pages: Seq<u64>, m: MemoryView) -> Seq<u8> {
    Seq::new(
        pages.len() * PAGE_SIZE as nat,
        |i: int| m.page(pages[i / PAGE_SIZE as int])[i % PAGE_SIZE as int],
    )
}

/// `s` with the bytes from `offset` on replaced by `data`.
pub open spec fn splice(s: Seq<u8>, offset: int, data: Seq<u8>) -> Seq<u8> {
    Seq::new(
        s.len(),
        |i: int|
            if offset <= i < offset + data.len() {
                data[i - offset]
            } else {
                s[i]
            },
    )
}

/// `buf` with its first `n` bytes replaced by the bytes of `src` from
/// `offset` on.
pub open spec fn overlay(buf: Seq<u8>, src: Seq<u8>, offset: int, n: int) -> Seq<u8> {
    Seq::new(
        buf.len(),
        |k: int|
            if k < n {
                src[offset + k]
            } else {
                buf[k]
            },
    )
}

/// The pages are distinct pages of RAM, and their bytes can be counted.
pub open spec fn pages_in(pages: Seq<u64>, m: MemoryView) -> bool {
    &&& m.wf()
    &&& pages.len() * PAGE_SIZE <= usize::MAX
    &&& pages.no_duplicates()
    &&& forall|i: int| 0 <= i < pages.len() ==> m.contains(#[trigger] pages[i])
}

/// How many bytes a transfer of `want` bytes at `offset` moves in an object
/// of `page_count` pages: what is left of the object from `offset` on, at
/// most `want`, and nothing when `offset` lies past the end.
pub open spec fn transfer_len(page_count: int, offset: int, want: int) -> int {
    let limit = page_count * PAGE_SIZE;
    if offset > limit {
        0
    } else if want <= limit - offset {
        want
    } else {
        limit - offset
    }
}

/// Memory `m1` is memory `m0` after `data` was written at `offset` into the
/// object whose pages are `pages`: the object holds the new bytes there and
/// its old bytes elsewhere, and every other page is as it was.
pub open spec fn written(
    pages: Seq<u64>,
    m0: MemoryView,
    m1: MemoryView,
    offset: int,
    data: Seq<u8>,
) -> bool {
    &&& m1.wf()
    &&& m1.same_shape(m0)
    &&& forall|p: u64| m0.contains(p) && !pages.contains(p) ==> #[trigger] m1.page(p) == m0.page(p)
    &&& contents(pages, m1) == splice(contents(pages, m0), offset, data)
}

/// Memory after the bytes `data` were stored, one after the other, into the
/// object whose pages are `pages`, from `offset` on.
pub open spec fn store(m: MemoryView, pages: Seq<u64>, offset: int, data: Seq<u8>) -> MemoryView
    decreases data.len(),
{
    if data.len() == 0 {
        m
    } else {
        let at = offset + data.len() - 1;
        store(m, pages, offset, data.drop_last()).set_byte(
            pages[at / PAGE_SIZE as int],
            at % PAGE_SIZE as int,
            data.last(),
        )
    }
}

/// Storing bytes into an object leaves the object with the new bytes at
/// the offset and its old bytes elsewhere, and leaves every other page as
/// it was.
pub proof fn lemma_store_written(m: MemoryView, pages: Seq<u64>, offset: int, data: Seq<u8>)
    requires
        pages_in(pages, m),
        0 <= offset,
        offset + data.len() <= pages.len() * PAGE_SIZE,
    ensures
        written(pages, m, store(m, pages, offset, data), offset, data),
        pages_in(pages, store(m, pages, offset, data)),
    decreases data.len(),
{
    if data.len() == 0 {
        assert(contents(pages, m) =~= splice(contents(pages, m), offset, data));
    } else {
        let at = offset + data.len() - 1;
        let m1 = store(m, pages, offset, data.drop_last());
        lemma_store_written(m, pages, offset, data.drop_last());
        lemma_contents_set_byte(pages, m1, at, data.last());
        let m2 = store(m, pages, offset, data);
        let j = at / PAGE_SIZE as int;
        assert(pages.contains(pages[j]));
        assert(contents(pages, m2) =~= splice(contents(pages, m), offset, data));
        assert forall|p: u64| m.contains(p) && !pages.contains(p) implies #[trigger] m2.page(p)
            == m.page(p) by {
            assert(m1.page(p) == m.page(p));
        }
    }
}

/// Writing one byte of an object changes that byte of its contents.
pub proof fn lemma_contents_set_byte(pages: Seq<u64>, m: MemoryView, at: int, v: u8)
    requires
        pages_in(pages, m),
        0 <= at < pages.len() * PAGE_SIZE,
    ensures
        contents(
            pages,
            m.set_byte(pages[at / PAGE_SIZE as int], at % PAGE_SIZE as int, v),
        ) == contents(pages, m).update(at, v),
        m.set_byte(pages[at / PAGE_SIZE as int], at % PAGE_SIZE as int, v).wf(),
{
    let j = at / PAGE_SIZE as int;
    let m1 = m.set_byte(pages[j], at % PAGE_SIZE as int, v);
    assert(m.contains(pages[j]));
    assert forall|x: int| 0 <= x < pages.len() * PAGE_SIZE implies contents(pages, m1)[x]
        == contents(pages, m).update(at, v)[x] by {
        let jx = x / PAGE_SIZE as int;
        assert(m.contains(pages[jx]));
        if jx != j {
            assert(pages[jx] != pages[j]);
        }
    }
    assert(contents(pages, m1) =~= contents(pages, m).update(at, v));
}

/// What was written at an offset is what is read there afterwards.
pub proof fn lemma_write_then_read(
    pages: Seq<u64>,
    m0: MemoryView,
    m1: MemoryView,
    offset: int,
    data: Seq<u8>,
)
    requires
        written(pages, m0, m1, offset, data),
        0 <= offset,
        offset + data.len() <= pages.len() * PAGE_SIZE,
    ensures
        contents(pages, m1).subrange(offset, offset + data.len()) == data,
{
    assert(contents(pages, m1).subrange(offset, offset + data.len()) =~= data);
}

/// What is written at the start of an object that has room for it is what
/// a read at the start gives back.
pub proof fn lemma_write_read_roundtrip(
    pages: Seq<u64>,
    m: MemoryView,
    buf: Seq<u8>,
    out: Seq<u8>,
)
    requires
        pages_in(pages, m),
        buf.len() <= pages.len() * PAGE_SIZE,
        out.len() == buf.len(),
    ensures
        transfer_len(pages.len() as int, 0, buf.len() as int) == buf.len(),
        overlay(
            out,
            contents(pages, store(m, pages, 0, buf.subrange(0, buf.len() as int))),
            0,
            buf.len() as int,
        ) == buf,
{
    assert(buf.subrange(0, buf.len() as int) =~= buf);
    lemma_store_written(m, pages, 0, buf);
    assert(overlay(out, contents(pages, store(m, pages, 0, buf)), 0, buf.len() as int) =~= buf);
}

/// A run of pages that can be read, written and mapped.
pub trait VMObject {
    /// The physical page behind each page of the object.
    spec fn pages(&self) -> Seq<u64>;

    /// Number of pages.
    fn page_count(&self) -> (n: usize)
        ensures
            n == self.pages().len(),
    ;

    /// The physical page behind page `page_index`; `None` past the end.
    fn get_page(&self, page_index: usize) -> (r: Option<PhysPageNum>)
        ensures
            r == (if page_index < self.pages().len() {
                Some(PhysPageNum(self.pages()[page_index as int]))
            } else {
                None::<PhysPageNum>
            }),
    ;

    /// Copies bytes of the object from `offset` on to the front of `buf`:
    /// as many as `buf` holds and the object has from there. Returns their
    /// number.
    fn read(&self, mem: &PhysMemory, offset: usize, buf: &mut Vec<u8>) -> (n: usize)
        requires
            mem.wf(),
            pages_in(self.pages(), mem@),
        ensures
            n == transfer_len(self.pages().len() as int, offset as int, old(buf)@.len() as int),
            final(buf)@ == overlay(
                old(buf)@,
                contents(self.pages(), mem@),
                offset as int,
                n as int,
            ),
    {
        let limit: usize = self.page_count() * PAGE_SIZE;
        if offset > limit {
            assert(buf@ =~= overlay(buf@, contents(self.pages(), mem@), offset as int, 0));
            return 0;
        }
        let len: usize = if buf.len() <= limit - offset {
            buf.len()
        } else {
            limit - offset
        };
        let mut i: usize = 0;
        while i < len
            invariant
                i <= len,
                offset + len <= limit,
                limit == self.pages().len() * PAGE_SIZE,
                mem.wf(),
                pages_in(self.pages(), mem@),
                buf@.len() == old(buf)@.len(),
                len <= buf@.len(),
                forall|k: int|
                    0 <= k < i ==> #[trigger] buf@[k] == contents(self.pages(), mem@)[offset + k],
                forall|k: int| i <= k < buf@.len() ==> #[trigger] buf@[k] == old(buf)@[k],
            decreases len - i,
        {
            let at: usize = offset + i;
            let ppn = self.get_page(at / PAGE_SIZE).unwrap();
            let b: u8 = mem.read_byte(ppn, at % PAGE_SIZE);
            buf.set(i, b);
            i += 1;
        }
        proof {
            assert(buf@ =~= overlay(
                old(buf)@,
                contents(self.pages(), mem@),
                offset as int,
                len as int,
            ));
        }
        len
    }

    /// Copies bytes from the front of `buf` into the object from `offset`
    /// on: as many as `buf` holds and the object has room for from there.
    /// Returns their number.
    fn write(&self, mem: &mut PhysMemory, offset: usize, buf: &[u8]) -> (n: usize)
        requires
            old(mem).wf(),
            pages_in(self.pages(), old(mem)@),
        ensures
            final(mem).wf(),
            n == transfer_len(self.pages().len() as int, offset as int, buf@.len() as int),
            final(mem)@ == store(old(mem)@, self.pages(), offset as int, buf@.subrange(0, n as int)),
    {
        let ghost m0 = mem@;
        let limit: usize = self.page_count() * PAGE_SIZE;
        if offset > limit {
            return 0;
        }
        let len: usize = if buf.len() <= limit - offset {
            buf.len()
        } else {
            limit - offset
        };
        let mut i: usize = 0;
        while i < len
            invariant
                i <= len,
                offset + len <= limit,
                limit == self.pages().len() * PAGE_SIZE,
                len <= buf@.len(),
                mem.wf(),
                pages_in(self.pages(), m0),
                mem@ == store(m0, self.pages(), offset as int, buf@.subrange(0, i as int)),
            decreases len - i,
        {
            let at: usize = offset + i;
            proof {
                lemma_store_written(m0, self.pages(), offset as int, buf@.subrange(0, i as int));
            }
            let ppn = self.get_page(at / PAGE_SIZE).unwrap();
            mem.write_byte(ppn, at % PAGE_SIZE, buf[i]);
            proof {
                assert(buf@.subrange(0, i + 1).drop_last() =~= buf@.subrange(0, i as int));
            }
            i += 1;
        }
        len
    }
}

/// A fixed range of physical pages, which the object does not own.
pub struct VMObjectPhysical {
    base_page: PhysPageNum,
    page_count: usize,
}

impl VMObjectPhysical {
    #[verifier::type_invariant]
    spec fn inv(self) -> bool {
        self.base_page.0 + self.page_count <= u64::MAX
    }

    /// The first page of the range.
    pub closed spec fn spec_base(&self) -> u64 {
        self.base_page.0
    }

    /// The number of pages in the range.
    pub closed spec fn spec_count(&self) -> nat {
        self.page_count as nat
    }

    /// The object for the pages that hold the bytes from `base` up to, not
    /// including, `end`. The end must not lie below the page of the base,
    /// and the number of pages must fit the host's size type.
    pub fn from_range(base: PhysAddr, end: PhysAddr) -> (v: VMObjectPhysical)
        requires
            base.0 / PAGE_SIZE_U64 <= (end.0 + PAGE_SIZE - 1) / (PAGE_SIZE as int),
            (end.0 + PAGE_SIZE - 1) / (PAGE_SIZE as int) - base.0 / PAGE_SIZE_U64 <= usize::MAX,
        ensures
            v.spec_base() == base.0 / PAGE_SIZE_U64,
            v.spec_count() == (end.0 + PAGE_SIZE - 1) / (PAGE_SIZE as int) - base.0
                / PAGE_SIZE_U64,
    {
        let base_page: u64 = base.0 / PAGE_SIZE_U64;
        let end_page: u64 = if end.0 % PAGE_SIZE_U64 == 0 {
            end.0 / PAGE_SIZE_U64
        } else {
            end.0 / PAGE_SIZE_U64 + 1
        };
        VMObjectPhysical {
            base_page: PhysPageNum(base_page),
            page_count: (end_page - base_page) as usize,
        }
    }
}

impl VMObjectPhysical {
    /// Another object for the same range of pages.
    pub fn duplicate(&self) -> (v: VMObjectPhysical)
        ensures
            v.pages() == self.pages(),
            v.spec_base() == self.spec_base(),
            v.spec_count() == self.spec_count(),
    {
        proof {
            use_type_invariant(self);
        }
        VMObjectPhysical { base_page: self.base_page, page_count: self.page_count }
    }
}

impl VMObject for VMObjectPhysical {
    open spec fn pages(&self) -> Seq<u64> {
        Seq::new(self.spec_count(), |i: int| (self.spec_base() + i) as u64)
    }

    fn page_count(&self) -> (n: usize) {
        self.page_count
    }

    fn get_page(&self, page_index: usize) -> (r: Option<PhysPageNum>) {
        proof {
            use_type_invariant(self);
        }
        if page_index >= self.page_count {
            return None;
        }
        Some(PhysPageNum(self.base_page.0 + page_index as u64))
    }
}

/// A run of pages backed by frames that the object owns.
pub struct VMObjectPaged {
    frames: Vec<Frame>,
}

/// The numbers of the frames in `frames`, in order.
pub open spec fn frame_numbers(frames: Seq<Frame>) -> Seq<u64> {
    Seq::new(frames.len(), |i: int| frames[i].spec_ppn())
}

/// Gives every frame of `frames` back to the allocator.
fn release_frames(
    frames: Vec<Frame>,
    mem: &mut PhysMemory,
    alloc: &mut LinkedStackFrameAllocator,
    Ghost(own): Ghost<Set<u64>>,
    Ghost(m0): Ghost<MemoryView>,
    Ghost(a0): Ghost<FrameAllocatorView>,
)
    requires
        old(mem).wf(),
        old(alloc).wf(old(mem)@),
        frame_numbers(frames@).no_duplicates(),
        changes(own, m0, a0, frame_numbers(frames@).to_set(), old(mem)@, old(alloc)@),
    ensures
        final(mem).wf(),
        final(alloc).wf(final(mem)@),
        changes(own, m0, a0, Set::<u64>::empty(), final(mem)@, final(alloc)@),
        final(alloc)@.available() == old(alloc)@.available() + frames@.len(),
{
    let ghost total = frames@.len();
    let mut frames = frames;
    while frames.len() > 0
        invariant
            mem.wf(),
            alloc.wf(mem@),
            frame_numbers(frames@).no_duplicates(),
            changes(own, m0, a0, frame_numbers(frames@).to_set(), mem@, alloc@),
            alloc@.available() + frames@.len() == old(alloc)@.available() + total,
        decreases frames.len(),
    {
        let ghost before = frame_numbers(frames@);
        let ghost m1 = mem@;
        let ghost a1 = alloc@;
        let frame = frames.pop().unwrap();
        proof {
            let last = before.len() - 1;
            assert(before[last] == frame.spec_ppn());
            assert(before.to_set().contains(frame.spec_ppn()));
            assert forall|q: u64| #[trigger] before.to_set().contains(q) implies a1.is_allocated(
                q,
            ) by {
                reveal(changes);
            }
            lemma_dealloc_changes(before.to_set(), m1, a1, frame.spec_ppn());
            assert(frame_numbers(frames@) =~= before.drop_last());
            assert(frame_numbers(frames@).to_set() =~= before.to_set().remove(
                frame.spec_ppn(),
            )) by {
                assert forall|q: u64|
                    frame_numbers(frames@).contains(q) == (before.contains(q) && q
                        != frame.spec_ppn()) by {
                    if before.contains(q) && q != frame.spec_ppn() {
                        let k = choose|k: int| 0 <= k < before.len() && before[k] == q;
                        assert(before.drop_last()[k] == q);
                    }
                    if before.drop_last().contains(q) {
                        let k = choose|k: int|
                            0 <= k < before.drop_last().len() && before.drop_last()[k] == q;
                        assert(before[k] == q);
                    }
                }
            }
        }
        frame.release(alloc, mem);
        proof {
            lemma_changes_trans(
                own,
                m0,
                a0,
                before.to_set(),
                m1,
                a1,
                frame_numbers(frames@).to_set(),
                mem@,
                alloc@,
            );
        }
    }
    proof {
        assert(frame_numbers(frames@).to_set() =~= Set::<u64>::empty());
    }
}

impl VMObjectPaged {
    /// The frames are distinct frames of RAM that the allocator has handed
    /// out.
    pub open spec fn wf(&self, m: MemoryView, a: FrameAllocatorView) -> bool {
        &&& pages_in(self.pages(), m)
        &&& forall|i: int| 0 <= i < self.pages().len() ==> a.is_allocated(#[trigger] self.pages()[i])
    }

    /// An object of `page_count` zeroed pages in frames taken from the
    /// allocator. Fails with `OutOfFrames`, holding no frame, when the
    /// allocator runs out.
    pub fn new(
        page_count: usize,
        mem: &mut PhysMemory,
        alloc: &mut LinkedStackFrameAllocator,
    ) -> (r: Result<VMObjectPaged, KernelError>)
        requires
            old(mem).wf(),
            old(alloc).wf(old(mem)@),
            page_count * PAGE_SIZE <= usize::MAX,
        ensures
            final(mem).wf(),
            final(alloc).wf(final(mem)@),
            r matches Ok(v) ==> {
                &&& v.pages().len() == page_count
                &&& v.wf(final(mem)@, final(alloc)@)
                &&& changes(
                    Set::<u64>::empty(),
                    old(mem)@,
                    old(alloc)@,
                    v.pages().to_set(),
                    final(mem)@,
                    final(alloc)@,
                )
                &&& forall|i: int|
                    0 <= i < page_count ==> final(mem)@.page(#[trigger] v.pages()[i])
                        == zero_page()
                &&& final(alloc)@.available() == old(alloc)@.available() - page_count
            },
            r matches Err(e) ==> {
                &&& e == KernelError::OutOfFrames
                &&& changes(
                    Set::<u64>::empty(),
                    old(mem)@,
                    old(alloc)@,
                    Set::<u64>::empty(),
                    final(mem)@,
                    final(alloc)@,
                )
                &&& old(alloc)@.available() < page_count
                &&& final(alloc)@.available() == old(alloc)@.available()
            },
    {
        let ghost m0 = mem@;
        let ghost a0 = alloc@;
        let mut frames: Vec<Frame> = Vec::new();
        proof {
            lemma_changes_refl(Set::<u64>::empty(), m0, a0);
            assert(frame_numbers(frames@).to_set() =~= Set::<u64>::empty());
        }
        let mut i: usize = 0;
        while i < page_count
            invariant
                i <= page_count,
                frames@.len() == i,
                m0 == old(mem)@,
                a0 == old(alloc)@,
                mem.wf(),
                alloc.wf(mem@),
                page_count * PAGE_SIZE <= usize::MAX,
                frame_numbers(frames@).no_duplicates(),
                changes(
                    Set::<u64>::empty(),
                    m0,
                    a0,
                    frame_numbers(frames@).to_set(),
                    mem@,
                    alloc@,
                ),
                forall|k: int|
                    0 <= k < i ==> mem@.contains(#[trigger] frame_numbers(frames@)[k])
                        && mem@.page(frame_numbers(frames@)[k]) == zero_page(),
                alloc@.available() + i == a0.available(),
            decreases page_count - i,
        {
            let ghost before = frame_numbers(frames@);
            let ghost m1 = mem@;
            let ghost a1 = alloc@;
            proof {
                a1.lemma_alloc_fresh();
                assert forall|q: u64| #[trigger] before.to_set().contains(q) implies a1.is_allocated(
                    q,
                ) by {
                    reveal(changes);
                }
            }
            match Frame::alloc_zeroes(alloc, mem) {
                Some(frame) => {
                    proof {
                        lemma_alloc_changes(before.to_set(), m1, a1, frame.spec_ppn());
                    }
                    let ghost p = frame.spec_ppn();
                    frames.push(frame);
                    proof {
                        let after = frame_numbers(frames@);
                        assert(after =~= before.push(p));
                        assert(after.to_set() =~= before.to_set().insert(p)) by {
                            assert forall|q: u64| after.contains(q) == (before.contains(q) || q
                                == p) by {
                                if before.contains(q) {
                                    let k = choose|k: int| 0 <= k < before.len() && before[k] == q;
                                    assert(after[k] == q);
                                }
                                if after.contains(q) {
                                    let k = choose|k: int| 0 <= k < after.len() && after[k] == q;
                                    if k < before.len() {
                                        assert(before[k] == q);
                                    }
                                }
                                assert(after[before.len() as int] == p);
                            }
                        }
                        assert(!before.contains(p));
                        lemma_changes_trans(
                            Set::<u64>::empty(),
                            m0,
                            a0,
                            before.to_set(),
                            m1,
                            a1,
                            after.to_set(),
                            mem@,
                            alloc@,
                        );
                        assert forall|k: int| 0 <= k < i + 1 implies mem@.contains(
                            #[trigger] after[k],
                        ) && mem@.page(after[k]) == zero_page() by {
                            if k < i {
                                assert(before[k] == after[k]);
                                assert(before.contains(before[k]));
                            }
                        }
                    }
                },
                None => {
                    assert(a1.available() == 0);
                    assert(a0.available() == i);
                    release_frames(frames, mem, alloc, Ghost(Set::<u64>::empty()), Ghost(m0), Ghost(a0));
                    return Err(KernelError::OutOfFrames);
                },
            }
            i += 1;
        }
        let v = VMObjectPaged { frames };
        proof {
            assert(v.pages() =~= frame_numbers(frames@));
            assert forall|k: int| 0 <= k < v.pages().len() implies alloc@.is_allocated(
                #[trigger] v.pages()[k],
            ) by {
                reveal(changes);
                assert(v.pages().to_set().contains(v.pages()[k]));
            }
        }
        Ok(v)
    }

    /// Gives the frames back to the allocator.
    pub fn release(self, mem: &mut PhysMemory, alloc: &mut LinkedStackFrameAllocator)
        requires
            old(mem).wf(),
            old(alloc).wf(old(mem)@),
            self.wf(old(mem)@, old(alloc)@),
        ensures
            final(mem).wf(),
            final(alloc).wf(final(mem)@),
            changes(
                self.pages().to_set(),
                old(mem)@,
                old(alloc)@,
                Set::<u64>::empty(),
                final(mem)@,
                final(alloc)@,
            ),
            final(alloc)@.available() == old(alloc)@.available() + self.pages().len(),
    {
        proof {
            assert forall|q: u64| #[trigger] self.pages().to_set().contains(q) implies alloc@.is_allocated(
                q,
            ) by {
                let k = choose|k: int| 0 <= k < self.pages().len() && self.pages()[k] == q;
                assert(alloc@.is_allocated(self.pages()[k]));
            }
            lemma_changes_refl(self.pages().to_set(), mem@, alloc@);
        }
        release_frames(
            self.frames,
            mem,
            alloc,
            Ghost(self.pages().to_set()),
            Ghost(mem@),
            Ghost(alloc@),
        );
    }
}

impl VMObject for VMObjectPaged {
    closed spec fn pages(&self) -> Seq<u64> {
        frame_numbers(self.frames@)
    }

    fn page_count(&self) -> (n: usize) {
        self.frames.len()
    }

    fn get_page(&self, page_index: usize) -> (r: Option<PhysPageNum>) {
        if page_index < self.frames.len() {
            Some(self.frames[page_index].ppn())
        } else {
            None
        }
    }
}

/// A memory object of either kind, as a mapping holds it.
pub enum Vmo {
    /// Pages that the object does not own.
    Physical(VMObjectPhysical),
    /// Frames that the object owns.
    Paged(VMObjectPaged),
}

impl VMObject for Vmo {
    open spec fn pages(&self) -> Seq<u64> {
        match self {
            Vmo::Physical(v) => v.pages(),
            Vmo::Paged(v) => v.pages(),
        }
    }

    fn page_count(&self) -> (n: usize) {
        match self {
            Vmo::Physical(v) => v.page_count(),
            Vmo::Paged(v) => v.page_count(),
        }
    }

    fn get_page(&self, page_index: usize) -> (r: Option<PhysPageNum>) {
        match self {
            Vmo::Physical(v) => v.get_page(page_index),
            Vmo::Paged(v) => v.get_page(page_index),
        }
    }
}

impl Vmo {
    /// Whether the object owns its frames.
    pub open spec fn is_paged(&self) -> bool {
        self is Paged
    }

    /// The frames that the object owns.
    pub open spec fn owned(&self) -> Set<u64> {
        if self.is_paged() {
            self.pages().to_set()
        } else {
            Set::empty()
        }
    }

    /// The pages are distinct pages of RAM; frames that the object owns
    /// are handed out.
    pub open spec fn wf(&self, m: MemoryView, a: FrameAllocatorView) -> bool {
        &&& pages_in(self.pages(), m)
        &&& self.is_paged() ==> forall|i: int|
            0 <= i < self.pages().len() ==> a.is_allocated(#[trigger] self.pages()[i])
    }

    /// Whether the object owns its frames.
    pub fn paged(&self) -> (b: bool)
        ensures
            b == self.is_paged(),
    {
        match self {
            Vmo::Physical(_) => false,
            Vmo::Paged(_) => true,
        }
    }

    /// Gives up the object: frames that it owns go back to the allocator.
    pub fn release(self, mem: &mut PhysMemory, alloc: &mut LinkedStackFrameAllocator)
        requires
            old(mem).wf(),
            old(alloc).wf(old(mem)@),
            self.wf(old(mem)@, old(alloc)@),
        ensures
            final(mem).wf(),
            final(alloc).wf(final(mem)@),
            changes(
                self.owned(),
                old(mem)@,
                old(alloc)@,
                Set::<u64>::empty(),
                final(mem)@,
                final(alloc)@,
            ),
            final(alloc)@.available() >= old(alloc)@.available(),
    {
        match self {
            Vmo::Physical(_) => {
                proof {
                    lemma_changes_refl(Set::<u64>::empty(), mem@, alloc@);
                }
            },
            Vmo::Paged(v) => {
                v.release(mem, alloc);
            },
        }
    }
}

} // verus!
