//! Address spaces: a page table and the list of mappings that it carries
//! out.

use vstd::prelude::*;
use vstd::slice::slice_subrange;
use crate::error::{failure, KernelError};
use super::addr::{Addr, PhysPageNum, VirtAddr, VirtPageNum, PAGE_SIZE, PAGE_SIZE_U64, VPN_LIMIT};
use super::frame::{
    changes, lemma_changes_lift, lemma_changes_other, lemma_changes_refl, lemma_changes_shape,
    lemma_changes_trans, FrameAllocatorView, LinkedStackFrameAllocator,
};
use super::memory::{MemoryView, PhysMemory};
use super::page_table::{
    depth, depth_beside, depths, lemma_tables_needed, lemma_tables_needed_same,
    mapped_depths, page_tables_needed, range_depth, same_depths, tables_needed,
    tables_needed_by,
    extends, lemma_extends_changes, lemma_extends_refl, lemma_extends_trans, translate, PageTable,
    PageTableEntry, PTEFlags, RawPageTable,
};
use super::vmo::{contents, lemma_store_written, pages_in, store, Vmo, VMObject, VMObjectPaged};

verus! {

/// A mapping as a mathematical value.
pub struct MappingView {
    /// The flag byte of its page-table entries, without the valid flag.
    pub flags: u8,
    /// The first virtual page.
    pub base_vpn: u64,
    /// The number of virtual pages.
    pub page_count: nat,
    /// The page of the memory object that the first virtual page shows.
    pub vmo_page_offset: nat,
    /// The physical pages of the memory object.
    pub pages: Seq<u64>,
    /// Whether the memory object owns its frames.
    pub paged: bool,
}

impl MappingView {
    /// The memory object is well formed and holds the pages that the
    /// mapping shows, and the virtual range lies in the address space.
    pub open spec fn wf(self, m: MemoryView, a: FrameAllocatorView) -> bool {
        &&& pages_in(self.pages, m)
        &&& self.vmo_page_offset + self.page_count <= self.pages.len()
        &&& self.base_vpn + self.page_count <= VPN_LIMIT
        &&& self.paged ==> forall|i: int|
            0 <= i < self.pages.len() ==> a.is_allocated(#[trigger] self.pages[i])
    }

    /// Whether virtual page `vpn` lies in the range of the mapping.
    pub open spec fn covers(self, vpn: u64) -> bool {
        self.base_vpn <= vpn < self.base_vpn + self.page_count
    }

    /// Whether the mapping carries every flag of `flags`.
    pub open spec fn allows(self, flags: u8) -> bool {
        self.flags & flags == flags
    }

    /// The physical page that virtual page `vpn` shows.
    pub open spec fn frame_of(self, vpn: u64) -> u64 {
        self.pages[self.vmo_page_offset + (vpn - self.base_vpn)]
    }

    /// The page-table entry of virtual page `vpn`.
    pub open spec fn entry(self, vpn: u64) -> PageTableEntry {
        PageTableEntry::spec_new(self.frame_of(vpn), self.flags | 1)
    }

    /// The frames that the mapping owns through its memory object.
    pub open spec fn owned(self) -> Set<u64> {
        if self.paged {
            self.pages.to_set()
        } else {
            Set::empty()
        }
    }
}

/// Whether the virtual ranges of two mappings intersect, by the test that
/// guards every new mapping.
pub open spec fn overlaps(a: MappingView, b: MappingView) -> bool {
    a.base_vpn < b.base_vpn + b.page_count && b.base_vpn < a.base_vpn + a.page_count
}

/// The entry that the page table must hold for `vpn`: that of the last
/// mapping in the list that covers it.
pub open spec fn expected(views: Seq<MappingView>, vpn: u64) -> Option<PageTableEntry>
    decreases views.len(),
{
    if views.len() == 0 {
        None
    } else if views.last().covers(vpn) {
        Some(views.last().entry(vpn))
    } else {
        expected(views.drop_last(), vpn)
    }
}

/// The position of the first mapping from position `from` on that covers
/// `vpn` and carries the flags `flags`.
pub open spec fn find_from(views: Seq<MappingView>, vpn: u64, flags: u8, from: int) -> Option<int>
    decreases views.len() - from,
{
    if from < 0 || from >= views.len() {
        None
    } else if views[from].allows(flags) && views[from].covers(vpn) {
        Some(from)
    } else {
        find_from(views, vpn, flags, from + 1)
    }
}

/// The position of the first mapping that covers `vpn` and carries the
/// flags `flags`.
pub open spec fn find_spec(views: Seq<MappingView>, vpn: u64, flags: u8) -> Option<int> {
    find_from(views, vpn, flags, 0)
}

/// The frames that the mappings own through their memory objects.
pub open spec fn views_owned(views: Seq<MappingView>) -> Set<u64> {
    Set::new(
        |p: u64| exists|k: int| 0 <= k < views.len() && #[trigger] views[k].owned().contains(p),
    )
}

/// The mappings are well formed, their virtual ranges do not intersect,
/// and no frame is owned by two of them.
pub open spec fn views_wf(views: Seq<MappingView>, m: MemoryView, a: FrameAllocatorView) -> bool {
    &&& forall|k: int| 0 <= k < views.len() ==> (#[trigger] views[k]).wf(m, a)
    &&& forall|k: int, l: int|
        0 <= k < l < views.len() ==> !overlaps(#[trigger] views[k], #[trigger] views[l])
    &&& forall|k: int, l: int, p: u64|
        0 <= k < l < views.len() ==> !(#[trigger] views[k].owned().contains(p)
            && #[trigger] views[l].owned().contains(p))
}

/// The page-table entries of `n` virtual pages from `base` on that show
/// the pages of an object from page `offset` on.
pub open spec fn range_entries(base: u64, pages: Seq<u64>, offset: int, flags: u8, n: int) -> Map<
    u64,
    PageTableEntry,
> {
    Map::new(
        |v: u64| base <= v < base + n,
        |v: u64| PageTableEntry::spec_new(pages[offset + (v - base)], flags | 1),
    )
}

/// The translations `t` without those of `n` virtual pages from `base` on.
pub open spec fn without_range(t: Map<u64, PageTableEntry>, base: u64, n: int) -> Map<
    u64,
    PageTableEntry,
> {
    Map::new(|v: u64| t.dom().contains(v) && !(base <= v < base + n), |v: u64| t[v])
}

/// Takes the translations of `count` virtual pages from `base_vpn` on out
/// of the page table. All of them must exist.
fn unmap_range(
    pt: &mut RawPageTable,
    mem: &mut PhysMemory,
    alloc: &mut LinkedStackFrameAllocator,
    base_vpn: VirtPageNum,
    count: usize,
)
    requires
        old(mem).wf(),
        old(alloc).wf(old(mem)@),
        old(pt).wf(old(mem)@, old(alloc)@),
        base_vpn.0 + count <= VPN_LIMIT,
        forall|v: u64|
            base_vpn.0 <= v < base_vpn.0 + count ==> old(pt).mappings(old(mem)@).dom().contains(v),
    ensures
        final(mem).wf(),
        final(alloc).wf(final(mem)@),
        final(pt).wf(final(mem)@, final(alloc)@),
        final(pt).spec_root() == old(pt).spec_root(),
        final(pt).tables() == old(pt).tables(),
        final(alloc)@ == old(alloc)@,
        extends(
            old(pt).frames(),
            old(mem)@,
            old(alloc)@,
            final(pt).frames(),
            final(mem)@,
            final(alloc)@,
        ),
        final(pt).mappings(final(mem)@) == without_range(
            old(pt).mappings(old(mem)@),
            base_vpn.0,
            count as int,
        ),
        same_depths(old(mem)@, final(mem)@, old(pt).spec_root()),
{
    let ghost m0 = mem@;
    let ghost a0 = alloc@;
    let ghost t0 = old(pt).mappings(m0);
    let ghost f0 = pt.frames();
    proof {
        lemma_extends_refl(f0, m0, a0);
        assert(t0 =~= without_range(t0, base_vpn.0, 0));
    }
    let mut i: usize = 0;
    while i < count
        invariant
            i <= count,
            base_vpn.0 + count <= VPN_LIMIT,
            mem.wf(),
            alloc.wf(mem@),
            pt.wf(mem@, alloc@),
            pt.spec_root() == old(pt).spec_root(),
            pt.tables() == old(pt).tables(),
            alloc@ == a0,
            f0 == old(pt).frames(),
            extends(f0, m0, a0, pt.frames(), mem@, alloc@),
            pt.mappings(mem@) == without_range(t0, base_vpn.0, i as int),
            forall|v: u64| base_vpn.0 <= v < base_vpn.0 + count ==> t0.dom().contains(v),
            m0 == old(mem)@,
            same_depths(m0, mem@, pt.spec_root()),
        decreases count - i,
    {
        let vpn = VirtPageNum(base_vpn.0 + i as u64);
        let ghost m1 = mem@;
        let ghost before = pt.mappings(m1);
        assert(before.dom().contains(vpn.0));
        pt.unmap(mem, alloc, vpn);
        proof {
            lemma_extends_trans(f0, m0, a0, pt.frames(), m1, a0, pt.frames(), mem@, alloc@);
            assert(pt.mappings(mem@) =~= without_range(t0, base_vpn.0, i + 1));
        }
        i += 1;
    }
}

/// Makes `count` virtual pages from `base_vpn` on translate to the pages of
/// `vmo` from page `offset` on. None of them may be translated yet. When
/// the allocator runs out on the way, the translations made so far are
/// taken back and the result is `OutOfFrames`.
fn map_range(
    pt: &mut RawPageTable,
    mem: &mut PhysMemory,
    alloc: &mut LinkedStackFrameAllocator,
    base_vpn: VirtPageNum,
    count: usize,
    vmo: &Vmo,
    offset: usize,
    flags: PTEFlags,
) -> (r: Result<(), KernelError>)
    requires
        old(mem).wf(),
        old(alloc).wf(old(mem)@),
        old(pt).wf(old(mem)@, old(alloc)@),
        base_vpn.0 + count <= VPN_LIMIT,
        offset + count <= vmo.pages().len(),
        forall|v: u64|
            base_vpn.0 <= v < base_vpn.0 + count ==> !old(pt).mappings(old(mem)@).dom().contains(v),
    ensures
        final(mem).wf(),
        final(alloc).wf(final(mem)@),
        final(pt).wf(final(mem)@, final(alloc)@),
        final(pt).spec_root() == old(pt).spec_root(),
        extends(
            old(pt).frames(),
            old(mem)@,
            old(alloc)@,
            final(pt).frames(),
            final(mem)@,
            final(alloc)@,
        ),
        r.is_ok() ==> final(pt).mappings(final(mem)@) == old(pt).mappings(
            old(mem)@,
        ).union_prefer_right(
            range_entries(base_vpn.0, vmo.pages(), offset as int, flags@, count as int),
        ),
        r.is_err() ==> {
            &&& r == Err::<(), KernelError>(KernelError::OutOfFrames)
            &&& final(pt).mappings(final(mem)@) == old(pt).mappings(old(mem)@)
        },
        r.is_ok() <==> old(alloc)@.available() >= tables_needed(
            old(mem)@,
            old(pt).spec_root(),
            base_vpn.0,
            count as int,
        ),
        r.is_ok() ==> final(alloc)@.available() == old(alloc)@.available() - tables_needed(
            old(mem)@,
            old(pt).spec_root(),
            base_vpn.0,
            count as int,
        ),
        r.is_ok() ==> forall|v: u64|
            v < VPN_LIMIT ==> #[trigger] depth(final(mem)@, final(pt).spec_root(), v)
                == range_depth(
                depth(old(mem)@, old(pt).spec_root(), v),
                v,
                base_vpn.0,
                count as int,
            ),
{
    let ghost m0 = mem@;
    let ghost a0 = alloc@;
    let ghost t0 = old(pt).mappings(m0);
    let ghost f0 = pt.frames();
    let ghost pages = vmo.pages();
    let ghost root = pt.spec_root();
    let total: usize = vmo.page_count();
    proof {
        lemma_extends_refl(f0, m0, a0);
        assert(t0 =~= t0.union_prefer_right(
            range_entries(base_vpn.0, pages, offset as int, flags@, 0),
        ));
    }
    let mut i: usize = 0;
    while i < count
        invariant
            i <= count,
            base_vpn.0 + count <= VPN_LIMIT,
            offset + count <= vmo.pages().len(),
            vmo.pages().len() <= usize::MAX,
            pages == vmo.pages(),
            mem.wf(),
            alloc.wf(mem@),
            pt.wf(mem@, alloc@),
            pt.spec_root() == old(pt).spec_root(),
            f0 == old(pt).frames(),
            m0 == old(mem)@,
            a0 == old(alloc)@,
            t0 == old(pt).mappings(m0),
            extends(f0, m0, a0, pt.frames(), mem@, alloc@),
            pt.mappings(mem@) == t0.union_prefer_right(
                range_entries(base_vpn.0, pages, offset as int, flags@, i as int),
            ),
            forall|v: u64| base_vpn.0 <= v < base_vpn.0 + count ==> !t0.dom().contains(v),
            root == pt.spec_root(),
            alloc@.available() == a0.available() - tables_needed(m0, root, base_vpn.0, i as int),
            forall|v: u64|
                v < VPN_LIMIT ==> #[trigger] depth(mem@, root, v) == range_depth(
                    depth(m0, root, v),
                    v,
                    base_vpn.0,
                    i as int,
                ),
            forall|v: u64|
                base_vpn.0 + i <= v < base_vpn.0 + count ==> #[trigger] depth(mem@, root, v) == (
                if i == 0 {
                    depth(m0, root, v)
                } else {
                    depth_beside(depth(m0, root, v), v, (base_vpn.0 + i - 1) as u64, 2)
                }),
        decreases count - i,
    {
        let vpn = VirtPageNum(base_vpn.0 + i as u64);
        proof {
            lemma_tables_needed(m0, root, base_vpn.0, i as int, i + 1);
            lemma_tables_needed(m0, root, base_vpn.0, i + 1, count as int);
            assert(2 - depth(mem@, root, vpn.0) == page_tables_needed(
                depths(m0, root),
                base_vpn.0,
                i as int,
            ));
        }
        let ppn = vmo.get_page(offset + i).unwrap();
        let ghost m1 = mem@;
        let ghost a1 = alloc@;
        let ghost f1 = pt.frames();
        let ghost before = pt.mappings(m1);
        assert(!before.dom().contains(vpn.0));
        match pt.map(mem, alloc, vpn, ppn, flags) {
            Ok(()) => {
                proof {
                    lemma_extends_trans(f0, m0, a0, f1, m1, a1, pt.frames(), mem@, alloc@);
                    assert(pt.mappings(mem@) =~= t0.union_prefer_right(
                        range_entries(base_vpn.0, pages, offset as int, flags@, i + 1),
                    ));
                    assert forall|v: u64|
                        base_vpn.0 + i + 1 <= v < base_vpn.0 + count implies #[trigger] depth(
                        mem@,
                        root,
                        v,
                    ) == depth_beside(depth(m0, root, v), v, vpn.0, 2) by {
                        assert(depth(mem@, root, v) == depth_beside(
                            depth(m1, root, v),
                            v,
                            vpn.0,
                            2,
                        ));
                    }
                }
            },
            Err(_) => {
                let ghost m2 = mem@;
                let ghost a2 = alloc@;
                let ghost f2 = pt.frames();
                proof {
                    lemma_extends_trans(f0, m0, a0, f1, m1, a1, f2, m2, a2);
                }
                unmap_range(pt, mem, alloc, base_vpn, i);
                proof {
                    lemma_extends_trans(f0, m0, a0, f2, m2, a2, pt.frames(), mem@, alloc@);
                    assert(pt.mappings(mem@) =~= t0);
                }
                return Err(KernelError::OutOfFrames);
            },
        }
        i += 1;
    }
    Ok(())
}

/// Where the page table must hold an entry for `vpn`, a mapping covers
/// `vpn`.
pub proof fn lemma_expected_covered(views: Seq<MappingView>, vpn: u64)
    requires
        expected(views, vpn).is_some(),
    ensures
        exists|k: int| 0 <= k < views.len() && (#[trigger] views[k]).covers(vpn),
    decreases views.len(),
{
    if views.len() > 0 {
        if views.last().covers(vpn) {
            assert(views[views.len() - 1].covers(vpn));
        } else {
            lemma_expected_covered(views.drop_last(), vpn);
            let k = choose|k: int|
                0 <= k < views.drop_last().len() && (#[trigger] views.drop_last()[k]).covers(vpn);
            assert(views[k].covers(vpn));
        }
    }
}

/// Where no mapping covers `vpn`, the page table must hold no entry for
/// it.
pub proof fn lemma_expected_none(views: Seq<MappingView>, vpn: u64)
    requires
        forall|k: int| 0 <= k < views.len() ==> !(#[trigger] views[k]).covers(vpn),
    ensures
        expected(views, vpn).is_none(),
    decreases views.len(),
{
    if views.len() > 0 {
        assert(!views[views.len() - 1].covers(vpn));
        assert forall|k: int| 0 <= k < views.drop_last().len() implies !(
        #[trigger] views.drop_last()[k]).covers(vpn) by {
            assert(views.drop_last()[k] == views[k]);
        }
        lemma_expected_none(views.drop_last(), vpn);
    }
}

/// Among mappings whose ranges do not intersect, the page table must hold
/// for `vpn` the entry of the mapping that covers it.
pub proof fn lemma_expected_at(views: Seq<MappingView>, k: int, vpn: u64)
    requires
        0 <= k < views.len(),
        views[k].covers(vpn),
        forall|i: int, j: int|
            0 <= i < j < views.len() ==> !overlaps(#[trigger] views[i], #[trigger] views[j]),
    ensures
        expected(views, vpn) == Some(views[k].entry(vpn)),
    decreases views.len(),
{
    let last = views.len() - 1;
    if k == last {
    } else {
        assert(!overlaps(views[k], views[last]));
        assert(!views.last().covers(vpn));
        assert forall|i: int, j: int| 0 <= i < j < views.drop_last().len() implies !overlaps(
            #[trigger] views.drop_last()[i],
            #[trigger] views.drop_last()[j],
        ) by {
            assert(views.drop_last()[i] == views[i]);
            assert(views.drop_last()[j] == views[j]);
        }
        assert(views.drop_last()[k] == views[k]);
        lemma_expected_at(views.drop_last(), k, vpn);
    }
}

/// Among mappings whose ranges do not intersect, taking one away takes
/// away the entries of the pages that it covers and no other.
pub proof fn lemma_expected_remove(views: Seq<MappingView>, k: int, vpn: u64)
    requires
        0 <= k < views.len(),
        forall|i: int, j: int|
            0 <= i < j < views.len() ==> !overlaps(#[trigger] views[i], #[trigger] views[j]),
    ensures
        expected(views.remove(k), vpn) == (if views[k].covers(vpn) {
            None
        } else {
            expected(views, vpn)
        }),
{
    let rest = views.remove(k);
    assert forall|i: int, j: int| 0 <= i < j < rest.len() implies !overlaps(
        #[trigger] rest[i],
        #[trigger] rest[j],
    ) by {
        let i0 = if i < k {
            i
        } else {
            i + 1
        };
        let j0 = if j < k {
            j
        } else {
            j + 1
        };
        assert(rest[i] == views[i0] && rest[j] == views[j0]);
    }
    if views[k].covers(vpn) {
        assert forall|i: int| 0 <= i < rest.len() implies !(#[trigger] rest[i]).covers(vpn) by {
            let i0 = if i < k {
                i
            } else {
                i + 1
            };
            assert(rest[i] == views[i0]);
            if i0 < k {
                assert(!overlaps(views[i0], views[k]));
            } else {
                assert(!overlaps(views[k], views[i0]));
            }
        }
        lemma_expected_none(rest, vpn);
    } else if exists|j: int| 0 <= j < views.len() && (#[trigger] views[j]).covers(vpn) {
        let j = choose|j: int| 0 <= j < views.len() && (#[trigger] views[j]).covers(vpn);
        lemma_expected_at(views, j, vpn);
        let j1 = if j < k {
            j
        } else {
            j - 1
        };
        assert(rest[j1] == views[j]);
        lemma_expected_at(rest, j1, vpn);
    } else {
        lemma_expected_none(views, vpn);
        assert forall|i: int| 0 <= i < rest.len() implies !(#[trigger] rest[i]).covers(vpn) by {
            let i0 = if i < k {
                i
            } else {
                i + 1
            };
            assert(rest[i] == views[i0]);
        }
        lemma_expected_none(rest, vpn);
    }
}

/// Taking a mapping out of well-formed mappings leaves well-formed
/// mappings, which own what the mappings owned but for what the one taken
/// out owned.
pub proof fn lemma_views_remove(
    views: Seq<MappingView>,
    k: int,
    m: MemoryView,
    a: FrameAllocatorView,
)
    requires
        0 <= k < views.len(),
        views_wf(views, m, a),
    ensures
        views_wf(views.remove(k), m, a),
        views_owned(views) == views_owned(views.remove(k)).union(views[k].owned()),
        forall|p: u64| #[trigger]
            views[k].owned().contains(p) ==> !views_owned(views.remove(k)).contains(p),
{
    let rest = views.remove(k);
    assert forall|i: int| 0 <= i < rest.len() implies (#[trigger] rest[i]).wf(m, a) by {
        let i0 = if i < k {
            i
        } else {
            i + 1
        };
        assert(rest[i] == views[i0]);
    }
    assert forall|i: int, j: int| 0 <= i < j < rest.len() implies !overlaps(
        #[trigger] rest[i],
        #[trigger] rest[j],
    ) by {
        let i0 = if i < k {
            i
        } else {
            i + 1
        };
        let j0 = if j < k {
            j
        } else {
            j + 1
        };
        assert(rest[i] == views[i0] && rest[j] == views[j0]);
    }
    assert forall|i: int, j: int, p: u64| 0 <= i < j < rest.len() implies !(
    #[trigger] rest[i].owned().contains(p) && #[trigger] rest[j].owned().contains(p)) by {
        let i0 = if i < k {
            i
        } else {
            i + 1
        };
        let j0 = if j < k {
            j
        } else {
            j + 1
        };
        assert(rest[i] == views[i0] && rest[j] == views[j0]);
        assert(!(views[i0].owned().contains(p) && views[j0].owned().contains(p)));
    }
    assert forall|p: u64|
        views_owned(views).contains(p) == (views_owned(rest).contains(p)
            || views[k].owned().contains(p)) by {
        if views_owned(views).contains(p) {
            let j = choose|j: int| 0 <= j < views.len() && #[trigger] views[j].owned().contains(p);
            if j != k {
                let j1 = if j < k {
                    j
                } else {
                    j - 1
                };
                assert(rest[j1] == views[j]);
                assert(rest[j1].owned().contains(p));
            }
        }
        if views_owned(rest).contains(p) {
            let j = choose|j: int| 0 <= j < rest.len() && #[trigger] rest[j].owned().contains(p);
            let j0 = if j < k {
                j
            } else {
                j + 1
            };
            assert(rest[j] == views[j0]);
            assert(views[j0].owned().contains(p));
        }
        if views[k].owned().contains(p) {
            assert(views_owned(views).contains(p));
        }
    }
    assert(views_owned(views) =~= views_owned(rest).union(views[k].owned()));
    assert forall|p: u64| #[trigger] views[k].owned().contains(p) implies !views_owned(
        rest,
    ).contains(p) by {
        if views_owned(rest).contains(p) {
            let j = choose|j: int| 0 <= j < rest.len() && #[trigger] rest[j].owned().contains(p);
            let j0 = if j < k {
                j
            } else {
                j + 1
            };
            assert(rest[j] == views[j0]);
            if j0 < k {
                assert(!(views[j0].owned().contains(p) && views[k].owned().contains(p)));
            } else {
                assert(!(views[k].owned().contains(p) && views[j0].owned().contains(p)));
            }
        }
    }
}

/// Every mapping that is left when those of a user program are taken away
/// was there before and is not one of a user program.
pub proof fn lemma_without_user(views: Seq<MappingView>)
    ensures
        without_user(views).len() <= views.len(),
        forall|k: int|
            0 <= k < without_user(views).len() ==> views.contains(#[trigger] without_user(views)[k])
                && !without_user(views)[k].allows(PTEFlags::U),
    decreases views.len(),
{
    if views.len() > 0 {
        let rest = views.drop_first();
        lemma_without_user(rest);
        let out = without_user(views);
        assert forall|k: int| 0 <= k < out.len() implies views.contains(#[trigger] out[k])
            && !out[k].allows(PTEFlags::U) by {
            if views[0].allows(PTEFlags::U) {
                let w = without_user(rest)[k];
                assert(rest.contains(w));
                let j = choose|j: int| 0 <= j < rest.len() && rest[j] == w;
                assert(views[j + 1] == w);
            } else if k == 0 {
                assert(views[0] == out[0]);
            } else {
                let w = without_user(rest)[k - 1];
                assert(rest.contains(w));
                let j = choose|j: int| 0 <= j < rest.len() && rest[j] == w;
                assert(views[j + 1] == w);
            }
        }
    }
}

/// Two mappings at the head of the list that are not those of a user
/// program stay at the head when those of a user program are taken away.
pub proof fn lemma_without_user_head(views: Seq<MappingView>)
    requires
        views.len() >= 2,
        !views[0].allows(PTEFlags::U),
        !views[1].allows(PTEFlags::U),
    ensures
        without_user(views).len() >= 2,
        without_user(views)[0] == views[0],
        without_user(views)[1] == views[1],
{
    let rest = views.drop_first();
    assert(rest[0] == views[1]);
    assert(without_user(views) == seq![views[0]] + without_user(rest));
    assert(without_user(rest) == seq![rest[0]] + without_user(rest.drop_first()));
}

/// Whether a mapping is the one that an unmapping of `page_count` pages at
/// `base_vpn` asks for.
pub open spec fn unmap_matches(
    view: MappingView,
    base_vpn: u64,
    page_count: nat,
    require_user: bool,
) -> bool {
    &&& view.base_vpn == base_vpn
    &&& view.page_count == page_count
    &&& require_user ==> view.allows(PTEFlags::U)
}

/// The position of the first mapping from `from` on that an unmapping asks
/// for.
pub open spec fn unmap_find(
    views: Seq<MappingView>,
    base_vpn: u64,
    page_count: nat,
    require_user: bool,
    from: int,
) -> Option<int>
    decreases views.len() - from,
{
    if from < 0 || from >= views.len() {
        None
    } else if unmap_matches(views[from], base_vpn, page_count, require_user) {
        Some(from)
    } else {
        unmap_find(views, base_vpn, page_count, require_user, from + 1)
    }
}

/// The mappings without those that carry the user flag.
pub open spec fn without_user(views: Seq<MappingView>) -> Seq<MappingView>
    decreases views.len(),
{
    if views.len() == 0 {
        views
    } else if views[0].allows(PTEFlags::U) {
        without_user(views.drop_first())
    } else {
        seq![views[0]] + without_user(views.drop_first())
    }
}

/// What reading and writing need of the mappings: each shows pages that
/// its object has, inside the virtual address space, and no two virtual
/// ranges intersect.
pub open spec fn views_shape(views: Seq<MappingView>, m: MemoryView) -> bool {
    &&& forall|k: int|
        0 <= k < views.len() ==> {
            &&& pages_in((#[trigger] views[k]).pages, m)
            &&& views[k].vmo_page_offset + views[k].page_count <= views[k].pages.len()
            &&& views[k].base_vpn + views[k].page_count <= VPN_LIMIT
        }
    &&& forall|k: int, l: int|
        0 <= k < l < views.len() ==> !overlaps(#[trigger] views[k], #[trigger] views[l])
}

/// Where the byte at virtual address `va` lies for an access that needs the
/// flags `flags`: the physical page and the offset in it.
pub open spec fn locate(views: Seq<MappingView>, va: int, flags: u8) -> Option<(u64, int)> {
    if va < 0 || va > u64::MAX {
        None
    } else {
        match find_spec(views, (va / PAGE_SIZE as int) as u64, flags) {
            Some(k) => Some(
                (views[k].frame_of((va / PAGE_SIZE as int) as u64), va % PAGE_SIZE as int),
            ),
            None => None,
        }
    }
}

/// The byte at virtual address `va` for an access that needs the flags
/// `flags`; `None` where no mapping that carries them covers the address.
pub open spec fn byte_at(views: Seq<MappingView>, m: MemoryView, va: int, flags: u8) -> Option<u8> {
    match locate(views, va, flags) {
        Some((p, o)) => Some(m.page(p)[o]),
        None => None,
    }
}

/// Whether `name` is the run of bytes that a user program can read at the
/// virtual address `va`, up to the first zero byte or the first byte that
/// it cannot read.
pub open spec fn cstr_at(views: Seq<MappingView>, m: MemoryView, va: int, name: Seq<u8>) -> bool {
    let flags = access_flags(PTEFlags::R, true);
    &&& forall|x: int|
        0 <= x < name.len() ==> byte_at(views, m, va + x, flags) == Some(#[trigger] name[x])
            && name[x] != 0
    &&& byte_at(views, m, va + name.len(), flags) matches Some(b) ==> b == 0
}

/// There is one run of bytes at most that a user program can read at an
/// address up to the first zero byte or the first byte that it cannot
/// read.
pub proof fn lemma_cstr_unique(
    views: Seq<MappingView>,
    m: MemoryView,
    va: int,
    a: Seq<u8>,
    b: Seq<u8>,
)
    requires
        cstr_at(views, m, va, a),
        cstr_at(views, m, va, b),
    ensures
        a == b,
{
    let flags = access_flags(PTEFlags::R, true);
    if a.len() < b.len() {
        assert(byte_at(views, m, va + a.len(), flags) == Some(b[a.len() as int]));
        assert(b[a.len() as int] != 0);
    }
    if b.len() < a.len() {
        assert(byte_at(views, m, va + b.len(), flags) == Some(a[b.len() as int]));
        assert(a[b.len() as int] != 0);
    }
    assert forall|x: int| 0 <= x < a.len() implies a[x] == b[x] by {
        assert(byte_at(views, m, va + x, flags) == Some(a[x]));
        assert(byte_at(views, m, va + x, flags) == Some(b[x]));
    }
    assert(a =~= b);
}

/// Memory after the bytes `data` were stored, one after the other, at the
/// virtual addresses from `va` on.
pub open spec fn put(
    m: MemoryView,
    views: Seq<MappingView>,
    va: int,
    flags: u8,
    data: Seq<u8>,
) -> MemoryView
    decreases data.len(),
{
    if data.len() == 0 {
        m
    } else {
        let before = put(m, views, va, flags, data.drop_last());
        match locate(views, va + data.len() - 1, flags) {
            Some((p, o)) => before.set_byte(p, o, data.last()),
            None => before,
        }
    }
}

/// Storing two runs of bytes, the second behind the first, is storing
/// their concatenation.
pub proof fn lemma_put_append(
    m: MemoryView,
    views: Seq<MappingView>,
    va: int,
    flags: u8,
    d1: Seq<u8>,
    d2: Seq<u8>,
)
    ensures
        put(put(m, views, va, flags, d1), views, va + d1.len(), flags, d2) == put(
            m,
            views,
            va,
            flags,
            d1 + d2,
        ),
    decreases d2.len(),
{
    if d2.len() == 0 {
        assert(d1 + d2 =~= d1);
    } else {
        lemma_put_append(m, views, va, flags, d1, d2.drop_last());
        assert((d1 + d2).drop_last() =~= d1 + d2.drop_last());
        assert((d1 + d2).last() == d2.last());
    }
}

/// What the search from `from` on finds is the first mapping from there on
/// that covers the page and carries the flags.
pub proof fn lemma_find_from(views: Seq<MappingView>, vpn: u64, flags: u8, from: int)
    requires
        0 <= from,
    ensures
        find_from(views, vpn, flags, from) matches Some(k) ==> from <= k < views.len()
            && views[k].allows(flags) && views[k].covers(vpn),
        find_from(views, vpn, flags, from).is_none() ==> forall|j: int|
            from <= j < views.len() ==> !((#[trigger] views[j]).allows(flags) && views[j].covers(
                vpn,
            )),
    decreases views.len() - from,
{
    if from < views.len() {
        if views[from].allows(flags) && views[from].covers(vpn) {
        } else {
            lemma_find_from(views, vpn, flags, from + 1);
        }
    }
}

/// A byte in the range of a mapping that carries the flags lies in the
/// page of the object that the mapping shows there.
pub proof fn lemma_locate_in_mapping(
    views: Seq<MappingView>,
    m: MemoryView,
    k: int,
    flags: u8,
    va: int,
)
    requires
        views_shape(views, m),
        0 <= k < views.len(),
        views[k].allows(flags),
        views[k].base_vpn * PAGE_SIZE <= va < (views[k].base_vpn + views[k].page_count)
            * PAGE_SIZE,
    ensures
        locate(views, va, flags) == Some(
            (
                views[k].pages[views[k].vmo_page_offset + va / PAGE_SIZE as int
                    - views[k].base_vpn],
                va % PAGE_SIZE as int,
            ),
        ),
        0 <= views[k].vmo_page_offset + va / PAGE_SIZE as int - views[k].base_vpn
            < views[k].pages.len(),
        m.contains(
            views[k].pages[views[k].vmo_page_offset + va / PAGE_SIZE as int - views[k].base_vpn],
        ),
{
    let vpn = (va / PAGE_SIZE as int) as u64;
    assert(views[k].covers(vpn));
    lemma_find_from(views, vpn, flags, 0);
    let j = find_spec(views, vpn, flags).unwrap();
    if j < k {
        assert(!overlaps(views[j], views[k]));
    } else if k < j {
        assert(!overlaps(views[k], views[j]));
    }
}

/// Writing into the object of a mapping is storing at the virtual
/// addresses that show those bytes.
pub proof fn lemma_store_is_put(
    m: MemoryView,
    views: Seq<MappingView>,
    shape: MemoryView,
    k: int,
    flags: u8,
    va: int,
    data: Seq<u8>,
)
    requires
        views_shape(views, shape),
        0 <= k < views.len(),
        views[k].allows(flags),
        views[k].base_vpn * PAGE_SIZE <= va,
        va + data.len() <= (views[k].base_vpn + views[k].page_count) * PAGE_SIZE,
    ensures
        store(
            m,
            views[k].pages,
            views[k].vmo_page_offset * PAGE_SIZE + va - views[k].base_vpn * PAGE_SIZE,
            data,
        ) == put(m, views, va, flags, data),
    decreases data.len(),
{
    if data.len() > 0 {
        lemma_store_is_put(m, views, shape, k, flags, va, data.drop_last());
        lemma_locate_in_mapping(views, shape, k, flags, va + data.len() - 1);
    }
}

/// A located byte lies in a page of a mapping that carries the flags.
pub proof fn lemma_locate_page(views: Seq<MappingView>, m: MemoryView, va: int, flags: u8)
    requires
        views_shape(views, m),
        locate(views, va, flags).is_some(),
    ensures
        ({
            let (p, o) = locate(views, va, flags).unwrap();
            &&& m.contains(p)
            &&& 0 <= o < PAGE_SIZE
            &&& exists|k: int, i: int|
                0 <= k < views.len() && (#[trigger] views[k]).allows(flags) && 0 <= i
                    < views[k].pages.len() && (#[trigger] views[k].pages[i]) == p
        }),
{
    let vpn = (va / PAGE_SIZE as int) as u64;
    lemma_find_from(views, vpn, flags, 0);
    let k = find_spec(views, vpn, flags).unwrap();
    let i = views[k].vmo_page_offset + (vpn - views[k].base_vpn);
    assert(pages_in(views[k].pages, m));
    assert(views[k].pages[i] == locate(views, va, flags).unwrap().0);
}

/// Storing bytes at virtual addresses keeps the shape of memory and
/// changes only pages of mappings that carry the flags.
pub proof fn lemma_put_shape(
    m: MemoryView,
    views: Seq<MappingView>,
    va: int,
    flags: u8,
    data: Seq<u8>,
)
    requires
        m.wf(),
        views_shape(views, m),
    ensures
        put(m, views, va, flags, data).wf(),
        put(m, views, va, flags, data).same_shape(m),
        views_shape(views, put(m, views, va, flags, data)),
        forall|p: u64|
            m.contains(p) && !(exists|k: int, i: int|
                0 <= k < views.len() && (#[trigger] views[k]).allows(flags) && 0 <= i
                    < views[k].pages.len() && (#[trigger] views[k].pages[i]) == p)
                ==> #[trigger] put(m, views, va, flags, data).page(p) == m.page(p),
    decreases data.len(),
{
    if data.len() > 0 {
        let before = put(m, views, va, flags, data.drop_last());
        lemma_put_shape(m, views, va, flags, data.drop_last());
        let at = va + data.len() - 1;
        if locate(views, at, flags).is_some() {
            lemma_locate_page(views, m, at, flags);
        }
        let after = put(m, views, va, flags, data);
        assert(after.wf()) by {
            assert forall|i: int| 0 <= i < after.pages.len() implies (#[trigger] after.pages[i]).len()
                == PAGE_SIZE by {
                assert(before.pages[i].len() == PAGE_SIZE);
            }
        }
        assert forall|p: u64|
            m.contains(p) && !(exists|k: int, i: int|
                0 <= k < views.len() && (#[trigger] views[k]).allows(flags) && 0 <= i
                    < views[k].pages.len() && (#[trigger] views[k].pages[i]) == p)
                implies #[trigger] after.page(p) == m.page(p) by {
            assert(before.page(p) == m.page(p));
        }
        assert forall|k: int| 0 <= k < views.len() implies pages_in(
            (#[trigger] views[k]).pages,
            after,
        ) by {
            assert(pages_in(views[k].pages, before));
            assert forall|i: int| 0 <= i < views[k].pages.len() implies after.contains(
                #[trigger] views[k].pages[i],
            ) by {
                assert(before.contains(views[k].pages[i]));
            }
        }
    }
}

/// Whether every mapping that can be written and does not own its pages
/// shows pages outside the range of the allocator.
pub open spec fn confined(views: Seq<MappingView>, a: FrameAllocatorView) -> bool {
    forall|k: int, i: int|
        0 <= k < views.len() && !(#[trigger] views[k]).paged && views[k].allows(PTEFlags::W) && 0
            <= i < views[k].pages.len() ==> !(a.start <= (#[trigger] views[k].pages[i]) < a.end)
}

/// The flags that an access needs: `base`, and the user flag for an access
/// on behalf of a user program.
pub open spec fn access_flags(base: u8, user: bool) -> u8 {
    if user {
        base | PTEFlags::U
    } else {
        base
    }
}

/// The number of pages of a new mapping: the number asked for, or what the
/// object has from the offset on.
pub open spec fn map_count(pages_len: nat, offset: nat, page_count: Option<usize>) -> int {
    match page_count {
        Some(c) => c as int,
        None => pages_len - offset,
    }
}

/// Whether a new mapping reaches past its object or past the virtual
/// address space.
pub open spec fn map_out_of_range(pages_len: nat, offset: nat, count: int, base: u64) -> bool {
    count < 0 || offset + count > pages_len || base + count > VPN_LIMIT
}

/// Whether a mapping of `count` pages at `base` shares a page with one of
/// the mappings `views`.
pub open spec fn clashes(views: Seq<MappingView>, base: u64, count: int) -> bool {
    exists|k: int|
        0 <= k < views.len() && overlaps(
            #[trigger] views[k],
            fresh_view(0, base, count as nat, Seq::empty()),
        )
}

/// How mapping `count` pages of an object at `base`, from page `offset` of
/// the `pages_len` pages of the object on, beside the mappings `views`
/// ends when `available` frames are left and `d` tells how many tables
/// each page has on its way: with `OutOfRange` where the pages reach past
/// the object or the address space, else with `Overlap` where they share a
/// page with a mapping, else with `OutOfFrames` where the frames are fewer
/// than the tables that are missing, and else well.
pub open spec fn map_outcome(
    views: Seq<MappingView>,
    available: int,
    d: spec_fn(u64) -> int,
    pages_len: nat,
    offset: nat,
    base: u64,
    count: int,
) -> Option<KernelError> {
    if map_out_of_range(pages_len, offset, count, base) {
        Some(KernelError::OutOfRange)
    } else if clashes(views, base, count) {
        Some(KernelError::Overlap)
    } else if available < tables_needed_by(d, base, count) {
        Some(KernelError::OutOfFrames)
    } else {
        None
    }
}

/// How mapping `count` fresh pages at `base` beside the mappings `views`
/// ends when `available` frames are left and `d` tells how many tables
/// each page has on its way: with `OutOfRange` where the bytes cannot be
/// counted, else with `OutOfFrames` where the frames are fewer than the
/// pages, else with `OutOfRange` where the pages reach past the address
/// space, else with `Overlap` where they share a page with a mapping, else
/// with `OutOfFrames` where the frames are fewer than the pages and the
/// tables that are missing, and else well.
pub open spec fn fresh_outcome(
    views: Seq<MappingView>,
    available: int,
    d: spec_fn(u64) -> int,
    base: u64,
    count: int,
) -> Option<KernelError> {
    if count * PAGE_SIZE > usize::MAX {
        Some(KernelError::OutOfRange)
    } else if available < count {
        Some(KernelError::OutOfFrames)
    } else if base + count > VPN_LIMIT {
        Some(KernelError::OutOfRange)
    } else if clashes(views, base, count) {
        Some(KernelError::Overlap)
    } else if available < count + tables_needed_by(d, base, count) {
        Some(KernelError::OutOfFrames)
    } else {
        None
    }
}

/// How the copying of the mapping `w` ends beside the mappings `views`,
/// when `available` frames are left and `d` tells how many tables each
/// page has on its way: as the mapping of fresh pages ends where `w` owns
/// its pages, and else as the mapping of its object ends.
pub open spec fn fork_step(
    views: Seq<MappingView>,
    available: int,
    d: spec_fn(u64) -> int,
    w: MappingView,
) -> Option<KernelError> {
    if w.paged {
        fresh_outcome(views, available, d, w.base_vpn, w.page_count as int)
    } else {
        map_outcome(
            views,
            available,
            d,
            w.pages.len(),
            w.vmo_page_offset,
            w.base_vpn,
            w.page_count as int,
        )
    }
}

/// For each page, the number of tables on its way once the first `k` of
/// the mappings `theirs` are copied, where `d` tells the numbers before.
pub open spec fn fork_depths(d: spec_fn(u64) -> int, theirs: Seq<MappingView>, k: int) -> spec_fn(
    u64,
) -> int
    decreases k,
{
    if k <= 0 {
        d
    } else {
        mapped_depths(
            fork_depths(d, theirs, k - 1),
            theirs[k - 1].base_vpn,
            theirs[k - 1].page_count as int,
        )
    }
}

/// The number of frames that copying the first `k` of the mappings
/// `theirs` takes: the pages that they own, and the tables that are
/// missing on the ways to their pages.
pub open spec fn fork_cost(d: spec_fn(u64) -> int, theirs: Seq<MappingView>, k: int) -> int
    decreases k,
{
    if k <= 0 {
        0
    } else {
        fork_cost(d, theirs, k - 1) + (if theirs[k - 1].paged {
            theirs[k - 1].page_count as int
        } else {
            0
        }) + tables_needed_by(
            fork_depths(d, theirs, k - 1),
            theirs[k - 1].base_vpn,
            theirs[k - 1].page_count as int,
        )
    }
}

/// How the copying of the mappings `theirs` beside the mappings `views`
/// ends from the `k`th on, when `available` frames are left before the
/// first and `d` tells how many tables each page has on its way: as the
/// first copying ends that does not end well.
pub open spec fn fork_outcome(
    views: Seq<MappingView>,
    available: int,
    d: spec_fn(u64) -> int,
    theirs: Seq<MappingView>,
    k: int,
) -> Option<KernelError>
    decreases theirs.len() - k,
{
    if k < 0 || k >= theirs.len() {
        None
    } else {
        match fork_step(
            views + theirs.subrange(0, k),
            available - fork_cost(d, theirs, k),
            fork_depths(d, theirs, k),
            theirs[k],
        ) {
            Some(e) => Some(e),
            None => fork_outcome(views, available, d, theirs, k + 1),
        }
    }
}

/// Whether mapping `copy` is what forking makes of mapping `src`: the same
/// virtual pages with the same flags, showing the same pages where the
/// object does not own them, and showing frames of its own with the same
/// bytes where it does.
pub open spec fn forked(
    src: MappingView,
    m0: MemoryView,
    copy: MappingView,
    m1: MemoryView,
) -> bool {
    &&& copy.flags == src.flags
    &&& copy.base_vpn == src.base_vpn
    &&& copy.page_count == src.page_count
    &&& copy.paged == src.paged
    &&& !src.paged ==> copy.pages == src.pages && copy.vmo_page_offset == src.vmo_page_offset
    &&& src.paged ==> {
        &&& copy.vmo_page_offset == 0
        &&& copy.pages.len() == src.page_count
        &&& contents(copy.pages, m1) == contents(src.pages, m0).subrange(
            src.vmo_page_offset * PAGE_SIZE,
            (src.vmo_page_offset + src.page_count) * PAGE_SIZE,
        )
    }
}

/// Memory that keeps the pages of an object keeps its contents.
pub proof fn lemma_contents_frame(pages: Seq<u64>, m0: MemoryView, m1: MemoryView)
    requires
        forall|i: int| 0 <= i < pages.len() ==> m1.page(#[trigger] pages[i]) == m0.page(pages[i]),
    ensures
        contents(pages, m1) == contents(pages, m0),
{
    assert(contents(pages, m1) =~= contents(pages, m0));
}

/// `n` zero bytes.
pub open spec fn zeros(n: int) -> Seq<u8> {
    Seq::new(n as nat, |i: int| 0u8)
}

/// The mapping of `count` pages at `base_vpn` with flags `flags` that shows
/// an object of its own with the pages `pages`.
pub open spec fn fresh_view(flags: u8, base_vpn: u64, count: nat, pages: Seq<u64>) -> MappingView {
    MappingView { flags, base_vpn, page_count: count, vmo_page_offset: 0, pages, paged: true }
}

/// The bytes of a fresh object of `count` pages into which `init` was
/// written at `offset`, as far as it fits.
pub open spec fn fresh_contents(count: int, offset: int, init: Seq<u8>) -> Seq<u8> {
    super::vmo::splice(
        zeros(count * PAGE_SIZE),
        offset,
        init.subrange(0, super::vmo::transfer_len(count, offset, init.len() as int)),
    )
}

/// Mappings with the same ranges clash with the same runs of pages.
pub proof fn lemma_clashes_ranges(a: Seq<MappingView>, b: Seq<MappingView>, base: u64, count: int)
    requires
        a.len() == b.len(),
        forall|j: int|
            0 <= j < a.len() ==> (#[trigger] a[j]).base_vpn == b[j].base_vpn && a[j].page_count
                == b[j].page_count,
    ensures
        clashes(a, base, count) == clashes(b, base, count),
{
    let probe = fresh_view(0, base, count as nat, Seq::empty());
    if clashes(a, base, count) {
        let k = choose|k: int| 0 <= k < a.len() && overlaps(#[trigger] a[k], probe);
        assert(overlaps(b[k], probe));
    }
    if clashes(b, base, count) {
        let k = choose|k: int| 0 <= k < b.len() && overlaps(#[trigger] b[k], probe);
        assert(overlaps(a[k], probe));
    }
}

/// One mapping: a range of virtual pages that shows pages of a memory
/// object.
pub struct VMMapping {
    flags: PTEFlags,
    base_vpn: VirtPageNum,
    page_count: usize,
    vmo_page_offset: usize,
    vmo: Vmo,
}

impl View for VMMapping {
    type V = MappingView;

    closed spec fn view(&self) -> MappingView {
        MappingView {
            flags: self.flags@,
            base_vpn: self.base_vpn.0,
            page_count: self.page_count as nat,
            vmo_page_offset: self.vmo_page_offset as nat,
            pages: self.vmo.pages(),
            paged: self.vmo.is_paged(),
        }
    }
}

impl VMMapping {
    /// The flags of the mapping.
    pub fn flags(&self) -> (f: PTEFlags)
        ensures
            f@ == self@.flags,
    {
        self.flags
    }

    /// The first virtual page.
    pub fn base_vpn(&self) -> (v: VirtPageNum)
        ensures
            v.0 == self@.base_vpn,
    {
        self.base_vpn
    }

    /// The number of virtual pages.
    pub fn page_count(&self) -> (n: usize)
        ensures
            n == self@.page_count,
    {
        self.page_count
    }
}

/// A page table and the mappings that it carries out.
pub struct AddressSpace {
    page_table: PageTable,
    mappings: Vec<VMMapping>,
}

impl AddressSpace {
    /// The mappings, in the order in which they were made.
    pub closed spec fn views(&self) -> Seq<MappingView> {
        Seq::new(self.mappings@.len(), |i: int| self.mappings@[i]@)
    }

    /// The page table.
    pub closed spec fn table(&self) -> RawPageTable {
        self.page_table.raw
    }

    /// The frames that the address space owns: those of its page table and
    /// those of the paged objects that it maps.
    pub open spec fn owned(&self) -> Set<u64> {
        self.table().frames().union(views_owned(self.views()))
    }

    /// The number of frames that the mappings of a user program own beyond
    /// those that the other mappings own: what taking the mappings of a
    /// user program away gives back.
    pub open spec fn user_frames(&self) -> int {
        self.owned().len() - self.table().frames().union(
            views_owned(without_user(self.views())),
        ).len()
    }

    /// The page table is a tree in frames of its own, the mappings are well
    /// formed and apart from each other, and the page table translates
    /// exactly the pages that the mappings cover, each to the page that its
    /// mapping shows.
    pub open spec fn wf(&self, m: MemoryView, a: FrameAllocatorView) -> bool {
        &&& self.table().wf(m, a)
        &&& views_wf(self.views(), m, a)
        &&& forall|p: u64| #[trigger]
            views_owned(self.views()).contains(p) ==> !self.table().frames().contains(p)
        &&& forall|v: u64|
            v < VPN_LIMIT ==> #[trigger] translate(m, self.table().spec_root(), v) == expected(
                self.views(),
                v,
            )
    }

    /// An address space without mappings; `None` when no frame is left for
    /// the root of its page table.
    pub fn new(mem: &mut PhysMemory, alloc: &mut LinkedStackFrameAllocator) -> (r: Option<
        AddressSpace,
    >)
        requires
            old(mem).wf(),
            old(alloc).wf(old(mem)@),
        ensures
            final(mem).wf(),
            final(alloc).wf(final(mem)@),
            r.is_none() ==> final(mem)@ == old(mem)@ && final(alloc)@ == old(alloc)@ && old(alloc)@.allocate().0.is_none(),
            r matches Some(s) ==> {
                &&& s.wf(final(mem)@, final(alloc)@)
                &&& final(alloc)@.available() == old(alloc)@.available() - 1
                &&& forall|v: u64| #[trigger] depth(final(mem)@, s.table().spec_root(), v) == 0
                &&& s.views() == Seq::<MappingView>::empty()
                &&& changes(
                    Set::<u64>::empty(),
                    old(mem)@,
                    old(alloc)@,
                    s.owned(),
                    final(mem)@,
                    final(alloc)@,
                )
            },
    {
        proof {
            alloc@.lemma_alloc_fresh();
        }
        match PageTable::new(mem, alloc) {
            None => None,
            Some(page_table) => {
                let s = AddressSpace { page_table, mappings: Vec::new() };
                proof {
                    assert(s.views() =~= Seq::<MappingView>::empty());
                    assert(s.owned() =~= set![s.table().spec_root()]);
                    super::frame::lemma_alloc_changes(
                        Set::<u64>::empty(),
                        old(mem)@,
                        old(alloc)@,
                        s.table().spec_root(),
                    );
                    assert(Set::<u64>::empty().insert(s.table().spec_root()) =~= s.owned());
                    assert forall|v: u64| v < VPN_LIMIT implies #[trigger] translate(
                        mem@,
                        s.table().spec_root(),
                        v,
                    ) == expected(s.views(), v) by {
                        assert(!s.table().mappings(mem@).dom().contains(v));
                    }
                }
                Some(s)
            },
        }
    }

    /// The value that makes the hardware use the page table of this address
    /// space.
    pub fn token(&self) -> (t: u64)
        ensures
            t == super::page_table::spec_token(self.table().spec_root()),
    {
        self.page_table.raw.token()
    }

    /// Every frame that the address space owns is handed out.
    pub proof fn lemma_owned_allocated(&self, m: MemoryView, a: FrameAllocatorView)
        requires
            self.wf(m, a),
        ensures
            forall|p: u64| #[trigger] self.owned().contains(p) ==> a.is_allocated(p),
            forall|p: u64| #[trigger] views_owned(self.views()).contains(p) ==> a.is_allocated(p),
    {
        assert forall|p: u64| #[trigger] views_owned(self.views()).contains(p) implies a.is_allocated(
            p,
        ) by {
            let k = choose|k: int|
                0 <= k < self.views().len() && #[trigger] self.views()[k].owned().contains(p);
            let view = self.views()[k];
            assert(view.wf(m, a));
            let i = choose|i: int| 0 <= i < view.pages.len() && view.pages[i] == p;
            assert(a.is_allocated(view.pages[i]));
        }
        assert forall|p: u64| #[trigger] self.owned().contains(p) implies a.is_allocated(p) by {
            if self.table().frames().contains(p) {
            } else {
                assert(views_owned(self.views()).contains(p));
            }
        }
    }

    /// The address space stays well formed while its frames stay handed
    /// out and the frames of its page table keep their content.
    pub proof fn lemma_wf_frame(
        &self,
        m0: MemoryView,
        a0: FrameAllocatorView,
        m1: MemoryView,
        a1: FrameAllocatorView,
    )
        requires
            self.wf(m0, a0),
            m1.wf(),
            m0.same_shape(m1),
            forall|p: u64| #[trigger] self.owned().contains(p) ==> a1.is_allocated(p),
            forall|p: u64| self.table().frames().contains(p) ==> #[trigger] m1.page(p) == m0.page(p),
        ensures
            self.wf(m1, a1),
    {
        self.table().lemma_inv_frame(m0, m1);
        let views = self.views();
        assert forall|p: u64| #[trigger] self.table().frames().contains(p) implies a1.is_allocated(
            p,
        ) by {
            assert(self.owned().contains(p));
        }
        assert forall|k: int| 0 <= k < views.len() implies (#[trigger] views[k]).wf(m1, a1) by {
            let view = views[k];
            assert(view.wf(m0, a0));
            assert forall|i: int| 0 <= i < view.pages.len() implies m1.contains(
                #[trigger] view.pages[i],
            ) by {
                assert(m0.contains(view.pages[i]));
            }
            if view.paged {
                assert forall|i: int| 0 <= i < view.pages.len() implies a1.is_allocated(
                    #[trigger] view.pages[i],
                ) by {
                    assert(view.pages.contains(view.pages[i]));
                    assert(views[k].owned().contains(view.pages[i]));
                    assert(views_owned(views).contains(view.pages[i]));
                    assert(self.owned().contains(view.pages[i]));
                }
            }
        }
        assert forall|v: u64| v < VPN_LIMIT implies #[trigger] translate(
            m1,
            self.table().spec_root(),
            v,
        ) == expected(views, v) by {
            assert(translate(m0, self.table().spec_root(), v) == expected(views, v));
        }
    }

    /// Maps `page_count` pages of `vmo`, from its page `vmo_page_offset`
    /// on, at the virtual pages from `base_vpn` on, with flags `flags`.
    /// Without `page_count`, the object is mapped from the offset to its
    /// end.
    ///
    /// Fails with `OutOfRange` when the pages reach past the object or past
    /// the virtual address space, else with `Overlap` when the virtual
    /// range intersects that of a mapping that exists, else with
    /// `OutOfFrames` when the page table needs a frame and none is left.
    /// On failure the mappings are as they were and the object is given
    /// up.
    pub fn map(
        &mut self,
        mem: &mut PhysMemory,
        alloc: &mut LinkedStackFrameAllocator,
        vmo: Vmo,
        vmo_page_offset: usize,
        base_vpn: VirtPageNum,
        page_count: Option<usize>,
        flags: PTEFlags,
    ) -> (r: Result<(), KernelError>)
        requires
            old(mem).wf(),
            old(alloc).wf(old(mem)@),
            old(self).wf(old(mem)@, old(alloc)@),
            vmo.wf(old(mem)@, old(alloc)@),
            forall|p: u64| #[trigger] vmo.owned().contains(p) ==> !old(self).owned().contains(p),
        ensures
            final(mem).wf(),
            final(alloc).wf(final(mem)@),
            final(self).wf(final(mem)@, final(alloc)@),
            final(self).table().spec_root() == old(self).table().spec_root(),
            changes(
                old(self).owned().union(vmo.owned()),
                old(mem)@,
                old(alloc)@,
                final(self).owned(),
                final(mem)@,
                final(alloc)@,
            ),
            ({
                let count = map_count(vmo.pages().len(), vmo_page_offset as nat, page_count);
                let view = MappingView {
                    flags: flags@,
                    base_vpn: base_vpn.0,
                    page_count: count as nat,
                    vmo_page_offset: vmo_page_offset as nat,
                    pages: vmo.pages(),
                    paged: vmo.is_paged(),
                };
                let range = map_out_of_range(
                    vmo.pages().len(),
                    vmo_page_offset as nat,
                    count,
                    base_vpn.0,
                );
                let clash = exists|k: int|
                    0 <= k < old(self).views().len() && overlaps(
                        #[trigger] old(self).views()[k],
                        view,
                    );
                &&& failure(r) == map_outcome(
                    old(self).views(),
                    old(alloc)@.available(),
                    depths(old(mem)@, old(self).table().spec_root()),
                    vmo.pages().len(),
                    vmo_page_offset as nat,
                    base_vpn.0,
                    count,
                )
                &&& range ==> r == Err::<(), KernelError>(KernelError::OutOfRange)
                &&& !range && clash ==> r == Err::<(), KernelError>(KernelError::Overlap)
                &&& !range && !clash ==> ((r.is_ok()) <==> old(alloc)@.available() >= tables_needed(
                    old(mem)@,
                    old(self).table().spec_root(),
                    base_vpn.0,
                    count,
                ))
                &&& r.is_ok() ==> final(alloc)@.available() == old(alloc)@.available()
                    - tables_needed(old(mem)@, old(self).table().spec_root(), base_vpn.0, count)
                &&& r.is_ok() ==> forall|v: u64|
                    v < VPN_LIMIT ==> #[trigger] depth(
                        final(mem)@,
                        final(self).table().spec_root(),
                        v,
                    ) == range_depth(
                        depth(old(mem)@, old(self).table().spec_root(), v),
                        v,
                        base_vpn.0,
                        count,
                    )
                &&& r.is_ok() ==> final(self).views() == old(self).views().push(view)
                &&& r.is_err() ==> final(self).views() == old(self).views()
                &&& (range || clash) ==> final(self).table() == old(self).table()
            }),
            forall|p: u64|
                views_owned(old(self).views()).contains(p) ==> #[trigger] final(mem)@.page(p)
                    == old(mem)@.page(p),
            r.is_ok() ==> forall|p: u64|
                vmo.owned().contains(p) ==> #[trigger] final(mem)@.page(p) == old(mem)@.page(p),
    {
        let ghost m0 = mem@;
        let ghost a0 = alloc@;
        let ghost views = self.views();
        let ghost own0 = self.owned();
        let ghost vown = vmo.owned();
        proof {
            self.lemma_owned_allocated(m0, a0);
            assert forall|q: u64| #[trigger] vown.contains(q) implies a0.is_allocated(q) by {
                let i = choose|i: int| 0 <= i < vmo.pages().len() && vmo.pages()[i] == q;
                assert(a0.is_allocated(vmo.pages()[i]));
            }
        }
        let total: usize = vmo.page_count();
        let count: usize = match page_count {
            Some(c) => c,
            None => {
                if vmo_page_offset > total {
                    self.give_up(mem, alloc, vmo);
                    return Err(KernelError::OutOfRange);
                }
                total - vmo_page_offset
            },
        };
        if vmo_page_offset > total || count > total - vmo_page_offset || count as u64 > VPN_LIMIT
            || base_vpn.0 > VPN_LIMIT - count as u64 {
            self.give_up(mem, alloc, vmo);
            return Err(KernelError::OutOfRange);
        }
        let ghost view = MappingView {
            flags: flags@,
            base_vpn: base_vpn.0,
            page_count: count as nat,
            vmo_page_offset: vmo_page_offset as nat,
            pages: vmo.pages(),
            paged: vmo.is_paged(),
        };
        let mut k: usize = 0;
        let mut clash: bool = false;
        while k < self.mappings.len() && !clash
            invariant
                k <= self.mappings@.len(),
                clash ==> k < self.mappings@.len() && overlaps(views[k as int], view),
                *self == *old(self),
                views == self.views(),
                self.wf(m0, a0),
                base_vpn.0 + count <= VPN_LIMIT,
                view.base_vpn == base_vpn.0,
                view.page_count == count,
                forall|j: int| 0 <= j < k ==> !overlaps(#[trigger] views[j], view),
            decreases self.mappings@.len() - k, if clash { 0int } else { 1int },
        {
            let mapping = &self.mappings[k];
            assert(views[k as int] == mapping@);
            assert(views[k as int].wf(m0, a0));
            if mapping.base_vpn.0 < base_vpn.0 + count as u64 && base_vpn.0 < mapping.base_vpn.0
                + mapping.page_count as u64 {
                clash = true;
            } else {
                k += 1;
            }
        }
        if clash {
            self.give_up(mem, alloc, vmo);
            return Err(KernelError::Overlap);
        }
        proof {
            assert forall|v: u64| base_vpn.0 <= v < base_vpn.0 + count implies !self.table().mappings(
                m0,
            ).dom().contains(v) by {
                if self.table().mappings(m0).dom().contains(v) {
                    assert(translate(m0, self.table().spec_root(), v) == expected(views, v));
                    lemma_expected_covered(views, v);
                    let j = choose|j: int| 0 <= j < views.len() && (#[trigger] views[j]).covers(v);
                    assert(overlaps(views[j], view));
                }
            }
        }
        let ghost f0 = self.table().frames();
        let ghost kept = views_owned(views).union(vown);
        let r = map_range(
            &mut self.page_table.raw,
            mem,
            alloc,
            base_vpn,
            count,
            &vmo,
            vmo_page_offset,
            flags,
        );
        let ghost m1 = mem@;
        let ghost a1 = alloc@;
        let ghost f1 = self.table().frames();
        proof {
            lemma_extends_changes(f0, m0, a0, f1, m1, a1);
            assert forall|p: u64| #[trigger] kept.contains(p) implies a0.is_allocated(p)
                && !f0.contains(p) by {
                if views_owned(views).contains(p) {
                } else {
                    assert(vown.contains(p));
                    assert(!own0.contains(p));
                }
            }
            lemma_changes_lift(f0, m0, a0, f1, m1, a1, kept);
            assert(f0.union(kept) =~= own0.union(vown));
        }
        match r {
            Err(e) => {
                proof {
                    assert(self.views() == views);
                    assert forall|p: u64| #[trigger] views_owned(views).contains(p)
                        implies a1.is_allocated(p) && !self.table().frames().contains(p) by {
                        assert(kept.contains(p));
                    }
                    assert forall|v: u64| v < VPN_LIMIT implies #[trigger] translate(
                        m1,
                        self.table().spec_root(),
                        v,
                    ) == expected(views, v) by {
                        let t0 = old(self).table().mappings(m0);
                        let t1 = self.table().mappings(m1);
                        assert(translate(m0, self.table().spec_root(), v) == expected(views, v));
                        assert(t1.dom().contains(v) == t0.dom().contains(v));
                        if t0.dom().contains(v) {
                            assert(t1[v] == t0[v]);
                        }
                    }
                    self.lemma_kept(m0, a0, m1, a1, f0, views);
                    assert(vmo.wf(m1, a1)) by {
                        assert forall|i: int| 0 <= i < vmo.pages().len() implies m1.contains(
                            #[trigger] vmo.pages()[i],
                        ) by {
                            assert(m0.contains(vmo.pages()[i]));
                        }
                        if vmo.is_paged() {
                            assert forall|i: int| 0 <= i < vmo.pages().len() implies a1.is_allocated(
                                #[trigger] vmo.pages()[i],
                            ) by {
                                assert(vmo.pages().contains(vmo.pages()[i]));
                                assert(kept.contains(vmo.pages()[i]));
                            }
                        }
                    }
                    assert forall|p: u64| #[trigger] vown.contains(p) implies !self.owned().contains(
                        p,
                    ) by {
                        assert(kept.contains(p));
                        assert(!own0.contains(p));
                    }
                }
                let ghost mid = f1.union(kept);
                self.give_up(mem, alloc, vmo);
                proof {
                    assert(mid =~= self.owned().union(vown));
                    lemma_changes_trans(
                        own0.union(vown),
                        m0,
                        a0,
                        mid,
                        m1,
                        a1,
                        self.owned(),
                        mem@,
                        alloc@,
                    );
                }
                Err(KernelError::OutOfFrames)
            },
            Ok(()) => {
                let mapping = VMMapping { flags, base_vpn, page_count: count, vmo_page_offset, vmo };
                assert(mapping@ == view);
                self.mappings.push(mapping);
                proof {
                    let after = self.views();
                    assert(after =~= views.push(view));
                    assert(views_owned(after) =~= kept) by {
                        assert forall|p: u64| views_owned(after).contains(p) == kept.contains(p) by {
                            if views_owned(after).contains(p) {
                                let j = choose|j: int|
                                    0 <= j < after.len() && #[trigger] after[j].owned().contains(p);
                                if j < views.len() {
                                    assert(views[j].owned().contains(p));
                                }
                            }
                            if views_owned(views).contains(p) {
                                let j = choose|j: int|
                                    0 <= j < views.len() && #[trigger] views[j].owned().contains(p);
                                assert(after[j].owned().contains(p));
                            }
                            if vown.contains(p) {
                                assert(after[views.len() as int].owned().contains(p));
                            }
                        }
                    }
                    assert(self.owned() =~= f1.union(kept));
                    assert forall|j: int| 0 <= j < after.len() implies (#[trigger] after[j]).wf(
                        m1,
                        a1,
                    ) by {
                        let w = after[j];
                        if j < views.len() {
                            assert(w == views[j]);
                            assert(views[j].wf(m0, a0));
                        }
                        assert forall|i: int| 0 <= i < w.pages.len() implies m1.contains(
                            #[trigger] w.pages[i],
                        ) by {
                            assert(m0.contains(w.pages[i]));
                        }
                        if w.paged {
                            assert forall|i: int| 0 <= i < w.pages.len() implies a1.is_allocated(
                                #[trigger] w.pages[i],
                            ) by {
                                assert(w.pages.contains(w.pages[i]));
                                assert(after[j].owned().contains(w.pages[i]));
                                assert(views_owned(after).contains(w.pages[i]));
                            }
                        }
                    }
                    assert forall|i: int, j: int, p: u64| 0 <= i < j < after.len() implies !(
                    #[trigger] after[i].owned().contains(p) && #[trigger] after[j].owned().contains(
                        p,
                    )) by {
                        if j == views.len() {
                            if after[i].owned().contains(p) && vown.contains(p) {
                                assert(views[i].owned().contains(p));
                                assert(views_owned(views).contains(p));
                                assert(own0.contains(p));
                            }
                        } else {
                            assert(after[i] == views[i] && after[j] == views[j]);
                        }
                    }
                    assert forall|i: int, j: int| 0 <= i < j < after.len() implies !overlaps(
                        #[trigger] after[i],
                        #[trigger] after[j],
                    ) by {
                        if j == views.len() {
                            assert(after[i] == views[i]);
                        } else {
                            assert(after[i] == views[i] && after[j] == views[j]);
                        }
                    }
                    assert forall|v: u64| v < VPN_LIMIT implies #[trigger] translate(
                        m1,
                        self.table().spec_root(),
                        v,
                    ) == expected(after, v) by {
                        assert(after.drop_last() =~= views);
                        assert(after.last() == view);
                        let t0 = old(self).table().mappings(m0);
                        let t1 = self.table().mappings(m1);
                        assert(translate(m0, self.table().spec_root(), v) == expected(views, v));
                        assert(t1.dom().contains(v) == (t0.dom().contains(v) || view.covers(v)));
                        if view.covers(v) {
                            assert(t1[v] == view.entry(v));
                        } else if t0.dom().contains(v) {
                            assert(t1[v] == t0[v]);
                        }
                    }
                }
                Ok(())
            },
        }
    }

    /// After a change by the page table, the mappings are as well formed
    /// as before.
    proof fn lemma_kept(
        &self,
        m0: MemoryView,
        a0: FrameAllocatorView,
        m1: MemoryView,
        a1: FrameAllocatorView,
        f0: Set<u64>,
        views: Seq<MappingView>,
    )
        requires
            views == self.views(),
            views_wf(views, m0, a0),
            self.table().wf(m1, a1),
            m1.wf(),
            m0.same_shape(m1),
            forall|p: u64| #[trigger]
                views_owned(views).contains(p) ==> a1.is_allocated(p) && !self.table().frames().contains(
                    p,
                ),
            forall|v: u64|
                v < VPN_LIMIT ==> #[trigger] translate(m1, self.table().spec_root(), v) == expected(
                    views,
                    v,
                ),
        ensures
            self.wf(m1, a1),
    {
        assert forall|k: int| 0 <= k < views.len() implies (#[trigger] views[k]).wf(m1, a1) by {
            let w = views[k];
            assert(w.wf(m0, a0));
            assert forall|i: int| 0 <= i < w.pages.len() implies m1.contains(#[trigger] w.pages[i]) by {
                assert(m0.contains(w.pages[i]));
            }
            if w.paged {
                assert forall|i: int| 0 <= i < w.pages.len() implies a1.is_allocated(
                    #[trigger] w.pages[i],
                ) by {
                    assert(w.pages.contains(w.pages[i]));
                    assert(views[k].owned().contains(w.pages[i]));
                    assert(views_owned(views).contains(w.pages[i]));
                }
            }
        }
    }

    /// Gives up a memory object that could not be mapped.
    fn give_up(&self, mem: &mut PhysMemory, alloc: &mut LinkedStackFrameAllocator, vmo: Vmo)
        requires
            old(mem).wf(),
            old(alloc).wf(old(mem)@),
            self.wf(old(mem)@, old(alloc)@),
            vmo.wf(old(mem)@, old(alloc)@),
            forall|p: u64| #[trigger] vmo.owned().contains(p) ==> !self.owned().contains(p),
        ensures
            final(mem).wf(),
            final(alloc).wf(final(mem)@),
            self.wf(final(mem)@, final(alloc)@),
            changes(
                self.owned().union(vmo.owned()),
                old(mem)@,
                old(alloc)@,
                self.owned(),
                final(mem)@,
                final(alloc)@,
            ),
            forall|p: u64|
                self.owned().contains(p) ==> #[trigger] final(mem)@.page(p) == old(mem)@.page(p),
            final(alloc)@.available() >= old(alloc)@.available(),
            same_depths(old(mem)@, final(mem)@, self.table().spec_root()),
    {
        let ghost m0 = mem@;
        let ghost a0 = alloc@;
        let ghost vown = vmo.owned();
        vmo.release(mem, alloc);
        proof {
            self.lemma_owned_allocated(m0, a0);
            lemma_changes_lift(vown, m0, a0, Set::<u64>::empty(), mem@, alloc@, self.owned());
            assert(vown.union(self.owned()) =~= self.owned().union(vown));
            assert(Set::<u64>::empty().union(self.owned()) =~= self.owned());
            reveal(changes);
            self.lemma_wf_frame(m0, a0, mem@, alloc@);
            self.table().lemma_inv_frame(m0, mem@);
        }
    }

    /// Takes the mapping at position `k` out of the address space: its
    /// pages are no longer translated, and its memory object is given up.
    pub fn remove_at(
        &mut self,
        mem: &mut PhysMemory,
        alloc: &mut LinkedStackFrameAllocator,
        k: usize,
    )
        requires
            old(mem).wf(),
            old(alloc).wf(old(mem)@),
            old(self).wf(old(mem)@, old(alloc)@),
            k < old(self).views().len(),
        ensures
            final(mem).wf(),
            final(alloc).wf(final(mem)@),
            final(self).wf(final(mem)@, final(alloc)@),
            final(self).table().spec_root() == old(self).table().spec_root(),
            final(self).table().tables() == old(self).table().tables(),
            same_depths(old(mem)@, final(mem)@, old(self).table().spec_root()),
            final(self).views() == old(self).views().remove(k as int),
            changes(
                old(self).owned(),
                old(mem)@,
                old(alloc)@,
                final(self).owned(),
                final(mem)@,
                final(alloc)@,
            ),
            forall|p: u64|
                views_owned(final(self).views()).contains(p) ==> #[trigger] final(mem)@.page(p)
                    == old(mem)@.page(p),
            final(alloc)@.available() >= old(alloc)@.available(),
    {
        let ghost m0 = mem@;
        let ghost a0 = alloc@;
        let ghost views = self.views();
        let ghost own0 = self.owned();
        let ghost f0 = self.table().frames();
        let ghost root = self.table().spec_root();
        let ghost gone = views[k as int];
        let ghost rest = views.remove(k as int);
        let base_vpn = self.mappings[k].base_vpn;
        let count = self.mappings[k].page_count;
        proof {
            assert(gone == self.mappings@[k as int]@);
            assert(gone.wf(m0, a0));
            self.lemma_owned_allocated(m0, a0);
            lemma_views_remove(views, k as int, m0, a0);
            assert forall|v: u64| base_vpn.0 <= v < base_vpn.0 + count implies self.table().mappings(
                m0,
            ).dom().contains(v) by {
                lemma_expected_at(views, k as int, v);
                assert(translate(m0, root, v) == expected(views, v));
            }
        }
        unmap_range(&mut self.page_table.raw, mem, alloc, base_vpn, count);
        let ghost m1 = mem@;
        let mapping = self.mappings.remove(k);
        proof {
            assert(self.views() =~= rest);
            assert(self.table().frames() == f0);
            lemma_extends_changes(f0, m0, a0, f0, m1, a0);
            lemma_changes_lift(f0, m0, a0, f0, m1, a0, views_owned(views));
            assert(f0.union(views_owned(views)) =~= own0);
            assert forall|p: u64| #[trigger] views_owned(rest).contains(p) implies a0.is_allocated(p)
                && !f0.contains(p) by {
                assert(views_owned(views).contains(p));
            }
            assert forall|v: u64| v < VPN_LIMIT implies #[trigger] translate(m1, root, v)
                == expected(rest, v) by {
                lemma_expected_remove(views, k as int, v);
                let t0 = old(self).table().mappings(m0);
                let t1 = self.table().mappings(m1);
                assert(translate(m0, root, v) == expected(views, v));
                assert(t1.dom().contains(v) == (t0.dom().contains(v) && !gone.covers(v)));
                if t1.dom().contains(v) {
                    assert(t1[v] == t0[v]);
                }
            }
            self.lemma_kept(m0, a0, m1, a0, f0, rest);
            assert(mapping.vmo.wf(m1, a0)) by {
                assert forall|i: int| 0 <= i < gone.pages.len() implies m1.contains(
                    #[trigger] gone.pages[i],
                ) by {
                    assert(m0.contains(gone.pages[i]));
                }
            }
            assert(mapping.vmo.owned() == gone.owned());
            assert forall|p: u64| #[trigger] mapping.vmo.owned().contains(p)
                implies !self.owned().contains(p) by {
                assert(views_owned(views).contains(p));
            }
        }
        self.give_up(mem, alloc, mapping.vmo);
        proof {
            assert(self.owned().union(gone.owned()) =~= own0);
            lemma_changes_trans(own0, m0, a0, own0, m1, a0, self.owned(), mem@, alloc@);
            assert forall|p: u64| views_owned(self.views()).contains(p) implies #[trigger] mem@.page(
                p,
            ) == m0.page(p) by {
                assert(self.owned().contains(p));
                assert(views_owned(views).contains(p));
                assert(m1.page(p) == m0.page(p));
            }
        }
    }

    /// Takes away the first mapping that starts at `base_vpn` and has
    /// `page_count` pages and, where `require_user` is set, carries the
    /// user flag. Fails with `NotFound`, and changes nothing, when there is
    /// no such mapping.
    pub fn unmap(
        &mut self,
        mem: &mut PhysMemory,
        alloc: &mut LinkedStackFrameAllocator,
        base_vpn: VirtPageNum,
        page_count: usize,
        require_user: bool,
    ) -> (r: Result<(), KernelError>)
        requires
            old(mem).wf(),
            old(alloc).wf(old(mem)@),
            old(self).wf(old(mem)@, old(alloc)@),
        ensures
            final(mem).wf(),
            final(alloc).wf(final(mem)@),
            final(self).wf(final(mem)@, final(alloc)@),
            final(self).table().spec_root() == old(self).table().spec_root(),
            changes(
                old(self).owned(),
                old(mem)@,
                old(alloc)@,
                final(self).owned(),
                final(mem)@,
                final(alloc)@,
            ),
            forall|p: u64|
                views_owned(final(self).views()).contains(p) ==> #[trigger] final(mem)@.page(p)
                    == old(mem)@.page(p),
            final(alloc)@.available() >= old(alloc)@.available(),
            match unmap_find(old(self).views(), base_vpn.0, page_count as nat, require_user, 0) {
                Some(k) => r.is_ok() && final(self).views() == old(self).views().remove(k),
                None => r == Err::<(), KernelError>(KernelError::NotFound) && *final(self) == *old(self) && final(mem)@ == old(mem)@ && final(alloc)@ == old(alloc)@,
            },
    {
        let ghost views = self.views();
        let mut k: usize = 0;
        let mut found: bool = false;
        while k < self.mappings.len() && !found
            invariant
                k <= self.mappings@.len(),
                *self == *old(self),
                views == self.views(),
                found ==> k < views.len() && unmap_matches(
                    views[k as int],
                    base_vpn.0,
                    page_count as nat,
                    require_user,
                ),
                unmap_find(views, base_vpn.0, page_count as nat, require_user, 0) == unmap_find(
                    views,
                    base_vpn.0,
                    page_count as nat,
                    require_user,
                    k as int,
                ),
            decreases self.mappings@.len() - k, if found { 0int } else { 1int },
        {
            let mapping = &self.mappings[k];
            assert(views[k as int] == mapping@);
            if mapping.base_vpn.0 == base_vpn.0 && mapping.page_count == page_count && (
            !require_user || mapping.flags.contains(PTEFlags::from_bits_truncate(PTEFlags::U))) {
                found = true;
            } else {
                k += 1;
            }
        }
        if !found {
            proof {
                self.lemma_owned_allocated(mem@, alloc@);
                lemma_changes_refl(self.owned(), mem@, alloc@);
            }
            return Err(KernelError::NotFound);
        }
        self.remove_at(mem, alloc, k);
        Ok(())
    }

    /// Takes away every mapping that carries the user flag.
    pub fn clean_user(&mut self, mem: &mut PhysMemory, alloc: &mut LinkedStackFrameAllocator)
        requires
            old(mem).wf(),
            old(alloc).wf(old(mem)@),
            old(self).wf(old(mem)@, old(alloc)@),
        ensures
            final(mem).wf(),
            final(alloc).wf(final(mem)@),
            final(self).wf(final(mem)@, final(alloc)@),
            final(self).table().spec_root() == old(self).table().spec_root(),
            final(self).table().tables() == old(self).table().tables(),
            same_depths(old(mem)@, final(mem)@, old(self).table().spec_root()),
            final(alloc)@.available() == old(alloc)@.available() + old(self).user_frames(),
            final(self).views() == without_user(old(self).views()),
            changes(
                old(self).owned(),
                old(mem)@,
                old(alloc)@,
                final(self).owned(),
                final(mem)@,
                final(alloc)@,
            ),
            forall|p: u64|
                views_owned(final(self).views()).contains(p) ==> #[trigger] final(mem)@.page(p)
                    == old(mem)@.page(p),
            final(alloc)@.available() >= old(alloc)@.available(),
    {
        let ghost m0 = mem@;
        let ghost a0 = alloc@;
        let ghost views = self.views();
        let ghost own0 = self.owned();
        let mut k: usize = self.mappings.len();
        proof {
            self.lemma_owned_allocated(m0, a0);
            lemma_changes_refl(own0, m0, a0);
            assert(views.subrange(k as int, views.len() as int) =~= Seq::<MappingView>::empty());
            assert(views =~= views.subrange(0, k as int) + without_user(
                views.subrange(k as int, views.len() as int),
            ));
        }
        while k > 0
            invariant
                k <= views.len(),
                mem.wf(),
                alloc.wf(mem@),
                self.wf(mem@, alloc@),
                self.table().spec_root() == old(self).table().spec_root(),
                self.table().tables() == old(self).table().tables(),
                m0 == old(mem)@,
                a0 == old(alloc)@,
                own0 == old(self).owned(),
                views == old(self).views(),
                same_depths(m0, mem@, self.table().spec_root()),
                self.views() == views.subrange(0, k as int) + without_user(
                    views.subrange(k as int, views.len() as int),
                ),
                changes(own0, m0, a0, self.owned(), mem@, alloc@),
                forall|p: u64|
                    views_owned(self.views()).contains(p) ==> #[trigger] mem@.page(p) == m0.page(p),
                forall|p: u64|
                    views_owned(self.views()).contains(p) ==> #[trigger] views_owned(views).contains(
                        p,
                    ),
                alloc@.available() >= a0.available(),
            decreases k,
        {
            let ghost m1 = mem@;
            let ghost a1 = alloc@;
            let ghost own1 = self.owned();
            let ghost tail = views.subrange(k as int, views.len() as int);
            let ghost tail1 = views.subrange(k - 1, views.len() as int);
            proof {
                assert(self.views()[k - 1] == views[k - 1]);
                assert(self.mappings@[k - 1]@ == self.views()[k - 1]);
                assert(tail1.drop_first() =~= tail);
                assert(tail1[0] == views[k - 1]);
            }
            if self.mappings[k - 1].flags.contains(PTEFlags::from_bits_truncate(PTEFlags::U)) {
                let ghost views1 = self.views();
                proof {
                    lemma_views_remove(views1, k - 1, m1, a1);
                }
                self.remove_at(mem, alloc, k - 1);
                proof {
                    lemma_changes_trans(own0, m0, a0, own1, m1, a1, self.owned(), mem@, alloc@);
                    assert(self.views() =~= views.subrange(0, k - 1) + without_user(tail1));
                    assert forall|p: u64| views_owned(self.views()).contains(p)
                        implies #[trigger] mem@.page(p) == m0.page(p) && views_owned(
                        views,
                    ).contains(p) by {
                        assert(views_owned(views1).contains(p));
                        assert(m1.page(p) == m0.page(p));
                    }
                }
            } else {
                proof {
                    assert(self.views() =~= views.subrange(0, k - 1) + without_user(tail1));
                }
            }
            k -= 1;
        }
        proof {
            assert(views.subrange(0, views.len() as int) =~= views);
            assert(self.views() =~= without_user(views));
            super::frame::lemma_changes_count(own0, m0, a0, self.owned(), mem@, alloc@);
            assert(self.owned() =~= old(self).table().frames().union(
                views_owned(without_user(views)),
            ));
        }
    }

    /// Gives up the address space: every memory object that it maps and
    /// every frame of its page table.
    pub fn destroy(self, mem: &mut PhysMemory, alloc: &mut LinkedStackFrameAllocator)
        requires
            old(mem).wf(),
            old(alloc).wf(old(mem)@),
            self.wf(old(mem)@, old(alloc)@),
        ensures
            final(mem).wf(),
            final(alloc).wf(final(mem)@),
            changes(
                self.owned(),
                old(mem)@,
                old(alloc)@,
                Set::<u64>::empty(),
                final(mem)@,
                final(alloc)@,
            ),
            self.owned().finite(),
            final(alloc)@.available() == old(alloc)@.available() + self.owned().len(),
    {
        let ghost m0 = mem@;
        let ghost a0 = alloc@;
        let ghost own0 = self.owned();
        let mut space = self;
        proof {
            space.lemma_owned_allocated(m0, a0);
            lemma_changes_refl(own0, m0, a0);
        }
        while space.mappings.len() > 0
            invariant
                mem.wf(),
                alloc.wf(mem@),
                space.wf(mem@, alloc@),
                changes(own0, m0, a0, space.owned(), mem@, alloc@),
                alloc@.available() >= a0.available(),
            decreases space.mappings@.len(),
        {
            let ghost m1 = mem@;
            let ghost a1 = alloc@;
            let ghost own1 = space.owned();
            let last: usize = space.mappings.len() - 1;
            space.remove_at(mem, alloc, last);
            proof {
                lemma_changes_trans(own0, m0, a0, own1, m1, a1, space.owned(), mem@, alloc@);
            }
        }
        let ghost m1 = mem@;
        let ghost a1 = alloc@;
        proof {
            assert(views_owned(space.views()) =~= Set::<u64>::empty());
            assert(space.owned() =~= space.table().frames());
        }
        space.page_table.destroy(mem, alloc);
        proof {
            lemma_changes_trans(
                own0,
                m0,
                a0,
                space.table().frames(),
                m1,
                a1,
                Set::<u64>::empty(),
                mem@,
                alloc@,
            );
            crate::mm::frame::lemma_changes_count(
                own0,
                m0,
                a0,
                Set::<u64>::empty(),
                mem@,
                alloc@,
            );
        }
    }

    /// The address space can be read and written through memory `m`.
    pub open spec fn shape_ok(&self, m: MemoryView) -> bool {
        views_shape(self.views(), m)
    }

    /// A well-formed address space can be read and written.
    pub proof fn lemma_shape(&self, m: MemoryView, a: FrameAllocatorView)
        requires
            self.wf(m, a),
        ensures
            self.shape_ok(m),
    {
        assert forall|k: int| 0 <= k < self.views().len() implies pages_in(
            (#[trigger] self.views()[k]).pages,
            m,
        ) by {
            assert(self.views()[k].wf(m, a));
        }
    }

    /// The run of bytes at `pos` that lies within one mapping: the position
    /// of the mapping, the offset of the first byte in its object, and the
    /// number of bytes, at most `want`. `None` when no mapping that carries
    /// `flags` covers `pos`.
    fn chunk_at(&self, mem: &PhysMemory, pos: VirtAddr, flags: PTEFlags, want: usize) -> (r: Option<
        (usize, usize, usize),
    >)
        requires
            mem.wf(),
            self.shape_ok(mem@),
            want > 0,
        ensures
            r.is_none() ==> locate(self.views(), pos.0 as int, flags@).is_none(),
            r matches Some((k, voff, len)) ==> {
                let view = self.views()[k as int];
                &&& k < self.views().len()
                &&& view.allows(flags@)
                &&& 0 < len <= want
                &&& view.base_vpn * PAGE_SIZE <= pos.0
                &&& pos.0 + len <= (view.base_vpn + view.page_count) * PAGE_SIZE
                &&& voff == view.vmo_page_offset * PAGE_SIZE + pos.0 - view.base_vpn * PAGE_SIZE
                &&& voff + len <= view.pages.len() * PAGE_SIZE
                &&& (len < want ==> locate(self.views(), pos.0 + len, flags@).is_none() || pos.0
                    + len == (view.base_vpn + view.page_count) * PAGE_SIZE)
            },
    {
        let k = match self.find_mapping(pos, flags) {
            Some(k) => k,
            None => {
                return None;
            },
        };
        proof {
            lemma_find_from(self.views(), pos.0 / PAGE_SIZE_U64, flags@, 0);
        }
        let mapping = &self.mappings[k];
        proof {
            assert(self.views()[k as int] == mapping@);
        }
        let total: usize = mapping.vmo.page_count();
        let start: u64 = pos.0 - mapping.base_vpn.0 * PAGE_SIZE_U64;
        let room: u64 = mapping.page_count as u64 * PAGE_SIZE_U64 - start;
        let len: usize = if want as u64 <= room {
            want
        } else {
            room as usize
        };
        let voff: usize = mapping.vmo_page_offset * PAGE_SIZE + start as usize;
        Some((k, voff, len))
    }

    /// Copies bytes from the virtual addresses from `vaddr` on to the front
    /// of `buf`, through the mappings that can be read, and by a user
    /// program where `user` is set. Stops at the first byte that no such
    /// mapping covers. Returns the number of bytes copied.
    pub fn read(&self, mem: &PhysMemory, vaddr: VirtAddr, buf: &mut Vec<u8>, user: bool) -> (n:
        usize)
        requires
            mem.wf(),
            self.shape_ok(mem@),
        ensures
            n <= old(buf)@.len(),
            final(buf)@.len() == old(buf)@.len(),
            forall|x: int|
                0 <= x < n ==> byte_at(
                    self.views(),
                    mem@,
                    vaddr.0 + x,
                    access_flags(PTEFlags::R, user),
                ) == Some(#[trigger] final(buf)@[x]),
            n < old(buf)@.len() ==> byte_at(
                self.views(),
                mem@,
                vaddr.0 + n,
                access_flags(PTEFlags::R, user),
            ).is_none(),
            forall|x: int| n <= x < old(buf)@.len() ==> final(buf)@[x] == old(buf)@[x],
    {
        let mut flags = PTEFlags::from_bits_truncate(PTEFlags::R);
        if user {
            flags.insert(PTEFlags::from_bits_truncate(PTEFlags::U));
        }
        let ghost views = self.views();
        let total: usize = buf.len();
        let mut progress: usize = 0;
        let mut stopped: bool = false;
        while progress < total && !stopped
            invariant
                progress <= total,
                total == old(buf)@.len(),
                buf@.len() == total,
                mem.wf(),
                self.shape_ok(mem@),
                views == self.views(),
                flags@ == access_flags(PTEFlags::R, user),
                stopped ==> locate(views, vaddr.0 + progress, flags@).is_none(),
                forall|x: int|
                    0 <= x < progress ==> byte_at(views, mem@, vaddr.0 + x, flags@) == Some(
                        #[trigger] buf@[x],
                    ),
                forall|x: int| progress <= x < total ==> buf@[x] == old(buf)@[x],
            decreases total - progress, if stopped { 0int } else { 1int },
        {
            if vaddr.0 > u64::MAX - progress as u64 {
                stopped = true;
            } else {
                let pos = VirtAddr(vaddr.0 + progress as u64);
                match self.chunk_at(mem, pos, flags, total - progress) {
                    None => {
                        stopped = true;
                    },
                    Some((k, voff, len)) => {
                        let mapping = &self.mappings[k];
                        let ghost view = views[k as int];
                        assert(view == mapping@);
                        let mut tmp: Vec<u8> = vec![0u8; len];
                        let got = mapping.vmo.read(mem, voff, &mut tmp);
                        assert(got == len);
                        let ghost before = buf@;
                        let mut i: usize = 0;
                        while i < len
                            invariant
                                i <= len,
                                progress + len <= total,
                                buf@.len() == total,
                                before.len() == total,
                                tmp@.len() == len,
                                forall|x: int|
                                    0 <= x < total ==> #[trigger] buf@[x] == (if progress <= x
                                        < progress + i {
                                        tmp@[x - progress]
                                    } else {
                                        before[x]
                                    }),
                            decreases len - i,
                        {
                            buf.set(progress + i, tmp[i]);
                            i += 1;
                        }
                        proof {
                            assert forall|x: int| 0 <= x < progress + len implies byte_at(
                                views,
                                mem@,
                                vaddr.0 + x,
                                flags@,
                            ) == Some(#[trigger] buf@[x]) by {
                                if x < progress {
                                    assert(buf@[x] == before[x]);
                                }
                                if x >= progress {
                                    let y = x - progress;
                                    lemma_locate_in_mapping(views, mem@, k as int, flags@, pos.0 + y);
                                    assert(tmp@[y] == contents(view.pages, mem@)[voff + y]);
                                }
                            }
                        }
                        progress += len;
                    },
                }
            }
        }
        progress
    }

    /// Copies bytes from the front of `buf` to the virtual addresses from
    /// `vaddr` on, through the mappings that can be written, and by a user
    /// program where `user` is set. Stops at the first byte that no such
    /// mapping covers. Returns the number of bytes copied.
    pub fn write(&self, mem: &mut PhysMemory, vaddr: VirtAddr, buf: &[u8], user: bool) -> (n: usize)
        requires
            old(mem).wf(),
            self.shape_ok(old(mem)@),
        ensures
            final(mem).wf(),
            self.shape_ok(final(mem)@),
            n <= buf@.len(),
            forall|x: int|
                0 <= x < n ==> (#[trigger] locate(
                    self.views(),
                    vaddr.0 + x,
                    access_flags(PTEFlags::W, user),
                )).is_some(),
            n < buf@.len() ==> locate(
                self.views(),
                vaddr.0 + n,
                access_flags(PTEFlags::W, user),
            ).is_none(),
            final(mem)@ == put(
                old(mem)@,
                self.views(),
                vaddr.0 as int,
                access_flags(PTEFlags::W, user),
                buf@.subrange(0, n as int),
            ),
    {
        let mut flags = PTEFlags::from_bits_truncate(PTEFlags::W);
        if user {
            flags.insert(PTEFlags::from_bits_truncate(PTEFlags::U));
        }
        let ghost views = self.views();
        let ghost m0 = mem@;
        let total: usize = buf.len();
        let mut progress: usize = 0;
        let mut stopped: bool = false;
        while progress < total && !stopped
            invariant
                progress <= total,
                total == buf@.len(),
                mem.wf(),
                m0.wf(),
                views_shape(views, m0),
                self.shape_ok(mem@),
                views == self.views(),
                flags@ == access_flags(PTEFlags::W, user),
                stopped ==> locate(views, vaddr.0 + progress, flags@).is_none(),
                forall|x: int|
                    0 <= x < progress ==> (#[trigger] locate(views, vaddr.0 + x, flags@)).is_some(),
                mem@ == put(m0, views, vaddr.0 as int, flags@, buf@.subrange(0, progress as int)),
            decreases total - progress, if stopped { 0int } else { 1int },
        {
            if vaddr.0 > u64::MAX - progress as u64 {
                stopped = true;
            } else {
                let pos = VirtAddr(vaddr.0 + progress as u64);
                match self.chunk_at(mem, pos, flags, total - progress) {
                    None => {
                        stopped = true;
                    },
                    Some((k, voff, len)) => {
                        let mapping = &self.mappings[k];
                        let ghost view = views[k as int];
                        let ghost m1 = mem@;
                        assert(view == mapping@);
                        let piece = slice_subrange(buf, progress, progress + len);
                        let wrote = mapping.vmo.write(mem, voff, piece);
                        proof {
                            assert(wrote == len);
                            assert(piece@.subrange(0, len as int) =~= piece@);
                            lemma_store_is_put(m1, views, m1, k as int, flags@, pos.0 as int, piece@);
                            lemma_put_append(
                                m0,
                                views,
                                vaddr.0 as int,
                                flags@,
                                buf@.subrange(0, progress as int),
                                piece@,
                            );
                            assert(buf@.subrange(0, progress as int) + piece@ =~= buf@.subrange(
                                0,
                                progress + len,
                            ));
                            lemma_put_shape(
                                m0,
                                views,
                                vaddr.0 as int,
                                flags@,
                                buf@.subrange(0, progress + len),
                            );
                            assert forall|x: int| 0 <= x < progress + len implies (#[trigger] locate(
                                views,
                                vaddr.0 + x,
                                flags@,
                            )).is_some() by {
                                if x >= progress {
                                    lemma_locate_in_mapping(
                                        views,
                                        m1,
                                        k as int,
                                        flags@,
                                        pos.0 + (x - progress),
                                    );
                                }
                            }
                        }
                        progress += len;
                    },
                }
            }
        }
        progress
    }

    /// The bytes at the virtual addresses from `vaddr` on, up to the first
    /// zero byte or the first byte that cannot be read.
    pub fn read_cstr(&self, mem: &PhysMemory, vaddr: VirtAddr, user: bool) -> (r: Vec<u8>)
        requires
            mem.wf(),
            self.shape_ok(mem@),
        ensures
            forall|x: int|
                0 <= x < r@.len() ==> byte_at(
                    self.views(),
                    mem@,
                    vaddr.0 + x,
                    access_flags(PTEFlags::R, user),
                ) == Some(#[trigger] r@[x]) && r@[x] != 0,
            byte_at(
                self.views(),
                mem@,
                vaddr.0 + r@.len(),
                access_flags(PTEFlags::R, user),
            ) matches Some(b) ==> b == 0,
            user ==> cstr_at(self.views(), mem@, vaddr.0 as int, r@),
    {
        let mut out: Vec<u8> = Vec::new();
        let mut pos: u64 = vaddr.0;
        loop
            invariant
                mem.wf(),
                self.shape_ok(mem@),
                pos == vaddr.0 + out@.len(),
                forall|x: int|
                    0 <= x < out@.len() ==> byte_at(
                        self.views(),
                        mem@,
                        vaddr.0 + x,
                        access_flags(PTEFlags::R, user),
                    ) == Some(#[trigger] out@[x]) && out@[x] != 0,
            ensures
                byte_at(
                    self.views(),
                    mem@,
                    vaddr.0 + out@.len(),
                    access_flags(PTEFlags::R, user),
                ) matches Some(b) ==> b == 0,
                forall|x: int|
                    0 <= x < out@.len() ==> byte_at(
                        self.views(),
                        mem@,
                        vaddr.0 + x,
                        access_flags(PTEFlags::R, user),
                    ) == Some(#[trigger] out@[x]) && out@[x] != 0,
            decreases u64::MAX - pos,
        {
            let mut one: Vec<u8> = vec![0u8; 1];
            let got = self.read(mem, VirtAddr(pos), &mut one, user);
            if got == 0 {
                break ;
            }
            let b: u8 = one[0];
            if b == 0 || pos == u64::MAX {
                proof {
                    if pos == u64::MAX {
                        lemma_find_from(
                            self.views(),
                            (pos as int / PAGE_SIZE as int) as u64,
                            access_flags(PTEFlags::R, user),
                            0,
                        );
                        assert(self.views()[find_spec(
                            self.views(),
                            (pos as int / PAGE_SIZE as int) as u64,
                            access_flags(PTEFlags::R, user),
                        ).unwrap()].base_vpn + 0 <= VPN_LIMIT);
                    }
                }
                break ;
            }
            let ghost before = out@;
            out.push(b);
            proof {
                assert forall|x: int| 0 <= x < out@.len() implies byte_at(
                    self.views(),
                    mem@,
                    vaddr.0 + x,
                    access_flags(PTEFlags::R, user),
                ) == Some(#[trigger] out@[x]) && out@[x] != 0 by {
                    if x < before.len() {
                        assert(out@[x] == before[x]);
                    }
                }
            }
            pos = pos + 1;
        }
        out
    }

    /// Writing through mappings that can be written keeps the allocator
    /// and the address space well formed, and changes no frame of anybody
    /// else, provided that no such mapping shows pages of the allocator's
    /// range that it does not own.
    pub proof fn lemma_write_keeps(
        &self,
        m0: MemoryView,
        a: FrameAllocatorView,
        va: int,
        flags: u8,
        data: Seq<u8>,
    )
        requires
            self.wf(m0, a),
            a.wf(),
            a.consistent(m0),
            confined(self.views(), a),
            flags & PTEFlags::W == PTEFlags::W,
        ensures
            a.consistent(put(m0, self.views(), va, flags, data)),
            self.wf(put(m0, self.views(), va, flags, data), a),
            changes(
                self.owned(),
                m0,
                a,
                self.owned(),
                put(m0, self.views(), va, flags, data),
                a,
            ),
    {
        let views = self.views();
        let m1 = put(m0, views, va, flags, data);
        self.lemma_shape(m0, a);
        self.lemma_owned_allocated(m0, a);
        lemma_put_shape(m0, views, va, flags, data);
        assert forall|p: u64|
            m0.contains(p) && (!a.is_allocated(p) || !views_owned(views).contains(p)) && a.start
                <= p < a.end implies #[trigger] m1.page(p) == m0.page(p) by {
            if exists|k: int, i: int|
                0 <= k < views.len() && (#[trigger] views[k]).allows(flags) && 0 <= i
                    < views[k].pages.len() && (#[trigger] views[k].pages[i]) == p {
                let (k, i) = choose|k: int, i: int|
                    0 <= k < views.len() && (#[trigger] views[k]).allows(flags) && 0 <= i
                        < views[k].pages.len() && (#[trigger] views[k].pages[i]) == p;
                let f = views[k].flags;
                assert(f & 4 == 4) by (bit_vector)
                    requires
                        f & flags == flags,
                        flags & 4 == 4,
                ;
                if views[k].paged {
                    assert(views[k].wf(m0, a));
                    assert(views[k].pages.contains(p));
                    assert(views[k].owned().contains(p));
                    assert(views_owned(views).contains(p));
                }
            }
        }
        a.lemma_consistent_frame(m0, m1);
        assert forall|p: u64| self.table().frames().contains(p) implies #[trigger] m1.page(p)
            == m0.page(p) by {
            assert(self.owned().contains(p));
            assert(a.is_allocated(p));
        }
        self.lemma_wf_frame(m0, a, m1, a);
        reveal(changes);
        assert forall|p: u64| a.is_allocated(p) && !self.owned().contains(p)
            implies #[trigger] m1.page(p) == m0.page(p) by {
            assert(!views_owned(views).contains(p));
        }
    }

    /// Maps `count` fresh zeroed pages at the virtual pages from `base_vpn`
    /// on, with flags `flags`, after writing the bytes `init` into them from
    /// byte `init_offset` on, as far as they fit.
    ///
    /// Fails with `OutOfRange` when the pages cannot be counted in bytes,
    /// else with `OutOfFrames` when fewer than `count` frames are left, else
    /// as a mapping of the pages fails. On failure the mappings are as they
    /// were and no frame more is handed out.
    pub fn map_fresh(
        &mut self,
        mem: &mut PhysMemory,
        alloc: &mut LinkedStackFrameAllocator,
        base_vpn: VirtPageNum,
        count: usize,
        flags: PTEFlags,
        init_offset: usize,
        init: &[u8],
    ) -> (r: Result<(), KernelError>)
        requires
            old(mem).wf(),
            old(alloc).wf(old(mem)@),
            old(self).wf(old(mem)@, old(alloc)@),
        ensures
            final(mem).wf(),
            final(alloc).wf(final(mem)@),
            final(self).wf(final(mem)@, final(alloc)@),
            final(self).table().spec_root() == old(self).table().spec_root(),
            changes(
                old(self).owned(),
                old(mem)@,
                old(alloc)@,
                final(self).owned(),
                final(mem)@,
                final(alloc)@,
            ),
            forall|p: u64|
                views_owned(old(self).views()).contains(p) ==> #[trigger] final(mem)@.page(p)
                    == old(mem)@.page(p),
            r.is_ok() ==> {
                let view = final(self).views().last();
                &&& final(self).views().len() == old(self).views().len() + 1
                &&& final(self).views().drop_last() == old(self).views()
                &&& view == fresh_view(flags@, base_vpn.0, count as nat, view.pages)
                &&& view.pages.len() == count
                &&& contents(view.pages, final(mem)@) == fresh_contents(
                    count as int,
                    init_offset as int,
                    init@,
                )
            },
            r.is_err() ==> final(self).views() == old(self).views(),
            r.is_ok() ==> final(alloc)@.available() == old(alloc)@.available() - count
                - tables_needed(
                old(mem)@,
                old(self).table().spec_root(),
                base_vpn.0,
                count as int,
            ),
            failure(r) == fresh_outcome(
                old(self).views(),
                old(alloc)@.available(),
                depths(old(mem)@, old(self).table().spec_root()),
                base_vpn.0,
                count as int,
            ),
            r.is_ok() ==> forall|v: u64|
                v < VPN_LIMIT ==> #[trigger] depth(final(mem)@, final(self).table().spec_root(), v)
                    == range_depth(
                    depth(old(mem)@, old(self).table().spec_root(), v),
                    v,
                    base_vpn.0,
                    count as int,
                ),
    {
        let ghost m0 = mem@;
        let ghost a0 = alloc@;
        let ghost own0 = self.owned();
        let ghost views = self.views();
        proof {
            self.lemma_owned_allocated(m0, a0);
            lemma_changes_refl(own0, m0, a0);
        }
        if count > usize::MAX / PAGE_SIZE {
            return Err(KernelError::OutOfRange);
        }
        let fresh = match VMObjectPaged::new(count, mem, alloc) {
            Ok(f) => f,
            Err(e) => {
                proof {
                    self.lemma_bystander(
                        Set::<u64>::empty(),
                        m0,
                        a0,
                        Set::<u64>::empty(),
                        mem@,
                        alloc@,
                    );
                    lemma_changes_lift(
                        Set::<u64>::empty(),
                        m0,
                        a0,
                        Set::<u64>::empty(),
                        mem@,
                        alloc@,
                        own0,
                    );
                    assert(Set::<u64>::empty().union(own0) =~= own0);
                    assert forall|p: u64| views_owned(views).contains(p) implies #[trigger] mem@.page(
                        p,
                    ) == m0.page(p) by {
                        assert(own0.contains(p));
                    }
                }
                return Err(e);
            },
        };
        let ghost m1 = mem@;
        let ghost a1 = alloc@;
        let ghost pages = fresh.pages();
        let ghost own_fresh = pages.to_set();
        proof {
            self.lemma_bystander(Set::<u64>::empty(), m0, a0, own_fresh, m1, a1);
            lemma_changes_lift(Set::<u64>::empty(), m0, a0, own_fresh, m1, a1, own0);
            assert(Set::<u64>::empty().union(own0) =~= own0);
            assert(contents(pages, m1) =~= zeros(count * PAGE_SIZE)) by {
                assert forall|i: int| 0 <= i < count * PAGE_SIZE implies contents(pages, m1)[i]
                    == 0u8 by {
                    assert(m1.page(pages[i / PAGE_SIZE as int]) == super::memory::zero_page());
                }
            }
        }
        let wrote = fresh.write(mem, init_offset, init);
        let ghost m2 = mem@;
        proof {
            if init_offset <= count * PAGE_SIZE {
                lemma_store_written(m1, pages, init_offset as int, init@.subrange(0, wrote as int));
            }
            assert forall|p: u64| #[trigger] own_fresh.contains(p) implies a1.is_allocated(p) by {
                let k = choose|k: int| 0 <= k < pages.len() && pages[k] == p;
                assert(a1.is_allocated(pages[k]));
            }
            super::frame::lemma_owner_write(own_fresh, m1, a1, m2);
            self.lemma_bystander(own_fresh, m1, a1, own_fresh, m2, a1);
            lemma_changes_lift(own_fresh, m1, a1, own_fresh, m2, a1, own0);
            lemma_changes_trans(
                own0,
                m0,
                a0,
                own_fresh.union(own0),
                m1,
                a1,
                own_fresh.union(own0),
                m2,
                a1,
            );
            assert(own_fresh.union(own0) =~= own0.union(own_fresh));
        }
        let vmo = Vmo::Paged(fresh);
        proof {
            assert(vmo.owned() == own_fresh);
            assert(vmo.wf(m2, a1)) by {
                assert forall|k: int| 0 <= k < pages.len() implies m2.contains(#[trigger] pages[k]) by {
                    assert(m1.contains(pages[k]));
                }
            }
        }
        proof {
            assert forall|p: u64| old(self).table().frames().contains(p) implies #[trigger] m2.page(
                p,
            ) == m0.page(p) by {
                assert(own0.contains(p));
                assert(m2.page(p) == m1.page(p));
                assert(m1.page(p) == m0.page(p));
            }
            lemma_changes_shape(own0, m0, a0, own0.union(own_fresh), m2, a1);
            old(self).table().lemma_inv_frame(m0, m2);
            lemma_tables_needed_same(
                m0,
                m2,
                self.table().spec_root(),
                base_vpn.0,
                count as int,
            );
        }
        let r = self.map(mem, alloc, vmo, 0, base_vpn, Some(count), flags);
        proof {
            lemma_changes_trans(
                own0,
                m0,
                a0,
                own0.union(own_fresh),
                m2,
                a1,
                self.owned(),
                mem@,
                alloc@,
            );
            assert forall|p: u64| views_owned(views).contains(p) implies #[trigger] mem@.page(p)
                == m0.page(p) by {
                assert(own0.contains(p));
                assert(m2.page(p) == m1.page(p));
                assert(m1.page(p) == m0.page(p));
            }
            let probe = fresh_view(flags@, base_vpn.0, count as nat, Seq::empty());
            let actual = fresh_view(flags@, base_vpn.0, count as nat, pages);
            assert forall|k: int| 0 <= k < views.len() implies overlaps(#[trigger] views[k], probe)
                == overlaps(views[k], actual) by {}
            if r.is_ok() {
                assert(self.views().drop_last() =~= views);
                assert(self.views().last() == actual);
                assert forall|i: int| 0 <= i < pages.len() implies mem@.page(#[trigger] pages[i])
                    == m2.page(pages[i]) by {
                    assert(pages.contains(pages[i]));
                    assert(own_fresh.contains(pages[i]));
                }
                lemma_contents_frame(pages, m2, mem@);
                assert(contents(pages, m2) =~= fresh_contents(
                    count as int,
                    init_offset as int,
                    init@,
                ));
            }
        }
        r
    }

    /// Maps a copy of one mapping of another address space: the same pages
    /// where the object does not own them, fresh frames with the same bytes
    /// where it does.
    fn fork_one(
        &mut self,
        mem: &mut PhysMemory,
        alloc: &mut LinkedStackFrameAllocator,
        src: &VMMapping,
    ) -> (r: Result<(), KernelError>)
        requires
            old(mem).wf(),
            old(alloc).wf(old(mem)@),
            old(self).wf(old(mem)@, old(alloc)@),
            src@.wf(old(mem)@, old(alloc)@),
            forall|p: u64| #[trigger] src@.owned().contains(p) ==> !old(self).owned().contains(p),
        ensures
            final(mem).wf(),
            final(alloc).wf(final(mem)@),
            final(self).wf(final(mem)@, final(alloc)@),
            final(self).table().spec_root() == old(self).table().spec_root(),
            changes(
                old(self).owned(),
                old(mem)@,
                old(alloc)@,
                final(self).owned(),
                final(mem)@,
                final(alloc)@,
            ),
            forall|p: u64|
                views_owned(old(self).views()).contains(p) ==> #[trigger] final(mem)@.page(p)
                    == old(mem)@.page(p),
            r.is_ok() ==> final(self).views().len() == old(self).views().len() + 1 && final(self).views().drop_last() == old(self).views() && forked(
                src@,
                old(mem)@,
                final(self).views().last(),
                final(mem)@,
            ),
            r.is_err() ==> final(self).views() == old(self).views(),
            failure(r) == fork_step(
                old(self).views(),
                old(alloc)@.available(),
                depths(old(mem)@, old(self).table().spec_root()),
                src@,
            ),
            r.is_ok() ==> final(alloc)@.available() == old(alloc)@.available() - (if src@.paged {
                src@.page_count as int
            } else {
                0
            }) - tables_needed(
                old(mem)@,
                old(self).table().spec_root(),
                src@.base_vpn,
                src@.page_count as int,
            ),
            r.is_ok() ==> forall|v: u64|
                v < VPN_LIMIT ==> #[trigger] depth(final(mem)@, final(self).table().spec_root(), v)
                    == range_depth(
                    depth(old(mem)@, old(self).table().spec_root(), v),
                    v,
                    src@.base_vpn,
                    src@.page_count as int,
                ),
    {
        let ghost m0 = mem@;
        let ghost a0 = alloc@;
        let ghost own0 = self.owned();
        let ghost views = self.views();
        let ghost w = src@;
        proof {
            self.lemma_owned_allocated(m0, a0);
            let probe = fresh_view(w.flags, w.base_vpn, w.page_count, Seq::empty());
            let whole = MappingView {
                flags: w.flags,
                base_vpn: w.base_vpn,
                page_count: w.page_count,
                vmo_page_offset: w.vmo_page_offset,
                pages: w.pages,
                paged: false,
            };
            assert forall|k: int| 0 <= k < views.len() implies overlaps(#[trigger] views[k], probe)
                == overlaps(views[k], w) && overlaps(views[k], whole) == overlaps(views[k], w) by {}
        }
        match &src.vmo {
            Vmo::Physical(v) => {
                let copy = Vmo::Physical(v.duplicate());
                proof {
                    assert(own0.union(copy.owned()) =~= own0);
                }
                let r = self.map(
                    mem,
                    alloc,
                    copy,
                    src.vmo_page_offset,
                    src.base_vpn,
                    Some(src.page_count),
                    src.flags,
                );
                proof {
                    if r.is_ok() {
                        assert(self.views().drop_last() =~= views);
                    }
                }
                r
            },
            Vmo::Paged(v) => {
                let count: usize = src.page_count;
                let total: usize = v.page_count();
                let mut tmp: Vec<u8> = vec![0u8; count * PAGE_SIZE];
                let got = v.read(mem, src.vmo_page_offset * PAGE_SIZE, &mut tmp);
                proof {
                    assert(got == count * PAGE_SIZE);
                    assert(tmp@ =~= contents(w.pages, m0).subrange(
                        w.vmo_page_offset * PAGE_SIZE,
                        (w.vmo_page_offset + w.page_count) * PAGE_SIZE,
                    ));
                }
                let r = self.map_fresh(
                    mem,
                    alloc,
                    src.base_vpn,
                    count,
                    src.flags,
                    0,
                    tmp.as_slice(),
                );
                proof {
                    if r.is_ok() {
                        assert(tmp@.subrange(0, tmp@.len() as int) =~= tmp@);
                        assert(fresh_contents(count as int, 0, tmp@) =~= tmp@);
                    }
                }
                r
            },
        }
    }

    /// Maps into this address space a copy of every mapping of `other`, in
    /// their order: objects that do not own their pages are shared, and
    /// objects that do are copied into fresh frames. Stops at the first
    /// mapping that cannot be made and returns its error.
    pub fn fork_from(
        &mut self,
        other: &AddressSpace,
        mem: &mut PhysMemory,
        alloc: &mut LinkedStackFrameAllocator,
    ) -> (r: Result<(), KernelError>)
        requires
            old(mem).wf(),
            old(alloc).wf(old(mem)@),
            old(self).wf(old(mem)@, old(alloc)@),
            other.wf(old(mem)@, old(alloc)@),
            forall|p: u64| #[trigger] other.owned().contains(p) ==> !old(self).owned().contains(p),
        ensures
            final(mem).wf(),
            final(alloc).wf(final(mem)@),
            final(self).wf(final(mem)@, final(alloc)@),
            other.wf(final(mem)@, final(alloc)@),
            final(self).table().spec_root() == old(self).table().spec_root(),
            forall|p: u64| #[trigger] other.owned().contains(p) ==> !final(self).owned().contains(p),
            forall|p: u64|
                other.owned().contains(p) ==> #[trigger] final(mem)@.page(p) == old(mem)@.page(p),
            changes(
                old(self).owned(),
                old(mem)@,
                old(alloc)@,
                final(self).owned(),
                final(mem)@,
                final(alloc)@,
            ),
            failure(r) == fork_outcome(
                old(self).views(),
                old(alloc)@.available(),
                depths(old(mem)@, old(self).table().spec_root()),
                other.views(),
                0,
            ),
            r.is_ok() ==> final(alloc)@.available() == old(alloc)@.available() - fork_cost(
                depths(old(mem)@, old(self).table().spec_root()),
                other.views(),
                other.views().len() as int,
            ),
            r.is_ok() ==> {
                &&& final(self).views().len() == old(self).views().len() + other.views().len()
                &&& final(self).views().subrange(0, old(self).views().len() as int) == old(self).views()
                &&& forall|k: int|
                    0 <= k < other.views().len() ==> forked(
                        #[trigger] other.views()[k],
                        old(mem)@,
                        final(self).views()[old(self).views().len() + k],
                        final(mem)@,
                    )
            },
    {
        let ghost m0 = mem@;
        let ghost a0 = alloc@;
        let ghost own0 = self.owned();
        let ghost views0 = self.views();
        let ghost theirs = other.views();
        proof {
            self.lemma_owned_allocated(m0, a0);
            other.lemma_owned_allocated(m0, a0);
            lemma_changes_refl(own0, m0, a0);
            assert(self.views().subrange(0, views0.len() as int) =~= views0);
            assert(theirs.subrange(0, 0) =~= Seq::<MappingView>::empty());
        }
        let ghost root = self.table().spec_root();
        let ghost d0 = depths(m0, root);
        let mut k: usize = 0;
        while k < other.mappings.len()
            invariant
                k <= other.mappings@.len(),
                root == self.table().spec_root(),
                d0 == depths(m0, root),
                alloc@.available() == a0.available() - fork_cost(d0, theirs, k as int),
                depths(mem@, root) == fork_depths(d0, theirs, k as int),
                fork_outcome(views0, a0.available(), d0, theirs, 0) == fork_outcome(
                    views0,
                    a0.available(),
                    d0,
                    theirs,
                    k as int,
                ),
                theirs == other.views(),
                theirs.len() == other.mappings@.len(),
                m0 == old(mem)@,
                a0 == old(alloc)@,
                own0 == old(self).owned(),
                views0 == old(self).views(),
                mem.wf(),
                alloc.wf(mem@),
                self.wf(mem@, alloc@),
                other.wf(mem@, alloc@),
                other.wf(m0, a0),
                self.table().spec_root() == old(self).table().spec_root(),
                forall|p: u64| #[trigger] other.owned().contains(p) ==> !self.owned().contains(p),
                forall|p: u64| other.owned().contains(p) ==> #[trigger] mem@.page(p) == m0.page(p),
                changes(own0, m0, a0, self.owned(), mem@, alloc@),
                self.views().len() == views0.len() + k,
                self.views().subrange(0, views0.len() as int) == views0,
                forall|j: int|
                    0 <= j < k ==> forked(
                        #[trigger] theirs[j],
                        m0,
                        self.views()[views0.len() + j],
                        mem@,
                    ),
            decreases other.mappings@.len() - k,
        {
            let ghost m1 = mem@;
            let ghost a1 = alloc@;
            let ghost own1 = self.owned();
            let ghost views1 = self.views();
            let src = &other.mappings[k];
            proof {
                assert(theirs[k as int] == src@);
                assert(other.views()[k as int].wf(m1, a1));
                assert forall|p: u64| #[trigger] src@.owned().contains(p) implies !self.owned().contains(
                    p,
                ) by {
                    assert(other.views()[k as int].owned().contains(p));
                    assert(views_owned(other.views()).contains(p));
                    assert(other.owned().contains(p));
                }
                other.lemma_owned_allocated(m1, a1);
            }
            let r = self.fork_one(mem, alloc, src);
            proof {
                let before = views0 + theirs.subrange(0, k as int);
                let w = theirs[k as int];
                assert(views1.len() == before.len());
                assert forall|j: int| 0 <= j < views1.len() implies (#[trigger] views1[j]).base_vpn
                    == before[j].base_vpn && views1[j].page_count == before[j].page_count by {
                    if j < views0.len() {
                        assert(views1.subrange(0, views0.len() as int)[j] == views0[j]);
                    } else {
                        assert(forked(theirs[j - views0.len()], m0, views1[j], m1));
                    }
                }
                lemma_clashes_ranges(views1, before, w.base_vpn, w.page_count as int);
                assert(failure(r) == fork_step(
                    before,
                    a0.available() - fork_cost(d0, theirs, k as int),
                    fork_depths(d0, theirs, k as int),
                    w,
                ));
                if r.is_ok() {
                    assert forall|v: u64| #[trigger] depths(mem@, root)(v) == fork_depths(
                        d0,
                        theirs,
                        k + 1,
                    )(v) by {
                        if v >= VPN_LIMIT {
                            assert(depths(m1, root)(v) == 0);
                            super::page_table::lemma_range_depth_outside(
                                0,
                                v,
                                w.base_vpn,
                                w.page_count as int,
                            );
                        } else {
                            assert(depths(m1, root)(v) == depth(m1, root, v));
                        }
                    }
                    assert(depths(mem@, root) =~= fork_depths(d0, theirs, k + 1));
                }
                let upto = theirs.subrange(0, k + 1);
                assert(upto.drop_last() =~= theirs.subrange(0, k as int));
                assert(upto.last() == theirs[k as int]);
                if r.is_err() && r.unwrap_err() == KernelError::Overlap {
                    let j = choose|j: int|
                        0 <= j < views1.len() && overlaps(#[trigger] views1[j], src@);
                    if j >= views0.len() {
                        let i = j - views0.len();
                        assert(forked(theirs[i], m0, views1[views0.len() + i], m1));
                        assert(!overlaps(theirs[i], theirs[k as int]));
                    } else {
                        assert(views1.subrange(0, views0.len() as int)[j] == views0[j]);
                        assert(overlaps(views0[j], theirs[k as int]));
                    }
                }
                lemma_changes_trans(own0, m0, a0, own1, m1, a1, self.owned(), mem@, alloc@);
                super::frame::lemma_changes_shape(own1, m1, a1, self.owned(), mem@, alloc@);
                assert forall|p: u64| #[trigger] other.owned().contains(p) implies alloc@.is_allocated(
                    p,
                ) && !self.owned().contains(p) && mem@.page(p) == m1.page(p) by {
                    lemma_changes_other(own1, m1, a1, self.owned(), mem@, alloc@, p);
                }
                other.lemma_wf_frame(m1, a1, mem@, alloc@);
                if r.is_ok() {
                    let views2 = self.views();
                    assert(views2.subrange(0, views0.len() as int) =~= views0) by {
                        assert forall|j: int| 0 <= j < views0.len() implies views2[j] == views0[j] by {
                            assert(views2.drop_last()[j] == views1[j]);
                            assert(views1.subrange(0, views0.len() as int)[j] == views0[j]);
                        }
                    }
                    assert forall|j: int| 0 <= j < k + 1 implies forked(
                        #[trigger] theirs[j],
                        m0,
                        views2[views0.len() + j],
                        mem@,
                    ) by {
                        let src_view = theirs[j];
                        assert(src_view.wf(m0, a0));
                        assert forall|i: int| 0 <= i < src_view.pages.len() && src_view.paged
                            implies m1.page(#[trigger] src_view.pages[i]) == m0.page(
                            src_view.pages[i],
                        ) by {
                            assert(src_view.pages.contains(src_view.pages[i]));
                            assert(theirs[j].owned().contains(src_view.pages[i]));
                            assert(views_owned(theirs).contains(src_view.pages[i]));
                            assert(other.owned().contains(src_view.pages[i]));
                        }
                        if j < k {
                            let copy = views1[views0.len() + j];
                            assert(views2.drop_last()[views0.len() + j] == copy);
                            assert(forked(theirs[j], m0, copy, m1));
                            if src_view.paged {
                                assert(self.views().drop_last() == views1);
                                assert(views1[views0.len() + j].wf(m1, a1));
                                assert forall|i: int| 0 <= i < copy.pages.len() implies mem@.page(
                                    #[trigger] copy.pages[i],
                                ) == m1.page(copy.pages[i]) by {
                                    assert(copy.pages.contains(copy.pages[i]));
                                    assert(views1[views0.len() + j].owned().contains(copy.pages[i]));
                                    assert(views_owned(views1).contains(copy.pages[i]));
                                }
                                lemma_contents_frame(copy.pages, m1, mem@);
                            }
                        } else {
                            assert(views2[views0.len() + j] == views2.last());
                            if src_view.paged {
                                lemma_contents_frame(src_view.pages, m0, m1);
                            }
                        }
                    }
                }
            }
            match r {
                Ok(()) => {},
                Err(e) => {
                    return Err(e);
                },
            }
            k += 1;
        }
        Ok(())
    }

    /// The physical page that holds the byte at `vaddr` for an access that
    /// needs the flags `flags`; `None` where no mapping that carries them
    /// covers the address.
    pub fn page_of(&self, mem: &PhysMemory, vaddr: VirtAddr, flags: PTEFlags) -> (r: Option<
        PhysPageNum,
    >)
        requires
            self.shape_ok(mem@),
        ensures
            locate(self.views(), vaddr.0 as int, flags@) == (match r {
                Some(p) => Some((p.0, (vaddr.0 % PAGE_SIZE_U64) as int)),
                None => None,
            }),
            r matches Some(p) ==> mem@.contains(p.0),
    {
        proof {
            lemma_find_from(self.views(), vaddr.0 / PAGE_SIZE_U64, flags@, 0);
        }
        match self.find_mapping(vaddr, flags) {
            None => None,
            Some(k) => {
                let mapping = &self.mappings[k];
                assert(self.views()[k as int] == mapping@);
                let page: u64 = vaddr.0 / PAGE_SIZE_U64;
                let total: usize = mapping.vmo.page_count();
                let index: usize = mapping.vmo_page_offset + (page - mapping.base_vpn.0) as usize;
                mapping.vmo.get_page(index)
            },
        }
    }

    /// An address space stays well formed through a change by the owner
    /// of other frames, and shares no frame with that owner afterwards.
    pub proof fn lemma_bystander(
        &self,
        own0: Set<u64>,
        m0: MemoryView,
        a0: FrameAllocatorView,
        own1: Set<u64>,
        m1: MemoryView,
        a1: FrameAllocatorView,
    )
        requires
            self.wf(m0, a0),
            changes(own0, m0, a0, own1, m1, a1),
            m1.wf(),
            forall|p: u64| #[trigger] self.owned().contains(p) ==> !own0.contains(p),
        ensures
            self.wf(m1, a1),
            forall|p: u64| #[trigger] self.owned().contains(p) ==> !own1.contains(p),
            forall|p: u64| self.owned().contains(p) ==> #[trigger] m1.page(p) == m0.page(p),
            confined(self.views(), a0) ==> confined(self.views(), a1),
    {
        self.lemma_owned_allocated(m0, a0);
        lemma_changes_shape(own0, m0, a0, own1, m1, a1);
        assert forall|p: u64| #[trigger] self.owned().contains(p) implies a1.is_allocated(p)
            && !own1.contains(p) && m1.page(p) == m0.page(p) by {
            lemma_changes_other(own0, m0, a0, own1, m1, a1, p);
        }
        assert forall|p: u64| self.table().frames().contains(p) implies #[trigger] m1.page(p)
            == m0.page(p) by {
            assert(self.owned().contains(p));
        }
        self.lemma_wf_frame(m0, a0, m1, a1);
    }

    /// No virtual page is covered by two mappings of a well-formed address
    /// space.
    pub proof fn lemma_mappings_disjoint(
        &self,
        m: MemoryView,
        a: FrameAllocatorView,
        k: int,
        l: int,
        vpn: u64,
    )
        requires
            self.wf(m, a),
            0 <= k < self.views().len(),
            0 <= l < self.views().len(),
            k != l,
        ensures
            !overlaps(self.views()[k], self.views()[l]),
            !(self.views()[k].covers(vpn) && self.views()[l].covers(vpn)),
    {
        if k < l {
            assert(!overlaps(self.views()[k], self.views()[l]));
        } else {
            assert(!overlaps(self.views()[l], self.views()[k]));
        }
    }

    /// The number of mappings.
    pub fn mapping_count(&self) -> (n: usize)
        ensures
            n == self.views().len(),
    {
        self.mappings.len()
    }

    /// The mapping at position `k`.
    pub fn mapping(&self, k: usize) -> (r: Option<&VMMapping>)
        ensures
            r.is_some() == (k < self.views().len()),
            r matches Some(mapping) ==> mapping@ == self.views()[k as int],
    {
        if k < self.mappings.len() {
            Some(&self.mappings[k])
        } else {
            None
        }
    }

    /// The position of the first mapping that covers the page of `vaddr`
    /// and carries every flag of `flags`.
    pub fn find_mapping(&self, vaddr: VirtAddr, flags: PTEFlags) -> (r: Option<usize>)
        ensures
            (match r {
                Some(k) => Some(k as int),
                None => None,
            }) == find_spec(self.views(), vaddr.0 / PAGE_SIZE_U64, flags@),
    {
        let page = vaddr.floor_page_num();
        let mut i: usize = 0;
        while i < self.mappings.len()
            invariant
                i <= self.mappings@.len(),
                page.0 == vaddr.0 / PAGE_SIZE_U64,
                find_spec(self.views(), page.0, flags@) == find_from(
                    self.views(),
                    page.0,
                    flags@,
                    i as int,
                ),
            decreases self.mappings@.len() - i,
        {
            let mapping = &self.mappings[i];
            assert(self.views()[i as int] == mapping@);
            if mapping.flags.contains(flags) && page.0 >= mapping.base_vpn.0 && page.0
                - mapping.base_vpn.0 < mapping.page_count as u64 {
                return Some(i);
            }
            i += 1;
        }
        None
    }
}

} // verus!
