//! Sv39 page tables: entry flags, entries, and the three-level table held
//! in physical frames.

use vstd::prelude::*;
use crate::error::KernelError;
use super::addr::{spec_indexes, PhysPageNum, VirtPageNum, PPN_LIMIT, VPN_LIMIT};
use super::frame::{changes, Frame, FrameAllocatorView, LinkedStackFrameAllocator};
use super::memory::{lemma_page_set_word, lemma_zero_page_word, zero_page, MemoryView, PhysMemory};

verus! {

/// The flag bits in the low byte of a page-table entry.
///
/// An entry that is valid with none of read, write and execute set points to
/// the next level of the table.
#[derive(Copy, Clone, Debug, PartialEq, Eq, Structural)]
pub struct PTEFlags {
    bits: u8,
}

impl View for PTEFlags {
    type V = u8;

    closed spec fn view(&self) -> u8 {
        self.bits
    }
}

impl PTEFlags {
    /// Valid.
    pub const V: u8 = 1;

    /// Read.
    pub const R: u8 = 2;

    /// Write.
    pub const W: u8 = 4;

    /// Execute.
    pub const X: u8 = 8;

    /// User.
    pub const U: u8 = 16;

    /// Global.
    pub const G: u8 = 32;

    /// Accessed.
    pub const A: u8 = 64;

    /// Dirty.
    pub const D: u8 = 128;

    /// Read, write and execute together.
    pub const RWX: u8 = 14;

    /// No flag set.
    pub fn empty() -> (f: PTEFlags)
        ensures
            f@ == 0,
    {
        PTEFlags { bits: 0 }
    }

    /// The flags whose bits are `bits`. Every bit of a byte is a flag, so
    /// nothing is cut off.
    pub fn from_bits_truncate(bits: u8) -> (f: PTEFlags)
        ensures
            f@ == bits,
    {
        PTEFlags { bits }
    }

    /// The flags as a byte.
    pub fn bits(&self) -> (b: u8)
        ensures
            b == self@,
    {
        self.bits
    }

    /// Whether no flag is set.
    pub fn is_empty(&self) -> (b: bool)
        ensures
            b == (self@ == 0),
    {
        self.bits == 0
    }

    /// Whether every flag of `other` is set in `self`.
    pub fn contains(&self, other: PTEFlags) -> (b: bool)
        ensures
            b == (self@ & other@ == other@),
    {
        self.bits & other.bits == other.bits
    }

    /// Sets every flag of `other`.
    pub fn insert(&mut self, other: PTEFlags)
        ensures
            final(self)@ == old(self)@ | other@,
    {
        self.bits = self.bits | other.bits;
    }

    /// The flags set in `self` or in `other`.
    pub fn union(self, other: PTEFlags) -> (f: PTEFlags)
        ensures
            f@ == self@ | other@,
    {
        PTEFlags { bits: self.bits | other.bits }
    }

    /// The flags set in `self` and in `other`.
    pub fn intersection(self, other: PTEFlags) -> (f: PTEFlags)
        ensures
            f@ == self@ & other@,
    {
        PTEFlags { bits: self.bits & other.bits }
    }
}

/// One entry of a page table.
///
/// From the top: ten reserved bits, a physical page number of 44 bits, two
/// bits that the hardware ignores, and the eight flag bits.
#[derive(Copy, Clone, Debug, PartialEq, Eq, Structural)]
pub struct PageTableEntry {
    pub bits: u64,
}

impl PageTableEntry {
    /// The entry that names page `ppn` with flags `flags`.
    pub open spec fn spec_new(ppn: u64, flags: u8) -> PageTableEntry {
        PageTableEntry { bits: (ppn << 10) | (flags as u64) }
    }

    /// The physical page number that the entry names.
    pub open spec fn spec_ppn(self) -> u64 {
        (self.bits >> 10) % 0x1000_0000_0000
    }

    /// The flag byte of the entry.
    pub open spec fn spec_flags(self) -> u8 {
        (self.bits & 0xff) as u8
    }

    /// Whether the valid flag is set.
    pub open spec fn spec_valid(self) -> bool {
        self.spec_flags() & 1 == 1
    }

    /// An entry made from a page number below the limit and a flag byte
    /// gives both back.
    pub proof fn lemma_new_roundtrip(ppn: u64, flags: u8)
        requires
            ppn < PPN_LIMIT,
        ensures
            Self::spec_new(ppn, flags).spec_ppn() == ppn,
            Self::spec_new(ppn, flags).spec_flags() == flags,
            Self::spec_new(ppn, (flags | 1)).spec_valid(),
    {
        assert(((ppn << 10) | (flags as u64)) >> 10 == ppn && ((ppn << 10) | (flags as u64)) & 0xff
            == flags as u64 && ppn % 0x1000_0000_0000 == ppn && (flags | 1) & 1 == 1) by (bit_vector)
            requires
                ppn < 0x1000_0000_0000,
        ;
        Self::lemma_new_roundtrip_valid(ppn, flags);
    }

    proof fn lemma_new_roundtrip_valid(ppn: u64, flags: u8)
        ensures
            Self::spec_new(ppn, (flags | 1)).spec_valid(),
    {
        let f: u8 = flags | 1;
        assert((((ppn << 10) | (f as u64)) & 0xff) == f as u64) by (bit_vector);
        assert(f & 1 == 1) by (bit_vector)
            requires
                f == flags | 1,
        ;
    }

    /// The entry of all zero bits is not valid.
    pub proof fn lemma_empty_invalid()
        ensures
            !(PageTableEntry { bits: 0 }).spec_valid(),
    {
        assert((0u64 & 0xff) == 0) by (bit_vector);
        assert(0u8 & 1 == 0) by (bit_vector);
    }

    /// An entry that names `ppn` with flags `flags`.
    pub fn new(ppn: PhysPageNum, flags: PTEFlags) -> (e: PageTableEntry)
        ensures
            e == Self::spec_new(ppn.0, flags@),
    {
        PageTableEntry { bits: ppn.0 << 10 | flags.bits() as u64 }
    }

    /// The entry of all zero bits.
    pub fn new_empty() -> (e: PageTableEntry)
        ensures
            e.bits == 0,
            !e.spec_valid(),
    {
        proof {
            Self::lemma_empty_invalid();
        }
        PageTableEntry { bits: 0 }
    }

    /// The physical page number that the entry names.
    pub fn ppn(&self) -> (p: PhysPageNum)
        ensures
            p.0 == self.spec_ppn(),
            p.0 < PPN_LIMIT,
    {
        PhysPageNum((self.bits >> 10) % 0x1000_0000_0000)
    }

    /// The flags of the entry.
    pub fn flags(&self) -> (f: PTEFlags)
        ensures
            f@ == self.spec_flags(),
    {
        let bits: u64 = self.bits;
        let low: u64 = bits & 0xff;
        assert(low < 256) by (bit_vector)
            requires
                low == bits & 0xff,
        ;
        PTEFlags::from_bits_truncate(low as u8)
    }

    /// Whether the valid flag is set.
    pub fn valid(&self) -> (b: bool)
        ensures
            b == self.spec_valid(),
    {
        self.flags().contains(PTEFlags::from_bits_truncate(PTEFlags::V))
    }

    /// Whether the read flag is set.
    pub fn readable(&self) -> (b: bool)
        ensures
            b == (self.spec_flags() & 2 == 2),
    {
        self.flags().contains(PTEFlags::from_bits_truncate(PTEFlags::R))
    }

    /// Whether the write flag is set.
    pub fn writable(&self) -> (b: bool)
        ensures
            b == (self.spec_flags() & 4 == 4),
    {
        self.flags().contains(PTEFlags::from_bits_truncate(PTEFlags::W))
    }

    /// Whether the execute flag is set.
    pub fn executable(&self) -> (b: bool)
        ensures
            b == (self.spec_flags() & 8 == 8),
    {
        self.flags().contains(PTEFlags::from_bits_truncate(PTEFlags::X))
    }
}


/// Where a table frame stands in the tree of a page table.
pub struct TableInfo {
    /// Zero for the root, one and two for the levels below.
    pub level: nat,
    /// The leading index digits of the virtual pages that the table serves.
    pub prefix: nat,
    /// The table whose entry points to this one; the root for the root.
    pub parent: u64,
}

/// The entry at index `idx` of the table in frame `table`.
pub open spec fn pte_at(m: MemoryView, table: u64, idx: int) -> PageTableEntry {
    PageTableEntry { bits: m.word(table, idx) }
}

/// The frame of the leaf table that the walk from `root` reaches for
/// `vpn`, or nothing when an entry on the way is not valid or points out of
/// RAM.
pub open spec fn leaf_table(m: MemoryView, root: u64, vpn: u64) -> Option<u64> {
    let (i0, i1, i2) = spec_indexes(vpn);
    if !m.contains(root) {
        None
    } else {
        let e0 = pte_at(m, root, i0);
        if !e0.spec_valid() || !m.contains(e0.spec_ppn()) {
            None
        } else {
            let e1 = pte_at(m, e0.spec_ppn(), i1);
            if !e1.spec_valid() || !m.contains(e1.spec_ppn()) {
                None
            } else {
                Some(e1.spec_ppn())
            }
        }
    }
}

/// What the table walk from `root` finds for `vpn`: the leaf entry, valid or
/// not, or nothing when an entry on the way is not valid or points out of
/// RAM.
pub open spec fn walk(m: MemoryView, root: u64, vpn: u64) -> Option<PageTableEntry> {
    match leaf_table(m, root, vpn) {
        Some(table) => Some(pte_at(m, table, spec_indexes(vpn).2)),
        None => None,
    }
}

/// The valid leaf entry that translates `vpn`, if there is one.
pub open spec fn translate(m: MemoryView, root: u64, vpn: u64) -> Option<PageTableEntry> {
    match walk(m, root, vpn) {
        Some(e) => if e.spec_valid() {
            Some(e)
        } else {
            None
        },
        None => None,
    }
}

/// The entry at `idx` of table `p` points to `c`, and `c` is recorded one
/// level below `p`.
pub open spec fn child_ok(t: Map<u64, TableInfo>, p: u64, k: int, c: u64) -> bool {
    &&& t.dom().contains(c)
    &&& t[c].level == t[p].level + 1
    &&& t[c].prefix == t[p].prefix * 512 + k
    &&& t[c].parent == p
}

/// The recorded parent of table `p` holds a valid entry that points to `p`.
pub open spec fn parent_ok(m: MemoryView, t: Map<u64, TableInfo>, p: u64) -> bool {
    let q = t[p].parent;
    let k = (t[p].prefix % 512) as int;
    &&& t.dom().contains(q)
    &&& t[q].level + 1 == t[p].level
    &&& t[q].prefix == t[p].prefix / 512
    &&& pte_at(m, q, k).spec_valid()
    &&& pte_at(m, q, k).spec_ppn() == p
}

/// The frames recorded in `t` form the tree of tables below `root`: every
/// valid entry above the leaf level points to a recorded table one level
/// down, and every recorded table but the root is pointed to by its parent.
pub open spec fn tables_inv(m: MemoryView, root: u64, t: Map<u64, TableInfo>) -> bool {
    &&& m.wf()
    &&& t.dom().contains(root)
    &&& t[root].level == 0
    &&& t[root].prefix == 0
    &&& forall|p: u64| #[trigger]
        t.dom().contains(p) ==> m.contains(p) && t[p].level <= 2 && (t[p].level == 0 ==> p == root)
    &&& forall|p: u64, k: int|
        t.dom().contains(p) && t[p].level < 2 && 0 <= k < 512 && (#[trigger] pte_at(
            m,
            p,
            k,
        )).spec_valid() ==> child_ok(t, p, k, pte_at(m, p, k).spec_ppn())
    &&& forall|p: u64| t.dom().contains(p) && t[p].level > 0 ==> #[trigger] parent_ok(m, t, p)
}

/// The leaf table of `vpn` is `table`, recorded in `t`, and the walk for
/// `vpn` ends at its entry `idx`.
pub open spec fn is_leaf_slot(
    m: MemoryView,
    root: u64,
    t: Map<u64, TableInfo>,
    vpn: u64,
    table: u64,
    idx: int,
) -> bool {
    &&& t.dom().contains(table)
    &&& t[table].level == 2
    &&& t[table].prefix == vpn / 512
    &&& idx == vpn % 512
    &&& leaf_table(m, root, vpn) == Some(table)
}

/// Memory `m` after frame `child` was zeroed and entry `idx` of `table` was
/// made to point to it.
pub open spec fn install_table(m: MemoryView, table: u64, idx: int, child: u64) -> MemoryView {
    m.set_page(child, zero_page()).set_word(table, idx, PageTableEntry::spec_new(child, 1).bits)
}

/// The tree after `child` was recorded below entry `idx` of `table`.
pub open spec fn install_info(t: Map<u64, TableInfo>, table: u64, idx: int, child: u64) -> Map<
    u64,
    TableInfo,
> {
    t.insert(
        child,
        TableInfo {
            level: t[table].level + 1,
            prefix: t[table].prefix * 512 + idx as nat,
            parent: table,
        },
    )
}

/// Installing a zeroed table below an entry that was not valid changes that
/// entry and the new frame, and nothing else that the tree reads.
proof fn lemma_install_entries(
    m: MemoryView,
    root: u64,
    t: Map<u64, TableInfo>,
    table: u64,
    idx: int,
    child: u64,
)
    requires
        tables_inv(m, root, t),
        t.dom().contains(table),
        0 <= idx < 512,
        m.contains(child),
        !t.dom().contains(child),
    ensures
        install_table(m, table, idx, child).wf(),
        install_table(m, table, idx, child).same_shape(m),
        install_table(m, table, idx, child).page(child) == zero_page(),
        pte_at(install_table(m, table, idx, child), table, idx) == PageTableEntry::spec_new(
            child,
            1,
        ),
        PageTableEntry::spec_new(child, 1).spec_valid(),
        PageTableEntry::spec_new(child, 1).spec_ppn() == child,
        forall|k: int|
            0 <= k < 512 ==> (#[trigger] pte_at(install_table(m, table, idx, child), child, k)).bits
                == 0,
        forall|p: u64, k: int|
            t.dom().contains(p) && 0 <= k < 512 && !(p == table && k == idx) ==> #[trigger] pte_at(
                install_table(m, table, idx, child),
                p,
                k,
            ) == pte_at(m, p, k),
        forall|p: u64|
            m.contains(p) && p != child && p != table ==> #[trigger] install_table(
                m,
                table,
                idx,
                child,
            ).page(p) == m.page(p),
{
    let m1 = m.set_page(child, zero_page());
    let bits = PageTableEntry::spec_new(child, 1).bits;
    let m2 = install_table(m, table, idx, child);
    assert(t.dom().contains(table) ==> m.contains(table));
    lemma_page_set_word(m1.page(table), idx, bits);
    PageTableEntry::lemma_new_roundtrip(child, 1u8);
    assert(1u8 | 1u8 == 1u8) by (bit_vector);
    assert forall|k: int| 0 <= k < 512 implies (#[trigger] pte_at(m2, child, k)).bits == 0 by {
        lemma_zero_page_word(k);
    }
    assert forall|p: u64, k: int|
        t.dom().contains(p) && 0 <= k < 512 && !(p == table && k == idx) implies #[trigger] pte_at(
        m2,
        p,
        k,
    ) == pte_at(m, p, k) by {
        assert(t.dom().contains(p) ==> m.contains(p));
        assert(m1.page(p) == m.page(p));
    }
}

/// Installing a zeroed table below an entry that was not valid keeps the
/// tree a tree.
proof fn lemma_install_table(
    m: MemoryView,
    root: u64,
    t: Map<u64, TableInfo>,
    table: u64,
    idx: int,
    child: u64,
)
    requires
        tables_inv(m, root, t),
        t.dom().contains(table),
        t[table].level < 2,
        0 <= idx < 512,
        !pte_at(m, table, idx).spec_valid(),
        m.contains(child),
        !t.dom().contains(child),
    ensures
        tables_inv(install_table(m, table, idx, child), root, install_info(t, table, idx, child)),
{
    let m2 = install_table(m, table, idx, child);
    let t2 = install_info(t, table, idx, child);
    lemma_install_entries(m, root, t, table, idx, child);
    PageTableEntry::lemma_empty_invalid();
    assert forall|p: u64| #[trigger]
        t2.dom().contains(p) implies m2.contains(p) && t2[p].level <= 2 && (t2[p].level == 0 ==> p
        == root) by {
        if p != child {
            assert(t.dom().contains(p));
        }
    }
    assert forall|p: u64, k: int|
        t2.dom().contains(p) && t2[p].level < 2 && 0 <= k < 512 && (#[trigger] pte_at(
            m2,
            p,
            k,
        )).spec_valid() implies child_ok(t2, p, k, pte_at(m2, p, k).spec_ppn()) by {
        if p == child {
            assert(pte_at(m2, child, k).bits == 0);
        } else if p == table && k == idx {
        } else {
            assert(pte_at(m2, p, k) == pte_at(m, p, k));
            assert(child_ok(t, p, k, pte_at(m, p, k).spec_ppn()));
        }
    }
    assert forall|p: u64| t2.dom().contains(p) && t2[p].level > 0 implies #[trigger] parent_ok(
        m2,
        t2,
        p,
    ) by {
        if p == child {
            assert(pte_at(m2, table, idx) == PageTableEntry::spec_new(child, 1));
        } else {
            assert(t.dom().contains(p));
            assert(parent_ok(m, t, p));
            let q = t[p].parent;
            let k = (t[p].prefix % 512) as int;
            assert(t.dom().contains(q));
            assert(pte_at(m2, q, k) == pte_at(m, q, k));
        }
    }
}

/// Installing a zeroed table below an entry that was not valid changes no
/// translation.
proof fn lemma_install_table_translate(
    m: MemoryView,
    root: u64,
    t: Map<u64, TableInfo>,
    table: u64,
    idx: int,
    child: u64,
)
    requires
        tables_inv(m, root, t),
        t.dom().contains(table),
        t[table].level < 2,
        0 <= idx < 512,
        !pte_at(m, table, idx).spec_valid(),
        m.contains(child),
        !t.dom().contains(child),
    ensures
        forall|v: u64|
            translate(install_table(m, table, idx, child), root, v) == translate(m, root, v),
{
    let m2 = install_table(m, table, idx, child);
    lemma_install_entries(m, root, t, table, idx, child);
    PageTableEntry::lemma_empty_invalid();
    assert forall|v: u64| translate(m2, root, v) == translate(m, root, v) by {
        let (i0, i1, i2) = spec_indexes(v);
        let e0 = pte_at(m, root, i0);
        if root == table && i0 == idx {
            assert(pte_at(m2, child, i1).bits == 0);
        } else {
            assert(pte_at(m2, root, i0) == e0);
            if e0.spec_valid() {
                let c1 = e0.spec_ppn();
                assert(child_ok(t, root, i0, c1));
                let e1 = pte_at(m, c1, i1);
                if c1 == table && i1 == idx {
                    assert(pte_at(m2, child, i2).bits == 0);
                } else {
                    assert(pte_at(m2, c1, i1) == e1);
                    if e1.spec_valid() {
                        let c2 = e1.spec_ppn();
                        assert(child_ok(t, c1, i1, c2));
                        assert(pte_at(m2, c2, i2) == pte_at(m, c2, i2));
                    }
                }
            }
        }
    }
}

/// How an operation on a page table may change the world around it: the
/// table keeps its frames and takes new ones only from frames that were not
/// handed out, the allocator hands out what it did plus those, and every
/// page that is not a table frame keeps its content.
#[verifier::opaque]
pub open spec fn extends(
    t0: Set<u64>,
    m0: MemoryView,
    a0: FrameAllocatorView,
    t1: Set<u64>,
    m1: MemoryView,
    a1: FrameAllocatorView,
) -> bool {
    &&& m1.same_shape(m0)
    &&& a1.start == a0.start
    &&& a1.end == a0.end
    &&& forall|p: u64| t0.contains(p) ==> #[trigger] t1.contains(p)
    &&& forall|p: u64| #[trigger] t1.contains(p) && !t0.contains(p) ==> !a0.is_allocated(p)
    &&& forall|p: u64|
        #![trigger a1.is_allocated(p)]
        #![trigger a0.is_allocated(p)]
        a1.is_allocated(p) == (a0.is_allocated(p) || t1.contains(p))
    &&& forall|p: u64| m0.contains(p) && !t1.contains(p) ==> #[trigger] m1.page(p) == m0.page(p)
}

/// Nothing changed is a change that `extends` allows.
pub proof fn lemma_extends_refl(t: Set<u64>, m: MemoryView, a: FrameAllocatorView)
    requires
        forall|p: u64| #[trigger] t.contains(p) ==> a.is_allocated(p),
    ensures
        extends(t, m, a, t, m, a),
{
    reveal(extends);
}

/// Two changes that `extends` allows make one that it allows.
pub proof fn lemma_extends_trans(
    t0: Set<u64>,
    m0: MemoryView,
    a0: FrameAllocatorView,
    t1: Set<u64>,
    m1: MemoryView,
    a1: FrameAllocatorView,
    t2: Set<u64>,
    m2: MemoryView,
    a2: FrameAllocatorView,
)
    requires
        extends(t0, m0, a0, t1, m1, a1),
        extends(t1, m1, a1, t2, m2, a2),
    ensures
        extends(t0, m0, a0, t2, m2, a2),
{
    reveal(extends);
    assert forall|p: u64| m0.contains(p) && !t2.contains(p) implies m2.page(p) == m0.page(p) by {
        assert(m1.contains(p));
        assert(!t1.contains(p));
    }
}

/// A change that `extends` allows, made by a table whose frames were handed
/// out, is a change that `changes` allows.
pub proof fn lemma_extends_changes(
    t0: Set<u64>,
    m0: MemoryView,
    a0: FrameAllocatorView,
    t1: Set<u64>,
    m1: MemoryView,
    a1: FrameAllocatorView,
)
    requires
        extends(t0, m0, a0, t1, m1, a1),
        a0.wf(),
        a0.consistent(m0),
        forall|p: u64| #[trigger] t0.contains(p) ==> a0.is_allocated(p),
    ensures
        changes(t0, m0, a0, t1, m1, a1),
        m1.same_shape(m0),
        forall|p: u64| t0.contains(p) ==> #[trigger] t1.contains(p),
        forall|p: u64| m0.contains(p) && !t1.contains(p) ==> #[trigger] m1.page(p) == m0.page(p),
{
    reveal(extends);
    reveal(changes);
    assert forall|p: u64|
        #![trigger a1.is_allocated(p)]
        #![trigger a0.is_allocated(p)]
        a1.is_allocated(p) == ((a0.is_allocated(p) && !t0.contains(p)) || t1.contains(p)) by {
        if t0.contains(p) {
            assert(t1.contains(p));
        }
    }
    assert forall|p: u64| a0.is_allocated(p) && !t0.contains(p) implies #[trigger] m1.page(p)
        == m0.page(p) by {
        if t1.contains(p) {
            assert(!a0.is_allocated(p));
        }
    }
}

/// Installing a table in a fresh frame is a change that `extends` allows.
proof fn lemma_install_extends(
    m: MemoryView,
    root: u64,
    t: Map<u64, TableInfo>,
    a: FrameAllocatorView,
    table: u64,
    idx: int,
    child: u64,
)
    requires
        tables_inv(m, root, t),
        a.wf(),
        forall|p: u64| #[trigger] t.dom().contains(p) ==> a.is_allocated(p),
        t.dom().contains(table),
        0 <= idx < 512,
        m.contains(child),
        a.allocate().0 == Some(child),
    ensures
        extends(
            t.dom(),
            m,
            a,
            install_info(t, table, idx, child).dom(),
            install_table(m, table, idx, child),
            a.allocate().1,
        ),
{
    reveal(extends);
    a.lemma_alloc_fresh();
    assert(!t.dom().contains(child));
    lemma_install_entries(m, root, t, table, idx, child);
    let a1 = a.allocate().1;
    let t1 = install_info(t, table, idx, child).dom();
    assert forall|p: u64| a1.is_allocated(p) == (a.is_allocated(p) || t1.contains(p)) by {
        if t.dom().contains(p) {
            assert(a.is_allocated(p));
        }
    }
}

/// Writing one word of a table frame is a change that `extends` allows
/// after any change that it allows.
proof fn lemma_set_leaf_extends(
    t0: Set<u64>,
    m0: MemoryView,
    a0: FrameAllocatorView,
    t1: Set<u64>,
    m1: MemoryView,
    a1: FrameAllocatorView,
    table: u64,
    idx: int,
    bits: u64,
)
    requires
        extends(t0, m0, a0, t1, m1, a1),
        t1.contains(table),
        m1.contains(table),
    ensures
        extends(t0, m0, a0, t1, m1.set_word(table, idx, bits), a1),
{
    reveal(extends);
    let m2 = m1.set_word(table, idx, bits);
    assert forall|p: u64| m0.contains(p) && !t1.contains(p) implies #[trigger] m2.page(p)
        == m0.page(p) by {
        assert(m1.page(p) == m0.page(p));
        assert(p != table);
    }
}

/// The index digits of a virtual page number below the limit give the
/// number back.
pub proof fn lemma_index_digits(vpn: u64)
    requires
        vpn < VPN_LIMIT,
    ensures
        spec_indexes(vpn).0 * 512 + spec_indexes(vpn).1 == vpn / 512,
        (vpn / 512) * 512 + spec_indexes(vpn).2 == vpn,
        0 <= spec_indexes(vpn).0 < 512,
        0 <= spec_indexes(vpn).1 < 512,
        0 <= spec_indexes(vpn).2 < 512,
{
}

/// Two virtual page numbers below the limit with the same index digits are
/// the same.
pub proof fn lemma_indexes_injective(v1: u64, v2: u64)
    requires
        v1 < VPN_LIMIT,
        v2 < VPN_LIMIT,
        spec_indexes(v1) == spec_indexes(v2),
    ensures
        v1 == v2,
{
    lemma_index_digits(v1);
    lemma_index_digits(v2);
}

/// Writing the leaf entry of `vpn` keeps the tree, makes the walk for `vpn`
/// end at the new entry, and changes no other walk below the limit.
proof fn lemma_set_leaf(
    m: MemoryView,
    root: u64,
    t: Map<u64, TableInfo>,
    vpn: u64,
    table: u64,
    entry: PageTableEntry,
)
    requires
        tables_inv(m, root, t),
        vpn < VPN_LIMIT,
        is_leaf_slot(m, root, t, vpn, table, (vpn % 512) as int),
    ensures
        tables_inv(m.set_word(table, (vpn % 512) as int, entry.bits), root, t),
        walk(m.set_word(table, (vpn % 512) as int, entry.bits), root, vpn) == Some(entry),
        forall|v: u64|
            v < VPN_LIMIT && v != vpn ==> walk(
                m.set_word(table, (vpn % 512) as int, entry.bits),
                root,
                v,
            ) == walk(m, root, v),
        forall|v: u64|
            v < VPN_LIMIT ==> #[trigger] depth(
                m.set_word(table, (vpn % 512) as int, entry.bits),
                root,
                v,
            ) == depth(m, root, v),
{
    let idx = (vpn % 512) as int;
    let m2 = m.set_word(table, idx, entry.bits);
    assert(m.contains(table));
    lemma_page_set_word(m.page(table), idx, entry.bits);
    assert forall|p: u64, k: int|
        t.dom().contains(p) && 0 <= k < 512 && !(p == table && k == idx) implies #[trigger] pte_at(
        m2,
        p,
        k,
    ) == pte_at(m, p, k) by {
        assert(t.dom().contains(p) ==> m.contains(p));
    }
    assert(pte_at(m2, table, idx) == entry);
    assert forall|p: u64, k: int|
        t.dom().contains(p) && t[p].level < 2 && 0 <= k < 512 && (#[trigger] pte_at(
            m2,
            p,
            k,
        )).spec_valid() implies child_ok(t, p, k, pte_at(m2, p, k).spec_ppn()) by {
        assert(pte_at(m2, p, k) == pte_at(m, p, k));
    }
    assert forall|p: u64| t.dom().contains(p) && t[p].level > 0 implies #[trigger] parent_ok(
        m2,
        t,
        p,
    ) by {
        assert(parent_ok(m, t, p));
        let q = t[p].parent;
        let k = (t[p].prefix % 512) as int;
        assert(t.dom().contains(q));
        assert(pte_at(m2, q, k) == pte_at(m, q, k));
    }
    assert forall|v: u64| v < VPN_LIMIT implies #[trigger] depth(m2, root, v) == depth(
        m,
        root,
        v,
    ) by {
        lemma_index_digits(v);
        let (i0, i1, i2) = spec_indexes(v);
        let e0 = pte_at(m, root, i0);
        assert(pte_at(m2, root, i0) == e0);
        if e0.spec_valid() {
            let c1 = e0.spec_ppn();
            assert(child_ok(t, root, i0, c1));
            assert(pte_at(m2, c1, i1) == pte_at(m, c1, i1));
        }
    }
    lemma_index_digits(vpn);
    assert forall|v: u64| v < VPN_LIMIT implies walk(m2, root, v) == (if v == vpn {
        Some(entry)
    } else {
        walk(m, root, v)
    }) by {
        lemma_index_digits(v);
        let (i0, i1, i2) = spec_indexes(v);
        let e0 = pte_at(m, root, i0);
        assert(pte_at(m2, root, i0) == e0);
        if e0.spec_valid() {
            let c1 = e0.spec_ppn();
            assert(child_ok(t, root, i0, c1));
            let e1 = pte_at(m, c1, i1);
            assert(pte_at(m2, c1, i1) == e1);
            if e1.spec_valid() {
                let c2 = e1.spec_ppn();
                assert(child_ok(t, c1, i1, c2));
                if c2 == table && i2 == idx {
                    assert(v / 512 == vpn / 512);
                    assert(v == vpn);
                } else {
                    assert(pte_at(m2, c2, i2) == pte_at(m, c2, i2));
                }
            }
        }
    }
}

/// The number of tables below the root that stand on the way from `root`
/// to the leaf entry of `vpn`: none, one, or both.
pub open spec fn depth(m: MemoryView, root: u64, vpn: u64) -> int {
    let (i0, i1, i2) = spec_indexes(vpn);
    let e0 = pte_at(m, root, i0);
    if !e0.spec_valid() {
        0
    } else if !pte_at(m, e0.spec_ppn(), i1).spec_valid() {
        1
    } else {
        2
    }
}

/// The number of tables on the way to the leaf entry of `v`, where it was
/// `d`, once a walk for `vpn` has left `reached` tables on its own way:
/// pages of one leaf table share the whole way, and pages of one table
/// below the root share the first table.
pub open spec fn depth_beside(d: int, v: u64, vpn: u64, reached: int) -> int {
    if v / 512 == vpn / 512 {
        reached
    } else if v / 0x40000 == vpn / 0x40000 {
        if d >= 1 {
            d
        } else if reached >= 1 {
            1
        } else {
            0
        }
    } else {
        d
    }
}

/// Whether the way to the leaf entry of `v` leads through entry `idx` of
/// the table `table`.
pub open spec fn leads_through(t: Map<u64, TableInfo>, table: u64, idx: int, v: u64) -> bool {
    ||| t[table].level == 0 && spec_indexes(v).0 == idx
    ||| t[table].level == 1 && t[table].prefix == spec_indexes(v).0 && spec_indexes(v).1 == idx
}

/// Installing a table below an entry that was not valid puts one table
/// more on the ways that lead through that entry, and changes no other
/// way.
proof fn lemma_install_depth(
    m: MemoryView,
    root: u64,
    t: Map<u64, TableInfo>,
    table: u64,
    idx: int,
    child: u64,
)
    requires
        tables_inv(m, root, t),
        t.dom().contains(table),
        t[table].level < 2,
        0 <= idx < 512,
        !pte_at(m, table, idx).spec_valid(),
        m.contains(child),
        !t.dom().contains(child),
    ensures
        forall|v: u64|
            v < VPN_LIMIT ==> #[trigger] depth(install_table(m, table, idx, child), root, v) == (
            if leads_through(t, table, idx, v) {
                t[table].level as int + 1
            } else {
                depth(m, root, v)
            }) && (leads_through(t, table, idx, v) ==> depth(m, root, v) == t[table].level),
{
    let m2 = install_table(m, table, idx, child);
    lemma_install_entries(m, root, t, table, idx, child);
    PageTableEntry::lemma_empty_invalid();
    assert forall|v: u64| v < VPN_LIMIT implies #[trigger] depth(m2, root, v) == (if leads_through(
        t,
        table,
        idx,
        v,
    ) {
        t[table].level as int + 1
    } else {
        depth(m, root, v)
    }) && (leads_through(t, table, idx, v) ==> depth(m, root, v) == t[table].level) by {
        lemma_index_digits(v);
        let (i0, i1, i2) = spec_indexes(v);
        let e0 = pte_at(m, root, i0);
        if t[table].level == 0 {
            assert(table == root);
            if i0 == idx {
                assert(pte_at(m2, child, i1).bits == 0);
            } else {
                assert(pte_at(m2, root, i0) == e0);
                if e0.spec_valid() {
                    let c1 = e0.spec_ppn();
                    assert(child_ok(t, root, i0, c1));
                    assert(pte_at(m2, c1, i1) == pte_at(m, c1, i1));
                }
            }
        } else {
            assert(table != root);
            assert(pte_at(m2, root, i0) == e0);
            assert(parent_ok(m, t, table));
            if e0.spec_valid() {
                let c1 = e0.spec_ppn();
                assert(child_ok(t, root, i0, c1));
                if c1 == table {
                    assert(t[table].prefix == i0);
                    if i1 != idx {
                        assert(pte_at(m2, c1, i1) == pte_at(m, c1, i1));
                    }
                } else {
                    assert(pte_at(m2, c1, i1) == pte_at(m, c1, i1));
                    if t[table].prefix == i0 {
                        let q = t[table].parent;
                        assert(t[q].level == 0);
                        assert(q == root);
                        assert(t[table].prefix % 512 == i0);
                        assert(pte_at(m, root, i0).spec_ppn() == table);
                    }
                }
            } else {
                if t[table].prefix == i0 {
                    let q = t[table].parent;
                    assert(q == root);
                    assert(t[table].prefix % 512 == i0);
                    assert(pte_at(m, root, i0).spec_valid());
                }
            }
        }
    }
}

/// For each virtual page, the number of tables on its way in the page
/// table at `root`; none for what is no page of the address space.
pub open spec fn depths(m: MemoryView, root: u64) -> spec_fn(u64) -> int {
    |v: u64|
        if v < VPN_LIMIT {
            depth(m, root, v)
        } else {
            0
        }
}

/// The number of tables that page `i` of a run of pages from `base` on
/// still lacks on its way when the pages before it have theirs, where `d`
/// tells how many tables each page had at first: none where it shares the
/// leaf table with the page before it, at most one where it shares the
/// table above, and else what it lacked at first.
pub open spec fn page_tables_needed(d: spec_fn(u64) -> int, base: u64, i: int) -> int {
    let v = base + i;
    let at = d(v as u64);
    if i > 0 && (v - 1) / 512 == v / 512 {
        0
    } else if i > 0 && (v - 1) / 0x40000 == v / 0x40000 {
        if at >= 1 {
            2 - at
        } else {
            1
        }
    } else {
        2 - at
    }
}

/// The number of tables that are missing on the ways to the leaf entries
/// of `n` pages from `base` on, where `d` tells how many tables each page
/// has on its way: the frames that mapping these pages takes for the page
/// table.
pub open spec fn tables_needed_by(d: spec_fn(u64) -> int, base: u64, n: int) -> int
    decreases n,
{
    if n <= 0 {
        0
    } else {
        tables_needed_by(d, base, n - 1) + page_tables_needed(d, base, n - 1)
    }
}

/// The number of tables that are missing in the page table at `root` on
/// the ways to the leaf entries of `n` pages from `base` on.
pub open spec fn tables_needed(m: MemoryView, root: u64, base: u64, n: int) -> int {
    tables_needed_by(depths(m, root), base, n)
}

/// The number of tables on the way of page `v`, where it was `d`, once `n`
/// pages from `base` on have theirs.
pub open spec fn range_depth(d: int, v: u64, base: u64, n: int) -> int
    decreases n,
{
    if n <= 0 {
        d
    } else {
        depth_beside(range_depth(d, v, base, n - 1), v, (base + n - 1) as u64, 2)
    }
}

/// For each virtual page, the number of tables on its way once `n` pages
/// from `base` on have theirs, where `d` tells the numbers before.
pub open spec fn mapped_depths(d: spec_fn(u64) -> int, base: u64, n: int) -> spec_fn(u64) -> int {
    |v: u64| range_depth(d(v), v, base, n)
}

/// Where no page has more than two tables on its way, each page needs two
/// tables at most, and more pages need no fewer tables.
pub proof fn lemma_tables_needed_by(d: spec_fn(u64) -> int, base: u64, i: int, n: int)
    requires
        0 <= i <= n,
        forall|v: u64| 0 <= #[trigger] d(v) <= 2,
    ensures
        0 <= tables_needed_by(d, base, i) <= tables_needed_by(d, base, n) <= 2 * n,
    decreases n,
{
    if n > 0 {
        if i < n {
            lemma_tables_needed_by(d, base, i, n - 1);
        } else {
            lemma_tables_needed_by(d, base, n - 1, n - 1);
        }
        assert(0 <= d((base + n - 1) as u64) <= 2);
    }
}

/// Each page needs two tables at most, and more pages need no fewer
/// tables.
pub proof fn lemma_tables_needed(m: MemoryView, root: u64, base: u64, i: int, n: int)
    requires
        0 <= i <= n,
    ensures
        0 <= tables_needed(m, root, base, i) <= tables_needed(m, root, base, n) <= 2 * n,
{
    lemma_tables_needed_by(depths(m, root), base, i, n);
}

/// Numbers of tables that agree on the pages of a run need the same
/// tables for the run.
pub proof fn lemma_tables_needed_agree(
    d1: spec_fn(u64) -> int,
    d2: spec_fn(u64) -> int,
    base: u64,
    n: int,
)
    requires
        base + n <= u64::MAX,
        forall|v: u64| base <= v < base + n ==> #[trigger] d1(v) == d2(v),
    ensures
        tables_needed_by(d1, base, n) == tables_needed_by(d2, base, n),
    decreases n,
{
    if n > 0 {
        lemma_tables_needed_agree(d1, d2, base, n - 1);
        assert(d1((base + (n - 1)) as u64) == d2((base + (n - 1)) as u64));
    }
}

/// Memories that hold the same tables need the same tables for the same
/// pages.
pub proof fn lemma_tables_needed_same(m1: MemoryView, m2: MemoryView, root: u64, base: u64, n: int)
    requires
        forall|v: u64| #[trigger] depth(m2, root, v) == depth(m1, root, v),
    ensures
        tables_needed(m2, root, base, n) == tables_needed(m1, root, base, n),
    decreases n,
{
    if n > 0 {
        lemma_tables_needed_same(m1, m2, root, base, n - 1);
        let v = (base + (n - 1)) as u64;
        assert(depth(m2, root, v) == depth(m1, root, v));
    }
}

/// What is no page of the address space shares no table with the pages of
/// a run in it.
pub proof fn lemma_range_depth_outside(d: int, v: u64, base: u64, n: int)
    requires
        base + n <= VPN_LIMIT <= v,
    ensures
        range_depth(d, v, base, n) == d,
    decreases n,
{
    if n > 0 {
        lemma_range_depth_outside(d, v, base, n - 1);
    }
}

/// Pages keep between none and two tables on their ways.
pub proof fn lemma_range_depth_bounds(d: int, v: u64, base: u64, n: int)
    requires
        0 <= d <= 2,
    ensures
        0 <= range_depth(d, v, base, n) <= 2,
        d <= range_depth(d, v, base, n),
    decreases n,
{
    if n > 0 {
        lemma_range_depth_bounds(d, v, base, n - 1);
    }
}

/// Whether every page has as many tables on its way in memory `m1` as in
/// memory `m0`.
pub open spec fn same_depths(m0: MemoryView, m1: MemoryView, root: u64) -> bool {
    forall|v: u64| v < VPN_LIMIT ==> #[trigger] depth(m1, root, v) == depth(m0, root, v)
}

/// While memory stays as it is, so does every way.
pub proof fn lemma_depth_beside_same(m: MemoryView, root: u64, vpn: u64)
    requires
        vpn < VPN_LIMIT,
    ensures
        forall|v: u64|
            v < VPN_LIMIT ==> depth_beside(
                #[trigger] depth(m, root, v),
                v,
                vpn,
                depth(m, root, vpn),
            ) == depth(m, root, v),
{
    lemma_index_digits(vpn);
    assert forall|v: u64| v < VPN_LIMIT implies depth_beside(
        #[trigger] depth(m, root, v),
        v,
        vpn,
        depth(m, root, vpn),
    ) == depth(m, root, v) by {
        lemma_index_digits(v);
    }
}

/// Where the walk for a page ends at the entry that mapping it to the page
/// `ppn` with the flags `flags` leaves, a query finds a valid entry with
/// that page and those flags and the valid flag, and the page is
/// translated.
pub proof fn lemma_query_after_map(m: MemoryView, root: u64, vpn: u64, ppn: u64, flags: u8)
    requires
        ppn < PPN_LIMIT,
        walk(m, root, vpn) == Some(PageTableEntry::spec_new(ppn, flags | 1)),
    ensures
        walk(m, root, vpn).unwrap().spec_valid(),
        walk(m, root, vpn).unwrap().spec_ppn() == ppn,
        walk(m, root, vpn).unwrap().spec_flags() == flags | 1,
        translate(m, root, vpn) == walk(m, root, vpn),
{
    PageTableEntry::lemma_new_roundtrip(ppn, flags | 1);
    assert((flags | 1) | 1 == flags | 1) by (bit_vector);
}

/// Where the walk for a page ends at the entry that unmapping it leaves, a
/// query finds an entry that is not valid, and the page is not translated.
pub proof fn lemma_query_after_unmap(m: MemoryView, root: u64, vpn: u64)
    requires
        walk(m, root, vpn) == Some(PageTableEntry { bits: 0 }),
    ensures
        !walk(m, root, vpn).unwrap().spec_valid(),
        translate(m, root, vpn).is_none(),
{
    PageTableEntry::lemma_empty_invalid();
}

/// A page table known by the frame of its root.
pub struct RawPageTable {
    root: PhysPageNum,
    tables: Ghost<Map<u64, TableInfo>>,
}

impl RawPageTable {
    /// The frame of the root table.
    pub closed spec fn spec_root(&self) -> u64 {
        self.root.0
    }

    /// The frames that hold the tables, each with its place in the tree.
    pub closed spec fn tables(&self) -> Map<u64, TableInfo> {
        self.tables@
    }

    /// The frames that hold the tables.
    pub open spec fn frames(&self) -> Set<u64> {
        self.tables().dom()
    }

    /// The recorded frames form the tree of tables in memory `m`.
    pub open spec fn inv(&self, m: MemoryView) -> bool {
        tables_inv(m, self.spec_root(), self.tables())
    }

    /// The tables form a tree in `m`, in frames that `a` has handed out.
    pub open spec fn wf(&self, m: MemoryView, a: FrameAllocatorView) -> bool {
        &&& self.inv(m)
        &&& forall|p: u64| #[trigger] self.frames().contains(p) ==> a.is_allocated(p)
    }

    /// The valid translations of the table, by virtual page number.
    pub open spec fn mappings(&self, m: MemoryView) -> Map<u64, PageTableEntry> {
        Map::new(
            |v: u64| v < VPN_LIMIT && translate(m, self.spec_root(), v).is_some(),
            |v: u64| translate(m, self.spec_root(), v).unwrap(),
        )
    }

    /// Memory that keeps the table frames keeps the tree and every walk.
    pub proof fn lemma_inv_frame(&self, m1: MemoryView, m2: MemoryView)
        requires
            self.inv(m1),
            m2.wf(),
            m1.same_shape(m2),
            forall|p: u64| self.frames().contains(p) ==> #[trigger] m2.page(p) == m1.page(p),
        ensures
            self.inv(m2),
            forall|v: u64| walk(m2, self.spec_root(), v) == walk(m1, self.spec_root(), v),
            forall|v: u64|
                #[trigger] depth(m2, self.spec_root(), v) == depth(m1, self.spec_root(), v),
            self.mappings(m2) == self.mappings(m1),
    {
        let t = self.tables();
        let root = self.spec_root();
        assert forall|v: u64| #[trigger] depth(m2, root, v) == depth(m1, root, v) by {
            let (i0, i1, i2) = spec_indexes(v);
            let e0 = pte_at(m1, root, i0);
            assert(t.dom().contains(root));
            assert(pte_at(m2, root, i0) == e0);
            if e0.spec_valid() && 0 <= i0 < 512 {
                let c1 = e0.spec_ppn();
                assert(child_ok(t, root, i0, c1));
                assert(pte_at(m2, c1, i1) == pte_at(m1, c1, i1));
            }
        }
        assert forall|p: u64, k: int|
            t.dom().contains(p) && t[p].level < 2 && 0 <= k < 512 && (#[trigger] pte_at(
                m2,
                p,
                k,
            )).spec_valid() implies child_ok(t, p, k, pte_at(m2, p, k).spec_ppn()) by {
            assert(pte_at(m1, p, k) == pte_at(m2, p, k));
        }
        assert forall|p: u64| t.dom().contains(p) && t[p].level > 0 implies #[trigger] parent_ok(
            m2,
            t,
            p,
        ) by {
            assert(parent_ok(m1, t, p));
            assert(t.dom().contains(t[p].parent));
        }
        assert forall|v: u64| walk(m2, root, v) == walk(m1, root, v) by {
            let (i0, i1, i2) = spec_indexes(v);
            let e0 = pte_at(m1, root, i0);
            assert(pte_at(m2, root, i0) == e0);
            if e0.spec_valid() {
                let c1 = e0.spec_ppn();
                assert(child_ok(t, root, i0, c1));
                let e1 = pte_at(m1, c1, i1);
                assert(pte_at(m2, c1, i1) == e1);
                if e1.spec_valid() {
                    let c2 = e1.spec_ppn();
                    assert(child_ok(t, c1, i1, c2));
                    assert(pte_at(m2, c2, i2) == pte_at(m1, c2, i2));
                }
            }
        }
        assert(self.mappings(m2) =~= self.mappings(m1));
    }

    /// The walk for `vpn`, read from memory.
    fn lookup(&self, mem: &PhysMemory, vpn: VirtPageNum) -> (r: Option<PageTableEntry>)
        requires
            mem.wf(),
        ensures
            r == walk(mem@, self.spec_root(), vpn.0),
    {
        let idx = vpn.indexes();
        if !mem.contains(self.root) {
            return None;
        }
        let e0 = PageTableEntry { bits: mem.read_word(self.root, idx[0]) };
        if !e0.valid() || !mem.contains(e0.ppn()) {
            return None;
        }
        let e1 = PageTableEntry { bits: mem.read_word(e0.ppn(), idx[1]) };
        if !e1.valid() || !mem.contains(e1.ppn()) {
            return None;
        }
        Some(PageTableEntry { bits: mem.read_word(e1.ppn(), idx[2]) })
    }

    /// The table below entry `idx` of `table`. Where the entry is not valid
    /// and `create` is set, a zeroed frame becomes that table.
    fn descend(
        &mut self,
        mem: &mut PhysMemory,
        alloc: &mut LinkedStackFrameAllocator,
        table: PhysPageNum,
        idx: usize,
        create: bool,
    ) -> (r: Option<PhysPageNum>)
        requires
            old(mem).wf(),
            old(alloc).wf(old(mem)@),
            old(self).wf(old(mem)@, old(alloc)@),
            old(self).frames().contains(table.0),
            old(self).tables()[table.0].level < 2,
            idx < 512,
        ensures
            final(mem).wf(),
            final(alloc).wf(final(mem)@),
            final(self).wf(final(mem)@, final(alloc)@),
            final(self).spec_root() == old(self).spec_root(),
            r matches Some(c) ==> {
                &&& pte_at(final(mem)@, table.0, idx as int).spec_valid()
                &&& pte_at(final(mem)@, table.0, idx as int).spec_ppn() == c.0
                &&& child_ok(final(self).tables(), table.0, idx as int, c.0)
                &&& final(mem)@.contains(c.0)
            },
            r.is_some() && pte_at(old(mem)@, table.0, idx as int).spec_valid() ==> {
                &&& final(mem)@ == old(mem)@
                &&& final(alloc)@ == old(alloc)@
                &&& final(self).tables() == old(self).tables()
            },
            r matches Some(c) ==> !pte_at(old(mem)@, table.0, idx as int).spec_valid() ==> {
                &&& create
                &&& old(mem)@.contains(c.0)
                &&& !old(self).frames().contains(c.0)
                &&& old(alloc)@.allocate() == (Some(c.0), final(alloc)@)
                &&& final(mem)@ == install_table(old(mem)@, table.0, idx as int, c.0)
                &&& final(self).tables() == install_info(
                    old(self).tables(),
                    table.0,
                    idx as int,
                    c.0,
                )
            },
            r.is_none() ==> {
                &&& !pte_at(old(mem)@, table.0, idx as int).spec_valid()
                &&& final(mem)@ == old(mem)@
                &&& final(alloc)@ == old(alloc)@
                &&& final(self).tables() == old(self).tables()
                &&& (create ==> old(alloc)@.allocate().0.is_none())
            },
    {
        let ghost m0 = mem@;
        let ghost t0 = self.tables();
        let ghost root = self.spec_root();
        let pte = PageTableEntry { bits: mem.read_word(table, idx) };
        if pte.valid() {
            assert(child_ok(t0, table.0, idx as int, pte_at(m0, table.0, idx as int).spec_ppn()));
            return Some(pte.ppn());
        }
        if !create {
            return None;
        }
        proof {
            alloc@.lemma_alloc_fresh();
        }
        let frame = match Frame::alloc_zeroes(alloc, mem) {
            Some(f) => f,
            None => {
                return None;
            },
        };
        let child = frame.into_ppn();
        let ghost m1 = mem@;
        let entry = PageTableEntry::new(child, PTEFlags::from_bits_truncate(PTEFlags::V));
        mem.write_word(table, idx, entry.bits);
        proof {
            self.tables = Ghost(install_info(t0, table.0, idx as int, child.0));
            assert(!t0.dom().contains(child.0));
            lemma_install_entries(m0, root, t0, table.0, idx as int, child.0);
            lemma_install_table(m0, root, t0, table.0, idx as int, child.0);
            alloc@.lemma_consistent_frame(m1, mem@);
        }
        Some(child)
    }

    /// The place of the leaf entry for `vpn`: the frame of the leaf table
    /// and the index in it. With `create_when_absent` set, tables that are
    /// missing on the way are made from zeroed frames, and the result is
    /// `None` only when the allocator has run out; without it, the result is
    /// `None` when a table on the way is missing.
    pub fn find_pte(
        &mut self,
        mem: &mut PhysMemory,
        alloc: &mut LinkedStackFrameAllocator,
        vpn: VirtPageNum,
        create_when_absent: bool,
    ) -> (r: Option<(PhysPageNum, usize)>)
        requires
            old(mem).wf(),
            old(alloc).wf(old(mem)@),
            old(self).wf(old(mem)@, old(alloc)@),
            vpn.0 < VPN_LIMIT,
        ensures
            final(mem).wf(),
            final(alloc).wf(final(mem)@),
            final(self).wf(final(mem)@, final(alloc)@),
            final(self).spec_root() == old(self).spec_root(),
            final(self).mappings(final(mem)@) == old(self).mappings(old(mem)@),
            extends(
                old(self).frames(),
                old(mem)@,
                old(alloc)@,
                final(self).frames(),
                final(mem)@,
                final(alloc)@,
            ),
            !create_when_absent ==> final(mem)@ == old(mem)@ && final(alloc)@ == old(alloc)@
                && final(self).tables() == old(self).tables(),
            !create_when_absent ==> (r.is_some() <==> walk(
                old(mem)@,
                old(self).spec_root(),
                vpn.0,
            ).is_some()),
            create_when_absent && r.is_none() ==> final(alloc)@.available() == 0,
            old(alloc)@.available() - 2 <= final(alloc)@.available() <= old(alloc)@.available(),
            r.is_none() ==> old(alloc)@.available() - 1 <= final(alloc)@.available(),
            r.is_some() <==> depth(final(mem)@, final(self).spec_root(), vpn.0) == 2,
            depth(final(mem)@, final(self).spec_root(), vpn.0) == (if create_when_absent
                && depth(old(mem)@, old(self).spec_root(), vpn.0) + old(alloc)@.available() < 2 {
                depth(old(mem)@, old(self).spec_root(), vpn.0) + old(alloc)@.available()
            } else if create_when_absent {
                2
            } else {
                depth(old(mem)@, old(self).spec_root(), vpn.0)
            }),
            final(alloc)@.available() == old(alloc)@.available() - (depth(
                final(mem)@,
                final(self).spec_root(),
                vpn.0,
            ) - depth(old(mem)@, old(self).spec_root(), vpn.0)),
            forall|v: u64|
                v < VPN_LIMIT ==> #[trigger] depth(final(mem)@, final(self).spec_root(), v)
                    == depth_beside(
                    depth(old(mem)@, old(self).spec_root(), v),
                    v,
                    vpn.0,
                    depth(final(mem)@, final(self).spec_root(), vpn.0),
                ),
            r matches Some((table, idx)) ==> {
                &&& is_leaf_slot(
                    final(mem)@,
                    final(self).spec_root(),
                    final(self).tables(),
                    vpn.0,
                    table.0,
                    idx as int,
                )
                &&& pte_at(final(mem)@, table.0, idx as int) == (match walk(
                    old(mem)@,
                    old(self).spec_root(),
                    vpn.0,
                ) {
                    Some(e) => e,
                    None => (PageTableEntry { bits: 0 }),
                })
            },
    {
        let ghost m0 = mem@;
        let ghost a0 = alloc@;
        let ghost t0 = self.tables();
        let ghost root = self.spec_root();
        let idx = vpn.indexes();
        let root_frame = self.root;
        proof {
            lemma_extends_refl(self.frames(), m0, a0);
            a0.lemma_alloc_fresh();
        }
        let t1 = match self.descend(mem, alloc, root_frame, idx[0], create_when_absent) {
            Some(t) => t,
            None => {
                proof {
                    lemma_depth_beside_same(m0, root, vpn.0);
                }
                return None;
            },
        };
        let ghost m1 = mem@;
        let ghost a1 = alloc@;
        let ghost tables1 = self.tables();
        proof {
            a1.lemma_alloc_fresh();
            if !pte_at(m0, root, idx[0] as int).spec_valid() {
                lemma_install_table_translate(m0, root, t0, root, idx[0] as int, t1.0);
                lemma_install_extends(m0, root, t0, a0, root, idx[0] as int, t1.0);
                lemma_install_entries(m0, root, t0, root, idx[0] as int, t1.0);
            }
            assert(self.mappings(m1) =~= old(self).mappings(m0));
        }
        proof {
            lemma_index_digits(vpn.0);
            assert(tables1[t1.0].level == 1 && tables1[t1.0].prefix == idx[0] as int);
            if !pte_at(m0, root, idx[0] as int).spec_valid() {
                lemma_install_depth(m0, root, t0, root, idx[0] as int, t1.0);
                assert(!pte_at(m1, t1.0, idx[1] as int).spec_valid()) by {
                    PageTableEntry::lemma_empty_invalid();
                    assert(pte_at(m1, t1.0, idx[1] as int).bits == 0);
                }
            }
            assert(depth(m1, root, vpn.0) >= 1);
            assert forall|v: u64| v < VPN_LIMIT implies #[trigger] depth(m1, root, v)
                == depth_beside(depth(m0, root, v), v, vpn.0, depth(m1, root, vpn.0)) by {
                lemma_index_digits(v);
                if pte_at(m0, root, idx[0] as int).spec_valid() {
                    lemma_depth_beside_same(m0, root, vpn.0);
                }
            }
        }
        let t2 = match self.descend(mem, alloc, t1, idx[1], create_when_absent) {
            Some(t) => t,
            None => {
                proof {
                    assert(depth(m1, root, vpn.0) == 1);
                }
                return None;
            },
        };
        proof {
            let m2 = mem@;
            if !pte_at(m1, t1.0, idx[1] as int).spec_valid() {
                lemma_install_depth(m1, root, tables1, t1.0, idx[1] as int, t2.0);
            }
            assert(depth(m2, root, vpn.0) == 2);
            assert forall|v: u64| v < VPN_LIMIT implies #[trigger] depth(m2, root, v)
                == depth_beside(depth(m0, root, v), v, vpn.0, 2) by {
                lemma_index_digits(v);
                assert(depth(m1, root, v) == depth_beside(
                    depth(m0, root, v),
                    v,
                    vpn.0,
                    depth(m1, root, vpn.0),
                ));
                if pte_at(m1, t1.0, idx[1] as int).spec_valid() {
                    lemma_depth_beside_same(m1, root, vpn.0);
                }
            }
        }
        proof {
            let m2 = mem@;
            let i0 = idx[0] as int;
            let i1 = idx[1] as int;
            let i2 = idx[2] as int;
            lemma_index_digits(vpn.0);
            PageTableEntry::lemma_empty_invalid();
            assert(tables1[t1.0].level == 1 && tables1[t1.0].prefix == i0);
            if !pte_at(m1, t1.0, i1).spec_valid() {
                lemma_install_table_translate(m1, root, tables1, t1.0, i1, t2.0);
                lemma_install_extends(m1, root, tables1, a1, t1.0, i1, t2.0);
                lemma_install_entries(m1, root, tables1, t1.0, i1, t2.0);
                lemma_extends_trans(
                    old(self).frames(),
                    m0,
                    a0,
                    tables1.dom(),
                    m1,
                    a1,
                    self.frames(),
                    m2,
                    alloc@,
                );
                assert(pte_at(m2, root, i0) == pte_at(m1, root, i0));
                assert(pte_at(m2, t2.0, i2).bits == 0);
                assert(leaf_table(m0, root, vpn.0).is_none()) by {
                    if pte_at(m0, root, i0).spec_valid() {
                        assert(m1 == m0);
                    }
                }
            } else {
                assert(m2 == m1);
                if !pte_at(m0, root, i0).spec_valid() {
                    assert(pte_at(m1, t1.0, i1).bits == 0);
                    assert(false);
                }
                assert(m1 == m0);
                assert(leaf_table(m0, root, vpn.0) == Some(t2.0));
            }
            assert(self.tables()[t2.0].level == 2);
            assert(self.tables()[t2.0].prefix == i0 * 512 + i1);
            assert(leaf_table(m2, root, vpn.0) == Some(t2.0));
            assert(self.mappings(m2) =~= old(self).mappings(m0));
        }
        Some((t2, idx[2]))
    }

    /// Makes `vpn` translate to page `ppn` with flags `flags` and the valid
    /// flag. The page must not be translated yet. Fails with `OutOfFrames`,
    /// and changes no translation, when a table is missing on the way and
    /// the allocator has run out.
    pub fn map(
        &mut self,
        mem: &mut PhysMemory,
        alloc: &mut LinkedStackFrameAllocator,
        vpn: VirtPageNum,
        ppn: PhysPageNum,
        flags: PTEFlags,
    ) -> (r: Result<(), KernelError>)
        requires
            old(mem).wf(),
            old(alloc).wf(old(mem)@),
            old(self).wf(old(mem)@, old(alloc)@),
            vpn.0 < VPN_LIMIT,
            translate(old(mem)@, old(self).spec_root(), vpn.0).is_none(),
        ensures
            final(mem).wf(),
            final(alloc).wf(final(mem)@),
            final(self).wf(final(mem)@, final(alloc)@),
            final(self).spec_root() == old(self).spec_root(),
            extends(
                old(self).frames(),
                old(mem)@,
                old(alloc)@,
                final(self).frames(),
                final(mem)@,
                final(alloc)@,
            ),
            r.is_ok() ==> final(self).mappings(final(mem)@) == old(self).mappings(
                old(mem)@,
            ).insert(vpn.0, PageTableEntry::spec_new(ppn.0, flags@ | 1)),
            r.is_ok() ==> walk(final(mem)@, final(self).spec_root(), vpn.0) == Some(
                PageTableEntry::spec_new(ppn.0, flags@ | 1),
            ),
            r.is_err() ==> {
                &&& r == Err::<(), KernelError>(KernelError::OutOfFrames)
                &&& final(self).mappings(final(mem)@) == old(self).mappings(old(mem)@)
                &&& final(alloc)@.available() == 0
                &&& old(alloc)@.available() <= 1
            },
            old(alloc)@.available() - 2 <= final(alloc)@.available() <= old(alloc)@.available(),
            r.is_ok() <==> old(alloc)@.available() >= 2 - depth(
                old(mem)@,
                old(self).spec_root(),
                vpn.0,
            ),
            r.is_ok() ==> final(alloc)@.available() == old(alloc)@.available() - (2 - depth(
                old(mem)@,
                old(self).spec_root(),
                vpn.0,
            )),
            r.is_ok() ==> depth(final(mem)@, final(self).spec_root(), vpn.0) == 2,
            forall|v: u64|
                v < VPN_LIMIT ==> #[trigger] depth(final(mem)@, final(self).spec_root(), v)
                    == depth_beside(
                    depth(old(mem)@, old(self).spec_root(), v),
                    v,
                    vpn.0,
                    depth(final(mem)@, final(self).spec_root(), vpn.0),
                ),
    {
        let ghost m0 = mem@;
        let ghost a0 = alloc@;
        let ghost t0 = self.tables();
        match self.find_pte(mem, alloc, vpn, true) {
            None => Err(KernelError::OutOfFrames),
            Some((table, idx)) => {
                let ghost m1 = mem@;
                let entry = PageTableEntry::new(
                    ppn,
                    flags.union(PTEFlags::from_bits_truncate(PTEFlags::V)),
                );
                mem.write_word(table, idx, entry.bits);
                proof {
                    PageTableEntry::lemma_empty_invalid();
                    PageTableEntry::lemma_new_roundtrip_valid(ppn.0, flags@);
                    lemma_set_leaf(m1, self.spec_root(), self.tables(), vpn.0, table.0, entry);
                    lemma_set_leaf_extends(
                        old(self).frames(),
                        m0,
                        a0,
                        self.frames(),
                        m1,
                        alloc@,
                        table.0,
                        idx as int,
                        entry.bits,
                    );
                    alloc@.lemma_consistent_frame(m1, mem@);
                    assert(self.mappings(mem@) =~= old(self).mappings(m0).insert(vpn.0, entry));
                }
                Ok(())
            },
        }
    }

    /// Takes away the translation of `vpn`, which must exist.
    pub fn unmap(
        &mut self,
        mem: &mut PhysMemory,
        alloc: &mut LinkedStackFrameAllocator,
        vpn: VirtPageNum,
    )
        requires
            old(mem).wf(),
            old(alloc).wf(old(mem)@),
            old(self).wf(old(mem)@, old(alloc)@),
            vpn.0 < VPN_LIMIT,
            translate(old(mem)@, old(self).spec_root(), vpn.0).is_some(),
        ensures
            final(mem).wf(),
            final(alloc).wf(final(mem)@),
            final(self).wf(final(mem)@, final(alloc)@),
            final(self).spec_root() == old(self).spec_root(),
            final(self).tables() == old(self).tables(),
            final(alloc)@ == old(alloc)@,
            forall|v: u64|
                v < VPN_LIMIT ==> #[trigger] depth(final(mem)@, final(self).spec_root(), v)
                    == depth(old(mem)@, old(self).spec_root(), v),
            extends(
                old(self).frames(),
                old(mem)@,
                old(alloc)@,
                final(self).frames(),
                final(mem)@,
                final(alloc)@,
            ),
            final(self).mappings(final(mem)@) == old(self).mappings(old(mem)@).remove(vpn.0),
            walk(final(mem)@, final(self).spec_root(), vpn.0) == Some(PageTableEntry { bits: 0 }),
    {
        let ghost m0 = mem@;
        let ghost a0 = alloc@;
        let ghost t0 = self.tables();
        match self.find_pte(mem, alloc, vpn, false) {
            None => {},
            Some((table, idx)) => {
                let entry = PageTableEntry::new_empty();
                mem.write_word(table, idx, entry.bits);
                proof {
                    lemma_set_leaf(m0, self.spec_root(), t0, vpn.0, table.0, entry);
                    lemma_extends_refl(self.frames(), m0, a0);
                    lemma_set_leaf_extends(
                        self.frames(),
                        m0,
                        a0,
                        self.frames(),
                        m0,
                        a0,
                        table.0,
                        idx as int,
                        entry.bits,
                    );
                    alloc@.lemma_consistent_frame(m0, mem@);
                    assert(self.mappings(mem@) =~= old(self).mappings(m0).remove(vpn.0));
                }
            },
        }
    }

    /// The leaf entry that the walk for `vpn` reaches, valid or not; `None`
    /// when a table on the way is missing.
    pub fn query(&self, mem: &PhysMemory, vpn: VirtPageNum) -> (r: Option<PageTableEntry>)
        requires
            mem.wf(),
        ensures
            r == walk(mem@, self.spec_root(), vpn.0),
    {
        self.lookup(mem, vpn)
    }

    /// The value that makes the hardware use this table: the Sv39 mode in
    /// the top four bits, and the frame of the root.
    pub fn token(&self) -> (t: u64)
        ensures
            t == spec_token(self.spec_root()),
    {
        8u64 << 60 | self.root.0
    }
}

/// Whether table `p` is given back before the walk over the tree reaches
/// entry `j` of the table below entry `i` of the root.
pub open spec fn freed_before(t: Map<u64, TableInfo>, p: u64, i: int, j: int) -> bool {
    &&& t.dom().contains(p)
    &&& {
        ||| t[p].level == 1 && t[p].prefix < i
        ||| t[p].level == 2 && (t[p].prefix / 512 < i || (t[p].prefix / 512 == i && t[p].prefix
            % 512 < j))
    }
}

/// A recorded table below the root is reached from the root by the digits
/// of its prefix.
proof fn lemma_table_path(m: MemoryView, root: u64, t: Map<u64, TableInfo>, p: u64)
    requires
        tables_inv(m, root, t),
        t.dom().contains(p),
        t[p].level > 0,
    ensures
        t[p].level == 1 ==> {
            &&& t[p].prefix < 512
            &&& pte_at(m, root, t[p].prefix as int).spec_valid()
            &&& pte_at(m, root, t[p].prefix as int).spec_ppn() == p
        },
        t[p].level == 2 ==> {
            let q = pte_at(m, root, (t[p].prefix / 512) as int).spec_ppn();
            &&& t[p].prefix < 512 * 512
            &&& pte_at(m, root, (t[p].prefix / 512) as int).spec_valid()
            &&& t.dom().contains(q)
            &&& t[q].level == 1
            &&& t[q].prefix == t[p].prefix / 512
            &&& pte_at(m, q, (t[p].prefix % 512) as int).spec_valid()
            &&& pte_at(m, q, (t[p].prefix % 512) as int).spec_ppn() == p
        },
{
    assert(parent_ok(m, t, p));
    let q = t[p].parent;
    assert(t.dom().contains(q));
    if t[p].level == 2 {
        assert(parent_ok(m, t, q));
        assert(t.dom().contains(t[q].parent));
    }
}

/// A page table that owns the frames of its tables.
pub struct PageTable {
    pub raw: RawPageTable,
}

impl PageTable {
    /// A table with no translation, its root in a zeroed frame; `None` when
    /// no frame is left.
    pub fn new(mem: &mut PhysMemory, alloc: &mut LinkedStackFrameAllocator) -> (r: Option<
        PageTable,
    >)
        requires
            old(mem).wf(),
            old(alloc).wf(old(mem)@),
        ensures
            final(mem).wf(),
            final(alloc).wf(final(mem)@),
            r.is_none() ==> final(mem)@ == old(mem)@ && final(alloc)@ == old(alloc)@ && old(alloc)@.allocate().0.is_none(),
            r matches Some(pt) ==> {
                &&& pt.raw.wf(final(mem)@, final(alloc)@)
                &&& pt.raw.mappings(final(mem)@) == Map::<u64, PageTableEntry>::empty()
                &&& pt.raw.frames() == set![pt.raw.spec_root()]
                &&& old(alloc)@.allocate() == (Some(pt.raw.spec_root()), final(alloc)@)
                &&& old(mem)@.contains(pt.raw.spec_root())
                &&& final(mem)@ == old(mem)@.set_page(pt.raw.spec_root(), zero_page())
            },
    {
        proof {
            alloc@.lemma_alloc_fresh();
        }
        let frame = match Frame::alloc_zeroes(alloc, mem) {
            Some(f) => f,
            None => {
                return None;
            },
        };
        let ppn = frame.into_ppn();
        let ghost info = TableInfo { level: 0, prefix: 0, parent: ppn.0 };
        let pt = PageTable {
            raw: RawPageTable { root: ppn, tables: Ghost(Map::empty().insert(ppn.0, info)) },
        };
        proof {
            PageTableEntry::lemma_empty_invalid();
            assert forall|k: int| 0 <= k < 512 implies (#[trigger] pte_at(mem@, ppn.0, k)).bits
                == 0 by {
                lemma_zero_page_word(k);
            }
            assert forall|v: u64| translate(mem@, ppn.0, v).is_none() by {
                assert(pte_at(mem@, ppn.0, spec_indexes(v).0).bits == 0);
            }
            assert(pt.raw.mappings(mem@) =~= Map::<u64, PageTableEntry>::empty());
            assert(pt.raw.frames() =~= set![ppn.0]);
        }
        Some(pt)
    }

    /// Gives every table frame back to the allocator. The pages that the
    /// leaf entries name are not touched: they belong to whoever mapped
    /// them.
    pub fn destroy(self, mem: &mut PhysMemory, alloc: &mut LinkedStackFrameAllocator)
        requires
            old(mem).wf(),
            old(alloc).wf(old(mem)@),
            self.raw.wf(old(mem)@, old(alloc)@),
        ensures
            final(mem).wf(),
            final(alloc).wf(final(mem)@),
            final(mem)@.same_shape(old(mem)@),
            final(alloc)@.start == old(alloc)@.start,
            final(alloc)@.end == old(alloc)@.end,
            forall|p: u64|
                #![trigger final(alloc)@.is_allocated(p)]
                final(alloc)@.is_allocated(p) == (old(alloc)@.is_allocated(p)
                    && !self.raw.frames().contains(p)),
            forall|p: u64|
                old(mem)@.contains(p) && !self.raw.frames().contains(p) ==> #[trigger] final(mem)@.page(p) == old(mem)@.page(p),
            changes(
                self.raw.frames(),
                old(mem)@,
                old(alloc)@,
                Set::<u64>::empty(),
                final(mem)@,
                final(alloc)@,
            ),
            final(alloc)@.available() >= old(alloc)@.available(),
    {
        let ghost m0 = mem@;
        let ghost a0 = alloc@;
        let ghost t = self.raw.tables();
        let root = self.raw.root;
        let mut i: usize = 0;
        proof {
            assert forall|p: u64| #[trigger] t.dom().contains(p) implies a0.is_allocated(p) by {
                assert(self.raw.frames().contains(p));
            }
        }
        while i < 512
            invariant
                0 <= i <= 512,
                mem.wf(),
                alloc.wf(mem@),
                mem@.same_shape(m0),
                alloc@.start == a0.start,
                alloc@.end == a0.end,
                alloc@.available() >= a0.available(),
                tables_inv(m0, root.0, t),
                forall|p: u64| #[trigger] t.dom().contains(p) ==> a0.is_allocated(p),
                forall|p: u64|
                    #![trigger alloc@.is_allocated(p)]
                    alloc@.is_allocated(p) == (a0.is_allocated(p) && !freed_before(
                        t,
                        p,
                        i as int,
                        0,
                    )),
                forall|p: u64|
                    m0.contains(p) && !freed_before(t, p, i as int, 0) ==> #[trigger] mem@.page(p)
                        == m0.page(p),
            decreases 512 - i,
        {
            assert(mem@.page(root.0) == m0.page(root.0));
            let e0 = PageTableEntry { bits: mem.read_word(root, i) };
            if e0.valid() {
                let t1 = e0.ppn();
                assert(e0 == pte_at(m0, root.0, i as int));
                assert(child_ok(t, root.0, i as int, t1.0));
                let mut j: usize = 0;
                while j < 512
                    invariant
                        0 <= j <= 512,
                        0 <= i < 512,
                        mem.wf(),
                        alloc.wf(mem@),
                        mem@.same_shape(m0),
                        alloc@.start == a0.start,
                        alloc@.end == a0.end,
                        alloc@.available() >= a0.available(),
                        tables_inv(m0, root.0, t),
                        t.dom().contains(t1.0),
                        t[t1.0].level == 1,
                        t[t1.0].prefix == i,
                        pte_at(m0, root.0, i as int).spec_valid(),
                        pte_at(m0, root.0, i as int).spec_ppn() == t1.0,
                        forall|p: u64| #[trigger] t.dom().contains(p) ==> a0.is_allocated(p),
                        forall|p: u64|
                            #![trigger alloc@.is_allocated(p)]
                            alloc@.is_allocated(p) == (a0.is_allocated(p) && !freed_before(
                                t,
                                p,
                                i as int,
                                j as int,
                            )),
                        forall|p: u64|
                            m0.contains(p) && !freed_before(t, p, i as int, j as int)
                                ==> #[trigger] mem@.page(p) == m0.page(p),
                    decreases 512 - j,
                {
                    assert(!freed_before(t, t1.0, i as int, j as int));
                    assert(mem@.page(t1.0) == m0.page(t1.0));
                    let e1 = PageTableEntry { bits: mem.read_word(t1, j) };
                    let ghost m_before = mem@;
                    let ghost a_before = alloc@;
                    assert(e1 == pte_at(m0, t1.0, j as int));
                    if e1.valid() {
                        let t2 = e1.ppn();
                        assert(child_ok(t, t1.0, j as int, t2.0));
                        assert(!freed_before(t, t2.0, i as int, j as int));
                        proof {
                            alloc@.lemma_dealloc(t2.0);
                        }
                        Frame::manually_drop(t2, alloc, mem);
                    }
                    proof {
                        assert forall|p: u64|
                            freed_before(t, p, i as int, j as int + 1) == (freed_before(
                                t,
                                p,
                                i as int,
                                j as int,
                            ) || (e1.spec_valid() && p == e1.spec_ppn())) by {
                            if t.dom().contains(p) && t[p].level == 2 {
                                lemma_table_path(m0, root.0, t, p);
                                if t[p].prefix / 512 == i && t[p].prefix % 512 == j {
                                    assert(pte_at(m0, root.0, i as int).spec_ppn() == t1.0);
                                    assert(p == e1.spec_ppn());
                                }
                            }
                            if e1.spec_valid() && p == e1.spec_ppn() {
                                assert(child_ok(t, t1.0, j as int, p));
                                assert(t[p].prefix == i * 512 + j);
                            }
                        }
                        assert forall|p: u64|
                            m0.contains(p) && !freed_before(t, p, i as int, j as int + 1)
                                implies #[trigger] mem@.page(p) == m0.page(p) by {
                            assert(m_before.page(p) == m0.page(p));
                        }
                    }
                    j += 1;
                }
                assert(!freed_before(t, t1.0, i as int, 512));
                let ghost m_before = mem@;
                proof {
                    alloc@.lemma_dealloc(t1.0);
                }
                Frame::manually_drop(t1, alloc, mem);
                proof {
                    assert forall|p: u64|
                        freed_before(t, p, i as int + 1, 0) == (freed_before(t, p, i as int, 512)
                            || p == t1.0) by {
                        if t.dom().contains(p) && t[p].level > 0 {
                            lemma_table_path(m0, root.0, t, p);
                        }
                    }
                    assert forall|p: u64|
                        m0.contains(p) && !freed_before(t, p, i as int + 1, 0)
                            implies #[trigger] mem@.page(p) == m0.page(p) by {
                        assert(m_before.page(p) == m0.page(p));
                    }
                }
            } else {
                proof {
                    assert forall|p: u64|
                        freed_before(t, p, i as int + 1, 0) == freed_before(t, p, i as int, 0) by {
                        if t.dom().contains(p) && t[p].level > 0 {
                            lemma_table_path(m0, root.0, t, p);
                        }
                    }
                }
            }
            i += 1;
        }
        let ghost m_before = mem@;
        proof {
            assert(!freed_before(t, root.0, 512, 0));
            alloc@.lemma_dealloc(root.0);
        }
        Frame::manually_drop(root, alloc, mem);
        proof {
            assert forall|p: u64|
                #![trigger alloc@.is_allocated(p)]
                alloc@.is_allocated(p) == (a0.is_allocated(p) && !t.dom().contains(p)) by {
                if t.dom().contains(p) && t[p].level > 0 {
                    lemma_table_path(m0, root.0, t, p);
                }
            }
            assert forall|p: u64| m0.contains(p) && !t.dom().contains(p) implies #[trigger] mem@.page(
                p,
            ) == m0.page(p) by {
                assert(m_before.page(p) == m0.page(p));
            }
            reveal(changes);
            assert forall|p: u64| a0.is_allocated(p) && !t.dom().contains(p) implies #[trigger] mem@.page(
                p,
            ) == m0.page(p) by {
                assert(m0.contains(p));
            }
        }
    }
}

/// A page table that somebody else owns, known by its activation value.
pub struct PageTableRef {
    pub raw: RawPageTable,
}

impl PageTableRef {
    /// The table that the activation value `satp` names.
    pub fn from_token(satp: u64) -> (r: PageTableRef)
        ensures
            r.raw.spec_root() == spec_token_root(satp),
    {
        let ppn = PhysPageNum(satp % 0x1000_0000_0000);
        PageTableRef { raw: RawPageTable { root: ppn, tables: Ghost(Map::empty()) } }
    }
}

/// The activation value of the table rooted at `root`.
pub open spec fn spec_token(root: u64) -> u64 {
    (8u64 << 60) | root
}

/// The root frame that an activation value names.
pub open spec fn spec_token_root(satp: u64) -> u64 {
    satp % 0x1000_0000_0000
}

/// An activation value names the root it was made from.
pub proof fn lemma_token_root(root: u64)
    requires
        root < PPN_LIMIT,
    ensures
        spec_token_root(spec_token(root)) == root,
{
    assert(((8u64 << 60) | root) % 0x1000_0000_0000 == root) by (bit_vector)
        requires
            root < 0x1000_0000_0000,
    ;
}

} // verus!
