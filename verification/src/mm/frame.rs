//! The physical frame allocator and the owner of one allocated frame.
//!
//! Frames are handed out from a watermark that moves up through a fixed
//! range of pages. A frame that is given back goes onto a stack of recycled
//! frames threaded through the frames themselves: the first word of each
//! recycled frame holds the number of the frame recycled before it.

use vstd::prelude::*;
use vstd::set_lib::FiniteRange;
use super::addr::{PhysPageNum, PPN_LIMIT};
use super::memory::{zero_page, MemoryView, PhysMemory};

verus! {

/// First byte of the frames that the allocator manages on the reference
/// machine.
pub const FRAME_MEMORY_START: u64 = 0x82000000;

/// The link word of the frame at the bottom of the recycled stack.
pub const NO_FRAME: u64 = 0xffff_ffff_ffff_ffff;

/// The allocator as a mathematical value.
pub struct FrameAllocatorView {
    /// First page of the managed range.
    pub start: u64,
    /// Lowest page that was never handed out.
    pub current: u64,
    /// One past the last page of the managed range.
    pub end: u64,
    /// The recycled frames, most recently recycled last.
    pub free: Seq<u64>,
}

impl FrameAllocatorView {
    /// The watermark lies in the range, and the recycled frames are distinct
    /// frames below the watermark.
    pub open spec fn wf(self) -> bool {
        &&& self.start <= self.current <= self.end <= PPN_LIMIT
        &&& self.free.no_duplicates()
        &&& forall|i: int|
            0 <= i < self.free.len() ==> self.start <= (#[trigger] self.free[i]) < self.current
    }

    /// Whether `ppn` lies below the watermark and is not recycled.
    pub open spec fn in_use(self, ppn: u64) -> bool {
        ppn < self.current && !self.free.contains(ppn)
    }

    /// Whether `ppn` is a frame of the range that is handed out at present.
    pub open spec fn is_allocated(self, ppn: u64) -> bool {
        self.start <= ppn && self.in_use(ppn)
    }

    /// The frames that are handed out at present.
    pub open spec fn allocated(self) -> Set<u64> {
        Set::new(|p: u64| self.is_allocated(p))
    }

    /// The number of frames that can be handed out before one is given
    /// back.
    pub open spec fn available(self) -> int {
        self.free.len() + (self.end - self.current)
    }

    /// The frame that the next allocation returns, and the allocator after
    /// it.
    pub open spec fn allocate(self) -> (Option<u64>, FrameAllocatorView) {
        if self.free.len() > 0 {
            (Some(self.free.last()), FrameAllocatorView { free: self.free.drop_last(), ..self })
        } else if self.current < self.end {
            (
                Some(self.current),
                FrameAllocatorView { current: (self.current + 1) as u64, ..self },
            )
        } else {
            (None, self)
        }
    }

    /// The allocator after `ppn` was given back.
    pub open spec fn dealloc(self, ppn: u64) -> FrameAllocatorView {
        FrameAllocatorView { free: self.free.push(ppn), ..self }
    }

    /// The link word that the recycled frame at position `i` holds.
    pub open spec fn link(self, i: int) -> u64 {
        if i == 0 {
            NO_FRAME
        } else {
            self.free[i - 1]
        }
    }

    /// Whether the recycled frame at position `i` holds its link word.
    pub open spec fn link_holds(self, m: MemoryView, i: int) -> bool {
        m.word(self.free[i], 0) == self.link(i)
    }

    /// The managed range lies in RAM, and each recycled frame holds the link
    /// to the one below it.
    pub open spec fn consistent(self, m: MemoryView) -> bool {
        &&& m.wf()
        &&& m.base <= self.start
        &&& self.end <= m.base + m.pages.len()
        &&& forall|i: int| 0 <= i < self.free.len() ==> #[trigger] self.link_holds(m, i)
    }

    /// The frames that are handed out and the frames that can still be
    /// handed out make up the range.
    pub proof fn lemma_available(self)
        requires
            self.wf(),
        ensures
            self.allocated().finite(),
            self.available() + self.allocated().len() == self.end - self.start,
    {
        let below = u64::range_set(self.start, self.current);
        let free = self.free.to_set();
        vstd::set_lib::range_set_properties::<u64>(self.start, self.current);
        vstd::seq_lib::seq_to_set_is_finite(self.free);
        self.free.unique_seq_to_set();
        assert(below.intersect(free) =~= free);
        assert(self.allocated() =~= below.difference(free));
        vstd::set_lib::lemma_set_difference_len(below, free);
    }

    /// An allocation hands out a frame of the range that was not handed out
    /// before, and changes nothing else in the set of frames handed out.
    pub proof fn lemma_alloc_fresh(self)
        requires
            self.wf(),
        ensures
            self.allocate().1.wf(),
            self.allocate().0 matches Some(p) ==> {
                &&& self.start <= p < self.end
                &&& !self.is_allocated(p)
                &&& self.allocate().1.allocated() == self.allocated().insert(p)
                &&& forall|q: u64|
                    #![trigger self.allocate().1.is_allocated(q)]
                    #![trigger self.is_allocated(q)]
                    self.allocate().1.is_allocated(q) == (self.is_allocated(q) || q == p)
            },
            self.allocate().0.is_none() ==> self.allocate().1 == self && self.current == self.end,
            self.allocate().0.is_none() <==> self.available() == 0,
            self.allocate().0.is_some() ==> self.allocate().1.available() == self.available() - 1,
    {
        let after = self.allocate().1;
        if self.free.len() > 0 {
            let p = self.free.last();
            assert(self.free[self.free.len() - 1] == p);
            assert forall|q: u64| after.is_allocated(q) == (self.is_allocated(q) || q == p) by {
                if q != p && self.free.contains(q) {
                    let i = choose|i: int| 0 <= i < self.free.len() && self.free[i] == q;
                    assert(after.free[i] == q);
                }
                if after.free.contains(q) {
                    let i = choose|i: int| 0 <= i < after.free.len() && after.free[i] == q;
                    assert(self.free[i] == q);
                }
            }
            assert(after.allocated() =~= self.allocated().insert(p));
        } else if self.current < self.end {
            assert(after.allocated() =~= self.allocated().insert(self.current));
        }
    }

    /// Giving back a frame that is handed out takes it, and nothing else,
    /// out of the set of frames handed out.
    pub proof fn lemma_dealloc(self, ppn: u64)
        requires
            self.wf(),
            self.is_allocated(ppn),
        ensures
            self.dealloc(ppn).wf(),
            self.dealloc(ppn).allocated() == self.allocated().remove(ppn),
            forall|q: u64|
                #![trigger self.dealloc(ppn).is_allocated(q)]
                #![trigger self.is_allocated(q)]
                self.dealloc(ppn).is_allocated(q) == (self.is_allocated(q) && q != ppn),
            self.dealloc(ppn).available() == self.available() + 1,
    {
        let after = self.dealloc(ppn);
        assert forall|q: u64| after.is_allocated(q) == (self.is_allocated(q) && q != ppn) by {
            if self.free.contains(q) {
                let i = choose|i: int| 0 <= i < self.free.len() && self.free[i] == q;
                assert(after.free[i] == q);
            }
            if after.free.contains(q) && q != ppn {
                let i = choose|i: int| 0 <= i < after.free.len() && after.free[i] == q;
                assert(self.free[i] == q);
            }
            assert(after.free[self.free.len() as int] == ppn);
        }
        assert(after.allocated() =~= self.allocated().remove(ppn));
        assert forall|i: int, j: int|
            0 <= i < after.free.len() && 0 <= j < after.free.len() && i != j implies after.free[i]
            != after.free[j] by {
            if i < self.free.len() {
                assert(self.free.contains(self.free[i]));
            }
            if j < self.free.len() {
                assert(self.free.contains(self.free[j]));
            }
        }
    }

    /// The frame given back last is the frame handed out next, and the
    /// allocator is then as it was.
    pub proof fn lemma_lifo(self, ppn: u64)
        requires
            self.wf(),
            self.is_allocated(ppn),
        ensures
            self.dealloc(ppn).allocate() == (Some(ppn), self),
    {
        assert(self.free.push(ppn).drop_last() =~= self.free);
    }

    /// Memory that keeps the first word of every recycled frame keeps the
    /// recycled stack.
    pub proof fn lemma_consistent_frame(self, m1: MemoryView, m2: MemoryView)
        requires
            self.wf(),
            self.consistent(m1),
            m2.wf(),
            m1.same_shape(m2),
            forall|p: u64|
                self.start <= p < self.current && !self.is_allocated(p) ==> #[trigger] m2.page(p)
                    == m1.page(p),
        ensures
            self.consistent(m2),
    {
        assert forall|i: int| 0 <= i < self.free.len() implies #[trigger] self.link_holds(
            m2,
            i,
        ) by {
            assert(self.link_holds(m1, i));
            assert(self.free.contains(self.free[i]));
        }
    }
}

/// What a client asks of the allocator: a frame, or to take a frame back.
pub enum FrameRequest {
    /// Hand out a frame.
    Allocate,
    /// Take this frame back.
    Dealloc(u64),
}

/// The allocator after the requests `requests`, in their order.
pub open spec fn after_requests(a: FrameAllocatorView, requests: Seq<FrameRequest>) -> FrameAllocatorView
    decreases requests.len(),
{
    if requests.len() == 0 {
        a
    } else {
        let before = after_requests(a, requests.drop_last());
        match requests.last() {
            FrameRequest::Allocate => before.allocate().1,
            FrameRequest::Dealloc(p) => before.dealloc(p),
        }
    }
}

/// Whether the requests respect ownership: each frame that is given back
/// is handed out at that time.
pub open spec fn owned_requests(a: FrameAllocatorView, requests: Seq<FrameRequest>) -> bool {
    forall|k: int|
        0 <= k < requests.len() ==> (#[trigger] requests[k] matches FrameRequest::Dealloc(p)
            ==> after_requests(a, requests.take(k)).is_allocated(p))
}

/// Through any requests that respect ownership the allocator stays well
/// formed, and each frame that it hands out is a frame of its range that
/// was not handed out at that time.
pub proof fn lemma_interleaving(a: FrameAllocatorView, requests: Seq<FrameRequest>)
    requires
        a.wf(),
        owned_requests(a, requests),
    ensures
        after_requests(a, requests).wf(),
        forall|k: int|
            0 <= k < requests.len() && (#[trigger] requests[k]) == FrameRequest::Allocate ==> {
                let before = after_requests(a, requests.take(k));
                before.allocate().0 matches Some(p) ==> a.start <= p < a.end
                    && !before.is_allocated(p) && after_requests(a, requests.take(k + 1)).is_allocated(p)
            },
        after_requests(a, requests).start == a.start,
        after_requests(a, requests).end == a.end,
    decreases requests.len(),
{
    if requests.len() > 0 {
        let n = requests.len() - 1;
        let head = requests.drop_last();
        assert(head =~= requests.take(n));
        assert forall|k: int| 0 <= k < head.len() implies (#[trigger] head[k] matches FrameRequest::Dealloc(
            p,
        ) ==> after_requests(a, head.take(k)).is_allocated(p)) by {
            assert(head[k] == requests[k]);
            assert(head.take(k) =~= requests.take(k));
        }
        lemma_interleaving(a, head);
        let before = after_requests(a, head);
        before.lemma_alloc_fresh();
        match requests.last() {
            FrameRequest::Allocate => {},
            FrameRequest::Dealloc(p) => {
                assert(requests[n] == requests.last());
                before.lemma_dealloc(p);
            },
        }
        assert forall|k: int|
            0 <= k < requests.len() && (#[trigger] requests[k]) == FrameRequest::Allocate implies {
            let before = after_requests(a, requests.take(k));
            before.allocate().0 matches Some(p) ==> a.start <= p < a.end && !before.is_allocated(p)
                && after_requests(a, requests.take(k + 1)).is_allocated(p)
        } by {
            if k < n {
                assert(head[k] == requests[k]);
                assert(head.take(k) =~= requests.take(k));
                assert(head.take(k + 1) =~= requests.take(k + 1));
            } else {
                assert(requests.take(k + 1) =~= requests);
                assert(requests.drop_last() =~= head);
            }
        }
    }
}

/// How an operation by the owner of some frames may change the world: the
/// owner had the frames `own0` and has `own1` afterwards; what it gained
/// was not handed out before; of the frames of others none was given back,
/// none was handed out anew, and none changed its content.
#[verifier::opaque]
pub open spec fn changes(
    own0: Set<u64>,
    m0: MemoryView,
    a0: FrameAllocatorView,
    own1: Set<u64>,
    m1: MemoryView,
    a1: FrameAllocatorView,
) -> bool {
    &&& m1.same_shape(m0)
    &&& a1.start == a0.start
    &&& a1.end == a0.end
    &&& forall|p: u64| #[trigger] own1.contains(p) && !own0.contains(p) ==> !a0.is_allocated(p)
    &&& forall|p: u64|
        #![trigger a1.is_allocated(p)]
        #![trigger a0.is_allocated(p)]
        a1.is_allocated(p) == ((a0.is_allocated(p) && !own0.contains(p)) || own1.contains(p))
    &&& forall|p: u64|
        a0.is_allocated(p) && !own0.contains(p) ==> #[trigger] m1.page(p) == m0.page(p)
}

/// Nothing changed is a change that `changes` allows.
pub proof fn lemma_changes_refl(own: Set<u64>, m: MemoryView, a: FrameAllocatorView)
    requires
        forall|p: u64| #[trigger] own.contains(p) ==> a.is_allocated(p),
    ensures
        changes(own, m, a, own, m, a),
{
    reveal(changes);
}

/// Two changes in a row make one change.
pub proof fn lemma_changes_trans(
    own0: Set<u64>,
    m0: MemoryView,
    a0: FrameAllocatorView,
    own1: Set<u64>,
    m1: MemoryView,
    a1: FrameAllocatorView,
    own2: Set<u64>,
    m2: MemoryView,
    a2: FrameAllocatorView,
)
    requires
        changes(own0, m0, a0, own1, m1, a1),
        changes(own1, m1, a1, own2, m2, a2),
    ensures
        changes(own0, m0, a0, own2, m2, a2),
{
    reveal(changes);
    assert forall|p: u64| a0.is_allocated(p) && !own0.contains(p) implies #[trigger] m2.page(p)
        == m0.page(p) by {
        assert(a1.is_allocated(p));
        if own1.contains(p) {
            assert(!a0.is_allocated(p));
        }
        assert(m1.page(p) == m0.page(p));
    }
    assert forall|p: u64| #[trigger] own2.contains(p) && !own0.contains(p) implies !a0.is_allocated(
        p,
    ) by {
        if own1.contains(p) {
        } else {
            assert(!a1.is_allocated(p));
        }
    }
    assert forall|p: u64|
        #![trigger a2.is_allocated(p)]
        #![trigger a0.is_allocated(p)]
        a2.is_allocated(p) == ((a0.is_allocated(p) && !own0.contains(p)) || own2.contains(p)) by {
        if own1.contains(p) && !own0.contains(p) {
            assert(!a0.is_allocated(p));
        }
        assert(a1.is_allocated(p) == ((a0.is_allocated(p) && !own0.contains(p))
            || own1.contains(p)));
    }
}

/// A change by the owner of some frames is a change by an owner who holds
/// further frames beside them and keeps those.
pub proof fn lemma_changes_lift(
    own0: Set<u64>,
    m0: MemoryView,
    a0: FrameAllocatorView,
    own1: Set<u64>,
    m1: MemoryView,
    a1: FrameAllocatorView,
    kept: Set<u64>,
)
    requires
        changes(own0, m0, a0, own1, m1, a1),
        forall|p: u64| #[trigger] kept.contains(p) ==> a0.is_allocated(p) && !own0.contains(p),
    ensures
        changes(own0.union(kept), m0, a0, own1.union(kept), m1, a1),
        forall|p: u64| kept.contains(p) ==> #[trigger] m1.page(p) == m0.page(p),
        forall|p: u64| #[trigger] kept.contains(p) ==> a1.is_allocated(p) && !own1.contains(p),
{
    reveal(changes);
    let o0 = own0.union(kept);
    let o1 = own1.union(kept);
    assert forall|p: u64| #[trigger] o1.contains(p) && !o0.contains(p) implies !a0.is_allocated(
        p,
    ) by {
        assert(own1.contains(p) && !own0.contains(p));
    }
    assert forall|p: u64|
        #![trigger a1.is_allocated(p)]
        #![trigger a0.is_allocated(p)]
        a1.is_allocated(p) == ((a0.is_allocated(p) && !o0.contains(p)) || o1.contains(p)) by {
        if own1.contains(p) && !own0.contains(p) {
            assert(!a0.is_allocated(p));
        }
    }
}

/// An owner who had no frame before and has none afterwards leaves the set
/// of frames handed out as it was.
pub proof fn lemma_changes_net_zero(
    m0: MemoryView,
    a0: FrameAllocatorView,
    m1: MemoryView,
    a1: FrameAllocatorView,
)
    requires
        changes(Set::<u64>::empty(), m0, a0, Set::<u64>::empty(), m1, a1),
    ensures
        a1.allocated() == a0.allocated(),
        forall|p: u64| a0.is_allocated(p) ==> #[trigger] m1.page(p) == m0.page(p),
{
    reveal(changes);
    assert(a1.allocated() =~= a0.allocated());
}

/// Writing into frames of one's own is a change that leaves the allocator
/// as it is.
pub proof fn lemma_owner_write(own: Set<u64>, m0: MemoryView, a: FrameAllocatorView, m1: MemoryView)
    requires
        a.wf(),
        a.consistent(m0),
        m1.wf(),
        m1.same_shape(m0),
        forall|p: u64| #[trigger] own.contains(p) ==> a.is_allocated(p),
        forall|p: u64| m0.contains(p) && !own.contains(p) ==> #[trigger] m1.page(p) == m0.page(p),
    ensures
        a.consistent(m1),
        changes(own, m0, a, own, m1, a),
{
    reveal(changes);
    assert forall|p: u64| a.start <= p < a.current && !a.is_allocated(p) implies #[trigger] m1.page(
        p,
    ) == m0.page(p) by {
        assert(m0.contains(p));
    }
    a.lemma_consistent_frame(m0, m1);
    assert forall|p: u64| a.is_allocated(p) && !own.contains(p) implies #[trigger] m1.page(p)
        == m0.page(p) by {
        assert(m0.contains(p));
    }
}

/// An owner who starts without a frame and gives back every frame that it
/// took leaves the set of frames handed out as it found it.
pub proof fn lemma_changes_round_trip(
    m0: MemoryView,
    a0: FrameAllocatorView,
    own: Set<u64>,
    m1: MemoryView,
    a1: FrameAllocatorView,
    m2: MemoryView,
    a2: FrameAllocatorView,
)
    requires
        changes(Set::<u64>::empty(), m0, a0, own, m1, a1),
        changes(own, m1, a1, Set::<u64>::empty(), m2, a2),
    ensures
        a2.allocated() == a0.allocated(),
{
    lemma_changes_trans(Set::<u64>::empty(), m0, a0, own, m1, a1, Set::<u64>::empty(), m2, a2);
    lemma_changes_net_zero(m0, a0, m2, a2);
}

/// An owner who starts without a frame and gives back every frame that it
/// took leaves as many frames to hand out as it found.
pub proof fn lemma_round_trip_count(
    m0: MemoryView,
    a0: FrameAllocatorView,
    own: Set<u64>,
    m1: MemoryView,
    a1: FrameAllocatorView,
    m2: MemoryView,
    a2: FrameAllocatorView,
)
    requires
        a0.wf(),
        a2.wf(),
        changes(Set::<u64>::empty(), m0, a0, own, m1, a1),
        changes(own, m1, a1, Set::<u64>::empty(), m2, a2),
    ensures
        a2.available() == a0.available(),
{
    lemma_changes_round_trip(m0, a0, own, m1, a1, m2, a2);
    lemma_changes_shape(Set::<u64>::empty(), m0, a0, own, m1, a1);
    lemma_changes_shape(own, m1, a1, Set::<u64>::empty(), m2, a2);
    a0.lemma_available();
    a2.lemma_available();
}

/// A change leaves as many frames to hand out as there were, less the
/// frames that the owner has gained, and more the frames that it has given
/// back.
pub proof fn lemma_changes_count(
    own0: Set<u64>,
    m0: MemoryView,
    a0: FrameAllocatorView,
    own1: Set<u64>,
    m1: MemoryView,
    a1: FrameAllocatorView,
)
    requires
        a0.wf(),
        a1.wf(),
        changes(own0, m0, a0, own1, m1, a1),
        forall|p: u64| #[trigger] own0.contains(p) ==> a0.is_allocated(p),
    ensures
        own0.finite(),
        own1.finite(),
        a1.available() + own1.len() == a0.available() + own0.len(),
{
    reveal(changes);
    a0.lemma_available();
    a1.lemma_available();
    let x0 = a0.allocated();
    let x1 = a1.allocated();
    assert(own0.subset_of(x0));
    assert(own1.subset_of(x1));
    vstd::set_lib::lemma_set_subset_finite(x0, own0);
    vstd::set_lib::lemma_set_subset_finite(x1, own1);
    let others = x0.difference(own0);
    assert(x1.difference(own1) =~= others) by {
        assert forall|p: u64| x1.difference(own1).contains(p) == others.contains(p) by {
            if own1.contains(p) && !own0.contains(p) {
                assert(!a0.is_allocated(p));
            }
        }
    }
    vstd::set_lib::lemma_set_difference_len(x0, own0);
    vstd::set_lib::lemma_set_difference_len(x1, own1);
    assert(x0.intersect(own0) =~= own0);
    assert(x1.intersect(own1) =~= own1);
}

/// A change keeps the shape of memory and the range of the allocator.
pub proof fn lemma_changes_shape(
    own0: Set<u64>,
    m0: MemoryView,
    a0: FrameAllocatorView,
    own1: Set<u64>,
    m1: MemoryView,
    a1: FrameAllocatorView,
)
    requires
        changes(own0, m0, a0, own1, m1, a1),
    ensures
        m1.same_shape(m0),
        a1.start == a0.start,
        a1.end == a0.end,
        forall|p: u64| #[trigger] own1.contains(p) ==> a1.is_allocated(p),
{
    reveal(changes);
}

/// What a change leaves alone: a frame of somebody else is still handed
/// out and holds what it held, and no frame of the owner after the change
/// is a frame of somebody else.
pub proof fn lemma_changes_other(
    own0: Set<u64>,
    m0: MemoryView,
    a0: FrameAllocatorView,
    own1: Set<u64>,
    m1: MemoryView,
    a1: FrameAllocatorView,
    p: u64,
)
    requires
        changes(own0, m0, a0, own1, m1, a1),
        a0.is_allocated(p),
        !own0.contains(p),
    ensures
        a1.is_allocated(p),
        !own1.contains(p),
        m1.page(p) == m0.page(p),
{
    reveal(changes);
}

/// Taking a zeroed frame from the allocator is a change by the owner who
/// gets the frame.
pub proof fn lemma_alloc_changes(own: Set<u64>, m: MemoryView, a: FrameAllocatorView, p: u64)
    requires
        a.wf(),
        a.consistent(m),
        a.allocate().0 == Some(p),
        forall|q: u64| #[trigger] own.contains(q) ==> a.is_allocated(q),
    ensures
        changes(own, m, a, own.insert(p), m.set_page(p, zero_page()), a.allocate().1),
        !own.contains(p),
{
    reveal(changes);
    a.lemma_alloc_fresh();
    let a1 = a.allocate().1;
    let own1 = own.insert(p);
    assert forall|q: u64|
        #![trigger a1.is_allocated(q)]
        #![trigger a.is_allocated(q)]
        a1.is_allocated(q) == ((a.is_allocated(q) && !own.contains(q)) || own1.contains(q)) by {
        if own.contains(q) {
            assert(a.is_allocated(q));
        }
    }
}

/// Giving a frame back to the allocator is a change by the owner who had
/// the frame.
pub proof fn lemma_dealloc_changes(own: Set<u64>, m: MemoryView, a: FrameAllocatorView, p: u64)
    requires
        a.wf(),
        a.consistent(m),
        own.contains(p),
        forall|q: u64| #[trigger] own.contains(q) ==> a.is_allocated(q),
    ensures
        changes(
            own,
            m,
            a,
            own.remove(p),
            m.set_word(p, 0, a.link(a.free.len() as int)),
            a.dealloc(p),
        ),
{
    reveal(changes);
    a.lemma_dealloc(p);
    let a1 = a.dealloc(p);
    let own1 = own.remove(p);
    assert forall|q: u64|
        #![trigger a1.is_allocated(q)]
        #![trigger a.is_allocated(q)]
        a1.is_allocated(q) == ((a.is_allocated(q) && !own.contains(q)) || own1.contains(q)) by {
        if own.contains(q) {
            assert(a.is_allocated(q));
        }
    }
}

/// Hands out the frames of a range of physical pages and takes them back.
pub struct LinkedStackFrameAllocator {
    current: PhysPageNum,
    end: PhysPageNum,
    recycled_head: Option<PhysPageNum>,
    start: Ghost<u64>,
    free: Ghost<Seq<u64>>,
}

impl View for LinkedStackFrameAllocator {
    type V = FrameAllocatorView;

    closed spec fn view(&self) -> FrameAllocatorView {
        FrameAllocatorView {
            start: self.start@,
            current: self.current.0,
            end: self.end.0,
            free: self.free@,
        }
    }
}

impl LinkedStackFrameAllocator {
    /// The head of the recycled stack is its most recently recycled frame.
    pub closed spec fn inv(&self) -> bool {
        self.recycled_head == (if self.free@.len() == 0 {
            None
        } else {
            Some(PhysPageNum(self.free@.last()))
        })
    }

    /// The allocator is well formed and agrees with what memory `m` holds.
    pub open spec fn wf(&self, m: MemoryView) -> bool {
        self.inv() && self@.wf() && self@.consistent(m)
    }

    /// An allocator for the pages from `start` up to, not including, `end`,
    /// none of them handed out.
    pub fn new(start: PhysPageNum, end: PhysPageNum) -> (a: LinkedStackFrameAllocator)
        ensures
            a.inv(),
            a@ == (FrameAllocatorView {
                start: start.0,
                current: start.0,
                end: end.0,
                free: Seq::empty(),
            }),
    {
        LinkedStackFrameAllocator {
            current: start,
            end,
            recycled_head: None,
            start: Ghost(start.0),
            free: Ghost(Seq::empty()),
        }
    }

    /// Hands out a frame: the most recently recycled one if there is one,
    /// else the frame at the watermark; `None` when the range is used up.
    pub fn allocate(&mut self, mem: &PhysMemory) -> (r: Option<PhysPageNum>)
        requires
            mem.wf(),
            old(self).wf(mem@),
        ensures
            final(self).wf(mem@),
            (match r {
                Some(p) => Some(p.0),
                None => None,
            }, final(self)@) == old(self)@.allocate(),
            r matches Some(p) ==> mem@.contains(p.0),
    {
        proof {
            self@.lemma_alloc_fresh();
        }
        if let Some(ppn) = self.recycled_head {
            let ghost n = self.free@.len() as int;
            let ghost before = self@;
            assert(self.free@[n - 1] == ppn.0);
            assert(before.link_holds(mem@, n - 1));
            let next: u64 = mem.read_word(ppn, 0);
            self.recycled_head = if next == NO_FRAME {
                None
            } else {
                Some(PhysPageNum(next))
            };
            proof {
                self.free = Ghost(self.free@.drop_last());
                if n > 1 {
                    assert(old(self).free@[n - 2] < NO_FRAME);
                }
                assert forall|i: int| 0 <= i < self@.free.len() implies #[trigger] self@.link_holds(
                    mem@,
                    i,
                ) by {
                    assert(before.link_holds(mem@, i));
                }
            }
            return Some(ppn);
        } else if self.current.0 < self.end.0 {
            let current = self.current;
            self.current = PhysPageNum(current.0 + 1);
            return Some(current);
        }
        None
    }

    /// Takes back the frame `ppn`, which must be a frame of the range that
    /// is handed out, and writes the recycling link into its first word.
    pub fn dealloc(&mut self, mem: &mut PhysMemory, ppn: PhysPageNum)
        requires
            old(self).wf(old(mem)@),
            old(mem).wf(),
            old(self)@.is_allocated(ppn.0),
        ensures
            final(mem).wf(),
            final(self).wf(final(mem)@),
            final(self)@ == old(self)@.dealloc(ppn.0),
            final(mem)@ == old(mem)@.set_word(ppn.0, 0, old(self)@.link(old(self)@.free.len() as int)),
    {
        proof {
            self@.lemma_dealloc(ppn.0);
        }
        let link: u64 = match self.recycled_head {
            Some(head) => head.0,
            None => NO_FRAME,
        };
        mem.write_word(ppn, 0, link);
        self.recycled_head = Some(ppn);
        proof {
            let ghost before = old(self)@;
            super::memory::lemma_page_set_word(old(mem)@.page(ppn.0), 0, link);
            self.free = Ghost(self.free@.push(ppn.0));
            assert forall|i: int| 0 <= i < self@.free.len() implies #[trigger] self@.link_holds(
                mem@,
                i,
            ) by {
                if i < before.free.len() {
                    assert(before.link_holds(old(mem)@, i));
                    assert(before.free.contains(before.free[i]));
                    assert(before.free[i] != ppn.0);
                    assert(mem@.page(before.free[i]) == old(mem)@.page(before.free[i]));
                }
            }
        }
    }

    /// Whether `ppn` lies below the watermark and is not a recycled frame.
    pub fn check_allocated(&self, mem: &PhysMemory, ppn: PhysPageNum) -> (b: bool)
        requires
            mem.wf(),
            self.wf(mem@),
        ensures
            b == self@.in_use(ppn.0),
    {
        if ppn.0 >= self.current.0 {
            return false;
        }
        let mut next = self.recycled_head;
        let ghost mut i: int = self.free@.len() as int;
        loop
            invariant
                mem.wf(),
                self.wf(mem@),
                0 <= i <= self.free@.len(),
                next == (if i == 0 {
                    None
                } else {
                    Some(PhysPageNum(self.free@[i - 1]))
                }),
                forall|j: int| i <= j < self.free@.len() ==> self.free@[j] != ppn.0,
                ppn.0 < self.current.0,
            ensures
                i == 0,
                forall|j: int| 0 <= j < self.free@.len() ==> self.free@[j] != ppn.0,
            decreases i,
        {
            match next {
                None => {
                    break ;
                },
                Some(pagenum) => {
                    if pagenum.0 == ppn.0 {
                        assert(self.free@.contains(ppn.0));
                        return false;
                    }
                    assert(self@.free[i - 1] == pagenum.0);
                    assert(self@.link_holds(mem@, i - 1));
                    let link: u64 = mem.read_word(pagenum, 0);
                    proof {
                        if i > 1 {
                            assert(self@.free[i - 2] < NO_FRAME);
                        }
                        i = i - 1;
                    }
                    next = if link == NO_FRAME {
                        None
                    } else {
                        Some(PhysPageNum(link))
                    };
                },
            }
        }
        true
    }
}

/// The owner of one allocated frame.
#[derive(Debug)]
pub struct Frame {
    ppn: PhysPageNum,
}

impl Frame {
    /// The number of the owned frame.
    pub closed spec fn spec_ppn(&self) -> u64 {
        self.ppn.0
    }

    /// Allocates a frame and fills it with zero bytes. `None` when no frame
    /// is left.
    pub fn alloc_zeroes(alloc: &mut LinkedStackFrameAllocator, mem: &mut PhysMemory) -> (r: Option<
        Frame,
    >)
        requires
            old(mem).wf(),
            old(alloc).wf(old(mem)@),
        ensures
            final(mem).wf(),
            final(alloc).wf(final(mem)@),
            (match r {
                Some(f) => Some(f.spec_ppn()),
                None => None,
            }, final(alloc)@) == old(alloc)@.allocate(),
            r matches Some(f) ==> old(mem)@.contains(f.spec_ppn()) && final(mem)@ == old(
                mem,
            )@.set_page(f.spec_ppn(), zero_page()),
            r.is_none() ==> final(mem)@ == old(mem)@,
    {
        match alloc.allocate(mem) {
            Some(ppn) => {
                proof {
                    old(alloc)@.lemma_alloc_fresh();
                }
                mem.zero_page(ppn);
                proof {
                    alloc@.lemma_consistent_frame(old(mem)@, mem@);
                }
                Some(Frame { ppn })
            },
            None => None,
        }
    }

    /// Allocates a frame and leaves its content as it is. `None` when no
    /// frame is left.
    pub fn alloc_uninitialized(alloc: &mut LinkedStackFrameAllocator, mem: &PhysMemory) -> (r:
        Option<Frame>)
        requires
            mem.wf(),
            old(alloc).wf(mem@),
        ensures
            final(alloc).wf(mem@),
            (match r {
                Some(f) => Some(f.spec_ppn()),
                None => None,
            }, final(alloc)@) == old(alloc)@.allocate(),
            r matches Some(f) ==> mem@.contains(f.spec_ppn()),
    {
        match alloc.allocate(mem) {
            Some(ppn) => Some(Frame { ppn }),
            None => None,
        }
    }

    /// The number of the owned frame.
    pub fn ppn(&self) -> (p: PhysPageNum)
        ensures
            p.0 == self.spec_ppn(),
    {
        self.ppn
    }

    /// Gives up ownership without giving the frame back: the caller keeps
    /// track of the frame by its number from here on.
    pub fn into_ppn(self) -> (p: PhysPageNum)
        ensures
            p.0 == self.spec_ppn(),
    {
        self.ppn
    }

    /// Gives back a frame that is tracked by its number.
    pub fn manually_drop(
        ppn: PhysPageNum,
        alloc: &mut LinkedStackFrameAllocator,
        mem: &mut PhysMemory,
    )
        requires
            old(alloc).wf(old(mem)@),
            old(mem).wf(),
            old(alloc)@.is_allocated(ppn.0),
        ensures
            final(mem).wf(),
            final(alloc).wf(final(mem)@),
            final(alloc)@ == old(alloc)@.dealloc(ppn.0),
            final(mem)@ == old(mem)@.set_word(
                ppn.0,
                0,
                old(alloc)@.link(old(alloc)@.free.len() as int),
            ),
    {
        alloc.dealloc(mem, ppn)
    }

    /// Gives the owned frame back to the allocator.
    pub fn release(self, alloc: &mut LinkedStackFrameAllocator, mem: &mut PhysMemory)
        requires
            old(alloc).wf(old(mem)@),
            old(mem).wf(),
            old(alloc)@.is_allocated(self.spec_ppn()),
        ensures
            final(mem).wf(),
            final(alloc).wf(final(mem)@),
            final(alloc)@ == old(alloc)@.dealloc(self.spec_ppn()),
            final(mem)@ == old(mem)@.set_word(
                self.spec_ppn(),
                0,
                old(alloc)@.link(old(alloc)@.free.len() as int),
            ),
    {
        alloc.dealloc(mem, self.ppn)
    }
}

/// The frame allocator of a machine whose frames are the pages that hold
/// the bytes from `start` up to, not including, `end`.
pub fn init(start: u64, end: u64) -> (a: LinkedStackFrameAllocator)
    ensures
        a.inv(),
        a@ == (FrameAllocatorView {
            start: start / 4096,
            current: start / 4096,
            end: ((end + 4095) / 4096) as u64,
            free: Seq::empty(),
        }),
{
    let first: u64 = start / 4096;
    let last: u64 = if end % 4096 == 0 {
        end / 4096
    } else {
        end / 4096 + 1
    };
    LinkedStackFrameAllocator::new(PhysPageNum(first), PhysPageNum(last))
}

} // verus!
