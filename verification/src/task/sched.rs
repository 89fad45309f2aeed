//! The stride scheduler.
//!
//! Every task carries a stride, an unsigned counter that wraps around. The
//! task to run next is the ready task with the smallest stride, and each
//! time slice that a task uses moves its stride on by a pass that is the
//! smaller the higher its priority is.

use vstd::prelude::*;

verus! {

/// The highest priority that counts: higher ones are treated as this one.
pub const PRIORITY_MAX: u64 = 0x7fff_ffff_ffff_ffff;

/// The lowest priority.
pub const PRIORITY_MIN: u64 = 2;

/// Half of the range of a stride.
pub const STRIDE_HALF: u64 = 0x8000_0000_0000_0000;

/// What the scheduler keeps for each task.
#[derive(Copy, Clone, Debug, PartialEq, Eq, Structural)]
pub struct StrideSchedulerData {
    pub stride: u64,
}

impl Default for StrideSchedulerData {
    fn default() -> (d: StrideSchedulerData)
        ensures
            d.stride == 0,
    {
        StrideSchedulerData { stride: 0 }
    }
}

/// The distance from stride `b` up to stride `a` on the circle of strides.
pub open spec fn wrap_sub(a: u64, b: u64) -> int {
    if a >= b {
        a - b
    } else {
        a - b + 0x1_0000_0000_0000_0000
    }
}

/// Stride `a` moved on by `pass` on the circle of strides.
pub open spec fn wrap_add(a: u64, pass: u64) -> int {
    if a + pass <= u64::MAX {
        a + pass
    } else {
        a + pass - 0x1_0000_0000_0000_0000
    }
}

/// Whether stride `a` comes before stride `b`: the distance from `a` up to
/// `b` is more than nothing and less than half the circle.
pub open spec fn stride_before(a: u64, b: u64) -> bool {
    0 < wrap_sub(b, a) < STRIDE_HALF
}

/// The priority that counts for a task of priority `priority`.
pub open spec fn effective_priority(priority: u64) -> int {
    if priority < PRIORITY_MIN {
        PRIORITY_MIN as int
    } else if priority > PRIORITY_MAX {
        PRIORITY_MAX as int
    } else {
        priority as int
    }
}

/// The pass of a task of priority `priority`: how far one time slice moves
/// its stride.
pub open spec fn pass_of(priority: u64) -> int {
    u64::MAX as int / effective_priority(priority)
}

/// The stride after one time slice.
pub open spec fn stride_after_tick(stride: u64, priority: u64) -> int {
    wrap_add(stride, pass_of(priority) as u64)
}

/// One entry of the list that the scheduler picks from: whether the task
/// is ready, and its stride.
pub struct Candidate {
    pub ready: bool,
    pub stride: u64,
}

/// What a scan over the first `n` candidates has found: the position and
/// the stride of the best candidate so far. A later candidate replaces the
/// best one only if its stride comes before.
pub open spec fn scan(list: Seq<Candidate>, n: int) -> Option<(int, u64)>
    decreases n,
{
    if n <= 0 {
        None
    } else {
        let before = scan(list, n - 1);
        let c = list[n - 1];
        if !c.ready {
            before
        } else {
            match before {
                None => Some((n - 1, c.stride)),
                Some((_, min)) => if stride_before(c.stride, min) {
                    Some((n - 1, c.stride))
                } else {
                    before
                },
            }
        }
    }
}

/// The position of the candidate to run next.
pub open spec fn pick(list: Seq<Candidate>) -> Option<int> {
    match scan(list, list.len() as int) {
        Some((i, _)) => Some(i),
        None => None,
    }
}

/// Among ready candidates that all have the same stride the first one is
/// picked.
pub proof fn lemma_pick_level(list: Seq<Candidate>)
    requires
        list.len() > 0,
        forall|k: int|
            0 <= k < list.len() ==> (#[trigger] list[k]).ready && list[k].stride == list[0].stride,
    ensures
        pick(list) == Some(0int),
{
    lemma_scan_level(list, list.len() as int);
}

/// A scan over ready candidates that all have the same stride stays with
/// the first one.
proof fn lemma_scan_level(list: Seq<Candidate>, n: int)
    requires
        0 < n <= list.len(),
        forall|k: int|
            0 <= k < list.len() ==> (#[trigger] list[k]).ready && list[k].stride == list[0].stride,
    ensures
        scan(list, n) == Some((0int, list[0].stride)),
    decreases n,
{
    if n > 1 {
        lemma_scan_level(list, n - 1);
        assert(list[n - 1].ready && list[n - 1].stride == list[0].stride);
        assert(wrap_sub(list[0].stride, list[0].stride) == 0);
    } else {
        assert(scan(list, 0) == None::<(int, u64)>);
        assert(list[0].ready);
    }
}

/// The scan finds a ready candidate if and only if there is one, and the
/// stride that it reports is that of the candidate that it found.
pub proof fn lemma_scan(list: Seq<Candidate>, n: int)
    requires
        0 <= n <= list.len(),
    ensures
        scan(list, n) matches Some((i, s)) ==> 0 <= i < n && list[i].ready && list[i].stride == s,
        scan(list, n).is_none() <==> forall|j: int| 0 <= j < n ==> !(#[trigger] list[j]).ready,
    decreases n,
{
    if n > 0 {
        lemma_scan(list, n - 1);
        if scan(list, n - 1).is_none() && !list[n - 1].ready {
            assert forall|j: int| 0 <= j < n implies !(#[trigger] list[j]).ready by {}
        }
    }
}

/// Where the strides of the ready candidates lie within less than half the
/// circle of each other, as they do while passes are at most half the
/// circle, no ready candidate comes before the one that the scan found.
pub proof fn lemma_scan_minimal(list: Seq<Candidate>, n: int, low: u64)
    requires
        0 <= n <= list.len(),
        forall|j: int|
            0 <= j < n && (#[trigger] list[j]).ready ==> wrap_sub(list[j].stride, low)
                < STRIDE_HALF,
    ensures
        scan(list, n) matches Some((i, s)) ==> forall|j: int|
            0 <= j < n && (#[trigger] list[j]).ready ==> !stride_before(list[j].stride, s),
    decreases n,
{
    if n > 0 {
        lemma_scan_minimal(list, n - 1, low);
        lemma_scan(list, n - 1);
        lemma_scan(list, n);
    }
}

/// The scheduler: it has no state of its own.
#[derive(Copy, Clone, Debug)]
pub struct StrideScheduler;

/// Whether stride `a` comes before stride `b`.
pub fn comes_before(a: u64, b: u64) -> (r: bool)
    ensures
        r == stride_before(a, b),
{
    let d: u64 = if b >= a {
        b - a
    } else {
        u64::MAX - a + b + 1
    };
    d != 0 && d < STRIDE_HALF
}

impl StrideScheduler {
    /// The position of the ready candidate with the smallest stride, the
    /// first of them where several have it; `None` when none is ready.
    pub fn pick_next(&self, list: &Vec<Candidate>) -> (r: Option<usize>)
        ensures
            (match r {
                Some(i) => Some(i as int),
                None => None,
            }) == pick(list@),
            r.is_none() <==> forall|j: int| 0 <= j < list@.len() ==> !(#[trigger] list@[j]).ready,
            r matches Some(i) ==> i < list@.len() && list@[i as int].ready,
    {
        let mut current_candidate: Option<usize> = None;
        let mut current_min: u64 = 0;
        let mut id: usize = 0;
        while id < list.len()
            invariant
                id <= list@.len(),
                scan(list@, id as int) == (match current_candidate {
                    Some(i) => Some((i as int, current_min)),
                    None => None,
                }),
            decreases list@.len() - id,
        {
            if list[id].ready {
                let stride: u64 = list[id].stride;
                let update: bool = match current_candidate {
                    Some(_) => comes_before(stride, current_min),
                    None => true,
                };
                if update {
                    current_candidate = Some(id);
                    current_min = stride;
                }
            }
            id += 1;
        }
        proof {
            lemma_scan(list@, list@.len() as int);
        }
        current_candidate
    }

    /// The stride after one time slice of a task with stride `stride` and
    /// priority `priority`.
    pub fn proc_tick(&self, data: &mut StrideSchedulerData, priority: u64)
        ensures
            final(data).stride == stride_after_tick(old(data).stride, priority),
    {
        let p: u64 = if priority < PRIORITY_MIN {
            PRIORITY_MIN
        } else if priority > PRIORITY_MAX {
            PRIORITY_MAX
        } else {
            priority
        };
        let pass: u64 = u64::MAX / p;
        let stride: u64 = data.stride;
        data.stride = if stride <= u64::MAX - pass {
            stride + pass
        } else {
            stride - (u64::MAX - pass) - 1
        };
    }
}

/// A scheduler.
pub fn create_scheduler() -> (s: StrideScheduler) {
    StrideScheduler
}

/// Two tasks that are always ready, as the scheduler sees them: their
/// strides, and how many time slices each has had.
pub struct Race {
    pub stride1: u64,
    pub stride2: u64,
    pub ticks1: nat,
    pub ticks2: nat,
}

/// Whether `after` is `before` after one time slice: a task has run whose
/// stride the stride of the other did not come before, and that time slice
/// has moved its stride on by its pass.
pub open spec fn race_next(before: Race, after: Race, pass1: u64, pass2: u64) -> bool {
    ||| !stride_before(before.stride2, before.stride1) && after == (Race {
        stride1: wrap_add(before.stride1, pass1) as u64,
        ticks1: before.ticks1 + 1,
        ..before
    })
    ||| !stride_before(before.stride1, before.stride2) && after == (Race {
        stride2: wrap_add(before.stride2, pass2) as u64,
        ticks2: before.ticks2 + 1,
        ..before
    })
}

/// Whether `trace` is a run of two tasks that start with the same stride:
/// every state but the first comes from the one before it by one time
/// slice.
pub open spec fn race_run(trace: Seq<Race>, pass1: u64, pass2: u64) -> bool {
    &&& trace.len() > 0
    &&& trace[0].stride1 == trace[0].stride2
    &&& trace[0].ticks1 == 0
    &&& trace[0].ticks2 == 0
    &&& forall|i: int|
        0 <= i < trace.len() - 1 ==> race_next(#[trigger] trace[i], trace[i + 1], pass1, pass2)
}

/// The pass of a task is at most half the circle of strides.
pub proof fn lemma_pass_bound(priority: u64)
    ensures
        0 < pass_of(priority) < STRIDE_HALF,
{
    let p = effective_priority(priority);
    assert(p >= 2);
    assert(u64::MAX as int / p <= u64::MAX as int / 2) by (nonlinear_arith)
        requires
            p >= 2,
    ;
    assert(u64::MAX as int / p > 0) by (nonlinear_arith)
        requires
            2 <= p <= 0x7fff_ffff_ffff_ffff,
    ;
}

/// How far `ticks` time slices move a stride whose pass is `pass`, turns of
/// the circle not taken off.
#[verifier::opaque]
pub open spec fn advance(ticks: nat, pass: u64) -> int {
    ticks * pass
}

/// No time slice moves a stride nowhere, and one time slice more moves it
/// on by one pass more.
proof fn lemma_advance(ticks: nat, pass: u64)
    ensures
        advance(0, pass) == 0,
        advance(ticks + 1, pass) == advance(ticks, pass) + pass,
{
    reveal(advance);
    assert((ticks + 1) * pass == ticks * pass + pass) by (nonlinear_arith);
}

/// One time slice keeps two strides that are no further apart than one
/// pass no further apart than one pass: `x` and `y` are how far the strides
/// have been moved on from the stride `start`, and `turns1` and `turns2`
/// the turns of the circle that they have made.
proof fn lemma_race_step(
    before: Race,
    after: Race,
    pass1: u64,
    pass2: u64,
    start: u64,
    x: int,
    y: int,
    turns1: int,
    turns2: int,
) -> (turns: (int, int))
    requires
        race_next(before, after, pass1, pass2),
        0 < pass1 < STRIDE_HALF,
        0 < pass2 < STRIDE_HALF,
        before.stride1 == start + x - turns1 * 0x1_0000_0000_0000_0000,
        before.stride2 == start + y - turns2 * 0x1_0000_0000_0000_0000,
        -pass2 <= x - y <= pass1,
    ensures
        ({
            let x1 = if after.ticks1 == before.ticks1 {
                x
            } else {
                x + pass1
            };
            let y1 = if after.ticks2 == before.ticks2 {
                y
            } else {
                y + pass2
            };
            &&& after.stride1 == start + x1 - turns.0 * 0x1_0000_0000_0000_0000
            &&& after.stride2 == start + y1 - turns.1 * 0x1_0000_0000_0000_0000
            &&& -pass2 <= x1 - y1 <= pass1
            &&& after.ticks1 + after.ticks2 == before.ticks1 + before.ticks2 + 1
            &&& after.ticks1 >= before.ticks1
            &&& after.ticks2 >= before.ticks2
        }),
{
    if !stride_before(before.stride2, before.stride1) && after == (Race {
        stride1: wrap_add(before.stride1, pass1) as u64,
        ticks1: before.ticks1 + 1,
        ..before
    }) {
        if before.stride1 + pass1 <= u64::MAX {
            (turns1, turns2)
        } else {
            (turns1 + 1, turns2)
        }
    } else {
        if before.stride2 + pass2 <= u64::MAX {
            (turns1, turns2)
        } else {
            (turns1, turns2 + 1)
        }
    }
}

/// Where the strides in a run stand after `k` time slices: each is the
/// stride at the start moved on by the passes of the time slices that its
/// task has had, short of a number of whole turns of the circle, which is
/// the result; and the tasks are never further apart than one pass.
proof fn lemma_race(trace: Seq<Race>, pass1: u64, pass2: u64, k: int) -> (turns: (int, int))
    requires
        race_run(trace, pass1, pass2),
        0 <= k < trace.len(),
        0 < pass1 < STRIDE_HALF,
        0 < pass2 < STRIDE_HALF,
    ensures
        trace[k].stride1 == trace[0].stride1 + advance(trace[k].ticks1, pass1) - turns.0
            * 0x1_0000_0000_0000_0000,
        trace[k].stride2 == trace[0].stride2 + advance(trace[k].ticks2, pass2) - turns.1
            * 0x1_0000_0000_0000_0000,
        -pass2 <= advance(trace[k].ticks1, pass1) - advance(trace[k].ticks2, pass2) <= pass1,
    decreases k,
{
    if k == 0 {
        lemma_advance(0, pass1);
        lemma_advance(0, pass2);
        (0, 0)
    } else {
        let before = trace[k - 1];
        let after = trace[k];
        let prev = lemma_race(trace, pass1, pass2, k - 1);
        assert(race_next(before, after, pass1, pass2));
        lemma_advance(before.ticks1, pass1);
        lemma_advance(before.ticks2, pass2);
        lemma_race_step(
            before,
            after,
            pass1,
            pass2,
            trace[0].stride1,
            advance(before.ticks1, pass1),
            advance(before.ticks2, pass2),
            prev.0,
            prev.1,
        )
    }
}

/// Two tasks that are always ready share the processor in proportion to
/// their priorities: after any number of time slices, the time slices of
/// the one times its pass and those of the other times its pass differ by
/// no more than one pass.
pub proof fn lemma_fairness(trace: Seq<Race>, priority1: u64, priority2: u64, k: int)
    requires
        race_run(trace, pass_of(priority1) as u64, pass_of(priority2) as u64),
        0 <= k < trace.len(),
    ensures
        -pass_of(priority2) <= trace[k].ticks1 * pass_of(priority1) - trace[k].ticks2 * pass_of(
            priority2,
        ) <= pass_of(priority1),
{
    lemma_pass_bound(priority1);
    lemma_pass_bound(priority2);
    let _ = lemma_race(trace, pass_of(priority1) as u64, pass_of(priority2) as u64, k);
    reveal(advance);
}

/// What the scheduler picks among two ready tasks whose strides are no
/// further apart than half the circle is a task whose stride the stride of
/// the other does not come before.
pub proof fn lemma_pick_two(list: Seq<Candidate>)
    requires
        list.len() == 2,
        list[0].ready,
        list[1].ready,
        wrap_sub(list[0].stride, list[1].stride) < STRIDE_HALF || wrap_sub(
            list[1].stride,
            list[0].stride,
        ) < STRIDE_HALF,
    ensures
        pick(list) == Some(0int) ==> !stride_before(list[1].stride, list[0].stride),
        pick(list) == Some(1int) ==> !stride_before(list[0].stride, list[1].stride),
        pick(list).is_some(),
{
    assert(scan(list, 0) == None::<(int, u64)>);
    assert(scan(list, 1) == Some((0int, list[0].stride)));
}

} // verus!
