//! The registers that a switch from one kernel stack to another saves and
//! restores.

use vstd::prelude::*;

verus! {

/// Bytes that a saved task context takes on a kernel stack.
pub const TASK_CONTEXT_SIZE: usize = 104;

/// The return address and the twelve registers that a called function must
/// preserve.
#[derive(Copy, Clone, Debug)]
pub struct TaskContext {
    pub ra: u64,
    pub s: [u64; 12],
}

impl TaskContext {
    /// The context of a task that has never run: a switch to it returns
    /// into the code at `launch`, with every saved register zero.
    pub fn goto_launch(launch: u64) -> (cx: TaskContext)
        ensures
            cx.ra == launch,
            forall|i: int| 0 <= i < 12 ==> cx.s[i] == 0,
    {
        TaskContext { ra: launch, s: [0, 0, 0, 0, 0, 0, 0, 0, 0, 0, 0, 0] }
    }

    /// The words of the context in the order in which they lie in memory.
    pub open spec fn words(&self) -> Seq<u64> {
        seq![self.ra] + self.s@
    }

    /// The words of the context in the order in which they lie in memory.
    pub fn to_words(&self) -> (ws: Vec<u64>)
        ensures
            ws@ == self.words(),
            ws@.len() == 13,
    {
        let mut ws: Vec<u64> = Vec::new();
        ws.push(self.ra);
        let mut i: usize = 0;
        while i < 12
            invariant
                i <= 12,
                ws@ == seq![self.ra] + self.s@.subrange(0, i as int),
            decreases 12 - i,
        {
            ws.push(self.s[i]);
            proof {
                assert(ws@ =~= seq![self.ra] + self.s@.subrange(0, i + 1));
            }
            i += 1;
        }
        proof {
            assert(self.s@.subrange(0, 12) =~= self.s@);
        }
        ws
    }
}

} // verus!
