//! The operation log: an append-only record of every push and pop on
//! the evaluator's two stacks, stamped by a logical clock that starts
//! at 0 for each evaluation and increases by one per operation. The
//! record order is the timestamp order, so a query returns the entries
//! as stored.

use vstd::prelude::*;

verus! {

/// Which stack an operation touched.
#[derive(Clone, Copy, PartialEq, Eq, Structural, Debug)]
pub enum StackKind {
    Numeric,
    Symbolic,
}

/// What the operation did.
#[derive(Clone, Copy, PartialEq, Eq, Structural, Debug)]
pub enum LogAction {
    Push,
    Pop,
}

/// One stack operation: its logical time, stack, action and payload (a
/// numeric value, or an operator's code point on the symbolic stack).
#[derive(Clone, Copy, PartialEq, Eq, Structural, Debug)]
pub struct LogEntry {
    pub timestamp: u32,
    pub stack: StackKind,
    pub action: LogAction,
    pub payload: i64,
}

/// The append-only log of one evaluation.
pub struct OperationLog {
    pub entries: Vec<LogEntry>,
}

/// The number of entries of `s` on stack `k` with action `a`.
pub open spec fn count_ops(s: Seq<LogEntry>, k: StackKind, a: LogAction) -> int
    decreases s.len(),
{
    if s.len() == 0 {
        0
    } else {
        (if s[0].stack == k && s[0].action == a {
            1int
        } else {
            0int
        }) + count_ops(s.drop_first(), k, a)
    }
}

/// Appending an entry raises exactly its own count.
pub proof fn lemma_count_push(s: Seq<LogEntry>, en: LogEntry, k: StackKind, a: LogAction)
    ensures
        count_ops(s.push(en), k, a) == count_ops(s, k, a) + (if en.stack == k && en.action == a {
            1int
        } else {
            0int
        }),
    decreases s.len(),
{
    if s.len() == 0 {
        assert(s.push(en)[0] == en);
        assert(s.push(en).drop_first() =~= Seq::<LogEntry>::empty());
        assert(count_ops(Seq::<LogEntry>::empty(), k, a) == 0);
    } else {
        assert(s.push(en)[0] == s[0]);
        assert(s.push(en).drop_first() =~= s.drop_first().push(en));
        lemma_count_push(s.drop_first(), en, k, a);
    }
}

/// Appending an entry raises exactly its own count, for every kind.
pub proof fn lemma_count_push_all(s: Seq<LogEntry>, en: LogEntry)
    ensures
        forall|k: StackKind, a: LogAction| #[trigger] count_ops(s.push(en), k, a) == count_ops(
            s,
            k,
            a,
        ) + (if en.stack == k && en.action == a {
            1int
        } else {
            0int
        }),
{
    assert forall|k: StackKind, a: LogAction| #[trigger] count_ops(s.push(en), k, a) == count_ops(
        s,
        k,
        a,
    ) + (if en.stack == k && en.action == a {
        1int
    } else {
        0int
    }) by {
        lemma_count_push(s, en, k, a);
    }
}

impl OperationLog {
    /// Timestamps are the entry indices: the log is in time order.
    pub open spec fn wf(&self) -> bool {
        forall|i: int| 0 <= i < self.entries@.len()
            ==> (#[trigger] self.entries@[i]).timestamp as int == i
    }

    /// An empty log.
    pub fn new() -> (r: OperationLog)
        ensures
            r.wf(),
            r.entries@.len() == 0,
    {
        OperationLog { entries: Vec::new() }
    }

    /// Clears the log and the clock.
    pub fn reset(&mut self)
        ensures
            final(self).wf(),
            final(self).entries@.len() == 0,
    {
        self.entries.clear();
    }

    /// Appends one operation under the next timestamp.
    pub fn record(&mut self, stack: StackKind, action: LogAction, payload: i64)
        requires
            old(self).wf(),
            old(self).entries@.len() < u32::MAX,
        ensures
            final(self).wf(),
            final(self).entries@ == old(self).entries@.push(
                LogEntry {
                    timestamp: old(self).entries@.len() as u32,
                    stack,
                    action,
                    payload,
                },
            ),
    {
        let ts = self.entries.len() as u32;
        self.entries.push(LogEntry { timestamp: ts, stack, action, payload });
    }

    /// The recorded operations, in timestamp order; reading does not
    /// change the log.
    pub fn query(&self) -> (r: Vec<LogEntry>)
        requires
            self.wf(),
        ensures
            r@ == self.entries@,
            forall|i: int| 0 <= i < r@.len() ==> (#[trigger] r@[i]).timestamp as int == i,
    {
        let n = self.entries.len();
        let mut out: Vec<LogEntry> = Vec::new();
        let mut i: usize = 0;
        while i < n
            invariant
                i <= n,
                n == self.entries@.len(),
                out@ == self.entries@.take(i as int),
            decreases n - i,
        {
            out.push(self.entries[i]);
            proof {
                assert(out@ =~= self.entries@.take(i as int + 1));
            }
            i += 1;
        }
        proof {
            assert(out@ =~= self.entries@);
        }
        out
    }
}

} // verus!
