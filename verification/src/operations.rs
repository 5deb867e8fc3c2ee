//! Long-running operations: the registry of those running, their
//! cancellation requests, and the events and summaries they report.
use vstd::prelude::*;
use crate::chars::{chars_of, string_from_chars};
use crate::text::str_eq;

verus! {

/// An operation started.
pub struct OperationEvent {
    pub operation_id: String,
    pub command: String,
}

/// Why an operation ended.
#[derive(Clone, Copy, PartialEq, Eq, Structural, Debug)]
pub enum OperationOutcome {
    Completed,
    Cancelled,
    Failed,
}

/// An operation ended.
pub struct OperationFinishedEvent {
    pub operation_id: String,
    pub command: String,
    pub outcome: OperationOutcome,
    pub elapsed_ms: u64,
}

/// A long operation reached a new stage.
pub struct OperationProgressEvent {
    pub operation_id: String,
    pub label: String,
}

/// A running operation, for queries and crash reports.
pub struct ActiveOperation {
    pub operation_id: String,
    pub command: String,
    pub elapsed_ms: u64,
}

/// A registered operation as a specification value: its command, when it
/// started (milliseconds on the caller's clock), and whether its
/// cancellation was requested.
pub struct OpView {
    pub command: Seq<char>,
    pub started_at_ms: u64,
    pub cancelled: bool,
}

/// A registered operation.
pub struct OperationEntry {
    pub command: String,
    pub started_at_ms: u64,
    pub cancelled: bool,
}

pub open spec fn op_view(e: OperationEntry) -> OpView {
    OpView { command: e.command@, started_at_ms: e.started_at_ms, cancelled: e.cancelled }
}

pub open spec fn op_entries(s: Seq<(String, OperationEntry)>) -> Seq<(Seq<char>, OpView)> {
    s.map_values(|e: (String, OperationEntry)| (e.0@, op_view(e.1)))
}

/// The operations of a list of entries, by id.
pub open spec fn ops_map(s: Seq<(Seq<char>, OpView)>) -> Map<Seq<char>, OpView>
    decreases s.len(),
{
    if s.len() == 0 {
        Map::empty()
    } else {
        ops_map(s.drop_last()).insert(s.last().0, s.last().1)
    }
}

pub open spec fn ids_unique(s: Seq<(Seq<char>, OpView)>) -> bool {
    forall|i: int, j: int| 0 <= i < s.len() && 0 <= j < s.len() && i != j ==> (#[trigger] s[i]).0 != (#[trigger] s[j]).0
}

proof fn lemma_ops_map(s: Seq<(Seq<char>, OpView)>)
    requires
        ids_unique(s),
    ensures
        forall|k: Seq<char>| #[trigger] ops_map(s).contains_key(k) <==> exists|i: int| 0 <= i < s.len() && s[i].0 == k,
        forall|i: int| 0 <= i < s.len() ==> ops_map(s)[#[trigger] s[i].0] == s[i].1,
        ops_map(s).dom().finite(),
        ops_map(s).dom().len() == s.len(),
    decreases s.len(),
{
    if s.len() > 0 {
        let p = s.drop_last();
        assert(ids_unique(p));
        lemma_ops_map(p);
        assert forall|k: Seq<char>| #[trigger] ops_map(s).contains_key(k) <==> exists|i: int| 0 <= i < s.len() && s[i].0 == k by {
            if ops_map(s).contains_key(k) && k != s.last().0 {
                let i = choose|i: int| 0 <= i < p.len() && p[i].0 == k;
                assert(s[i] == p[i]);
            }
            if exists|i: int| 0 <= i < s.len() && s[i].0 == k {
                let i = choose|i: int| 0 <= i < s.len() && s[i].0 == k;
                if i < p.len() {
                    assert(p[i] == s[i]);
                }
            }
        }
        assert forall|i: int| 0 <= i < s.len() implies ops_map(s)[#[trigger] s[i].0] == s[i].1 by {
            if i < p.len() {
                assert(p[i] == s[i]);
                assert(s[i].0 != s.last().0);
            }
        }
        assert(!ops_map(p).contains_key(s.last().0)) by {
            if ops_map(p).contains_key(s.last().0) {
                let i = choose|i: int| 0 <= i < p.len() && p[i].0 == s.last().0;
                assert(s[i] == p[i]);
            }
        }
    }
}

/// What beginning an operation does: it is registered afresh, not cancelled.
pub open spec fn begin_spec(m: Map<Seq<char>, OpView>, id: Seq<char>, command: Seq<char>, now_ms: u64) -> Map<
    Seq<char>,
    OpView,
> {
    m.insert(id, OpView { command, started_at_ms: now_ms, cancelled: false })
}

/// What cancelling does: a registered operation is marked cancelled.
pub open spec fn cancel_spec(m: Map<Seq<char>, OpView>, id: Seq<char>) -> Map<Seq<char>, OpView> {
    if m.contains_key(id) {
        m.insert(id, OpView { command: m[id].command, started_at_ms: m[id].started_at_ms, cancelled: true })
    } else {
        m
    }
}

/// Cancelling twice is cancelling once.
pub proof fn lemma_cancel_idempotent(m: Map<Seq<char>, OpView>, id: Seq<char>)
    ensures
        cancel_spec(cancel_spec(m, id), id) == cancel_spec(m, id),
{
    assert(cancel_spec(cancel_spec(m, id), id) =~= cancel_spec(m, id));
}

/// Cancelling one operation leaves every other as it was.
pub proof fn lemma_cancel_leaves_others(m: Map<Seq<char>, OpView>, id: Seq<char>, other: Seq<char>)
    requires
        other != id,
    ensures
        cancel_spec(m, id).contains_key(other) == m.contains_key(other),
        m.contains_key(other) ==> cancel_spec(m, id)[other] == m[other],
{
}

/// A finished operation is gone: it is neither listed nor cancellable.
pub proof fn lemma_finished_is_gone(m: Map<Seq<char>, OpView>, id: Seq<char>)
    ensures
        !m.remove(id).contains_key(id),
        cancel_spec(m.remove(id), id) == m.remove(id),
{
}

/// The registry of running operations.
pub struct OperationRegistry {
    entries: Vec<(String, OperationEntry)>,
}

impl OperationRegistry {
    pub closed spec fn wf(&self) -> bool {
        ids_unique(op_entries(self.entries@))
    }

    /// The running operations by id.
    pub closed spec fn ops(&self) -> Map<Seq<char>, OpView> {
        ops_map(op_entries(self.entries@))
    }

    pub proof fn lemma_finite(&self)
        requires
            self.wf(),
        ensures
            self.ops().dom().finite(),
    {
        lemma_ops_map(op_entries(self.entries@));
    }

    pub fn new() -> (r: OperationRegistry)
        ensures
            r.wf(),
            r.ops() == Map::<Seq<char>, OpView>::empty(),
    {
        let r = OperationRegistry { entries: Vec::new() };
        assert(op_entries(r.entries@) =~= Seq::<(Seq<char>, OpView)>::empty());
        r
    }

    /// Where the operation `id` is registered.
    fn position(&self, id: &str) -> (r: Option<usize>)
        requires
            self.wf(),
        ensures
            match r {
                Some(i) => i < self.entries@.len() && self.entries@[i as int].0@ == id@,
                None => !self.ops().contains_key(id@),
            },
    {
        let ghost s = op_entries(self.entries@);
        proof {
            lemma_ops_map(s);
        }
        let mut i: usize = 0;
        while i < self.entries.len()
            invariant
                i <= self.entries@.len(),
                s == op_entries(self.entries@),
                forall|j: int| 0 <= j < i ==> (#[trigger] s[j]).0 != id@,
            decreases self.entries@.len() - i,
        {
            assert(s[i as int].0 == self.entries@[i as int].0@);
            if str_eq(self.entries[i].0.as_str(), id) {
                return Some(i);
            }
            i += 1;
        }
        None
    }

    /// Registers the operation `id` running `command`, started at `now_ms`;
    /// an operation registered under the same id is replaced.
    pub fn begin(&mut self, id: &str, command: &str, now_ms: u64)
        requires
            old(self).wf(),
        ensures
            final(self).wf(),
            final(self).ops() == begin_spec(old(self).ops(), id@, command@, now_ms),
    {
        let ghost s0 = op_entries(self.entries@);
        proof {
            lemma_ops_map(s0);
        }
        let entry = OperationEntry {
            command: string_from_chars(&chars_of(command)),
            started_at_ms: now_ms,
            cancelled: false,
        };
        let key = string_from_chars(&chars_of(id));
        match self.position(id) {
            Some(i) => {
                self.entries.set(i, (key, entry));
                proof {
                    let s1 = op_entries(self.entries@);
                    assert(s1 =~= s0.update(i as int, (id@, OpView { command: command@, started_at_ms: now_ms, cancelled: false })));
                    assert(ids_unique(s1)) by {
                        assert forall|a: int, b: int| 0 <= a < s1.len() && 0 <= b < s1.len() && a != b implies (#[trigger] s1[a]).0 != (#[trigger] s1[b]).0 by {
                            if a != i && b != i {
                                assert(s1[a] == s0[a] && s1[b] == s0[b]);
                            } else if a == i {
                                assert(s1[b] == s0[b]);
                                assert(s0[i as int].0 == id@);
                            } else {
                                assert(s1[a] == s0[a]);
                                assert(s0[i as int].0 == id@);
                            }
                        }
                    }
                    lemma_ops_map(s1);
                    let nv = OpView { command: command@, started_at_ms: now_ms, cancelled: false };
                    assert(s1[i as int] == (id@, nv));
                    assert(self.ops().contains_key(id@));
                    assert(self.ops()[id@] == nv);
                    assert(self.ops() =~= begin_spec(old(self).ops(), id@, command@, now_ms)) by {
                        assert forall|k: Seq<char>| #[trigger] self.ops().contains_key(k) == begin_spec(old(self).ops(), id@, command@, now_ms).contains_key(k) by {
                            if self.ops().contains_key(k) {
                                let j = choose|j: int| 0 <= j < s1.len() && s1[j].0 == k;
                                if j != i {
                                    assert(s1[j] == s0[j]);
                                }
                            }
                            if old(self).ops().contains_key(k) {
                                let j = choose|j: int| 0 <= j < s0.len() && s0[j].0 == k;
                                if j != i {
                                    assert(s1[j] == s0[j]);
                                }
                            }
                        }
                        assert forall|k: Seq<char>| #[trigger] self.ops().contains_key(k) implies self.ops()[k] == begin_spec(old(self).ops(), id@, command@, now_ms)[k] by {
                            let j = choose|j: int| 0 <= j < s1.len() && s1[j].0 == k;
                            if j != i {
                                assert(s1[j] == s0[j]);
                            }
                        }
                    }
                }
            },
            None => {
                self.entries.push((key, entry));
                proof {
                    let s1 = op_entries(self.entries@);
                    assert(s1 =~= s0.push((id@, OpView { command: command@, started_at_ms: now_ms, cancelled: false })));
                    assert(s1.drop_last() =~= s0);
                    assert(ids_unique(s1)) by {
                        assert forall|a: int, b: int| 0 <= a < s1.len() && 0 <= b < s1.len() && a != b implies (#[trigger] s1[a]).0 != (#[trigger] s1[b]).0 by {
                            if a < s0.len() && b < s0.len() {
                                assert(s1[a] == s0[a] && s1[b] == s0[b]);
                            } else if a < s0.len() {
                                assert(s1[a] == s0[a]);
                            } else {
                                assert(s1[b] == s0[b]);
                            }
                        }
                    }
                }
            },
        }
    }

    /// Requests the cancellation of `id`; whether it is registered.
    pub fn cancel(&mut self, id: &str) -> (r: bool)
        requires
            old(self).wf(),
        ensures
            final(self).wf(),
            r == old(self).ops().contains_key(id@),
            final(self).ops() == cancel_spec(old(self).ops(), id@),
    {
        let ghost s0 = op_entries(self.entries@);
        proof {
            lemma_ops_map(s0);
        }
        match self.position(id) {
            Some(i) => {
                let (key, entry) = self.entries.remove(i);
                let updated = OperationEntry { command: entry.command, started_at_ms: entry.started_at_ms, cancelled: true };
                self.entries.insert(i, (key, updated));
                proof {
                    let s1 = op_entries(self.entries@);
                    let v = OpView { command: s0[i as int].1.command, started_at_ms: s0[i as int].1.started_at_ms, cancelled: true };
                    assert(s1 =~= s0.update(i as int, (id@, v)));
                    assert(ids_unique(s1)) by {
                        assert forall|a: int, b: int| 0 <= a < s1.len() && 0 <= b < s1.len() && a != b implies (#[trigger] s1[a]).0 != (#[trigger] s1[b]).0 by {
                            assert(s1[a].0 == s0[a].0 && s1[b].0 == s0[b].0);
                        }
                    }
                    lemma_ops_map(s1);
                    assert(old(self).ops()[id@] == s0[i as int].1);
                    assert(self.ops() =~= cancel_spec(old(self).ops(), id@)) by {
                        assert forall|k: Seq<char>| #[trigger] self.ops().contains_key(k) == cancel_spec(old(self).ops(), id@).contains_key(k) by {
                            if self.ops().contains_key(k) {
                                let j = choose|j: int| 0 <= j < s1.len() && s1[j].0 == k;
                                assert(s1[j].0 == s0[j].0);
                            }
                            if old(self).ops().contains_key(k) {
                                let j = choose|j: int| 0 <= j < s0.len() && s0[j].0 == k;
                                assert(s1[j].0 == s0[j].0);
                            }
                        }
                        assert forall|k: Seq<char>| #[trigger] self.ops().contains_key(k) implies self.ops()[k] == cancel_spec(old(self).ops(), id@)[k] by {
                            let j = choose|j: int| 0 <= j < s1.len() && s1[j].0 == k;
                            if j != i {
                                assert(s1[j] == s0[j]);
                            }
                        }
                    }
                }
                true
            },
            None => {
                assert(cancel_spec(old(self).ops(), id@) == old(self).ops());
                false
            },
        }
    }

    /// Whether the cancellation of `id` was requested; `false` for an id
    /// that is not registered.
    pub fn is_cancelled(&self, id: &str) -> (r: bool)
        requires
            self.wf(),
        ensures
            r == (self.ops().contains_key(id@) && self.ops()[id@].cancelled),
    {
        proof {
            lemma_ops_map(op_entries(self.entries@));
        }
        match self.position(id) {
            Some(i) => {
                assert(op_entries(self.entries@)[i as int].0 == id@);
                self.entries[i].1.cancelled
            },
            None => false,
        }
    }

    /// Whether `id` is registered.
    pub fn contains(&self, id: &str) -> (r: bool)
        requires
            self.wf(),
        ensures
            r == self.ops().contains_key(id@),
    {
        proof {
            lemma_ops_map(op_entries(self.entries@));
        }
        match self.position(id) {
            Some(i) => {
                assert(op_entries(self.entries@)[i as int].0 == id@);
                true
            },
            None => false,
        }
    }

    /// Requests the cancellation of every registered operation.
    pub fn cancel_all(&mut self)
        requires
            old(self).wf(),
        ensures
            final(self).wf(),
            final(self).ops() == cancel_all_spec(old(self).ops()),
    {
        let ghost s0 = op_entries(self.entries@);
        proof {
            lemma_ops_map(s0);
        }
        let mut i: usize = 0;
        while i < self.entries.len()
            invariant
                i <= self.entries@.len(),
                s0.len() == self.entries@.len(),
                forall|j: int| 0 <= j < i ==> (#[trigger] op_entries(self.entries@)[j]) == (s0[j].0, OpView {
                    command: s0[j].1.command,
                    started_at_ms: s0[j].1.started_at_ms,
                    cancelled: true,
                }),
                forall|j: int| i <= j < s0.len() ==> #[trigger] op_entries(self.entries@)[j] == s0[j],
            decreases self.entries@.len() - i,
        {
            let key = self.entries[i].0.clone();
            let command = self.entries[i].1.command.clone();
            let started = self.entries[i].1.started_at_ms;
            let ghost before = self.entries@;
            self.entries.set(i, (key, OperationEntry { command, started_at_ms: started, cancelled: true }));
            proof {
                assert forall|j: int| 0 <= j < s0.len() && j != i implies #[trigger] op_entries(self.entries@)[j] == op_entries(before)[j] by {
                    assert(self.entries@[j] == before[j]);
                }
                assert(op_entries(before)[i as int] == s0[i as int]);
            }
            i += 1;
        }
        proof {
            let s1 = op_entries(self.entries@);
            assert(ids_unique(s1)) by {
                assert forall|a: int, b: int| 0 <= a < s1.len() && 0 <= b < s1.len() && a != b implies (#[trigger] s1[a]).0 != (#[trigger] s1[b]).0 by {
                    assert(s1[a].0 == s0[a].0 && s1[b].0 == s0[b].0);
                }
            }
            lemma_ops_map(s1);
            assert(self.ops() =~= cancel_all_spec(old(self).ops())) by {
                assert forall|k: Seq<char>| #[trigger] self.ops().contains_key(k) == old(self).ops().contains_key(k) by {
                    if self.ops().contains_key(k) {
                        let j = choose|j: int| 0 <= j < s1.len() && s1[j].0 == k;
                        assert(s1[j].0 == s0[j].0);
                    }
                    if old(self).ops().contains_key(k) {
                        let j = choose|j: int| 0 <= j < s0.len() && s0[j].0 == k;
                        assert(s1[j].0 == s0[j].0);
                    }
                }
                assert forall|k: Seq<char>| #[trigger] self.ops().contains_key(k) implies self.ops()[k] == cancel_all_spec(old(self).ops())[k] by {
                    let j = choose|j: int| 0 <= j < s1.len() && s1[j].0 == k;
                    assert(s1[j].0 == s0[j].0);
                }
            }
        }
    }

    /// Removes `id` from the registry and reports how it ended: cancelled
    /// when its cancellation was requested, else failed or completed, with
    /// the time since it began.
    pub fn finish(&mut self, id: &str, failed: bool, now_ms: u64) -> (r: Option<OperationFinishedEvent>)
        requires
            old(self).wf(),
        ensures
            final(self).wf(),
            final(self).ops() == old(self).ops().remove(id@),
            !old(self).ops().contains_key(id@) ==> r is None,
            old(self).ops().contains_key(id@) ==> (r matches Some(ev) && ev.operation_id@ == id@ && ev.command@
                == old(self).ops()[id@].command && ev.outcome == outcome_of(
                old(self).ops()[id@].cancelled,
                failed,
            ) && ev.elapsed_ms == elapsed_ms(now_ms, old(self).ops()[id@].started_at_ms)),
    {
        let ghost s0 = op_entries(self.entries@);
        proof {
            lemma_ops_map(s0);
        }
        match self.position(id) {
            Some(i) => {
                let (key, entry) = self.entries.remove(i);
                proof {
                    let s1 = op_entries(self.entries@);
                    assert(s1 =~= s0.remove(i as int));
                    assert(ids_unique(s1)) by {
                        assert forall|a: int, b: int| 0 <= a < s1.len() && 0 <= b < s1.len() && a != b implies (#[trigger] s1[a]).0 != (#[trigger] s1[b]).0 by {
                            let a0 = if a < i { a } else { a + 1 };
                            let b0 = if b < i { b } else { b + 1 };
                            assert(s1[a] == s0[a0] && s1[b] == s0[b0]);
                        }
                    }
                    lemma_ops_map(s1);
                    assert(s0[i as int].0 == id@);
                    assert(self.ops() =~= old(self).ops().remove(id@)) by {
                        assert forall|k: Seq<char>| #[trigger] self.ops().contains_key(k) == old(self).ops().remove(id@).contains_key(k) by {
                            if self.ops().contains_key(k) {
                                let j = choose|j: int| 0 <= j < s1.len() && s1[j].0 == k;
                                let j0 = if j < i { j } else { j + 1 };
                                assert(s1[j] == s0[j0]);
                            }
                            if old(self).ops().contains_key(k) && k != id@ {
                                let j = choose|j: int| 0 <= j < s0.len() && s0[j].0 == k;
                                if j < i {
                                    assert(s1[j] == s0[j]);
                                } else {
                                    assert(s1[j - 1] == s0[j]);
                                }
                            }
                        }
                        assert forall|k: Seq<char>| #[trigger] self.ops().contains_key(k) implies self.ops()[k] == old(self).ops()[k] by {
                            let j = choose|j: int| 0 <= j < s1.len() && s1[j].0 == k;
                            let j0 = if j < i { j } else { j + 1 };
                            assert(s1[j] == s0[j0]);
                        }
                    }
                    assert(old(self).ops()[id@] == op_view(entry));
                }
                let outcome = if entry.cancelled {
                    OperationOutcome::Cancelled
                } else if failed {
                    OperationOutcome::Failed
                } else {
                    OperationOutcome::Completed
                };
                let elapsed = if now_ms >= entry.started_at_ms {
                    now_ms - entry.started_at_ms
                } else {
                    0
                };
                Some(OperationFinishedEvent { operation_id: key, command: entry.command, outcome, elapsed_ms: elapsed })
            },
            None => {
                assert(old(self).ops().remove(id@) =~= old(self).ops());
                None
            },
        }
    }

    /// A summary of each registered operation, with the time since it began.
    pub fn list_active(&self, now_ms: u64) -> (r: Vec<ActiveOperation>)
        requires
            self.wf(),
        ensures
            r@.len() == self.ops().dom().len(),
            forall|k: int| 0 <= k < r@.len() ==> self.ops().contains_key((#[trigger] r@[k]).operation_id@) && r@[k].command@
                == self.ops()[r@[k].operation_id@].command && r@[k].elapsed_ms == elapsed_ms(
                now_ms,
                self.ops()[r@[k].operation_id@].started_at_ms,
            ),
            forall|id: Seq<char>| #[trigger] self.ops().contains_key(id) ==> exists|k: int| 0 <= k < r@.len() && r@[k].operation_id@ == id,
            forall|a: int, b: int| 0 <= a < r@.len() && 0 <= b < r@.len() && a != b ==> (#[trigger] r@[a]).operation_id@ != (#[trigger] r@[b]).operation_id@,
    {
        let ghost s = op_entries(self.entries@);
        proof {
            lemma_ops_map(s);
        }
        let mut out: Vec<ActiveOperation> = Vec::new();
        let mut i: usize = 0;
        while i < self.entries.len()
            invariant
                i <= self.entries@.len(),
                s == op_entries(self.entries@),
                ids_unique(s),
                out@.len() == i,
                forall|k: int| 0 <= k < i ==> (#[trigger] out@[k]).operation_id@ == s[k].0 && out@[k].command@ == s[k].1.command
                    && out@[k].elapsed_ms == elapsed_ms(now_ms, s[k].1.started_at_ms),
            decreases self.entries@.len() - i,
        {
            let started = self.entries[i].1.started_at_ms;
            let elapsed = if now_ms >= started {
                now_ms - started
            } else {
                0
            };
            out.push(ActiveOperation {
                operation_id: self.entries[i].0.clone(),
                command: self.entries[i].1.command.clone(),
                elapsed_ms: elapsed,
            });
            i += 1;
        }
        proof {
            assert forall|k: int| 0 <= k < out@.len() implies self.ops().contains_key((#[trigger] out@[k]).operation_id@) && out@[k].command@
                == self.ops()[out@[k].operation_id@].command && out@[k].elapsed_ms == elapsed_ms(
                now_ms,
                self.ops()[out@[k].operation_id@].started_at_ms,
            ) by {
                assert(self.ops()[s[k].0] == s[k].1);
            }
            assert forall|id: Seq<char>| #[trigger] self.ops().contains_key(id) implies exists|k: int| 0 <= k < out@.len() && out@[k].operation_id@ == id by {
                let j = choose|j: int| 0 <= j < s.len() && s[j].0 == id;
                assert(out@[j].operation_id@ == id);
            }
        }
        out
    }
}

/// What cancelling everything does: every registered operation is marked
/// cancelled.
pub open spec fn cancel_all_spec(m: Map<Seq<char>, OpView>) -> Map<Seq<char>, OpView> {
    Map::new(
        |k: Seq<char>| m.contains_key(k),
        |k: Seq<char>| OpView { command: m[k].command, started_at_ms: m[k].started_at_ms, cancelled: true },
    )
}

/// How a finished operation ended: cancelled when that was requested, else
/// failed or completed.
pub open spec fn outcome_of(cancelled: bool, failed: bool) -> OperationOutcome {
    if cancelled {
        OperationOutcome::Cancelled
    } else if failed {
        OperationOutcome::Failed
    } else {
        OperationOutcome::Completed
    }
}

/// The milliseconds from `started` to `now`, 0 if the clock went back.
pub open spec fn elapsed_ms(now: u64, started: u64) -> u64 {
    if now >= started {
        (now - started) as u64
    } else {
        0
    }
}

} // verus!
