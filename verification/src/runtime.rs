//! Scheduling decisions of the cooperative inference runtime: task
//! identities and the queue of tasks ready to be polled.
use vstd::prelude::*;

verus! {

/// Identifier for a runtime task.
#[derive(Copy, Clone, Debug, PartialEq, Eq, Structural, Hash)]
pub struct TaskId(u32);

impl TaskId {
    /// The identity of the task with the given number.
    pub fn new(index: u32) -> (id: TaskId)
        ensures
            id.spec_index() == index,
    {
        TaskId(index)
    }

    pub closed spec fn spec_index(self) -> u32 {
        self.0
    }

    /// The number an identity carries.
    pub fn index(&self) -> (index: u32)
        ensures
            index == self.spec_index(),
    {
        self.0
    }
}

/// Hands out task identities in increasing order.
pub struct TaskCounter {
    next_id: u32,
}

impl TaskCounter {
    /// The number the next task gets.
    pub closed spec fn upcoming(&self) -> u32 {
        self.next_id
    }

    pub fn new() -> (counter: Self)
        ensures
            counter.upcoming() == 0,
    {
        TaskCounter { next_id: 0 }
    }

    /// Another identity can be handed out.
    pub fn can_alloc(&self) -> (room: bool)
        ensures
            room == (self.upcoming() < u32::MAX),
    {
        self.next_id < u32::MAX
    }

    /// Hand out the next identity.
    pub fn next_id(&mut self) -> (id: TaskId)
        requires
            old(self).upcoming() < u32::MAX,
        ensures
            id.spec_index() == old(self).upcoming(),
            final(self).upcoming() == old(self).upcoming() + 1,
    {
        let id = TaskId(self.next_id);
        self.next_id = self.next_id + 1;
        id
    }
}

/// A first-in first-out queue in which a task waits at most once.
pub struct ReadyQueue {
    queue: Vec<TaskId>,
}

impl View for ReadyQueue {
    type V = Seq<TaskId>;

    closed spec fn view(&self) -> Seq<TaskId> {
        self.queue@
    }
}

/// The queue `queue` after `value` is enqueued.
pub open spec fn enqueued(queue: Seq<TaskId>, value: TaskId) -> Seq<TaskId> {
    if queue.contains(value) {
        queue
    } else {
        queue.push(value)
    }
}

/// Enqueueing a task twice is enqueueing it once.
pub proof fn law_enqueue_is_idempotent(queue: Seq<TaskId>, value: TaskId)
    ensures
        enqueued(enqueued(queue, value), value) == enqueued(queue, value),
{
    if !queue.contains(value) {
        assert(queue.push(value)[queue.len() as int] == value);
    }
}

/// Enqueueing keeps a queue free of duplicates.
pub proof fn law_enqueue_keeps_tasks_unique(queue: Seq<TaskId>, value: TaskId)
    requires
        queue.no_duplicates(),
    ensures
        enqueued(queue, value).no_duplicates(),
{
    if !queue.contains(value) {
        let q = queue.push(value);
        assert forall|a: int, b: int| 0 <= a < q.len() && 0 <= b < q.len() && a != b implies q[a] != q[b] by {
            if a == queue.len() {
                assert(queue[b] != value);
            } else if b == queue.len() {
                assert(queue[a] != value);
            }
        }
    }
}

/// The predicate "differs from `x`".
pub open spec fn not_task(x: TaskId) -> spec_fn(TaskId) -> bool {
    |t: TaskId| t != x
}

impl ReadyQueue {
    /// No task is queued twice.
    pub closed spec fn wf(&self) -> bool {
        self.queue@.no_duplicates()
    }

    pub fn new() -> (queue: Self)
        ensures
            queue.wf(),
            queue@ == Seq::<TaskId>::empty(),
    {
        ReadyQueue { queue: Vec::new() }
    }

    /// Queue `value` at the back unless it is already queued.
    pub fn enqueue(&mut self, value: TaskId)
        requires
            old(self).wf(),
        ensures
            final(self).wf(),
            final(self)@ == enqueued(old(self)@, value),
    {
        let mut i: usize = 0;
        while i < self.queue.len()
            invariant
                i <= self.queue@.len(),
                self.queue@ == old(self).queue@,
                old(self).wf(),
                forall|j: int| 0 <= j < i ==> self.queue@[j] != value,
            decreases self.queue@.len() - i,
        {
            if self.queue[i] == value {
                proof {
                    assert(self.queue@[i as int] == value);
                }
                return;
            }
            i += 1;
        }
        let ghost before = self.queue@;
        self.queue.push(value);
        proof {
            assert forall|a: int, b: int|
                0 <= a < self.queue@.len() && 0 <= b < self.queue@.len() && a != b implies self.queue@[a]
                != self.queue@[b] by {
                if a == before.len() {
                    assert(before[b] != value);
                } else if b == before.len() {
                    assert(before[a] != value);
                }
            }
        }
    }

    /// Take the task at the front, if any.
    pub fn pop(&mut self) -> (value: Option<TaskId>)
        requires
            old(self).wf(),
        ensures
            final(self).wf(),
            old(self)@.len() == 0 ==> value is None && final(self)@ == old(self)@,
            old(self)@.len() > 0 ==> value == Some(old(self)@[0]) && final(self)@ == old(
                self,
            )@.drop_first(),
    {
        if self.queue.len() == 0 {
            return None;
        }
        let ghost before = self.queue@;
        let value = self.queue.remove(0);
        proof {
            assert(self.queue@ =~= before.drop_first());
            assert forall|a: int, b: int|
                0 <= a < self.queue@.len() && 0 <= b < self.queue@.len() && a != b implies self.queue@[a]
                != self.queue@[b] by {
                assert(self.queue@[a] == before[a + 1] && self.queue@[b] == before[b + 1]);
            }
        }
        Some(value)
    }

    /// Drop `value` from the queue if it is queued.
    pub fn remove(&mut self, value: TaskId)
        requires
            old(self).wf(),
        ensures
            final(self).wf(),
            final(self)@ == old(self)@.filter(not_task(value)),
    {
        let ghost before = self.queue@;
        let mut kept: Vec<TaskId> = Vec::new();
        let mut i: usize = 0;
        while i < self.queue.len()
            invariant
                i <= before.len(),
                self.queue@ == before,
                before.no_duplicates(),
                kept@ == before.take(i as int).filter(not_task(value)),
                kept@.no_duplicates(),
                forall|t: TaskId| #[trigger] kept@.contains(t) ==> before.take(i as int).contains(t),
            decreases before.len() - i,
        {
            let t = self.queue[i];
            let ghost prev0 = kept@;
            proof {
                assert(before.take(i + 1).drop_last() =~= before.take(i as int));
                assert(before.take(i + 1).last() == t);
                reveal_with_fuel(Seq::filter, 1);
                assert(!before.take(i as int).contains(t)) by {
                    if before.take(i as int).contains(t) {
                        let j = before.take(i as int).index_of(t);
                        assert(before[j] == before[i as int]);
                    }
                }
            }
            if t != value {
                let ghost prev = kept@;
                kept.push(t);
                proof {
                    assert forall|a: int, b: int|
                        0 <= a < kept@.len() && 0 <= b < kept@.len() && a != b implies kept@[a] != kept@[b] by {
                        if a == prev.len() {
                            assert(prev.contains(prev[b]));
                        } else if b == prev.len() {
                            assert(prev.contains(prev[a]));
                        }
                    }
                }
            }
            proof {
                assert forall|u: TaskId| #[trigger] kept@.contains(u) implies before.take(i + 1).contains(u) by {
                    let j = kept@.index_of(u);
                    if u == t {
                        assert(before.take(i + 1)[i as int] == t);
                    } else {
                        if kept@.len() > prev0.len() {
                            assert(kept@ == prev0.push(t));
                            assert(j < prev0.len());
                            assert(prev0[j] == u);
                        }
                        assert(prev0.contains(u));
                        assert(before.take(i as int).contains(u));
                        let q = before.take(i as int).index_of(u);
                        assert(before.take(i + 1)[q] == u);
                    }
                }
            }
            i += 1;
        }
        proof {
            assert(before.take(before.len() as int) =~= before);
        }
        self.queue = kept;
    }

    pub fn is_empty(&self) -> (empty: bool)
        ensures
            empty == (self@.len() == 0),
    {
        self.queue.len() == 0
    }
}

} // verus!
