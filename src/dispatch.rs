//! Admission decisions of a bounded-concurrency dispatcher.
//!
//! The dispatcher owns one slot per URL. The driver asks it what to do next:
//! issue the next queued URL, wait for some in-flight request to finish, or
//! stop because every URL has been answered. It reports each finished
//! request back, whatever its outcome was.
use vstd::prelude::*;

verus! {

/// Where one URL stands in the batch.
#[derive(Clone, Copy, Debug, PartialEq, Eq, Structural)]
pub enum TaskState {
    Queued,
    InFlight,
    Done,
}

/// What the driver is told to do next.
#[derive(Clone, Copy, Debug, PartialEq, Eq, Structural)]
pub enum Action {
    /// Issue the request for the URL at this index.
    Issue(usize),
    /// Wait for one in-flight request to finish.
    Wait,
    /// Every URL has an outcome: stop.
    Finished,
}

/// A completion that does not match a request in flight.
#[derive(Clone, Copy, Debug, PartialEq, Eq, Structural)]
pub enum DispatchError {
    NotInFlight,
}

/// How many tasks of `s` are in state `st`.
pub open spec fn count_state(s: Seq<TaskState>, st: TaskState) -> nat
    decreases s.len(),
{
    if s.len() == 0 {
        0
    } else {
        count_state(s.drop_last(), st) + if s.last() == st {
            1nat
        } else {
            0nat
        }
    }
}

/// The URLs before `next` have been issued; those from `next` on are queued.
pub open spec fn issued_prefix(tasks: Seq<TaskState>, next: nat) -> bool {
    &&& next <= tasks.len()
    &&& forall|i: int| 0 <= i < tasks.len() ==> (i < next <==> tasks[i] != TaskState::Queued)
}

/// A consistent batch: its URLs can be indexed by `usize`, they are issued in
/// order, and no more than `limit` requests are in flight.
pub open spec fn batch_wf(tasks: Seq<TaskState>, next: nat, limit: nat) -> bool {
    &&& limit >= 1
    &&& tasks.len() <= usize::MAX
    &&& issued_prefix(tasks, next)
    &&& count_state(tasks, TaskState::InFlight) <= limit
}

/// The decision: issue the next URL while a slot is free, else wait while a
/// request is in flight, else stop.
pub open spec fn decide(tasks: Seq<TaskState>, next: nat, limit: nat) -> Action {
    if next < tasks.len() && count_state(tasks, TaskState::InFlight) < limit {
        Action::Issue(next as usize)
    } else if count_state(tasks, TaskState::InFlight) > 0 {
        Action::Wait
    } else {
        Action::Finished
    }
}

/// The tasks after acting on `decide`.
pub open spec fn after_decide(tasks: Seq<TaskState>, next: nat, limit: nat) -> Seq<TaskState> {
    match decide(tasks, next, limit) {
        Action::Issue(i) => tasks.update(i as int, TaskState::InFlight),
        _ => tasks,
    }
}

/// The next index after acting on `decide`.
pub open spec fn next_after_decide(tasks: Seq<TaskState>, next: nat, limit: nat) -> nat {
    match decide(tasks, next, limit) {
        Action::Issue(_) => next + 1,
        _ => next,
    }
}

/// A completion is accepted exactly for a task in flight.
pub open spec fn accepts(tasks: Seq<TaskState>, index: int) -> bool {
    0 <= index < tasks.len() && tasks[index] == TaskState::InFlight
}

proof fn lemma_count_update(s: Seq<TaskState>, i: int, v: TaskState, st: TaskState)
    requires
        0 <= i < s.len(),
    ensures
        count_state(s.update(i, v), st) + (if s[i] == st {
            1int
        } else {
            0int
        }) == count_state(s, st) + (if v == st {
            1int
        } else {
            0int
        }),
    decreases s.len(),
{
    let u = s.update(i, v);
    if i == s.len() - 1 {
        assert(u.drop_last() =~= s.drop_last());
    } else {
        assert(u.drop_last() =~= s.drop_last().update(i, v));
        lemma_count_update(s.drop_last(), i, v, st);
    }
}

proof fn lemma_count_none(s: Seq<TaskState>, st: TaskState)
    requires
        forall|i: int| 0 <= i < s.len() ==> s[i] != st,
    ensures
        count_state(s, st) == 0,
    decreases s.len(),
{
    if s.len() > 0 {
        lemma_count_none(s.drop_last(), st);
    }
}

proof fn lemma_count_zero(s: Seq<TaskState>, st: TaskState)
    requires
        count_state(s, st) == 0,
    ensures
        forall|i: int| 0 <= i < s.len() ==> s[i] != st,
    decreases s.len(),
{
    if s.len() > 0 {
        lemma_count_zero(s.drop_last(), st);
        assert forall|i: int| 0 <= i < s.len() implies s[i] != st by {
            if i < s.len() - 1 {
                assert(s[i] == s.drop_last()[i]);
            }
        }
    }
}

proof fn lemma_count_bound(s: Seq<TaskState>, st: TaskState)
    ensures
        count_state(s, st) <= s.len(),
    decreases s.len(),
{
    if s.len() > 0 {
        lemma_count_bound(s.drop_last(), st);
    }
}

proof fn lemma_count_all(s: Seq<TaskState>, st: TaskState)
    requires
        forall|i: int| 0 <= i < s.len() ==> s[i] == st,
    ensures
        count_state(s, st) == s.len(),
    decreases s.len(),
{
    if s.len() > 0 {
        lemma_count_all(s.drop_last(), st);
    }
}

/// An empty batch is finished at once, and no URL has an outcome.
pub proof fn lemma_empty_batch_finishes(limit: nat)
    requires
        limit >= 1,
    ensures
        decide(Seq::<TaskState>::empty(), 0, limit) == Action::Finished,
        count_state(Seq::<TaskState>::empty(), TaskState::Done) == 0,
{
}

/// In a consistent batch no more requests are in flight than the limit
/// allows, nor more than there are URLs; with a limit of one, requests run
/// one at a time.
pub proof fn lemma_window_bound(tasks: Seq<TaskState>, next: nat, limit: nat)
    requires
        batch_wf(tasks, next, limit),
    ensures
        count_state(tasks, TaskState::InFlight) <= limit,
        count_state(tasks, TaskState::InFlight) <= tasks.len(),
        limit == 1 ==> count_state(tasks, TaskState::InFlight) <= 1,
{
    lemma_count_bound(tasks, TaskState::InFlight);
}

/// What is left to do: each queued URL must be issued and then finish, each
/// request in flight must finish.
pub open spec fn pending_work(tasks: Seq<TaskState>) -> nat {
    2 * count_state(tasks, TaskState::Queued) + count_state(tasks, TaskState::InFlight)
}

/// Acting on a decision keeps the batch consistent; a URL is issued only
/// while it is queued, and only while a slot is free, and issuing it leaves
/// less work pending.
pub proof fn lemma_decide_keeps_batch(tasks: Seq<TaskState>, next: nat, limit: nat)
    requires
        batch_wf(tasks, next, limit),
    ensures
        batch_wf(after_decide(tasks, next, limit), next_after_decide(tasks, next, limit), limit),
        decide(tasks, next, limit) matches Action::Issue(i) ==> {
            &&& i == next
            &&& tasks[i as int] == TaskState::Queued
            &&& count_state(tasks, TaskState::InFlight) < limit
        },
        decide(tasks, next, limit) == Action::Wait ==> count_state(tasks, TaskState::InFlight) > 0,
        decide(tasks, next, limit) is Issue ==> pending_work(after_decide(tasks, next, limit))
            < pending_work(tasks),
{
    if let Action::Issue(i) = decide(tasks, next, limit) {
        lemma_count_update(tasks, i as int, TaskState::InFlight, TaskState::InFlight);
        lemma_count_update(tasks, i as int, TaskState::InFlight, TaskState::Queued);
        let u = tasks.update(i as int, TaskState::InFlight);
        assert forall|j: int| 0 <= j < u.len() implies (j < next + 1 <==> u[j]
            != TaskState::Queued) by {
            if j != i {
                assert(u[j] == tasks[j]);
            }
        }
    }
}

/// Accepting a completion keeps the batch consistent, moves exactly one
/// request from in flight to done, and leaves less work pending; the same
/// completion is not accepted again.
pub proof fn lemma_complete_keeps_batch(tasks: Seq<TaskState>, next: nat, limit: nat, index: int)
    requires
        batch_wf(tasks, next, limit),
        accepts(tasks, index),
    ensures
        batch_wf(tasks.update(index, TaskState::Done), next, limit),
        count_state(tasks.update(index, TaskState::Done), TaskState::InFlight) + 1 == count_state(
            tasks,
            TaskState::InFlight,
        ),
        count_state(tasks.update(index, TaskState::Done), TaskState::Done) == count_state(
            tasks,
            TaskState::Done,
        ) + 1,
        !accepts(tasks.update(index, TaskState::Done), index),
        pending_work(tasks.update(index, TaskState::Done)) < pending_work(tasks),
{
    lemma_count_update(tasks, index, TaskState::Done, TaskState::Queued);
    lemma_count_update(tasks, index, TaskState::Done, TaskState::InFlight);
    lemma_count_update(tasks, index, TaskState::Done, TaskState::Done);
    let u = tasks.update(index, TaskState::Done);
    assert forall|j: int| 0 <= j < u.len() implies (j < next <==> u[j] != TaskState::Queued) by {
        if j != index {
            assert(u[j] == tasks[j]);
        }
    }
}

/// When the dispatcher says it is finished, every URL has exactly one
/// outcome: all tasks are done.
pub proof fn lemma_finished_all_done(tasks: Seq<TaskState>, next: nat, limit: nat)
    requires
        batch_wf(tasks, next, limit),
        decide(tasks, next, limit) == Action::Finished,
    ensures
        forall|i: int| 0 <= i < tasks.len() ==> tasks[i] == TaskState::Done,
        count_state(tasks, TaskState::Done) == tasks.len(),
{
    lemma_count_zero(tasks, TaskState::InFlight);
    lemma_count_all(tasks, TaskState::Done);
}

/// A finished request, whatever its outcome, frees its slot: while URLs are
/// still queued, the next one is issued right after.
pub proof fn lemma_completion_frees_slot(
    tasks: Seq<TaskState>,
    next: nat,
    limit: nat,
    index: int,
)
    requires
        batch_wf(tasks, next, limit),
        accepts(tasks, index),
        next < tasks.len(),
    ensures
        decide(tasks.update(index, TaskState::Done), next, limit) == Action::Issue(next as usize),
{
    lemma_complete_keeps_batch(tasks, next, limit, index);
}

/// A well-formed dispatcher is a consistent batch: the window bound and the
/// other laws above apply to it.
pub proof fn lemma_wf_batch(d: &Dispatcher)
    requires
        d.wf(),
    ensures
        batch_wf(d.tasks(), d.next_index(), d.limit()),
{
}

/// The admission state of one batch of URLs.
pub struct Dispatcher {
    tasks: Vec<TaskState>,
    next: usize,
    in_flight: usize,
    done: usize,
    limit: usize,
}

impl Dispatcher {
    /// The state of each URL, by index.
    pub closed spec fn tasks(&self) -> Seq<TaskState> {
        self.tasks@
    }

    /// The index of the next URL to issue.
    pub closed spec fn next_index(&self) -> nat {
        self.next as nat
    }

    /// The most requests allowed in flight at once.
    pub closed spec fn limit(&self) -> nat {
        self.limit as nat
    }

    pub closed spec fn wf(&self) -> bool {
        &&& batch_wf(self.tasks@, self.next as nat, self.limit as nat)
        &&& self.in_flight == count_state(self.tasks@, TaskState::InFlight)
        &&& self.done == count_state(self.tasks@, TaskState::Done)
    }

    /// A batch of `total` queued URLs with at most `limit` requests in flight.
    pub fn new(total: usize, limit: usize) -> (r: Self)
        requires
            limit >= 1,
        ensures
            r.wf(),
            batch_wf(r.tasks(), r.next_index(), r.limit()),
            r.tasks() == Seq::new(total as nat, |_i: int| TaskState::Queued),
            r.next_index() == 0,
            r.limit() == limit,
            count_state(r.tasks(), TaskState::InFlight) == 0,
            count_state(r.tasks(), TaskState::Done) == 0,
    {
        let mut tasks: Vec<TaskState> = Vec::new();
        let mut i: usize = 0;
        while i < total
            invariant
                i <= total,
                tasks@.len() == i,
                forall|j: int| 0 <= j < i ==> tasks@[j] == TaskState::Queued,
            decreases total - i,
        {
            tasks.push(TaskState::Queued);
            i = i + 1;
        }
        proof {
            lemma_count_none(tasks@, TaskState::InFlight);
            lemma_count_none(tasks@, TaskState::Done);
            assert(tasks@ =~= Seq::new(total as nat, |_i: int| TaskState::Queued));
        }
        Dispatcher { tasks, next: 0, in_flight: 0, done: 0, limit }
    }

    /// Decides what the driver does next, and records an issued URL as in
    /// flight.
    pub fn next_action(&mut self) -> (a: Action)
        requires
            old(self).wf(),
        ensures
            final(self).wf(),
            batch_wf(final(self).tasks(), final(self).next_index(), final(self).limit()),
            a == decide(old(self).tasks(), old(self).next_index(), old(self).limit()),
            final(self).tasks() == after_decide(
                old(self).tasks(),
                old(self).next_index(),
                old(self).limit(),
            ),
            final(self).next_index() == next_after_decide(
                old(self).tasks(),
                old(self).next_index(),
                old(self).limit(),
            ),
            final(self).limit() == old(self).limit(),
            count_state(final(self).tasks(), TaskState::InFlight) == count_state(
                old(self).tasks(),
                TaskState::InFlight,
            ) + if a is Issue {
                1int
            } else {
                0int
            },
            count_state(final(self).tasks(), TaskState::Done) == count_state(
                old(self).tasks(),
                TaskState::Done,
            ),
    {
        proof {
            lemma_decide_keeps_batch(self.tasks@, self.next as nat, self.limit as nat);
        }
        if self.next < self.tasks.len() && self.in_flight < self.limit {
            let i = self.next;
            proof {
                lemma_count_update(self.tasks@, i as int, TaskState::InFlight, TaskState::InFlight);
                lemma_count_update(self.tasks@, i as int, TaskState::InFlight, TaskState::Done);
            }
            self.tasks.set(i, TaskState::InFlight);
            self.next = i + 1;
            self.in_flight = self.in_flight + 1;
            Action::Issue(i)
        } else if self.in_flight > 0 {
            Action::Wait
        } else {
            Action::Finished
        }
    }

    /// Records that the request for URL `index` finished, whatever its
    /// outcome. Only a request in flight can finish, and only once.
    pub fn complete(&mut self, index: usize) -> (r: Result<(), DispatchError>)
        requires
            old(self).wf(),
        ensures
            final(self).wf(),
            batch_wf(final(self).tasks(), final(self).next_index(), final(self).limit()),
            final(self).next_index() == old(self).next_index(),
            final(self).limit() == old(self).limit(),
            r is Ok <==> accepts(old(self).tasks(), index as int),
            r is Ok ==> final(self).tasks() == old(self).tasks().update(
                index as int,
                TaskState::Done,
            ),
            r is Err ==> final(self).tasks() == old(self).tasks() && r == Err::<(), DispatchError>(
                DispatchError::NotInFlight,
            ),
            r is Ok ==> count_state(final(self).tasks(), TaskState::InFlight) + 1 == count_state(
                old(self).tasks(),
                TaskState::InFlight,
            ),
            r is Ok ==> count_state(final(self).tasks(), TaskState::Done) == count_state(
                old(self).tasks(),
                TaskState::Done,
            ) + 1,
    {
        if index < self.tasks.len() && self.tasks[index] == TaskState::InFlight {
            proof {
                lemma_complete_keeps_batch(self.tasks@, self.next as nat, self.limit as nat, index as int);
                lemma_count_bound(self.tasks@.update(index as int, TaskState::Done), TaskState::Done);
            }
            self.tasks.set(index, TaskState::Done);
            self.in_flight = self.in_flight - 1;
            self.done = self.done + 1;
            Ok(())
        } else {
            Err(DispatchError::NotInFlight)
        }
    }

    /// How many URLs the batch holds.
    pub fn total(&self) -> (r: usize)
        ensures
            r == self.tasks().len(),
    {
        self.tasks.len()
    }

    /// How many requests are in flight.
    pub fn in_flight(&self) -> (r: usize)
        requires
            self.wf(),
        ensures
            r == count_state(self.tasks(), TaskState::InFlight),
    {
        self.in_flight
    }

    /// How many URLs have their outcome.
    pub fn completed(&self) -> (r: usize)
        requires
            self.wf(),
        ensures
            r == count_state(self.tasks(), TaskState::Done),
    {
        self.done
    }
}

} // verus!
