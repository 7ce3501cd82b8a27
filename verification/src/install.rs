//! The bounded-concurrency install pool. The pool never runs more than
//! its limit of tasks at once, admits tasks strictly in declaration
//! order, and is done exactly when every task has finished. The outside
//! work - spawning a fetch and polling it - belongs to the caller, who
//! reports each task's completion back.

pub mod git;

use vstd::prelude::*;

verus! {

/// What a running install task reports when polled.
pub struct Progress {
    pub title: String,
    pub log: Option<String>,
    pub is_finished: bool,
}

/// Where one install task stands.
pub enum TaskState {
    NotStarted,
    Running,
    Finished,
}

/// How many tasks of `s` are running.
pub open spec fn count_running(s: Seq<TaskState>) -> int
    decreases s.len(),
{
    if s.len() == 0 {
        0
    } else {
        count_running(s.drop_last()) + (if s.last() is Running {
            1int
        } else {
            0int
        })
    }
}

proof fn lemma_count_running_update(s: Seq<TaskState>, i: int, t: TaskState)
    requires
        0 <= i < s.len(),
    ensures
        count_running(s.update(i, t)) == count_running(s) - (if s[i] is Running {
            1int
        } else {
            0int
        }) + (if t is Running {
            1int
        } else {
            0int
        }),
    decreases s.len(),
{
    let u = s.update(i, t);
    if i == s.len() - 1 {
        assert(u.drop_last() =~= s.drop_last());
        assert(u.last() == t);
        assert(s.last() == s[i]);
    } else {
        assert(u.drop_last() =~= s.drop_last().update(i, t));
        assert(u.last() == s.last());
        lemma_count_running_update(s.drop_last(), i, t);
        assert(s.drop_last()[i] == s[i]);
    }
}

proof fn lemma_count_running_bounds(s: Seq<TaskState>)
    ensures
        0 <= count_running(s) <= s.len(),
    decreases s.len(),
{
    if s.len() != 0 {
        lemma_count_running_bounds(s.drop_last());
    }
}

/// The install pool over `n` declared tasks with concurrency limit `c`.
pub struct InstallScheduler {
    states: Vec<TaskState>,
    /// Index of the first task never admitted; admission is FIFO.
    next: usize,
    /// Number of tasks currently running.
    active: usize,
    /// Concurrency limit.
    limit: usize,
}

impl InstallScheduler {
    pub closed spec fn states_view(&self) -> Seq<TaskState> {
        self.states@
    }

    pub closed spec fn next_idx(&self) -> int {
        self.next as int
    }

    pub closed spec fn active_count(&self) -> int {
        self.active as int
    }

    pub closed spec fn limit_of(&self) -> int {
        self.limit as int
    }

    /// Tasks are admitted in order, the running count is genuine, and it
    /// never exceeds the limit.
    pub closed spec fn wf(&self) -> bool {
        &&& self.next <= self.states@.len()
        &&& 1 <= self.limit
        &&& self.active == count_running(self.states@)
        &&& self.active <= self.limit
        &&& forall|i: int|
            self.next <= i < self.states@.len() ==> (#[trigger] self.states@[i])
                is NotStarted
        &&& forall|i: int| 0 <= i < self.next ==> !((#[trigger] self.states@[i]) is NotStarted)
    }

    /// Whether every task has run to completion and none is left.
    pub closed spec fn spec_done(&self) -> bool {
        self.next == self.states@.len() && self.active == 0
    }

    /// A pool of `n` tasks, none started, with concurrency limit
    /// `limit`.
    pub fn new(n: usize, limit: usize) -> (r: InstallScheduler)
        requires
            limit >= 1,
        ensures
            r.wf(),
            r.states_view().len() == n,
            forall|i: int| 0 <= i < n ==> (#[trigger] r.states_view()[i]) is NotStarted,
            r.next_idx() == 0,
            r.active_count() == 0,
            r.limit_of() == limit,
    {
        let mut states: Vec<TaskState> = Vec::new();
        let mut i: usize = 0;
        while i < n
            invariant
                0 <= i <= n,
                states@.len() == i,
                forall|j: int| 0 <= j < i ==> (#[trigger] states@[j]) is NotStarted,
                count_running(states@) == 0,
            decreases n - i,
        {
            let ghost pre = states@;
            states.push(TaskState::NotStarted);
            proof {
                assert(states@.drop_last() =~= pre);
            }
            i = i + 1;
        }
        InstallScheduler { states, next: 0, active: 0, limit }
    }

    /// Admits the next queued task when a slot is free: the earliest
    /// never-admitted task starts running. With the pool full, or the
    /// queue empty, nothing changes.
    pub fn start_next(&mut self) -> (r: Option<usize>)
        requires
            old(self).wf(),
        ensures
            final(self).wf(),
            old(self).active_count() < old(self).limit_of() && old(self).next_idx() < old(
                self,
            ).states_view().len() ==> {
                &&& r is Some
                &&& (r matches Some(x) ==> x as int == old(self).next_idx())
                &&& final(self).states_view() == old(self).states_view().update(
                    old(self).next_idx(),
                    TaskState::Running,
                )
                &&& final(self).next_idx() == old(self).next_idx() + 1
                &&& final(self).active_count() == old(self).active_count() + 1
                &&& final(self).limit_of() == old(self).limit_of()
            },
            !(old(self).active_count() < old(self).limit_of() && old(self).next_idx() < old(
                self,
            ).states_view().len()) ==> r is None && *final(self) == *old(self),
    {
        if self.active < self.limit && self.next < self.states.len() {
            let ghost pre = self.states@;
            let i = self.next;
            self.states[i] = TaskState::Running;
            proof {
                lemma_count_running_update(pre, i as int, TaskState::Running);
            }
            self.next = self.next + 1;
            self.active = self.active + 1;
            Some(i)
        } else {
            None
        }
    }

    /// Records that an admitted task's fetch operation has completed -
    /// successfully or not; a failed fetch is finished, never retried.
    pub fn finish(&mut self, i: usize)
        requires
            old(self).wf(),
            i < old(self).states_view().len(),
            old(self).states_view()[i as int] is Running,
        ensures
            final(self).wf(),
            final(self).states_view() == old(self).states_view().update(
                i as int,
                TaskState::Finished,
            ),
            final(self).next_idx() == old(self).next_idx(),
            final(self).active_count() == old(self).active_count() - 1,
            final(self).limit_of() == old(self).limit_of(),
    {
        let ghost pre = self.states@;
        proof {
            lemma_count_running_update(pre, i as int, TaskState::Finished);
            lemma_count_positive(pre, i as int);
        }
        self.states[i] = TaskState::Finished;
        self.active = self.active - 1;
    }

    /// Whether the pool's work is over: no queued task and no running
    /// one. This is the polling loop's exit condition.
    pub fn done(&self) -> (r: bool)
        requires
            self.wf(),
        ensures
            r == self.spec_done(),
    {
        self.next == self.states.len() && self.active == 0
    }

    pub fn running_count(&self) -> (r: usize)
        ensures
            r as int == self.active_count(),
    {
        self.active
    }

    pub fn task_count(&self) -> (r: usize)
        ensures
            r as int == self.states_view().len(),
    {
        self.states.len()
    }
}

/// At no instant do more tasks run than the concurrency limit allows.
pub proof fn lemma_active_bounded(s: InstallScheduler)
    requires
        s.wf(),
    ensures
        count_running(s.states_view()) <= s.limit_of(),
{
}

/// When the pool reports done, every declared task has finished.
pub proof fn lemma_done_all_finished(s: InstallScheduler)
    requires
        s.wf(),
        s.spec_done(),
    ensures
        forall|i: int| 0 <= i < s.states_view().len() ==> (#[trigger] s.states_view()[i])
            is Finished,
{
    let states = s.states_view();
    assert forall|i: int| 0 <= i < states.len() implies (#[trigger] states[i])
        is Finished by {
        assert(!(states[i] is NotStarted));
        if states[i] is Running {
            lemma_count_positive(states, i);
        }
    }
}

proof fn lemma_count_positive(s: Seq<TaskState>, i: int)
    requires
        0 <= i < s.len(),
        s[i] is Running,
    ensures
        count_running(s) >= 1,
    decreases s.len(),
{
    if i == s.len() - 1 {
        lemma_count_running_bounds(s.drop_last());
    } else {
        assert(s.drop_last()[i] == s[i]);
        lemma_count_positive(s.drop_last(), i);
    }
}

/// The pool makes progress: each admission or completion strictly
/// shrinks the work measure, which is zero exactly when the pool is
/// done, so a run in which every started task eventually finishes ends.
pub open spec fn work_measure(s: InstallScheduler) -> int {
    2 * (s.states_view().len() - s.next_idx()) + s.active_count()
}

pub proof fn lemma_measure_start(pre: InstallScheduler, post: InstallScheduler)
    requires
        pre.wf(),
        post.wf(),
        post.next_idx() == pre.next_idx() + 1,
        post.active_count() == pre.active_count() + 1,
        post.states_view().len() == pre.states_view().len(),
    ensures
        work_measure(post) == work_measure(pre) - 1,
{
}

pub proof fn lemma_measure_finish(pre: InstallScheduler, post: InstallScheduler)
    requires
        pre.wf(),
        post.wf(),
        post.next_idx() == pre.next_idx(),
        post.active_count() == pre.active_count() - 1,
        post.states_view().len() == pre.states_view().len(),
    ensures
        work_measure(post) == work_measure(pre) - 1,
{
}

pub proof fn lemma_measure_zero_iff_done(s: InstallScheduler)
    requires
        s.wf(),
    ensures
        work_measure(s) == 0 <==> s.spec_done(),
{
    lemma_count_running_bounds(s.states_view());
}

} // verus!
