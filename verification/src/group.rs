//! The group: an ordered queue of pending tasks and the ledger of failures.

use std::collections::VecDeque;
use vstd::prelude::*;
use vstd::string::*;
use crate::error::{Error, ErrorView};
use crate::ledger::{join_failure, recorded, result_view, settled, Failures};
use crate::naming::{name_task, task_name, thread_id, thread_label};

verus! {

/// A pending task as the contracts see it: its name and the capability to
/// wait for it.
pub struct TaskView<H> {
    pub name: Seq<char>,
    pub handle: H,
}

/// A group as the contracts see it.
pub struct GroupView<H> {
    /// The label the group was made with.
    pub identity: Seq<char>,
    /// The tasks not yet joined, oldest first.
    pub pending: Seq<TaskView<H>>,
    /// Tasks spawned minus tasks joined.
    pub counter: nat,
    /// Every failure observed by a join so far, by task name.
    pub failures: Map<Seq<char>, ErrorView>,
}

/// The error that reports that the task `name` could not be launched, where
/// `cause` describes why.
pub open spec fn spawn_failure(name: Seq<char>, cause: Seq<char>) -> ErrorView {
    ErrorView::ThreadJoinError("spawning thread "@ + name + ": "@ + cause)
}

/// How a group called `identity` presents itself in messages.
pub open spec fn group_label(identity: Seq<char>) -> Seq<char> {
    "thread_groups::ThreadGroup "@ + identity
}

/// The error that reports a join asked of a group with nothing pending.
pub open spec fn idle_failure(identity: Seq<char>) -> ErrorView {
    ErrorView::ThreadGroupError("no threads in group "@ + group_label(identity))
}

impl<H> GroupView<H> {
    /// A group that has seen no task yet.
    pub open spec fn fresh(identity: Seq<char>) -> Self {
        GroupView { identity, pending: Seq::empty(), counter: 0, failures: Map::empty() }
    }

    /// The counter keeps pace with the queue, and the ledger is finite.
    pub open spec fn wf(self) -> bool {
        &&& self.counter == self.pending.len()
        &&& self.failures.dom().finite()
    }

    /// The name that the next task to be spawned gets.
    pub open spec fn next_name(self) -> Seq<char> {
        task_name(self.identity, self.counter + 1)
    }

    /// The group after a task was launched and `handle` came back for it.
    pub open spec fn spawned(self, handle: H) -> Self {
        GroupView {
            pending: self.pending.push(TaskView { name: self.next_name(), handle }),
            counter: self.counter + 1,
            ..self
        }
    }

    /// The group after an attempt to launch a task: one task richer where
    /// the launch gave a handle, unchanged where it failed.
    pub open spec fn after_launch(self, launched: Result<H, String>) -> Self {
        match launched {
            Ok(handle) => self.spawned(handle),
            Err(_) => self,
        }
    }

    /// What `spawn` answers after an attempt to launch a task.
    pub open spec fn launch_answer(self, launched: Result<H, String>) -> Result<(), ErrorView> {
        match launched {
            Ok(_) => Ok(()),
            Err(cause) => Err(spawn_failure(self.next_name(), cause@)),
        }
    }

    /// The group after its oldest task was waited for and ended with
    /// `outcome`. A group with nothing pending stays as it is.
    pub open spec fn joined<T>(self, outcome: Result<T, String>) -> Self {
        if self.pending.len() == 0 {
            self
        } else {
            GroupView {
                pending: self.pending.drop_first(),
                counter: (self.counter - 1) as nat,
                failures: recorded(self.failures, self.pending[0].name, outcome),
                ..self
            }
        }
    }

    /// What `join` answers when the oldest task ended with `outcome`.
    pub open spec fn answer<T>(self, outcome: Result<T, String>) -> Result<T, ErrorView> {
        if self.pending.len() == 0 {
            Err(idle_failure(self.identity))
        } else {
            settled(self.pending[0].name, outcome)
        }
    }

    /// `outcomes` is what waiting by `wait` gave for the oldest pending
    /// tasks, one after the other, oldest first.
    pub open spec fn waited<T, F: Fn(H) -> Result<T, String>>(
        self,
        wait: F,
        outcomes: Seq<Result<T, String>>,
    ) -> bool {
        &&& outcomes.len() <= self.pending.len()
        &&& forall|i: int|
            0 <= i < outcomes.len() ==> wait.ensures(
                (self.pending[i].handle,),
                #[trigger] outcomes[i],
            )
    }

    /// The group after as many joins as there are `outcomes`, the oldest
    /// task having ended with the first of them, the next with the second,
    /// and so on.
    pub open spec fn drained<T>(self, outcomes: Seq<Result<T, String>>) -> Self
        decreases outcomes.len(),
    {
        if outcomes.len() == 0 {
            self
        } else {
            self.drained(outcomes.drop_last()).joined(outcomes.last())
        }
    }

    /// What those joins answer, one after the other.
    pub open spec fn answers<T>(self, outcomes: Seq<Result<T, String>>) -> Seq<
        Result<T, ErrorView>,
    > {
        Seq::new(outcomes.len(), |i: int| settled(self.pending[i].name, outcomes[i]))
    }

    /// The outcomes are those of a drain that stops at the first failure:
    /// none but the last is a failure, and the last is one unless every
    /// pending task was waited for.
    pub open spec fn stops_at_failure<T>(self, outcomes: Seq<Result<T, String>>) -> bool {
        &&& outcomes.len() <= self.pending.len()
        &&& forall|i: int| 0 <= i < outcomes.len() - 1 ==> (#[trigger] outcomes[i]) is Ok
        &&& outcomes.len() < self.pending.len() ==> outcomes.len() > 0 && outcomes.last() is Err
    }

    /// What a drain that stops at the first failure answers: that failure,
    /// or every value.
    pub open spec fn verdict<T>(self, outcomes: Seq<Result<T, String>>) -> Result<
        Seq<T>,
        ErrorView,
    > {
        if outcomes.len() > 0 && outcomes.last() is Err {
            Err(join_failure(self.pending[outcomes.len() - 1].name, outcomes.last()->Err_0@))
        } else {
            Ok(values_of(outcomes))
        }
    }

    /// After as many joins as there are outcomes, what is pending is what
    /// was pending behind the tasks joined; the counter has gone down by
    /// their number.
    pub proof fn lemma_drained<T>(self, outcomes: Seq<Result<T, String>>)
        requires
            self.wf(),
            outcomes.len() <= self.pending.len(),
        ensures
            self.drained(outcomes).wf(),
            self.drained(outcomes).identity == self.identity,
            self.drained(outcomes).pending == self.pending.skip(outcomes.len() as int),
            self.drained(outcomes).counter == self.counter - outcomes.len(),
        decreases outcomes.len(),
    {
        if outcomes.len() == 0 {
            assert(self.pending.skip(0) =~= self.pending);
        } else {
            let front = outcomes.drop_last();
            self.lemma_drained(front);
            let before = self.drained(front);
            assert(before.pending.drop_first() =~= self.pending.skip(outcomes.len() as int));
        }
    }

    /// One more join: where the oldest task still pending after the joins
    /// with `outcomes` ends with `outcome`, the joins so far and this one
    /// are the joins with `outcomes` and `outcome` behind them.
    pub proof fn lemma_one_more<T, F: Fn(H) -> Result<T, String>>(
        self,
        wait: F,
        outcomes: Seq<Result<T, String>>,
        outcome: Result<T, String>,
    )
        requires
            self.wf(),
            self.waited(wait, outcomes),
            outcomes.len() < self.pending.len(),
            wait.ensures((self.drained(outcomes).pending[0].handle,), outcome),
        ensures
            self.drained(outcomes).pending[0] == self.pending[outcomes.len() as int],
            self.waited(wait, outcomes.push(outcome)),
            self.drained(outcomes.push(outcome)) == self.drained(outcomes).joined(outcome),
            self.answers(outcomes.push(outcome)) == self.answers(outcomes).push(
                self.drained(outcomes).answer(outcome),
            ),
            values_of(outcomes.push(outcome)) == match outcome {
                Ok(value) => values_of(outcomes).push(value),
                Err(_) => values_of(outcomes),
            },
    {
        self.lemma_drained(outcomes);
        let longer = outcomes.push(outcome);
        assert(longer.drop_last() =~= outcomes);
        assert(self.answers(longer) =~= self.answers(outcomes).push(
            self.drained(outcomes).answer(outcome),
        ));
    }
}

/// The values among the outcomes, in their order.
pub open spec fn values_of<T>(outcomes: Seq<Result<T, String>>) -> Seq<T>
    decreases outcomes.len(),
{
    if outcomes.len() == 0 {
        Seq::empty()
    } else {
        match outcomes.last() {
            Ok(value) => values_of(outcomes.drop_last()).push(value),
            Err(_) => values_of(outcomes.drop_last()),
        }
    }
}

/// The content of what a drain that stops at the first failure answers.
pub open spec fn verdict_view<T>(r: Result<Vec<T>, Error>) -> Result<Seq<T>, ErrorView> {
    match r {
        Ok(values) => Ok(values@),
        Err(e) => Err(e@),
    }
}

/// The content of a list of results.
pub open spec fn results_view<T>(results: Seq<Result<T, Error>>) -> Seq<Result<T, ErrorView>> {
    results.map_values(|r: Result<T, Error>| result_view(r))
}

/// A task in the queue.
struct Task<H> {
    name: String,
    handle: H,
}

impl<H> View for Task<H> {
    type V = TaskView<H>;

    closed spec fn view(&self) -> TaskView<H> {
        TaskView { name: self.name@, handle: self.handle }
    }
}

/// A group of tasks. The group launches nothing and waits for nothing by
/// itself: `spawn` is given the means to launch a task under a name, the
/// joining operations the means to wait for a handle. What the group owns is
/// the order of the tasks, their names and the record of their failures.
///
/// `H` is the type of the handle by which a launched task is waited for.
pub struct ThreadGroup<H> {
    id: String,
    handles: VecDeque<Task<H>>,
    count: usize,
    errors: Failures,
}

impl<H> View for ThreadGroup<H> {
    type V = GroupView<H>;

    closed spec fn view(&self) -> GroupView<H> {
        GroupView {
            identity: self.id@,
            pending: self.handles@.map_values(|t: Task<H>| t@),
            counter: self.count as nat,
            failures: self.errors@,
        }
    }
}

impl<H> ThreadGroup<H> {
    /// The group is well formed: its counter is the number of pending
    /// tasks, and its ledger is well formed.
    pub closed spec fn wf(&self) -> bool {
        &&& self.count == self.handles@.len()
        &&& self.errors.wf()
    }

    /// A well-formed group has a well-formed view.
    pub proof fn lemma_wf(&self)
        requires
            self.wf(),
        ensures
            self@.wf(),
    {
        self.errors.lemma_finite();
    }

    /// Creates a group whose identity is derived from where it is made:
    /// the number of the process and the calling thread's name, or
    /// `fallback` where that thread has no name.
    pub fn new(process: u32, name: Option<String>, fallback: String) -> (group: ThreadGroup<H>)
        ensures
            group.wf(),
            group@ == GroupView::<H>::fresh(
                thread_label(
                    process as nat,
                    match name {
                        Some(n) => Some(n@),
                        None => None,
                    },
                    fallback@,
                ),
            ),
    {
        ThreadGroup::with_id(thread_id(process, name, fallback))
    }

    /// Creates a group with the identity `id`.
    pub fn with_id(id: String) -> (group: ThreadGroup<H>)
        ensures
            group.wf(),
            group@ == GroupView::<H>::fresh(id@),
    {
        let group = ThreadGroup { id, handles: VecDeque::new(), count: 0, errors: Failures::new() };
        assert(group@.pending =~= Seq::<TaskView<H>>::empty());
        group
    }

    /// The identity the group was made with.
    pub fn id(&self) -> (text: &str)
        ensures
            text@ == self@.identity,
    {
        self.id.as_str()
    }

    /// The number of tasks spawned and not yet joined.
    pub fn pending(&self) -> (n: usize)
        requires
            self.wf(),
        ensures
            n == self@.pending.len(),
            n == self@.counter,
    {
        self.count
    }

    /// Spawns a task. The group picks the task's name and hands it to
    /// `launch`, which starts the task and returns the handle to wait for it
    /// by, or says why the task could not be started. On success the task is
    /// queued behind those already pending. On failure the group is left as
    /// it was and the cause is reported.
    pub fn spawn<F>(&mut self, launch: F) -> (r: Result<(), Error>) where
        F: FnOnce(String) -> Result<H, String>,

        requires
            old(self).wf(),
            old(self)@.counter < usize::MAX,
            forall|name: String| name@ == old(self)@.next_name() ==> launch.requires((name,)),
        ensures
            final(self).wf(),
            exists|name: String, launched: Result<H, String>|
                {
                    &&& name@ == old(self)@.next_name()
                    &&& #[trigger] launch.ensures((name,), launched)
                    &&& final(self)@ == old(self)@.after_launch(launched)
                    &&& result_view(r) == old(self)@.launch_answer(launched)
                },
    {
        let number = self.count + 1;
        let name = name_task(self.id.as_str(), number);
        let passed = name.clone();
        let launched = launch(passed);
        let ghost witness = launched;
        match launched {
            Ok(handle) => {
                self.handles.push_back(Task { name, handle });
                self.count = number;
                proof {
                    assert(self@.pending =~= old(self)@.pending.push(
                        TaskView { name: name@, handle },
                    ));
                    assert(launch.ensures((passed,), witness));
                }
                Ok(())
            },
            Err(cause) => {
                let mut message = String::from_str("spawning thread ");
                message.append(name.as_str());
                message.append(": ");
                message.append(cause.as_str());
                proof {
                    assert(message@ =~= "spawning thread "@ + name@ + ": "@ + cause@);
                    assert(launch.ensures((passed,), witness));
                }
                Err(Error::ThreadJoinError(message))
            },
        }
    }

    /// Waits for the oldest pending task, by `wait`, and settles it: its
    /// value is handed on; its failure is recorded under the task's name
    /// and handed on as an error. Asked of a group with nothing pending,
    /// it reports the misuse and changes nothing.
    pub fn join<T, F>(&mut self, wait: F) -> (r: Result<T, Error>) where
        F: FnOnce(H) -> Result<T, String>,

        requires
            old(self).wf(),
            old(self)@.pending.len() > 0 ==> wait.requires((old(self)@.pending[0].handle,)),
        ensures
            final(self).wf(),
            old(self)@.pending.len() == 0 ==> {
                &&& final(self)@ == old(self)@
                &&& result_view(r) == Err::<T, ErrorView>(idle_failure(old(self)@.identity))
            },
            old(self)@.pending.len() > 0 ==> exists|outcome: Result<T, String>|
                {
                    &&& #[trigger] wait.ensures((old(self)@.pending[0].handle,), outcome)
                    &&& final(self)@ == old(self)@.joined(outcome)
                    &&& result_view(r) == old(self)@.answer(outcome)
                },
    {
        match self.handles.pop_front() {
            None => {
                let mut message = String::from_str("no threads in group ");
                let label = self.to_string();
                message.append(label.as_str());
                assert(message@ =~= "no threads in group "@ + group_label(self@.identity));
                assert(self@.pending =~= old(self)@.pending);
                Err(Error::ThreadGroupError(message))
            },
            Some(task) => {
                let Task { name, handle } = task;
                let outcome = wait(handle);
                let ghost witness = outcome;
                let r = self.errors.record(name, outcome);
                self.count = self.count - 1;
                proof {
                    assert(old(self)@.pending[0] == task@);
                    assert(self@.pending =~= old(self)@.pending.drop_first());
                    assert(wait.ensures((old(self)@.pending[0].handle,), witness));
                }
                r
            },
        }
    }

    /// Waits for every pending task, oldest first, and returns what each
    /// join answered, in that order. A failure does not stop the drain.
    pub fn results<T, F>(&mut self, wait: F) -> (all: Vec<Result<T, Error>>) where
        F: Fn(H) -> Result<T, String>,

        requires
            old(self).wf(),
            forall|i: int|
                0 <= i < old(self)@.pending.len() ==> wait.requires(
                    (#[trigger] old(self)@.pending[i].handle,),
                ),
        ensures
            final(self).wf(),
            final(self)@.pending.len() == 0,
            all@.len() == old(self)@.pending.len(),
            exists|outcomes: Seq<Result<T, String>>|
                {
                    &&& outcomes.len() == old(self)@.pending.len()
                    &&& #[trigger] old(self)@.waited(wait, outcomes)
                    &&& final(self)@ == old(self)@.drained(outcomes)
                    &&& results_view(all@) == old(self)@.answers(outcomes)
                },
    {
        let ghost start = self@;
        let ghost mut outcomes: Seq<Result<T, String>> = Seq::empty();
        let mut all: Vec<Result<T, Error>> = Vec::new();
        proof {
            self.lemma_wf();
            assert(results_view(all@) =~= start.answers(outcomes));
        }
        while self.count > 0
            invariant
                self.wf(),
                start.wf(),
                forall|i: int|
                    0 <= i < start.pending.len() ==> wait.requires(
                        (#[trigger] start.pending[i].handle,),
                    ),
                start.waited(wait, outcomes),
                self@ == start.drained(outcomes),
                results_view(all@) == start.answers(outcomes),
            decreases self@.pending.len(),
        {
            proof {
                start.lemma_drained(outcomes);
            }
            let ghost before = self@;
            let r = self.join(&wait);
            proof {
                let outcome = choose|outcome: Result<T, String>|
                    {
                        &&& #[trigger] wait.ensures((before.pending[0].handle,), outcome)
                        &&& self@ == before.joined(outcome)
                        &&& result_view(r) == before.answer(outcome)
                    };
                start.lemma_one_more(wait, outcomes, outcome);
                assert(results_view(all@.push(r)) =~= results_view(all@).push(result_view(r)));
                outcomes = outcomes.push(outcome);
            }
            all.push(r);
        }
        proof {
            start.lemma_drained(outcomes);
            assert(results_view(all@).len() == all@.len());
        }
        all
    }

    /// Waits for every pending task, oldest first, and returns the values
    /// of those that ended normally, in that order. Failures are recorded
    /// and otherwise passed over.
    pub fn as_far_as_ok<T, F>(&mut self, wait: F) -> (good: Vec<T>) where
        F: Fn(H) -> Result<T, String>,

        requires
            old(self).wf(),
            forall|i: int|
                0 <= i < old(self)@.pending.len() ==> wait.requires(
                    (#[trigger] old(self)@.pending[i].handle,),
                ),
        ensures
            final(self).wf(),
            final(self)@.pending.len() == 0,
            exists|outcomes: Seq<Result<T, String>>|
                {
                    &&& outcomes.len() == old(self)@.pending.len()
                    &&& #[trigger] old(self)@.waited(wait, outcomes)
                    &&& final(self)@ == old(self)@.drained(outcomes)
                    &&& good@ == values_of(outcomes)
                },
    {
        let ghost start = self@;
        let ghost mut outcomes: Seq<Result<T, String>> = Seq::empty();
        let mut good: Vec<T> = Vec::new();
        proof {
            self.lemma_wf();
        }
        while self.count > 0
            invariant
                self.wf(),
                start.wf(),
                forall|i: int|
                    0 <= i < start.pending.len() ==> wait.requires(
                        (#[trigger] start.pending[i].handle,),
                    ),
                start.waited(wait, outcomes),
                self@ == start.drained(outcomes),
                good@ == values_of(outcomes),
            decreases self@.pending.len(),
        {
            proof {
                start.lemma_drained(outcomes);
            }
            let ghost before = self@;
            let r = self.join(&wait);
            proof {
                let outcome = choose|outcome: Result<T, String>|
                    {
                        &&& #[trigger] wait.ensures((before.pending[0].handle,), outcome)
                        &&& self@ == before.joined(outcome)
                        &&& result_view(r) == before.answer(outcome)
                    };
                start.lemma_one_more(wait, outcomes, outcome);
                outcomes = outcomes.push(outcome);
            }
            if let Ok(value) = r {
                good.push(value);
            }
        }
        proof {
            start.lemma_drained(outcomes);
        }
        good
    }

    /// Waits for the pending tasks, oldest first, until one has failed or
    /// none is left. Where none failed, returns every value in order.
    /// Where one failed, returns its failure at once: the tasks spawned
    /// after it stay pending, to be joined later.
    pub fn all_ok<T, F>(&mut self, wait: F) -> (r: Result<Vec<T>, Error>) where
        F: Fn(H) -> Result<T, String>,

        requires
            old(self).wf(),
            forall|i: int|
                0 <= i < old(self)@.pending.len() ==> wait.requires(
                    (#[trigger] old(self)@.pending[i].handle,),
                ),
        ensures
            final(self).wf(),
            exists|outcomes: Seq<Result<T, String>>|
                {
                    &&& #[trigger] old(self)@.waited(wait, outcomes)
                    &&& old(self)@.stops_at_failure(outcomes)
                    &&& final(self)@ == old(self)@.drained(outcomes)
                    &&& final(self)@.pending == old(self)@.pending.skip(outcomes.len() as int)
                    &&& verdict_view(r) == old(self)@.verdict(outcomes)
                },
    {
        let ghost start = self@;
        let ghost mut outcomes: Seq<Result<T, String>> = Seq::empty();
        let mut good: Vec<T> = Vec::new();
        proof {
            self.lemma_wf();
        }
        while self.count > 0
            invariant
                self.wf(),
                start.wf(),
                start == old(self)@,
                forall|i: int|
                    0 <= i < start.pending.len() ==> wait.requires(
                        (#[trigger] start.pending[i].handle,),
                    ),
                start.waited(wait, outcomes),
                forall|i: int| 0 <= i < outcomes.len() ==> (#[trigger] outcomes[i]) is Ok,
                self@ == start.drained(outcomes),
                good@ == values_of(outcomes),
            decreases self@.pending.len(),
        {
            proof {
                start.lemma_drained(outcomes);
            }
            let ghost before = self@;
            let r = self.join(&wait);
            proof {
                let outcome = choose|outcome: Result<T, String>|
                    {
                        &&& #[trigger] wait.ensures((before.pending[0].handle,), outcome)
                        &&& self@ == before.joined(outcome)
                        &&& result_view(r) == before.answer(outcome)
                    };
                start.lemma_one_more(wait, outcomes, outcome);
                outcomes = outcomes.push(outcome);
            }
            match r {
                Ok(value) => {
                    good.push(value);
                },
                Err(e) => {
                    proof {
                        start.lemma_drained(outcomes);
                        assert(start.stops_at_failure(outcomes));
                    }
                    return Err(e);
                },
            }
        }
        proof {
            start.lemma_drained(outcomes);
            assert(start.stops_at_failure(outcomes));
        }
        Ok(good)
    }

    /// How the group presents itself: `"thread_groups::ThreadGroup <identity>"`.
    pub fn to_string(&self) -> (text: String)
        ensures
            text@ == group_label(self@.identity),
    {
        let mut text = String::from_str("thread_groups::ThreadGroup ");
        text.append(self.id.as_str());
        text
    }

    /// A snapshot of the failures observed so far. The group keeps its own.
    pub fn errors(&self) -> (ledger: Failures)
        requires
            self.wf(),
        ensures
            ledger.wf(),
            ledger@ == self@.failures,
    {
        self.errors.clone()
    }
}

} // verus!
