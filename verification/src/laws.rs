//! What holds of a group over any sequence of spawns and joins.

use vstd::prelude::*;
use crate::error::ErrorView;
use crate::group::{values_of, GroupView, TaskView};
use crate::ledger::{join_failure, settled};
use crate::naming::{lemma_task_name_injective, task_name};

verus! {

/// How many of the outcomes are failures.
pub open spec fn failures_in<T>(outcomes: Seq<Result<T, String>>) -> nat
    decreases outcomes.len(),
{
    if outcomes.len() == 0 {
        0
    } else {
        failures_in(outcomes.drop_last()) + if outcomes.last() is Err {
            1nat
        } else {
            0nat
        }
    }
}

/// How many of the answers are errors.
pub open spec fn errors_in<T>(answers: Seq<Result<T, ErrorView>>) -> nat
    decreases answers.len(),
{
    if answers.len() == 0 {
        0
    } else {
        errors_in(answers.drop_last()) + if answers.last() is Err {
            1nat
        } else {
            0nat
        }
    }
}

impl<H> GroupView<H> {
    /// The group after one task was spawned for each of `handles`, in
    /// their order.
    pub open spec fn spawned_all(self, handles: Seq<H>) -> Self
        decreases handles.len(),
    {
        if handles.len() == 0 {
            self
        } else {
            self.spawned_all(handles.drop_last()).spawned(handles.last())
        }
    }

    /// The oldest `n` pending tasks have names of their own: no two share
    /// one, and the ledger holds nothing under any of them.
    pub open spec fn names_unused(self, n: nat) -> bool {
        &&& n <= self.pending.len()
        &&& forall|i: int, j: int| 0 <= i < j < n ==> self.pending[i].name != self.pending[j].name
        &&& forall|i: int| 0 <= i < n ==> !self.failures.dom().contains(#[trigger] self.pending[i].name)
    }
}

/// Spawning queues the new tasks behind those already pending, in the order
/// of the spawns, numbered on from the counter; nothing else changes.
pub proof fn law_spawn_order<H>(group: GroupView<H>, handles: Seq<H>)
    requires
        group.wf(),
    ensures
        group.spawned_all(handles).wf(),
        group.spawned_all(handles).identity == group.identity,
        group.spawned_all(handles).failures == group.failures,
        group.spawned_all(handles).counter == group.counter + handles.len(),
        group.spawned_all(handles).pending == group.pending + Seq::new(
            handles.len(),
            |i: int|
                TaskView {
                    name: task_name(group.identity, (group.counter + i + 1) as nat),
                    handle: handles[i],
                },
        ),
    decreases handles.len(),
{
    let queued = Seq::new(
        handles.len(),
        |i: int|
            TaskView {
                name: task_name(group.identity, (group.counter + i + 1) as nat),
                handle: handles[i],
            },
    );
    if handles.len() == 0 {
        assert(group.pending + queued =~= group.pending);
    } else {
        let front = handles.drop_last();
        law_spawn_order(group, front);
        assert(group.spawned_all(handles).pending =~= group.pending + queued);
    }
}

/// Joins serve the tasks in the order in which they were spawned: after
/// `k` joins of a group that was empty before its tasks were spawned, the
/// next join waits for the task spawned as number `k + 1`, whatever the
/// earlier tasks' outcomes were, and answers with that task's own outcome.
pub proof fn law_join_order<H, T>(
    group: GroupView<H>,
    handles: Seq<H>,
    outcomes: Seq<Result<T, String>>,
    next: Result<T, String>,
)
    requires
        group.wf(),
        group.pending.len() == 0,
        outcomes.len() < handles.len(),
    ensures
        ({
            let after = group.spawned_all(handles).drained(outcomes);
            let k = outcomes.len() as int;
            &&& after.pending.len() == handles.len() - k
            &&& after.pending[0].handle == handles[k]
            &&& after.pending[0].name == task_name(group.identity, (k + 1) as nat)
            &&& after.answer(next) == settled(task_name(group.identity, (k + 1) as nat), next)
        }),
{
    law_spawn_order(group, handles);
    group.spawned_all(handles).lemma_drained(outcomes);
}

/// Several drains in a row are one drain with the outcomes in a row.
pub proof fn law_drain_in_steps<H, T>(
    group: GroupView<H>,
    first: Seq<Result<T, String>>,
    second: Seq<Result<T, String>>,
)
    ensures
        group.drained(first + second) == group.drained(first).drained(second),
    decreases second.len(),
{
    if second.len() == 0 {
        assert(first + second =~= first);
    } else {
        law_drain_in_steps(group, first, second.drop_last());
        assert((first + second).drop_last() =~= first + second.drop_last());
    }
}

/// A full drain answers once for each task, and with an error exactly as
/// often as a task ended abnormally.
pub proof fn law_results_count<H, T>(group: GroupView<H>, outcomes: Seq<Result<T, String>>)
    ensures
        group.answers(outcomes).len() == outcomes.len(),
        forall|i: int|
            0 <= i < outcomes.len() ==> ((#[trigger] group.answers(outcomes)[i]) is Err
                <==> outcomes[i] is Err),
        errors_in(group.answers(outcomes)) == failures_in(outcomes),
    decreases outcomes.len(),
{
    if outcomes.len() > 0 {
        law_results_count(group, outcomes.drop_last());
        assert(group.answers(outcomes).drop_last() =~= group.answers(outcomes.drop_last()));
    }
}

/// Joins only add to the ledger, and only under the names of the tasks
/// joined.
pub proof fn law_ledger_grows<H, T>(group: GroupView<H>, outcomes: Seq<Result<T, String>>)
    requires
        group.wf(),
        outcomes.len() <= group.pending.len(),
    ensures
        group.failures.dom().subset_of(group.drained(outcomes).failures.dom()),
        forall|name: Seq<char>| #[trigger]
            group.drained(outcomes).failures.dom().contains(name) ==> group.failures.dom().contains(
                name,
            ) || exists|i: int|
                0 <= i < outcomes.len() && outcomes[i] is Err && #[trigger] group.pending[i].name
                    == name,
        forall|i: int|
            0 <= i < outcomes.len() && outcomes[i] is Err ==> group.drained(
                outcomes,
            ).failures.dom().contains(#[trigger] group.pending[i].name),
    decreases outcomes.len(),
{
    if outcomes.len() > 0 {
        let front = outcomes.drop_last();
        let k = front.len() as int;
        law_ledger_grows(group, front);
        group.lemma_drained(front);
        let before = group.drained(front);
        let after = group.drained(outcomes);
        assert(before.pending[0] == group.pending[k]);
        assert forall|name: Seq<char>| #[trigger]
            after.failures.dom().contains(name) implies group.failures.dom().contains(name)
            || exists|i: int|
            0 <= i < outcomes.len() && outcomes[i] is Err && #[trigger] group.pending[i].name
                == name by {
            if before.failures.dom().contains(name) {
                if !group.failures.dom().contains(name) {
                    let i = choose|i: int|
                        0 <= i < front.len() && front[i] is Err && #[trigger] group.pending[i].name
                            == name;
                    assert(outcomes[i] is Err && group.pending[i].name == name);
                }
            } else {
                assert(outcomes[k] is Err && group.pending[k].name == name);
            }
        }
        assert forall|i: int| 0 <= i < outcomes.len() && outcomes[i] is Err implies after.failures.dom().contains(
        #[trigger] group.pending[i].name) by {
            if i < k {
                assert(front[i] is Err);
            }
        }
    }
}

/// Where the tasks joined have names of their own, the ledger gains one
/// entry for each abnormal end that the joins observe.
pub proof fn law_ledger_len<H, T>(group: GroupView<H>, outcomes: Seq<Result<T, String>>)
    requires
        group.wf(),
        group.names_unused(outcomes.len()),
    ensures
        group.drained(outcomes).failures.dom().finite(),
        group.drained(outcomes).failures.dom().len() == group.failures.dom().len() + failures_in(
            outcomes,
        ),
    decreases outcomes.len(),
{
    if outcomes.len() > 0 {
        let front = outcomes.drop_last();
        let k = front.len() as int;
        law_ledger_len(group, front);
        law_ledger_grows(group, front);
        group.lemma_drained(front);
        let before = group.drained(front);
        assert(before.pending[0] == group.pending[k]);
        let name = group.pending[k].name;
        if before.failures.dom().contains(name) {
            let i = choose|i: int|
                0 <= i < front.len() && front[i] is Err && #[trigger] group.pending[i].name == name;
            assert(group.pending[i].name != group.pending[k].name);
        }
    }
}

/// The tasks spawned into a group that was empty and had recorded nothing
/// have names of their own.
pub proof fn law_spawned_names<H>(group: GroupView<H>, handles: Seq<H>)
    requires
        group.wf(),
        group.pending.len() == 0,
        group.failures.dom().len() == 0,
    ensures
        group.spawned_all(handles).names_unused(handles.len()),
{
    law_spawn_order(group, handles);
    let after = group.spawned_all(handles);
    assert forall|i: int, j: int| 0 <= i < j < handles.len() implies after.pending[i].name
        != after.pending[j].name by {
        if after.pending[i].name == after.pending[j].name {
            lemma_task_name_injective(group.identity, (i + 1) as nat, (j + 1) as nat);
        }
    }
    assert(group.failures.dom() =~= Set::empty()) by {
        group.failures.dom().lemma_len0_is_empty();
    }
}

/// After a full drain of a group whose tasks were spawned into it while it
/// was empty and had recorded nothing, the ledger has as many entries as
/// tasks ended abnormally.
pub proof fn law_failures_after_drain<H, T>(
    group: GroupView<H>,
    handles: Seq<H>,
    outcomes: Seq<Result<T, String>>,
)
    requires
        group.wf(),
        group.pending.len() == 0,
        group.failures.dom().len() == 0,
        outcomes.len() == handles.len(),
    ensures
        group.spawned_all(handles).drained(outcomes).pending.len() == 0,
        group.spawned_all(handles).drained(outcomes).failures.dom().len() == failures_in(outcomes),
{
    law_spawn_order(group, handles);
    law_spawned_names(group, handles);
    law_ledger_len(group.spawned_all(handles), outcomes);
    group.spawned_all(handles).lemma_drained(outcomes);
}

/// As many values are kept as tasks ended normally: one for each outcome
/// that is no failure.
pub proof fn law_values_len<T>(outcomes: Seq<Result<T, String>>)
    ensures
        failures_in(outcomes) <= outcomes.len(),
        values_of(outcomes).len() == outcomes.len() - failures_in(outcomes),
    decreases outcomes.len(),
{
    if outcomes.len() > 0 {
        law_values_len(outcomes.drop_last());
    }
}

/// The values of outcomes in a row are the values of the first part
/// followed by those of the second.
pub proof fn law_values_in_steps<T>(first: Seq<Result<T, String>>, second: Seq<Result<T, String>>)
    ensures
        values_of(first + second) == values_of(first) + values_of(second),
    decreases second.len(),
{
    if second.len() == 0 {
        assert(first + second =~= first);
        assert(values_of(first) + values_of(second) =~= values_of(first));
    } else {
        law_values_in_steps(first, second.drop_last());
        assert((first + second).drop_last() =~= first + second.drop_last());
        assert(values_of(first + second) =~= values_of(first) + values_of(second));
    }
}

/// The values are kept in the order of the tasks: the value of a task that
/// ended normally stands behind the values of the tasks spawned before it,
/// that is, at its own position less the number of failures before it.
pub proof fn law_values_order<T>(outcomes: Seq<Result<T, String>>, i: int)
    requires
        0 <= i < outcomes.len(),
        outcomes[i] is Ok,
    ensures
        0 <= i - failures_in(outcomes.take(i)) < values_of(outcomes).len(),
        values_of(outcomes)[i - failures_in(outcomes.take(i))] == outcomes[i]->Ok_0,
{
    let before = outcomes.take(i);
    let here = seq![outcomes[i]];
    let behind = outcomes.skip(i + 1);
    assert(outcomes =~= before + here + behind);
    law_values_in_steps(before + here, behind);
    law_values_in_steps(before, here);
    law_values_len(before);
    assert(here.drop_last() =~= Seq::<Result<T, String>>::empty());
    assert(values_of(here) =~= seq![outcomes[i]->Ok_0]) by {
        assert(values_of(here.drop_last()) =~= Seq::<T>::empty());
    }
}

/// Where no task fails, a drain that stops at the first failure waits for
/// every task and answers with every value, in the order of the tasks, and
/// nothing stays pending.
pub proof fn law_all_ok_success<H, T>(group: GroupView<H>, outcomes: Seq<Result<T, String>>)
    requires
        group.wf(),
        group.stops_at_failure(outcomes),
        forall|i: int| 0 <= i < outcomes.len() ==> (#[trigger] outcomes[i]) is Ok,
    ensures
        outcomes.len() == group.pending.len(),
        group.verdict(outcomes) == Ok::<Seq<T>, ErrorView>(
            Seq::new(outcomes.len(), |i: int| outcomes[i]->Ok_0),
        ),
        group.drained(outcomes).pending.len() == 0,
        group.drained(outcomes).failures == group.failures,
{
    lemma_all_values(outcomes);
    group.lemma_drained(outcomes);
    lemma_quiet_drain(group, outcomes);
}

/// Where a task fails, a drain that stops at the first failure answers
/// with the failure of the oldest task that failed and records it; the
/// tasks spawned after that one stay pending.
pub proof fn law_all_ok_failure<H, T>(group: GroupView<H>, outcomes: Seq<Result<T, String>>)
    requires
        group.wf(),
        group.stops_at_failure(outcomes),
        exists|i: int| 0 <= i < outcomes.len() && (#[trigger] outcomes[i]) is Err,
    ensures
        ({
            let last = outcomes.len() - 1;
            let name = group.pending[last].name;
            let failure = join_failure(name, outcomes[last]->Err_0@);
            &&& outcomes[last] is Err
            &&& forall|i: int| 0 <= i < last ==> (#[trigger] outcomes[i]) is Ok
            &&& group.verdict(outcomes) == Err::<Seq<T>, ErrorView>(failure)
            &&& group.drained(outcomes).pending == group.pending.skip(outcomes.len() as int)
            &&& group.drained(outcomes).failures == group.failures.insert(name, failure)
        }),
{
    let last = outcomes.len() - 1;
    let front = outcomes.drop_last();
    group.lemma_drained(outcomes);
    group.lemma_drained(front);
    lemma_quiet_drain(group, front);
    assert(group.drained(front).pending[0] == group.pending[last]);
}

/// Outcomes without a failure are all values.
proof fn lemma_all_values<T>(outcomes: Seq<Result<T, String>>)
    requires
        forall|i: int| 0 <= i < outcomes.len() ==> (#[trigger] outcomes[i]) is Ok,
    ensures
        values_of(outcomes) == Seq::new(outcomes.len(), |i: int| outcomes[i]->Ok_0),
    decreases outcomes.len(),
{
    if outcomes.len() > 0 {
        lemma_all_values(outcomes.drop_last());
    }
    assert(values_of(outcomes) =~= Seq::new(outcomes.len(), |i: int| outcomes[i]->Ok_0));
}

/// Joins of tasks that ended normally leave the ledger as it is.
proof fn lemma_quiet_drain<H, T>(group: GroupView<H>, outcomes: Seq<Result<T, String>>)
    requires
        forall|i: int| 0 <= i < outcomes.len() ==> (#[trigger] outcomes[i]) is Ok,
    ensures
        group.drained(outcomes).failures == group.failures,
    decreases outcomes.len(),
{
    if outcomes.len() > 0 {
        lemma_quiet_drain(group, outcomes.drop_last());
    }
}

} // verus!
