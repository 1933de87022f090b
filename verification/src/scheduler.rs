//! Dependency-aware scheduler core: tracks per-task status, bounds the
//! number of concurrently running tasks, and admits a task only once every
//! present dependency has completed. The surrounding executor performs the
//! actual spawning and asks this state machine what it may do next.

use vstd::prelude::*;
use crate::graph::PackageManifest;

verus! {

/// Lifecycle of one scheduled task.
#[derive(Clone, Copy, Debug, PartialEq, Eq, Structural)]
pub enum TaskStatus {
    Pending,
    Running,
    Completed,
    Failed,
    Cancelled,
}

/// Outcome of one task as the executor reports it.
#[derive(Debug)]
pub struct TaskResult {
    pub name: String,
    pub status: TaskStatus,
    /// Wall-clock duration of the task in milliseconds.
    pub duration_ms: u64,
    pub error: Option<String>,
}

/// A schedulable task: a name and the names of the tasks it waits for. The
/// work itself stays with the executor, keyed by name.
pub struct SchedulerTask {
    pub name: String,
    pub dependencies: Vec<String>,
}

impl SchedulerTask {
    /// Create a task with the given name and dependency names.
    pub fn new(name: String, deps: Vec<String>) -> (r: SchedulerTask)
        ensures
            r.name@ == name@,
            r.dependencies@ == deps@,
    {
        SchedulerTask { name, dependencies: deps }
    }
}

/// Scheduler configuration: the concurrency bound and the fail-fast flag.
pub struct Scheduler {
    pub concurrency: usize,
    pub fail_fast: bool,
}

impl Scheduler {
    /// A scheduler with the given concurrency bound; fail-fast is on by
    /// default.
    pub fn new(concurrency: usize) -> (r: Scheduler)
        ensures
            r.concurrency == concurrency,
            r.fail_fast,
    {
        Scheduler { concurrency, fail_fast: true }
    }

    /// Set the fail-fast behaviour.
    pub fn fail_fast(self, enabled: bool) -> (r: Scheduler)
        ensures
            r.concurrency == self.concurrency,
            r.fail_fast == enabled,
    {
        Scheduler { concurrency: self.concurrency, fail_fast: enabled }
    }

    /// Begin an execution over the given tasks: every task starts out
    /// pending.
    pub fn plan(&self, tasks: Vec<SchedulerTask>) -> (r: SchedulerState)
        ensures
            r.wf(),
            r.tasks@ == tasks@,
            r.max_parallelism == self.concurrency,
            r.fail_fast == self.fail_fast,
            !r.failed,
            r.running == 0,
            forall|i: int| 0 <= i < r.status@.len() ==> r.status@[i] == TaskStatus::Pending,
    {
        let n = tasks.len();
        let mut status: Vec<TaskStatus> = Vec::new();
        let mut i: usize = 0;
        while i < n
            invariant
                i <= n,
                status@.len() == i,
                forall|j: int| 0 <= j < i ==> status@[j] == TaskStatus::Pending,
            decreases n - i,
        {
            status.push(TaskStatus::Pending);
            i = i + 1;
        }
        proof {
            lemma_count_running_all_pending(status@);
        }
        SchedulerState {
            tasks,
            status,
            max_parallelism: self.concurrency,
            fail_fast: self.fail_fast,
            running: 0,
            failed: false,
        }
    }
}

/// How many entries are `Running`.
pub open spec fn count_running(s: Seq<TaskStatus>) -> nat
    decreases s.len(),
{
    if s.len() == 0 {
        0
    } else {
        count_running(s.drop_last()) + if s.last() == TaskStatus::Running {
            1nat
        } else {
            0nat
        }
    }
}

proof fn lemma_count_running_all_pending(s: Seq<TaskStatus>)
    requires
        forall|j: int| 0 <= j < s.len() ==> s[j] == TaskStatus::Pending,
    ensures
        count_running(s) == 0,
    decreases s.len(),
{
    if s.len() > 0 {
        lemma_count_running_all_pending(s.drop_last());
    }
}

/// Updating one entry changes the running count by the difference the entry
/// itself contributes.
proof fn lemma_count_running_update(s: Seq<TaskStatus>, i: int, v: TaskStatus)
    requires
        0 <= i < s.len(),
    ensures
        count_running(s.update(i, v)) + (if s[i] == TaskStatus::Running {
            1nat
        } else {
            0nat
        }) == count_running(s) + (if v == TaskStatus::Running {
            1nat
        } else {
            0nat
        }),
    decreases s.len(),
{
    let s2 = s.update(i, v);
    if i == s.len() - 1 {
        assert(s2.drop_last() =~= s.drop_last());
        assert(s2.last() == v);
    } else {
        assert(s2.drop_last() =~= s.drop_last().update(i, v));
        assert(s2.last() == s.last());
        lemma_count_running_update(s.drop_last(), i, v);
    }
}

/// The live state of one scheduler execution.
pub struct SchedulerState {
    /// The task set, fixed at planning time.
    pub tasks: Vec<SchedulerTask>,
    /// Status of each task, parallel to `tasks`.
    pub status: Vec<TaskStatus>,
    /// Upper bound on concurrently running tasks.
    pub max_parallelism: usize,
    /// Whether a failure cancels everything not yet started.
    pub fail_fast: bool,
    /// Number of tasks currently running.
    pub running: usize,
    /// Whether some task has failed.
    pub failed: bool,
}

impl SchedulerState {
    /// Every task that carries the given name has completed. A name that no
    /// task carries is vacuously satisfied: unknown dependencies are treated
    /// as already met.
    pub open spec fn dep_ok(self, nm: Seq<char>) -> bool {
        forall|j: int|
            0 <= j < self.tasks@.len() && (#[trigger] self.tasks@[j]).name@ == nm
                ==> self.status@[j] == TaskStatus::Completed
    }

    /// The task is pending and every dependency it declares is satisfied.
    pub open spec fn ready(self, i: int) -> bool {
        &&& self.status@[i] == TaskStatus::Pending
        &&& forall|d: int|
            0 <= d < self.tasks@[i].dependencies@.len() ==> self.dep_ok(
                (#[trigger] self.tasks@[i].dependencies@[d])@,
            )
    }

    /// Structural soundness of the state: statuses line up with tasks, the
    /// running counter is exact and bounded, the failed flag is exact, and a
    /// task runs or has completed only after its dependencies completed.
    pub open spec fn wf(self) -> bool {
        &&& self.status@.len() == self.tasks@.len()
        &&& self.running == count_running(self.status@)
        &&& self.running <= self.max_parallelism
        &&& (self.failed <==> exists|i: int|
            0 <= i < self.status@.len() && self.status@[i] == TaskStatus::Failed)
        &&& forall|i: int, d: int|
            0 <= i < self.tasks@.len() && (self.status@[i] == TaskStatus::Running
                || self.status@[i] == TaskStatus::Completed) && 0 <= d
                < self.tasks@[i].dependencies@.len() ==> self.dep_ok(
                (#[trigger] self.tasks@[i].dependencies@[d])@,
            )
    }

    /// Number of tasks in the plan.
    pub fn len(&self) -> (r: usize)
        ensures
            r == self.tasks@.len(),
    {
        self.tasks.len()
    }

    /// Whether every dependency of task `i` is satisfied now.
    fn deps_satisfied(&self, i: usize) -> (r: bool)
        requires
            self.wf(),
            i < self.tasks@.len(),
        ensures
            r == forall|d: int|
                0 <= d < self.tasks@[i as int].dependencies@.len() ==> self.dep_ok(
                    (#[trigger] self.tasks@[i as int].dependencies@[d])@,
                ),
    {
        let deps = &self.tasks[i].dependencies;
        let mut d: usize = 0;
        while d < deps.len()
            invariant
                self.wf(),
                i < self.tasks@.len(),
                deps@ == self.tasks@[i as int].dependencies@,
                d <= deps@.len(),
                forall|d0: int| 0 <= d0 < d ==> self.dep_ok((#[trigger] deps@[d0])@),
            decreases deps@.len() - d,
        {
            let nm = &deps[d];
            let mut j: usize = 0;
            while j < self.tasks.len()
                invariant
                    self.wf(),
                    i < self.tasks@.len(),
                    deps@ == self.tasks@[i as int].dependencies@,
                    d < deps@.len(),
                    nm@ == deps@[d as int]@,
                    j <= self.tasks@.len(),
                    forall|j0: int|
                        0 <= j0 < j && (#[trigger] self.tasks@[j0]).name@ == nm@
                            ==> self.status@[j0] == TaskStatus::Completed,
                decreases self.tasks@.len() - j,
            {
                if self.tasks[j].name == *nm {
                    let st = self.status[j];
                    if !(st == TaskStatus::Completed) {
                        proof {
                            assert((self.tasks@[j as int]).name@ == nm@);
                            assert(self.status@[j as int] != TaskStatus::Completed);
                            assert(!self.dep_ok(nm@));
                            assert((self.tasks@[i as int].dependencies@[d as int])@ == nm@);
                        }
                        return false;
                    }
                }
                j = j + 1;
            }
            assert(self.dep_ok(nm@));
            d = d + 1;
        }
        assert forall|d0: int|
            0 <= d0 < self.tasks@[i as int].dependencies@.len() implies self.dep_ok(
            (#[trigger] self.tasks@[i as int].dependencies@[d0])@,
        ) by {
            assert(self.dep_ok((deps@[d0])@));
        }
        true
    }

    /// Indices of every task that may be dispatched now: pending, with all
    /// dependencies satisfied. Under fail-fast after a failure nothing is
    /// dispatched.
    pub fn ready_tasks(&self) -> (r: Vec<usize>)
        requires
            self.wf(),
        ensures
            forall|q: int| 0 <= q < r@.len() ==> #[trigger] r@[q] < self.tasks@.len(),
            self.fail_fast && self.failed ==> r@.len() == 0,
            forall|q: int| 0 <= q < r@.len() ==> self.ready(#[trigger] r@[q] as int),
            !(self.fail_fast && self.failed) ==> forall|i: usize|
                i < self.tasks@.len() && self.ready(i as int) ==> r@.contains(i),
    {
        let mut r: Vec<usize> = Vec::new();
        if self.fail_fast && self.failed {
            return r;
        }
        let mut i: usize = 0;
        while i < self.tasks.len()
            invariant
                self.wf(),
                i <= self.tasks@.len(),
                forall|q: int| 0 <= q < r@.len() ==> #[trigger] r@[q] < self.tasks@.len(),
                forall|q: int| 0 <= q < r@.len() ==> self.ready(#[trigger] r@[q] as int),
                forall|i0: usize| i0 < i && self.ready(i0 as int) ==> r@.contains(i0),
            decreases self.tasks@.len() - i,
        {
            let st = self.status[i];
            if st == TaskStatus::Pending && self.deps_satisfied(i) {
                let ghost pre = r@;
                r.push(i);
                proof {
                    assert(r@[r@.len() - 1] == i);
                    assert forall|i0: usize| i0 < i + 1 && self.ready(i0 as int) implies r@.contains(
                        i0,
                    ) by {
                        if i0 < i {
                            let q = choose|q: int| 0 <= q < pre.len() && pre[q] == i0;
                            assert(r@[q] == i0);
                        } else {
                            assert(r@[r@.len() - 1] == i0);
                        }
                    }
                }
            }
            i = i + 1;
        }
        r
    }

    /// Whether one more task may run without passing the concurrency bound.
    pub fn can_dispatch(&self) -> (r: bool)
        ensures
            r == (self.running < self.max_parallelism),
    {
        self.running < self.max_parallelism
    }

    /// Dispatch task `i`: it starts running. Only a ready task may start,
    /// only below the concurrency bound, and not after a failure under
    /// fail-fast.
    pub fn start_task(&mut self, i: usize)
        requires
            old(self).wf(),
            i < old(self).tasks@.len(),
            old(self).ready(i as int),
            old(self).running < old(self).max_parallelism,
            !(old(self).fail_fast && old(self).failed),
        ensures
            final(self).wf(),
            final(self).tasks@ == old(self).tasks@,
            final(self).status@ == old(self).status@.update(i as int, TaskStatus::Running),
            final(self).running == old(self).running + 1,
            final(self).failed == old(self).failed,
            final(self).fail_fast == old(self).fail_fast,
            final(self).max_parallelism == old(self).max_parallelism,
    {
        proof {
            lemma_count_running_update(self.status@, i as int, TaskStatus::Running);
        }
        self.status[i] = TaskStatus::Running;
        self.running = self.running + 1;
        proof {
            assert forall|i0: int, d: int|
                0 <= i0 < self.tasks@.len() && (self.status@[i0] == TaskStatus::Running
                    || self.status@[i0] == TaskStatus::Completed) && 0 <= d
                    < self.tasks@[i0].dependencies@.len() implies self.dep_ok(
                (#[trigger] self.tasks@[i0].dependencies@[d])@,
            ) by {
                let nm = self.tasks@[i0].dependencies@[d]@;
                if i0 == i {
                    assert(old(self).dep_ok(nm));
                } else {
                    assert(old(self).status@[i0] == self.status@[i0]);
                    assert(old(self).dep_ok(nm));
                }
                assert forall|j: int|
                    0 <= j < self.tasks@.len() && (#[trigger] self.tasks@[j]).name@
                        == nm implies self.status@[j] == TaskStatus::Completed by {
                    assert(old(self).status@[j] == TaskStatus::Completed);
                }
            }
            if old(self).failed {
                let iw = choose|iw: int|
                    0 <= iw < old(self).status@.len() && old(self).status@[iw]
                        == TaskStatus::Failed;
                assert(self.status@[iw] == TaskStatus::Failed);
            }
            assert forall|j: int|
                0 <= j < self.status@.len() && self.status@[j]
                    == TaskStatus::Failed implies self.failed by {
                assert(old(self).status@[j] == TaskStatus::Failed);
            }
        }
    }

    /// Record the outcome of a running task: completed on success, failed
    /// otherwise. A failure raises the failed flag.
    pub fn finish_task(&mut self, i: usize, success: bool)
        requires
            old(self).wf(),
            i < old(self).tasks@.len(),
            old(self).status@[i as int] == TaskStatus::Running,
        ensures
            final(self).wf(),
            final(self).tasks@ == old(self).tasks@,
            final(self).status@ == old(self).status@.update(
                i as int,
                if success {
                    TaskStatus::Completed
                } else {
                    TaskStatus::Failed
                },
            ),
            final(self).running == old(self).running - 1,
            final(self).failed == (old(self).failed || !success),
            final(self).fail_fast == old(self).fail_fast,
            final(self).max_parallelism == old(self).max_parallelism,
    {
        let new_status = if success {
            TaskStatus::Completed
        } else {
            TaskStatus::Failed
        };
        proof {
            lemma_count_running_update(self.status@, i as int, new_status);
            assert(count_running(self.status@) >= 1) by {
                lemma_count_running_update(self.status@, i as int, TaskStatus::Pending);
            }
        }
        self.status[i] = new_status;
        self.running = self.running - 1;
        if !success {
            self.failed = true;
        }
        proof {
            assert forall|i0: int, d: int|
                0 <= i0 < self.tasks@.len() && (self.status@[i0] == TaskStatus::Running
                    || self.status@[i0] == TaskStatus::Completed) && 0 <= d
                    < self.tasks@[i0].dependencies@.len() implies self.dep_ok(
                (#[trigger] self.tasks@[i0].dependencies@[d])@,
            ) by {
                let nm = self.tasks@[i0].dependencies@[d]@;
                if i0 == i {
                    assert(old(self).dep_ok(nm));
                } else {
                    assert(old(self).status@[i0] == self.status@[i0]);
                    assert(old(self).dep_ok(nm));
                }
                assert forall|j: int|
                    0 <= j < self.tasks@.len() && (#[trigger] self.tasks@[j]).name@
                        == nm implies self.status@[j] == TaskStatus::Completed by {
                    assert(old(self).status@[j] == TaskStatus::Completed);
                }
            }
            if self.failed && !(old(self).failed || !success) {
                assert(false);
            }
            if old(self).failed {
                let iw = choose|iw: int|
                    0 <= iw < old(self).status@.len() && old(self).status@[iw]
                        == TaskStatus::Failed;
                assert(self.status@[iw] == TaskStatus::Failed);
            }
            if !success {
                assert(self.status@[i as int] == TaskStatus::Failed);
            }
            assert forall|j: int|
                0 <= j < self.status@.len() && self.status@[j]
                    == TaskStatus::Failed implies self.failed by {
                if j != i {
                    assert(old(self).status@[j] == TaskStatus::Failed);
                }
            }
        }
    }

    /// Cancel a pending task after a failure under fail-fast.
    pub fn cancel_task(&mut self, i: usize)
        requires
            old(self).wf(),
            i < old(self).tasks@.len(),
            old(self).status@[i as int] == TaskStatus::Pending,
            old(self).failed,
            old(self).fail_fast,
        ensures
            final(self).wf(),
            final(self).tasks@ == old(self).tasks@,
            final(self).status@ == old(self).status@.update(i as int, TaskStatus::Cancelled),
            final(self).running == old(self).running,
            final(self).failed == old(self).failed,
            final(self).fail_fast == old(self).fail_fast,
            final(self).max_parallelism == old(self).max_parallelism,
    {
        proof {
            lemma_count_running_update(self.status@, i as int, TaskStatus::Cancelled);
        }
        self.status[i] = TaskStatus::Cancelled;
        proof {
            assert forall|i0: int, d: int|
                0 <= i0 < self.tasks@.len() && (self.status@[i0] == TaskStatus::Running
                    || self.status@[i0] == TaskStatus::Completed) && 0 <= d
                    < self.tasks@[i0].dependencies@.len() implies self.dep_ok(
                (#[trigger] self.tasks@[i0].dependencies@[d])@,
            ) by {
                let nm = self.tasks@[i0].dependencies@[d]@;
                assert(old(self).status@[i0] == self.status@[i0]);
                assert(old(self).dep_ok(nm));
                assert forall|j: int|
                    0 <= j < self.tasks@.len() && (#[trigger] self.tasks@[j]).name@
                        == nm implies self.status@[j] == TaskStatus::Completed by {
                    assert(old(self).status@[j] == TaskStatus::Completed);
                }
            }
            let iw = choose|iw: int|
                0 <= iw < old(self).status@.len() && old(self).status@[iw] == TaskStatus::Failed;
            assert(self.status@[iw] == TaskStatus::Failed);
            assert forall|j: int|
                0 <= j < self.status@.len() && self.status@[j]
                    == TaskStatus::Failed implies self.failed by {
                if j != i {
                    assert(old(self).status@[j] == TaskStatus::Failed);
                }
            }
        }
    }

    /// Status of one task.
    pub fn task_status(&self, i: usize) -> (r: TaskStatus)
        requires
            self.wf(),
            i < self.tasks@.len(),
        ensures
            r == self.status@[i as int],
    {
        self.status[i]
    }

    /// Whether no task is pending or running any more.
    pub fn is_done(&self) -> (r: bool)
        requires
            self.wf(),
        ensures
            r == forall|i: int|
                0 <= i < self.status@.len() ==> (#[trigger] self.status@[i]
                    != TaskStatus::Pending && self.status@[i] != TaskStatus::Running),
    {
        let mut i: usize = 0;
        while i < self.status.len()
            invariant
                self.wf(),
                i <= self.status@.len(),
                forall|j: int|
                    0 <= j < i ==> (#[trigger] self.status@[j] != TaskStatus::Pending
                        && self.status@[j] != TaskStatus::Running),
            decreases self.status@.len() - i,
        {
            let st = self.status[i];
            if st == TaskStatus::Pending || st == TaskStatus::Running {
                return false;
            }
            i = i + 1;
        }
        true
    }
}

/// At no instant do more tasks run than the configured bound allows.
pub proof fn law_concurrency_bound(s: SchedulerState)
    requires
        s.wf(),
    ensures
        count_running(s.status@) <= s.max_parallelism,
{
}

/// A task runs or has completed only when every present task its dependency
/// list names has completed: dispatch strictly follows the completion of
/// dependencies.
pub proof fn law_dependency_precedence(s: SchedulerState, i: int, d: int, j: int)
    requires
        s.wf(),
        0 <= i < s.tasks@.len(),
        s.status@[i] == TaskStatus::Running || s.status@[i] == TaskStatus::Completed,
        0 <= d < s.tasks@[i].dependencies@.len(),
        0 <= j < s.tasks@.len(),
        s.tasks@[j].name@ == s.tasks@[i].dependencies@[d]@,
    ensures
        s.status@[j] == TaskStatus::Completed,
{
    assert(s.dep_ok(s.tasks@[i].dependencies@[d]@));
}

/// Whether some manifest carries the given package name.
pub open spec fn some_manifest_named(ms: Seq<PackageManifest>, nm: Seq<char>) -> bool {
    exists|j: int| 0 <= j < ms.len() && (#[trigger] ms[j]).name@ == nm
}

/// The declared dependencies that name a workspace package, in declaration
/// order.
pub open spec fn local_deps(deps: Seq<String>, ms: Seq<PackageManifest>) -> Seq<Seq<char>>
    decreases deps,
{
    if deps.len() == 0 {
        Seq::empty()
    } else {
        (if some_manifest_named(ms, deps[0]@) {
            seq![deps[0]@]
        } else {
            Seq::empty()
        }) + local_deps(deps.drop_first(), ms)
    }
}

/// Appending a dependency extends the filtered list at the end.
proof fn lemma_local_deps_push(deps: Seq<String>, x: String, ms: Seq<PackageManifest>)
    ensures
        local_deps(deps.push(x), ms) == local_deps(deps, ms) + (if some_manifest_named(ms, x@) {
            seq![x@]
        } else {
            Seq::<Seq<char>>::empty()
        }),
    decreases deps.len(),
{
    if deps.len() == 0 {
        assert(deps.push(x)[0] == x);
        assert(deps.push(x).drop_first() =~= Seq::<String>::empty());
        assert(deps.push(x).len() == 1);
        assert(local_deps(deps.push(x), ms) == (if some_manifest_named(ms, deps.push(x)[0]@) {
            seq![deps.push(x)[0]@]
        } else {
            Seq::<Seq<char>>::empty()
        }) + local_deps(deps.push(x).drop_first(), ms));
        assert(local_deps(Seq::<String>::empty(), ms) == Seq::<Seq<char>>::empty());
        assert(local_deps(deps.push(x), ms) =~= local_deps(deps, ms) + (if some_manifest_named(
            ms,
            x@,
        ) {
            seq![x@]
        } else {
            Seq::<Seq<char>>::empty()
        }));
    } else {
        assert(deps.push(x)[0] == deps[0]);
        assert(deps.push(x).drop_first() =~= deps.drop_first().push(x));
        lemma_local_deps_push(deps.drop_first(), x, ms);
        assert(local_deps(deps.push(x), ms) =~= local_deps(deps, ms) + (if some_manifest_named(
            ms,
            x@,
        ) {
            seq![x@]
        } else {
            Seq::<Seq<char>>::empty()
        }));
    }
}

/// One scheduler task per discovered package: its name, and exactly its
/// dependencies that name another discovered package, since a dependency on
/// anything outside the workspace never blocks a task.
#[verifier::loop_isolation(false)]
pub fn plan_from_manifests(manifests: &Vec<PackageManifest>) -> (r: Vec<SchedulerTask>)
    ensures
        r@.len() == manifests@.len(),
        forall|i: int| 0 <= i < r@.len() ==> (#[trigger] r@[i]).name@ == manifests@[i].name@,
        forall|i: int|
            0 <= i < r@.len() ==> crate::symbols::strs_view((#[trigger] r@[i]).dependencies@)
                == local_deps(manifests@[i].deps@, manifests@),
{
    let mut r: Vec<SchedulerTask> = Vec::new();
    let mut i: usize = 0;
    while i < manifests.len()
        invariant
            i <= manifests@.len(),
            r@.len() == i,
            forall|i0: int| 0 <= i0 < i ==> (#[trigger] r@[i0]).name@ == manifests@[i0].name@,
            forall|i0: int|
                0 <= i0 < i ==> crate::symbols::strs_view((#[trigger] r@[i0]).dependencies@)
                    == local_deps(manifests@[i0].deps@, manifests@),
        decreases manifests@.len() - i,
    {
        let m = &manifests[i];
        let mut deps: Vec<String> = Vec::new();
        proof {
            assert(m.deps@.subrange(0, 0) =~= Seq::<String>::empty());
            assert(crate::symbols::strs_view(deps@) =~= local_deps(
                m.deps@.subrange(0, 0),
                manifests@,
            ));
        }
        let mut d: usize = 0;
        while d < m.deps.len()
            invariant
                d <= m.deps@.len(),
                crate::symbols::strs_view(deps@) == local_deps(
                    m.deps@.subrange(0, d as int),
                    manifests@,
                ),
            decreases m.deps@.len() - d,
        {
            let ghost pre = deps@;
            let mut known: bool = false;
            let mut j: usize = 0;
            while j < manifests.len()
                invariant
                    j <= manifests@.len(),
                    d < m.deps@.len(),
                    known == exists|j0: int|
                        0 <= j0 < j && (#[trigger] manifests@[j0]).name@ == m.deps@[d as int]@,
                decreases manifests@.len() - j,
            {
                if manifests[j].name == m.deps[d] {
                    known = true;
                    proof {
                        assert((manifests@[j as int]).name@ == m.deps@[d as int]@);
                    }
                }
                j = j + 1;
            }
            if known {
                deps.push(m.deps[d].clone());
            }
            proof {
                let sub = m.deps@.subrange(0, d + 1);
                assert(sub =~= m.deps@.subrange(0, d as int).push(m.deps@[d as int]));
                lemma_local_deps_push(m.deps@.subrange(0, d as int), m.deps@[d as int], manifests@);
                assert(known == some_manifest_named(manifests@, m.deps@[d as int]@));
                if known {
                    assert(crate::symbols::strs_view(deps@) =~= crate::symbols::strs_view(
                        pre,
                    ).push(m.deps@[d as int]@));
                }
                assert(crate::symbols::strs_view(deps@) =~= local_deps(sub, manifests@));
            }
            d = d + 1;
        }
        proof {
            assert(m.deps@.subrange(0, m.deps@.len() as int) =~= m.deps@);
        }
        let t = SchedulerTask::new(m.name.clone(), deps);
        r.push(t);
        i = i + 1;
    }
    r
}

} // verus!
