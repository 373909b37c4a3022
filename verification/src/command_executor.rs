//! The execution engine: plans the strictly sequential order in which the
//! configured commands run, decides which invocations are measured, and
//! accumulates one record per successful measured repetition.

use vstd::prelude::*;

use crate::config::{Task, TaskGroup, TaskGroupView, TaskView};

verus! {

/// The ways a run can fail. Every one of them is fatal: the run stops at
/// the first failure and no further command is started.
#[derive(Clone, Copy, Debug, PartialEq, Eq)]
pub enum EngineError {
    /// A process could not be created (bad executable, permissions).
    SpawnFailure,
    /// Captured child output was not valid text (quiet mode only).
    OutputDecodeFailure,
    /// A task's measured command has an empty argv; unlike a helper
    /// command, a measured command is the task's whole purpose.
    MalformedMeasuredCommand,
}

/// One entry of the execution plan: a command to spawn, in order. Helper
/// invocations (initialization, cleanup, setup, teardown) are unmeasured;
/// measured invocations are timed and carry the group name their record
/// will be filed under.
pub enum PlannedCommand {
    Helper { argv: Vec<String> },
    Measured { group_name: String, argv: Vec<String> },
}

/// Mathematical model of a plan entry.
#[verifier::ext_equal]
pub ghost enum PlannedCommandView {
    Helper { argv: Seq<Seq<char>> },
    Measured { group_name: Seq<char>, argv: Seq<Seq<char>> },
}

impl DeepView for PlannedCommand {
    type V = PlannedCommandView;

    open spec fn deep_view(&self) -> PlannedCommandView {
        match self {
            PlannedCommand::Helper { argv } => PlannedCommandView::Helper {
                argv: argv.deep_view(),
            },
            PlannedCommand::Measured { group_name, argv } => PlannedCommandView::Measured {
                group_name: group_name@,
                argv: argv.deep_view(),
            },
        }
    }
}

/// A helper command is absent when its argv is empty or names no
/// executable; an absent helper is a valid no-op, not an error.
pub open spec fn helper_absent(argv: Seq<Seq<char>>) -> bool {
    argv.len() == 0 || argv[0].len() == 0
}

/// The plan contribution of one helper command: nothing when absent, one
/// unmeasured invocation otherwise.
pub open spec fn helper_plan(argv: Seq<Seq<char>>) -> Seq<PlannedCommandView> {
    if helper_absent(argv) {
        Seq::empty()
    } else {
        seq![PlannedCommandView::Helper { argv }]
    }
}

/// `count` measured invocations of one task's command, each filed under
/// `group_name`.
pub open spec fn measured_plan(group_name: Seq<char>, command: Seq<Seq<char>>, count: nat) -> Seq<
    PlannedCommandView,
> {
    Seq::new(count, |i: int| PlannedCommandView::Measured { group_name: group_name, argv: command })
}

/// The plan contribution of one task: setup once, the measured command
/// `repetition_count` times, teardown once.
pub open spec fn task_plan(group_name: Seq<char>, task: TaskView) -> Seq<PlannedCommandView> {
    helper_plan(task.setup_command) + measured_plan(group_name, task.command, task.repetition_count)
        + helper_plan(task.tear_down_command)
}

/// The plan contribution of a sequence of tasks, in declared order.
pub open spec fn tasks_plan(group_name: Seq<char>, tasks: Seq<TaskView>) -> Seq<PlannedCommandView>
    decreases tasks.len(),
{
    if tasks.len() == 0 {
        Seq::empty()
    } else {
        task_plan(group_name, tasks[0]) + tasks_plan(group_name, tasks.skip(1))
    }
}

/// The plan contribution of one group: initialization once, its tasks in
/// declared order, cleanup once.
pub open spec fn group_plan(g: TaskGroupView) -> Seq<PlannedCommandView> {
    helper_plan(g.initialization_command) + tasks_plan(g.name, g.tasks) + helper_plan(
        g.cleanup_command,
    )
}

/// The whole execution plan: the groups' contributions in declared order.
pub open spec fn groups_plan(gs: Seq<TaskGroupView>) -> Seq<PlannedCommandView>
    decreases gs.len(),
{
    if gs.len() == 0 {
        Seq::empty()
    } else {
        group_plan(gs[0]) + groups_plan(gs.skip(1))
    }
}

/// Every task of the group names an executable in its measured command.
pub open spec fn group_tasks_have_commands(g: TaskGroupView) -> bool {
    forall|j: int| 0 <= j < g.tasks.len() ==> (#[trigger] g.tasks[j]).command.len() > 0
}

/// Every task of every group names an executable in its measured command.
pub open spec fn all_tasks_have_commands(gs: Seq<TaskGroupView>) -> bool {
    forall|i: int| 0 <= i < gs.len() ==> group_tasks_have_commands(#[trigger] gs[i])
}

/// How many measured invocations a sequence of tasks contributes: the sum
/// of their repetition counts.
pub open spec fn tasks_measured_count(ts: Seq<TaskView>) -> nat
    decreases ts.len(),
{
    if ts.len() == 0 {
        0
    } else {
        ts[0].repetition_count + tasks_measured_count(ts.skip(1))
    }
}

/// How many measured invocations one group contributes.
pub open spec fn group_measured_count(g: TaskGroupView) -> nat {
    tasks_measured_count(g.tasks)
}

/// How many measured invocations the whole configuration contributes.
pub open spec fn total_measured_count(gs: Seq<TaskGroupView>) -> nat
    decreases gs.len(),
{
    if gs.len() == 0 {
        0
    } else {
        group_measured_count(gs[0]) + total_measured_count(gs.skip(1))
    }
}

/// The records produced by the repetitions of one measured command, given
/// one clock outcome per repetition, in repetition order. A repetition
/// whose clock could not produce a duration (`None`) contributes no
/// record; the others contribute exactly one each.
pub open spec fn repetition_records(
    group_name: Seq<char>,
    command_name: Seq<char>,
    ms: Seq<Option<i64>>,
) -> Seq<ExecutionRecordView>
    decreases ms.len(),
{
    if ms.len() == 0 {
        Seq::empty()
    } else {
        (match ms[0] {
            Some(n) => seq![
                ExecutionRecordView {
                    group_name: group_name,
                    command_name: command_name,
                    execution_time: n as int,
                },
            ],
            None => Seq::empty(),
        }) + repetition_records(group_name, command_name, ms.skip(1))
    }
}

/// The records of a sequence of tasks, in task order; each task consumes
/// the clock outcomes of its own repetitions, in order.
pub open spec fn tasks_records(
    group_name: Seq<char>,
    ts: Seq<TaskView>,
    ms: Seq<Option<i64>>,
) -> Seq<ExecutionRecordView>
    decreases ts.len(),
{
    if ts.len() == 0 {
        Seq::empty()
    } else {
        let k = ts[0].repetition_count as int;
        repetition_records(group_name, ts[0].command[0], ms.take(k)) + tasks_records(
            group_name,
            ts.skip(1),
            ms.skip(k),
        )
    }
}

/// The records of one group: its tasks' records under the group's name.
pub open spec fn group_records(g: TaskGroupView, ms: Seq<Option<i64>>) -> Seq<
    ExecutionRecordView,
> {
    tasks_records(g.name, g.tasks, ms)
}

/// The records of a whole run, in group order, then task order, then
/// repetition order; the clock outcomes are consumed in that same order.
pub open spec fn run_records(gs: Seq<TaskGroupView>, ms: Seq<Option<i64>>) -> Seq<
    ExecutionRecordView,
>
    decreases gs.len(),
{
    if gs.len() == 0 {
        Seq::empty()
    } else {
        let k = group_measured_count(gs[0]) as int;
        group_records(gs[0], ms.take(k)) + run_records(gs.skip(1), ms.skip(k))
    }
}

/// How many of a sequence of clock outcomes carry a duration.
pub open spec fn available_count(ms: Seq<Option<i64>>) -> nat
    decreases ms.len(),
{
    if ms.len() == 0 {
        0
    } else {
        (if ms[0] is Some {
            1nat
        } else {
            0nat
        }) + available_count(ms.skip(1))
    }
}

/// Law: one task's repetitions produce exactly one record per repetition
/// whose clock outcome was available; a repetition whose clock could not
/// produce a duration is skipped, and nothing else is.
pub proof fn lemma_repetition_record_count(
    group_name: Seq<char>,
    command_name: Seq<char>,
    ms: Seq<Option<i64>>,
)
    ensures
        repetition_records(group_name, command_name, ms).len() == available_count(ms),
    decreases ms.len(),
{
    if ms.len() != 0 {
        lemma_repetition_record_count(group_name, command_name, ms.skip(1));
    }
}

/// Law: when every repetition's clock outcome is available, a task
/// produces exactly one record per repetition: as many records as its
/// repetition count asked for.
pub proof fn lemma_all_available_record_count(
    group_name: Seq<char>,
    command_name: Seq<char>,
    ms: Seq<Option<i64>>,
)
    requires
        forall|k: int| 0 <= k < ms.len() ==> (#[trigger] ms[k]) is Some,
    ensures
        repetition_records(group_name, command_name, ms).len() == ms.len(),
    decreases ms.len(),
{
    if ms.len() != 0 {
        assert(forall|k: int| 0 <= k < ms.skip(1).len() ==> (#[trigger] ms.skip(1)[k]) is Some);
        lemma_all_available_record_count(group_name, command_name, ms.skip(1));
    }
}

/// Law: counting measured invocations distributes over any split of the
/// group sequence.
pub proof fn lemma_measured_count_split(gs: Seq<TaskGroupView>, i: int)
    requires
        0 <= i <= gs.len(),
    ensures
        total_measured_count(gs) == total_measured_count(gs.take(i)) + total_measured_count(
            gs.skip(i),
        ),
    decreases i,
{
    if i == 0 {
        assert(gs.take(0) =~= Seq::<TaskGroupView>::empty());
        assert(gs.skip(0) =~= gs);
    } else {
        lemma_measured_count_split(gs.skip(1), i - 1);
        assert(gs.skip(1).take(i - 1) =~= gs.take(i).skip(1));
        assert(gs.skip(1).skip(i - 1) =~= gs.skip(i));
        assert(gs.take(i)[0] == gs[0]);
        assert(total_measured_count(gs.take(i)) == group_measured_count(gs[0])
            + total_measured_count(gs.take(i).skip(1)));
        assert(total_measured_count(gs) == group_measured_count(gs[0]) + total_measured_count(
            gs.skip(1),
        ));
    }
}

/// Law: the records of a run are ordered by group declaration. However
/// the group sequence is split, the records of the leading groups come
/// first, produced from the leading clock outcomes, and the records of
/// the remaining groups follow, produced from the remaining outcomes.
/// Within each group the definitions of `tasks_records` and
/// `repetition_records` concatenate in task order and repetition order.
pub proof fn lemma_run_records_group_order(gs: Seq<TaskGroupView>, ms: Seq<Option<i64>>, i: int)
    requires
        0 <= i <= gs.len(),
        ms.len() == total_measured_count(gs),
    ensures
        run_records(gs, ms) == run_records(
            gs.take(i),
            ms.take(total_measured_count(gs.take(i)) as int),
        ) + run_records(gs.skip(i), ms.skip(total_measured_count(gs.take(i)) as int)),
    decreases i,
{
    let c = total_measured_count(gs.take(i)) as int;
    lemma_measured_count_split(gs, i);
    if i == 0 {
        assert(gs.take(0) =~= Seq::<TaskGroupView>::empty());
        assert(ms.take(0) =~= Seq::<Option<i64>>::empty());
        assert(gs.skip(0) =~= gs);
        assert(ms.skip(0) =~= ms);
        assert(Seq::<ExecutionRecordView>::empty() + run_records(gs, ms) =~= run_records(gs, ms));
    } else {
        let k0 = group_measured_count(gs[0]) as int;
        let c1 = total_measured_count(gs.take(i).skip(1)) as int;
        assert(gs.take(i)[0] == gs[0]);
        assert(gs.skip(1).take(i - 1) =~= gs.take(i).skip(1));
        assert(gs.skip(1).skip(i - 1) =~= gs.skip(i));
        assert(total_measured_count(gs.take(i)) == group_measured_count(gs[0])
            + total_measured_count(gs.take(i).skip(1)));
        assert(total_measured_count(gs) == group_measured_count(gs[0]) + total_measured_count(
            gs.skip(1),
        ));
        lemma_run_records_group_order(gs.skip(1), ms.skip(k0), i - 1);
        let a = group_records(gs[0], ms.take(k0));
        let b1 = run_records(gs.take(i).skip(1), ms.skip(k0).take(c1));
        let b2 = run_records(gs.skip(i), ms.skip(k0).skip(c1));
        assert(run_records(gs.skip(1), ms.skip(k0)) == b1 + b2);
        assert(run_records(gs, ms) == a + (b1 + b2));
        assert(ms.take(c).take(k0) =~= ms.take(k0));
        assert(ms.take(c).skip(k0) =~= ms.skip(k0).take(c1));
        assert(ms.skip(k0).skip(c1) =~= ms.skip(c));
        assert(run_records(gs.take(i), ms.take(c)) == group_records(
            gs.take(i)[0],
            ms.take(c).take(k0),
        ) + run_records(gs.take(i).skip(1), ms.take(c).skip(k0)));
        assert(run_records(gs.take(i), ms.take(c)) == a + b1);
        assert((a + b1) + b2 =~= a + (b1 + b2));
    }
}

/// Law: counting measured invocations distributes over any split of a
/// group's task sequence.
pub proof fn lemma_tasks_measured_count_split(ts: Seq<TaskView>, i: int)
    requires
        0 <= i <= ts.len(),
    ensures
        tasks_measured_count(ts) == tasks_measured_count(ts.take(i)) + tasks_measured_count(
            ts.skip(i),
        ),
    decreases i,
{
    if i == 0 {
        assert(ts.take(0) =~= Seq::<TaskView>::empty());
        assert(ts.skip(0) =~= ts);
    } else {
        lemma_tasks_measured_count_split(ts.skip(1), i - 1);
        assert(ts.skip(1).take(i - 1) =~= ts.take(i).skip(1));
        assert(ts.skip(1).skip(i - 1) =~= ts.skip(i));
        assert(ts.take(i)[0] == ts[0]);
        assert(tasks_measured_count(ts.take(i)) == ts[0].repetition_count + tasks_measured_count(
            ts.take(i).skip(1),
        ));
        assert(tasks_measured_count(ts) == ts[0].repetition_count + tasks_measured_count(
            ts.skip(1),
        ));
    }
}

/// Law: within one group the records are ordered by task declaration:
/// however the task sequence is split, the records of the leading tasks
/// come first, produced from the leading clock outcomes.
pub proof fn lemma_tasks_records_task_order(
    group_name: Seq<char>,
    ts: Seq<TaskView>,
    ms: Seq<Option<i64>>,
    i: int,
)
    requires
        0 <= i <= ts.len(),
        ms.len() == tasks_measured_count(ts),
    ensures
        tasks_records(group_name, ts, ms) == tasks_records(
            group_name,
            ts.take(i),
            ms.take(tasks_measured_count(ts.take(i)) as int),
        ) + tasks_records(group_name, ts.skip(i), ms.skip(tasks_measured_count(ts.take(i)) as int)),
    decreases i,
{
    let c = tasks_measured_count(ts.take(i)) as int;
    lemma_tasks_measured_count_split(ts, i);
    if i == 0 {
        assert(ts.take(0) =~= Seq::<TaskView>::empty());
        assert(ms.take(0) =~= Seq::<Option<i64>>::empty());
        assert(ts.skip(0) =~= ts);
        assert(ms.skip(0) =~= ms);
        assert(Seq::<ExecutionRecordView>::empty() + tasks_records(group_name, ts, ms)
            =~= tasks_records(group_name, ts, ms));
    } else {
        let k0 = ts[0].repetition_count as int;
        let c1 = tasks_measured_count(ts.take(i).skip(1)) as int;
        assert(ts.take(i)[0] == ts[0]);
        assert(ts.skip(1).take(i - 1) =~= ts.take(i).skip(1));
        assert(ts.skip(1).skip(i - 1) =~= ts.skip(i));
        assert(tasks_measured_count(ts.take(i)) == ts[0].repetition_count + tasks_measured_count(
            ts.take(i).skip(1),
        ));
        assert(tasks_measured_count(ts) == ts[0].repetition_count + tasks_measured_count(
            ts.skip(1),
        ));
        lemma_tasks_records_task_order(group_name, ts.skip(1), ms.skip(k0), i - 1);
        let a = repetition_records(group_name, ts[0].command[0], ms.take(k0));
        let b1 = tasks_records(group_name, ts.take(i).skip(1), ms.skip(k0).take(c1));
        let b2 = tasks_records(group_name, ts.skip(i), ms.skip(k0).skip(c1));
        assert(tasks_records(group_name, ts.skip(1), ms.skip(k0)) == b1 + b2);
        assert(tasks_records(group_name, ts, ms) == a + (b1 + b2));
        assert(ms.take(c).take(k0) =~= ms.take(k0));
        assert(ms.take(c).skip(k0) =~= ms.skip(k0).take(c1));
        assert(ms.skip(k0).skip(c1) =~= ms.skip(c));
        assert(tasks_records(group_name, ts.take(i), ms.take(c)) == repetition_records(
            group_name,
            ts.take(i)[0].command[0],
            ms.take(c).take(k0),
        ) + tasks_records(group_name, ts.take(i).skip(1), ms.take(c).skip(k0)));
        assert(tasks_records(group_name, ts.take(i), ms.take(c)) == a + b1);
        assert((a + b1) + b2 =~= a + (b1 + b2));
    }
}

/// Every helper entry of a plan names an executable: no plan step ever
/// spawns an absent helper command.
pub open spec fn plan_helpers_present(p: Seq<PlannedCommandView>) -> bool {
    forall|i: int|
        0 <= i < p.len() ==> ((#[trigger] p[i]) matches PlannedCommandView::Helper { argv }
            ==> !helper_absent(argv))
}

/// Law: a helper command with an empty argv, or with an empty executable
/// name, never results in a process invocation: the plan holds no such
/// step, for any configuration.
pub proof fn lemma_no_absent_helper_planned(gs: Seq<TaskGroupView>)
    ensures
        plan_helpers_present(groups_plan(gs)),
    decreases gs.len(),
{
    if gs.len() == 0 {
    } else {
        lemma_no_absent_helper_planned(gs.skip(1));
        lemma_group_plan_helpers_present(gs[0]);
        let p = groups_plan(gs);
        let a = group_plan(gs[0]);
        let b = groups_plan(gs.skip(1));
        assert forall|i: int|
            0 <= i < p.len() implies ((#[trigger] p[i]) matches PlannedCommandView::Helper { argv }
            ==> !helper_absent(argv)) by {
            if i < a.len() {
                assert(p[i] == a[i]);
            } else {
                assert(p[i] == b[i - a.len()]);
            }
        }
    }
}

/// Every helper entry of one group's plan names an executable.
proof fn lemma_group_plan_helpers_present(g: TaskGroupView)
    ensures
        plan_helpers_present(group_plan(g)),
{
    lemma_tasks_plan_helpers_present(g.name, g.tasks);
    let p = group_plan(g);
    let a = helper_plan(g.initialization_command);
    let b = tasks_plan(g.name, g.tasks);
    let c = helper_plan(g.cleanup_command);
    assert forall|i: int|
        0 <= i < p.len() implies ((#[trigger] p[i]) matches PlannedCommandView::Helper { argv }
        ==> !helper_absent(argv)) by {
        if i < a.len() {
            assert(p[i] == a[i]);
        } else if i < a.len() + b.len() {
            assert(p[i] == b[i - a.len()]);
        } else {
            assert(p[i] == c[i - a.len() - b.len()]);
        }
    }
}

/// Every helper entry of a task sequence's plan names an executable.
proof fn lemma_tasks_plan_helpers_present(group_name: Seq<char>, ts: Seq<TaskView>)
    ensures
        plan_helpers_present(tasks_plan(group_name, ts)),
    decreases ts.len(),
{
    if ts.len() == 0 {
    } else {
        lemma_tasks_plan_helpers_present(group_name, ts.skip(1));
        let p = tasks_plan(group_name, ts);
        let t = ts[0];
        let a = helper_plan(t.setup_command);
        let m = measured_plan(group_name, t.command, t.repetition_count);
        let c = helper_plan(t.tear_down_command);
        let b = tasks_plan(group_name, ts.skip(1));
        assert forall|i: int|
            0 <= i < p.len() implies ((#[trigger] p[i]) matches PlannedCommandView::Helper { argv }
            ==> !helper_absent(argv)) by {
            if i < a.len() {
                assert(p[i] == a[i]);
            } else if i < a.len() + m.len() {
                assert(p[i] == m[i - a.len()]);
            } else if i < a.len() + m.len() + c.len() {
                assert(p[i] == c[i - a.len() - m.len()]);
            } else {
                assert(p[i] == b[i - a.len() - m.len() - c.len()]);
            }
        }
    }
}

/// How many of a plan's steps are measured invocations.
pub open spec fn measured_step_count(p: Seq<PlannedCommandView>) -> nat
    decreases p.len(),
{
    if p.len() == 0 {
        0
    } else {
        (if p[0] is Measured {
            1nat
        } else {
            0nat
        }) + measured_step_count(p.skip(1))
    }
}

/// Counting measured steps distributes over concatenation of plans.
proof fn lemma_measured_step_count_concat(a: Seq<PlannedCommandView>, b: Seq<PlannedCommandView>)
    ensures
        measured_step_count(a + b) == measured_step_count(a) + measured_step_count(b),
    decreases a.len(),
{
    if a.len() == 0 {
        assert(a + b =~= b);
    } else {
        lemma_measured_step_count_concat(a.skip(1), b);
        assert((a + b)[0] == a[0]);
        assert((a + b).skip(1) =~= a.skip(1) + b);
        assert(measured_step_count(a + b) == (if (a + b)[0] is Measured {
            1nat
        } else {
            0nat
        }) + measured_step_count((a + b).skip(1)));
    }
}

/// A task's measured entries number exactly its repetition count.
proof fn lemma_measured_plan_count(group_name: Seq<char>, command: Seq<Seq<char>>, count: nat)
    ensures
        measured_step_count(measured_plan(group_name, command, count)) == count,
    decreases count,
{
    let p = measured_plan(group_name, command, count);
    if count == 0 {
        assert(p =~= Seq::<PlannedCommandView>::empty());
    } else {
        lemma_measured_plan_count(group_name, command, (count - 1) as nat);
        assert(p.skip(1) =~= measured_plan(group_name, command, (count - 1) as nat));
        assert(p[0] is Measured);
    }
}

/// A helper contributes no measured entry.
proof fn lemma_helper_plan_count(argv: Seq<Seq<char>>)
    ensures
        measured_step_count(helper_plan(argv)) == 0,
{
    if !helper_absent(argv) {
        let p = helper_plan(argv);
        assert(p[0] == (PlannedCommandView::Helper { argv }));
        assert(p.skip(1) =~= Seq::<PlannedCommandView>::empty());
        assert(measured_step_count(p) == measured_step_count(p.skip(1)));
    }
}

/// A task sequence's measured entries number the sum of its repetition
/// counts.
proof fn lemma_tasks_plan_measured_count(group_name: Seq<char>, ts: Seq<TaskView>)
    ensures
        measured_step_count(tasks_plan(group_name, ts)) == tasks_measured_count(ts),
    decreases ts.len(),
{
    if ts.len() != 0 {
        lemma_tasks_plan_measured_count(group_name, ts.skip(1));
        let t = ts[0];
        lemma_helper_plan_count(t.setup_command);
        lemma_helper_plan_count(t.tear_down_command);
        lemma_measured_plan_count(group_name, t.command, t.repetition_count);
        lemma_measured_step_count_concat(
            helper_plan(t.setup_command),
            measured_plan(group_name, t.command, t.repetition_count),
        );
        lemma_measured_step_count_concat(
            helper_plan(t.setup_command) + measured_plan(group_name, t.command, t.repetition_count),
            helper_plan(t.tear_down_command),
        );
        lemma_measured_step_count_concat(task_plan(group_name, t), tasks_plan(group_name, ts.skip(1)));
    }
}

/// Law: the plan holds exactly one measured step per counted repetition,
/// so a runner that follows the plan and hands back one clock outcome per
/// measured step produces exactly as many outcomes as the engine's replay
/// consumes.
pub proof fn lemma_plan_measured_count(gs: Seq<TaskGroupView>)
    ensures
        measured_step_count(groups_plan(gs)) == total_measured_count(gs),
    decreases gs.len(),
{
    if gs.len() != 0 {
        lemma_plan_measured_count(gs.skip(1));
        let g = gs[0];
        lemma_helper_plan_count(g.initialization_command);
        lemma_helper_plan_count(g.cleanup_command);
        lemma_tasks_plan_measured_count(g.name, g.tasks);
        lemma_measured_step_count_concat(
            helper_plan(g.initialization_command),
            tasks_plan(g.name, g.tasks),
        );
        lemma_measured_step_count_concat(
            helper_plan(g.initialization_command) + tasks_plan(g.name, g.tasks),
            helper_plan(g.cleanup_command),
        );
        lemma_measured_step_count_concat(group_plan(g), groups_plan(gs.skip(1)));
    }
}

/// Law: a task whose repetition count is zero contributes no measured
/// invocation and no record, but its setup and teardown helpers are still
/// planned exactly once each.
pub proof fn lemma_zero_repetition_task(group_name: Seq<char>, t: TaskView)
    requires
        t.repetition_count == 0,
    ensures
        task_plan(group_name, t) == helper_plan(t.setup_command) + helper_plan(t.tear_down_command),
        tasks_records(group_name, seq![t], Seq::<Option<i64>>::empty()) == Seq::<
            ExecutionRecordView,
        >::empty(),
{
    assert(measured_plan(group_name, t.command, 0) =~= Seq::<PlannedCommandView>::empty());
    assert(helper_plan(t.setup_command) + Seq::<PlannedCommandView>::empty() + helper_plan(
        t.tear_down_command,
    ) =~= helper_plan(t.setup_command) + helper_plan(t.tear_down_command));
    let ms = Seq::<Option<i64>>::empty();
    assert(ms.take(0) =~= ms);
    assert(ms.skip(0) =~= ms);
    assert(seq![t][0] == t);
    assert(seq![t].skip(1) =~= Seq::<TaskView>::empty());
    assert(tasks_records(group_name, seq![t], ms) == repetition_records(
        group_name,
        t.command[0],
        ms.take(0),
    ) + tasks_records(group_name, seq![t].skip(1), ms.skip(0)));
    assert(tasks_records(group_name, seq![t], ms) =~= Seq::<ExecutionRecordView>::empty());
}

/// Law: when the first group declares an initialization command, that
/// command is the very first step of the plan, and every measured step
/// lies strictly after it. A run that aborts on a spawn failure there has
/// executed no measured step, so it has produced no record for any group.
pub proof fn lemma_first_init_precedes_everything(gs: Seq<TaskGroupView>)
    requires
        gs.len() > 0,
        !helper_absent(gs[0].initialization_command),
    ensures
        groups_plan(gs).len() > 0,
        groups_plan(gs)[0] == (PlannedCommandView::Helper { argv: gs[0].initialization_command }),
        forall|i: int|
            (0 <= i < groups_plan(gs).len() && (#[trigger] groups_plan(gs)[i]) is Measured) ==> i
                >= 1,
{
    let a = helper_plan(gs[0].initialization_command);
    assert(a == seq![PlannedCommandView::Helper { argv: gs[0].initialization_command }]);
    assert(groups_plan(gs) == group_plan(gs[0]) + groups_plan(gs.skip(1)));
    assert(group_plan(gs[0])[0] == a[0]);
    assert(groups_plan(gs)[0] == a[0]);
}

/// An element-wise copy of an argv; the copy models to the same sequence
/// of strings.
fn clone_argv(argv: &Vec<String>) -> (r: Vec<String>)
    ensures
        r.deep_view() == argv.deep_view(),
{
    let mut r: Vec<String> = Vec::new();
    let mut i: usize = 0;
    while i < argv.len()
        invariant
            i <= argv.len(),
            r@ =~= argv@.take(i as int),
        decreases argv.len() - i,
    {
        r.push(argv[i].clone());
        i += 1;
        proof {
            assert(r@ =~= argv@.take(i as int));
        }
    }
    proof {
        assert(r@ =~= argv@);
        assert(r.deep_view() =~= argv.deep_view());
    }
    r
}

/// Appends one entry to a plan; the plan's model grows by exactly that
/// entry's model.
fn push_planned(plan: &mut Vec<PlannedCommand>, cmd: PlannedCommand)
    ensures
        final(plan).deep_view() == old(plan).deep_view().push(cmd.deep_view()),
{
    let ghost pre = plan.deep_view();
    let ghost prev = plan@;
    let ghost cv = cmd.deep_view();
    plan.push(cmd);
    proof {
        assert(plan.deep_view().len() == pre.len() + 1);
        assert forall|k: int| 0 <= k < plan.deep_view().len() implies plan.deep_view()[k]
            == pre.push(cv)[k] by {
            if k < pre.len() {
                assert(plan@[k] == prev[k]);
                assert(pre[k] == prev[k].deep_view());
            } else {
                assert(plan@[k].deep_view() == cv);
            }
        }
        assert(plan.deep_view() =~= pre.push(cv));
    }
}

/// Plans one helper command: skipped entirely when absent (empty argv or
/// empty executable name), appended as one unmeasured invocation otherwise.
fn plan_helper_command(plan: &mut Vec<PlannedCommand>, helper_command: &Vec<String>)
    ensures
        final(plan).deep_view() == old(plan).deep_view() + helper_plan(helper_command.deep_view()),
{
    if helper_command.len() > 0 && !helper_command[0].as_str().is_empty() {
        push_planned(plan, PlannedCommand::Helper { argv: clone_argv(helper_command) });
        proof {
            assert(plan.deep_view() =~= old(plan).deep_view() + helper_plan(
                helper_command.deep_view(),
            ));
        }
    } else {
        proof {
            assert(plan.deep_view() =~= old(plan).deep_view() + helper_plan(
                helper_command.deep_view(),
            ));
        }
    }
}

/// Plans one task: its setup, its measured command `repetition_count`
/// times, its teardown.
fn plan_task(plan: &mut Vec<PlannedCommand>, group_name: &String, task: &Task)
    ensures
        final(plan).deep_view() == old(plan).deep_view() + task_plan(
            group_name@,
            task.deep_view(),
        ),
{
    plan_helper_command(plan, &task.setup_command);
    let ghost after_setup = plan.deep_view();
    let ghost gn = group_name@;
    let ghost cdv = task.command.deep_view();
    proof {
        assert(after_setup + measured_plan(gn, cdv, 0) =~= after_setup);
    }
    let mut i: u32 = 0;
    while i < task.repetition_count
        invariant
            i <= task.repetition_count,
            gn == group_name@,
            cdv == task.command.deep_view(),
            plan.deep_view() == after_setup + measured_plan(gn, cdv, i as nat),
        decreases task.repetition_count - i,
    {
        push_planned(
            plan,
            PlannedCommand::Measured {
                group_name: group_name.clone(),
                argv: clone_argv(&task.command),
            },
        );
        i += 1;
        proof {
            let ghost mv = PlannedCommandView::Measured { group_name: gn, argv: cdv };
            assert(measured_plan(gn, cdv, i as nat) =~= measured_plan(
                gn,
                cdv,
                (i - 1) as nat,
            ).push(mv));
            assert(plan.deep_view() =~= after_setup + measured_plan(gn, cdv, i as nat));
        }
    }
    plan_helper_command(plan, &task.tear_down_command);
    proof {
        assert(plan.deep_view() =~= old(plan).deep_view() + task_plan(
            group_name@,
            task.deep_view(),
        ));
    }
}

/// Plans one group: initialization, each task in declared order, cleanup.
fn plan_task_group(plan: &mut Vec<PlannedCommand>, task_group: &TaskGroup)
    ensures
        final(plan).deep_view() == old(plan).deep_view() + group_plan(task_group.deep_view()),
{
    let ghost g = task_group.deep_view();
    plan_helper_command(plan, &task_group.initialization_command);
    let ghost after_init = plan.deep_view();
    proof {
        assert(g.tasks.skip(0) =~= g.tasks);
    }
    let mut i: usize = 0;
    while i < task_group.tasks.len()
        invariant
            i <= task_group.tasks.len(),
            g == task_group.deep_view(),
            after_init + tasks_plan(g.name, g.tasks) == plan.deep_view() + tasks_plan(
                g.name,
                g.tasks.skip(i as int),
            ),
        decreases task_group.tasks.len() - i,
    {
        let ghost rest = g.tasks.skip(i as int);
        let ghost before = plan.deep_view();
        proof {
            assert(rest[0] == g.tasks[i as int]);
            assert(rest.skip(1) =~= g.tasks.skip(i as int + 1));
        }
        plan_task(plan, &task_group.name, &task_group.tasks[i]);
        proof {
            assert(tasks_plan(g.name, rest) == task_plan(g.name, rest[0]) + tasks_plan(
                g.name,
                rest.skip(1),
            ));
            assert(before + tasks_plan(g.name, rest) =~= plan.deep_view() + tasks_plan(
                g.name,
                g.tasks.skip(i as int + 1),
            ));
        }
        i += 1;
    }
    proof {
        assert(g.tasks.skip(task_group.tasks.len() as int) =~= Seq::<TaskView>::empty());
        assert(plan.deep_view() =~= after_init + tasks_plan(g.name, g.tasks));
    }
    plan_helper_command(plan, &task_group.cleanup_command);
    proof {
        assert(plan.deep_view() =~= old(plan).deep_view() + group_plan(task_group.deep_view()));
    }
}

/// Decides whether every task of every group names an executable.
fn config_has_all_commands(task_groups: &Vec<TaskGroup>) -> (r: bool)
    ensures
        r == all_tasks_have_commands(task_groups.deep_view()),
{
    let ghost gs = task_groups.deep_view();
    let mut i: usize = 0;
    while i < task_groups.len()
        invariant
            i <= task_groups.len(),
            gs == task_groups.deep_view(),
            forall|k: int| 0 <= k < i ==> group_tasks_have_commands(#[trigger] gs[k]),
        decreases task_groups.len() - i,
    {
        let group = &task_groups[i];
        proof {
            assert(gs[i as int] == group.deep_view());
        }
        let mut j: usize = 0;
        while j < group.tasks.len()
            invariant
                i < task_groups.len(),
                j <= group.tasks.len(),
                gs == task_groups.deep_view(),
                gs[i as int] == group.deep_view(),
                forall|l: int|
                    0 <= l < j ==> (#[trigger] gs[i as int].tasks[l]).command.len() > 0,
            decreases group.tasks.len() - j,
        {
            if group.tasks[j].command.len() == 0 {
                proof {
                    assert(gs[i as int].tasks[j as int].command.len() == 0);
                    assert(!group_tasks_have_commands(gs[i as int]));
                    assert(!all_tasks_have_commands(gs));
                }
                return false;
            }
            j += 1;
        }
        proof {
            assert(gs[i as int].tasks.len() == group.tasks@.len());
            assert(group_tasks_have_commands(gs[i as int]));
        }
        i += 1;
    }
    true
}

/// Builds the execution plan for a configuration: the exact, strictly
/// sequential order in which commands will be spawned, and which of them
/// are measured. Rejects, before anything could run, a configuration in
/// which some task's measured command has an empty argv.
pub fn build_plan(task_groups: &Vec<TaskGroup>) -> (r: Result<Vec<PlannedCommand>, EngineError>)
    ensures
        r is Ok <==> all_tasks_have_commands(task_groups.deep_view()),
        (r matches Ok(p) ==> p.deep_view() == groups_plan(task_groups.deep_view())),
        r is Err ==> r == Err::<Vec<PlannedCommand>, EngineError>(
            EngineError::MalformedMeasuredCommand,
        ),
{
    if !config_has_all_commands(task_groups) {
        return Err(EngineError::MalformedMeasuredCommand);
    }
    let ghost gs = task_groups.deep_view();
    let mut plan: Vec<PlannedCommand> = Vec::new();
    proof {
        assert(gs.skip(0) =~= gs);
        assert(plan.deep_view() =~= Seq::<PlannedCommandView>::empty());
        assert(Seq::<PlannedCommandView>::empty() + groups_plan(gs) =~= groups_plan(gs));
    }
    let mut i: usize = 0;
    while i < task_groups.len()
        invariant
            i <= task_groups.len(),
            gs == task_groups.deep_view(),
            groups_plan(gs) == plan.deep_view() + groups_plan(gs.skip(i as int)),
        decreases task_groups.len() - i,
    {
        let ghost rest = gs.skip(i as int);
        proof {
            assert(rest[0] == gs[i as int]);
            assert(rest.skip(1) =~= gs.skip(i as int + 1));
        }
        plan_task_group(&mut plan, &task_groups[i]);
        proof {
            assert(groups_plan(gs) =~= plan.deep_view() + groups_plan(gs.skip(i as int + 1))) by {
                assert(groups_plan(rest) == group_plan(rest[0]) + groups_plan(rest.skip(1)));
            }
        }
        i += 1;
    }
    proof {
        assert(gs.skip(task_groups.len() as int) =~= Seq::<TaskGroupView>::empty());
        assert(plan.deep_view() + groups_plan(gs.skip(task_groups.len() as int)) =~= plan.deep_view());
    }
    Ok(plan)
}

/// One observation: a measured command identified by its group name and
/// executable name, and the wall-clock nanoseconds one repetition took.
#[derive(Debug)]
pub struct ExecutionRecord {
    pub group_name: String,
    pub command_name: String,
    pub execution_time: i64,
}

/// Mathematical model of a record.
#[verifier::ext_equal]
pub ghost struct ExecutionRecordView {
    pub group_name: Seq<char>,
    pub command_name: Seq<char>,
    pub execution_time: int,
}

impl DeepView for ExecutionRecord {
    type V = ExecutionRecordView;

    open spec fn deep_view(&self) -> ExecutionRecordView {
        ExecutionRecordView {
            group_name: self.group_name@,
            command_name: self.command_name@,
            execution_time: self.execution_time as int,
        }
    }
}

/// The display label of a record: the executable name alone when the
/// group name is empty, otherwise the group name, a slash, and the
/// executable name.
pub open spec fn label_view(group_name: Seq<char>, command_name: Seq<char>) -> Seq<char> {
    if group_name.len() == 0 {
        command_name
    } else {
        group_name + seq!['/'] + command_name
    }
}

impl ExecutionRecord {
    /// Composes the display label; labels are not unique across records,
    /// on purpose: two records of the same executable in the same group
    /// share one label.
    pub fn label(&self) -> (r: String)
        ensures
            r@ == label_view(self.group_name@, self.command_name@),
    {
        if self.group_name.as_str().is_empty() {
            self.command_name.clone()
        } else {
            let mut r = self.group_name.clone();
            r.append("/");
            r.append(self.command_name.as_str());
            proof {
                reveal_strlit("/");
                assert(("/")@ =~= seq!['/']);
                assert(r@ =~= label_view(self.group_name@, self.command_name@));
            }
            r
        }
    }
}

/// Accumulates execution records for one run. Owns the record list; the
/// list starts empty and only ever grows, in execution order.
pub struct CommandExecutor {
    pub execution_times: Vec<ExecutionRecord>,
    display_output: bool,
}

impl CommandExecutor {
    /// The record list as the contracts see it: the deep view of
    /// `execution_times`, in the order the records were stored.
    pub closed spec fn records(&self) -> Seq<ExecutionRecordView> {
        self.execution_times.deep_view()
    }

    /// Whether the engine was constructed in verbose mode.
    pub closed spec fn displays_output(&self) -> bool {
        self.display_output
    }

    /// Whether the engine runs in verbose mode: the caller is expected to
    /// let child processes inherit the parent's output streams exactly
    /// when this holds, and to suppress their output otherwise.
    pub fn display_output(&self) -> (r: bool)
        ensures
            r == self.displays_output(),
    {
        self.display_output
    }

    /// A fresh engine with no records. `display_output` selects, once for
    /// the whole run, whether the caller lets child processes inherit the
    /// parent's output streams (verbose) or suppresses them (quiet).
    pub fn new(display_output: bool) -> (r: CommandExecutor)
        ensures
            r.records() == Seq::<ExecutionRecordView>::empty(),
            r.displays_output() == display_output,
    {
        let r = CommandExecutor { execution_times: vec![], display_output };
        proof {
            assert(r.records() =~= Seq::<ExecutionRecordView>::empty());
        }
        r
    }

    /// Appends one record; every record already stored stays where it is.
    pub fn store_execution_time(&mut self, group_name: &str, command_name: &str, execution_time: i64)
        ensures
            final(self).records() == old(self).records().push(
                ExecutionRecordView {
                    group_name: group_name@,
                    command_name: command_name@,
                    execution_time: execution_time as int,
                },
            ),
            final(self).displays_output() == old(self).displays_output(),
    {
        self.execution_times.push(ExecutionRecord {
            group_name: group_name.to_owned(),
            command_name: command_name.to_owned(),
            execution_time,
        });
        proof {
            assert(self.records() =~= old(self).records().push(
                ExecutionRecordView {
                    group_name: group_name@,
                    command_name: command_name@,
                    execution_time: execution_time as int,
                },
            ));
        }
    }

    /// Accounts for the repetitions of one task's measured command: one
    /// clock outcome per repetition, consumed in order starting at
    /// `offset`; every available duration becomes one record, a repetition
    /// without one is skipped. Returns the offset just past the task's
    /// own outcomes.
    fn execute_task_command(
        &mut self,
        group_name: &str,
        task: &Task,
        measurements: &Vec<Option<i64>>,
        offset: usize,
    ) -> (r: usize)
        requires
            task.deep_view().command.len() > 0,
            offset + task.repetition_count <= measurements@.len(),
        ensures
            r == offset + task.repetition_count,
            final(self).records() == old(self).records() + repetition_records(
                group_name@,
                task.deep_view().command[0],
                measurements@.subrange(offset as int, r as int),
            ),
            final(self).displays_output() == old(self).displays_output(),
    {
        let ghost gn = group_name@;
        let ghost cn = task.deep_view().command[0];
        let ghost end = offset + task.repetition_count as int;
        let ghost full = measurements@.subrange(offset as int, end);
        let total: usize = measurements.len();
        proof {
            assert(task.command@.len() == task.deep_view().command.len());
            assert(cn == task.command@[0]@);
        }
        let cmd0: &str = task.command[0].as_str();
        let mut i: u32 = 0;
        proof {
            assert(measurements@.subrange(offset as int, end) =~= full);
        }
        while i < task.repetition_count
            invariant
                i <= task.repetition_count,
                gn == group_name@,
                cn == cmd0@,
                end == offset + task.repetition_count as int,
                full == measurements@.subrange(offset as int, end),
                total == measurements@.len(),
                offset + task.repetition_count <= total,
                old(self).records() + repetition_records(gn, cn, full) == self.records()
                    + repetition_records(
                    gn,
                    cn,
                    measurements@.subrange(offset + i as int, end),
                ),
                self.displays_output() == old(self).displays_output(),
            decreases task.repetition_count - i,
        {
            let ghost rest = measurements@.subrange(offset + i as int, end);
            proof {
                assert(rest[0] == measurements@[offset + i as int]);
                assert(rest.skip(1) =~= measurements@.subrange(offset + i as int + 1, end));
            }
            let m: Option<i64> = measurements[offset + (i as usize)];
            match m {
                Some(execution_time) => {
                    let ghost before = self.records();
                    self.store_execution_time(group_name, cmd0, execution_time);
                    proof {
                        let ghost rec = ExecutionRecordView {
                            group_name: gn,
                            command_name: cn,
                            execution_time: execution_time as int,
                        };
                        assert(repetition_records(gn, cn, rest) == seq![rec]
                            + repetition_records(gn, cn, rest.skip(1)));
                        assert(self.records() =~= before + seq![rec]);
                        assert(self.records() + repetition_records(gn, cn, rest.skip(1)) =~= before
                            + repetition_records(gn, cn, rest));
                    }
                },
                None => {
                    proof {
                        assert(repetition_records(gn, cn, rest) == Seq::<
                            ExecutionRecordView,
                        >::empty() + repetition_records(gn, cn, rest.skip(1)));
                        assert(Seq::<ExecutionRecordView>::empty() + repetition_records(
                            gn,
                            cn,
                            rest.skip(1),
                        ) =~= repetition_records(gn, cn, rest.skip(1)));
                    }
                },
            }
            i += 1;
        }
        proof {
            assert(measurements@.subrange(end, end) =~= Seq::<Option<i64>>::empty());
            assert(self.records() + repetition_records(gn, cn, Seq::<Option<i64>>::empty())
                =~= self.records());
        }
        offset + (i as usize)
    }

    /// Accounts for one whole group: its tasks in declared order, each
    /// consuming the clock outcomes of its own repetitions. Helper
    /// commands produce no records, so only the measured repetitions move
    /// the offset. Returns the offset after the group.
    fn execute_task_group(
        &mut self,
        task_group: &TaskGroup,
        measurements: &Vec<Option<i64>>,
        offset: usize,
    ) -> (r: usize)
        requires
            group_tasks_have_commands(task_group.deep_view()),
            offset + group_measured_count(task_group.deep_view()) <= measurements@.len(),
        ensures
            r == offset + group_measured_count(task_group.deep_view()),
            final(self).records() == old(self).records() + group_records(
                task_group.deep_view(),
                measurements@.subrange(offset as int, r as int),
            ),
            final(self).displays_output() == old(self).displays_output(),
    {
        let ghost g = task_group.deep_view();
        let ghost end = offset + group_measured_count(g) as int;
        let ghost full = measurements@.subrange(offset as int, end);
        proof {
            assert(g.tasks.skip(0) =~= g.tasks);
            assert(measurements@.subrange(offset as int, end) =~= full);
        }
        let mut i: usize = 0;
        let mut c: usize = offset;
        while i < task_group.tasks.len()
            invariant
                i <= task_group.tasks.len(),
                g == task_group.deep_view(),
                group_tasks_have_commands(g),
                end == offset + group_measured_count(g) as int,
                full == measurements@.subrange(offset as int, end),
                end <= measurements@.len(),
                offset <= c <= end,
                c + tasks_measured_count(g.tasks.skip(i as int)) == end,
                old(self).records() + tasks_records(g.name, g.tasks, full) == self.records()
                    + tasks_records(
                    g.name,
                    g.tasks.skip(i as int),
                    measurements@.subrange(c as int, end),
                ),
                self.displays_output() == old(self).displays_output(),
            decreases task_group.tasks.len() - i,
        {
            let ghost rest = g.tasks.skip(i as int);
            let ghost k = g.tasks[i as int].repetition_count as int;
            proof {
                assert(rest[0] == g.tasks[i as int]);
                assert(g.tasks[i as int] == task_group.tasks@[i as int].deep_view());
                assert(g.tasks[i as int].command.len() > 0);
                assert(rest.skip(1) =~= g.tasks.skip(i as int + 1));
                assert(tasks_measured_count(rest) == rest[0].repetition_count
                    + tasks_measured_count(rest.skip(1)));
                assert(measurements@.subrange(c as int, end).take(k) =~= measurements@.subrange(
                    c as int,
                    c + k,
                ));
                assert(measurements@.subrange(c as int, end).skip(k) =~= measurements@.subrange(
                    c + k,
                    end,
                ));
                assert(tasks_records(g.name, rest, measurements@.subrange(c as int, end))
                    == repetition_records(
                    g.name,
                    rest[0].command[0],
                    measurements@.subrange(c as int, c + k),
                ) + tasks_records(
                    g.name,
                    rest.skip(1),
                    measurements@.subrange(c + k, end),
                ));
            }
            let ghost before = self.records();
            let c2 = self.execute_task_command(
                task_group.name.as_str(),
                &task_group.tasks[i],
                measurements,
                c,
            );
            proof {
                assert(self.records() + tasks_records(
                    g.name,
                    g.tasks.skip(i as int + 1),
                    measurements@.subrange(c2 as int, end),
                ) =~= before + tasks_records(
                    g.name,
                    rest,
                    measurements@.subrange(c as int, end),
                ));
            }
            c = c2;
            i += 1;
        }
        proof {
            assert(g.tasks.skip(task_group.tasks.len() as int) =~= Seq::<TaskView>::empty());
            assert(measurements@.subrange(end, end) =~= Seq::<Option<i64>>::empty());
            assert(self.records() + tasks_records(
                g.name,
                Seq::<TaskView>::empty(),
                Seq::<Option<i64>>::empty(),
            ) =~= self.records());
        }
        c
    }

    /// Replays a completed run over the whole configuration: walks the
    /// groups in declared order, their tasks in declared order, and each
    /// task's repetitions in order, consuming one clock outcome per
    /// measured repetition and appending one record per available
    /// duration. Fails fast, before accounting for anything, when some
    /// task's measured command has an empty argv.
    pub fn execute_task_groups(
        &mut self,
        task_groups: &Vec<TaskGroup>,
        measurements: &Vec<Option<i64>>,
    ) -> (r: Result<(), EngineError>)
        requires
            measurements@.len() == total_measured_count(task_groups.deep_view()),
        ensures
            r is Ok <==> all_tasks_have_commands(task_groups.deep_view()),
            r is Ok ==> final(self).records() == old(self).records() + run_records(
                task_groups.deep_view(),
                measurements@,
            ),
            r is Err ==> r == Err::<(), EngineError>(EngineError::MalformedMeasuredCommand)
                && *final(self) == *old(self),
            final(self).displays_output() == old(self).displays_output(),
    {
        if !config_has_all_commands(task_groups) {
            return Err(EngineError::MalformedMeasuredCommand);
        }
        let ghost gs = task_groups.deep_view();
        let ghost len = measurements@.len() as int;
        proof {
            assert(gs.skip(0) =~= gs);
            assert(measurements@.subrange(0, len) =~= measurements@);
        }
        let mut i: usize = 0;
        let mut c: usize = 0;
        while i < task_groups.len()
            invariant
                i <= task_groups.len(),
                gs == task_groups.deep_view(),
                all_tasks_have_commands(gs),
                len == measurements@.len() as int,
                0 <= c <= len,
                c + total_measured_count(gs.skip(i as int)) == len,
                old(self).records() + run_records(gs, measurements@) == self.records()
                    + run_records(gs.skip(i as int), measurements@.subrange(c as int, len)),
                self.displays_output() == old(self).displays_output(),
            decreases task_groups.len() - i,
        {
            let ghost rest = gs.skip(i as int);
            let ghost k = group_measured_count(gs[i as int]) as int;
            proof {
                assert(rest[0] == gs[i as int]);
                assert(rest.skip(1) =~= gs.skip(i as int + 1));
                assert(total_measured_count(rest) == group_measured_count(rest[0])
                    + total_measured_count(rest.skip(1)));
                assert(measurements@.subrange(c as int, len).take(k) =~= measurements@.subrange(
                    c as int,
                    c + k,
                ));
                assert(measurements@.subrange(c as int, len).skip(k) =~= measurements@.subrange(
                    c + k,
                    len,
                ));
                assert(run_records(rest, measurements@.subrange(c as int, len)) == group_records(
                    rest[0],
                    measurements@.subrange(c as int, c + k),
                ) + run_records(rest.skip(1), measurements@.subrange(c + k, len)));
            }
            let ghost before = self.records();
            let c2 = self.execute_task_group(&task_groups[i], measurements, c);
            proof {
                assert(self.records() + run_records(
                    gs.skip(i as int + 1),
                    measurements@.subrange(c2 as int, len),
                ) =~= before + run_records(rest, measurements@.subrange(c as int, len)));
            }
            c = c2;
            i += 1;
        }
        proof {
            assert(gs.skip(task_groups.len() as int) =~= Seq::<TaskGroupView>::empty());
            assert(measurements@.subrange(len, len) =~= Seq::<Option<i64>>::empty());
            assert(self.records() + run_records(
                Seq::<TaskGroupView>::empty(),
                Seq::<Option<i64>>::empty(),
            ) =~= self.records());
        }
        Ok(())
    }
}

/// Computes how many clock outcomes a full run of the configuration
/// consumes: the sum of all repetition counts. `None` when that sum does
/// not fit in `usize`.
pub fn measured_invocation_count(task_groups: &Vec<TaskGroup>) -> (r: Option<usize>)
    ensures
        r matches Some(c) ==> c == total_measured_count(task_groups.deep_view()),
        r is None ==> total_measured_count(task_groups.deep_view()) > usize::MAX,
{
    let ghost gs = task_groups.deep_view();
    proof {
        assert(gs.skip(0) =~= gs);
    }
    let mut acc: usize = 0;
    let mut i: usize = 0;
    while i < task_groups.len()
        invariant
            i <= task_groups.len(),
            gs == task_groups.deep_view(),
            acc + total_measured_count(gs.skip(i as int)) == total_measured_count(gs),
        decreases task_groups.len() - i,
    {
        let ghost rest = gs.skip(i as int);
        proof {
            assert(rest[0] == gs[i as int]);
            assert(rest.skip(1) =~= gs.skip(i as int + 1));
            assert(total_measured_count(rest) == group_measured_count(rest[0])
                + total_measured_count(rest.skip(1)));
        }
        let group = &task_groups[i];
        proof {
            assert(gs[i as int] == group.deep_view());
            assert(group.deep_view().tasks.skip(0) =~= group.deep_view().tasks);
        }
        let mut j: usize = 0;
        while j < group.tasks.len()
            invariant
                i < task_groups.len(),
                j <= group.tasks.len(),
                gs == task_groups.deep_view(),
                gs[i as int] == group.deep_view(),
                acc + tasks_measured_count(group.deep_view().tasks.skip(j as int))
                    + total_measured_count(gs.skip(i as int + 1)) == total_measured_count(gs),
            decreases group.tasks.len() - j,
        {
            let ghost trest = group.deep_view().tasks.skip(j as int);
            proof {
                assert(trest[0] == group.deep_view().tasks[j as int]);
                assert(trest.skip(1) =~= group.deep_view().tasks.skip(j as int + 1));
                assert(tasks_measured_count(trest) == trest[0].repetition_count
                    + tasks_measured_count(trest.skip(1)));
            }
            let rep: usize = group.tasks[j].repetition_count as usize;
            match acc.checked_add(rep) {
                Some(next) => {
                    acc = next;
                },
                None => {
                    return None;
                },
            }
            j += 1;
        }
        proof {
            assert(group.deep_view().tasks.skip(group.tasks.len() as int) =~= Seq::<
                TaskView,
            >::empty());
        }
        i += 1;
    }
    proof {
        assert(gs.skip(task_groups.len() as int) =~= Seq::<TaskGroupView>::empty());
    }
    Some(acc)
}

} // verus!
