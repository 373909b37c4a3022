//! The configuration model: an immutable tree of task groups, each holding
//! tasks. A command is an argv-style sequence of strings: the first element
//! is the executable, the rest are its arguments. The engine never mutates
//! this tree.

use vstd::prelude::*;

verus! {

/// One measured command together with its unmeasured setup/teardown hooks
/// and how often the measured command repeats.
pub struct Task {
    pub command: Vec<String>,
    pub repetition_count: u32,
    pub setup_command: Vec<String>,
    pub tear_down_command: Vec<String>,
}

/// A named collection of tasks sharing one initialization/cleanup pair.
/// The name may be empty; measured commands are then recorded without a
/// group prefix.
pub struct TaskGroup {
    pub cleanup_command: Vec<String>,
    pub initialization_command: Vec<String>,
    pub name: String,
    pub tasks: Vec<Task>,
}

/// The whole configuration: task groups in their declared order.
pub struct Config {
    pub task_groups: Vec<TaskGroup>,
}

/// Mathematical model of a task: every string is a sequence of characters.
#[verifier::ext_equal]
pub ghost struct TaskView {
    pub command: Seq<Seq<char>>,
    pub repetition_count: nat,
    pub setup_command: Seq<Seq<char>>,
    pub tear_down_command: Seq<Seq<char>>,
}

/// Mathematical model of a task group.
#[verifier::ext_equal]
pub ghost struct TaskGroupView {
    pub cleanup_command: Seq<Seq<char>>,
    pub initialization_command: Seq<Seq<char>>,
    pub name: Seq<char>,
    pub tasks: Seq<TaskView>,
}

/// Mathematical model of a configuration.
#[verifier::ext_equal]
pub ghost struct ConfigView {
    pub task_groups: Seq<TaskGroupView>,
}

impl DeepView for Task {
    type V = TaskView;

    open spec fn deep_view(&self) -> TaskView {
        TaskView {
            command: self.command.deep_view(),
            repetition_count: self.repetition_count as nat,
            setup_command: self.setup_command.deep_view(),
            tear_down_command: self.tear_down_command.deep_view(),
        }
    }
}

impl DeepView for TaskGroup {
    type V = TaskGroupView;

    open spec fn deep_view(&self) -> TaskGroupView {
        TaskGroupView {
            cleanup_command: self.cleanup_command.deep_view(),
            initialization_command: self.initialization_command.deep_view(),
            name: self.name@,
            tasks: self.tasks.deep_view(),
        }
    }
}

impl DeepView for Config {
    type V = ConfigView;

    open spec fn deep_view(&self) -> ConfigView {
        ConfigView { task_groups: self.task_groups.deep_view() }
    }
}

impl Task {
    /// A task is meaningful only when its measured command names an
    /// executable; an empty argv is a configuration error.
    pub fn has_command(&self) -> (r: bool)
        ensures
            r == (self.deep_view().command.len() > 0),
    {
        self.command.len() > 0
    }
}

/// The model of the built-in example configuration.
pub open spec fn sample_config_view() -> ConfigView {
    ConfigView {
        task_groups: seq![
            TaskGroupView {
                cleanup_command: Seq::empty(),
                initialization_command: seq!["clear"@],
                name: "Greeting"@,
                tasks: seq![
                    TaskView {
                        command: seq!["echo"@, "Hello World!"@],
                        repetition_count: 1,
                        setup_command: Seq::empty(),
                        tear_down_command: Seq::empty(),
                    },
                ],
            },
        ],
    }
}

/// The built-in example configuration: one group named "Greeting" that
/// clears the screen once and then echoes a greeting a single time, with
/// no setup, teardown or cleanup.
pub fn create_sample_config() -> (r: Config)
    ensures
        r.deep_view() == sample_config_view(),
{
    let sample_task = Task {
        command: vec![String::from_str("echo"), String::from_str("Hello World!")],
        repetition_count: 1,
        setup_command: vec![],
        tear_down_command: vec![],
    };
    let sample_task_group = TaskGroup {
        cleanup_command: vec![],
        initialization_command: vec![String::from_str("clear")],
        name: String::from_str("Greeting"),
        tasks: vec![sample_task],
    };
    let config = Config { task_groups: vec![sample_task_group] };
    proof {
        assert(config.deep_view() =~~= sample_config_view());
    }
    config
}

} // verus!
