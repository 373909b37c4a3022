use cmdbench::command_executor::{
    build_plan, measured_invocation_count, CommandExecutor, EngineError, PlannedCommand,
};
use cmdbench::config::{create_sample_config, Task, TaskGroup};

fn strings(parts: &[&str]) -> Vec<String> {
    parts.iter().map(|p| p.to_string()).collect()
}

fn task(command: &[&str], repetition_count: u32, setup: &[&str], teardown: &[&str]) -> Task {
    Task {
        command: strings(command),
        repetition_count,
        setup_command: strings(setup),
        tear_down_command: strings(teardown),
    }
}

fn group(name: &str, init: &[&str], cleanup: &[&str], tasks: Vec<Task>) -> TaskGroup {
    TaskGroup {
        cleanup_command: strings(cleanup),
        initialization_command: strings(init),
        name: name.to_string(),
        tasks,
    }
}

fn helper_argv(step: &PlannedCommand) -> Option<&Vec<String>> {
    match step {
        PlannedCommand::Helper { argv } => Some(argv),
        PlannedCommand::Measured { .. } => None,
    }
}

fn measured_parts(step: &PlannedCommand) -> Option<(&String, &Vec<String>)> {
    match step {
        PlannedCommand::Helper { .. } => None,
        PlannedCommand::Measured { group_name, argv } => Some((group_name, argv)),
    }
}

#[test]
fn new_executor_has_no_records() {
    let executor = CommandExecutor::new(false);
    assert!(executor.execution_times.is_empty());
    assert!(!executor.display_output());
    assert!(CommandExecutor::new(true).display_output());
}

#[test]
fn store_execution_time_appends_in_order() {
    let mut executor = CommandExecutor::new(false);
    executor.store_execution_time("Greeting", "echo", 42);
    executor.store_execution_time("", "ls", 7);
    assert_eq!(executor.execution_times.len(), 2);
    assert_eq!(executor.execution_times[0].group_name, "Greeting");
    assert_eq!(executor.execution_times[0].command_name, "echo");
    assert_eq!(executor.execution_times[0].execution_time, 42);
    assert_eq!(executor.execution_times[1].group_name, "");
    assert_eq!(executor.execution_times[1].command_name, "ls");
    assert_eq!(executor.execution_times[1].execution_time, 7);
}

#[test]
fn label_of_empty_group_is_command_name() {
    let mut executor = CommandExecutor::new(false);
    executor.store_execution_time("", "echo", 1);
    assert_eq!(executor.execution_times[0].label(), "echo");
}

#[test]
fn label_of_named_group_is_joined_with_slash() {
    let mut executor = CommandExecutor::new(false);
    executor.store_execution_time("Greeting", "echo", 1);
    assert_eq!(executor.execution_times[0].label(), "Greeting/echo");
}

#[test]
fn sample_config_holds_the_greeting_group() {
    let config = create_sample_config();
    assert_eq!(config.task_groups.len(), 1);
    let g = &config.task_groups[0];
    assert_eq!(g.name, "Greeting");
    assert_eq!(g.initialization_command, vec!["clear".to_string()]);
    assert!(g.cleanup_command.is_empty());
    assert_eq!(g.tasks.len(), 1);
    let t = &g.tasks[0];
    assert_eq!(t.command, vec!["echo".to_string(), "Hello World!".to_string()]);
    assert_eq!(t.repetition_count, 1);
    assert!(t.setup_command.is_empty());
    assert!(t.tear_down_command.is_empty());
}

#[test]
fn plan_follows_declared_order() {
    let groups = vec![
        group(
            "A",
            &["init-a"],
            &["clean-a"],
            vec![task(&["one"], 2, &["setup-one"], &["teardown-one"]), task(&["two"], 1, &[], &[])],
        ),
        group("B", &[], &[], vec![task(&["three"], 1, &[], &[])]),
    ];
    let plan = build_plan(&groups).unwrap();
    let mut steps: Vec<String> = Vec::new();
    for step in plan.iter() {
        match step {
            PlannedCommand::Helper { argv } => steps.push(format!("helper {}", argv[0])),
            PlannedCommand::Measured { group_name, argv } => {
                steps.push(format!("measured {} {}", group_name, argv[0]))
            }
        }
    }
    let expected = vec![
        "helper init-a",
        "helper setup-one",
        "measured A one",
        "measured A one",
        "helper teardown-one",
        "measured A two",
        "helper clean-a",
        "measured B three",
    ];
    assert_eq!(steps, expected);
}

#[test]
fn absent_helpers_are_never_planned() {
    let groups = vec![group(
        "G",
        &[],
        &["", "ignored-argument"],
        vec![task(&["run"], 1, &[""], &[])],
    )];
    let plan = build_plan(&groups).unwrap();
    assert_eq!(plan.len(), 1);
    let (group_name, argv) = measured_parts(&plan[0]).unwrap();
    assert_eq!(group_name, "G");
    assert_eq!(argv, &strings(&["run"]));
    assert!(plan.iter().all(|s| helper_argv(s).is_none()));
}

#[test]
fn zero_repetitions_still_plan_setup_and_teardown_once() {
    let groups = vec![group(
        "G",
        &[],
        &[],
        vec![task(&["never-measured"], 0, &["setup"], &["teardown"])],
    )];
    let plan = build_plan(&groups).unwrap();
    assert_eq!(plan.len(), 2);
    assert_eq!(helper_argv(&plan[0]).unwrap(), &strings(&["setup"]));
    assert_eq!(helper_argv(&plan[1]).unwrap(), &strings(&["teardown"]));

    let mut executor = CommandExecutor::new(false);
    let measurements: Vec<Option<i64>> = vec![];
    assert_eq!(measured_invocation_count(&groups), Some(0));
    executor.execute_task_groups(&groups, &measurements).unwrap();
    assert!(executor.execution_times.is_empty());
}

#[test]
fn empty_measured_command_is_rejected_before_anything_runs() {
    let groups = vec![
        group("OK", &[], &[], vec![task(&["fine"], 1, &[], &[])]),
        group("Bad", &["init"], &[], vec![task(&[], 3, &[], &[])]),
    ];
    assert!(groups[0].tasks[0].has_command());
    assert!(!groups[1].tasks[0].has_command());
    match build_plan(&groups) {
        Err(EngineError::MalformedMeasuredCommand) => {}
        _ => panic!("an empty measured argv must be a fatal configuration error"),
    }
    let mut executor = CommandExecutor::new(false);
    let measurements: Vec<Option<i64>> = vec![Some(1), Some(2), Some(3), Some(4)];
    assert_eq!(measured_invocation_count(&groups), Some(4));
    match executor.execute_task_groups(&groups, &measurements) {
        Err(EngineError::MalformedMeasuredCommand) => {}
        _ => panic!("the engine must fail fast on a malformed measured command"),
    }
    assert!(executor.execution_times.is_empty());
}

#[test]
fn record_count_matches_repetition_count() {
    let groups = vec![group("G", &[], &[], vec![task(&["cmd"], 3, &[], &[])])];
    let mut executor = CommandExecutor::new(false);
    let measurements = vec![Some(10), Some(20), Some(30)];
    executor.execute_task_groups(&groups, &measurements).unwrap();
    assert_eq!(executor.execution_times.len(), 3);
    let times: Vec<i64> = executor.execution_times.iter().map(|r| r.execution_time).collect();
    assert_eq!(times, vec![10, 20, 30]);
}

#[test]
fn unavailable_clock_skips_only_that_repetition() {
    let groups = vec![group("G", &[], &[], vec![task(&["cmd"], 3, &[], &[])])];
    let mut executor = CommandExecutor::new(false);
    let measurements = vec![Some(10), None, Some(30)];
    executor.execute_task_groups(&groups, &measurements).unwrap();
    assert_eq!(executor.execution_times.len(), 2);
    assert_eq!(executor.execution_times[0].execution_time, 10);
    assert_eq!(executor.execution_times[1].execution_time, 30);
}

#[test]
fn two_tasks_with_one_executable_share_a_label_but_not_a_record() {
    let groups = vec![group(
        "Greeting",
        &[],
        &[],
        vec![task(&["echo", "hi"], 1, &[], &[]), task(&["echo", "ho"], 1, &[], &[])],
    )];
    let mut executor = CommandExecutor::new(false);
    let measurements = vec![Some(5), Some(9)];
    executor.execute_task_groups(&groups, &measurements).unwrap();
    assert_eq!(executor.execution_times.len(), 2);
    assert_eq!(executor.execution_times[0].label(), "Greeting/echo");
    assert_eq!(executor.execution_times[1].label(), "Greeting/echo");
    assert_eq!(executor.execution_times[0].execution_time, 5);
    assert_eq!(executor.execution_times[1].execution_time, 9);
}

#[test]
fn three_repetitions_give_three_records_with_their_labels() {
    let groups = vec![group(
        "G",
        &["true"],
        &[],
        vec![task(&["true"], 3, &[], &[])],
    )];
    let plan = build_plan(&groups).unwrap();
    assert_eq!(plan.len(), 4);
    assert_eq!(helper_argv(&plan[0]).unwrap(), &strings(&["true"]));
    let mut executor = CommandExecutor::new(false);
    let measurements = vec![Some(11), Some(0), Some(7)];
    assert_eq!(measured_invocation_count(&groups), Some(3));
    executor.execute_task_groups(&groups, &measurements).unwrap();
    assert_eq!(executor.execution_times.len(), 3);
    for record in executor.execution_times.iter() {
        assert_eq!(record.label(), "G/true");
        assert!(record.execution_time >= 0);
    }
}

#[test]
fn first_group_initialization_is_the_first_planned_step() {
    let groups = vec![
        group(
            "First",
            &["missing-on-purpose"],
            &[],
            vec![task(&["echo"], 2, &[], &[])],
        ),
        group("Second", &[], &[], vec![task(&["ls"], 1, &[], &[])]),
    ];
    let plan = build_plan(&groups).unwrap();
    assert_eq!(
        helper_argv(&plan[0]).unwrap(),
        &strings(&["missing-on-purpose"])
    );
    for step in plan.iter().take(1) {
        assert!(measured_parts(step).is_none());
    }
}

#[test]
fn measured_invocation_count_sums_repetitions() {
    let groups = vec![
        group("A", &["x"], &["y"], vec![task(&["a"], 2, &[], &[]), task(&["b"], 0, &[], &[])]),
        group("B", &[], &[], vec![task(&["c"], 5, &[], &[])]),
    ];
    assert_eq!(measured_invocation_count(&groups), Some(7));
    assert_eq!(measured_invocation_count(&vec![]), Some(0));
}

#[test]
fn records_follow_group_then_task_order() {
    let groups = vec![
        group("A", &[], &[], vec![task(&["a1"], 1, &[], &[]), task(&["a2"], 2, &[], &[])]),
        group("B", &[], &[], vec![task(&["b1"], 1, &[], &[])]),
    ];
    let mut executor = CommandExecutor::new(false);
    let measurements = vec![Some(1), Some(2), Some(3), Some(4)];
    executor.execute_task_groups(&groups, &measurements).unwrap();
    let labels: Vec<String> = executor.execution_times.iter().map(|r| r.label()).collect();
    assert_eq!(labels, vec!["A/a1", "A/a2", "A/a2", "B/b1"]);
    let times: Vec<i64> = executor.execution_times.iter().map(|r| r.execution_time).collect();
    assert_eq!(times, vec![1, 2, 3, 4]);
}
