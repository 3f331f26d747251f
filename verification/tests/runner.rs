use rumake::name_map::NameMap;
use rumake::runner::{exec_task, instruction_command, plan_task, TaskError};
use rumake::tasks::{Instruction, Task};

fn strings(items: &[&str]) -> Vec<String> {
    items.iter().map(|s| s.to_string()).collect()
}

fn instruction(program: &str, args: &[&str]) -> Instruction {
    Instruction { program: program.to_string(), arguments: strings(args) }
}

fn tasks(list: Vec<(&str, Vec<Instruction>)>) -> NameMap<Task> {
    let mut map = NameMap::new();
    for (name, instructions) in list {
        map.insert(name.to_string(), Task { name: name.to_string(), instructions });
    }
    map
}

fn no_variables() -> NameMap<String> {
    NameMap::new()
}

#[test]
fn referenced_task_runs_in_place() {
    let t = tasks(vec![
        ("task1", vec![instruction("echo", &["baz"])]),
        ("task2", vec![instruction("echo", &["foo"]), instruction("@task1", &[])]),
    ]);
    let plan = plan_task(&t, &"task2".to_string(), &[], Vec::new(), &no_variables());
    assert!(plan.error.is_none());
    let commands = exec_task(&t, &"task2".to_string(), &[], Vec::new(), &no_variables());
    assert_eq!(commands, strings(&["echo foo", "echo baz"]));
}

#[test]
fn pizza_example_from_readme() {
    let t = tasks(vec![
        ("pizza", vec![instruction("echo", &["Let's go for a pizza with $RUMAKE_ARGS"])]),
        ("pizza_super", vec![instruction("@pizza", &["super", "$RUMAKE_ARGS"])]),
        (
            "pizza_extra",
            vec![
                instruction("echo", &["hmmm..."]),
                instruction("echo", &["I", "love", "$RUMAKE_ARGS"]),
                instruction("@pizza_super", &["extra", "$RUMAKE_ARGS", "!"]),
            ],
        ),
    ]);
    let commands = exec_task(&t, &"pizza".to_string(), &strings(&["cheese"]), Vec::new(), &no_variables());
    assert_eq!(commands, strings(&["echo Let's go for a pizza with cheese"]));
    let plan = plan_task(&t, &"pizza_extra".to_string(), &strings(&["cheese"]), Vec::new(), &no_variables());
    assert_eq!(
        plan.commands,
        strings(&[
            "echo hmmm...",
            "echo I love cheese",
            "echo Let's go for a pizza with super extra cheese !",
        ])
    );
    assert!(plan.error.is_none());
}

#[test]
fn single_instruction_task_forwards_args() {
    let t = tasks(vec![("dkcr", vec![instruction("docker-compose", &["run", "--rm"])])]);
    let commands = exec_task(&t, &"dkcr".to_string(), &strings(&["node", "bash"]), Vec::new(), &no_variables());
    assert_eq!(commands, strings(&["docker-compose run --rm node bash"]));
}

#[test]
fn self_referencing_task_stops() {
    let t = tasks(vec![("a", vec![instruction("echo", &["1"]), instruction("@a", &[])])]);
    let plan = plan_task(&t, &"a".to_string(), &[], Vec::new(), &no_variables());
    assert_eq!(plan.commands, strings(&["echo 1"]));
    assert!(matches!(plan.error, Some(TaskError::RecursiveCall(ref name)) if name == "a"));
    let t = tasks(vec![("a", vec![instruction("@a", &[]), instruction("echo", &["never"])])]);
    let plan = plan_task(&t, &"a".to_string(), &[], Vec::new(), &no_variables());
    assert!(plan.commands.is_empty());
    match plan.error {
        Some(TaskError::RecursiveCall(name)) => assert_eq!(name, "a"),
        _ => panic!("expected a recursion error"),
    }
}

#[test]
fn indirect_recursion_runs_commands_before_stopping() {
    let t = tasks(vec![
        ("a", vec![instruction("echo", &["a"]), instruction("@b", &[])]),
        ("b", vec![instruction("echo", &["b"]), instruction("@a", &[]), instruction("echo", &["after"])]),
    ]);
    let plan = plan_task(&t, &"a".to_string(), &[], Vec::new(), &no_variables());
    assert_eq!(plan.commands, strings(&["echo a", "echo b"]));
    match plan.error {
        Some(TaskError::RecursiveCall(name)) => assert_eq!(name, "a"),
        _ => panic!("expected a recursion error"),
    }
}

#[test]
fn unknown_task_is_reported() {
    let t = tasks(vec![("a", vec![instruction("echo", &["1"]), instruction("@missing", &[])])]);
    let plan = plan_task(&t, &"a".to_string(), &[], Vec::new(), &no_variables());
    assert_eq!(plan.commands, strings(&["echo 1"]));
    match plan.error {
        Some(TaskError::UnknownTask(name)) => assert_eq!(name, "missing"),
        _ => panic!("expected an unknown task error"),
    }
    let plan = plan_task(&t, &"nope".to_string(), &[], Vec::new(), &no_variables());
    assert!(plan.commands.is_empty());
    assert!(matches!(plan.error, Some(TaskError::UnknownTask(_))));
}

#[test]
fn task_already_on_stack_stops() {
    let t = tasks(vec![("a", vec![instruction("echo", &["1"])])]);
    let plan = plan_task(&t, &"a".to_string(), &[], strings(&["a"]), &no_variables());
    assert!(plan.commands.is_empty());
    assert!(matches!(plan.error, Some(TaskError::RecursiveCall(_))));
}

#[test]
fn variables_are_substituted_in_commands() {
    let mut variables = NameMap::new();
    variables.insert("$from".to_string(), "world".to_string());
    let t = tasks(vec![("hello", vec![instruction("echo", &["hello", "$from", "!"])])]);
    let commands = exec_task(&t, &"hello".to_string(), &[], Vec::new(), &variables);
    assert_eq!(commands, strings(&["echo hello world !"]));
}

#[test]
fn instruction_command_joins_with_spaces() {
    let cmd = instruction_command(
        &"ls".to_string(),
        &strings(&["-l", "$RUMAKE_ARGS"]),
        &strings(&["/tmp", "/var"]),
        &no_variables(),
        false,
    );
    assert_eq!(cmd, "ls -l /tmp /var");
    let bare = instruction_command(&"pwd".to_string(), &[], &[], &no_variables(), false);
    assert_eq!(bare, "pwd");
}

#[test]
fn successful_run_is_each_instruction_in_turn() {
    let t = tasks(vec![
        ("b", vec![instruction("echo", &["b"])]),
        (
            "a",
            vec![instruction("echo", &["1"]), instruction("@b", &["x"]), instruction("echo", &["2"])],
        ),
    ]);
    let call_args = strings(&["z"]);
    let whole = exec_task(&t, &"a".to_string(), &call_args, Vec::new(), &no_variables());
    let referenced = exec_task(&t, &"b".to_string(), &strings(&["x"]), strings(&["a"]), &no_variables());
    assert_eq!(referenced, strings(&["echo b x"]));
    let mut expected = strings(&["echo 1"]);
    expected.extend(referenced);
    expected.push("echo 2".to_string());
    assert_eq!(whole, expected);
}
