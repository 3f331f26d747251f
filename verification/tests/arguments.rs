use rumake::arguments::{
    expand_program_args, normalize_rumake_args, program_args_has_rumake_args,
    replace_known_variables, replace_rumake_args,
};
use rumake::name_map::NameMap;

fn strings(items: &[&str]) -> Vec<String> {
    items.iter().map(|s| s.to_string()).collect()
}

fn variables(pairs: &[(&str, &str)]) -> NameMap<String> {
    let mut map = NameMap::new();
    for (name, value) in pairs {
        map.insert(name.to_string(), value.to_string());
    }
    map
}

#[test]
fn test_normalize_rumake_args() {
    assert_eq!(
        normalize_rumake_args(&"foo bar".to_string()),
        "foo bar".to_string()
    );
    assert_eq!(
        normalize_rumake_args(&"bar ${RUMAKE_ARGS} baz".to_string()),
        "bar $RUMAKE_ARGS baz".to_string()
    );
    assert_eq!(
        normalize_rumake_args(&"bar $RUMAKE_ARGSbaz".to_string()),
        "bar $RUMAKE_ARGSbaz".to_string()
    );
    assert_eq!(
        normalize_rumake_args(&"bar ${RUMAKE_ARGS}baz".to_string()),
        "bar $RUMAKE_ARGSbaz".to_string()
    );
}

#[test]
fn program_args_has_rumake_args_true() {
    assert_eq!(
        program_args_has_rumake_args(&["foo".to_string(), "bar $RUMAKE_ARGS baz".to_string()]),
        true
    );
    assert_eq!(
        program_args_has_rumake_args(&["foo".to_string(), "bar ${RUMAKE_ARGS} baz".to_string()]),
        true
    );
    assert_eq!(
        program_args_has_rumake_args(&["foo".to_string(), "bar${RUMAKE_ARGS}baz".to_string()]),
        true
    );
}

#[test]
fn program_args_has_rumake_args_false() {
    assert_eq!(
        program_args_has_rumake_args(&["foo".to_string(), "bar".to_string()]),
        false
    );
}

#[test]
fn normalize_rumake_args_replaces_every_occurrence() {
    assert_eq!(
        normalize_rumake_args(&"${RUMAKE_ARGS}-${RUMAKE_ARGS}".to_string()),
        "$RUMAKE_ARGS-$RUMAKE_ARGS".to_string()
    );
    assert_eq!(normalize_rumake_args(&"".to_string()), "".to_string());
}

#[test]
fn program_args_has_rumake_args_empty() {
    assert_eq!(program_args_has_rumake_args(&[]), false);
    assert_eq!(program_args_has_rumake_args(&strings(&["$RUMAKE_ARG"])), false);
}

#[test]
fn single_instruction_task_appends_call_args() {
    let args = expand_program_args(
        &strings(&["run", "--rm"]),
        &strings(&["node", "bash"]),
        &variables(&[]),
        true,
    );
    assert_eq!(args, strings(&["run", "--rm", "node", "bash"]));
}

#[test]
fn multi_instruction_task_does_not_append_call_args() {
    let args = expand_program_args(
        &strings(&["run", "--rm"]),
        &strings(&["node", "bash"]),
        &variables(&[]),
        false,
    );
    assert_eq!(args, strings(&["run", "--rm"]));
}

#[test]
fn placeholder_receives_joined_call_args() {
    let args = expand_program_args(
        &strings(&["run", "$RUMAKE_ARGS", "bash"]),
        &strings(&["node", "app"]),
        &variables(&[]),
        true,
    );
    assert_eq!(args, strings(&["run", "node app", "bash"]));
}

#[test]
fn braced_placeholder_inside_argument() {
    let args = expand_program_args(
        &strings(&["Let's go for a pizza with ${RUMAKE_ARGS}!"]),
        &strings(&["cheese"]),
        &variables(&[]),
        false,
    );
    assert_eq!(args, strings(&["Let's go for a pizza with cheese!"]));
}

#[test]
fn placeholder_with_no_call_args_becomes_empty() {
    let args = expand_program_args(
        &strings(&["a$RUMAKE_ARGS"]),
        &strings(&[]),
        &variables(&[]),
        true,
    );
    assert_eq!(args, strings(&["a"]));
}

#[test]
fn known_variables_replace_whole_arguments_only() {
    let vars = variables(&[("$from", "world"), ("$x", "y")]);
    let args = replace_known_variables(&strings(&["hello", "$from", "$from!", "$x"]), &vars);
    assert_eq!(args, strings(&["hello", "world", "$from!", "y"]));
}

#[test]
fn variable_value_holding_placeholder_is_expanded() {
    let vars = variables(&[("$who", "$RUMAKE_ARGS")]);
    let args = expand_program_args(&strings(&["hi", "$who"]), &strings(&["bob"]), &vars, false);
    assert_eq!(args, strings(&["hi", "bob"]));
}

#[test]
fn replace_rumake_args_each_argument() {
    let args = replace_rumake_args(
        strings(&["$RUMAKE_ARGS", "x${RUMAKE_ARGS}y", "z"]),
        &strings(&["1", "2"]),
    );
    assert_eq!(args, strings(&["1 2", "x1 2y", "z"]));
}

#[test]
fn normalizing_twice_is_normalizing_once() {
    for raw in [
        "${${RUMAKE_ARGS}RUMAKE_ARGS}",
        "a ${RUMAKE_ARGS} b $RUMAKE_ARGS",
        "${RUMAKE_ARGS",
        "",
    ] {
        let once = normalize_rumake_args(&raw.to_string());
        assert!(!once.contains("${RUMAKE_ARGS}"));
        assert_eq!(normalize_rumake_args(&once), once);
        let had_placeholder = raw.contains("$RUMAKE_ARGS") || raw.contains("${RUMAKE_ARGS}");
        assert_eq!(once.contains("$RUMAKE_ARGS"), had_placeholder);
    }
    assert_eq!(
        normalize_rumake_args(&"${${RUMAKE_ARGS}RUMAKE_ARGS}".to_string()),
        "${$RUMAKE_ARGSRUMAKE_ARGS}".to_string()
    );
}
