use rumake::config::{
    config_fault, integer_text, load_config, parse_config_entries, scalar_value_text,
    try_load_config, yaml_element_as_string,
};
use rumake::tasks::{
    create_instruction, extract_instructions, instruction_from_words, instructions_fault,
    try_extract_instructions, ConfigError, ConfigItem, ConfigValue,
};
use yaml_rust::Yaml;

/// The value of the single entry `v: <text>`, a float given as the decimal
/// text of its value.
fn config_value(text: &str) -> ConfigValue {
    let mut entries = parse_config_entries(&format!("v: {}", text)).unwrap();
    match entries.pop().unwrap().1 {
        ConfigValue::Real(raw) => match Yaml::Real(raw).as_f64() {
            Some(f) => ConfigValue::Real(f.to_string()),
            None => ConfigValue::Other,
        },
        other => other,
    }
}

fn text(s: &str) -> ConfigValue {
    ConfigValue::Text(s.to_string())
}

#[test]
fn test_yaml_element_as_string_string() {
    assert_eq!(yaml_element_as_string(&config_value("foo")), "foo");
}

#[test]
fn test_yaml_element_as_string_integer() {
    assert_eq!(yaml_element_as_string(&config_value("123")), "123");
}

#[test]
fn test_yaml_element_as_string_float() {
    assert_eq!(yaml_element_as_string(&config_value("13.37")), "13.37");
}

#[test]
fn test_yaml_element_as_string_bool() {
    assert_eq!(yaml_element_as_string(&config_value("true")), "true");
}

#[test]
#[should_panic]
fn test_yaml_element_as_string_null_panic() {
    let value = config_value("~");
    yaml_element_as_string(&value);
}

#[test]
fn scalar_value_text_of_each_kind() {
    assert_eq!(scalar_value_text(&ConfigValue::Boolean(false)).unwrap(), "false");
    assert_eq!(scalar_value_text(&ConfigValue::Integer(-42)).unwrap(), "-42");
    assert!(scalar_value_text(&ConfigValue::List(vec![])).is_none());
    assert!(scalar_value_text(&ConfigValue::Other).is_none());
}

#[test]
fn integer_text_matches_to_string() {
    for i in [0i64, 7, 10, 99, 100, 12345, -1, -10, -987, i64::MAX, i64::MIN] {
        assert_eq!(integer_text(i), i.to_string());
    }
}

#[test]
fn test_create_instruction() {
    let instruction = create_instruction("command arg1 --arg2 value").unwrap();
    assert_eq!(instruction.program, "command");
    assert_eq!(
        instruction.arguments,
        vec![
            "arg1".to_string(),
            "--arg2".to_string(),
            "value".to_string()
        ]
    );
}

#[test]
fn create_instruction_quotes_and_failures() {
    let instruction = create_instruction("echo \"two words\" 'and more'").unwrap();
    assert_eq!(instruction.program, "echo");
    assert_eq!(instruction.arguments, vec!["two words".to_string(), "and more".to_string()]);
    assert!(create_instruction("echo \"unterminated").is_none());
    assert!(create_instruction("   ").is_none());
    assert!(create_instruction("").is_none());
}

#[test]
fn instruction_from_words_splits_program() {
    let i = instruction_from_words(vec!["ls".to_string(), "-a".to_string()]);
    assert_eq!(i.program, "ls");
    assert_eq!(i.arguments, vec!["-a".to_string()]);
}

#[test]
fn extract_instructions_one_level_of_lists() {
    let value = config_value("[\"echo foo\", [\"echo bar\", \"echo baz\"], \"ls -l\"]");
    assert!(instructions_fault("task", &value, true).is_none());
    let instructions = extract_instructions("task", &value, true);
    let programs: Vec<String> = instructions.iter().map(|i| i.program.clone()).collect();
    assert_eq!(programs, vec!["echo", "echo", "echo", "ls"]);
    assert_eq!(instructions[2].arguments, vec!["baz".to_string()]);
}

#[test]
fn extract_instructions_faults() {
    let nested = config_value("[\"echo foo\", [\"echo bar\", [\"echo baz\", \"echo goo\"]]]");
    assert!(matches!(
        instructions_fault("task", &nested, true),
        Some(ConfigError::InstructionNotString(name)) if name == "task"
    ));
    assert!(matches!(
        try_extract_instructions("task", &ConfigValue::Integer(1), true),
        Err(ConfigError::TaskNotStringOrList(_))
    ));
    assert!(matches!(
        instructions_fault("task", &ConfigValue::List(vec![ConfigItem::Other]), true),
        Some(ConfigError::InstructionNotString(_))
    ));
    assert!(matches!(
        instructions_fault("task", &ConfigValue::List(vec![ConfigItem::List(vec![])]), false),
        Some(ConfigError::InstructionNotString(_))
    ));
    assert!(matches!(
        instructions_fault("task", &text("echo 'oops"), true),
        Some(ConfigError::BadInstruction(line)) if line == "echo 'oops"
    ));
}

#[test]
fn parse_then_load_config() {
    let entries = parse_config_entries(
        "dkcr: docker-compose run --rm\nme:\n  - \"@hello\"\n  - echo hi\n$from: world\n$n: 3\n",
    )
    .unwrap();
    assert_eq!(entries.len(), 4);
    assert!(config_fault(&entries).is_none());
    let config = load_config(&entries);
    assert_eq!(config.tasks.len(), 2);
    assert_eq!(config.tasks.name_at(0), "dkcr");
    assert_eq!(config.variables.len(), 2);
    let me = config.tasks.get(&"me".to_string()).unwrap();
    assert_eq!(me.instructions.len(), 2);
    assert_eq!(me.instructions[0].program, "@hello");
    assert_eq!(config.variables.get(&"$n".to_string()).unwrap().value, "3");
    assert_eq!(config.variables.get(&"$from".to_string()).unwrap().name, "$from");
}

#[test]
fn parse_config_entries_rejects_non_mappings() {
    assert!(parse_config_entries("- a\n- b\n").is_none());
    assert!(parse_config_entries("").is_none());
    assert!(parse_config_entries("a: [unclosed").is_none());
    assert!(parse_config_entries("1: x\n").is_none());
    let entries = parse_config_entries("r: 1.50\n").unwrap();
    assert!(matches!(&entries[0].1, ConfigValue::Real(raw) if raw == "1.50"));
}

#[test]
fn load_config_reports_bad_entries() {
    let bad_variable = vec![("$v".to_string(), ConfigValue::Other)];
    assert!(matches!(
        try_load_config(&bad_variable),
        Err(ConfigError::UnsupportedVariableValue(name)) if name == "$v"
    ));
    let bad_task = vec![("t".to_string(), ConfigValue::Boolean(true))];
    assert!(matches!(config_fault(&bad_task), Some(ConfigError::TaskNotStringOrList(_))));
}

#[test]
fn null_value_is_not_a_scalar() {
    assert!(scalar_value_text(&config_value("~")).is_none());
}

#[test]
fn only_the_first_document_is_read() {
    let entries = parse_config_entries("a: x\n---\nb: y\n").unwrap();
    assert_eq!(entries.len(), 1);
    assert_eq!(entries[0].0, "a");
    assert!(parse_config_entries("").is_none());
    assert!(parse_config_entries("- not a mapping\n---\nb: y\n").is_none());
}
