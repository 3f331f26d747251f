use rumake::cli::{get_calls_args, get_task_name};

#[test]
fn test_get_calls_args() {
    assert_eq!(
        get_calls_args(&vec!["rumake".to_string(), "task".to_string()]).len(),
        0
    );

    let args = get_calls_args(&vec![
        "rumake".to_string(),
        "task".to_string(),
        "param".to_string(),
    ]);
    assert_eq!(args[0], "param");
    assert_eq!(args.len(), 1);
}

#[test]
#[should_panic]
fn test_get_task_name_panic() {
    get_task_name(&vec!["rumake".to_string()]);
}

#[test]
fn test_get_task_name_success() {
    let args = vec!["rumake".to_string(), "task".to_string()];
    assert_eq!(get_task_name(&args), &args[1]);
}

#[test]
fn get_calls_args_keeps_order() {
    let args: Vec<String> = ["rumake", "t", "a", "b", "c"].iter().map(|s| s.to_string()).collect();
    assert_eq!(get_calls_args(&args), vec!["a".to_string(), "b".to_string(), "c".to_string()]);
}
