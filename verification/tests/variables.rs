use rumake::name_map::NameMap;
use rumake::variables::{
    check_cyclic_dependencies, compute_value, depends_on, find_cyclic_variable, format_regex_match,
    get_references, rebuild_from_pieces, reference_pieces, references_from_pieces, resolve,
    try_resolve, ResolveError, Variable,
};
use rumake::spans::cut_at_spans;

fn vars(pairs: &[(&str, &str)]) -> NameMap<Variable> {
    let mut map = NameMap::new();
    for (name, value) in pairs {
        map.insert(
            name.to_string(),
            Variable { name: name.to_string(), value: value.to_string() },
        );
    }
    map
}

fn value_of(values: &NameMap<String>, name: &str) -> String {
    values.get(&name.to_string()).unwrap().clone()
}

fn resolved(pairs: &[(&str, &str)]) -> NameMap<String> {
    let variables = vars(pairs);
    assert!(find_cyclic_variable(&variables).is_none());
    resolve(&variables)
}

#[test]
fn resolve_braced_reference_from_readme() {
    let values = resolved(&[("$foo", "foo"), ("$bar", "bar baz${foo}51")]);
    assert_eq!(value_of(&values, "$foo"), "foo");
    assert_eq!(value_of(&values, "$bar"), "bar bazfoo51");
}

#[test]
fn resolve_replaces_whole_references_only() {
    let values = resolved(&[("$foo", "foo"), ("$foobar", "FB"), ("$x", "$foo $foobar")]);
    assert_eq!(value_of(&values, "$x"), "foo FB");
    let values = resolved(&[("$foo", "foo"), ("$x", "$foobar $foo")]);
    assert_eq!(value_of(&values, "$x"), "$foobar foo");
}

#[test]
fn resolve_plain_and_chained_references() {
    let values = resolved(&[("$a", "1"), ("$b", "$a-$a"), ("$c", "<$b>"), ("$d", "$unknown")]);
    assert_eq!(value_of(&values, "$a"), "1");
    assert_eq!(value_of(&values, "$b"), "1-1");
    assert_eq!(value_of(&values, "$c"), "<1-1>");
    assert_eq!(value_of(&values, "$d"), "$unknown");
    assert_eq!(values.len(), 4);
}

#[test]
fn self_reference_is_found() {
    let variables = vars(&[("$ok", "x"), ("$loop", "again $loop")]);
    assert_eq!(find_cyclic_variable(&variables), Some("$loop".to_string()));
    match try_resolve(&variables) {
        Err(ResolveError::CyclicDependency(name)) => assert_eq!(name, "$loop"),
        Ok(_) => panic!("a self reference must be rejected"),
    }
}

#[test]
fn indirect_cycle_names_first_variable_on_it() {
    let variables = vars(&[("$x", "plain"), ("$a", "$b"), ("$b", "${c}"), ("$c", "$a")]);
    assert_eq!(find_cyclic_variable(&variables), Some("$a".to_string()));
    let variables = vars(&[("$top", "$a"), ("$a", "$b"), ("$b", "$a")]);
    assert_eq!(find_cyclic_variable(&variables), Some("$a".to_string()));
}

#[test]
fn try_resolve_without_cycle() {
    let values = try_resolve(&vars(&[("$n", "123"), ("$m", "n=$n")])).unwrap();
    assert_eq!(value_of(&values, "$m"), "n=123");
}

#[test]
fn format_regex_match_strips_braces() {
    assert_eq!(format_regex_match("${foo}".to_string()), "$foo");
    assert_eq!(format_regex_match("$foo".to_string()), "$foo");
}

#[test]
fn references_keep_known_names_in_order() {
    let variables = vars(&[("$a", "1"), ("$b", "2")]);
    let pieces: Vec<(String, bool)> = vec![
        ("x ".to_string(), false),
        ("$b".to_string(), true),
        ("${zz}".to_string(), true),
        ("$a".to_string(), false),
        ("${a}".to_string(), true),
        ("$b".to_string(), true),
    ];
    assert_eq!(
        references_from_pieces(&pieces, &variables),
        vec!["$b".to_string(), "$a".to_string(), "$b".to_string()]
    );
}

#[test]
fn get_references_keys_only_referring_variables() {
    let variables = vars(&[("$foo", "foo"), ("$bar", "bar baz${foo}51 $HOME")]);
    let references = get_references(&variables);
    assert_eq!(references.len(), 1);
    assert_eq!(references.name_at(0), "$bar");
    assert_eq!(references.get(&"$bar".to_string()).unwrap(), &vec!["$foo".to_string()]);
    assert!(!references.contains_key(&"$foo".to_string()));
}

#[test]
fn get_references_keeps_repeats() {
    let variables = vars(&[("$a", "x"), ("$b", "$a and ${a} and $nope"), ("$c", "no refs")]);
    let references = get_references(&variables);
    assert_eq!(
        references.get(&"$b".to_string()).unwrap(),
        &vec!["$a".to_string(), "$a".to_string()]
    );
    assert!(references.get(&"$c".to_string()).is_none());
}

#[test]
fn depends_on_follows_references() {
    let variables = vars(&[("$a", "$b"), ("$b", "$c"), ("$c", "end"), ("$d", "$d")]);
    let references = get_references(&variables);
    let a = "$a".to_string();
    let c = "$c".to_string();
    let d = "$d".to_string();
    assert!(depends_on(&a, &c, &references));
    assert!(!depends_on(&c, &a, &references));
    assert!(!depends_on(&a, &a, &references));
    assert!(depends_on(&d, &d, &references));
    check_cyclic_dependencies(&a, &a, &references);
}

#[test]
fn depends_on_two_node_cycle() {
    let mut references: NameMap<Vec<String>> = NameMap::new();
    references.insert("$a".to_string(), vec!["$b".to_string()]);
    references.insert("$b".to_string(), vec!["$a".to_string(), "$gone".to_string()]);
    let a = "$a".to_string();
    assert!(depends_on(&a, &a, &references));
    assert!(depends_on(&a, &"$gone".to_string(), &references));
    assert!(!depends_on(&"$gone".to_string(), &a, &references));
}

#[test]
fn compute_value_with_limited_depth() {
    let variables = vars(&[("$a", "A"), ("$b", "[$a]"), ("$c", "($b)")]);
    let references = get_references(&variables);
    let c = "$c".to_string();
    assert_eq!(compute_value(&c, &variables, &references, 0), "($b)");
    assert_eq!(compute_value(&c, &variables, &references, 1), "([$a])");
    assert_eq!(compute_value(&c, &variables, &references, 2), "([A])");
    assert_eq!(compute_value(&c, &variables, &references, 3), "([A])");
}

#[test]
fn compute_value_without_references_entry() {
    let variables = vars(&[("$h", "home is $HOME")]);
    let references: NameMap<Vec<String>> = NameMap::new();
    assert_eq!(compute_value(&"$h".to_string(), &variables, &references, 5), "home is $HOME");
}

#[test]
fn compute_value_ignores_references_of_other_names() {
    let variables = vars(&[("$h", "home is $HOME"), ("$x", "$y")]);
    let mut references: NameMap<Vec<String>> = NameMap::new();
    references.insert("$x".to_string(), vec!["$y".to_string()]);
    assert_eq!(compute_value(&"$h".to_string(), &variables, &references, 5), "home is $HOME");
}

fn piece(text: &str, matched: bool) -> (String, bool) {
    (text.to_string(), matched)
}

#[test]
fn cut_at_spans_keeps_every_character() {
    assert_eq!(
        cut_at_spans("ab$xcd", &[(2, 4)]),
        vec![piece("ab", false), piece("$x", true), piece("cd", false)]
    );
    assert_eq!(cut_at_spans("", &[]), vec![piece("", false)]);
    assert_eq!(
        cut_at_spans("$a$b", &[(0, 2), (2, 4)]),
        vec![piece("", false), piece("$a", true), piece("", false), piece("$b", true), piece("", false)]
    );
    // Offsets count bytes: "é" takes two.
    assert_eq!(
        cut_at_spans("é$v!", &[(2, 4)]),
        vec![piece("é", false), piece("$v", true), piece("!", false)]
    );
}

#[test]
fn reference_pieces_cut_at_references() {
    assert_eq!(
        reference_pieces("bar baz${foo}51 $HOME"),
        vec![
            piece("bar baz", false),
            piece("${foo}", true),
            piece("51 ", false),
            piece("$HOME", true),
            piece("", false),
        ]
    );
    assert_eq!(reference_pieces("ü $näme."), vec![piece("ü ", false), piece("$näme", true), piece(".", false)]);
    assert_eq!(reference_pieces("no references"), vec![piece("no references", false)]);
}

#[test]
fn rebuild_from_pieces_replaces_listed_references() {
    let pieces = vec![piece("<", false), piece("${a}", true), piece("|", false), piece("$b", true), piece(">", false)];
    let mut values: NameMap<String> = NameMap::new();
    values.insert("$a".to_string(), "A".to_string());
    values.insert("$b".to_string(), "B".to_string());
    assert_eq!(rebuild_from_pieces(&pieces, &vec!["$a".to_string()], &values), "<A|$b>");
    assert_eq!(
        rebuild_from_pieces(&pieces, &vec!["$a".to_string(), "$b".to_string()], &values),
        "<A|B>"
    );
}
