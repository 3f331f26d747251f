//! The configuration's entries become tasks and variables: a name that starts
//! with `$` is a variable, any other name a task.
use vstd::prelude::*;
use crate::name_map::NameMap;
use crate::tasks::{
    instructions_of,
    task_instructions,
    ConfigError,
    ConfigFault,
    ConfigValue,
    Task,
    ValueData,
};
use crate::tasks::ConfigItem::{List, Other, Text};
use yaml_rust::Yaml;
use yaml_rust::Yaml::{Array, Boolean, Integer, Real};
use yaml_rust::Yaml::String as YamlString;
use yaml_rust::YamlLoader;
use crate::variables::Variable;

verus! {

/// The character of the decimal digit `d`.
pub open spec fn digit_char(d: int) -> char {
    seq!['0', '1', '2', '3', '4', '5', '6', '7', '8', '9'][d]
}

/// The decimal digits of `n`, without leading zeros.
pub open spec fn decimal(n: nat) -> Seq<char>
    decreases n,
{
    if n < 10 {
        seq![digit_char(n as int)]
    } else {
        decimal(n / 10).push(digit_char((n % 10) as int))
    }
}

/// The decimal text of `i`, with a leading `-` when it is negative.
pub open spec fn signed_decimal(i: int) -> Seq<char> {
    if i < 0 {
        seq!['-'] + decimal((-i) as nat)
    } else {
        decimal(i as nat)
    }
}

/// The text of a scalar value of the configuration, if it is one.
pub open spec fn scalar_text(value: ValueData) -> Option<Seq<char>> {
    match value {
        ValueData::Text(s) => Some(s),
        ValueData::Integer(i) => Some(signed_decimal(i)),
        ValueData::Real(s) => Some(s),
        ValueData::Boolean(b) => Some(
            if b {
                "true"@
            } else {
                "false"@
            },
        ),
        _ => None,
    }
}

/// The text of one decimal digit.
fn digit_text(d: u64) -> (res: &'static str)
    requires
        d < 10,
    ensures
        res@ == seq![digit_char(d as int)],
{
    proof {
        reveal_strlit("0");
        reveal_strlit("1");
        reveal_strlit("2");
        reveal_strlit("3");
        reveal_strlit("4");
        reveal_strlit("5");
        reveal_strlit("6");
        reveal_strlit("7");
        reveal_strlit("8");
        reveal_strlit("9");
    }
    let res = if d == 0 {
        "0"
    } else if d == 1 {
        "1"
    } else if d == 2 {
        "2"
    } else if d == 3 {
        "3"
    } else if d == 4 {
        "4"
    } else if d == 5 {
        "5"
    } else if d == 6 {
        "6"
    } else if d == 7 {
        "7"
    } else if d == 8 {
        "8"
    } else {
        "9"
    };
    assert(res@ =~= seq![digit_char(d as int)]);
    res
}

/// Appends the decimal digits of `n` to `out`.
fn push_decimal(out: &mut String, n: u64)
    ensures
        final(out)@ == old(out)@ + decimal(n as nat),
    decreases n,
{
    if n >= 10 {
        push_decimal(out, n / 10);
    }
    out.append(digit_text(n % 10));
    proof {
        if n >= 10 {
            assert(final(out)@ =~= old(out)@ + decimal(n as nat));
        } else {
            assert(final(out)@ =~= old(out)@ + decimal(n as nat));
        }
    }
}

/// The decimal text of `i`, as `i64::to_string` writes it.
pub fn integer_text(i: i64) -> (res: String)
    ensures
        res@ == signed_decimal(i as int),
{
    let mut res = String::new();
    if i < 0 {
        res.append("-");
        proof {
            reveal_strlit("-");
        }
        let magnitude = (0i128 - (i as i128)) as u64;
        push_decimal(&mut res, magnitude);
    } else {
        push_decimal(&mut res, i as u64);
    }
    proof {
        assert(res@ =~= signed_decimal(i as int));
    }
    res
}

/// The text of a scalar value, or `None` for any other value.
fn scalar_of(value: &ConfigValue) -> (res: Option<String>)
    ensures
        match res {
            Some(s) => scalar_text(value@) == Some(s@),
            None => scalar_text(value@) is None,
        },
{
    match value {
        ConfigValue::Text(s) => Some(s.clone()),
        ConfigValue::Integer(i) => Some(integer_text(*i)),
        ConfigValue::Real(s) => Some(s.clone()),
        ConfigValue::Boolean(b) => {
            if *b {
                Some("true".to_owned())
            } else {
                Some("false".to_owned())
            }
        },
        _ => None,
    }
}

/// The text of a variable's value: a string as it is, a number in decimal, a
/// boolean as `true` or `false`. Any other value has no text: the caller
/// tests the value first (`config_fault` does so for every variable).
pub fn yaml_element_as_string(value: &ConfigValue) -> (res: String)
    requires
        scalar_text(value@) is Some,
    ensures
        scalar_text(value@) == Some(res@),
{
    match scalar_of(value) {
        Some(s) => s,
        None => vstd::pervasive::unreached(),
    }
}

/// The tasks and variables of a configuration.
pub struct Config {
    pub tasks: NameMap<Task>,
    pub variables: NameMap<Variable>,
}

/// The views of a map of tasks.
pub open spec fn task_views(m: Map<Seq<char>, Task>) -> Map<
    Seq<char>,
    (Seq<char>, Seq<(Seq<char>, Seq<Seq<char>>)>),
> {
    m.map_values(|t: Task| t@)
}

/// The name and value of each variable of a map.
pub open spec fn variable_views(m: Map<Seq<char>, Variable>) -> Map<Seq<char>, (Seq<char>, Seq<char>)> {
    m.map_values(|v: Variable| (v.name@, v.value@))
}

/// `name` is a variable's name: it starts with `$`.
pub open spec fn is_variable_name(name: Seq<char>) -> bool {
    name.len() > 0 && name[0] == '$'
}

/// The tasks and variables that the entries give, read in order, or the
/// first fault met.
pub open spec fn config_of(entries: Seq<(String, ConfigValue)>) -> Result<
    (
        Map<Seq<char>, (Seq<char>, Seq<(Seq<char>, Seq<Seq<char>>)>)>,
        Map<Seq<char>, (Seq<char>, Seq<char>)>,
    ),
    ConfigFault,
>
    decreases entries.len(),
{
    if entries.len() == 0 {
        Ok((Map::empty(), Map::empty()))
    } else {
        match config_of(entries.drop_last()) {
            Err(e) => Err(e),
            Ok((tasks, variables)) => {
                let name = entries.last().0@;
                let value = entries.last().1@;
                if is_variable_name(name) {
                    match scalar_text(value) {
                        Some(t) => Ok((tasks, variables.insert(name, (name, t)))),
                        None => Err(ConfigFault::UnsupportedVariableValue(name)),
                    }
                } else {
                    match task_instructions(name, value, true) {
                        Ok(instructions) => Ok((tasks.insert(name, (name, instructions)), variables)),
                        Err(e) => Err(e),
                    }
                }
            },
        }
    }
}

/// The distinct names of the entries that satisfy `keep`, in the order of
/// their first occurrence.
pub open spec fn names_in_order(
    entries: Seq<(String, ConfigValue)>,
    keep: spec_fn(Seq<char>) -> bool,
) -> Seq<Seq<char>>
    decreases entries.len(),
{
    if entries.len() == 0 {
        Seq::empty()
    } else {
        let prev = names_in_order(entries.drop_last(), keep);
        let name = entries.last().0@;
        if keep(name) && !prev.contains(name) {
            prev.push(name)
        } else {
            prev
        }
    }
}

/// Once a prefix of the entries fails, all of them fail the same way.
proof fn lemma_config_error_stays(entries: Seq<(String, ConfigValue)>, j: int)
    requires
        0 <= j <= entries.len(),
        config_of(entries.subrange(0, j)) is Err,
    ensures
        config_of(entries) == config_of(entries.subrange(0, j)),
    decreases entries.len() - j,
{
    if j == entries.len() {
        assert(entries.subrange(0, j) =~= entries);
    } else {
        assert(entries.subrange(0, j + 1).drop_last() =~= entries.subrange(0, j));
        lemma_config_error_stays(entries, j + 1);
    }
}

/// Whether `name` starts with `$`.
fn starts_with_dollar(name: &String) -> (res: bool)
    ensures
        res == is_variable_name(name@),
{
    let s = name.as_str();
    s.unicode_len() > 0 && s.get_char(0) == '$'
}

/// The tasks and variables of the entries, or their first fault.
fn load(entries: &[(String, ConfigValue)]) -> (res: Result<Config, ConfigError>)
    ensures
        match res {
            Ok(config) => config_of(entries@) == Ok::<
                (
                    Map<Seq<char>, (Seq<char>, Seq<(Seq<char>, Seq<Seq<char>>)>)>,
                    Map<Seq<char>, (Seq<char>, Seq<char>)>,
                ),
                ConfigFault,
            >((task_views(config.tasks@), variable_views(config.variables@))) && config.tasks.names()
                == names_in_order(entries@, |n: Seq<char>| !is_variable_name(n))
                && config.variables.names() == names_in_order(
                entries@,
                |n: Seq<char>| is_variable_name(n),
            ),
            Err(e) => config_of(entries@) == Err::<
                (
                    Map<Seq<char>, (Seq<char>, Seq<(Seq<char>, Seq<Seq<char>>)>)>,
                    Map<Seq<char>, (Seq<char>, Seq<char>)>,
                ),
                ConfigFault,
            >(e@),
        },
{
    let mut tasks: NameMap<Task> = NameMap::new();
    let mut variables: NameMap<Variable> = NameMap::new();
    let mut i: usize = 0;
    assert(entries@.subrange(0, 0) =~= Seq::<(String, ConfigValue)>::empty());
    assert(names_in_order(entries@.subrange(0, 0), |n: Seq<char>| !is_variable_name(n))
        =~= Seq::<Seq<char>>::empty());
    assert(names_in_order(entries@.subrange(0, 0), |n: Seq<char>| is_variable_name(n))
        =~= Seq::<Seq<char>>::empty());
    assert(task_views(tasks@) =~= Map::empty());
    assert(variable_views(variables@) =~= Map::empty());
    while i < entries.len()
        invariant
            i <= entries@.len(),
            config_of(entries@.subrange(0, i as int)) == Ok::<
                (
                    Map<Seq<char>, (Seq<char>, Seq<(Seq<char>, Seq<Seq<char>>)>)>,
                    Map<Seq<char>, (Seq<char>, Seq<char>)>,
                ),
                ConfigFault,
            >((task_views(tasks@), variable_views(variables@))),
            tasks.names() == names_in_order(
                entries@.subrange(0, i as int),
                |n: Seq<char>| !is_variable_name(n),
            ),
            variables.names() == names_in_order(
                entries@.subrange(0, i as int),
                |n: Seq<char>| is_variable_name(n),
            ),
            tasks.well_formed(),
            variables.well_formed(),
        decreases entries@.len() - i,
    {
        let name = &entries[i].0;
        let value = &entries[i].1;
        let ghost prefix = entries@.subrange(0, i + 1);
        proof {
            assert(prefix.drop_last() =~= entries@.subrange(0, i as int));
            assert(prefix.last() == entries@[i as int]);
        }
        if starts_with_dollar(name) {
            match scalar_of(value) {
                Some(text) => {
                    let ghost before = variable_views(variables@);
                    variables.insert(name.clone(), Variable { name: name.clone(), value: text });
                    proof {
                        assert(variable_views(variables@) =~= before.insert(
                            name@,
                            (name@, text@),
                        ));
                    }
                },
                None => {
                    proof {
                        lemma_config_error_stays(entries@, i + 1);
                    }
                    return Err(ConfigError::UnsupportedVariableValue(name.clone()));
                },
            }
        } else {
            match instructions_of(name.as_str(), value, true) {
                Ok(instructions) => {
                    let ghost before = task_views(tasks@);
                    let task = Task { name: name.clone(), instructions };
                    tasks.insert(name.clone(), task);
                    proof {
                        assert(task_views(tasks@) =~= before.insert(name@, task@));
                    }
                },
                Err(e) => {
                    proof {
                        lemma_config_error_stays(entries@, i + 1);
                    }
                    return Err(e);
                },
            }
        }
        i = i + 1;
    }
    assert(entries@.subrange(0, entries@.len() as int) =~= entries@);
    Ok(Config { tasks, variables })
}

/// The first fault of the entries, read in order, if any: `None` exactly
/// when `load_config` accepts them.
pub fn config_fault(entries: &[(String, ConfigValue)]) -> (res: Option<ConfigError>)
    ensures
        match res {
            None => config_of(entries@) is Ok,
            Some(e) => config_of(entries@) == Err::<
                (
                    Map<Seq<char>, (Seq<char>, Seq<(Seq<char>, Seq<Seq<char>>)>)>,
                    Map<Seq<char>, (Seq<char>, Seq<char>)>,
                ),
                ConfigFault,
            >(e@),
        },
{
    match load(entries) {
        Ok(_) => None,
        Err(e) => Some(e),
    }
}

/// Reads the configuration's entries in order: a name that starts with `$`
/// is a variable, whose value is a string, a number or a boolean; any other
/// name is a task, whose value is a string or a list of them. The entries
/// must have no fault, which `config_fault` tests.
pub fn load_config(entries: &[(String, ConfigValue)]) -> (config: Config)
    requires
        config_of(entries@) is Ok,
    ensures
        config_of(entries@) == Ok::<
            (
                Map<Seq<char>, (Seq<char>, Seq<(Seq<char>, Seq<Seq<char>>)>)>,
                Map<Seq<char>, (Seq<char>, Seq<char>)>,
            ),
            ConfigFault,
        >((task_views(config.tasks@), variable_views(config.variables@))),
        config.tasks.names() == names_in_order(entries@, |n: Seq<char>| !is_variable_name(n)),
        config.variables.names() == names_in_order(entries@, |n: Seq<char>| is_variable_name(n)),
{
    match load(entries) {
        Ok(config) => config,
        Err(_) => vstd::pervasive::unreached(),
    }
}

/// The tasks and variables of the entries, or their first fault.
pub fn try_load_config(entries: &[(String, ConfigValue)]) -> (res: Result<Config, ConfigError>)
    ensures
        match res {
            Ok(config) => {
                &&& config_of(entries@) == Ok::<
                    (
                        Map<Seq<char>, (Seq<char>, Seq<(Seq<char>, Seq<Seq<char>>)>)>,
                        Map<Seq<char>, (Seq<char>, Seq<char>)>,
                    ),
                    ConfigFault,
                >((task_views(config.tasks@), variable_views(config.variables@)))
                &&& config.tasks.names() == names_in_order(
                    entries@,
                    |n: Seq<char>| !is_variable_name(n),
                )
                &&& config.variables.names() == names_in_order(
                    entries@,
                    |n: Seq<char>| is_variable_name(n),
                )
            },
            Err(e) => config_of(entries@) == Err::<
                (
                    Map<Seq<char>, (Seq<char>, Seq<(Seq<char>, Seq<Seq<char>>)>)>,
                    Map<Seq<char>, (Seq<char>, Seq<char>)>,
                ),
                ConfigFault,
            >(e@),
        },
{
    match config_fault(entries) {
        Some(e) => Err(e),
        None => Ok(load_config(entries)),
    }
}

/// The text of a value when it is a scalar: a string, a number or a
/// boolean; `None` otherwise.
pub fn scalar_value_text(value: &ConfigValue) -> (res: Option<String>)
    ensures
        match res {
            Some(s) => scalar_text(value@) == Some(s@),
            None => scalar_text(value@) is None,
        },
{
    match scalar_of(value) {
        Some(_) => Some(yaml_element_as_string(value)),
        None => None,
    }
}

/// The name and value of each entry.
pub open spec fn entry_views(entries: Seq<(String, ConfigValue)>) -> Seq<(Seq<char>, ValueData)> {
    entries.map_values(|e: (String, ConfigValue)| (e.0@, e.1@))
}

/// The documents of the YAML text `text`, in order: for each, its entries in
/// order, each value read as far as tasks and variables read it, or `None`
/// when the document is not a mapping with string keys; `None` as a whole
/// when the text is not YAML.
pub uninterp spec fn yaml_documents(text: Seq<char>) -> Option<
    Seq<Option<Seq<(Seq<char>, ValueData)>>>,
>;

/// The entries of each document, where the document has them.
pub open spec fn document_views(docs: Seq<Option<Vec<(String, ConfigValue)>>>) -> Seq<
    Option<Seq<(Seq<char>, ValueData)>>,
> {
    docs.map_values(
        |d: Option<Vec<(String, ConfigValue)>>|
            match d {
                Some(entries) => Some(entry_views(entries@)),
                None => None,
            },
    )
}

/// Parses `text` with `yaml_rust::YamlLoader::load_from_str` and reads each
/// document, which `Yaml::into_hash` must find to be a mapping, entry by
/// entry: each key must be a string (`Yaml::into_string`); each value becomes
/// a `ConfigValue`, a list's items `ConfigItem`s, and their items strings or
/// not (`Yaml::into_string`). A floating-point number keeps the text it was
/// written with. The contract claims that the result is determined by the
/// text (`yaml_documents`); YAML's syntax is left unstated.
#[verifier::external_body]
fn parse_yaml_documents(text: &str) -> (res: Option<Vec<Option<Vec<(String, ConfigValue)>>>>)
    ensures
        match res {
            Some(docs) => yaml_documents(text@) == Some(document_views(docs@)),
            None => yaml_documents(text@) is None,
        },
{
    let item = |y| match y {
        YamlString(s) => Text(s),
        Array(a) => List(a.into_iter().map(Yaml::into_string).collect()),
        _ => Other,
    };
    Some(YamlLoader::load_from_str(text).ok()?.into_iter().map(|d| d.into_hash()?.into_iter().map(
        |(k, v)| Some((k.into_string()?, match v {
            YamlString(s) => ConfigValue::Text(s),
            Integer(i) => ConfigValue::Integer(i),
            Real(r) => ConfigValue::Real(r),
            Boolean(b) => ConfigValue::Boolean(b),
            Array(a) => ConfigValue::List(a.into_iter().map(item).collect()),
            _ => ConfigValue::Other,
        }))).collect()).collect())
}

/// The entries of the configuration: those of the first document of the
/// text; `None` when the text is not YAML, holds no document, or its first
/// document is not a mapping with string keys.
pub open spec fn config_entries(text: Seq<char>) -> Option<Seq<(Seq<char>, ValueData)>> {
    match yaml_documents(text) {
        Some(docs) => if docs.len() == 0 {
            None
        } else {
            docs[0]
        },
        None => None,
    }
}

/// The entries of the configuration text, in order: those of its first
/// document; `None` when the text is not YAML, holds no document, or its
/// first document is not a mapping with string keys. A floating-point number
/// keeps the text it was written with.
pub fn parse_config_entries(text: &str) -> (res: Option<Vec<(String, ConfigValue)>>)
    ensures
        match res {
            Some(v) => config_entries(text@) == Some(entry_views(v@)),
            None => config_entries(text@) is None,
        },
{
    match parse_yaml_documents(text) {
        None => None,
        Some(docs) => {
            let mut docs = docs;
            if docs.len() == 0 {
                None
            } else {
                let ghost views = document_views(docs@);
                let first = docs.remove(0);
                assert(views[0] == match first {
                    Some(entries) => Some(entry_views(entries@)),
                    None => None::<Seq<(Seq<char>, ValueData)>>,
                });
                first
            }
        },
    }
}

/// An entry that the configuration accepts: a variable whose value is a
/// string, a number or a boolean, or a task whose value gives instructions
/// when read at the first level, where a list may hold lists of strings.
pub open spec fn entry_accepted(entry: (String, ConfigValue)) -> bool {
    if is_variable_name(entry.0@) {
        scalar_text(entry.1@) is Some
    } else {
        task_instructions(entry.0@, entry.1@, true) is Ok
    }
}

/// The configuration is loaded exactly when each of its entries is
/// accepted on its own.
pub proof fn lemma_config_accepts(entries: Seq<(String, ConfigValue)>)
    ensures
        config_of(entries) is Ok <==> forall|i: int|
            0 <= i < entries.len() ==> entry_accepted(#[trigger] entries[i]),
    decreases entries.len(),
{
    if entries.len() > 0 {
        let prev = entries.drop_last();
        lemma_config_accepts(prev);
        assert forall|i: int| 0 <= i < prev.len() implies prev[i] == entries[i] by {}
        if config_of(entries) is Ok {
            assert forall|i: int| 0 <= i < entries.len() implies entry_accepted(
                #[trigger] entries[i],
            ) by {
                if i < prev.len() {
                    assert(prev[i] == entries[i]);
                }
            }
        }
        if forall|i: int| 0 <= i < entries.len() ==> entry_accepted(#[trigger] entries[i]) {
            assert forall|i: int| 0 <= i < prev.len() implies entry_accepted(#[trigger] prev[i]) by {
                assert(entry_accepted(entries[i]));
            }
            assert(entry_accepted(entries[entries.len() - 1]));
        }
    }
}

/// In a loaded configuration, the last entry of each name decides it: a
/// variable gets the text of its value, a task the instructions of its
/// value read at the first level.
pub proof fn lemma_config_last_entry_decides(entries: Seq<(String, ConfigValue)>, i: int)
    requires
        0 <= i < entries.len(),
        config_of(entries) is Ok,
        forall|j: int| i < j < entries.len() ==> #[trigger] entries[j].0@ != entries[i].0@,
    ensures
        match config_of(entries) {
            Ok((tasks, variables)) => {
                let name = entries[i].0@;
                let value = entries[i].1@;
                if is_variable_name(name) {
                    &&& variables.dom().contains(name)
                    &&& Some(variables[name].1) == scalar_text(value)
                    &&& variables[name].0 == name
                } else {
                    &&& tasks.dom().contains(name)
                    &&& Ok::<Seq<(Seq<char>, Seq<Seq<char>>)>, ConfigFault>(tasks[name].1)
                        == task_instructions(name, value, true)
                    &&& tasks[name].0 == name
                }
            },
            Err(_) => false,
        },
    decreases entries.len(),
{
    let prev = entries.drop_last();
    if i < entries.len() - 1 {
        assert(config_of(prev) is Ok);
        assert forall|j: int| i < j < prev.len() implies #[trigger] prev[j].0@ != prev[i].0@ by {
            assert(prev[j] == entries[j]);
        }
        lemma_config_last_entry_decides(prev, i);
        assert(prev[i] == entries[i]);
        assert(entries.last().0@ != entries[i].0@);
    }
}

} // verus!
