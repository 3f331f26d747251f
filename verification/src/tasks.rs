//! Tasks and their instructions, and how the configuration's value for a task
//! becomes its list of instructions.
use vstd::prelude::*;
use crate::text::{lemma_texts_push, texts};

verus! {

/// One instruction of a task: a program and its arguments. A program that
/// starts with `@` refers to another task.
#[derive(Debug)]
pub struct Instruction {
    pub program: String,
    pub arguments: Vec<String>,
}

impl View for Instruction {
    type V = (Seq<char>, Seq<Seq<char>>);

    open spec fn view(&self) -> (Seq<char>, Seq<Seq<char>>) {
        (self.program@, texts(self.arguments@))
    }
}

/// A task: its name and its instructions, run in order.
#[derive(Debug)]
pub struct Task {
    pub name: String,
    pub instructions: Vec<Instruction>,
}

/// The views of a sequence of instructions.
pub open spec fn instruction_views(v: Seq<Instruction>) -> Seq<(Seq<char>, Seq<Seq<char>>)> {
    v.map_values(|i: Instruction| i@)
}

impl View for Task {
    type V = (Seq<char>, Seq<(Seq<char>, Seq<Seq<char>>)>);

    open spec fn view(&self) -> (Seq<char>, Seq<(Seq<char>, Seq<Seq<char>>)>) {
        (self.name@, instruction_views(self.instructions@))
    }
}

/// A value of the configuration file, as far as tasks and variables read it.
#[derive(Debug)]
pub enum ConfigValue {
    /// A string.
    Text(String),
    /// An integer.
    Integer(i64),
    /// A floating-point number, as text.
    Real(String),
    /// A boolean.
    Boolean(bool),
    /// A list of items.
    List(Vec<ConfigItem>),
    /// Anything else: null, a mapping, an alias.
    Other,
}

/// An item of a list in the configuration, as far as tasks read it: a
/// string, a list whose elements are each a string (`Some`) or not (`None`),
/// or anything else.
#[derive(Debug)]
pub enum ConfigItem {
    Text(String),
    List(Vec<Option<String>>),
    Other,
}

/// The spec-level meaning of a `ConfigItem`.
pub enum ItemData {
    Text(Seq<char>),
    List(Seq<Option<Seq<char>>>),
    Other,
}

/// The spec-level meaning of a `ConfigValue`.
pub enum ValueData {
    Text(Seq<char>),
    Integer(int),
    Real(Seq<char>),
    Boolean(bool),
    List(Seq<ItemData>),
    Other,
}

/// The characters of an optional string.
pub open spec fn optional_text(o: Option<String>) -> Option<Seq<char>> {
    match o {
        Some(s) => Some(s@),
        None => None,
    }
}

impl View for ConfigItem {
    type V = ItemData;

    open spec fn view(&self) -> ItemData {
        match self {
            ConfigItem::Text(s) => ItemData::Text(s@),
            ConfigItem::List(lines) => ItemData::List(lines@.map_values(|o: Option<String>| optional_text(o))),
            ConfigItem::Other => ItemData::Other,
        }
    }
}

impl View for ConfigValue {
    type V = ValueData;

    open spec fn view(&self) -> ValueData {
        match self {
            ConfigValue::Text(s) => ValueData::Text(s@),
            ConfigValue::Integer(i) => ValueData::Integer(*i as int),
            ConfigValue::Real(s) => ValueData::Real(s@),
            ConfigValue::Boolean(b) => ValueData::Boolean(*b),
            ConfigValue::List(items) => ValueData::List(items@.map_values(|i: ConfigItem| i@)),
            ConfigValue::Other => ValueData::Other,
        }
    }
}

/// What is wrong with the configuration.
#[derive(Debug)]
pub enum ConfigError {
    /// The task's value is neither a string nor a list.
    TaskNotStringOrList(String),
    /// An instruction of the task is neither a string nor, at the first
    /// level, a list of strings.
    InstructionNotString(String),
    /// The instruction line holds no word, or a quote without its match.
    BadInstruction(String),
    /// The variable's value is not a string, a number or a boolean.
    UnsupportedVariableValue(String),
}

/// The spec-level meaning of a `ConfigError`.
pub enum ConfigFault {
    TaskNotStringOrList(Seq<char>),
    InstructionNotString(Seq<char>),
    BadInstruction(Seq<char>),
    UnsupportedVariableValue(Seq<char>),
}

impl View for ConfigError {
    type V = ConfigFault;

    open spec fn view(&self) -> ConfigFault {
        match self {
            ConfigError::TaskNotStringOrList(n) => ConfigFault::TaskNotStringOrList(n@),
            ConfigError::InstructionNotString(n) => ConfigFault::InstructionNotString(n@),
            ConfigError::BadInstruction(l) => ConfigFault::BadInstruction(l@),
            ConfigError::UnsupportedVariableValue(n) => ConfigFault::UnsupportedVariableValue(n@),
        }
    }
}

/// The words of `line` as the Bourne shell would split it (quotes and
/// backslashes taken into account), or `None` when a quote is not matched.
pub uninterp spec fn shell_words(line: Seq<char>) -> Option<Seq<Seq<char>>>;

/// Splits `line` into words with `shellwords::split`. The contract claims that
/// the result, or its absence on mismatched quotes, is determined by the line
/// (`shell_words`); the splitting rules themselves are left unstated.
#[verifier::external_body]
fn split_shell_words(line: &str) -> (res: Option<Vec<String>>)
    ensures
        match res {
            Some(words) => shell_words(line@) == Some(texts(words@)),
            None => shell_words(line@) is None,
        },
{
    shellwords::split(line).ok()
}

/// The instruction made of the words of a line: the first word is the
/// program, the others its arguments.
pub open spec fn instruction_of_words(words: Seq<Seq<char>>) -> (Seq<char>, Seq<Seq<char>>) {
    (words[0], words.skip(1))
}

/// The instruction that a line of the configuration gives, if any.
pub open spec fn line_instruction(line: Seq<char>) -> Option<(Seq<char>, Seq<Seq<char>>)> {
    match shell_words(line) {
        Some(words) => if words.len() > 0 {
            Some(instruction_of_words(words))
        } else {
            None
        },
        None => None,
    }
}

/// The instruction made of `words`: the first is the program, the others its
/// arguments.
pub fn instruction_from_words(words: Vec<String>) -> (res: Instruction)
    requires
        words@.len() > 0,
    ensures
        res@ == instruction_of_words(texts(words@)),
{
    let ghost all = texts(words@);
    let mut words = words;
    let arguments = words.split_off(1);
    let program = words.pop().unwrap();
    proof {
        assert(texts(arguments@) =~= all.skip(1));
    }
    Instruction { program, arguments }
}

/// The instruction that `line` gives once split into shell words: `None` when
/// a quote is not matched or the line holds no word.
pub fn create_instruction(line: &str) -> (res: Option<Instruction>)
    ensures
        match res {
            Some(instruction) => line_instruction(line@) == Some(instruction@),
            None => line_instruction(line@) is None,
        },
{
    match split_shell_words(line) {
        Some(words) => {
            if words.len() > 0 {
                Some(instruction_from_words(words))
            } else {
                None
            }
        },
        None => None,
    }
}

/// The instructions of a list of lines: each must be a string.
pub open spec fn lines_instructions(name: Seq<char>, lines: Seq<Option<Seq<char>>>) -> Result<
    Seq<(Seq<char>, Seq<Seq<char>>)>,
    ConfigFault,
>
    decreases lines.len(),
{
    if lines.len() == 0 {
        Ok(Seq::empty())
    } else {
        match lines_instructions(name, lines.drop_last()) {
            Err(e) => Err(e),
            Ok(prev) => match lines.last() {
                Some(line) => match line_instruction(line) {
                    Some(i) => Ok(prev.push(i)),
                    None => Err(ConfigFault::BadInstruction(line)),
                },
                None => Err(ConfigFault::InstructionNotString(name)),
            },
        }
    }
}

/// The instructions of the list `items`; at the first level an item may be a
/// list of strings, whose instructions come in its place.
pub open spec fn items_instructions(
    name: Seq<char>,
    items: Seq<ItemData>,
    is_first_depth_level: bool,
) -> Result<Seq<(Seq<char>, Seq<Seq<char>>)>, ConfigFault>
    decreases items.len(),
{
    if items.len() == 0 {
        Ok(Seq::empty())
    } else {
        match items_instructions(name, items.drop_last(), is_first_depth_level) {
            Err(e) => Err(e),
            Ok(prev) => match items.last() {
                ItemData::List(lines) => if is_first_depth_level {
                    match lines_instructions(name, lines) {
                        Ok(more) => Ok(prev + more),
                        Err(e) => Err(e),
                    }
                } else {
                    Err(ConfigFault::InstructionNotString(name))
                },
                ItemData::Text(line) => match line_instruction(line) {
                    Some(i) => Ok(prev.push(i)),
                    None => Err(ConfigFault::BadInstruction(line)),
                },
                ItemData::Other => Err(ConfigFault::InstructionNotString(name)),
            },
        }
    }
}

/// The instructions that the configuration's value gives the task `name`.
pub open spec fn task_instructions(name: Seq<char>, value: ValueData, is_first_depth_level: bool) -> Result<
    Seq<(Seq<char>, Seq<Seq<char>>)>,
    ConfigFault,
> {
    match value {
        ValueData::Text(line) => match line_instruction(line) {
            Some(i) => Ok(seq![i]),
            None => Err(ConfigFault::BadInstruction(line)),
        },
        ValueData::List(items) => items_instructions(name, items, is_first_depth_level),
        _ => Err(ConfigFault::TaskNotStringOrList(name)),
    }
}

/// Once a prefix of the items fails, the whole list fails the same way.
proof fn lemma_items_error_stays(
    name: Seq<char>,
    items: Seq<ItemData>,
    is_first_depth_level: bool,
    j: int,
)
    requires
        0 <= j <= items.len(),
        items_instructions(name, items.subrange(0, j), is_first_depth_level) is Err,
    ensures
        items_instructions(name, items, is_first_depth_level) == items_instructions(
            name,
            items.subrange(0, j),
            is_first_depth_level,
        ),
    decreases items.len() - j,
{
    if j == items.len() {
        assert(items.subrange(0, j) =~= items);
    } else {
        assert(items.subrange(0, j + 1).drop_last() =~= items.subrange(0, j));
        lemma_items_error_stays(name, items, is_first_depth_level, j + 1);
    }
}

/// Once a prefix of the lines fails, all of them fail the same way.
proof fn lemma_lines_error_stays(name: Seq<char>, lines: Seq<Option<Seq<char>>>, j: int)
    requires
        0 <= j <= lines.len(),
        lines_instructions(name, lines.subrange(0, j)) is Err,
    ensures
        lines_instructions(name, lines) == lines_instructions(name, lines.subrange(0, j)),
    decreases lines.len() - j,
{
    if j == lines.len() {
        assert(lines.subrange(0, j) =~= lines);
    } else {
        assert(lines.subrange(0, j + 1).drop_last() =~= lines.subrange(0, j));
        lemma_lines_error_stays(name, lines, j + 1);
    }
}

/// The views of instructions with one more end with its view.
proof fn lemma_instruction_views_push(v: Seq<Instruction>, i: Instruction)
    ensures
        instruction_views(v.push(i)) == instruction_views(v).push(i@),
{
    assert(instruction_views(v.push(i)) =~= instruction_views(v).push(i@));
}

/// The instruction of one line, or its fault.
fn line_instruction_of(line: &String) -> (res: Result<Instruction, ConfigError>)
    ensures
        match res {
            Ok(i) => line_instruction(line@) == Some(i@),
            Err(e) => line_instruction(line@) is None && e@ == ConfigFault::BadInstruction(line@),
        },
{
    match create_instruction(line.as_str()) {
        Some(instruction) => Ok(instruction),
        None => Err(ConfigError::BadInstruction(line.clone())),
    }
}

/// The instructions of a list of lines, or its first fault.
fn lines_instructions_of(name: &str, lines: &Vec<Option<String>>) -> (res: Result<
    Vec<Instruction>,
    ConfigError,
>)
    ensures
        match res {
            Ok(v) => lines_instructions(name@, lines@.map_values(|o: Option<String>| optional_text(o)))
                == Ok::<Seq<(Seq<char>, Seq<Seq<char>>)>, ConfigFault>(instruction_views(v@)),
            Err(e) => lines_instructions(
                name@,
                lines@.map_values(|o: Option<String>| optional_text(o)),
            ) == Err::<Seq<(Seq<char>, Seq<Seq<char>>)>, ConfigFault>(e@),
        },
{
    let ghost all = lines@.map_values(|o: Option<String>| optional_text(o));
    let mut instructions: Vec<Instruction> = Vec::new();
    let mut i: usize = 0;
    assert(instruction_views(instructions@) =~= Seq::<(Seq<char>, Seq<Seq<char>>)>::empty());
    assert(all.subrange(0, 0) =~= Seq::<Option<Seq<char>>>::empty());
    while i < lines.len()
        invariant
            all == lines@.map_values(|o: Option<String>| optional_text(o)),
            i <= lines@.len(),
            lines_instructions(name@, all.subrange(0, i as int)) == Ok::<
                Seq<(Seq<char>, Seq<Seq<char>>)>,
                ConfigFault,
            >(instruction_views(instructions@)),
        decreases lines@.len() - i,
    {
        proof {
            let prefix = all.subrange(0, i + 1);
            assert(prefix.drop_last() =~= all.subrange(0, i as int));
            assert(prefix.last() == optional_text(lines@[i as int]));
        }
        match &lines[i] {
            Some(line) => match line_instruction_of(line) {
                Ok(instruction) => {
                    proof {
                        lemma_instruction_views_push(instructions@, instruction);
                    }
                    instructions.push(instruction);
                },
                Err(e) => {
                    proof {
                        lemma_lines_error_stays(name@, all, i + 1);
                    }
                    return Err(e);
                },
            },
            None => {
                proof {
                    lemma_lines_error_stays(name@, all, i + 1);
                }
                return Err(ConfigError::InstructionNotString(name.to_owned()));
            },
        }
        i = i + 1;
    }
    assert(all.subrange(0, lines@.len() as int) =~= all);
    Ok(instructions)
}

/// The instructions of the task `name`, or the first fault of its value.
pub(crate) fn instructions_of(name: &str, value: &ConfigValue, is_first_depth_level: bool) -> (res:
    Result<Vec<Instruction>, ConfigError>)
    ensures
        match res {
            Ok(v) => task_instructions(name@, value@, is_first_depth_level) == Ok::<
                Seq<(Seq<char>, Seq<Seq<char>>)>,
                ConfigFault,
            >(instruction_views(v@)),
            Err(e) => task_instructions(name@, value@, is_first_depth_level) == Err::<
                Seq<(Seq<char>, Seq<Seq<char>>)>,
                ConfigFault,
            >(e@),
        },
{
    match value {
        ConfigValue::Text(line) => {
            let instruction = line_instruction_of(line)?;
            let mut v: Vec<Instruction> = Vec::new();
            proof {
                lemma_instruction_views_push(v@, instruction);
            }
            v.push(instruction);
            proof {
                assert(instruction_views(v@) =~= seq![v@[0]@]);
            }
            Ok(v)
        },
        ConfigValue::List(items) => {
            let ghost all = items@.map_values(|i: ConfigItem| i@);
            let mut instructions: Vec<Instruction> = Vec::new();
            let mut i: usize = 0;
            assert(instruction_views(instructions@) =~= Seq::<(Seq<char>, Seq<Seq<char>>)>::empty());
            assert(all.subrange(0, 0) =~= Seq::<ItemData>::empty());
            while i < items.len()
                invariant
                    all == items@.map_values(|i: ConfigItem| i@),
                    value@ == ValueData::List(all),
                    i <= items@.len(),
                    items_instructions(name@, all.subrange(0, i as int), is_first_depth_level)
                        == Ok::<Seq<(Seq<char>, Seq<Seq<char>>)>, ConfigFault>(
                        instruction_views(instructions@),
                    ),
                decreases items@.len() - i,
            {
                proof {
                    let prefix = all.subrange(0, i + 1);
                    assert(prefix.drop_last() =~= all.subrange(0, i as int));
                    assert(prefix.last() == items@[i as int]@);
                }
                match &items[i] {
                    ConfigItem::List(lines) => {
                        if is_first_depth_level {
                            match lines_instructions_of(name, lines) {
                                Ok(more) => {
                                    let ghost before = instruction_views(instructions@);
                                    let ghost added = instruction_views(more@);
                                    let mut more = more;
                                    instructions.append(&mut more);
                                    proof {
                                        assert(instruction_views(instructions@) =~= before
                                            + added);
                                    }
                                },
                                Err(e) => {
                                    proof {
                                        lemma_items_error_stays(name@, all, is_first_depth_level, i + 1);
                                    }
                                    return Err(e);
                                },
                            }
                        } else {
                            proof {
                                lemma_items_error_stays(name@, all, is_first_depth_level, i + 1);
                            }
                            return Err(ConfigError::InstructionNotString(name.to_owned()));
                        }
                    },
                    ConfigItem::Text(line) => {
                        match line_instruction_of(line) {
                            Ok(instruction) => {
                                proof {
                                    lemma_instruction_views_push(instructions@, instruction);
                                }
                                instructions.push(instruction);
                            },
                            Err(e) => {
                                proof {
                                    lemma_items_error_stays(name@, all, is_first_depth_level, i + 1);
                                }
                                return Err(e);
                            },
                        }
                    },
                    ConfigItem::Other => {
                        proof {
                            lemma_items_error_stays(name@, all, is_first_depth_level, i + 1);
                        }
                        return Err(ConfigError::InstructionNotString(name.to_owned()));
                    },
                }
                i = i + 1;
            }
            assert(all.subrange(0, items@.len() as int) =~= all);
            Ok(instructions)
        },
        _ => Err(ConfigError::TaskNotStringOrList(name.to_owned())),
    }
}

/// The first fault of the task's value, if any: `None` exactly when
/// `extract_instructions` accepts it.
pub fn instructions_fault(name: &str, value: &ConfigValue, is_first_depth_level: bool) -> (res:
    Option<ConfigError>)
    ensures
        match res {
            None => task_instructions(name@, value@, is_first_depth_level) is Ok,
            Some(e) => task_instructions(name@, value@, is_first_depth_level) == Err::<
                Seq<(Seq<char>, Seq<Seq<char>>)>,
                ConfigFault,
            >(e@),
        },
{
    match instructions_of(name, value, is_first_depth_level) {
        Ok(_) => None,
        Err(e) => Some(e),
    }
}

/// Extracts the instructions of the task `name` from its value: a string is
/// one instruction; a list holds strings and, at the first level only, lists
/// of strings whose instructions come in their place. The value must have no
/// fault, which `instructions_fault` tests.
pub fn extract_instructions(name: &str, value: &ConfigValue, is_first_depth_level: bool) -> (res:
    Vec<Instruction>)
    requires
        task_instructions(name@, value@, is_first_depth_level) is Ok,
    ensures
        task_instructions(name@, value@, is_first_depth_level) == Ok::<
            Seq<(Seq<char>, Seq<Seq<char>>)>,
            ConfigFault,
        >(instruction_views(res@)),
{
    match instructions_of(name, value, is_first_depth_level) {
        Ok(instructions) => instructions,
        Err(_) => vstd::pervasive::unreached(),
    }
}

/// The instructions of the task `name`, or the first fault of its value.
pub fn try_extract_instructions(name: &str, value: &ConfigValue, is_first_depth_level: bool) -> (res:
    Result<Vec<Instruction>, ConfigError>)
    ensures
        match res {
            Ok(v) => task_instructions(name@, value@, is_first_depth_level) == Ok::<
                Seq<(Seq<char>, Seq<Seq<char>>)>,
                ConfigFault,
            >(instruction_views(v@)),
            Err(e) => task_instructions(name@, value@, is_first_depth_level) == Err::<
                Seq<(Seq<char>, Seq<Seq<char>>)>,
                ConfigFault,
            >(e@),
        },
{
    match instructions_fault(name, value, is_first_depth_level) {
        Some(e) => Err(e),
        None => Ok(extract_instructions(name, value, is_first_depth_level)),
    }
}

/// A line whose shell words are not empty gives the instruction whose
/// program is the first word and whose arguments are the other words, in
/// order: as a task's only value, or as the only item of its list.
pub proof fn lemma_line_gives_its_words(
    name: Seq<char>,
    line: Seq<char>,
    words: Seq<Seq<char>>,
    is_first_depth_level: bool,
)
    requires
        shell_words(line) == Some(words),
        words.len() > 0,
    ensures
        task_instructions(name, ValueData::Text(line), is_first_depth_level) == Ok::<
            Seq<(Seq<char>, Seq<Seq<char>>)>,
            ConfigFault,
        >(seq![(words[0], words.subrange(1, words.len() as int))]),
        task_instructions(
            name,
            ValueData::List(seq![ItemData::Text(line)]),
            is_first_depth_level,
        ) == task_instructions(name, ValueData::Text(line), is_first_depth_level),
{
    assert(words.skip(1) =~= words.subrange(1, words.len() as int));
    let items = seq![ItemData::Text(line)];
    assert(items.drop_last() =~= Seq::<ItemData>::empty());
    assert(items_instructions(name, items.drop_last(), is_first_depth_level) == Ok::<
        Seq<(Seq<char>, Seq<Seq<char>>)>,
        ConfigFault,
    >(Seq::empty()));
    assert(items.last() == ItemData::Text(line));
    assert(Seq::<(Seq<char>, Seq<Seq<char>>)>::empty().push(instruction_of_words(words)) =~= seq![
        instruction_of_words(words),
    ]);
}

/// The instructions of a list made of two lists of items, one after the
/// other, are the instructions of each, one after the other; a fault of the
/// first part is the fault of the whole.
pub proof fn lemma_items_concat(
    name: Seq<char>,
    a: Seq<ItemData>,
    b: Seq<ItemData>,
    is_first_depth_level: bool,
)
    ensures
        match items_instructions(name, a, is_first_depth_level) {
            Err(e) => items_instructions(name, a + b, is_first_depth_level) == Err::<
                Seq<(Seq<char>, Seq<Seq<char>>)>,
                ConfigFault,
            >(e),
            Ok(x) => match items_instructions(name, b, is_first_depth_level) {
                Ok(y) => items_instructions(name, a + b, is_first_depth_level) == Ok::<
                    Seq<(Seq<char>, Seq<Seq<char>>)>,
                    ConfigFault,
                >(x + y),
                Err(e) => items_instructions(name, a + b, is_first_depth_level) == Err::<
                    Seq<(Seq<char>, Seq<Seq<char>>)>,
                    ConfigFault,
                >(e),
            },
        },
    decreases b.len(),
{
    if b.len() == 0 {
        assert(a + b =~= a);
        if let Ok(x) = items_instructions(name, a, is_first_depth_level) {
            assert(x + Seq::<(Seq<char>, Seq<Seq<char>>)>::empty() =~= x);
        }
    } else {
        lemma_items_concat(name, a, b.drop_last(), is_first_depth_level);
        assert((a + b).drop_last() =~= a + b.drop_last());
        assert((a + b).last() == b.last());
        if let Ok(x) = items_instructions(name, a, is_first_depth_level) {
            if let Ok(y0) = items_instructions(name, b.drop_last(), is_first_depth_level) {
                match b.last() {
                    ItemData::List(lines) => {
                        if let Ok(more) = lines_instructions(name, lines) {
                            assert(x + y0 + more =~= x + (y0 + more));
                        }
                    },
                    ItemData::Text(line) => {
                        if let Some(i) = line_instruction(line) {
                            assert((x + y0).push(i) =~= x + y0.push(i));
                        }
                    },
                    ItemData::Other => {},
                }
            }
        }
    }
}

/// At the first level, an item that is a list of strings gives the same
/// instructions as its strings would, each an item of its own; below the
/// first level such an item is refused.
pub proof fn lemma_nested_list_is_its_lines(
    name: Seq<char>,
    lines: Seq<Seq<char>>,
)
    ensures
        items_instructions(
            name,
            seq![ItemData::List(lines.map_values(|l: Seq<char>| Some(l)))],
            true,
        ) == items_instructions(name, lines.map_values(|l: Seq<char>| ItemData::Text(l)), true),
        items_instructions(
            name,
            seq![ItemData::List(lines.map_values(|l: Seq<char>| Some(l)))],
            false,
        ) == Err::<Seq<(Seq<char>, Seq<Seq<char>>)>, ConfigFault>(
            ConfigFault::InstructionNotString(name),
        ),
{
    let one = seq![ItemData::List(lines.map_values(|l: Seq<char>| Some(l)))];
    assert(one.drop_last() =~= Seq::<ItemData>::empty());
    assert(items_instructions(name, one.drop_last(), true) == Ok::<
        Seq<(Seq<char>, Seq<Seq<char>>)>,
        ConfigFault,
    >(Seq::empty()));
    assert(items_instructions(name, one.drop_last(), false) == Ok::<
        Seq<(Seq<char>, Seq<Seq<char>>)>,
        ConfigFault,
    >(Seq::empty()));
    assert(one.last() == ItemData::List(lines.map_values(|l: Seq<char>| Some(l))));
    lemma_lines_as_items(name, lines);
    let r = lines_instructions(name, lines.map_values(|l: Seq<char>| Some(l)));
    if let Ok(more) = r {
        assert(Seq::<(Seq<char>, Seq<Seq<char>>)>::empty() + more =~= more);
    }
}

/// Strings as lines of a nested list give what they give as items.
proof fn lemma_lines_as_items(name: Seq<char>, lines: Seq<Seq<char>>)
    ensures
        lines_instructions(name, lines.map_values(|l: Seq<char>| Some(l))) == items_instructions(
            name,
            lines.map_values(|l: Seq<char>| ItemData::Text(l)),
            true,
        ),
    decreases lines.len(),
{
    if lines.len() > 0 {
        lemma_lines_as_items(name, lines.drop_last());
        assert(lines.map_values(|l: Seq<char>| Some(l)).drop_last() =~= lines.drop_last().map_values(
            |l: Seq<char>| Some(l),
        ));
        assert(lines.map_values(|l: Seq<char>| ItemData::Text(l)).drop_last()
            =~= lines.drop_last().map_values(|l: Seq<char>| ItemData::Text(l)));
    }
}

} // verus!
