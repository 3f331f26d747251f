//! Running a task: the shell commands it runs, in order, following the
//! references to other tasks, and the error that stops it, if any.
use vstd::prelude::*;
use crate::arguments::{expand_program_args, expanded_args, text_map};
use crate::config::task_views;
use crate::name_map::NameMap;
use crate::tasks::Task;
use crate::text::{join, lemma_texts_push, texts};
use crate::variables::contains_name;

verus! {

/// Why running a task stops.
#[derive(Debug)]
pub enum TaskError {
    /// No task has this name.
    UnknownTask(String),
    /// The task is referenced while it is already running.
    RecursiveCall(String),
}

/// The spec-level meaning of a `TaskError`.
pub enum TaskFault {
    UnknownTask(Seq<char>),
    RecursiveCall(Seq<char>),
}

impl View for TaskError {
    type V = TaskFault;

    open spec fn view(&self) -> TaskFault {
        match self {
            TaskError::UnknownTask(n) => TaskFault::UnknownTask(n@),
            TaskError::RecursiveCall(n) => TaskFault::RecursiveCall(n@),
        }
    }
}

/// The commands that running a task gives, in order, and the error that
/// stopped it, if any. The commands before the error are run.
pub struct Plan {
    pub commands: Vec<String>,
    pub error: Option<TaskError>,
}

/// The view of an optional error.
pub open spec fn fault_of(e: Option<TaskError>) -> Option<TaskFault> {
    match e {
        Some(e) => Some(e@),
        None => None,
    }
}

/// Tasks by name: each task's name and its instructions.
pub type TaskViews = Map<Seq<char>, (Seq<char>, Seq<(Seq<char>, Seq<Seq<char>>)>)>;

/// The commands run, in order, and the error that stopped the run, if any.
pub type Run = (Seq<Seq<char>>, Option<TaskFault>);

/// The command line of a program and its arguments: each argument follows
/// after a single space.
pub open spec fn command_text(program: Seq<char>, args: Seq<Seq<char>>) -> Seq<char>
    decreases args.len(),
{
    if args.len() == 0 {
        program
    } else {
        command_text(program, args.drop_last()) + " "@ + args.last()
    }
}

/// The program refers to another task: it starts with `@`.
pub open spec fn is_task_reference(program: Seq<char>) -> bool {
    program.len() > 0 && program[0] == '@'
}

/// The number of tasks not yet running.
pub open spec fn remaining(tasks: TaskViews, stack: Seq<Seq<char>>) -> nat {
    tasks.dom().filter(|k: Seq<char>| !stack.contains(k)).len()
}

/// Starting a task that is not yet running leaves fewer tasks not yet running.
pub proof fn lemma_remaining_decreases(tasks: TaskViews, stack: Seq<Seq<char>>, name: Seq<char>)
    requires
        tasks.dom().finite(),
        tasks.dom().contains(name),
        !stack.contains(name),
    ensures
        remaining(tasks, stack.push(name)) < remaining(tasks, stack),
{
    let s0 = tasks.dom().filter(|k: Seq<char>| !stack.contains(k));
    let s1 = tasks.dom().filter(|k: Seq<char>| !stack.push(name).contains(k));
    assert(s1 =~= s0.remove(name)) by {
        assert forall|k: Seq<char>| s1.contains(k) <==> s0.remove(name).contains(k) by {
            if stack.push(name).contains(k) && k != name {
                let j = choose|j: int| 0 <= j < stack.push(name).len() && stack.push(name)[j] == k;
                assert(stack[j] == k);
            }
            if stack.contains(k) {
                let j = choose|j: int| 0 <= j < stack.len() && stack[j] == k;
                assert(stack.push(name)[j] == k);
            }
            if k == name {
                assert(stack.push(name)[stack.len() as int] == name);
            }
        }
    }
    tasks.dom().lemma_len_filter(|k: Seq<char>| !stack.contains(k));
    assert(s0.contains(name));
}

/// What running the task `name` with the call's arguments gives, while the
/// tasks of `stack` are running.
pub open spec fn task_run(
    tasks: TaskViews,
    name: Seq<char>,
    call_args: Seq<Seq<char>>,
    stack: Seq<Seq<char>>,
    variables: Map<Seq<char>, Seq<char>>,
) -> Run
    decreases remaining(tasks, stack), 1int, 0int,
{
    if !tasks.dom().contains(name) {
        (Seq::empty(), Some(TaskFault::UnknownTask(name)))
    } else if stack.contains(name) {
        (Seq::empty(), Some(TaskFault::RecursiveCall(name)))
    } else {
        instructions_run(tasks, name, call_args, stack, variables, 0)
    }
}

/// What running the instructions of the task `name` from the `i`-th on gives.
/// It is used where `name` is a known task that is not yet running, among
/// finitely many tasks; elsewhere it gives nothing, which bounds the
/// references followed.
pub open spec fn instructions_run(
    tasks: TaskViews,
    name: Seq<char>,
    call_args: Seq<Seq<char>>,
    stack: Seq<Seq<char>>,
    variables: Map<Seq<char>, Seq<char>>,
    i: int,
) -> Run
    decreases remaining(tasks, stack), 0int, tasks[name].1.len() - i,
{
    let instructions = tasks[name].1;
    if !tasks.dom().contains(name) || stack.contains(name) || !tasks.dom().finite() || i < 0 || i
        >= instructions.len() {
        (Seq::empty(), None)
    } else {
        let program = instructions[i].0;
        let args = instructions[i].1;
        if is_task_reference(program) {
            proof {
                lemma_remaining_decreases(tasks, stack, name);
            }
            let sub = task_run(
                tasks,
                program.skip(1),
                expanded_args(args, call_args, variables, false),
                stack.push(name),
                variables,
            );
            if sub.1 is Some {
                sub
            } else {
                let rest = instructions_run(tasks, name, call_args, stack, variables, i + 1);
                (sub.0 + rest.0, rest.1)
            }
        } else {
            let command = command_text(
                program,
                expanded_args(args, call_args, variables, instructions.len() == 1),
            );
            let rest = instructions_run(tasks, name, call_args, stack, variables, i + 1);
            (seq![command] + rest.0, rest.1)
        }
    }
}

/// The command line that runs a program with its arguments expanded.
pub fn instruction_command(
    program: &String,
    program_args: &[String],
    call_args: &[String],
    variables: &NameMap<String>,
    is_single_insruction_task: bool,
) -> (res: String)
    ensures
        res@ == command_text(
            program@,
            expanded_args(
                texts(program_args@),
                texts(call_args@),
                text_map(variables@),
                is_single_insruction_task,
            ),
        ),
{
    let program_args = expand_program_args(
        program_args,
        call_args,
        variables,
        is_single_insruction_task,
    );
    let mut real_command = program.clone();
    let mut i: usize = 0;
    while i < program_args.len()
        invariant
            i <= program_args@.len(),
            real_command@ == command_text(program@, texts(program_args@.subrange(0, i as int))),
        decreases program_args@.len() - i,
    {
        proof {
            reveal_strlit(" ");
            let next = texts(program_args@.subrange(0, i + 1));
            assert(next.drop_last() =~= texts(program_args@.subrange(0, i as int)));
            assert(next.last() == program_args@[i as int]@);
        }
        real_command.append(" ");
        real_command.append(program_args[i].as_str());
        i = i + 1;
    }
    assert(program_args@.subrange(0, program_args@.len() as int) =~= program_args@);
    real_command
}

/// Whether `program` starts with `@`.
fn starts_with_at(program: &String) -> (res: bool)
    ensures
        res == is_task_reference(program@),
{
    let s = program.as_str();
    s.unicode_len() > 0 && s.get_char(0) == '@'
}

/// Appends to `out` the commands of running `task_name`, and tells the error
/// that stopped the run, if any.
fn run_task(
    tasks: &NameMap<Task>,
    task_name: &String,
    call_args: &[String],
    stack: &mut Vec<String>,
    variables: &NameMap<String>,
    out: &mut Vec<String>,
) -> (res: Option<TaskError>)
    ensures
        final(stack)@ == old(stack)@,
        texts(final(out)@) == texts(old(out)@) + task_run(
            task_views(tasks@),
            task_name@,
            texts(call_args@),
            texts(old(stack)@),
            text_map(variables@),
        ).0,
        fault_of(res) == task_run(
            task_views(tasks@),
            task_name@,
            texts(call_args@),
            texts(old(stack)@),
            text_map(variables@),
        ).1,
    decreases remaining(task_views(tasks@), texts(old(stack)@)),
{
    let ghost tv = task_views(tasks@);
    let ghost vars = text_map(variables@);
    let ghost ca = texts(call_args@);
    let ghost st = texts(stack@);
    let ghost out0 = texts(out@);
    let task = match tasks.get(task_name) {
        None => {
            assert(texts(out@) =~= out0 + Seq::<Seq<char>>::empty());
            return Some(TaskError::UnknownTask(task_name.clone()));
        },
        Some(task) => task,
    };
    if contains_name(stack, task_name) {
        assert(texts(out@) =~= out0 + Seq::<Seq<char>>::empty());
        return Some(TaskError::RecursiveCall(task_name.clone()));
    }
    proof {
        assert(tv.dom() =~= tasks@.dom());
        assert(tv.dom().finite());
        assert(tv[task_name@] == task@);
    }
    let n = task.instructions.len();
    let mut i: usize = 0;
    assert(texts(out@) =~= out0);
    assert(out0 + instructions_run(tv, task_name@, ca, st, vars, 0).0 =~= texts(out@)
        + instructions_run(tv, task_name@, ca, st, vars, 0).0);
    while i < n
        invariant
            tv == task_views(tasks@),
            vars == text_map(variables@),
            ca == texts(call_args@),
            st == texts(stack@),
            stack@ == old(stack)@,
            out0 == texts(old(out)@),
            tv.dom().finite(),
            tv.dom().contains(task_name@),
            !st.contains(task_name@),
            tv[task_name@] == task@,
            n == task.instructions@.len(),
            i <= n,
            task_run(tv, task_name@, ca, st, vars) == instructions_run(
                tv,
                task_name@,
                ca,
                st,
                vars,
                0,
            ),
            out0 + instructions_run(tv, task_name@, ca, st, vars, 0).0 == texts(out@)
                + instructions_run(tv, task_name@, ca, st, vars, i as int).0,
            instructions_run(tv, task_name@, ca, st, vars, 0).1 == instructions_run(
                tv,
                task_name@,
                ca,
                st,
                vars,
                i as int,
            ).1,
        decreases n - i,
    {
        let instruction = &task.instructions[i];
        let ghost rest = instructions_run(tv, task_name@, ca, st, vars, i as int);
        let ghost next = instructions_run(tv, task_name@, ca, st, vars, i + 1);
        proof {
            assert(tv[task_name@].1[i as int] == instruction@);
        }
        if starts_with_at(&instruction.program) {
            let len = instruction.program.as_str().unicode_len();
            let program = instruction.program.as_str().substring_char(1, len).to_owned();
            let program_args = expand_program_args(
                &instruction.arguments,
                call_args,
                variables,
                false,
            );
            let ghost out1 = texts(out@);
            proof {
                lemma_remaining_decreases(tv, st, task_name@);
                lemma_texts_push(stack@, *task_name);
            }
            stack.push(task_name.clone());
            let result = run_task(tasks, &program, &program_args, stack, variables, out);
            stack.pop();
            proof {
                assert(stack@ =~= old(stack)@);
            }
            if result.is_some() {
                proof {
                    assert(rest == task_run(
                        tv,
                        instruction.program@.skip(1),
                        texts(program_args@),
                        st.push(task_name@),
                        vars,
                    ));
                    assert(texts(out@) == out1 + rest.0);
                    assert(texts(out@) =~= out0 + instructions_run(tv, task_name@, ca, st, vars, 0).0);
                }
                return result;
            }
            proof {
                let sub = task_run(
                    tv,
                    instruction.program@.skip(1),
                    texts(program_args@),
                    st.push(task_name@),
                    vars,
                );
                assert(rest == (sub.0 + next.0, next.1));
                assert(texts(out@) + next.0 =~= out1 + rest.0);
            }
        } else {
            let command = instruction_command(
                &instruction.program,
                &instruction.arguments,
                call_args,
                variables,
                n == 1,
            );
            let ghost out1 = texts(out@);
            proof {
                lemma_texts_push(out@, command);
            }
            out.push(command);
            proof {
                assert(rest == (seq![command@] + next.0, next.1));
                assert(texts(out@) + next.0 =~= out1 + rest.0);
            }
        }
        i = i + 1;
    }
    proof {
        let last = instructions_run(tv, task_name@, ca, st, vars, n as int);
        assert(last == (Seq::<Seq<char>>::empty(), None::<TaskFault>));
        assert(texts(out@) + last.0 =~= texts(out@));
    }
    None
}

/// Plans the run of the task `task_name` with the call's arguments, while
/// the tasks of `command_call_stack` are running: the commands to run, in
/// order, and the error that stops the run after them, if any. An
/// instruction `@other args` runs the task `other` with `args` expanded as
/// its call's arguments; a task that is referenced while it is running, or
/// that does not exist, stops the run.
pub fn plan_task(
    tasks: &NameMap<Task>,
    task_name: &String,
    call_args: &[String],
    command_call_stack: Vec<String>,
    variables: &NameMap<String>,
) -> (res: Plan)
    ensures
        (texts(res.commands@), fault_of(res.error)) == task_run(
            task_views(tasks@),
            task_name@,
            texts(call_args@),
            texts(command_call_stack@),
            text_map(variables@),
        ),
{
    let mut stack = command_call_stack;
    let mut commands: Vec<String> = Vec::new();
    assert(texts(commands@) =~= Seq::<Seq<char>>::empty());
    let error = run_task(tasks, task_name, call_args, &mut stack, variables, &mut commands);
    proof {
        let run = task_run(
            task_views(tasks@),
            task_name@,
            texts(call_args@),
            texts(command_call_stack@),
            text_map(variables@),
        );
        assert(texts(commands@) =~= run.0);
    }
    Plan { commands, error }
}

/// The commands that running the task `task_name` runs, in order, while the
/// tasks of `command_call_stack` are running. The run must meet no unknown
/// task and no task already running, which `plan_task` tells.
pub fn exec_task(
    tasks: &NameMap<Task>,
    task_name: &String,
    call_args: &[String],
    command_call_stack: Vec<String>,
    variables: &NameMap<String>,
) -> (commands: Vec<String>)
    requires
        task_run(
            task_views(tasks@),
            task_name@,
            texts(call_args@),
            texts(command_call_stack@),
            text_map(variables@),
        ).1 is None,
    ensures
        texts(commands@) == task_run(
            task_views(tasks@),
            task_name@,
            texts(call_args@),
            texts(command_call_stack@),
            text_map(variables@),
        ).0,
{
    let plan = plan_task(tasks, task_name, call_args, command_call_stack, variables);
    match plan.error {
        Some(_) => vstd::pervasive::unreached(),
        None => plan.commands,
    }
}

/// A task whose first instruction refers to the task itself runs no command
/// and stops with a recursion error naming it.
pub proof fn lemma_self_reference_stops(
    tasks: TaskViews,
    name: Seq<char>,
    call_args: Seq<Seq<char>>,
    stack: Seq<Seq<char>>,
    variables: Map<Seq<char>, Seq<char>>,
)
    requires
        tasks.dom().finite(),
        tasks.dom().contains(name),
        !stack.contains(name),
        tasks[name].1.len() > 0,
        tasks[name].1[0].0 == seq!['@'] + name,
    ensures
        task_run(tasks, name, call_args, stack, variables) == (
            Seq::<Seq<char>>::empty(),
            Some(TaskFault::RecursiveCall(name)),
        ),
{
    let program = tasks[name].1[0].0;
    assert(program.skip(1) =~= name);
    assert(stack.push(name)[stack.len() as int] == name);
    let args = expanded_args(tasks[name].1[0].1, call_args, variables, false);
    assert(task_run(tasks, name, args, stack.push(name), variables).1 is Some);
}

/// The commands that one instruction of the task `name` runs: a reference
/// `@other` runs the task `other`, with the instruction's arguments expanded
/// (the call's arguments not appended) as its call's arguments; any other
/// instruction runs its program with its expanded arguments, the call's
/// arguments appended when it is the task's only instruction.
pub open spec fn instruction_commands(
    tasks: TaskViews,
    name: Seq<char>,
    call_args: Seq<Seq<char>>,
    stack: Seq<Seq<char>>,
    variables: Map<Seq<char>, Seq<char>>,
    instruction: (Seq<char>, Seq<Seq<char>>),
) -> Seq<Seq<char>> {
    let single = tasks[name].1.len() == 1;
    if is_task_reference(instruction.0) {
        task_run(
            tasks,
            instruction.0.skip(1),
            expanded_args(instruction.1, call_args, variables, false),
            stack.push(name),
            variables,
        ).0
    } else {
        seq![command_text(instruction.0, expanded_args(instruction.1, call_args, variables, single))]
    }
}

/// The commands of the instructions of `name` from the `i`-th on, one
/// instruction after the other, when they run without error.
proof fn lemma_instructions_commands(
    tasks: TaskViews,
    name: Seq<char>,
    call_args: Seq<Seq<char>>,
    stack: Seq<Seq<char>>,
    variables: Map<Seq<char>, Seq<char>>,
    i: int,
)
    requires
        tasks.dom().finite(),
        tasks.dom().contains(name),
        !stack.contains(name),
        0 <= i <= tasks[name].1.len(),
        instructions_run(tasks, name, call_args, stack, variables, i).1 is None,
    ensures
        instructions_run(tasks, name, call_args, stack, variables, i).0 == tasks[name].1.subrange(
            i,
            tasks[name].1.len() as int,
        ).map_values(
            |ins: (Seq<char>, Seq<Seq<char>>)|
                instruction_commands(tasks, name, call_args, stack, variables, ins),
        ).flatten(),
        forall|j: int|
            i <= j < tasks[name].1.len() && is_task_reference(#[trigger] tasks[name].1[j].0)
                ==> task_run(
                tasks,
                tasks[name].1[j].0.skip(1),
                expanded_args(tasks[name].1[j].1, call_args, variables, false),
                stack.push(name),
                variables,
            ).1 is None,
    decreases tasks[name].1.len() - i,
{
    let instructions = tasks[name].1;
    let f = |ins: (Seq<char>, Seq<Seq<char>>)|
        instruction_commands(tasks, name, call_args, stack, variables, ins);
    let parts = instructions.subrange(i, instructions.len() as int).map_values(f);
    if i < instructions.len() {
        lemma_instructions_commands(tasks, name, call_args, stack, variables, i + 1);
        let rest_parts = instructions.subrange(i + 1, instructions.len() as int).map_values(f);
        assert(parts.drop_first() =~= rest_parts);
        assert(parts.first() == f(instructions[i]));
    } else {
        assert(parts =~= Seq::<Seq<Seq<char>>>::empty());
    }
}

/// A run of the task `name` that meets no error runs, in order, the commands
/// of each of the task's instructions; each task that an instruction refers
/// to runs without error too.
pub proof fn lemma_successful_run_commands(
    tasks: TaskViews,
    name: Seq<char>,
    call_args: Seq<Seq<char>>,
    stack: Seq<Seq<char>>,
    variables: Map<Seq<char>, Seq<char>>,
)
    requires
        tasks.dom().finite(),
        task_run(tasks, name, call_args, stack, variables).1 is None,
    ensures
        tasks.dom().contains(name),
        !stack.contains(name),
        task_run(tasks, name, call_args, stack, variables).0 == tasks[name].1.map_values(
            |ins: (Seq<char>, Seq<Seq<char>>)|
                instruction_commands(tasks, name, call_args, stack, variables, ins),
        ).flatten(),
        forall|j: int|
            0 <= j < tasks[name].1.len() && is_task_reference(#[trigger] tasks[name].1[j].0)
                ==> task_run(
                tasks,
                tasks[name].1[j].0.skip(1),
                expanded_args(tasks[name].1[j].1, call_args, variables, false),
                stack.push(name),
                variables,
            ).1 is None,
{
    let instructions = tasks[name].1;
    lemma_instructions_commands(tasks, name, call_args, stack, variables, 0);
    assert(instructions.subrange(0, instructions.len() as int) =~= instructions);
}

/// The run of the task that the instruction `instruction` of the task `name`
/// refers to, with the instruction's arguments expanded (the call's
/// arguments not appended) as its call's arguments.
pub open spec fn referenced_run(
    tasks: TaskViews,
    name: Seq<char>,
    call_args: Seq<Seq<char>>,
    stack: Seq<Seq<char>>,
    variables: Map<Seq<char>, Seq<char>>,
    instruction: (Seq<char>, Seq<Seq<char>>),
) -> Run {
    task_run(
        tasks,
        instruction.0.skip(1),
        expanded_args(instruction.1, call_args, variables, false),
        stack.push(name),
        variables,
    )
}

/// A failed run of the instructions of `name` from the `i`-th on stops at
/// the first instruction whose referenced task fails.
proof fn lemma_instructions_stop(
    tasks: TaskViews,
    name: Seq<char>,
    call_args: Seq<Seq<char>>,
    stack: Seq<Seq<char>>,
    variables: Map<Seq<char>, Seq<char>>,
    i: int,
)
    requires
        tasks.dom().finite(),
        tasks.dom().contains(name),
        !stack.contains(name),
        0 <= i <= tasks[name].1.len(),
        instructions_run(tasks, name, call_args, stack, variables, i).1 is Some,
    ensures
        ({
            let instructions = tasks[name].1;
            exists|j: int|
                {
                    &&& i <= j < instructions.len()
                    &&& is_task_reference(instructions[j].0)
                    &&& referenced_run(tasks, name, call_args, stack, variables, instructions[j]).1 is Some
                    &&& forall|k: int|
                        i <= k < j && is_task_reference(#[trigger] instructions[k].0)
                            ==> referenced_run(
                            tasks,
                            name,
                            call_args,
                            stack,
                            variables,
                            instructions[k],
                        ).1 is None
                    &&& instructions_run(tasks, name, call_args, stack, variables, i) == (
                        instructions.subrange(i, j).map_values(
                            |ins: (Seq<char>, Seq<Seq<char>>)|
                                instruction_commands(tasks, name, call_args, stack, variables, ins),
                        ).flatten() + referenced_run(
                            tasks,
                            name,
                            call_args,
                            stack,
                            variables,
                            instructions[j],
                        ).0,
                        referenced_run(tasks, name, call_args, stack, variables, instructions[j]).1,
                    )
                }
        }),
    decreases tasks[name].1.len() - i,
{
    let instructions = tasks[name].1;
    let f = |ins: (Seq<char>, Seq<Seq<char>>)|
        instruction_commands(tasks, name, call_args, stack, variables, ins);
    let ins = instructions[i];
    let sub = referenced_run(tasks, name, call_args, stack, variables, ins);
    if is_task_reference(ins.0) && sub.1 is Some {
        assert(instructions.subrange(i, i).map_values(f) =~= Seq::<Seq<Seq<char>>>::empty());
        assert(Seq::<Seq<Seq<char>>>::empty().flatten() + sub.0 =~= sub.0);
        assert(instructions[i] == ins);
    } else {
        lemma_instructions_stop(tasks, name, call_args, stack, variables, i + 1);
        let j = choose|j: int|
            {
                &&& i + 1 <= j < instructions.len()
                &&& is_task_reference(instructions[j].0)
                &&& referenced_run(tasks, name, call_args, stack, variables, instructions[j]).1 is Some
                &&& forall|k: int|
                    i + 1 <= k < j && is_task_reference(#[trigger] instructions[k].0)
                        ==> referenced_run(
                        tasks,
                        name,
                        call_args,
                        stack,
                        variables,
                        instructions[k],
                    ).1 is None
                &&& instructions_run(tasks, name, call_args, stack, variables, i + 1) == (
                    instructions.subrange(i + 1, j).map_values(f).flatten() + referenced_run(
                        tasks,
                        name,
                        call_args,
                        stack,
                        variables,
                        instructions[j],
                    ).0,
                    referenced_run(tasks, name, call_args, stack, variables, instructions[j]).1,
                )
            };
        let parts = instructions.subrange(i, j).map_values(f);
        assert(parts.drop_first() =~= instructions.subrange(i + 1, j).map_values(f));
        assert(parts.first() == f(ins));
        let tail = referenced_run(tasks, name, call_args, stack, variables, instructions[j]).0;
        assert(f(ins) + instructions.subrange(i + 1, j).map_values(f).flatten() + tail =~= f(ins) + (
        instructions.subrange(i + 1, j).map_values(f).flatten() + tail));
        assert forall|k: int|
            i <= k < j && is_task_reference(#[trigger] instructions[k].0) implies referenced_run(
            tasks,
            name,
            call_args,
            stack,
            variables,
            instructions[k],
        ).1 is None by {
            if k == i {
                assert(instructions[k] == ins);
            }
        }
    }
}

/// A run of a known task that is not yet running and that fails runs the
/// commands of its instructions up to the first one that refers to a task
/// whose run fails, then that task's commands, and stops with that task's
/// error: no command of a later instruction is run.
pub proof fn lemma_failed_run_stops(
    tasks: TaskViews,
    name: Seq<char>,
    call_args: Seq<Seq<char>>,
    stack: Seq<Seq<char>>,
    variables: Map<Seq<char>, Seq<char>>,
)
    requires
        tasks.dom().finite(),
        tasks.dom().contains(name),
        !stack.contains(name),
        task_run(tasks, name, call_args, stack, variables).1 is Some,
    ensures
        ({
            let instructions = tasks[name].1;
            exists|j: int|
                {
                    &&& 0 <= j < instructions.len()
                    &&& is_task_reference(instructions[j].0)
                    &&& referenced_run(tasks, name, call_args, stack, variables, instructions[j]).1 is Some
                    &&& forall|k: int|
                        0 <= k < j && is_task_reference(#[trigger] instructions[k].0)
                            ==> referenced_run(
                            tasks,
                            name,
                            call_args,
                            stack,
                            variables,
                            instructions[k],
                        ).1 is None
                    &&& task_run(tasks, name, call_args, stack, variables) == (
                        instructions.subrange(0, j).map_values(
                            |ins: (Seq<char>, Seq<Seq<char>>)|
                                instruction_commands(tasks, name, call_args, stack, variables, ins),
                        ).flatten() + referenced_run(
                            tasks,
                            name,
                            call_args,
                            stack,
                            variables,
                            instructions[j],
                        ).0,
                        referenced_run(tasks, name, call_args, stack, variables, instructions[j]).1,
                    )
                }
        }),
{
    lemma_instructions_stop(tasks, name, call_args, stack, variables, 0);
}

/// A command line is the program followed by its arguments, all joined by
/// single spaces.
pub proof fn lemma_command_text_is_joined(program: Seq<char>, args: Seq<Seq<char>>)
    ensures
        command_text(program, args) == join(seq![program] + args, seq![' ']),
    decreases args.len(),
{
    reveal_strlit(" ");
    let all = seq![program] + args;
    if args.len() == 0 {
        assert(all =~= seq![program]);
    } else {
        lemma_command_text_is_joined(program, args.drop_last());
        assert(all.drop_last() =~= seq![program] + args.drop_last());
        assert(all.last() == args.last());
    }
}

} // verus!
