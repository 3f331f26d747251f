//! The command line: the task to run and the arguments passed down to it.
use vstd::prelude::*;

verus! {

/// The task to run: the first argument after the program's name.
pub fn get_task_name(args: &[String]) -> (res: &String)
    requires
        args@.len() >= 2,
    ensures
        *res == args@[1],
{
    &args[1]
}

/// The arguments passed down to the task: those after the task's name.
pub fn get_calls_args(args: &Vec<String>) -> (res: Vec<String>)
    requires
        args@.len() >= 2,
    ensures
        res@ == args@.skip(2),
{
    let mut res: Vec<String> = Vec::new();
    let mut i: usize = 2;
    while i < args.len()
        invariant
            2 <= i <= args@.len(),
            res@ == args@.subrange(2, i as int),
        decreases args@.len() - i,
    {
        res.push(args[i].clone());
        assert(args@.subrange(2, i + 1) =~= args@.subrange(2, i as int).push(args@[i as int]));
        i = i + 1;
    }
    assert(args@.subrange(2, args@.len() as int) =~= args@.skip(2));
    res
}

} // verus!
