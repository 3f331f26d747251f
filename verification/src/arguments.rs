//! Expansion of an instruction's arguments: known variables, the
//! `$RUMAKE_ARGS` placeholder, and the forwarding of the call's arguments.
use vstd::prelude::*;
use crate::name_map::NameMap;
use crate::text::{
    contains_text,
    contains_text_exec,
    join,
    join_exec,
    occurs_at,
    replace_all,
    replace_all_exec,
    texts,
};

verus! {

/// The placeholder that stands for the call's arguments.
pub open spec fn rumake_args_marker() -> Seq<char> {
    "$RUMAKE_ARGS"@
}

/// The braced spelling of the placeholder.
pub open spec fn braced_rumake_args_marker() -> Seq<char> {
    "${RUMAKE_ARGS}"@
}

/// The characters of each value of a map of strings.
pub open spec fn text_map(m: Map<Seq<char>, String>) -> Map<Seq<char>, Seq<char>> {
    m.map_values(|s: String| s@)
}

/// `raw` with every braced placeholder written in its plain spelling.
pub open spec fn normalized(raw: Seq<char>) -> Seq<char> {
    replace_all(raw, braced_rumake_args_marker(), rumake_args_marker())
}

/// Some argument holds the placeholder, in either spelling.
pub open spec fn has_rumake_args(args: Seq<Seq<char>>) -> bool {
    exists|i: int| 0 <= i < args.len() && #[trigger] contains_text(normalized(args[i]), rumake_args_marker())
}

/// Each argument that is exactly the name of a variable, replaced by its value.
pub open spec fn with_known_variables(
    args: Seq<Seq<char>>,
    variables: Map<Seq<char>, Seq<char>>,
) -> Seq<Seq<char>> {
    args.map_values(
        |a: Seq<char>|
            if variables.dom().contains(a) {
                variables[a]
            } else {
                a
            },
    )
}

/// Each argument with the placeholder replaced by the call's arguments,
/// joined by single spaces.
pub open spec fn with_call_args(args: Seq<Seq<char>>, call_args: Seq<Seq<char>>) -> Seq<Seq<char>> {
    args.map_values(
        |a: Seq<char>| replace_all(normalized(a), rumake_args_marker(), join(call_args, " "@)),
    )
}

/// The arguments that an instruction is run with.
pub open spec fn expanded_args(
    program_args: Seq<Seq<char>>,
    call_args: Seq<Seq<char>>,
    variables: Map<Seq<char>, Seq<char>>,
    is_mono_instruction_task: bool,
) -> Seq<Seq<char>> {
    let known = with_known_variables(program_args, variables);
    if has_rumake_args(known) {
        with_call_args(known, call_args)
    } else if is_mono_instruction_task {
        known + call_args
    } else {
        known
    }
}

/// The lengths of the two spellings of the placeholder.
proof fn lemma_markers()
    ensures
        rumake_args_marker().len() == 12,
        braced_rumake_args_marker().len() == 14,
{
    reveal_strlit("$RUMAKE_ARGS");
    reveal_strlit("${RUMAKE_ARGS}");
}

/// Expands an instruction's arguments: an argument that names a variable
/// becomes its value; then, where some argument holds `$RUMAKE_ARGS` (or
/// `${RUMAKE_ARGS}`), the placeholder is replaced by the call's arguments;
/// otherwise the call's arguments are appended when the task has a single
/// instruction.
pub fn expand_program_args(
    program_args: &[String],
    call_args: &[String],
    variables: &NameMap<String>,
    is_mono_insruction_task: bool,
) -> (res: Vec<String>)
    ensures
        texts(res@) == expanded_args(
            texts(program_args@),
            texts(call_args@),
            text_map(variables@),
            is_mono_insruction_task,
        ),
{
    let mut processed_args = replace_known_variables(program_args, variables);
    if program_args_has_rumake_args(&processed_args) {
        processed_args = replace_rumake_args(processed_args, call_args);
    } else if is_mono_insruction_task {
        let ghost before = processed_args@;
        let mut i: usize = 0;
        while i < call_args.len()
            invariant
                i <= call_args@.len(),
                processed_args@ == before + call_args@.subrange(0, i as int),
            decreases call_args@.len() - i,
        {
            processed_args.push(call_args[i].clone());
            proof {
                assert(call_args@.subrange(0, i + 1) =~= call_args@.subrange(0, i as int).push(
                    call_args@[i as int],
                ));
            }
            i = i + 1;
        }
        proof {
            assert(call_args@.subrange(0, call_args@.len() as int) =~= call_args@);
            assert(texts(before + call_args@) =~= texts(before) + texts(call_args@));
        }
    }
    processed_args
}

/// Each argument that is exactly the name of a variable, replaced by its value.
pub fn replace_known_variables(program_args: &[String], variables: &NameMap<String>) -> (res: Vec<
    String,
>)
    ensures
        texts(res@) == with_known_variables(texts(program_args@), text_map(variables@)),
{
    let mut processed_args: Vec<String> = Vec::new();
    let mut i: usize = 0;
    while i < program_args.len()
        invariant
            i <= program_args@.len(),
            texts(processed_args@) == with_known_variables(
                texts(program_args@.subrange(0, i as int)),
                text_map(variables@),
            ),
        decreases program_args@.len() - i,
    {
        let ghost prev = processed_args@;
        let program_arg = &program_args[i];
        match variables.get(program_arg) {
            Some(value) => processed_args.push(value.clone()),
            None => processed_args.push(program_arg.clone()),
        }
        proof {
            assert(texts(processed_args@) =~= texts(prev).push(processed_args@.last()@));
            assert(texts(program_args@.subrange(0, i + 1)) =~= texts(
                program_args@.subrange(0, i as int),
            ).push(program_arg@));
        }
        i = i + 1;
    }
    proof {
        assert(program_args@.subrange(0, program_args@.len() as int) =~= program_args@);
    }
    processed_args
}

/// Each argument with `$RUMAKE_ARGS` (or `${RUMAKE_ARGS}`) replaced by the
/// call's arguments joined by single spaces. An argument is taken whole, so
/// `echo $RUMAKE_ARGS toto` and `echo "$RUMAKE_ARGS toto"` give different
/// arguments.
pub fn replace_rumake_args(args: Vec<String>, call_args: &[String]) -> (res: Vec<String>)
    ensures
        texts(res@) == with_call_args(texts(args@), texts(call_args@)),
{
    let mut processed_args: Vec<String> = Vec::new();
    let flattened_call_args = join_exec(call_args, " ");
    let mut i: usize = 0;
    proof {
        lemma_markers();
    }
    while i < args.len()
        invariant
            i <= args@.len(),
            flattened_call_args@ == join(texts(call_args@), " "@),
            rumake_args_marker().len() == 12,
            texts(processed_args@) == with_call_args(
                texts(args@.subrange(0, i as int)),
                texts(call_args@),
            ),
        decreases args@.len() - i,
    {
        let ghost prev = processed_args@;
        let normalized_arg = normalize_rumake_args(&args[i]);
        let replaced = replace_all_exec(
            normalized_arg.as_str(),
            "$RUMAKE_ARGS",
            flattened_call_args.as_str(),
        );
        processed_args.push(replaced);
        proof {
            assert(texts(processed_args@) =~= texts(prev).push(processed_args@.last()@));
            assert(texts(args@.subrange(0, i + 1)) =~= texts(args@.subrange(0, i as int)).push(
                args@[i as int]@,
            ));
        }
        i = i + 1;
    }
    proof {
        assert(args@.subrange(0, args@.len() as int) =~= args@);
    }
    processed_args
}

/// `raw` with every `${RUMAKE_ARGS}` written `$RUMAKE_ARGS`.
pub fn normalize_rumake_args(raw: &String) -> (res: String)
    ensures
        res@ == normalized(raw@),
{
    proof {
        lemma_markers();
    }
    replace_all_exec(raw.as_str(), "${RUMAKE_ARGS}", "$RUMAKE_ARGS")
}

/// Whether some argument holds `$RUMAKE_ARGS` or `${RUMAKE_ARGS}`.
pub fn program_args_has_rumake_args(args: &[String]) -> (res: bool)
    ensures
        res == has_rumake_args(texts(args@)),
{
    let mut i: usize = 0;
    while i < args.len()
        invariant
            i <= args@.len(),
            forall|j: int|
                0 <= j < i ==> !#[trigger] contains_text(
                    normalized(args@[j]@),
                    rumake_args_marker(),
                ),
        decreases args@.len() - i,
    {
        let normalized_arg = normalize_rumake_args(&args[i]);
        if contains_text_exec(normalized_arg.as_str(), "$RUMAKE_ARGS") {
            assert(texts(args@)[i as int] == args@[i as int]@);
            return true;
        }
        i = i + 1;
    }
    proof {
        let t = texts(args@);
        assert forall|j: int| 0 <= j < t.len() implies !#[trigger] contains_text(
            normalized(t[j]),
            rumake_args_marker(),
        ) by {
            assert(t[j] == args@[j]@);
        }
    }
    false
}


/// No character of `w` is `$`.
spec fn dollar_free(w: Seq<char>) -> bool {
    forall|k: int| 0 <= k < w.len() ==> w[k] != '$'
}

/// The characters of the two spellings of the placeholder that the laws of
/// normalisation rest on: each begins with `$` and holds no other.
proof fn lemma_marker_chars()
    ensures
        rumake_args_marker().len() == 12,
        braced_rumake_args_marker().len() == 14,
        rumake_args_marker()[0] == '$',
        rumake_args_marker()[1] == 'R',
        braced_rumake_args_marker()[0] == '$',
        braced_rumake_args_marker()[1] == '{',
        dollar_free(rumake_args_marker().skip(1)),
        dollar_free(braced_rumake_args_marker().skip(1)),
{
    reveal_strlit("$RUMAKE_ARGS");
    reveal_strlit("${RUMAKE_ARGS}");
}

/// An occurrence after a prefix `p` is an occurrence in the rest.
proof fn lemma_occurs_after(p: Seq<char>, s: Seq<char>, pat: Seq<char>, i: int)
    requires
        i >= p.len(),
    ensures
        occurs_at(p + s, pat, i) <==> occurs_at(s, pat, i - p.len()),
{
    let t = p + s;
    if i + pat.len() <= t.len() {
        assert(t.subrange(i, i + pat.len()) =~= s.subrange(i - p.len(), i - p.len() + pat.len()));
    }
}

/// `w` begins `c` followed by `r` exactly when `w` begins with `c` and the
/// rest of `w` begins `r`.
proof fn lemma_occurs_head(c: char, r: Seq<char>, w: Seq<char>)
    requires
        w.len() >= 1,
    ensures
        occurs_at(seq![c] + r, w, 0) <==> (c == w[0] && occurs_at(r, w.skip(1), 0)),
{
    let t = seq![c] + r;
    if w.len() <= t.len() {
        if t.subrange(0, w.len() as int) == w {
            assert(t.subrange(0, w.len() as int)[0] == c);
            assert(w.skip(1) =~= r.subrange(0, w.len() - 1));
        }
        if c == w[0] && occurs_at(r, w.skip(1), 0) {
            assert forall|k: int| 1 <= k < w.len() implies #[trigger] t[k] == w[k] by {
                assert(r.subrange(0, w.len() - 1)[k - 1] == r[k - 1]);
            }
            assert(t.subrange(0, w.len() as int) =~= w);
        }
    }
}

/// A text that is not empty is its first character followed by the rest.
proof fn lemma_split_head(t: Seq<char>)
    requires
        t.len() >= 1,
    ensures
        t == seq![t[0]] + t.skip(1),
{
    assert(t =~= seq![t[0]] + t.skip(1));
}

/// Normalising a text that does not begin with the braced placeholder keeps
/// its first character and normalises the rest.
proof fn lemma_normalized_step(t: Seq<char>)
    requires
        t.len() >= 1,
        !occurs_at(t, braced_rumake_args_marker(), 0),
    ensures
        normalized(t) == seq![t[0]] + normalized(t.skip(1)),
{
    lemma_marker_chars();
}

/// Normalising a text that begins with the braced placeholder writes the
/// plain one and normalises the rest.
proof fn lemma_normalized_replaces(t: Seq<char>)
    requires
        occurs_at(t, braced_rumake_args_marker(), 0),
    ensures
        normalized(t) == rumake_args_marker() + normalized(t.skip(14)),
{
    lemma_marker_chars();
}

/// A text begins with a `$`-free `w` exactly when its normalised form does.
proof fn lemma_normalized_prefix(u: Seq<char>, w: Seq<char>)
    requires
        dollar_free(w),
    ensures
        occurs_at(normalized(u), w, 0) <==> occurs_at(u, w, 0),
    decreases u.len(),
{
    lemma_marker_chars();
    let b = braced_rumake_args_marker();
    if w.len() == 0 {
        assert(normalized(u).subrange(0, 0) =~= w);
        assert(u.subrange(0, 0) =~= w);
    } else if u.len() == 0 {
    } else if occurs_at(u, b, 0) {
        lemma_normalized_replaces(u);
        lemma_split_head(u);
        assert(u[0] == '$') by {
            assert(u.subrange(0, 14)[0] == u[0]);
        }
        lemma_occurs_head(u[0], u.skip(1), w);
        let m = rumake_args_marker();
        let rest = normalized(u.skip(14));
        assert(m + rest == seq![m[0]] + (m.skip(1) + rest)) by {
            assert(m + rest =~= seq![m[0]] + (m.skip(1) + rest));
        }
        lemma_occurs_head(m[0], m.skip(1) + rest, w);
    } else {
        let v = u.skip(1);
        assert(dollar_free(w.skip(1)));
        lemma_normalized_prefix(v, w.skip(1));
        lemma_normalized_step(u);
        lemma_split_head(u);
        lemma_occurs_head(u[0], normalized(v), w);
        lemma_occurs_head(u[0], v, w);
    }
}

/// No braced placeholder starts at `i` in a normalised text.
proof fn lemma_no_braced_at(t: Seq<char>, i: int)
    ensures
        !occurs_at(normalized(t), braced_rumake_args_marker(), i),
    decreases t.len(),
{
    lemma_marker_chars();
    let b = braced_rumake_args_marker();
    let m = rumake_args_marker();
    let r = normalized(t);
    if t.len() == 0 {
    } else if occurs_at(t, b, 0) {
        lemma_normalized_replaces(t);
        let rest = normalized(t.skip(14));
        if i >= 12 {
            lemma_occurs_after(m, rest, b, i);
            lemma_no_braced_at(t.skip(14), i - 12);
        } else if 0 <= i && occurs_at(r, b, i) {
            assert(r[i] == '$') by {
                assert(r.subrange(i, i + 14)[0] == r[i]);
            }
            assert(r[i + 1] == '{') by {
                assert(r.subrange(i, i + 14)[1] == r[i + 1]);
            }
            if i == 0 {
                assert(r[1] == m[1]);
            } else {
                assert(r[i] == m.skip(1)[i - 1]);
            }
        }
    } else {
        let u = t.skip(1);
        let rest = normalized(u);
        lemma_normalized_step(t);
        if i >= 1 {
            lemma_occurs_after(seq![t[0]], rest, b, i);
            lemma_no_braced_at(u, i - 1);
        } else if i == 0 && occurs_at(r, b, 0) {
            lemma_occurs_head(t[0], rest, b);
            lemma_normalized_prefix(u, b.skip(1));
            lemma_split_head(t);
            lemma_occurs_head(t[0], u, b);
        }
    }
}

/// A text that holds no braced placeholder is its own normalised form.
proof fn lemma_normalized_unchanged(t: Seq<char>)
    requires
        !contains_text(t, braced_rumake_args_marker()),
    ensures
        normalized(t) == t,
    decreases t.len(),
{
    lemma_marker_chars();
    let b = braced_rumake_args_marker();
    if t.len() > 0 {
        assert(!occurs_at(t, b, 0));
        let u = t.skip(1);
        lemma_split_head(t);
        assert forall|i: int| !#[trigger] occurs_at(u, b, i) by {
            if i >= 0 {
                lemma_occurs_after(seq![t[0]], u, b, i + 1);
                assert(!occurs_at(t, b, i + 1));
            }
        }
        lemma_normalized_unchanged(u);
        lemma_normalized_step(t);
    }
}

/// The plain placeholder occurs in a normalised text exactly when either
/// spelling occurs in the text.
proof fn lemma_plain_marker_after(t: Seq<char>)
    ensures
        contains_text(normalized(t), rumake_args_marker()) <==> (contains_text(
            t,
            rumake_args_marker(),
        ) || contains_text(t, braced_rumake_args_marker())),
    decreases t.len(),
{
    lemma_marker_chars();
    let b = braced_rumake_args_marker();
    let m = rumake_args_marker();
    let r = normalized(t);
    if t.len() == 0 {
        assert(!contains_text(t, m));
        assert(!contains_text(t, b));
        assert(!contains_text(r, m));
    } else if occurs_at(t, b, 0) {
        lemma_normalized_replaces(t);
        assert(r.subrange(0, 12) =~= m);
        assert(occurs_at(r, m, 0));
    } else {
        let u = t.skip(1);
        let rest = normalized(u);
        lemma_plain_marker_after(u);
        lemma_normalized_step(t);
        lemma_split_head(t);
        // Occurrences after the first character.
        assert forall|i: int| i >= 1 implies (#[trigger] occurs_at(r, m, i) <==> occurs_at(
            rest,
            m,
            i - 1,
        )) by {
            lemma_occurs_after(seq![t[0]], rest, m, i);
        }
        assert forall|i: int| i >= 1 implies (#[trigger] occurs_at(t, m, i) <==> occurs_at(
            u,
            m,
            i - 1,
        )) by {
            lemma_occurs_after(seq![t[0]], u, m, i);
        }
        assert forall|i: int| i >= 1 implies (#[trigger] occurs_at(t, b, i) <==> occurs_at(
            u,
            b,
            i - 1,
        )) by {
            lemma_occurs_after(seq![t[0]], u, b, i);
        }
        // An occurrence at the very start.
        lemma_occurs_head(t[0], rest, m);
        lemma_occurs_head(t[0], u, m);
        lemma_normalized_prefix(u, m.skip(1));
        assert(occurs_at(r, m, 0) <==> occurs_at(t, m, 0));
        if contains_text(r, m) {
            let i = choose|i: int| occurs_at(r, m, i);
            if i >= 1 {
                assert(occurs_at(rest, m, i - 1));
            }
        }
        if contains_text(rest, m) {
            let j = choose|j: int| occurs_at(rest, m, j);
            assert(occurs_at(r, m, j + 1));
        }
        if contains_text(t, m) {
            let i = choose|i: int| occurs_at(t, m, i);
            if i >= 1 {
                assert(occurs_at(u, m, i - 1));
            }
        }
        if contains_text(u, m) {
            let j = choose|j: int| occurs_at(u, m, j);
            assert(occurs_at(t, m, j + 1));
        }
        if contains_text(t, b) {
            let i = choose|i: int| occurs_at(t, b, i);
            assert(i >= 1);
            assert(occurs_at(u, b, i - 1));
        }
        if contains_text(u, b) {
            let j = choose|j: int| occurs_at(u, b, j);
            assert(occurs_at(t, b, j + 1));
        }
    }
}

/// Normalising leaves no `${RUMAKE_ARGS}` behind.
pub proof fn lemma_normalized_has_no_braced_marker(raw: Seq<char>)
    ensures
        !contains_text(normalized(raw), braced_rumake_args_marker()),
{
    assert forall|i: int| !#[trigger] occurs_at(normalized(raw), braced_rumake_args_marker(), i) by {
        lemma_no_braced_at(raw, i);
    }
}

/// Normalising an already normalised text changes nothing.
pub proof fn lemma_normalize_is_idempotent(raw: Seq<char>)
    ensures
        normalized(normalized(raw)) == normalized(raw),
{
    lemma_normalized_has_no_braced_marker(raw);
    lemma_normalized_unchanged(normalized(raw));
}

/// A normalised text holds `$RUMAKE_ARGS` exactly when the raw text held the
/// placeholder in either spelling.
pub proof fn lemma_normalized_keeps_the_placeholder(raw: Seq<char>)
    ensures
        contains_text(normalized(raw), rumake_args_marker()) <==> (contains_text(
            raw,
            rumake_args_marker(),
        ) || contains_text(raw, braced_rumake_args_marker())),
{
    lemma_plain_marker_after(raw);
}

/// Replacing known variables keeps every argument in its place: an argument,
/// at any position, that is exactly the name of a variable becomes that
/// variable's value, and any other argument stays as it is.
pub proof fn lemma_known_variables_each_argument(
    args: Seq<Seq<char>>,
    variables: Map<Seq<char>, Seq<char>>,
)
    ensures
        with_known_variables(args, variables).len() == args.len(),
        forall|i: int|
            0 <= i < args.len() ==> #[trigger] with_known_variables(args, variables)[i] == if variables.dom().contains(
                args[i],
            ) {
                variables[args[i]]
            } else {
                args[i]
            },
{
}

/// Replacing known variables in arguments one after the other gives the two
/// replaced lists one after the other.
pub proof fn lemma_known_variables_concat(
    a: Seq<Seq<char>>,
    b: Seq<Seq<char>>,
    variables: Map<Seq<char>, Seq<char>>,
)
    ensures
        with_known_variables(a + b, variables) == with_known_variables(a, variables)
            + with_known_variables(b, variables),
{
    assert(with_known_variables(a + b, variables) =~= with_known_variables(a, variables)
        + with_known_variables(b, variables));
}

/// `arg` holds the placeholder, in either spelling.
pub open spec fn holds_placeholder(arg: Seq<char>) -> bool {
    contains_text(arg, rumake_args_marker()) || contains_text(arg, braced_rumake_args_marker())
}

/// How an instruction's arguments are expanded: after the known variables
/// are replaced, when some argument holds the placeholder in either
/// spelling, each argument has every placeholder replaced by the call's
/// arguments joined by single spaces, and nothing is appended; otherwise the
/// call's arguments are appended after the arguments exactly when the task
/// has a single instruction.
pub proof fn lemma_expanded_args_cases(
    program_args: Seq<Seq<char>>,
    call_args: Seq<Seq<char>>,
    variables: Map<Seq<char>, Seq<char>>,
    is_mono_instruction_task: bool,
)
    ensures
        ({
            let known = with_known_variables(program_args, variables);
            let res = expanded_args(program_args, call_args, variables, is_mono_instruction_task);
            if exists|i: int| 0 <= i < known.len() && #[trigger] holds_placeholder(known[i]) {
                &&& res.len() == known.len()
                &&& forall|i: int|
                    0 <= i < known.len() ==> #[trigger] res[i] == replace_all(
                        normalized(known[i]),
                        rumake_args_marker(),
                        join(call_args, seq![' ']),
                    )
            } else if is_mono_instruction_task {
                res == known + call_args
            } else {
                res == known
            }
        }),
{
    reveal_strlit(" ");
    assert(" "@ =~= seq![' ']);
    let known = with_known_variables(program_args, variables);
    if exists|i: int| 0 <= i < known.len() && #[trigger] holds_placeholder(known[i]) {
        let i = choose|i: int| 0 <= i < known.len() && #[trigger] holds_placeholder(known[i]);
        lemma_normalized_keeps_the_placeholder(known[i]);
        assert(has_rumake_args(known));
    } else if has_rumake_args(known) {
        let i = choose|i: int|
            0 <= i < known.len() && #[trigger] contains_text(
                normalized(known[i]),
                rumake_args_marker(),
            );
        lemma_normalized_keeps_the_placeholder(known[i]);
        assert(holds_placeholder(known[i]));
    }
}

} // verus!
