//! Variables whose values refer to other variables: finding the references,
//! rejecting a variable that depends on itself, and computing the values.
use vstd::prelude::*;
use vstd::string::StringSliceAdditionalSpecFns;
use crate::graph::{
    acyclic,
    edge,
    is_walk,
    lemma_distinct_within,
    lemma_reached_within,
    lemma_reaches_edge,
    lemma_reaches_extend,
    lemma_reaches_prepend,
    on_cycle,
    reaches,
    refers_within,
    RefGraph,
};
use crate::arguments::text_map;
use crate::name_map::NameMap;
use crate::spans::{cut_at_spans, joined_pieces, piece_views, span_pieces, spans_well_placed};
use crate::text::{lemma_texts_drop_last, lemma_texts_push, replace_all, replace_all_exec, texts};

verus! {

/// A variable of the configuration: its name (which starts with `$`) and its
/// value as written, which may refer to other variables.
#[derive(Debug)]
pub struct Variable {
    pub name: String,
    pub value: String,
}

/// Why the variables cannot be resolved.
#[derive(Debug)]
pub enum ResolveError {
    /// The named variable depends on itself, directly or through others.
    CyclicDependency(String),
}

/// The regular expression that finds references in a value: `$name` or
/// `${name}`, where the name is made of word characters.
pub open spec fn reference_pattern() -> Seq<char> {
    "(?:\\$(?:\\{\\w+\\}|\\w+))"@
}

/// The matches of the regular expression `pattern` in `haystack`, as the
/// `regex` crate finds them (leftmost first, without overlap), each a start
/// and an end offset into the UTF-8 encoding of the haystack; `None` when the
/// pattern does not compile.
pub uninterp spec fn regex_match_spans(pattern: Seq<char>, haystack: Seq<char>) -> Option<
    Seq<(usize, usize)>,
>;

/// Compiles `pattern` with `regex::Regex::new` and gives the start and the
/// end (`Match::start`, `Match::end`) of each match that `Regex::find_iter`
/// yields in `haystack`, in order. The contract claims that the result is
/// determined by the pattern and the haystack (`regex_match_spans`), and what
/// the crate documents of the offsets: a match starts no later than it ends,
/// both offsets fall on character boundaries of the haystack, and the matches
/// are successive and do not overlap. What a pattern matches is left
/// unstated.
#[verifier::external_body]
fn regex_find_spans(pattern: &str, haystack: &str) -> (res: Option<Vec<(usize, usize)>>)
    ensures
        match res {
            Some(spans) => {
                &&& regex_match_spans(pattern@, haystack@) == Some(spans@)
                &&& spans_well_placed(spans@, haystack.spec_bytes())
            },
            None => regex_match_spans(pattern@, haystack@) is None,
        },
{
    let re = regex::Regex::new(pattern).ok()?;
    Some(re.find_iter(haystack).map(|m| (m.start(), m.end())).collect())
}

/// Where the references of `value` stand: the spans of the matches of the
/// reference pattern, or none when the pattern does not compile.
pub open spec fn reference_spans(value: Seq<char>) -> Seq<(usize, usize)> {
    match regex_match_spans(reference_pattern(), value) {
        Some(spans) => spans,
        None => Seq::empty(),
    }
}

/// `value` cut at its references: the text before each reference, the
/// reference, and the text after the last one. Joined, the pieces give
/// `value` back.
pub fn reference_pieces(value: &str) -> (res: Vec<(String, bool)>)
    ensures
        piece_views(res@) == value_pieces(value@),
        joined_pieces(piece_views(res@)) == value@,
{
    let spans = match regex_find_spans("(?:\\$(?:\\{\\w+\\}|\\w+))", value) {
        Some(spans) => spans,
        None => Vec::new(),
    };
    cut_at_spans(value, spans.as_slice())
}

/// The name that a match refers to: the match without its braces.
pub open spec fn reference_name(matched: Seq<char>) -> Seq<char> {
    replace_all(replace_all(matched, "{"@, ""@), "}"@, ""@)
}

/// The names referred to by the matches among `pieces` that are names of
/// `known`, in order, repeats kept.
pub open spec fn known_references(pieces: Seq<(Seq<char>, bool)>, known: Set<Seq<char>>) -> Seq<
    Seq<char>,
>
    decreases pieces.len(),
{
    if pieces.len() == 0 {
        Seq::empty()
    } else {
        let prev = known_references(pieces.drop_last(), known);
        let r = reference_name(pieces.last().0);
        if pieces.last().1 && known.contains(r) {
            prev.push(r)
        } else {
            prev
        }
    }
}

/// The pieces of a value: the value cut at its references.
pub open spec fn value_pieces(value: Seq<char>) -> Seq<(Seq<char>, bool)> {
    span_pieces(value, reference_spans(value))
}

/// The known variables that the value of `k` refers to, in order.
pub open spec fn value_references(variables: Map<Seq<char>, Variable>, k: Seq<char>) -> Seq<
    Seq<char>,
> {
    known_references(value_pieces(variables[k].value@), variables.dom())
}

/// For each variable that refers to some known variable, the known variables
/// that its value refers to, in the order in which they occur.
pub open spec fn reference_graph(variables: Map<Seq<char>, Variable>) -> RefGraph {
    Map::new(
        |k: Seq<char>| variables.dom().contains(k) && value_references(variables, k).len() > 0,
        |k: Seq<char>| value_references(variables, k),
    )
}

/// The names of `names`, in order, whose values refer to some known
/// variable.
pub open spec fn referring_names(variables: Map<Seq<char>, Variable>, names: Seq<Seq<char>>) -> Seq<
    Seq<char>,
>
    decreases names.len(),
{
    if names.len() == 0 {
        Seq::empty()
    } else {
        let prev = referring_names(variables, names.drop_last());
        if value_references(variables, names.last()).len() > 0 {
            prev.push(names.last())
        } else {
            prev
        }
    }
}

/// The value of each variable as written.
pub open spec fn raw_values(variables: Map<Seq<char>, Variable>) -> Map<Seq<char>, Seq<char>> {
    variables.map_values(|v: Variable| v.value@)
}

/// The value of `name`, with its references followed `depth` levels deep: a
/// name without references keeps its value; otherwise its value is rebuilt
/// from its pieces.
pub open spec fn value_with_depth(
    raw: Map<Seq<char>, Seq<char>>,
    g: RefGraph,
    name: Seq<char>,
    depth: nat,
) -> Seq<char>
    decreases depth, 1int, 0int,
{
    if !g.dom().contains(name) {
        raw[name]
    } else {
        rebuilt(raw, g, value_pieces(raw[name]), g[name], depth)
    }
}

/// The pieces joined, where a match that names one of `refs` gives that
/// variable's value followed `depth - 1` levels deep, when `depth` is not 0.
pub open spec fn rebuilt(
    raw: Map<Seq<char>, Seq<char>>,
    g: RefGraph,
    pieces: Seq<(Seq<char>, bool)>,
    refs: Seq<Seq<char>>,
    depth: nat,
) -> Seq<char>
    decreases depth, 0int, pieces.len(),
{
    if pieces.len() == 0 {
        Seq::empty()
    } else {
        let p = pieces.last();
        let r = reference_name(p.0);
        rebuilt(raw, g, pieces.drop_last(), refs, depth) + if depth > 0 && p.1 && refs.contains(r) {
            value_with_depth(raw, g, r, (depth - 1) as nat)
        } else {
            p.0
        }
    }
}

/// The pieces joined, where a match that names one of `refs` gives that
/// variable's value in `values`.
pub open spec fn rebuilt_with(
    pieces: Seq<(Seq<char>, bool)>,
    refs: Seq<Seq<char>>,
    values: Map<Seq<char>, Seq<char>>,
) -> Seq<char>
    decreases pieces.len(),
{
    if pieces.len() == 0 {
        Seq::empty()
    } else {
        let p = pieces.last();
        let r = reference_name(p.0);
        rebuilt_with(pieces.drop_last(), refs, values) + if p.1 && refs.contains(r) {
            values[r]
        } else {
            p.0
        }
    }
}

/// The values of all variables, references followed `depth` levels deep.
pub open spec fn resolved_values(
    raw: Map<Seq<char>, Seq<char>>,
    g: RefGraph,
    depth: nat,
) -> Map<Seq<char>, Seq<char>> {
    Map::new(|k: Seq<char>| raw.dom().contains(k), |k: Seq<char>| value_with_depth(raw, g, k, depth))
}

/// The graph of a map from names to the names they refer to.
pub open spec fn ref_graph(m: Map<Seq<char>, Vec<String>>) -> RefGraph {
    m.map_values(|v: Vec<String>| texts(v@))
}

/// Whether the name `s` occurs in `v`.
pub fn contains_name(v: &Vec<String>, s: &String) -> (res: bool)
    ensures
        res == texts(v@).contains(s@),
{
    let mut i: usize = 0;
    while i < v.len()
        invariant
            i <= v@.len(),
            forall|j: int| 0 <= j < i ==> v@[j]@ != s@,
        decreases v@.len() - i,
    {
        if v[i] == *s {
            assert(texts(v@)[i as int] == s@);
            return true;
        }
        i = i + 1;
    }
    proof {
        if texts(v@).contains(s@) {
            let j = choose|j: int| 0 <= j < texts(v@).len() && texts(v@)[j] == s@;
            assert(v@[j]@ == s@);
        }
    }
    false
}

/// Adds each name of `succ` that is not yet in `visited` to both `visited`
/// and `worklist`.
fn visit_names(succ: &Vec<String>, visited: &mut Vec<String>, worklist: &mut Vec<String>)
    requires
        texts(old(visited)@).no_duplicates(),
    ensures
        exists|added: Seq<Seq<char>>|
            {
                &&& texts(final(visited)@) == texts(old(visited)@) + added
                &&& texts(final(worklist)@) == texts(old(worklist)@) + added
                &&& forall|i: int| 0 <= i < added.len() ==> texts(succ@).contains(#[trigger] added[i])
            },
        texts(final(visited)@).no_duplicates(),
        forall|i: int| 0 <= i < succ@.len() ==> texts(final(visited)@).contains(#[trigger] texts(succ@)[i]),
{
    let ghost v0 = texts(visited@);
    let ghost w0 = texts(worklist@);
    let ghost mut added: Seq<Seq<char>> = Seq::empty();
    assert(v0 + added =~= v0);
    assert(w0 + added =~= w0);
    let mut j: usize = 0;
    while j < succ.len()
        invariant
            j <= succ@.len(),
            texts(visited@).no_duplicates(),
            texts(visited@) == v0 + added,
            texts(worklist@) == w0 + added,
            forall|i: int| 0 <= i < added.len() ==> texts(succ@).contains(#[trigger] added[i]),
            forall|i: int| 0 <= i < j ==> texts(visited@).contains(#[trigger] texts(succ@)[i]),
        decreases succ@.len() - j,
    {
        let ghost before = texts(visited@);
        let ghost wbefore = texts(worklist@);
        let name = &succ[j];
        assert(texts(succ@)[j as int] == name@);
        if !contains_name(visited, name) {
            proof {
                lemma_texts_push(visited@, *name);
                lemma_texts_push(worklist@, *name);
            }
            visited.push(name.clone());
            worklist.push(name.clone());
            proof {
                let added2 = added.push(name@);
                assert(texts(visited@) == before.push(name@));
                assert(texts(worklist@) == wbefore.push(name@));
                assert(texts(visited@) =~= v0 + added2);
                assert(texts(worklist@) =~= w0 + added2);
                assert forall|i: int| 0 <= i < added2.len() implies texts(succ@).contains(
                    #[trigger] added2[i],
                ) by {
                    if i == added.len() {
                        assert(texts(succ@)[j as int] == added2[i]);
                    } else {
                        assert(added[i] == added2[i]);
                    }
                }
                assert forall|a: int, b: int|
                    0 <= a < texts(visited@).len() && 0 <= b < texts(visited@).len() && a
                        != b implies texts(visited@)[a] != texts(visited@)[b] by {
                    if a == before.len() {
                        assert(!before.contains(name@));
                        assert(before[b] == texts(visited@)[b]);
                    } else if b == before.len() {
                        assert(!before.contains(name@));
                        assert(before[a] == texts(visited@)[a]);
                    } else {
                        assert(before[a] == texts(visited@)[a]);
                        assert(before[b] == texts(visited@)[b]);
                    }
                }
                assert forall|i: int| 0 <= i < j + 1 implies texts(visited@).contains(
                    #[trigger] texts(succ@)[i],
                ) by {
                    if i < j {
                        assert(before.contains(texts(succ@)[i]));
                        let k = choose|k: int|
                            0 <= k < before.len() && before[k] == texts(succ@)[i];
                        assert(texts(visited@)[k] == before[k]);
                    } else {
                        assert(texts(visited@)[before.len() as int] == name@);
                    }
                }
                added = added2;
            }
        }
        j = j + 1;
    }
}

/// Once every name of `v` that is not waiting in `w` has all its references
/// in `v`, and `start`'s references are in `v`, every name reached from
/// `start` is in `v`.
proof fn lemma_walk_stays_in(
    g: RefGraph,
    start: Seq<char>,
    v: Seq<Seq<char>>,
    p: Seq<Seq<char>>,
    k: int,
)
    requires
        forall|s: Seq<char>| edge(g, start, s) ==> v.contains(s),
        forall|a: Seq<char>, s: Seq<char>| v.contains(a) && edge(g, a, s) ==> v.contains(s),
        p.len() >= 2,
        p[0] == start,
        is_walk(g, p),
        1 <= k < p.len(),
    ensures
        v.contains(p[k]),
    decreases k,
{
    if k == 1 {
        assert(edge(g, p[0], p[0int + 1]));
    } else {
        lemma_walk_stays_in(g, start, v, p, k - 1);
        assert(edge(g, p[k - 1], p[(k - 1) + 1]));
    }
}

/// Every name of `v` lies in `universe` and is reached from `start`.
pub open spec fn all_reached(
    g: RefGraph,
    start: Seq<char>,
    v: Seq<Seq<char>>,
    universe: Set<Seq<char>>,
) -> bool {
    forall|i: int| 0 <= i < v.len() ==> reaches(g, start, #[trigger] v[i]) && universe.contains(v[i])
}

/// The names referred to by the names of `names`, in order.
pub open spec fn all_targets(g: RefGraph, names: Seq<Seq<char>>) -> Seq<Seq<char>>
    decreases names.len(),
{
    if names.len() == 0 {
        Seq::empty()
    } else {
        all_targets(g, names.drop_last()) + g[names.last()]
    }
}

proof fn lemma_all_targets(g: RefGraph, names: Seq<Seq<char>>, i: int, b: Seq<char>)
    requires
        0 <= i < names.len(),
        g[names[i]].contains(b),
    ensures
        all_targets(g, names).contains(b),
    decreases names.len(),
{
    let prev = all_targets(g, names.drop_last());
    let last = g[names.last()];
    if i == names.len() - 1 {
        let k = choose|k: int| 0 <= k < last.len() && last[k] == b;
        assert((prev + last)[prev.len() + k] == b);
    } else {
        assert(names.drop_last()[i] == names[i]);
        lemma_all_targets(g, names.drop_last(), i, b);
        let k = choose|k: int| 0 <= k < prev.len() && prev[k] == b;
        assert((prev + last)[k] == b);
    }
}

/// Whether `original` is reached from `checked` by following references; a
/// name that is not a key refers to nothing. Called with a name twice, it
/// tells whether that name depends on itself.
pub fn depends_on(checked: &String, original: &String, references: &NameMap<Vec<String>>) -> (res:
    bool)
    ensures
        res == reaches(ref_graph(references@), checked@, original@),
{
    let ghost g = ref_graph(references@);
    let _ = references.len();
    let ghost universe = all_targets(g, references.names()).to_set();
    proof {
        vstd::seq_lib::seq_to_set_is_finite(all_targets(g, references.names()));
        assert forall|a: Seq<char>, b: Seq<char>| #[trigger] edge(g, a, b) implies universe.contains(
            b,
        ) by {
            assert(references.names().to_set().contains(a));
            let i = choose|i: int| 0 <= i < references.names().len() && references.names()[i] == a;
            lemma_all_targets(g, references.names(), i, b);
        }
    }
    let mut visited: Vec<String> = Vec::new();
    let mut worklist: Vec<String> = Vec::new();
    match references.get(checked) {
        Some(succ) => {
            assert(texts(visited@) =~= Seq::<Seq<char>>::empty());
            visit_names(succ, &mut visited, &mut worklist);
            proof {
                let added = choose|added: Seq<Seq<char>>|
                    {
                        &&& texts(visited@) == Seq::<Seq<char>>::empty() + added
                        &&& texts(worklist@) == Seq::<Seq<char>>::empty() + added
                        &&& texts(visited@).no_duplicates()
                        &&& forall|i: int|
                            0 <= i < added.len() ==> texts(succ@).contains(#[trigger] added[i])
                    };
                assert(texts(visited@) =~= added);
                assert(texts(worklist@) =~= added);
                assert(g[checked@] == texts(succ@));
                assert forall|i: int| 0 <= i < texts(visited@).len() implies reaches(
                    g,
                    checked@,
                    #[trigger] texts(visited@)[i],
                ) && universe.contains(texts(visited@)[i]) by {
                    assert(texts(succ@).contains(added[i]));
                    assert(edge(g, checked@, added[i]));
                    lemma_reaches_edge(g, checked@, added[i]);
                }
                assert forall|s: Seq<char>| edge(g, checked@, s) implies texts(visited@).contains(
                    s,
                ) by {
                    let i = choose|i: int| 0 <= i < texts(succ@).len() && texts(succ@)[i] == s;
                }
            }
        },
        None => {
            proof {
                assert(texts(visited@) =~= Seq::<Seq<char>>::empty());
                assert(texts(worklist@) =~= Seq::<Seq<char>>::empty());
            }
        },
    }
    proof {
        lemma_distinct_within(texts(visited@), universe);
    }
    while worklist.len() > 0
        invariant
            g == ref_graph(references@),
            universe.finite(),
            forall|a: Seq<char>, b: Seq<char>| #[trigger] edge(g, a, b) ==> universe.contains(b),
            texts(visited@).no_duplicates(),
            texts(worklist@).no_duplicates(),
            texts(visited@).len() <= universe.len(),
            all_reached(g, checked@, texts(visited@), universe),
            forall|w: Seq<char>| texts(worklist@).contains(w) ==> texts(visited@).contains(w),
            forall|a: Seq<char>, s: Seq<char>|
                texts(visited@).contains(a) && !texts(worklist@).contains(a) && #[trigger] edge(
                    g,
                    a,
                    s,
                ) ==> texts(visited@).contains(s),
            forall|s: Seq<char>| #[trigger] edge(g, checked@, s) ==> texts(visited@).contains(s),
        decreases universe.len() - texts(visited@).len(), worklist@.len(),
    {
        let ghost v0 = texts(visited@);
        let ghost w0 = texts(worklist@);
        let ghost wl = worklist@;
        proof {
            assert(all_reached(g, checked@, v0, universe));
            assert(forall|w: Seq<char>| w0.contains(w) ==> v0.contains(w));
            lemma_texts_drop_last(wl);
        }
        let x = worklist.pop().unwrap();
        let ghost w1 = texts(worklist@);
        proof {
            assert(w1 =~= w0.drop_last());
            assert(w0.last() == x@);
            assert(!w1.contains(x@)) by {
                if w1.contains(x@) {
                    let k = choose|k: int| 0 <= k < w1.len() && w1[k] == x@;
                    assert(w0[k] == w0[w0.len() - 1]);
                }
            }
            assert(w0.contains(x@));
            assert(v0.contains(x@));
            let k = choose|k: int| 0 <= k < v0.len() && v0[k] == x@;
            assert(reaches(g, checked@, v0[k]));
        }
        match references.get(&x) {
            Some(succ) => {
                visit_names(succ, &mut visited, &mut worklist);
                proof {
                    let added = choose|added: Seq<Seq<char>>|
                        {
                            &&& texts(visited@) == v0 + added
                            &&& texts(worklist@) == w1 + added
                            &&& texts(visited@).no_duplicates()
                            &&& forall|i: int|
                                0 <= i < added.len() ==> texts(succ@).contains(#[trigger] added[i])
                        };
                    let v2 = texts(visited@);
                    let w2 = texts(worklist@);
                    assert(g[x@] == texts(succ@));
                    assert forall|i: int| 0 <= i < v2.len() implies reaches(
                        g,
                        checked@,
                        #[trigger] v2[i],
                    ) && universe.contains(v2[i]) by {
                        if i < v0.len() {
                            assert(v2[i] == v0[i]);
                            assert(reaches(g, checked@, v0[i]));
                        } else {
                            assert(v2[i] == added[i - v0.len()]);
                            assert(texts(succ@).contains(added[i - v0.len()]));
                            assert(edge(g, x@, v2[i]));
                            lemma_reaches_extend(g, checked@, x@, v2[i]);
                        }
                    }
                    assert forall|w: Seq<char>| w2.contains(w) implies v2.contains(w) by {
                        let k = choose|k: int| 0 <= k < w2.len() && w2[k] == w;
                        if k < w1.len() {
                            assert(w0[k] == w);
                            assert(w0.contains(w));
                            let m = choose|m: int| 0 <= m < v0.len() && v0[m] == w;
                            assert(v2[m] == w);
                        } else {
                            assert(v2[v0.len() + (k - w1.len())] == w);
                        }
                    }
                    assert forall|a: int, b: int|
                        0 <= a < w2.len() && 0 <= b < w2.len() && a != b implies w2[a]
                        != w2[b] by {
                        if a < w1.len() && b < w1.len() {
                            assert(w0[a] == w2[a] && w0[b] == w2[b]);
                        } else if a >= w1.len() && b >= w1.len() {
                            assert(v2[v0.len() + (a - w1.len())] == w2[a]);
                            assert(v2[v0.len() + (b - w1.len())] == w2[b]);
                        } else if a < w1.len() {
                            assert(w0[a] == w2[a]);
                            assert(v0.contains(w2[a]));
                            let m = choose|m: int| 0 <= m < v0.len() && v0[m] == w2[a];
                            assert(v2[m] == w2[a]);
                            assert(v2[v0.len() + (b - w1.len())] == w2[b]);
                        } else {
                            assert(w0[b] == w2[b]);
                            assert(v0.contains(w2[b]));
                            let m = choose|m: int| 0 <= m < v0.len() && v0[m] == w2[b];
                            assert(v2[m] == w2[b]);
                            assert(v2[v0.len() + (a - w1.len())] == w2[a]);
                        }
                    }
                    assert forall|a: Seq<char>, s: Seq<char>|
                        v2.contains(a) && !w2.contains(a) && #[trigger] edge(g, a, s) implies v2.contains(
                        s,
                    ) by {
                        let k = choose|k: int| 0 <= k < v2.len() && v2[k] == a;
                        if k >= v0.len() {
                            assert(w2[w1.len() + (k - v0.len())] == a);
                        }
                        assert(v0[k] == a);
                        if a == x@ {
                            let i = choose|i: int| 0 <= i < texts(succ@).len() && texts(succ@)[i] == s;
                        } else {
                            if w0.contains(a) {
                                let m = choose|m: int| 0 <= m < w0.len() && w0[m] == a;
                                if m < w1.len() {
                                    assert(w2[m] == a);
                                }
                            }
                            let m = choose|m: int| 0 <= m < v0.len() && v0[m] == s;
                            assert(v2[m] == s);
                        }
                    }
                    assert forall|s: Seq<char>| #[trigger] edge(g, checked@, s) implies v2.contains(s) by {
                        let m = choose|m: int| 0 <= m < v0.len() && v0[m] == s;
                        assert(v2[m] == s);
                    }
                    lemma_distinct_within(v2, universe);
                }
            },
            None => {
                proof {
                    assert forall|a: Seq<char>, s: Seq<char>|
                        v0.contains(a) && !w1.contains(a) && #[trigger] edge(g, a, s) implies v0.contains(
                        s,
                    ) by {
                        if a != x@ {
                            if w0.contains(a) {
                                let m = choose|m: int| 0 <= m < w0.len() && w0[m] == a;
                                if m < w1.len() {
                                    assert(w1[m] == a);
                                }
                            }
                        }
                    }
                    assert forall|w: Seq<char>| w1.contains(w) implies v0.contains(w) by {
                        let k = choose|k: int| 0 <= k < w1.len() && w1[k] == w;
                        assert(w0[k] == w);
                    }
                }
            },
        }
    }
    let found = contains_name(&visited, original);
    proof {
        let v = texts(visited@);
        assert(texts(worklist@) =~= Seq::<Seq<char>>::empty());
        if found {
            let k = choose|k: int| 0 <= k < v.len() && v[k] == original@;
            assert(reaches(g, checked@, v[k]));
        }
        if reaches(g, checked@, original@) {
            let p = choose|p: Seq<Seq<char>>|
                #![trigger is_walk(g, p)]
                p.len() >= 2 && p[0] == checked@ && p.last() == original@ && is_walk(g, p);
            assert forall|a: Seq<char>, s: Seq<char>|
                v.contains(a) && edge(g, a, s) implies v.contains(s) by {
                assert(!texts(worklist@).contains(a));
            }
            lemma_walk_stays_in(g, checked@, v, p, p.len() - 1);
        }
    }
    found
}

/// The lengths of the brace texts.
proof fn lemma_brace_literals()
    ensures
        "{"@.len() == 1,
        "}"@.len() == 1,
{
    reveal_strlit("{");
    reveal_strlit("}");
}

/// The name that a match refers to: the match without its braces.
pub fn format_regex_match(name: String) -> (res: String)
    ensures
        res@ == reference_name(name@),
{
    proof {
        lemma_brace_literals();
    }
    let without_open = replace_all_exec(name.as_str(), "{", "");
    replace_all_exec(without_open.as_str(), "}", "")
}

/// The names that the matches among `pieces` refer to and that are names of
/// `variables`, in order; a match refers to its text without braces.
pub fn references_from_pieces(pieces: &[(String, bool)], variables: &NameMap<Variable>) -> (res:
    Vec<String>)
    ensures
        texts(res@) == known_references(piece_views(pieces@), variables@.dom()),
{
    let mut res: Vec<String> = Vec::new();
    let mut i: usize = 0;
    while i < pieces.len()
        invariant
            i <= pieces@.len(),
            texts(res@) == known_references(
                piece_views(pieces@.subrange(0, i as int)),
                variables@.dom(),
            ),
        decreases pieces@.len() - i,
    {
        proof {
            let prefix = piece_views(pieces@.subrange(0, i + 1));
            assert(prefix.drop_last() =~= piece_views(pieces@.subrange(0, i as int)));
            assert(prefix.last() == (pieces@[i as int].0@, pieces@[i as int].1));
        }
        if pieces[i].1 {
            let referenced = format_regex_match(pieces[i].0.clone());
            proof {
                lemma_texts_push(res@, referenced);
            }
            if variables.contains_key(&referenced) {
                res.push(referenced);
            }
        }
        i = i + 1;
    }
    proof {
        assert(pieces@.subrange(0, pieces@.len() as int) =~= pieces@);
    }
    res
}

/// Every name in `known_references(pieces, known)` is in `known`.
proof fn lemma_known_references_known(pieces: Seq<(Seq<char>, bool)>, known: Set<Seq<char>>)
    ensures
        forall|i: int|
            0 <= i < known_references(pieces, known).len() ==> known.contains(
                #[trigger] known_references(pieces, known)[i],
            ),
    decreases pieces.len(),
{
    if pieces.len() > 0 {
        let prev = known_references(pieces.drop_last(), known);
        lemma_known_references_known(pieces.drop_last(), known);
        let all = known_references(pieces, known);
        assert forall|i: int| 0 <= i < all.len() implies known.contains(#[trigger] all[i]) by {
            if i < prev.len() {
                assert(all[i] == prev[i]);
            }
        }
    }
}

/// References go from variables to variables.
pub proof fn lemma_reference_graph_within(variables: Map<Seq<char>, Variable>)
    ensures
        refers_within(reference_graph(variables), variables.dom()),
{
    let g = reference_graph(variables);
    assert forall|a: Seq<char>, b: Seq<char>| #[trigger] edge(g, a, b) implies variables.dom().contains(
        a,
    ) && variables.dom().contains(b) by {
        lemma_known_references_known(value_pieces(variables[a].value@), variables.dom());
        let i = choose|i: int| 0 <= i < g[a].len() && g[a][i] == b;
    }
}

/// For each variable whose value refers to known variables, those variables
/// in the order in which they occur; `$name` and `${name}` both refer to
/// `$name`. A variable that refers to no known variable has no entry.
pub fn get_references(variables: &NameMap<Variable>) -> (res: NameMap<Vec<String>>)
    ensures
        ref_graph(res@) == reference_graph(variables@),
        res.names() == referring_names(variables@, variables.names()),
{
    let mut references: NameMap<Vec<String>> = NameMap::new();
    let n = variables.len();
    let mut i: usize = 0;
    assert(variables.names().subrange(0, 0) =~= Seq::<Seq<char>>::empty());
    while i < n
        invariant
            n == variables.names().len(),
            variables.well_formed(),
            i <= n,
            references.names() == referring_names(
                variables@,
                variables.names().subrange(0, i as int),
            ),
            forall|k: Seq<char>|
                #[trigger] references@.dom().contains(k) <==> variables.names().subrange(
                    0,
                    i as int,
                ).contains(k) && value_references(variables@, k).len() > 0,
            forall|k: Seq<char>|
                #[trigger] references@.dom().contains(k) ==> texts(references@[k]@)
                    == value_references(variables@, k),
        decreases n - i,
    {
        let name = variables.name_at(i);
        let variable = variables.value_at(i);
        let pieces = reference_pieces(variable.value.as_str());
        let referenced = references_from_pieces(&pieces, variables);
        let ghost prefix = variables.names().subrange(0, i as int);
        proof {
            assert(variables@.dom().contains(name@));
            assert(texts(referenced@) == value_references(variables@, name@));
            assert(!prefix.contains(name@)) by {
                if prefix.contains(name@) {
                    let j = choose|j: int| 0 <= j < i && prefix[j] == name@;
                    assert(variables.names()[j] == variables.names()[i as int]);
                }
            }
            assert(variables.names().subrange(0, i + 1) =~= prefix.push(name@));
            assert(variables.names().subrange(0, i + 1).drop_last() =~= prefix);
        }
        if referenced.len() > 0 {
            references.insert(name.clone(), referenced);
        }
        proof {
            let next = variables.names().subrange(0, i + 1);
            assert forall|k: Seq<char>|
                #[trigger] references@.dom().contains(k) <==> next.contains(k) && value_references(
                    variables@,
                    k,
                ).len() > 0 by {
                if next.contains(k) && k != name@ {
                    let j = choose|j: int| 0 <= j < next.len() && next[j] == k;
                    assert(prefix[j] == k);
                }
                if prefix.contains(k) {
                    let j = choose|j: int| 0 <= j < prefix.len() && prefix[j] == k;
                    assert(next[j] == k);
                }
                assert(next[i as int] == name@);
            }
        }
        i = i + 1;
    }
    proof {
        assert(variables.names().subrange(0, n as int) =~= variables.names());
        assert forall|k: Seq<char>| ref_graph(references@).dom().contains(k)
            <==> reference_graph(variables@).dom().contains(k) by {
            if variables@.dom().contains(k) {
                assert(variables.names().to_set().contains(k));
            }
        }
        assert(ref_graph(references@) =~= reference_graph(variables@));
    }
    references
}

/// Checks that `original` is not reached from `checked` by following
/// references. In this library the check is a precondition, which
/// `depends_on` tests: the function returns normally on every input it
/// admits.
pub fn check_cyclic_dependencies(
    checked: &String,
    original: &String,
    references: &NameMap<Vec<String>>,
)
    requires
        references@.dom().contains(checked@),
        !reaches(ref_graph(references@), checked@, original@),
{
    if depends_on(checked, original, references) {
        vstd::pervasive::unreached::<()>();
    }
}

/// The pieces joined, where a match that names one of `refs` gives that
/// name's value in `values`; a match names its text without braces.
pub fn rebuild_from_pieces(
    pieces: &[(String, bool)],
    refs: &Vec<String>,
    values: &NameMap<String>,
) -> (res: String)
    requires
        forall|j: int| 0 <= j < refs@.len() ==> values@.dom().contains(#[trigger] refs@[j]@),
    ensures
        res@ == rebuilt_with(piece_views(pieces@), texts(refs@), text_map(values@)),
{
    let ghost pv = piece_views(pieces@);
    let ghost vals = text_map(values@);
    let mut res = String::new();
    let mut i: usize = 0;
    assert(pv.subrange(0, 0) =~= Seq::<(Seq<char>, bool)>::empty());
    while i < pieces.len()
        invariant
            forall|j: int| 0 <= j < refs@.len() ==> values@.dom().contains(#[trigger] refs@[j]@),
            pv == piece_views(pieces@),
            vals == text_map(values@),
            i <= pieces@.len(),
            res@ == rebuilt_with(pv.subrange(0, i as int), texts(refs@), vals),
        decreases pieces@.len() - i,
    {
        let piece = &pieces[i];
        proof {
            let next = pv.subrange(0, i + 1);
            assert(next.drop_last() =~= pv.subrange(0, i as int));
            assert(next.last() == (piece.0@, piece.1));
        }
        let mut replaced = false;
        if piece.1 {
            let referenced = format_regex_match(piece.0.clone());
            if contains_name(refs, &referenced) {
                proof {
                    let j = choose|j: int|
                        0 <= j < texts(refs@).len() && texts(refs@)[j] == referenced@;
                    assert(refs@[j]@ == referenced@);
                }
                match values.get(&referenced) {
                    Some(v) => {
                        res.append(v.as_str());
                        replaced = true;
                    },
                    None => {},
                }
            }
        }
        if !replaced {
            res.append(piece.0.as_str());
        }
        i = i + 1;
    }
    assert(pv.subrange(0, pieces@.len() as int) =~= pv);
    res
}

/// With no level of references to follow, the pieces are joined as they are.
proof fn lemma_rebuilt_without_depth(
    raw: Map<Seq<char>, Seq<char>>,
    g: RefGraph,
    pieces: Seq<(Seq<char>, bool)>,
    refs: Seq<Seq<char>>,
)
    ensures
        rebuilt(raw, g, pieces, refs, 0) == joined_pieces(pieces),
    decreases pieces.len(),
{
    if pieces.len() > 0 {
        lemma_rebuilt_without_depth(raw, g, pieces.drop_last(), refs);
    }
}

/// The value of `name`: its value as written when it refers to no known
/// variable; otherwise its value rebuilt from its pieces, each reference to a
/// known variable replaced by that variable's value, computed in turn, with
/// references followed at most `depth` levels deep. Every name that `name`
/// reaches through the references must be a variable.
pub fn compute_value(
    name: &String,
    variables: &NameMap<Variable>,
    references: &NameMap<Vec<String>>,
    depth: usize,
) -> (res: String)
    requires
        variables@.dom().contains(name@),
        forall|r: Seq<char>|
            #[trigger] reaches(ref_graph(references@), name@, r) ==> variables@.dom().contains(r),
    ensures
        res@ == value_with_depth(
            raw_values(variables@),
            ref_graph(references@),
            name@,
            depth as nat,
        ),
    decreases depth,
{
    let ghost raw = raw_values(variables@);
    let ghost g = ref_graph(references@);
    let value = &variables.get(name).unwrap().value;
    let refs = match references.get(name) {
        None => {
            return value.clone();
        },
        Some(refs) => refs,
    };
    assert(g[name@] == texts(refs@));
    let pieces = reference_pieces(value.as_str());
    let ghost pv = piece_views(pieces@);
    assert(pv == value_pieces(raw[name@]));
    if depth == 0 {
        proof {
            lemma_rebuilt_without_depth(raw, g, pv, texts(refs@));
        }
        return value.clone();
    }
    let mut values: NameMap<String> = NameMap::new();
    let mut i: usize = 0;
    while i < refs.len()
        invariant
            variables@.dom().contains(name@),
            forall|r: Seq<char>|
                #[trigger] reaches(ref_graph(references@), name@, r) ==> variables@.dom().contains(
                    r,
                ),
            raw == raw_values(variables@),
            g == ref_graph(references@),
            g.dom().contains(name@),
            g[name@] == texts(refs@),
            depth > 0,
            i <= refs@.len(),
            forall|j: int| 0 <= j < i ==> values@.dom().contains(#[trigger] refs@[j]@),
            forall|k: Seq<char>|
                #[trigger] values@.dom().contains(k) ==> values@[k]@ == value_with_depth(
                    raw,
                    g,
                    k,
                    (depth - 1) as nat,
                ),
        decreases refs@.len() - i,
    {
        let r = &refs[i];
        if !values.contains_key(r) {
            proof {
                assert(texts(refs@)[i as int] == r@);
                assert(edge(g, name@, r@));
                lemma_reaches_edge(g, name@, r@);
                assert forall|x: Seq<char>| #[trigger] reaches(g, r@, x) implies variables@.dom().contains(
                    x,
                ) by {
                    lemma_reaches_prepend(g, name@, r@, x);
                }
            }
            let v = compute_value(r, variables, references, depth - 1);
            values.insert(r.clone(), v);
        }
        i = i + 1;
    }
    let res = rebuild_from_pieces(&pieces, refs, &values);
    proof {
        let tr = texts(refs@);
        assert forall|j: int|
            0 <= j < pv.len() && #[trigger] pv[j].1 && tr.contains(reference_name(pv[j].0)) implies value_with_depth(
            raw,
            g,
            reference_name(pv[j].0),
            (depth - 1) as nat,
        ) == text_map(values@)[reference_name(pv[j].0)] by {
            let k = choose|k: int| 0 <= k < tr.len() && tr[k] == reference_name(pv[j].0);
            assert(values@.dom().contains(refs@[k]@));
        }
        lemma_rebuilt_is_with(raw, g, pv, tr, depth as nat, text_map(values@));
    }
    res
}

/// The first variable, in order, that depends on itself, if there is one.
pub fn find_cyclic_variable(variables: &NameMap<Variable>) -> (res: Option<String>)
    ensures
        ({
            let g = reference_graph(variables@);
            let names = variables.names();
            match res {
                None => acyclic(g),
                Some(name) => exists|i: int|
                    {
                        &&& 0 <= i < names.len()
                        &&& names[i] == name@
                        &&& on_cycle(g, name@)
                        &&& forall|j: int| 0 <= j < i ==> !on_cycle(g, #[trigger] names[j])
                    },
            }
        }),
{
    let references = get_references(variables);
    let n = variables.len();
    let ghost g = reference_graph(variables@);
    proof {
        lemma_reference_graph_within(variables@);
    }
    let mut i: usize = 0;
    while i < n
        invariant
            n == variables.names().len(),
            variables.well_formed(),
            g == reference_graph(variables@),
            ref_graph(references@) == g,
            refers_within(g, variables@.dom()),
            i <= n,
            forall|j: int| 0 <= j < i ==> !on_cycle(g, #[trigger] variables.names()[j]),
        decreases n - i,
    {
        let name = variables.name_at(i);
        if depends_on(name, name, &references) {
            return Some(name.clone());
        }
        i = i + 1;
    }
    proof {
        assert forall|a: Seq<char>| !#[trigger] on_cycle(g, a) by {
            if on_cycle(g, a) {
                let p = choose|p: Seq<Seq<char>>|
                    #![trigger is_walk(g, p)]
                    p.len() >= 2 && p[0] == a && p.last() == a && is_walk(g, p);
                assert(edge(g, p[0], p[0int + 1]));
                assert(variables.names().to_set().contains(a));
                let j = choose|j: int| 0 <= j < n && variables.names()[j] == a;
            }
        }
    }
    None
}

/// Resolves every variable: each one that refers to known variables gets
/// its value with every reference `$name` or `${name}` to a known variable
/// replaced by that variable's resolved value; the others keep their value.
/// No variable may depend on itself, which `find_cyclic_variable` tests.
pub fn resolve(variables: &NameMap<Variable>) -> (values: NameMap<String>)
    requires
        acyclic(reference_graph(variables@)),
    ensures
        values.names() == variables.names(),
        text_map(values@) == resolved_values(
            raw_values(variables@),
            reference_graph(variables@),
            variables@.dom().len(),
        ),
{
    let references = get_references(variables);
    let ghost g = reference_graph(variables@);
    proof {
        lemma_reference_graph_within(variables@);
    }
    let m = references.len();
    let mut i: usize = 0;
    while i < m
        invariant
            m == references.names().len(),
            references.well_formed(),
            ref_graph(references@) == g,
            acyclic(g),
            i <= m,
        decreases m - i,
    {
        let name = references.name_at(i);
        proof {
            assert(references.names().to_set().contains(name@));
            assert(!on_cycle(g, name@));
        }
        check_cyclic_dependencies(name, name, &references);
        i = i + 1;
    }
    let n = variables.len();
    let mut values: NameMap<String> = NameMap::new();
    let mut i: usize = 0;
    while i < n
        invariant
            n == variables.names().len(),
            variables.well_formed(),
            g == reference_graph(variables@),
            ref_graph(references@) == g,
            refers_within(g, variables@.dom()),
            i <= n,
            values.names() == variables.names().subrange(0, i as int),
            values@.dom() == variables.names().subrange(0, i as int).to_set(),
            forall|k: Seq<char>|
                #[trigger] values@.dom().contains(k) ==> values@[k]@ == value_with_depth(
                    raw_values(variables@),
                    g,
                    k,
                    n as nat,
                ),
        decreases n - i,
    {
        let name = variables.name_at(i);
        proof {
            assert forall|r: Seq<char>| #[trigger] reaches(g, name@, r) implies variables@.dom().contains(
                r,
            ) by {
                lemma_reached_within(g, variables@.dom(), name@, r);
            }
        }
        let value = compute_value(name, variables, &references, n);
        proof {
            assert(!variables.names().subrange(0, i as int).contains(name@)) by {
                if variables.names().subrange(0, i as int).contains(name@) {
                    let j = choose|j: int|
                        0 <= j < i && variables.names().subrange(0, i as int)[j] == name@;
                    assert(variables.names()[j] == variables.names()[i as int]);
                }
            }
        }
        values.insert(name.clone(), value);
        proof {
            assert(variables.names().subrange(0, i + 1) =~= variables.names().subrange(
                0,
                i as int,
            ).push(name@));
            assert(values@.dom() =~= variables.names().subrange(0, i + 1).to_set());
        }
        i = i + 1;
    }
    proof {
        assert(variables.names().subrange(0, n as int) =~= variables.names());
        assert(raw_values(variables@).dom() =~= variables@.dom());
        assert(text_map(values@) =~= resolved_values(raw_values(variables@), g, n as nat));
        variables.names().unique_seq_to_set();
    }
    values
}

/// Resolves the variables when no variable depends on itself; otherwise
/// names the first variable, in order, that does.
pub fn try_resolve(variables: &NameMap<Variable>) -> (res: Result<NameMap<String>, ResolveError>)
    ensures
        match res {
            Ok(values) => {
                &&& acyclic(reference_graph(variables@))
                &&& values.names() == variables.names()
                &&& text_map(values@) == resolved_values(
                    raw_values(variables@),
                    reference_graph(variables@),
                    variables@.dom().len(),
                )
            },
            Err(ResolveError::CyclicDependency(name)) => exists|i: int|
                {
                    &&& 0 <= i < variables.names().len()
                    &&& variables.names()[i] == name@
                    &&& on_cycle(reference_graph(variables@), name@)
                    &&& forall|j: int|
                        0 <= j < i ==> !on_cycle(
                            reference_graph(variables@),
                            #[trigger] variables.names()[j],
                        )
                },
        },
{
    match find_cyclic_variable(variables) {
        Some(name) => Err(ResolveError::CyclicDependency(name)),
        None => Ok(resolve(variables)),
    }
}

/// If rebuilding `pieces` gives different results at two successive depths,
/// some match names one of `refs`, and at a depth above 0 that reference's
/// value differs between the two depths below.
proof fn lemma_rebuilt_changes(
    raw: Map<Seq<char>, Seq<char>>,
    g: RefGraph,
    pieces: Seq<(Seq<char>, bool)>,
    refs: Seq<Seq<char>>,
    f: nat,
)
    requires
        rebuilt(raw, g, pieces, refs, f) != rebuilt(raw, g, pieces, refs, f + 1),
    ensures
        exists|i: int|
            0 <= i < pieces.len() && #[trigger] pieces[i].1 && refs.contains(
                reference_name(pieces[i].0),
            ) && (f > 0 ==> value_with_depth(raw, g, reference_name(pieces[i].0), (f - 1) as nat)
                != value_with_depth(raw, g, reference_name(pieces[i].0), f)),
    decreases pieces.len(),
{
    let prefix = pieces.drop_last();
    if rebuilt(raw, g, prefix, refs, f) != rebuilt(raw, g, prefix, refs, f + 1) {
        lemma_rebuilt_changes(raw, g, prefix, refs, f);
        let i = choose|i: int|
            0 <= i < prefix.len() && #[trigger] prefix[i].1 && refs.contains(
                reference_name(prefix[i].0),
            ) && (f > 0 ==> value_with_depth(raw, g, reference_name(prefix[i].0), (f - 1) as nat)
                != value_with_depth(raw, g, reference_name(prefix[i].0), f));
        assert(pieces[i] == prefix[i]);
    } else {
        let last = pieces.len() - 1;
        assert(pieces[last] == pieces.last());
    }
}

/// If the value of `k` changes from depth `f` to depth `f + 1`, a walk of
/// `f + 2` names starts at `k`.
proof fn lemma_value_change_walk(raw: Map<Seq<char>, Seq<char>>, g: RefGraph, k: Seq<char>, f: nat)
    requires
        value_with_depth(raw, g, k, f) != value_with_depth(raw, g, k, f + 1),
    ensures
        exists|p: Seq<Seq<char>>|
            #![trigger is_walk(g, p)]
            p.len() == f + 2 && p[0] == k && is_walk(g, p),
    decreases f,
{
    assert(g.dom().contains(k));
    let pieces = value_pieces(raw[k]);
    lemma_rebuilt_changes(raw, g, pieces, g[k], f);
    let i = choose|i: int|
        0 <= i < pieces.len() && #[trigger] pieces[i].1 && g[k].contains(
            reference_name(pieces[i].0),
        ) && (f > 0 ==> value_with_depth(raw, g, reference_name(pieces[i].0), (f - 1) as nat)
            != value_with_depth(raw, g, reference_name(pieces[i].0), f));
    let r = reference_name(pieces[i].0);
    assert(edge(g, k, r));
    if f == 0 {
        let p = seq![k, r];
        assert(edge(g, p[0], p[0int + 1]));
        assert(is_walk(g, p));
    } else {
        let f1 = (f - 1) as nat;
        lemma_value_change_walk(raw, g, r, f1);
        let q = choose|q: Seq<Seq<char>>|
            #![trigger is_walk(g, q)]
            q.len() == f1 + 2 && q[0] == r && is_walk(g, q);
        let p = seq![k] + q;
        assert forall|j: int| 0 <= j < p.len() - 1 implies #[trigger] edge(g, p[j], p[j + 1]) by {
            if j == 0 {
                assert(p[1] == r);
            } else {
                assert(edge(g, q[j - 1], q[(j - 1) + 1]));
                assert(p[j] == q[j - 1]);
                assert(p[j + 1] == q[j]);
            }
        }
        assert(is_walk(g, p));
    }
}

/// Without cycles, in a graph whose names lie in `d`, following references
/// one level deeper than `d` has names less one changes no value.
proof fn lemma_depth_suffices(
    raw: Map<Seq<char>, Seq<char>>,
    g: RefGraph,
    d: Set<Seq<char>>,
    k: Seq<char>,
)
    requires
        d.finite(),
        refers_within(g, d),
        acyclic(g),
        d.len() > 0,
    ensures
        value_with_depth(raw, g, k, (d.len() - 1) as nat) == value_with_depth(raw, g, k, d.len()),
{
    let f = (d.len() - 1) as nat;
    if value_with_depth(raw, g, k, f) != value_with_depth(raw, g, k, f + 1) {
        lemma_value_change_walk(raw, g, k, f);
        let p = choose|p: Seq<Seq<char>>|
            #![trigger is_walk(g, p)]
            p.len() == f + 2 && p[0] == k && is_walk(g, p);
        crate::graph::lemma_long_walk_has_cycle(g, d, p);
        let a = choose|a: Seq<char>| #[trigger] on_cycle(g, a);
        assert(!on_cycle(g, a));
    }
}

/// Rebuilding at a depth above 0 equals rebuilding with `values` when each
/// referenced variable has its value in `values` one level less deep.
proof fn lemma_rebuilt_is_with(
    raw: Map<Seq<char>, Seq<char>>,
    g: RefGraph,
    pieces: Seq<(Seq<char>, bool)>,
    refs: Seq<Seq<char>>,
    f: nat,
    values: Map<Seq<char>, Seq<char>>,
)
    requires
        f > 0,
        forall|i: int|
            0 <= i < pieces.len() && #[trigger] pieces[i].1 && refs.contains(
                reference_name(pieces[i].0),
            ) ==> value_with_depth(raw, g, reference_name(pieces[i].0), (f - 1) as nat)
                == values[reference_name(pieces[i].0)],
    ensures
        rebuilt(raw, g, pieces, refs, f) == rebuilt_with(pieces, refs, values),
    decreases pieces.len(),
{
    if pieces.len() > 0 {
        let prefix = pieces.drop_last();
        assert forall|i: int|
            0 <= i < prefix.len() && #[trigger] prefix[i].1 && refs.contains(
                reference_name(prefix[i].0),
            ) implies value_with_depth(raw, g, reference_name(prefix[i].0), (f - 1) as nat)
            == values[reference_name(prefix[i].0)] by {
            assert(prefix[i] == pieces[i]);
        }
        lemma_rebuilt_is_with(raw, g, prefix, refs, f, values);
        let last = pieces.len() - 1;
        assert(pieces[last] == pieces.last());
    }
}

/// When no variable depends on itself, the resolved value of a variable that
/// refers to known variables is its value's pieces joined, each reference to
/// a known variable replaced by that variable's resolved value; any other
/// variable keeps its value as written.
pub proof fn lemma_resolution_is_consistent(variables: Map<Seq<char>, Variable>, k: Seq<char>)
    requires
        variables.dom().finite(),
        acyclic(reference_graph(variables)),
        variables.dom().contains(k),
    ensures
        ({
            let g = reference_graph(variables);
            let raw = raw_values(variables);
            let values = resolved_values(raw, g, variables.dom().len());
            values[k] == if g.dom().contains(k) {
                rebuilt_with(value_pieces(raw[k]), g[k], values)
            } else {
                raw[k]
            }
        }),
{
    let g = reference_graph(variables);
    let raw = raw_values(variables);
    lemma_reference_graph_within(variables);
    let n = variables.dom().len();
    vstd::set_lib::lemma_set_empty_equivalency_len(variables.dom());
    assert(raw.dom() =~= variables.dom());
    let values = resolved_values(raw, g, n);
    if g.dom().contains(k) {
        let pieces = value_pieces(raw[k]);
        assert forall|i: int|
            0 <= i < pieces.len() && #[trigger] pieces[i].1 && g[k].contains(
                reference_name(pieces[i].0),
            ) implies value_with_depth(raw, g, reference_name(pieces[i].0), (n - 1) as nat)
            == values[reference_name(pieces[i].0)] by {
            let r = reference_name(pieces[i].0);
            assert(edge(g, k, r));
            lemma_depth_suffices(raw, g, variables.dom(), r);
        }
        lemma_rebuilt_is_with(raw, g, pieces, g[k], n, values);
    }
}

/// The text that a piece contributes once references are replaced: a matched
/// piece that names one of `refs` gives that name's value in `values`, any
/// other piece its own text.
pub open spec fn substituted(
    p: (Seq<char>, bool),
    refs: Seq<Seq<char>>,
    values: Map<Seq<char>, Seq<char>>,
) -> Seq<char> {
    if p.1 && refs.contains(reference_name(p.0)) {
        values[reference_name(p.0)]
    } else {
        p.0
    }
}

/// Rebuilding no piece gives the empty text; rebuilding one piece gives the
/// value of the variable it names, exactly, when it is a match naming one of
/// `refs`, and the piece's own text otherwise.
pub proof fn lemma_rebuilt_with_piece(
    text: Seq<char>,
    matched: bool,
    refs: Seq<Seq<char>>,
    values: Map<Seq<char>, Seq<char>>,
)
    ensures
        rebuilt_with(Seq::empty(), refs, values) == Seq::<char>::empty(),
        rebuilt_with(seq![(text, matched)], refs, values) == if matched && refs.contains(
            reference_name(text),
        ) {
            values[reference_name(text)]
        } else {
            text
        },
{
    assert(seq![(text, matched)].drop_last() =~= Seq::<(Seq<char>, bool)>::empty());
}

/// Rebuilding pieces one after the other gives the two rebuilt texts one
/// after the other.
pub proof fn lemma_rebuilt_with_concat(
    p1: Seq<(Seq<char>, bool)>,
    p2: Seq<(Seq<char>, bool)>,
    refs: Seq<Seq<char>>,
    values: Map<Seq<char>, Seq<char>>,
)
    ensures
        rebuilt_with(p1 + p2, refs, values) == rebuilt_with(p1, refs, values) + rebuilt_with(
            p2,
            refs,
            values,
        ),
    decreases p2.len(),
{
    if p2.len() == 0 {
        assert(p1 + p2 =~= p1);
        assert(rebuilt_with(p1, refs, values) + Seq::<char>::empty() =~= rebuilt_with(
            p1,
            refs,
            values,
        ));
    } else {
        lemma_rebuilt_with_concat(p1, p2.drop_last(), refs, values);
        assert((p1 + p2).drop_last() =~= p1 + p2.drop_last());
        assert((p1 + p2).last() == p2.last());
    }
}

/// Rebuilt pieces are the pieces' texts joined, where each matched piece
/// naming one of `refs` is replaced by exactly that name's value, character
/// for character, and every other piece is kept as it is.
pub proof fn lemma_rebuilt_with_joins(
    pieces: Seq<(Seq<char>, bool)>,
    refs: Seq<Seq<char>>,
    values: Map<Seq<char>, Seq<char>>,
)
    ensures
        rebuilt_with(pieces, refs, values) == joined_pieces(
            pieces.map_values(|p: (Seq<char>, bool)| (substituted(p, refs, values), p.1)),
        ),
    decreases pieces.len(),
{
    let f = |p: (Seq<char>, bool)| (substituted(p, refs, values), p.1);
    if pieces.len() > 0 {
        lemma_rebuilt_with_joins(pieces.drop_last(), refs, values);
        assert(pieces.map_values(f).drop_last() =~= pieces.drop_last().map_values(f));
    }
}

/// When no variable depends on itself, the resolved value of a variable that
/// refers to known variables is its value's pieces joined, each matched
/// reference to a variable it refers to contributing exactly that variable's
/// resolved value, every other piece its own text.
pub proof fn lemma_resolution_substitutes(variables: Map<Seq<char>, Variable>, k: Seq<char>)
    requires
        variables.dom().finite(),
        acyclic(reference_graph(variables)),
        variables.dom().contains(k),
        reference_graph(variables).dom().contains(k),
    ensures
        ({
            let g = reference_graph(variables);
            let raw = raw_values(variables);
            let values = resolved_values(raw, g, variables.dom().len());
            values[k] == joined_pieces(
                value_pieces(raw[k]).map_values(
                    |p: (Seq<char>, bool)| (substituted(p, g[k], values), p.1),
                ),
            )
        }),
{
    let g = reference_graph(variables);
    let raw = raw_values(variables);
    let values = resolved_values(raw, g, variables.dom().len());
    lemma_resolution_is_consistent(variables, k);
    lemma_rebuilt_with_joins(value_pieces(raw[k]), g[k], values);
}

} // verus!
