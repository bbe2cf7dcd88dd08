//! The rules on the graph of fragment spreads: which fragments the
//! operations reach, and which fragments spread each other in a cycle.

use vstd::prelude::*;

use crate::ast::{Document, SpecDocument, SpecFragment};
use crate::text::{concat, copy_string, owned, same_text};
use crate::validation::{
    contains_text, errors_view, push_error, push_text, spreads_of, texts, ValidationError,
};
use crate::validation_spec::{
    cycle_search_upto, find_fragment, fragment_cycle_errors, fragment_deps, fragment_names,
    is_chain, join_arrow, lemma_unvisited_step, msg_cycle, msg_unused_fragment, operation_roots,
    ops_spreads, position_of, reachable_from, search_spreads, set_spreads, unused_errors_upto,
    unused_fragment_errors, unvisited_count, CycleSearch, SpecValidationError, ValidationErrorKind,
};

verus! {

broadcast use vstd::seq_lib::lemma_seq_concat_contains_all_elements,
    vstd::seq_lib::lemma_seq_contains_after_push;

// ---------------------------------------------------------------------
// Facts about fragments and chains
// ---------------------------------------------------------------------

/// The spreads of the fragments `frags[0..k]`, in order.
spec fn frags_spreads(frags: Seq<SpecFragment>, k: nat) -> Seq<Seq<char>>
    decreases k,
{
    if k == 0 || k > frags.len() {
        seq![]
    } else {
        frags_spreads(frags, (k - 1) as nat) + set_spreads(frags[k - 1].selection_set)
    }
}

proof fn lemma_frags_spreads_contains(frags: Seq<SpecFragment>, k: nat, i: int, m: Seq<char>)
    requires
        0 <= i < k <= frags.len(),
        set_spreads(frags[i].selection_set).contains(m),
    ensures
        frags_spreads(frags, k).contains(m),
    decreases k,
{
    if i < k - 1 {
        lemma_frags_spreads_contains(frags, (k - 1) as nat, i, m);
    }
}

/// The definition that a name refers to is one of the fragments.
pub(crate) proof fn lemma_find_fragment_index(frags: Seq<SpecFragment>, name: Seq<char>) -> (i: int)
    requires
        find_fragment(frags, name) is Some,
    ensures
        0 <= i < frags.len(),
        find_fragment(frags, name) == Some(frags[i]),
        frags[i].name == name,
    decreases frags.len(),
{
    if frags.last().name == name {
        frags.len() - 1
    } else {
        let j = lemma_find_fragment_index(frags.drop_last(), name);
        assert(frags.drop_last()[j] == frags[j]);
        j
    }
}

/// A name that no fragment carries refers to none.
proof fn lemma_find_fragment_none(frags: Seq<SpecFragment>, name: Seq<char>)
    requires
        find_fragment(frags, name) is None,
    ensures
        forall|i: int| 0 <= i < frags.len() ==> #[trigger] frags[i].name != name,
    decreases frags.len(),
{
    if frags.len() > 0 {
        lemma_find_fragment_none(frags.drop_last(), name);
        assert forall|i: int| 0 <= i < frags.len() implies #[trigger] frags[i].name != name by {
            if i < frags.len() - 1 {
                assert(frags.drop_last()[i] == frags[i]);
            }
        }
    }
}

/// A name refers to a fragment exactly when some fragment carries it.
pub(crate) proof fn lemma_find_fragment_defined(d: SpecDocument, name: Seq<char>)
    ensures
        (find_fragment(d.fragments, name) is Some) == fragment_names(d).contains(name),
{
    if find_fragment(d.fragments, name) is Some {
        let i = lemma_find_fragment_index(d.fragments, name);
        assert(fragment_names(d)[i] == name);
    } else {
        lemma_find_fragment_none(d.fragments, name);
        if fragment_names(d).contains(name) {
            let i = choose|i: int| 0 <= i < fragment_names(d).len() && fragment_names(d)[i] == name;
            assert(fragment_names(d)[i] == d.fragments[i].name);
        }
    }
}

proof fn lemma_deps_in_spreads(d: SpecDocument, n: Seq<char>, m: Seq<char>)
    requires
        fragment_deps(d, n).contains(m),
    ensures
        frags_spreads(d.fragments, d.fragments.len()).contains(m),
{
    let i = lemma_find_fragment_index(d.fragments, n);
    lemma_frags_spreads_contains(d.fragments, d.fragments.len(), i, m);
}

proof fn lemma_root_reachable(d: SpecDocument, roots: Seq<Seq<char>>, r: Seq<char>)
    requires
        roots.contains(r),
    ensures
        reachable_from(d, roots, r),
{
    let c = seq![r];
    assert(is_chain(d, c));
    assert(roots.contains(c[0]) && c.last() == r);
}

proof fn lemma_reach_step(d: SpecDocument, roots: Seq<Seq<char>>, n: Seq<char>, m: Seq<char>)
    requires
        reachable_from(d, roots, n),
        fragment_deps(d, n).contains(m),
    ensures
        reachable_from(d, roots, m),
{
    let c = choose|c: Seq<Seq<char>>| #[trigger]
        is_chain(d, c) && roots.contains(c[0]) && c.last() == n;
    let c2 = c.push(m);
    assert forall|k: int| 0 <= k < c2.len() - 1 implies #[trigger] fragment_deps(d, c2[k]).contains(
        c2[k + 1],
    ) by {
        if k < c.len() - 1 {
            assert(c2[k] == c[k] && c2[k + 1] == c[k + 1]);
        } else {
            assert(c2[k] == n && c2[k + 1] == m);
        }
    }
    assert(is_chain(d, c2));
    assert(roots.contains(c2[0]) && c2.last() == m);
}

proof fn lemma_chain_within(d: SpecDocument, c: Seq<Seq<char>>, r: Seq<Seq<char>>, k: int)
    requires
        is_chain(d, c),
        r.contains(c[0]),
        forall|n: Seq<char>, m: Seq<char>|
            r.contains(n) && #[trigger] fragment_deps(d, n).contains(m) ==> r.contains(m),
        0 <= k < c.len(),
    ensures
        r.contains(c[k]),
    decreases k,
{
    if k > 0 {
        lemma_chain_within(d, c, r, k - 1);
        assert(fragment_deps(d, c[k - 1]).contains(c[(k - 1) + 1]));
    }
}

/// A set of names that holds the roots and is closed under spreads holds
/// every name that the roots reach.
proof fn lemma_closed_complete(d: SpecDocument, roots: Seq<Seq<char>>, r: Seq<Seq<char>>, x: Seq<char>)
    requires
        forall|y: Seq<char>| roots.contains(y) ==> r.contains(y),
        forall|n: Seq<char>, m: Seq<char>|
            r.contains(n) && #[trigger] fragment_deps(d, n).contains(m) ==> r.contains(m),
        reachable_from(d, roots, x),
    ensures
        r.contains(x),
{
    let c = choose|c: Seq<Seq<char>>| #[trigger]
        is_chain(d, c) && roots.contains(c[0]) && c.last() == x;
    lemma_chain_within(d, c, r, c.len() - 1);
}

proof fn lemma_no_dup_bound(r: Seq<Seq<char>>, u: Seq<Seq<char>>)
    requires
        r.no_duplicates(),
        forall|x: Seq<char>| r.contains(x) ==> u.contains(x),
    ensures
        r.len() <= u.len(),
{
    r.unique_seq_to_set();
    u.lemma_cardinality_of_set();
    assert(r.to_set().subset_of(u.to_set()));
    vstd::set_lib::lemma_len_subset(r.to_set(), u.to_set());
}

// ---------------------------------------------------------------------
// Reachability
// ---------------------------------------------------------------------

/// Where the fragment that `name` refers to stands: the last definition
/// with that name.
pub(crate) fn find_fragment_index(d: &Document, name: &String) -> (res: Option<usize>)
    ensures
        match res {
            None => find_fragment(d@.fragments, name@) is None,
            Some(i) => i < d.fragments@.len() && find_fragment(d@.fragments, name@) == Some(
                d@.fragments[i as int],
            ),
        },
{
    let ghost frags = d@.fragments;
    let mut i = d.fragments.len();
    proof {
        assert(frags.subrange(0, i as int) =~= frags);
    }
    while i > 0
        invariant
            i <= d.fragments@.len(),
            frags == d@.fragments,
            find_fragment(frags, name@) == find_fragment(frags.subrange(0, i as int), name@),
        decreases i,
    {
        let ghost sub = frags.subrange(0, i as int);
        proof {
            assert(sub.last() == frags[i - 1]);
            assert(sub.drop_last() =~= frags.subrange(0, i - 1));
            assert(frags[i - 1] == d.fragments@[i - 1]@);
        }
        if same_text(&d.fragments[i - 1].name, name) {
            return Some(i - 1);
        }
        i = i - 1;
    }
    None
}

/// Adds to `reachable` the names of `names` that it lacks, and queues
/// each of them.
fn add_new_names(names: &Vec<String>, reachable: &mut Vec<String>, queue: &mut Vec<String>)
    ensures
        forall|x: Seq<char>|
            #![trigger texts(final(reachable)@).contains(x)]
            texts(final(reachable)@).contains(x) <==> (texts(old(reachable)@).contains(x)
                || texts(names@).contains(x)),
        forall|x: Seq<char>|
            texts(final(queue)@).contains(x) ==> (texts(old(queue)@).contains(x) || texts(
                names@,
            ).contains(x)),
        forall|x: Seq<char>| texts(old(queue)@).contains(x) ==> texts(final(queue)@).contains(x),
        forall|x: Seq<char>|
            texts(final(reachable)@).contains(x) && !texts(old(reachable)@).contains(x) ==> texts(
                final(queue)@,
            ).contains(x),
        texts(old(reachable)@).no_duplicates() ==> texts(final(reachable)@).no_duplicates(),
        final(reachable)@.len() - old(reachable)@.len() == final(queue)@.len() - old(queue)@.len(),
        final(reachable)@.len() >= old(reachable)@.len(),
{
    let ghost r0 = texts(reachable@);
    let ghost q0 = texts(queue@);
    let mut i: usize = 0;
    while i < names.len()
        invariant
            i <= names@.len(),
            r0 == texts(old(reachable)@),
            q0 == texts(old(queue)@),
            forall|x: Seq<char>|
                #![trigger texts(reachable@).contains(x)]
                texts(reachable@).contains(x) <==> (r0.contains(x) || texts(names@).subrange(
                    0,
                    i as int,
                ).contains(x)),
            forall|x: Seq<char>|
                texts(queue@).contains(x) ==> (q0.contains(x) || texts(names@).subrange(
                    0,
                    i as int,
                ).contains(x)),
            forall|x: Seq<char>| q0.contains(x) ==> texts(queue@).contains(x),
            forall|x: Seq<char>|
                texts(reachable@).contains(x) && !r0.contains(x) ==> texts(queue@).contains(x),
            r0.no_duplicates() ==> texts(reachable@).no_duplicates(),
            reachable@.len() - old(reachable)@.len() == queue@.len() - old(queue)@.len(),
            reachable@.len() >= old(reachable)@.len(),
        decreases names.len() - i,
    {
        let ghost pre = texts(names@).subrange(0, i as int);
        let ghost post = texts(names@).subrange(0, i + 1);
        let ghost r1 = texts(reachable@);
        let ghost q1 = texts(queue@);
        proof {
            assert(post =~= pre.push(names@[i as int]@));
        }
        if !contains_text(reachable, &names[i]) {
            push_text(reachable, names[i].clone());
            push_text(queue, names[i].clone());
            proof {
                if r0.no_duplicates() {
                    let r2 = texts(reachable@);
                    assert forall|a: int, b: int| 0 <= a < b < r2.len() implies r2[a] != r2[b] by {
                        if b == r2.len() - 1 {
                            assert(r1[a] == r2[a]);
                        } else {
                            assert(r1[a] == r2[a] && r1[b] == r2[b]);
                        }
                    }
                }
            }
        }
        i = i + 1;
    }
    proof {
        assert(texts(names@).subrange(0, i as int) =~= texts(names@));
    }
}

/// The spreads of all operations, in order.
fn operation_spreads(d: &Document) -> (res: Vec<String>)
    ensures
        texts(res@) == operation_roots(d@),
{
    let mut out: Vec<String> = Vec::new();
    let mut k: usize = 0;
    proof {
        assert(texts(out@) =~= Seq::<Seq<char>>::empty());
    }
    while k < d.operations.len()
        invariant
            k <= d.operations@.len(),
            texts(out@) == ops_spreads(d@.operations, k as nat),
        decreases d.operations.len() - k,
    {
        let sp = spreads_of(&d.operations[k].selection_set);
        let ghost before = texts(out@);
        let mut j: usize = 0;
        proof {
            assert(before + texts(sp@).subrange(0, 0) =~= before);
        }
        while j < sp.len()
            invariant
                j <= sp@.len(),
                texts(out@) == before + texts(sp@).subrange(0, j as int),
            decreases sp.len() - j,
        {
            push_text(&mut out, sp[j].clone());
            proof {
                assert(before + texts(sp@).subrange(0, j + 1) =~= (before + texts(sp@).subrange(
                    0,
                    j as int,
                )).push(sp@[j as int]@));
            }
            j = j + 1;
        }
        proof {
            assert(texts(sp@).subrange(0, j as int) =~= texts(sp@));
            assert(d@.operations[k as int] == d.operations@[k as int]@);
        }
        k = k + 1;
    }
    out
}

/// The names that `roots` reach through fragment spreads: the roots
/// themselves, and those spread by the fragments so reached.
pub(crate) fn reachable_from_roots(d: &Document, roots: &Vec<String>) -> (res: Vec<String>)
    ensures
        forall|x: Seq<char>|
            #![trigger texts(res@).contains(x)]
            texts(res@).contains(x) <==> reachable_from(d@, texts(roots@), x),
{
    let ghost rv = texts(roots@);
    let ghost u = rv + frags_spreads(d@.fragments, d@.fragments.len());
    let mut reachable: Vec<String> = Vec::new();
    let mut queue: Vec<String> = Vec::new();
    proof {
        assert(texts(reachable@) =~= Seq::<Seq<char>>::empty());
        assert(texts(queue@) =~= Seq::<Seq<char>>::empty());
    }
    add_new_names(roots, &mut reachable, &mut queue);
    proof {
        assert forall|x: Seq<char>| #[trigger] texts(reachable@).contains(x) implies u.contains(x)
            && reachable_from(d@, rv, x) by {
            lemma_root_reachable(d@, rv, x);
        }
        lemma_no_dup_bound(texts(reachable@), u);
    }
    while queue.len() > 0
        invariant
            rv == texts(roots@),
            u == rv + frags_spreads(d@.fragments, d@.fragments.len()),
            forall|x: Seq<char>| texts(reachable@).contains(x) ==> reachable_from(d@, rv, x),
            forall|x: Seq<char>| texts(queue@).contains(x) ==> texts(reachable@).contains(x),
            forall|x: Seq<char>| rv.contains(x) ==> texts(reachable@).contains(x),
            forall|n: Seq<char>, m: Seq<char>|
                texts(reachable@).contains(n) && !texts(queue@).contains(n)
                    && #[trigger] fragment_deps(d@, n).contains(m) ==> texts(reachable@).contains(
                    m,
                ),
            texts(reachable@).no_duplicates(),
            forall|x: Seq<char>| texts(reachable@).contains(x) ==> u.contains(x),
            reachable@.len() <= u.len(),
        decreases u.len() - reachable@.len(), queue@.len(),
    {
        let ghost r0 = texts(reachable@);
        let ghost q0 = texts(queue@);
        let ghost rlen = reachable@.len();
        let ghost qlen = queue@.len();
        let name = queue.pop().unwrap();
        let ghost q1 = texts(queue@);
        proof {
            assert(q0 =~= q1.push(name@));
            assert(q0.contains(name@));
        }
        match find_fragment_index(d, &name) {
            Some(i) => {
                let deps = spreads_of(&d.fragments[i].selection_set);
                proof {
                    assert(d@.fragments[i as int] == d.fragments@[i as int]@);
                    assert(texts(deps@) == fragment_deps(d@, name@));
                    assert forall|m: Seq<char>| #[trigger] texts(deps@).contains(m) implies u.contains(m)
                        && reachable_from(d@, rv, m) by {
                        lemma_deps_in_spreads(d@, name@, m);
                        lemma_reach_step(d@, rv, name@, m);
                    }
                }
                add_new_names(&deps, &mut reachable, &mut queue);
            },
            None => {
                proof {
                    assert(fragment_deps(d@, name@) =~= Seq::<Seq<char>>::empty());
                }
            },
        }
        proof {
            let r2 = texts(reachable@);
            let q2 = texts(queue@);
            assert forall|n: Seq<char>, m: Seq<char>|
                r2.contains(n) && !q2.contains(n) && #[trigger] fragment_deps(d@, n).contains(
                    m,
                ) implies r2.contains(m) by {
                if n != name@ && r0.contains(n) {
                    assert(!q0.contains(n));
                }
            }
            lemma_no_dup_bound(r2, u);
            assert(reachable@.len() > rlen || (reachable@.len() == rlen && queue@.len() < qlen));
        }
    }
    proof {
        assert forall|x: Seq<char>| reachable_from(d@, rv, x) implies texts(
            reachable@,
        ).contains(x) by {
            lemma_closed_complete(d@, rv, texts(reachable@), x);
        }
    }
    reachable
}

// ---------------------------------------------------------------------
// Cycles
// ---------------------------------------------------------------------

proof fn lemma_position_of(s: Seq<Seq<char>>, x: Seq<char>, i: int)
    requires
        0 <= i < s.len(),
        s[i] == x,
        forall|k: int| 0 <= k < i ==> s[k] != x,
    ensures
        position_of(s, x) == i,
    decreases i,
{
    if i > 0 {
        assert(s[0] != x);
        lemma_position_of(s.drop_first(), x, i - 1);
    }
}

/// Where `s` first stands in `v`.
fn position_text(v: &Vec<String>, s: &String) -> (res: usize)
    requires
        texts(v@).contains(s@),
    ensures
        res < v@.len(),
        res == position_of(texts(v@), s@),
{
    let mut i: usize = 0;
    while i < v.len()
        invariant
            i <= v@.len(),
            texts(v@).contains(s@),
            forall|k: int| 0 <= k < i ==> texts(v@)[k] != s@,
        decreases v.len() - i,
    {
        if same_text(&v[i], s) {
            proof {
                lemma_position_of(texts(v@), s@, i as int);
            }
            return i;
        }
        i = i + 1;
    }
    proof {
        let k = choose|k: int| 0 <= k < texts(v@).len() && texts(v@)[k] == s@;
        assert(texts(v@)[k] == s@);
    }
    0
}

/// The texts of `v[start..]` joined by `" -> "`.
fn join_from(v: &Vec<String>, start: usize) -> (res: String)
    requires
        start <= v@.len(),
    ensures
        res@ == join_arrow(texts(v@).subrange(start as int, v@.len() as int)),
{
    let mut out = String::new();
    let mut i = start;
    proof {
        assert(texts(v@).subrange(start as int, start as int) =~= Seq::<Seq<char>>::empty());
    }
    while i < v.len()
        invariant
            start <= i <= v@.len(),
            out@ == join_arrow(texts(v@).subrange(start as int, i as int)),
        decreases v.len() - i,
    {
        let ghost sub = texts(v@).subrange(start as int, i + 1);
        proof {
            assert(sub.drop_last() =~= texts(v@).subrange(start as int, i as int));
            assert(sub.last() == v@[i as int]@);
        }
        if i == start {
            out = copy_string(&v[i]);
        } else {
            out = concat(concat(out, " -> "), v[i].as_str());
        }
        i = i + 1;
    }
    out
}

/// The search for cycles from the spreads `deps` of the fragment on top
/// of `stack` (see `search_spreads`).
fn search_from(
    d: &Document,
    stack: &mut Vec<String>,
    deps: &Vec<String>,
    done: &mut Vec<String>,
    found: &mut Vec<ValidationError>,
)
    ensures
        final(stack)@ == old(stack)@,
        (CycleSearch { done: texts(final(done)@), errors: errors_view(final(found)@) })
            == search_spreads(
            d@,
            texts(old(stack)@),
            texts(deps@),
            0,
            CycleSearch { done: texts(old(done)@), errors: errors_view(old(found)@) },
        ),
    decreases unvisited_count(d@, texts(old(stack)@)),
{
    let ghost sv = texts(stack@);
    let ghost dv = texts(deps@);
    let ghost goal = search_spreads(
        d@,
        sv,
        dv,
        0,
        CycleSearch { done: texts(done@), errors: errors_view(found@) },
    );
    let mut j: usize = 0;
    while j < deps.len()
        invariant
            j <= deps@.len(),
            stack@ == old(stack)@,
            sv == texts(old(stack)@),
            dv == texts(deps@),
            goal == search_spreads(
                d@,
                sv,
                dv,
                j as nat,
                CycleSearch { done: texts(done@), errors: errors_view(found@) },
            ),
        decreases deps.len() - j,
    {
        let next = &deps[j];
        proof {
            assert(dv[j as int] == next@);
        }
        if contains_text(stack, next) {
            let idx = position_text(stack, next);
            let path = join_from(stack, idx);
            let m = concat(concat(concat(owned("フラグメントの循環参照を検出しました: "), path.as_str()), " -> "), next.as_str());
            push_error(found, ValidationErrorKind::FragmentCycle, m);
            proof {
                assert(m@ == msg_cycle(sv, next@));
            }
        } else if contains_text(done, next) {
        } else {
            match find_fragment_index(d, next) {
                None => {
                    proof {
                        lemma_find_fragment_defined(d@, next@);
                    }
                },
                Some(i) => {
                    let sub = spreads_of(&d.fragments[i].selection_set);
                    proof {
                        lemma_find_fragment_defined(d@, next@);
                        assert(d@.fragments[i as int] == d.fragments@[i as int]@);
                        assert(texts(sub@) == fragment_deps(d@, next@));
                        lemma_unvisited_step(d@, sv, next@);
                    }
                    push_text(stack, next.clone());
                    search_from(d, stack, &sub, done, found);
                    let _ = stack.pop();
                    proof {
                        assert(stack@ =~= old(stack)@);
                    }
                    push_text(done, next.clone());
                },
            }
        }
        j = j + 1;
    }
}

/// Rule "fragments must not form cycles".
pub(crate) fn validate_fragment_cycles(d: &Document, errors: &mut Vec<ValidationError>)
    ensures
        errors_view(final(errors)@) == errors_view(old(errors)@) + fragment_cycle_errors(d@),
{
    let mut done: Vec<String> = Vec::new();
    let mut found: Vec<ValidationError> = Vec::new();
    let mut k: usize = 0;
    proof {
        assert(texts(done@) =~= Seq::<Seq<char>>::empty());
        assert(errors_view(found@) =~= Seq::<SpecValidationError>::empty());
    }
    while k < d.fragments.len()
        invariant
            k <= d.fragments@.len(),
            cycle_search_upto(d@, k as nat) == (CycleSearch {
                done: texts(done@),
                errors: errors_view(found@),
            }),
        decreases d.fragments.len() - k,
    {
        let start = &d.fragments[k].name;
        proof {
            assert(d@.fragments[k as int].name == start@);
        }
        if !contains_text(&done, start) {
            let mut stack: Vec<String> = Vec::new();
            push_text(&mut stack, start.clone());
            proof {
                assert(texts(stack@) =~= seq![start@]);
            }
            match find_fragment_index(d, start) {
                Some(i) => {
                    let deps = spreads_of(&d.fragments[i].selection_set);
                    proof {
                        assert(d@.fragments[i as int] == d.fragments@[i as int]@);
                    }
                    search_from(d, &mut stack, &deps, &mut done, &mut found);
                },
                None => {},
            }
            push_text(&mut done, start.clone());
        }
        k = k + 1;
    }
    let ghost before = errors_view(errors@);
    errors.append(&mut found);
    proof {
        assert(errors_view(errors@) =~= before + fragment_cycle_errors(d@));
    }
}

/// Rule "fragments must be used".
pub(crate) fn validate_unused_fragments(d: &Document, errors: &mut Vec<ValidationError>)
    ensures
        errors_view(final(errors)@) == errors_view(old(errors)@) + unused_fragment_errors(d@),
{
    let roots = operation_spreads(d);
    let reachable = reachable_from_roots(d, &roots);
    let mut k: usize = 0;
    proof {
        assert(errors_view(errors@) + Seq::<SpecValidationError>::empty() =~= errors_view(errors@));
    }
    while k < d.fragments.len()
        invariant
            k <= d.fragments@.len(),
            forall|x: Seq<char>|
                texts(reachable@).contains(x) <==> reachable_from(d@, operation_roots(d@), x),
            errors_view(errors@) == errors_view(old(errors)@) + unused_errors_upto(d@, k as nat),
        decreases d.fragments.len() - k,
    {
        let f = &d.fragments[k];
        proof {
            assert(d@.fragments[k as int] == f@);
        }
        if !contains_text(&reachable, &f.name) {
            let m = concat(concat(owned("フラグメント `"), f.name.as_str()), "` はどの操作からも参照されていません(未使用)");
            push_error(errors, ValidationErrorKind::UnusedFragment, m);
            proof {
                assert(m@ == msg_unused_fragment(f.name@));
            }
        }
        proof {
            assert(errors_view(errors@) =~= errors_view(old(errors)@) + unused_errors_upto(
                d@,
                (k + 1) as nat,
            ));
        }
        k = k + 1;
    }
}

} // verus!
