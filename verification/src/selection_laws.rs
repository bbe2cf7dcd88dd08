//! What a selection set spreads and which variables it uses reach into
//! every depth: under fields, inside inline fragments, and in the
//! arguments of directives wherever they stand.

use vstd::prelude::*;

use crate::ast::{
    SpecFragment, SpecArgument, SpecDirective, SpecDocument, SpecSelection, SpecSelectionSet, SpecValue,
};
use crate::validation_spec::{
    find_fragment, fragment_deps, args_vars, dirs_vars, entries_vars, operation_roots, ops_spreads, reachable_from, is_chain,
    sel_spreads, sel_vars, sels_spreads, sels_vars, set_spreads, set_vars, used_vars, value_vars,
    values_vars,
};

verus! {

broadcast use vstd::seq_lib::lemma_seq_concat_contains_all_elements;

proof fn lemma_sels_spreads_part(s: Seq<SpecSelection>, j: int, n: Seq<char>)
    requires
        0 <= j < s.len(),
        sel_spreads(s[j]).contains(n),
    ensures
        sels_spreads(s).contains(n),
    decreases s.len(),
{
    let pre = s.subrange(0, s.len() - 1);
    if j < s.len() - 1 {
        assert(pre[j] == s[j]);
        lemma_sels_spreads_part(pre, j, n);
    }
}

proof fn lemma_sels_vars_part(s: Seq<SpecSelection>, j: int, v: Seq<char>)
    requires
        0 <= j < s.len(),
        sel_vars(s[j]).contains(v),
    ensures
        sels_vars(s).contains(v),
    decreases s.len(),
{
    let pre = s.subrange(0, s.len() - 1);
    if j < s.len() - 1 {
        assert(pre[j] == s[j]);
        lemma_sels_vars_part(pre, j, v);
    }
}

/// A fragment spread in a selection set is among its spreads, and so is
/// every spread nested in it: under a field or inside an inline fragment.
pub proof fn law_nested_spreads(s: SpecSelectionSet, j: int)
    requires
        0 <= j < s.selections.len(),
    ensures
        match s.selections[j] {
            SpecSelection::FragmentSpread(sp) => set_spreads(s).contains(sp.name),
            SpecSelection::InlineFragment(inl) => forall|n: Seq<char>|
                #[trigger] set_spreads(inl.selection_set).contains(n) ==> set_spreads(s).contains(n),
            SpecSelection::Field(f) => match f.selection_set {
                Some(sub) => forall|n: Seq<char>|
                    #[trigger] set_spreads(sub).contains(n) ==> set_spreads(s).contains(n),
                None => true,
            },
        },
{
    let sel = s.selections[j];
    match sel {
        SpecSelection::FragmentSpread(sp) => {
            assert(sel_spreads(sel) == seq![sp.name]);
            assert(sel_spreads(sel)[0] == sp.name);
            lemma_sels_spreads_part(s.selections, j, sp.name);
        },
        SpecSelection::InlineFragment(inl) => {
            assert forall|n: Seq<char>| #[trigger]
                set_spreads(inl.selection_set).contains(n) implies set_spreads(s).contains(n) by {
                lemma_sels_spreads_part(s.selections, j, n);
            }
        },
        SpecSelection::Field(f) => {
            if let Some(sub) = f.selection_set {
                assert forall|n: Seq<char>| #[trigger] set_spreads(sub).contains(n) implies set_spreads(
                    s,
                ).contains(n) by {
                    lemma_sels_spreads_part(s.selections, j, n);
                }
            }
        },
    }
}

/// What an operation spreads, at any depth, is reached from the operations
/// of the document, so that it is never reported as an unused fragment.
pub proof fn law_operation_spreads_reached(d: SpecDocument, o: int, n: Seq<char>)
    requires
        0 <= o < d.operations.len(),
        set_spreads(d.operations[o].selection_set).contains(n),
    ensures
        operation_roots(d).contains(n),
        reachable_from(d, operation_roots(d), n),
{
    lemma_ops_spreads_part(d, d.operations.len() as nat, o, n);
    let c = seq![n];
    assert(is_chain(d, c));
    assert(c[0] == n && c.last() == n);
}

proof fn lemma_ops_spreads_part(d: SpecDocument, k: nat, o: int, n: Seq<char>)
    requires
        0 <= o < k <= d.operations.len(),
        set_spreads(d.operations[o].selection_set).contains(n),
    ensures
        ops_spreads(d.operations, k).contains(n),
    decreases k,
{
    if o < k - 1 {
        lemma_ops_spreads_part(d, (k - 1) as nat, o, n);
    }
}

/// The variables that a selection set uses include those of each of its
/// selections: a field's arguments, directives and sub-selections, a
/// fragment spread's directives, an inline fragment's directives and
/// selections.
pub proof fn law_nested_variables(s: SpecSelectionSet, j: int)
    requires
        0 <= j < s.selections.len(),
    ensures
        match s.selections[j] {
            SpecSelection::FragmentSpread(sp) => forall|v: Seq<char>|
                #[trigger] dirs_vars(sp.directives).contains(v) ==> set_vars(s).contains(v),
            SpecSelection::InlineFragment(inl) => forall|v: Seq<char>|
                #![trigger dirs_vars(inl.directives).contains(v)]
                #![trigger set_vars(inl.selection_set).contains(v)]
                dirs_vars(inl.directives).contains(v) || set_vars(inl.selection_set).contains(v)
                    ==> set_vars(s).contains(v),
            SpecSelection::Field(f) => {
                &&& forall|v: Seq<char>|
                    #![trigger args_vars(f.arguments).contains(v)]
                    #![trigger dirs_vars(f.directives).contains(v)]
                    args_vars(f.arguments).contains(v) || dirs_vars(f.directives).contains(v)
                        ==> set_vars(s).contains(v)
                &&& match f.selection_set {
                    Some(sub) => forall|v: Seq<char>|
                        #[trigger] set_vars(sub).contains(v) ==> set_vars(s).contains(v),
                    None => true,
                }
            },
        },
{
    let sel = s.selections[j];
    match sel {
        SpecSelection::FragmentSpread(sp) => {
            assert forall|v: Seq<char>| #[trigger]
                dirs_vars(sp.directives).contains(v) implies set_vars(s).contains(v) by {
                assert(sel_vars(sel) == dirs_vars(sp.directives));
                lemma_sels_vars_part(s.selections, j, v);
            }
        },
        SpecSelection::InlineFragment(inl) => {
            assert forall|v: Seq<char>|
                #![trigger dirs_vars(inl.directives).contains(v)]
                #![trigger set_vars(inl.selection_set).contains(v)]
                dirs_vars(inl.directives).contains(v) || set_vars(inl.selection_set).contains(
                    v,
                ) implies set_vars(s).contains(v) by {
                assert(sel_vars(sel) == dirs_vars(inl.directives) + set_vars(inl.selection_set));
                lemma_sels_vars_part(s.selections, j, v);
            }
        },
        SpecSelection::Field(f) => {
            let rest = match f.selection_set {
                Some(sub) => set_vars(sub),
                None => Seq::<Seq<char>>::empty(),
            };
            assert(sel_vars(sel) == args_vars(f.arguments) + dirs_vars(f.directives) + rest);
            assert forall|v: Seq<char>|
                #![trigger args_vars(f.arguments).contains(v)]
                #![trigger dirs_vars(f.directives).contains(v)]
                args_vars(f.arguments).contains(v) || dirs_vars(f.directives).contains(
                    v,
                ) implies set_vars(s).contains(v) by {
                lemma_sels_vars_part(s.selections, j, v);
            }
            if let Some(sub) = f.selection_set {
                assert forall|v: Seq<char>| #[trigger] set_vars(sub).contains(v) implies set_vars(
                    s,
                ).contains(v) by {
                    lemma_sels_vars_part(s.selections, j, v);
                }
            }
        },
    }
}

proof fn lemma_args_vars_part(s: Seq<SpecArgument>, a: int, v: Seq<char>)
    requires
        0 <= a < s.len(),
        value_vars(s[a].value).contains(v),
    ensures
        args_vars(s).contains(v),
    decreases s.len(),
{
    if a < s.len() - 1 {
        assert(s.drop_last()[a] == s[a]);
        lemma_args_vars_part(s.drop_last(), a, v);
    }
}

proof fn lemma_dirs_vars_part(s: Seq<SpecDirective>, k: int, v: Seq<char>)
    requires
        0 <= k < s.len(),
        args_vars(s[k].arguments).contains(v),
    ensures
        dirs_vars(s).contains(v),
    decreases s.len(),
{
    if k < s.len() - 1 {
        assert(s.drop_last()[k] == s[k]);
        lemma_dirs_vars_part(s.drop_last(), k, v);
    }
}

proof fn lemma_values_vars_part(s: Seq<SpecValue>, k: int, v: Seq<char>)
    requires
        0 <= k < s.len(),
        value_vars(s[k]).contains(v),
    ensures
        values_vars(s).contains(v),
    decreases s.len(),
{
    let pre = s.subrange(0, s.len() - 1);
    if k < s.len() - 1 {
        assert(pre[k] == s[k]);
        lemma_values_vars_part(pre, k, v);
    }
}

proof fn lemma_entries_vars_part(s: Seq<(Seq<char>, SpecValue)>, k: int, v: Seq<char>)
    requires
        0 <= k < s.len(),
        value_vars(s[k].1).contains(v),
    ensures
        entries_vars(s).contains(v),
    decreases s.len(),
{
    let pre = s.subrange(0, s.len() - 1);
    if k < s.len() - 1 {
        assert(pre[k] == s[k]);
        lemma_entries_vars_part(pre, k, v);
    }
}

/// A variable is used by a value that is that variable or holds it in a
/// list or an object, at any depth.
pub proof fn law_value_variables(x: SpecValue)
    ensures
        match x {
            SpecValue::Variable(n) => value_vars(x).contains(n),
            SpecValue::List(items) => forall|k: int, v: Seq<char>|
                0 <= k < items.len() && #[trigger] value_vars(items[k]).contains(v)
                    ==> value_vars(x).contains(v),
            SpecValue::Object(fields) => forall|k: int, v: Seq<char>|
                0 <= k < fields.len() && #[trigger] value_vars(fields[k].1).contains(v)
                    ==> value_vars(x).contains(v),
            _ => value_vars(x).len() == 0,
        },
{
    match x {
        SpecValue::Variable(n) => {
            assert(value_vars(x)[0] == n);
        },
        SpecValue::List(items) => {
            assert forall|k: int, v: Seq<char>|
                0 <= k < items.len() && #[trigger] value_vars(items[k]).contains(
                    v,
                ) implies value_vars(x).contains(v) by {
                lemma_values_vars_part(items, k, v);
            }
        },
        SpecValue::Object(fields) => {
            assert forall|k: int, v: Seq<char>|
                0 <= k < fields.len() && #[trigger] value_vars(fields[k].1).contains(
                    v,
                ) implies value_vars(x).contains(v) by {
                lemma_entries_vars_part(fields, k, v);
            }
        },
        _ => {},
    }
}

/// The variables that a list of directives uses include those of every
/// argument of every directive in it.
pub proof fn law_directive_variables(dirs: Seq<SpecDirective>)
    ensures
        forall|k: int, a: int, v: Seq<char>|
            0 <= k < dirs.len() && 0 <= a < dirs[k].arguments.len() && #[trigger] value_vars(
                dirs[k].arguments[a].value,
            ).contains(v) ==> dirs_vars(dirs).contains(v),
        forall|k: int, a: int|
            0 <= k < dirs.len() && 0 <= a < dirs[k].arguments.len() && (#[trigger] dirs[k].arguments[a]).value
                is Variable ==> dirs_vars(dirs).contains(dirs[k].arguments[a].value->Variable_0),
{
    assert forall|k: int, a: int, v: Seq<char>|
        0 <= k < dirs.len() && 0 <= a < dirs[k].arguments.len() && #[trigger] value_vars(
            dirs[k].arguments[a].value,
        ).contains(v) implies dirs_vars(dirs).contains(v) by {
        lemma_args_vars_part(dirs[k].arguments, a, v);
        lemma_dirs_vars_part(dirs, k, v);
    }
    assert forall|k: int, a: int|
        0 <= k < dirs.len() && 0 <= a < dirs[k].arguments.len() && (#[trigger] dirs[k].arguments[a]).value
            is Variable implies dirs_vars(dirs).contains(dirs[k].arguments[a].value->Variable_0) by {
        let x = dirs[k].arguments[a].value;
        let n = x->Variable_0;
        assert(value_vars(x)[0] == n);
        lemma_args_vars_part(dirs[k].arguments, a, n);
        lemma_dirs_vars_part(dirs, k, n);
    }
}

/// The variables that a list of arguments uses include those of each
/// argument's value.
pub proof fn law_argument_variables(args: Seq<SpecArgument>)
    ensures
        forall|a: int, v: Seq<char>|
            0 <= a < args.len() && #[trigger] value_vars(args[a].value).contains(v)
                ==> args_vars(args).contains(v),
{
    assert forall|a: int, v: Seq<char>|
        0 <= a < args.len() && #[trigger] value_vars(args[a].value).contains(v) implies args_vars(
        args,
    ).contains(v) by {
        lemma_args_vars_part(args, a, v);
    }
}

/// A variable in the directives of a fragment spread that an operation
/// holds directly is used by that operation.
pub proof fn law_spread_directive_variable(d: SpecDocument, o: int, j: int, k: int, a: int)
    requires
        0 <= o < d.operations.len(),
        0 <= j < d.operations[o].selection_set.selections.len(),
    ensures
        match d.operations[o].selection_set.selections[j] {
            SpecSelection::FragmentSpread(sp) => 0 <= k < sp.directives.len() && 0 <= a
                < sp.directives[k].arguments.len() ==> match sp.directives[k].arguments[a].value {
                SpecValue::Variable(n) => used_vars(d, d.operations[o]).contains(n),
                _ => true,
            },
            _ => true,
        },
{
    let op = d.operations[o];
    law_nested_variables(op.selection_set, j);
    if let SpecSelection::FragmentSpread(sp) = op.selection_set.selections[j] {
        law_directive_variables(sp.directives);
        if 0 <= k < sp.directives.len() && 0 <= a < sp.directives[k].arguments.len() {
            if let SpecValue::Variable(n) = sp.directives[k].arguments[a].value {
                assert(dirs_vars(sp.directives).contains(n));
                assert(set_vars(op.selection_set).contains(n));
                assert(used_vars(d, op).contains(n));
            }
        }
    }
}

/// A fragment name refers to the last definition that carries it, and to
/// none where no definition carries it; what a fragment spreads is what
/// that definition's selection set spreads.
pub proof fn law_fragment_lookup(d: SpecDocument, i: int)
    requires
        0 <= i < d.fragments.len(),
        forall|j: int| i < j < d.fragments.len() ==> (#[trigger] d.fragments[j]).name != d.fragments[i].name,
    ensures
        find_fragment(d.fragments, d.fragments[i].name) == Some(d.fragments[i]),
        fragment_deps(d, d.fragments[i].name) == set_spreads(d.fragments[i].selection_set),
{
    lemma_find_last(d.fragments, i);
}

proof fn lemma_find_last(frags: Seq<SpecFragment>, i: int)
    requires
        0 <= i < frags.len(),
        forall|j: int| i < j < frags.len() ==> (#[trigger] frags[j]).name != frags[i].name,
    ensures
        find_fragment(frags, frags[i].name) == Some(frags[i]),
    decreases frags.len(),
{
    if i < frags.len() - 1 {
        let pre = frags.drop_last();
        assert(frags.last() == frags[frags.len() - 1]);
        assert(pre[i] == frags[i]);
        assert forall|j: int| i < j < pre.len() implies (#[trigger] pre[j]).name != pre[i].name by {
            assert(pre[j] == frags[j]);
        }
        lemma_find_last(pre, i);
    }
}

/// No fragment is found under a name that no definition carries.
pub proof fn law_fragment_lookup_missing(frags: Seq<SpecFragment>, n: Seq<char>)
    requires
        forall|j: int| 0 <= j < frags.len() ==> (#[trigger] frags[j]).name != n,
    ensures
        find_fragment(frags, n) is None,
    decreases frags.len(),
{
    if frags.len() > 0 {
        let pre = frags.drop_last();
        assert(frags.last() == frags[frags.len() - 1]);
        assert forall|j: int| 0 <= j < pre.len() implies (#[trigger] pre[j]).name != n by {
            assert(pre[j] == frags[j]);
        }
        law_fragment_lookup_missing(pre, n);
    }
}

} // verus!
