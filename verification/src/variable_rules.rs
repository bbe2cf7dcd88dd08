//! The rules on variables: every variable that an operation uses, in its
//! own selection set or in a fragment it reaches, is defined by it, and
//! every variable it defines is used.

use vstd::prelude::*;

use crate::ast::{
    arguments_view, directives_view, lemma_entries_view_index, lemma_selections_view_index,
    lemma_values_view_index, selections_view, Argument, Directive, Document, OperationDefinition,
    Selection, SelectionSet, Value,
};
use crate::fragment_rules::{find_fragment_index, reachable_from_roots};
use crate::text::{chars_of, concat, copy_string, same_text};
use crate::validation::{
    contains_text, errors_view, label_of_operation, push_error, spreads_of, texts, ValidationError,
};
use crate::validation_spec::{
    args_vars, declared_vars, dirs_vars, entries_vars, fragment_vars, lemma_sorted_texts,
    lemma_text_lt_total, lemma_text_lt_transitive, msg_undefined_variable, msg_unused_variable,
    operation_variable_errors, reachable_from, sel_vars, sels_vars, set_spreads, set_vars,
    strictly_sorted, text_lt, used_vars, value_vars, values_vars, variable_errors,
    variable_errors_all, variable_errors_upto, variable_names, SpecValidationError,
    ValidationErrorKind,
};

verus! {

broadcast use vstd::seq_lib::lemma_seq_concat_contains_all_elements,
    vstd::seq_lib::lemma_seq_contains_after_push;

// ---------------------------------------------------------------------
// Ascending lists of texts
// ---------------------------------------------------------------------

/// Whether `a` comes before `b` (see `text_lt`).
pub fn text_less(a: &String, b: &String) -> (res: bool)
    ensures
        res == text_lt(a@, b@),
{
    let x = chars_of(a.as_str());
    let y = chars_of(b.as_str());
    let mut i: usize = 0;
    proof {
        assert(a@.skip(0) =~= a@);
        assert(b@.skip(0) =~= b@);
    }
    while i < x.len() && i < y.len()
        invariant
            i <= x@.len(),
            i <= y@.len(),
            x@ == a@,
            y@ == b@,
            text_lt(a@, b@) == text_lt(a@.skip(i as int), b@.skip(i as int)),
        decreases x.len() - i,
    {
        proof {
            assert(a@.skip(i as int)[0] == x@[i as int]);
            assert(b@.skip(i as int)[0] == y@[i as int]);
        }
        if x[i] != y[i] {
            return (x[i] as u32) < (y[i] as u32);
        }
        proof {
            assert(a@.skip(i as int).skip(1) =~= a@.skip(i + 1));
            assert(b@.skip(i as int).skip(1) =~= b@.skip(i + 1));
        }
        i = i + 1;
    }
    i < y.len()
}

/// Where `s` belongs in the ascending list `v`: after every text that
/// comes before it.
fn lower_bound(v: &Vec<String>, s: &String) -> (res: usize)
    ensures
        res <= v@.len(),
        forall|k: int| 0 <= k < res ==> text_lt(#[trigger] texts(v@)[k], s@),
        res < v@.len() ==> !text_lt(texts(v@)[res as int], s@),
{
    let mut i: usize = 0;
    while i < v.len()
        invariant
            i <= v@.len(),
            forall|k: int| 0 <= k < i ==> text_lt(#[trigger] texts(v@)[k], s@),
        decreases v.len() - i,
    {
        if !text_less(&v[i], s) {
            return i;
        }
        i = i + 1;
    }
    i
}

/// Adds `s` to the ascending list `v` unless it is there.
fn insert_sorted(v: &mut Vec<String>, s: &String)
    requires
        strictly_sorted(texts(old(v)@)),
    ensures
        strictly_sorted(texts(final(v)@)),
        forall|x: Seq<char>|
            #![trigger texts(final(v)@).contains(x)]
            texts(final(v)@).contains(x) <==> (texts(old(v)@).contains(x) || x == s@),
{
    let i = lower_bound(v, s);
    if i < v.len() && same_text(&v[i], s) {
        return;
    }
    let ghost w0 = texts(v@);
    v.insert(i, s.clone());
    let ghost w = texts(v@);
    proof {
        assert(w =~= w0.insert(i as int, s@));
        if i < w0.len() {
            lemma_text_lt_total(w0[i as int], s@);
        }
        assert forall|a: int, b: int| 0 <= a < b < w.len() implies text_lt(
            #[trigger] w[a],
            #[trigger] w[b],
        ) by {
            if b < i {
                assert(w[a] == w0[a] && w[b] == w0[b]);
            } else if b == i {
                assert(w[a] == w0[a]);
            } else if a == i {
                assert(w[b] == w0[b - 1]);
                if b - 1 > i {
                    assert(text_lt(w0[i as int], w0[b - 1]));
                    lemma_text_lt_transitive(s@, w0[i as int], w0[b - 1]);
                }
            } else if a < i {
                assert(w[a] == w0[a] && w[b] == w0[b - 1]);
                assert(text_lt(w0[a], s@));
                if b - 1 > i {
                    assert(text_lt(w0[i as int], w0[b - 1]));
                    lemma_text_lt_transitive(s@, w0[i as int], w0[b - 1]);
                }
                lemma_text_lt_transitive(w0[a], s@, w0[b - 1]);
            } else {
                assert(w[a] == w0[a - 1] && w[b] == w0[b - 1]);
            }
        }
        assert forall|x: Seq<char>| #[trigger] w.contains(x) <==> (w0.contains(x) || x == s@) by {
            if w.contains(x) {
                let k = choose|k: int| 0 <= k < w.len() && w[k] == x;
                if k < i {
                    assert(w0[k] == x);
                } else if k > i {
                    assert(w0[k - 1] == x);
                }
            }
            if w0.contains(x) {
                let k = choose|k: int| 0 <= k < w0.len() && w0[k] == x;
                if k < i {
                    assert(w[k] == x);
                } else {
                    assert(w[k + 1] == x);
                }
            }
            if x == s@ {
                assert(w[i as int] == x);
            }
        }
    }
}

/// `after` is an ascending list that holds what `before` and `extra` hold,
/// and nothing else.
spec fn extends(before: Seq<Seq<char>>, after: Seq<Seq<char>>, extra: Seq<Seq<char>>) -> bool {
    &&& strictly_sorted(after)
    &&& forall|x: Seq<char>|
        #![trigger after.contains(x)]
        after.contains(x) <==> (before.contains(x) || extra.contains(x))
}

proof fn lemma_extends_trans(
    a: Seq<Seq<char>>,
    b: Seq<Seq<char>>,
    c: Seq<Seq<char>>,
    x: Seq<Seq<char>>,
    y: Seq<Seq<char>>,
)
    requires
        extends(a, b, x),
        extends(b, c, y),
    ensures
        extends(a, c, x + y),
{
    assert forall|v: Seq<char>| #[trigger] c.contains(v) <==> (a.contains(v) || (x + y).contains(v)) by {
        assert(b.contains(v) <==> (a.contains(v) || x.contains(v)));
    }
}

proof fn lemma_extends_none(a: Seq<Seq<char>>)
    requires
        strictly_sorted(a),
    ensures
        extends(a, a, seq![]),
{
}

// ---------------------------------------------------------------------
// Collecting the variables that are used
// ---------------------------------------------------------------------

/// Adds the variables of a value.
#[verifier::loop_isolation(false)]
fn collect_value_vars(v: &Value, out: &mut Vec<String>)
    requires
        strictly_sorted(texts(old(out)@)),
    ensures
        extends(texts(old(out)@), texts(final(out)@), value_vars(v@)),
    decreases v,
{
    match v {
        Value::Variable(n) => {
            insert_sorted(out, n);
        },
        Value::List(items) => {
            let ghost vv = crate::ast::values_view(items@);
            proof {
                lemma_values_view_index(items@);
                assert(vv.subrange(0, 0) =~= Seq::<crate::ast::SpecValue>::empty());
                lemma_extends_none(texts(out@));
                assert(texts(out@) + Seq::<Seq<char>>::empty() =~= texts(out@));
            }
            let mut i: usize = 0;
            while i < items.len()
                invariant
                    i <= items@.len(),
                    vv == crate::ast::values_view(items@),
                    vv.len() == items@.len(),
                    forall|j: int| 0 <= j < items@.len() ==> #[trigger] vv[j] == items@[j]@,
                    extends(texts(old(out)@), texts(out@), values_vars(vv.subrange(0, i as int))),
                decreases items.len() - i,
            {
                let ghost before = texts(out@);
                collect_value_vars(&items[i], out);
                proof {
                    assert(vv.subrange(0, i + 1).subrange(0, i as int) =~= vv.subrange(0, i as int));
                    assert(vv.subrange(0, i + 1)[i as int] == items@[i as int]@);
                    lemma_extends_trans(
                        texts(old(out)@),
                        before,
                        texts(out@),
                        values_vars(vv.subrange(0, i as int)),
                        value_vars(items@[i as int]@),
                    );
                }
                i = i + 1;
            }
            proof {
                assert(vv.subrange(0, i as int) =~= vv);
            }
        },
        Value::Object(fields) => {
            let ghost ev = crate::ast::entries_view(fields@);
            proof {
                lemma_entries_view_index(fields@);
                assert(ev.subrange(0, 0) =~= Seq::<(Seq<char>, crate::ast::SpecValue)>::empty());
                lemma_extends_none(texts(out@));
            }
            let mut i: usize = 0;
            while i < fields.len()
                invariant
                    i <= fields@.len(),
                    ev == crate::ast::entries_view(fields@),
                    ev.len() == fields@.len(),
                    forall|j: int|
                        0 <= j < fields@.len() ==> #[trigger] ev[j] == (
                            fields@[j].0@,
                            crate::ast::value_view(fields@[j].1),
                        ),
                    extends(texts(old(out)@), texts(out@), entries_vars(ev.subrange(0, i as int))),
                decreases fields.len() - i,
            {
                let ghost before = texts(out@);
                collect_value_vars(&fields[i].1, out);
                proof {
                    assert(ev.subrange(0, i + 1).subrange(0, i as int) =~= ev.subrange(0, i as int));
                    assert(ev.subrange(0, i + 1)[i as int] == ev[i as int]);
                    lemma_extends_trans(
                        texts(old(out)@),
                        before,
                        texts(out@),
                        entries_vars(ev.subrange(0, i as int)),
                        value_vars(fields@[i as int].1@),
                    );
                }
                i = i + 1;
            }
            proof {
                assert(ev.subrange(0, i as int) =~= ev);
            }
        },
        _ => {
            proof {
                lemma_extends_none(texts(out@));
            }
        },
    }
}

/// Adds the variables of the values of a list of arguments.
fn collect_args_vars(args: &Vec<Argument>, out: &mut Vec<String>)
    requires
        strictly_sorted(texts(old(out)@)),
    ensures
        extends(texts(old(out)@), texts(final(out)@), args_vars(arguments_view(args@))),
{
    let ghost av = arguments_view(args@);
    proof {
        assert(av.subrange(0, 0) =~= Seq::<crate::ast::SpecArgument>::empty());
        lemma_extends_none(texts(out@));
    }
    let mut i: usize = 0;
    while i < args.len()
        invariant
            i <= args@.len(),
            av == arguments_view(args@),
            extends(texts(old(out)@), texts(out@), args_vars(av.subrange(0, i as int))),
        decreases args.len() - i,
    {
        let ghost before = texts(out@);
        collect_value_vars(&args[i].value, out);
        proof {
            assert(av.subrange(0, i + 1).drop_last() =~= av.subrange(0, i as int));
            assert(av.subrange(0, i + 1).last() == args@[i as int]@);
            lemma_extends_trans(
                texts(old(out)@),
                before,
                texts(out@),
                args_vars(av.subrange(0, i as int)),
                value_vars(args@[i as int].value@),
            );
        }
        i = i + 1;
    }
    proof {
        assert(av.subrange(0, i as int) =~= av);
    }
}

/// Adds the variables of the arguments of a list of directives.
fn collect_dirs_vars(dirs: &Vec<Directive>, out: &mut Vec<String>)
    requires
        strictly_sorted(texts(old(out)@)),
    ensures
        extends(texts(old(out)@), texts(final(out)@), dirs_vars(directives_view(dirs@))),
{
    let ghost dv = directives_view(dirs@);
    proof {
        assert(dv.subrange(0, 0) =~= Seq::<crate::ast::SpecDirective>::empty());
        lemma_extends_none(texts(out@));
    }
    let mut i: usize = 0;
    while i < dirs.len()
        invariant
            i <= dirs@.len(),
            dv == directives_view(dirs@),
            extends(texts(old(out)@), texts(out@), dirs_vars(dv.subrange(0, i as int))),
        decreases dirs.len() - i,
    {
        let ghost before = texts(out@);
        collect_args_vars(&dirs[i].arguments, out);
        proof {
            assert(dv.subrange(0, i + 1).drop_last() =~= dv.subrange(0, i as int));
            assert(dv.subrange(0, i + 1).last() == dirs@[i as int]@);
            lemma_extends_trans(
                texts(old(out)@),
                before,
                texts(out@),
                dirs_vars(dv.subrange(0, i as int)),
                args_vars(arguments_view(dirs@[i as int].arguments@)),
            );
        }
        i = i + 1;
    }
    proof {
        assert(dv.subrange(0, i as int) =~= dv);
    }
}

/// Adds the variables used in a selection set itself (see `set_vars`).
fn collect_set_vars(set: &SelectionSet, out: &mut Vec<String>)
    requires
        strictly_sorted(texts(old(out)@)),
    ensures
        extends(texts(old(out)@), texts(final(out)@), set_vars(set@)),
    decreases set,
{
    let ghost sv = selections_view(set.selections@);
    proof {
        lemma_selections_view_index(set.selections@);
        assert(sv.subrange(0, 0) =~= Seq::<crate::ast::SpecSelection>::empty());
        lemma_extends_none(texts(out@));
    }
    let mut i: usize = 0;
    while i < set.selections.len()
        invariant
            i <= set.selections@.len(),
            sv == selections_view(set.selections@),
            sv.len() == set.selections@.len(),
            forall|j: int| 0 <= j < set.selections@.len() ==> #[trigger] sv[j] == set.selections@[j]@,
            extends(texts(old(out)@), texts(out@), sels_vars(sv.subrange(0, i as int))),
        decreases set.selections.len() - i,
    {
        let ghost before = texts(out@);
        collect_sel_vars(&set.selections[i], out);
        proof {
            assert(sv.subrange(0, i + 1).subrange(0, i as int) =~= sv.subrange(0, i as int));
            assert(sv.subrange(0, i + 1)[i as int] == set.selections@[i as int]@);
            lemma_extends_trans(
                texts(old(out)@),
                before,
                texts(out@),
                sels_vars(sv.subrange(0, i as int)),
                sel_vars(set.selections@[i as int]@),
            );
        }
        i = i + 1;
    }
    proof {
        assert(sv.subrange(0, i as int) =~= sv);
    }
}

fn collect_sel_vars(sel: &Selection, out: &mut Vec<String>)
    requires
        strictly_sorted(texts(old(out)@)),
    ensures
        extends(texts(old(out)@), texts(final(out)@), sel_vars(sel@)),
    decreases sel,
{
    let ghost t0 = texts(out@);
    match sel {
        Selection::Field(f) => {
            collect_args_vars(&f.arguments, out);
            let ghost t1 = texts(out@);
            collect_dirs_vars(&f.directives, out);
            let ghost t2 = texts(out@);
            proof {
                lemma_extends_trans(
                    t0,
                    t1,
                    t2,
                    args_vars(arguments_view(f.arguments@)),
                    dirs_vars(directives_view(f.directives@)),
                );
            }
            match &f.selection_set {
                Some(sub) => {
                    collect_set_vars(sub, out);
                    proof {
                        lemma_extends_trans(
                            t0,
                            t2,
                            texts(out@),
                            args_vars(arguments_view(f.arguments@)) + dirs_vars(
                                directives_view(f.directives@),
                            ),
                            set_vars(sub@),
                        );
                    }
                },
                None => {
                    proof {
                        lemma_extends_none(t2);
                        lemma_extends_trans(
                            t0,
                            t2,
                            t2,
                            args_vars(arguments_view(f.arguments@)) + dirs_vars(
                                directives_view(f.directives@),
                            ),
                            seq![],
                        );
                    }
                },
            }
        },
        Selection::FragmentSpread(sp) => {
            collect_dirs_vars(&sp.directives, out);
        },
        Selection::InlineFragment(inl) => {
            collect_dirs_vars(&inl.directives, out);
            let ghost t1 = texts(out@);
            collect_set_vars(&inl.selection_set, out);
            proof {
                lemma_extends_trans(
                    t0,
                    t1,
                    texts(out@),
                    dirs_vars(directives_view(inl.directives@)),
                    set_vars(inl.selection_set@),
                );
            }
        },
    }
}

/// The variables that an operation uses, in ascending order (see
/// `used_vars`).
fn used_variables(d: &Document, op: &OperationDefinition) -> (res: Vec<String>)
    ensures
        strictly_sorted(texts(res@)),
        texts(res@).to_set() == used_vars(d@, op@),
{
    let mut out: Vec<String> = Vec::new();
    proof {
        assert(texts(out@) =~= Seq::<Seq<char>>::empty());
    }
    collect_dirs_vars(&op.directives, &mut out);
    let ghost t1 = texts(out@);
    collect_set_vars(&op.selection_set, &mut out);
    let ghost t2 = texts(out@);
    let roots = spreads_of(&op.selection_set);
    let reached = reachable_from_roots(d, &roots);
    let ghost own = dirs_vars(op@.directives) + set_vars(op@.selection_set);
    proof {
        lemma_extends_trans(
            Seq::<Seq<char>>::empty(),
            t1,
            t2,
            dirs_vars(op@.directives),
            set_vars(op@.selection_set),
        );
    }
    let mut k: usize = 0;
    while k < reached.len()
        invariant
            k <= reached@.len(),
            own == dirs_vars(op@.directives) + set_vars(op@.selection_set),
            strictly_sorted(texts(out@)),
            forall|x: Seq<char>|
                #![trigger texts(out@).contains(x)]
                texts(out@).contains(x) <==> (own.contains(x) || exists|j: int|
                    0 <= j < k && #[trigger] fragment_vars(d@, texts(reached@)[j]).contains(x)),
        decreases reached.len() - k,
    {
        let ghost before = texts(out@);
        let ghost name = texts(reached@)[k as int];
        match find_fragment_index(d, &reached[k]) {
            Some(i) => {
                let f = &d.fragments[i];
                proof {
                    assert(d@.fragments[i as int] == f@);
                }
                collect_dirs_vars(&f.directives, &mut out);
                let ghost mid = texts(out@);
                collect_set_vars(&f.selection_set, &mut out);
                proof {
                    lemma_extends_trans(
                        before,
                        mid,
                        texts(out@),
                        dirs_vars(f@.directives),
                        set_vars(f@.selection_set),
                    );
                    assert(fragment_vars(d@, name) == dirs_vars(f@.directives) + set_vars(
                        f@.selection_set,
                    ));
                }
            },
            None => {
                proof {
                    assert(fragment_vars(d@, name) =~= Seq::<Seq<char>>::empty());
                }
            },
        }
        proof {
            assert forall|x: Seq<char>| #[trigger] texts(out@).contains(x) <==> (own.contains(x)
                || exists|j: int|
                0 <= j < k + 1 && #[trigger] fragment_vars(d@, texts(reached@)[j]).contains(x)) by {
                if fragment_vars(d@, name).contains(x) {
                    assert(fragment_vars(d@, texts(reached@)[k as int]).contains(x));
                }
                if exists|j: int|
                    0 <= j < k + 1 && #[trigger] fragment_vars(d@, texts(reached@)[j]).contains(x) {
                    let j = choose|j: int|
                        0 <= j < k + 1 && #[trigger] fragment_vars(d@, texts(reached@)[j]).contains(
                            x,
                        );
                    if j < k {
                        assert(before.contains(x));
                    }
                }
            }
        }
        k = k + 1;
    }
    proof {
        assert forall|x: Seq<char>| #[trigger] texts(out@).to_set().contains(x) <==> used_vars(
            d@,
            op@,
        ).contains(x) by {
            if used_vars(d@, op@).contains(x) && !own.contains(x) {
                let n = choose|n: Seq<char>|
                    reachable_from(d@, set_spreads(op@.selection_set), n) && #[trigger] fragment_vars(
                        d@,
                        n,
                    ).contains(x);
                assert(texts(reached@).contains(n));
                let j = choose|j: int| 0 <= j < texts(reached@).len() && texts(reached@)[j] == n;
                assert(fragment_vars(d@, texts(reached@)[j]).contains(x));
            }
            if texts(out@).contains(x) && !own.contains(x) {
                let j = choose|j: int|
                    0 <= j < k && #[trigger] fragment_vars(d@, texts(reached@)[j]).contains(x);
                assert(texts(reached@).contains(texts(reached@)[j]));
            }
        }
        assert(texts(out@).to_set() =~= used_vars(d@, op@));
    }
    out
}

/// The variables that an operation defines, in ascending order.
fn declared_variables(op: &OperationDefinition) -> (res: Vec<String>)
    ensures
        strictly_sorted(texts(res@)),
        texts(res@).to_set() == declared_vars(op@),
{
    let ghost names = variable_names(op@);
    let mut out: Vec<String> = Vec::new();
    proof {
        assert(texts(out@) =~= Seq::<Seq<char>>::empty());
        assert(names.subrange(0, 0) =~= Seq::<Seq<char>>::empty());
    }
    let mut k: usize = 0;
    while k < op.variable_definitions.len()
        invariant
            k <= op.variable_definitions@.len(),
            names == variable_names(op@),
            names.len() == op.variable_definitions@.len(),
            extends(Seq::<Seq<char>>::empty(), texts(out@), names.subrange(0, k as int)),
        decreases op.variable_definitions.len() - k,
    {
        let ghost before = texts(out@);
        insert_sorted(&mut out, &op.variable_definitions[k].name);
        proof {
            assert(names[k as int] == op.variable_definitions@[k as int].name@);
            assert(names.subrange(0, k + 1) =~= names.subrange(0, k as int).push(names[k as int]));
        }
        k = k + 1;
    }
    proof {
        assert(names.subrange(0, k as int) =~= names);
        assert(texts(out@).to_set() =~= declared_vars(op@));
    }
    out
}

/// One error for each of `names` that `other` lacks.
fn report_variable_errors(
    names: &Vec<String>,
    other: &Vec<String>,
    kind: ValidationErrorKind,
    label: &String,
    errors: &mut Vec<ValidationError>,
)
    ensures
        errors_view(final(errors)@) == errors_view(old(errors)@) + variable_errors(
            texts(names@),
            texts(other@).to_set(),
            kind,
            label@,
        ),
{
    let ghost nv = texts(names@);
    let ghost ov = texts(other@).to_set();
    let mut i: usize = 0;
    proof {
        assert(nv.subrange(0, 0) =~= Seq::<Seq<char>>::empty());
        assert(errors_view(errors@) + Seq::<SpecValidationError>::empty() =~= errors_view(errors@));
    }
    while i < names.len()
        invariant
            i <= names@.len(),
            nv == texts(names@),
            ov == texts(other@).to_set(),
            errors_view(errors@) == errors_view(old(errors)@) + variable_errors(
                nv.subrange(0, i as int),
                ov,
                kind,
                label@,
            ),
        decreases names.len() - i,
    {
        let ghost sub = nv.subrange(0, i + 1);
        proof {
            assert(sub.drop_last() =~= nv.subrange(0, i as int));
            assert(sub.last() == names@[i as int]@);
        }
        if !contains_text(other, &names[i]) {
            let m = match kind {
                ValidationErrorKind::UndefinedVariable => concat(
                    concat(
                        concat(copy_string(label), "内で使用されている変数 `$"),
                        names[i].as_str(),
                    ),
                    "` はこの操作の変数定義リストに存在しません",
                ),
                _ => concat(
                    concat(concat(copy_string(label), "で宣言されている変数 `$"), names[i].as_str()),
                    "` は使用されていません",
                ),
            };
            push_error(errors, kind, m);
            proof {
                if kind == ValidationErrorKind::UndefinedVariable {
                    assert(m@ == msg_undefined_variable(label@, names@[i as int]@));
                } else {
                    assert(m@ == msg_unused_variable(label@, names@[i as int]@));
                }
                assert(errors_view(errors@) =~= errors_view(old(errors)@) + variable_errors(
                    sub,
                    ov,
                    kind,
                    label@,
                ));
            }
        } else {
            proof {
                assert(ov.contains(names@[i as int]@));
            }
        }
        i = i + 1;
    }
    proof {
        assert(nv.subrange(0, i as int) =~= nv);
    }
}

/// Rules "all variable uses defined" and "variables are used".
pub(crate) fn validate_variables(d: &Document, errors: &mut Vec<ValidationError>)
    ensures
        errors_view(final(errors)@) == errors_view(old(errors)@) + variable_errors_all(d@),
{
    let mut k: usize = 0;
    proof {
        assert(errors_view(errors@) + Seq::<SpecValidationError>::empty() =~= errors_view(errors@));
    }
    while k < d.operations.len()
        invariant
            k <= d.operations@.len(),
            errors_view(errors@) == errors_view(old(errors)@) + variable_errors_upto(d@, k as nat),
        decreases d.operations.len() - k,
    {
        let op = &d.operations[k];
        proof {
            assert(d@.operations[k as int] == op@);
        }
        let used = used_variables(d, op);
        let declared = declared_variables(op);
        let label = label_of_operation(op);
        let ghost before = errors_view(errors@);
        report_variable_errors(&used, &declared, ValidationErrorKind::UndefinedVariable, &label, errors);
        report_variable_errors(&declared, &used, ValidationErrorKind::UnusedVariable, &label, errors);
        proof {
            lemma_sorted_texts(texts(used@));
            lemma_sorted_texts(texts(declared@));
            assert(errors_view(errors@) =~= before + operation_variable_errors(d@, op@));
            assert(errors_view(errors@) =~= errors_view(old(errors)@) + variable_errors_upto(
                d@,
                (k + 1) as nat,
            ));
        }
        k = k + 1;
    }
}

} // verus!
