//! What each kind of validation error means: a document gets an error of a
//! kind exactly when it breaks the rule of that kind.

use vstd::prelude::*;

use crate::ast::{SpecDocument, SpecFragment, SpecOperation, SpecSelection, SpecSelectionSet};
use crate::fragment_rules::{lemma_find_fragment_defined, lemma_find_fragment_index};
use crate::validation_spec::{
    cycle_search_upto, fragment_deps, is_chain, join_arrow, lemma_unvisited_step, msg_cycle, position_of,
    search_spreads, unvisited_count, verr, CycleSearch, declared_vars, dirs_vars, fragment_vars,
    lemma_sorted_texts_exist, msg_undefined_variable, msg_unused_variable, operation_label,
    operation_variable_errors, set_vars, sorted_texts, used_vars, variable_errors,
    variable_errors_upto, direct_conflicts, first_with_key, merging_errors_frags,
    merging_errors_ops, msg_conflicting_arguments, msg_conflicting_names, nested_conflicts,
    response_key, same_arguments, sel_conflicts, set_conflicts, anonymous_errors_upto, duplicate_errors_upto,
    duplicate_name_errors, fragment_cycle_errors, fragment_names, lone_anonymous_errors,
    merging_errors, name_count, operation_roots, reachable_from, set_spreads,
    undefined_fragment_errors, undefined_fragment_errors_frags, undefined_fragment_errors_ops,
    undefined_spread_errors, unused_errors_upto, unused_fragment_errors, validation_errors,
    variable_errors_all, SpecValidationError, ValidationErrorKind,
};

verus! {

broadcast use vstd::seq_lib::lemma_seq_concat_contains_all_elements,
    vstd::seq_lib::lemma_seq_contains_after_push;

/// Some error of `errs` is of kind `k`.
pub open spec fn has_kind(errs: Seq<SpecValidationError>, k: ValidationErrorKind) -> bool {
    exists|i: int| 0 <= i < errs.len() && #[trigger] errs[i].kind == k
}

/// Every error of `errs` is of kind `k`.
pub open spec fn only_kind(errs: Seq<SpecValidationError>, k: ValidationErrorKind) -> bool {
    forall|i: int| 0 <= i < errs.len() ==> #[trigger] errs[i].kind == k
}

proof fn lemma_has_kind_push(s: Seq<SpecValidationError>, e: SpecValidationError, k: ValidationErrorKind)
    ensures
        has_kind(s.push(e), k) == (has_kind(s, k) || e.kind == k),
        only_kind(s.push(e), k) == (only_kind(s, k) && e.kind == k),
{
    if has_kind(s.push(e), k) {
        let i = choose|i: int| 0 <= i < s.push(e).len() && #[trigger] s.push(e)[i].kind == k;
        if i < s.len() {
            assert(s[i].kind == k);
        }
    }
    if has_kind(s, k) {
        let i = choose|i: int| 0 <= i < s.len() && #[trigger] s[i].kind == k;
        assert(s.push(e)[i].kind == k);
    }
    if e.kind == k {
        assert(s.push(e)[s.len() as int].kind == k);
    }
    if only_kind(s.push(e), k) {
        assert(s.push(e)[s.len() as int].kind == k);
        assert forall|i: int| 0 <= i < s.len() implies #[trigger] s[i].kind == k by {
            assert(s.push(e)[i].kind == k);
        }
    }
    if only_kind(s, k) && e.kind == k {
        assert forall|i: int| 0 <= i < s.push(e).len() implies #[trigger] s.push(e)[i].kind == k by {
            if i < s.len() {
                assert(s[i].kind == k);
            }
        }
    }
}

proof fn lemma_has_kind_concat(a: Seq<SpecValidationError>, b: Seq<SpecValidationError>, k: ValidationErrorKind)
    ensures
        has_kind(a + b, k) == (has_kind(a, k) || has_kind(b, k)),
        only_kind(a + b, k) == (only_kind(a, k) && only_kind(b, k)),
{
    if has_kind(a + b, k) {
        let i = choose|i: int| 0 <= i < (a + b).len() && #[trigger] (a + b)[i].kind == k;
        if i < a.len() {
            assert(a[i].kind == k);
        } else {
            assert(b[i - a.len()].kind == k);
        }
    }
    if has_kind(a, k) {
        let i = choose|i: int| 0 <= i < a.len() && #[trigger] a[i].kind == k;
        assert((a + b)[i].kind == k);
    }
    if has_kind(b, k) {
        let i = choose|i: int| 0 <= i < b.len() && #[trigger] b[i].kind == k;
        assert((a + b)[a.len() + i].kind == k);
    }
    if only_kind(a + b, k) {
        assert forall|i: int| 0 <= i < a.len() implies #[trigger] a[i].kind == k by {
            assert((a + b)[i].kind == k);
        }
        assert forall|i: int| 0 <= i < b.len() implies #[trigger] b[i].kind == k by {
            assert((a + b)[a.len() + i].kind == k);
        }
    }
    if only_kind(a, k) && only_kind(b, k) {
        assert forall|i: int| 0 <= i < (a + b).len() implies #[trigger] (a + b)[i].kind == k by {
            if i < a.len() {
                assert(a[i].kind == k);
            } else {
                assert(b[i - a.len()].kind == k);
            }
        }
    }
}

proof fn lemma_only_excludes(s: Seq<SpecValidationError>, k: ValidationErrorKind, other: ValidationErrorKind)
    requires
        only_kind(s, k),
        k != other,
    ensures
        !has_kind(s, other),
{
    if has_kind(s, other) {
        let i = choose|i: int| 0 <= i < s.len() && #[trigger] s[i].kind == other;
        assert(s[i].kind == k);
    }
}

// ---------------------------------------------------------------------
// Fragment spread target defined
// ---------------------------------------------------------------------

/// Some operation or fragment spreads a name that no fragment carries.
pub open spec fn spreads_undefined_fragment(d: SpecDocument) -> bool {
    ||| exists|i: int, n: Seq<char>|
        0 <= i < d.operations.len() && #[trigger] set_spreads(d.operations[i].selection_set).contains(
            n,
        ) && !fragment_names(d).contains(n)
    ||| exists|i: int, n: Seq<char>|
        0 <= i < d.fragments.len() && #[trigger] set_spreads(d.fragments[i].selection_set).contains(
            n,
        ) && !fragment_names(d).contains(n)
}

proof fn lemma_undefined_spread_errors(
    spreads: Seq<Seq<char>>,
    defined: Seq<Seq<char>>,
    context: Seq<char>,
)
    ensures
        only_kind(
            undefined_spread_errors(spreads, defined, context),
            ValidationErrorKind::UndefinedFragment,
        ),
        has_kind(
            undefined_spread_errors(spreads, defined, context),
            ValidationErrorKind::UndefinedFragment,
        ) <==> exists|n: Seq<char>| spreads.contains(n) && !defined.contains(n),
    decreases spreads.len(),
{
    let k = ValidationErrorKind::UndefinedFragment;
    if spreads.len() > 0 {
        let prev = undefined_spread_errors(spreads.drop_last(), defined, context);
        lemma_undefined_spread_errors(spreads.drop_last(), defined, context);
        assert(spreads =~= spreads.drop_last().push(spreads.last()));
        if !defined.contains(spreads.last()) {
            lemma_has_kind_push(
                prev,
                crate::validation_spec::verr(
                    k,
                    crate::validation_spec::msg_undefined_fragment(context, spreads.last()),
                ),
                k,
            );
        }
        if exists|n: Seq<char>| spreads.contains(n) && !defined.contains(n) {
            let n = choose|n: Seq<char>| spreads.contains(n) && !defined.contains(n);
            if n != spreads.last() {
                assert(spreads.drop_last().contains(n));
            }
        }
    }
}

proof fn lemma_undefined_ops(d: SpecDocument, k: nat)
    requires
        k <= d.operations.len(),
    ensures
        only_kind(undefined_fragment_errors_ops(d, k), ValidationErrorKind::UndefinedFragment),
        has_kind(undefined_fragment_errors_ops(d, k), ValidationErrorKind::UndefinedFragment)
            <==> exists|i: int, n: Seq<char>|
            0 <= i < k && #[trigger] set_spreads(d.operations[i].selection_set).contains(n)
                && !fragment_names(d).contains(n),
    decreases k,
{
    let kind = ValidationErrorKind::UndefinedFragment;
    if k > 0 {
        lemma_undefined_ops(d, (k - 1) as nat);
        let op = d.operations[k - 1];
        let errs = undefined_spread_errors(
            set_spreads(op.selection_set),
            fragment_names(d),
            crate::validation_spec::operation_label(op),
        );
        lemma_undefined_spread_errors(
            set_spreads(op.selection_set),
            fragment_names(d),
            crate::validation_spec::operation_label(op),
        );
        lemma_has_kind_concat(undefined_fragment_errors_ops(d, (k - 1) as nat), errs, kind);
        if has_kind(errs, kind) {
            let n = choose|n: Seq<char>|
                set_spreads(op.selection_set).contains(n) && !fragment_names(d).contains(n);
            assert(set_spreads(d.operations[k - 1].selection_set).contains(n));
        }
        if exists|i: int, n: Seq<char>|
            0 <= i < k && #[trigger] set_spreads(d.operations[i].selection_set).contains(n)
                && !fragment_names(d).contains(n) {
            let (i, n) = choose|i: int, n: Seq<char>|
                0 <= i < k && #[trigger] set_spreads(d.operations[i].selection_set).contains(n)
                    && !fragment_names(d).contains(n);
            if i == k - 1 {
                assert(set_spreads(op.selection_set).contains(n));
            }
        }
    }
}

proof fn lemma_undefined_frags(d: SpecDocument, k: nat)
    requires
        k <= d.fragments.len(),
    ensures
        only_kind(undefined_fragment_errors_frags(d, k), ValidationErrorKind::UndefinedFragment),
        has_kind(undefined_fragment_errors_frags(d, k), ValidationErrorKind::UndefinedFragment)
            <==> exists|i: int, n: Seq<char>|
            0 <= i < k && #[trigger] set_spreads(d.fragments[i].selection_set).contains(n)
                && !fragment_names(d).contains(n),
    decreases k,
{
    let kind = ValidationErrorKind::UndefinedFragment;
    if k > 0 {
        lemma_undefined_frags(d, (k - 1) as nat);
        let f = d.fragments[k - 1];
        let errs = undefined_spread_errors(
            set_spreads(f.selection_set),
            fragment_names(d),
            crate::validation_spec::fragment_label(f),
        );
        lemma_undefined_spread_errors(
            set_spreads(f.selection_set),
            fragment_names(d),
            crate::validation_spec::fragment_label(f),
        );
        lemma_has_kind_concat(undefined_fragment_errors_frags(d, (k - 1) as nat), errs, kind);
        if has_kind(errs, kind) {
            let n = choose|n: Seq<char>|
                set_spreads(f.selection_set).contains(n) && !fragment_names(d).contains(n);
            assert(set_spreads(d.fragments[k - 1].selection_set).contains(n));
        }
        if exists|i: int, n: Seq<char>|
            0 <= i < k && #[trigger] set_spreads(d.fragments[i].selection_set).contains(n)
                && !fragment_names(d).contains(n) {
            let (i, n) = choose|i: int, n: Seq<char>|
                0 <= i < k && #[trigger] set_spreads(d.fragments[i].selection_set).contains(n)
                    && !fragment_names(d).contains(n);
            if i == k - 1 {
                assert(set_spreads(f.selection_set).contains(n));
            }
        }
    }
}

proof fn lemma_undefined_fragment_errors(d: SpecDocument)
    ensures
        only_kind(undefined_fragment_errors(d), ValidationErrorKind::UndefinedFragment),
        has_kind(undefined_fragment_errors(d), ValidationErrorKind::UndefinedFragment)
            <==> spreads_undefined_fragment(d),
{
    lemma_undefined_ops(d, d.operations.len());
    lemma_undefined_frags(d, d.fragments.len());
    lemma_has_kind_concat(
        undefined_fragment_errors_ops(d, d.operations.len()),
        undefined_fragment_errors_frags(d, d.fragments.len()),
        ValidationErrorKind::UndefinedFragment,
    );
}

// ---------------------------------------------------------------------
// Lone anonymous operation
// ---------------------------------------------------------------------

/// There is more than one operation, and one of them has no name.
pub open spec fn anonymous_beside_others(d: SpecDocument) -> bool {
    d.operations.len() > 1 && exists|i: int|
        0 <= i < d.operations.len() && (#[trigger] d.operations[i]).name is None
}

proof fn lemma_anonymous_upto(ops: Seq<SpecOperation>, k: nat)
    requires
        k <= ops.len(),
    ensures
        only_kind(anonymous_errors_upto(ops, k), ValidationErrorKind::LoneAnonymousOperation),
        has_kind(anonymous_errors_upto(ops, k), ValidationErrorKind::LoneAnonymousOperation)
            <==> exists|i: int| 0 <= i < k && (#[trigger] ops[i]).name is None,
    decreases k,
{
    if k > 0 {
        lemma_anonymous_upto(ops, (k - 1) as nat);
        let prev = anonymous_errors_upto(ops, (k - 1) as nat);
        if ops[k - 1].name is None {
            lemma_has_kind_push(
                prev,
                crate::validation_spec::verr(
                    ValidationErrorKind::LoneAnonymousOperation,
                    crate::validation_spec::msg_lone_anonymous(),
                ),
                ValidationErrorKind::LoneAnonymousOperation,
            );
        }
    }
}

proof fn lemma_lone_anonymous_errors(d: SpecDocument)
    ensures
        only_kind(lone_anonymous_errors(d), ValidationErrorKind::LoneAnonymousOperation),
        has_kind(lone_anonymous_errors(d), ValidationErrorKind::LoneAnonymousOperation)
            <==> anonymous_beside_others(d),
{
    lemma_anonymous_upto(d.operations, d.operations.len());
}

// ---------------------------------------------------------------------
// Operation name uniqueness
// ---------------------------------------------------------------------

/// Two operations carry the same name.
pub open spec fn duplicate_operation_name(d: SpecDocument) -> bool {
    exists|i: int, j: int|
        0 <= i < j < d.operations.len() && (#[trigger] d.operations[i]).name is Some && d.operations[i].name
            == (#[trigger] d.operations[j]).name
}

proof fn lemma_name_count_one(ops: Seq<SpecOperation>, n: Seq<char>, k: nat)
    requires
        k <= ops.len(),
    ensures
        name_count(ops, n, k) >= 1 <==> exists|i: int| 0 <= i < k && (#[trigger] ops[i]).name == Some(n),
    decreases k,
{
    if k > 0 {
        lemma_name_count_one(ops, n, (k - 1) as nat);
    }
}

proof fn lemma_name_count_two(ops: Seq<SpecOperation>, n: Seq<char>, k: nat)
    requires
        k <= ops.len(),
    ensures
        name_count(ops, n, k) >= 2 <==> exists|i: int, j: int|
            0 <= i < j < k && (#[trigger] ops[i]).name == Some(n) && (#[trigger] ops[j]).name == Some(
                n,
            ),
    decreases k,
{
    if k > 0 {
        lemma_name_count_two(ops, n, (k - 1) as nat);
        lemma_name_count_one(ops, n, (k - 1) as nat);
        if name_count(ops, n, k) >= 2 && name_count(ops, n, (k - 1) as nat) < 2 {
            let i = choose|i: int| 0 <= i < k - 1 && (#[trigger] ops[i]).name == Some(n);
            assert(ops[k - 1].name == Some(n));
        }
        if exists|i: int, j: int|
            0 <= i < j < k && (#[trigger] ops[i]).name == Some(n) && (#[trigger] ops[j]).name == Some(
                n,
            ) {
            let (i, j) = choose|i: int, j: int|
                0 <= i < j < k && (#[trigger] ops[i]).name == Some(n) && (#[trigger] ops[j]).name
                    == Some(n);
            if j == k - 1 {
                assert(ops[i].name == Some(n));
            }
        }
    }
}

/// The first operation named `n`.
proof fn lemma_first_named(ops: Seq<SpecOperation>, n: Seq<char>, k: nat) -> (f: int)
    requires
        k <= ops.len(),
        name_count(ops, n, k) >= 1,
    ensures
        0 <= f < k,
        ops[f].name == Some(n),
        name_count(ops, n, f as nat) == 0,
    decreases k,
{
    if name_count(ops, n, (k - 1) as nat) >= 1 {
        lemma_first_named(ops, n, (k - 1) as nat)
    } else {
        k - 1
    }
}

proof fn lemma_duplicate_upto(ops: Seq<SpecOperation>, k: nat)
    requires
        k <= ops.len(),
    ensures
        only_kind(duplicate_errors_upto(ops, k), ValidationErrorKind::DuplicateOperationName),
        has_kind(duplicate_errors_upto(ops, k), ValidationErrorKind::DuplicateOperationName)
            <==> exists|f: int|
            0 <= f < k && (#[trigger] ops[f]).name is Some && name_count(
                ops,
                ops[f].name->0,
                f as nat,
            ) == 0 && name_count(ops, ops[f].name->0, ops.len()) > 1,
    decreases k,
{
    let kind = ValidationErrorKind::DuplicateOperationName;
    if k > 0 {
        lemma_duplicate_upto(ops, (k - 1) as nat);
        let prev = duplicate_errors_upto(ops, (k - 1) as nat);
        match ops[k - 1].name {
            Some(n) => {
                if name_count(ops, n, (k - 1) as nat) == 0 && name_count(ops, n, ops.len()) > 1 {
                    lemma_has_kind_push(
                        prev,
                        crate::validation_spec::verr(
                            kind,
                            crate::validation_spec::msg_duplicate_operation(
                                n,
                                name_count(ops, n, ops.len()),
                            ),
                        ),
                        kind,
                    );
                }
            },
            None => {},
        }
    }
}

proof fn lemma_duplicate_name_errors(d: SpecDocument)
    ensures
        only_kind(duplicate_name_errors(d), ValidationErrorKind::DuplicateOperationName),
        has_kind(duplicate_name_errors(d), ValidationErrorKind::DuplicateOperationName)
            <==> duplicate_operation_name(d),
{
    let ops = d.operations;
    lemma_duplicate_upto(ops, ops.len());
    if has_kind(duplicate_name_errors(d), ValidationErrorKind::DuplicateOperationName) {
        let f = choose|f: int|
            0 <= f < ops.len() && (#[trigger] ops[f]).name is Some && name_count(
                ops,
                ops[f].name->0,
                f as nat,
            ) == 0 && name_count(ops, ops[f].name->0, ops.len()) > 1;
        let n = ops[f].name->0;
        lemma_name_count_two(ops, n, ops.len());
        let (i, j) = choose|i: int, j: int|
            0 <= i < j < ops.len() && (#[trigger] ops[i]).name == Some(n) && (#[trigger] ops[j]).name
                == Some(n);
        assert(d.operations[i].name is Some && d.operations[i].name == d.operations[j].name);
    }
    if duplicate_operation_name(d) {
        let (i, j) = choose|i: int, j: int|
            0 <= i < j < d.operations.len() && (#[trigger] d.operations[i]).name is Some
                && d.operations[i].name == (#[trigger] d.operations[j]).name;
        let n = ops[i].name->0;
        lemma_name_count_two(ops, n, ops.len());
        assert(ops[i].name == Some(n) && ops[j].name == Some(n));
        lemma_name_count_one(ops, n, ops.len());
        let f = lemma_first_named(ops, n, ops.len());
        assert(ops[f].name->0 == n);
    }
}

// ---------------------------------------------------------------------
// Fragments must be used
// ---------------------------------------------------------------------

/// Some fragment is reached from no operation through fragment spreads.
pub open spec fn unused_fragment(d: SpecDocument) -> bool {
    exists|i: int|
        0 <= i < d.fragments.len() && !reachable_from(
            d,
            operation_roots(d),
            (#[trigger] d.fragments[i]).name,
        )
}

proof fn lemma_unused_upto(d: SpecDocument, k: nat)
    requires
        k <= d.fragments.len(),
    ensures
        only_kind(unused_errors_upto(d, k), ValidationErrorKind::UnusedFragment),
        has_kind(unused_errors_upto(d, k), ValidationErrorKind::UnusedFragment) <==> exists|i: int|
            0 <= i < k && !reachable_from(d, operation_roots(d), (#[trigger] d.fragments[i]).name),
    decreases k,
{
    if k > 0 {
        lemma_unused_upto(d, (k - 1) as nat);
        let name = d.fragments[k - 1].name;
        if !reachable_from(d, operation_roots(d), name) {
            lemma_has_kind_push(
                unused_errors_upto(d, (k - 1) as nat),
                crate::validation_spec::verr(
                    ValidationErrorKind::UnusedFragment,
                    crate::validation_spec::msg_unused_fragment(name),
                ),
                ValidationErrorKind::UnusedFragment,
            );
        }
    }
}

proof fn lemma_unused_fragment_errors(d: SpecDocument)
    ensures
        only_kind(unused_fragment_errors(d), ValidationErrorKind::UnusedFragment),
        has_kind(unused_fragment_errors(d), ValidationErrorKind::UnusedFragment) <==> unused_fragment(
            d,
        ),
{
    lemma_unused_upto(d, d.fragments.len());
}

// ---------------------------------------------------------------------
// Fragments must not form cycles
// ---------------------------------------------------------------------

/// The fragments spread each other in a cycle: a chain of spreads, of at
/// least one step, that comes back to the fragment where it started.
pub open spec fn has_fragment_cycle(d: SpecDocument) -> bool {
    exists|c: Seq<Seq<char>>| #[trigger] is_chain(d, c) && c.len() > 1 && c[0] == c.last()
}

/// `done` lists fragments so that every defined fragment that one spreads
/// is listed before it.
spec fn finished_in_order(d: SpecDocument, done: Seq<Seq<char>>) -> bool {
    forall|i: int, m: Seq<char>|
        0 <= i < done.len() && #[trigger] fragment_deps(d, done[i]).contains(m) && fragment_names(
            d,
        ).contains(m) ==> exists|j: int| 0 <= j < i && done[j] == m
}

/// `a` is a prefix of `b`.
spec fn prefix_of<A>(a: Seq<A>, b: Seq<A>) -> bool {
    a.len() <= b.len() && forall|i: int| 0 <= i < a.len() ==> #[trigger] b[i] == a[i]
}

proof fn lemma_stack_cycle(d: SpecDocument, stack: Seq<Seq<char>>, next: Seq<char>)
    requires
        is_chain(d, stack),
        fragment_deps(d, stack.last()).contains(next),
        stack.contains(next),
    ensures
        has_fragment_cycle(d),
{
    let p = choose|p: int| 0 <= p < stack.len() && stack[p] == next;
    let c = stack.subrange(p, stack.len() as int).push(next);
    assert forall|k: int| 0 <= k < c.len() - 1 implies #[trigger] fragment_deps(d, c[k]).contains(
        c[k + 1],
    ) by {
        if k < stack.len() - p - 1 {
            assert(c[k] == stack[p + k] && c[k + 1] == stack[p + k + 1]);
            assert(fragment_deps(d, stack[p + k]).contains(stack[(p + k) + 1]));
        } else {
            assert(c[k] == stack.last() && c[k + 1] == next);
        }
    }
    assert(is_chain(d, c));
    assert(c[0] == next && c.last() == next);
}

/// The message that names the cycle of spreads `c`.
pub open spec fn cycle_message(c: Seq<Seq<char>>) -> Seq<char> {
    "フラグメントの循環参照を検出しました: "@ + join_arrow(c)
}

/// `message` names a cycle of spreads among the document's fragments: a
/// chain of at least one spread that comes back to where it started,
/// written `A -> B -> ... -> A`.
pub open spec fn names_a_cycle(d: SpecDocument, message: Seq<char>) -> bool {
    exists|c: Seq<Seq<char>>|
        #[trigger] is_chain(d, c) && c.len() > 1 && c[0] == c.last() && message == cycle_message(c)
}

proof fn lemma_stack_cycle_message(d: SpecDocument, stack: Seq<Seq<char>>, next: Seq<char>)
    requires
        is_chain(d, stack),
        fragment_deps(d, stack.last()).contains(next),
        stack.contains(next),
    ensures
        names_a_cycle(d, msg_cycle(stack, next)),
{
    lemma_position(stack, next);
    let p = position_of(stack, next);
    let sub = stack.subrange(p, stack.len() as int);
    let c = sub.push(next);
    assert forall|k: int| 0 <= k < c.len() - 1 implies #[trigger] fragment_deps(d, c[k]).contains(
        c[k + 1],
    ) by {
        if k < stack.len() - p - 1 {
            assert(c[k] == stack[p + k] && c[k + 1] == stack[p + k + 1]);
            assert(fragment_deps(d, stack[p + k]).contains(stack[(p + k) + 1]));
        } else {
            assert(c[k] == stack.last() && c[k + 1] == next);
        }
    }
    assert(is_chain(d, c));
    assert(c.drop_last() =~= sub);
    assert(join_arrow(c) == join_arrow(sub) + " -> "@ + next);
    assert(msg_cycle(stack, next) =~= cycle_message(c));
}

/// Each error that the search from `deps[j..]` adds names a cycle.
proof fn lemma_search_messages(
    d: SpecDocument,
    stack: Seq<Seq<char>>,
    deps: Seq<Seq<char>>,
    j: nat,
    st: CycleSearch,
)
    requires
        is_chain(d, stack),
        deps == fragment_deps(d, stack.last()),
    ensures
        ({
            let r = search_spreads(d, stack, deps, j, st);
            forall|k: int|
                st.errors.len() <= k < r.errors.len() ==> names_a_cycle(
                    d,
                    (#[trigger] r.errors[k]).message,
                )
        }),
    decreases unvisited_count(d, stack), deps.len() - j,
{
    let fc = ValidationErrorKind::FragmentCycle;
    if j < deps.len() {
        let next = deps[j as int];
        assert(fragment_deps(d, stack.last()).contains(next));
        if stack.contains(next) {
            let st1 = CycleSearch {
                done: st.done,
                errors: st.errors.push(verr(fc, msg_cycle(stack, next))),
            };
            lemma_search_messages(d, stack, deps, j + 1, st1);
            lemma_search(d, stack, deps, j + 1, st1);
            lemma_stack_cycle_message(d, stack, next);
            let r = search_spreads(d, stack, deps, (j + 1) as nat, st1);
            assert(r.errors[st.errors.len() as int] == st1.errors[st.errors.len() as int]);
        } else if st.done.contains(next) || !fragment_names(d).contains(next) {
            lemma_search_messages(d, stack, deps, j + 1, st);
        } else {
            lemma_unvisited_step(d, stack, next);
            let s2 = stack.push(next);
            assert(is_chain(d, s2)) by {
                assert forall|k: int| 0 <= k < s2.len() - 1 implies #[trigger] fragment_deps(
                    d,
                    s2[k],
                ).contains(s2[k + 1]) by {
                    if k < stack.len() - 1 {
                        assert(s2[k] == stack[k] && s2[k + 1] == stack[k + 1]);
                    } else {
                        assert(s2[k] == stack.last() && s2[k + 1] == next);
                    }
                }
            }
            assert(s2.last() == next);
            lemma_search_messages(d, s2, fragment_deps(d, next), 0, st);
            lemma_search(d, s2, fragment_deps(d, next), 0, st);
            let inner = search_spreads(d, s2, fragment_deps(d, next), 0, st);
            let st1 = CycleSearch { done: inner.done.push(next), errors: inner.errors };
            lemma_search_messages(d, stack, deps, j + 1, st1);
            lemma_search(d, stack, deps, j + 1, st1);
            let r = search_spreads(d, stack, deps, (j + 1) as nat, st1);
            assert forall|k: int| st.errors.len() <= k < r.errors.len() implies names_a_cycle(
                d,
                (#[trigger] r.errors[k]).message,
            ) by {
                if k < inner.errors.len() {
                    assert(r.errors[k] == inner.errors[k]);
                }
            }
        }
    }
}

proof fn lemma_search_upto_messages(d: SpecDocument, k: nat)
    requires
        k <= d.fragments.len(),
    ensures
        forall|x: int|
            0 <= x < cycle_search_upto(d, k).errors.len() ==> names_a_cycle(
                d,
                (#[trigger] cycle_search_upto(d, k).errors[x]).message,
            ),
    decreases k,
{
    if k > 0 {
        lemma_search_upto_messages(d, (k - 1) as nat);
        let st1 = cycle_search_upto(d, (k - 1) as nat);
        let start = d.fragments[k - 1].name;
        if !st1.done.contains(start) {
            let stack = seq![start];
            assert(is_chain(d, stack));
            assert(stack.last() == start);
            lemma_search_messages(d, stack, fragment_deps(d, start), 0, st1);
            lemma_search(d, stack, fragment_deps(d, start), 0, st1);
            let r = cycle_search_upto(d, k);
            assert forall|x: int| 0 <= x < r.errors.len() implies names_a_cycle(
                d,
                (#[trigger] r.errors[x]).message,
            ) by {
                if x < st1.errors.len() {
                    assert(st1.errors[x] == r.errors[x]);
                }
            }
        }
    }
}

/// What the search from `deps[j..]` keeps: it only adds errors, all of
/// kind `FragmentCycle`, each one for a real cycle; it only adds finished
/// fragments; and where it adds no error, every fragment it finishes comes
/// after the defined fragments that it spreads, and every defined fragment
/// of `deps[j..]` ends finished.
proof fn lemma_search(
    d: SpecDocument,
    stack: Seq<Seq<char>>,
    deps: Seq<Seq<char>>,
    j: nat,
    st: CycleSearch,
)
    requires
        is_chain(d, stack),
        deps == fragment_deps(d, stack.last()),
    ensures
        ({
            let r = search_spreads(d, stack, deps, j, st);
            &&& prefix_of(st.errors, r.errors)
            &&& prefix_of(st.done, r.done)
            &&& only_kind(st.errors, ValidationErrorKind::FragmentCycle) ==> only_kind(
                r.errors,
                ValidationErrorKind::FragmentCycle,
            )
            &&& r.errors.len() > st.errors.len() ==> has_fragment_cycle(d)
            &&& (r.errors.len() == st.errors.len() && finished_in_order(d, st.done)) ==> {
                &&& finished_in_order(d, r.done)
                &&& forall|k: int|
                    j <= k < deps.len() && fragment_names(d).contains(#[trigger] deps[k])
                        ==> r.done.contains(deps[k])
            }
        }),
    decreases unvisited_count(d, stack), deps.len() - j,
{
    let fc = ValidationErrorKind::FragmentCycle;
    if j < deps.len() {
        let next = deps[j as int];
        assert(fragment_deps(d, stack.last()).contains(next));
        if stack.contains(next) {
            let st1 = CycleSearch {
                done: st.done,
                errors: st.errors.push(verr(fc, msg_cycle(stack, next))),
            };
            lemma_search(d, stack, deps, j + 1, st1);
            lemma_stack_cycle(d, stack, next);
            lemma_has_kind_push(st.errors, verr(fc, msg_cycle(stack, next)), fc);
            let r = search_spreads(d, stack, deps, (j + 1) as nat, st1);
            assert forall|i: int| 0 <= i < st.errors.len() implies #[trigger] r.errors[i]
                == st.errors[i] by {
                assert(st1.errors[i] == st.errors[i]);
            }
        } else if st.done.contains(next) || !fragment_names(d).contains(next) {
            lemma_search(d, stack, deps, j + 1, st);
            let r = search_spreads(d, stack, deps, (j + 1) as nat, st);
            if st.done.contains(next) {
                let x = choose|x: int| 0 <= x < st.done.len() && st.done[x] == next;
                assert(r.done[x] == next);
            }
        } else {
            lemma_unvisited_step(d, stack, next);
            let s2 = stack.push(next);
            assert(is_chain(d, s2)) by {
                assert forall|k: int| 0 <= k < s2.len() - 1 implies #[trigger] fragment_deps(
                    d,
                    s2[k],
                ).contains(s2[k + 1]) by {
                    if k < stack.len() - 1 {
                        assert(s2[k] == stack[k] && s2[k + 1] == stack[k + 1]);
                    } else {
                        assert(s2[k] == stack.last() && s2[k + 1] == next);
                    }
                }
            }
            assert(s2.last() == next);
            lemma_search(d, s2, fragment_deps(d, next), 0, st);
            let inner = search_spreads(d, s2, fragment_deps(d, next), 0, st);
            let st1 = CycleSearch { done: inner.done.push(next), errors: inner.errors };
            lemma_search(d, stack, deps, j + 1, st1);
            let r = search_spreads(d, stack, deps, (j + 1) as nat, st1);
            assert forall|i: int| 0 <= i < st.errors.len() implies #[trigger] r.errors[i]
                == st.errors[i] by {
                assert(inner.errors[i] == st.errors[i]);
            }
            assert forall|i: int| 0 <= i < st.done.len() implies #[trigger] r.done[i]
                == st.done[i] by {
                assert(inner.done[i] == st.done[i]);
                assert(st1.done[i] == inner.done[i]);
            }
            if r.errors.len() == st.errors.len() && finished_in_order(d, st.done) {
                assert(inner.errors.len() == st.errors.len());
                assert(finished_in_order(d, inner.done));
                assert forall|i: int, m: Seq<char>|
                    0 <= i < st1.done.len() && #[trigger] fragment_deps(d, st1.done[i]).contains(m)
                        && fragment_names(d).contains(m) implies exists|x: int|
                    0 <= x < i && st1.done[x] == m by {
                    if i < inner.done.len() {
                        assert(st1.done[i] == inner.done[i]);
                        assert(fragment_deps(d, inner.done[i]).contains(m));
                        let x = choose|x: int| 0 <= x < i && inner.done[x] == m;
                        assert(st1.done[x] == m);
                    } else {
                        assert(st1.done[i] == next);
                        let fd = fragment_deps(d, next);
                        let q = choose|q: int| 0 <= q < fd.len() && fd[q] == m;
                        assert(fragment_names(d).contains(fd[q]));
                        let x = choose|x: int| 0 <= x < inner.done.len() && inner.done[x] == m;
                        assert(st1.done[x] == m);
                    }
                }
                assert(st1.done[inner.done.len() as int] == next);
                assert(r.done[inner.done.len() as int] == next);
            }
        }
    }
}

proof fn lemma_search_upto(d: SpecDocument, k: nat)
    requires
        k <= d.fragments.len(),
    ensures
        ({
            let r = cycle_search_upto(d, k);
            &&& only_kind(r.errors, ValidationErrorKind::FragmentCycle)
            &&& r.errors.len() > 0 ==> has_fragment_cycle(d)
            &&& r.errors.len() == 0 ==> {
                &&& finished_in_order(d, r.done)
                &&& forall|i: int| 0 <= i < k ==> r.done.contains(#[trigger] d.fragments[i].name)
            }
        }),
    decreases k,
{
    if k > 0 {
        lemma_search_upto(d, (k - 1) as nat);
        let st1 = cycle_search_upto(d, (k - 1) as nat);
        let start = d.fragments[k - 1].name;
        if !st1.done.contains(start) {
            let stack = seq![start];
            assert(is_chain(d, stack));
            assert(stack.last() == start);
            lemma_search(d, stack, fragment_deps(d, start), 0, st1);
            let inner = search_spreads(d, stack, fragment_deps(d, start), 0, st1);
            let r = cycle_search_upto(d, k);
            assert(r.done == inner.done.push(start));
            if r.errors.len() == 0 {
                assert(st1.errors.len() == 0);
                assert forall|i: int, m: Seq<char>|
                    0 <= i < r.done.len() && #[trigger] fragment_deps(d, r.done[i]).contains(m)
                        && fragment_names(d).contains(m) implies exists|x: int|
                    0 <= x < i && r.done[x] == m by {
                    if i < inner.done.len() {
                        assert(r.done[i] == inner.done[i]);
                        assert(fragment_deps(d, inner.done[i]).contains(m));
                        let x = choose|x: int| 0 <= x < i && inner.done[x] == m;
                        assert(r.done[x] == m);
                    } else {
                        assert(r.done[i] == start);
                        let fd = fragment_deps(d, start);
                        let q = choose|q: int| 0 <= q < fd.len() && fd[q] == m;
                        assert(fragment_names(d).contains(fd[q]));
                        let x = choose|x: int| 0 <= x < inner.done.len() && inner.done[x] == m;
                        assert(r.done[x] == m);
                    }
                }
                assert forall|i: int| 0 <= i < k implies r.done.contains(
                    #[trigger] d.fragments[i].name,
                ) by {
                    if i < k - 1 {
                        let x = choose|x: int|
                            0 <= x < st1.done.len() && st1.done[x] == d.fragments[i].name;
                        assert(r.done[x] == st1.done[x]);
                    } else {
                        assert(r.done[inner.done.len() as int] == start);
                    }
                }
            }
        }
    }
}

proof fn lemma_position(s: Seq<Seq<char>>, x: Seq<char>)
    requires
        s.contains(x),
    ensures
        0 <= position_of(s, x) < s.len(),
        s[position_of(s, x)] == x,
        forall|j: int| 0 <= j < position_of(s, x) ==> s[j] != x,
    decreases s.len(),
{
    if s[0] != x {
        let k = choose|k: int| 0 <= k < s.len() && s[k] == x;
        assert(s.drop_first()[k - 1] == x);
        lemma_position(s.drop_first(), x);
        assert forall|j: int| 0 <= j < position_of(s, x) implies s[j] != x by {
            if j > 0 {
                assert(s[j] == s.drop_first()[j - 1]);
            }
        }
    }
}

/// Along a chain of defined fragments listed in order, positions fall.
proof fn lemma_chain_positions(d: SpecDocument, done: Seq<Seq<char>>, c: Seq<Seq<char>>, k: int)
    requires
        finished_in_order(d, done),
        is_chain(d, c),
        forall|x: Seq<char>| fragment_names(d).contains(x) ==> done.contains(x),
        forall|q: int| 0 <= q < c.len() ==> fragment_names(d).contains(#[trigger] c[q]),
        0 <= k < c.len(),
    ensures
        position_of(done, c[k]) <= position_of(done, c[0]) - k,
    decreases k,
{
    if k > 0 {
        lemma_chain_positions(d, done, c, k - 1);
        let u = c[k - 1];
        let v = c[k];
        assert(fragment_names(d).contains(u) && fragment_names(d).contains(v));
        lemma_position(done, u);
        lemma_position(done, v);
        let i = position_of(done, u);
        assert(fragment_deps(d, c[k - 1]).contains(c[(k - 1) + 1]));
        assert(fragment_deps(d, done[i]).contains(v));
        let x = choose|x: int| 0 <= x < i && done[x] == v;
    }
}

proof fn lemma_no_cycle(d: SpecDocument, done: Seq<Seq<char>>)
    requires
        finished_in_order(d, done),
        forall|x: Seq<char>| fragment_names(d).contains(x) ==> done.contains(x),
    ensures
        !has_fragment_cycle(d),
{
    if has_fragment_cycle(d) {
        let c = choose|c: Seq<Seq<char>>| #[trigger] is_chain(d, c) && c.len() > 1 && c[0] == c.last();
        assert forall|q: int| 0 <= q < c.len() implies fragment_names(d).contains(#[trigger] c[q]) by {
            let q2 = if q == c.len() - 1 { 0 } else { q };
            assert(c[q2] == c[q]);
            assert(fragment_deps(d, c[q2]).contains(c[q2 + 1]));
            if !fragment_names(d).contains(c[q2]) {
                lemma_find_fragment_defined(d, c[q2]);
                assert(fragment_deps(d, c[q2]) =~= Seq::<Seq<char>>::empty());
            }
        }
        lemma_chain_positions(d, done, c, c.len() - 1);
    }
}

proof fn lemma_fragment_cycle_errors(d: SpecDocument)
    ensures
        only_kind(fragment_cycle_errors(d), ValidationErrorKind::FragmentCycle),
        has_kind(fragment_cycle_errors(d), ValidationErrorKind::FragmentCycle) <==> has_fragment_cycle(
            d,
        ),
{
    lemma_search_upto(d, d.fragments.len());
    let r = cycle_search_upto(d, d.fragments.len());
    if r.errors.len() > 0 {
        assert(r.errors[0].kind == ValidationErrorKind::FragmentCycle);
    } else {
        assert forall|x: Seq<char>| fragment_names(d).contains(x) implies r.done.contains(x) by {
            let i = choose|i: int| 0 <= i < fragment_names(d).len() && fragment_names(d)[i] == x;
            assert(d.fragments[i].name == x);
        }
        lemma_no_cycle(d, r.done);
    }
}

// ---------------------------------------------------------------------
// Variables
// ---------------------------------------------------------------------

/// Some operation uses a variable, in its own selection set or in a
/// fragment that it reaches, that it does not define.
pub open spec fn uses_undefined_variable(d: SpecDocument) -> bool {
    exists|i: int, v: Seq<char>|
        0 <= i < d.operations.len() && #[trigger] used_vars(d, d.operations[i]).contains(v)
            && !declared_vars(d.operations[i]).contains(v)
}

/// Some operation defines a variable that it does not use.
pub open spec fn defines_unused_variable(d: SpecDocument) -> bool {
    exists|i: int, v: Seq<char>|
        0 <= i < d.operations.len() && #[trigger] declared_vars(d.operations[i]).contains(v)
            && !used_vars(d, d.operations[i]).contains(v)
}

/// The variables used by the fragments `frags[0..k]`.
spec fn frags_vars(frags: Seq<SpecFragment>, k: nat) -> Seq<Seq<char>>
    decreases k,
{
    if k == 0 || k > frags.len() {
        seq![]
    } else {
        frags_vars(frags, (k - 1) as nat) + (dirs_vars(frags[k - 1].directives) + set_vars(
            frags[k - 1].selection_set,
        ))
    }
}

proof fn lemma_frags_vars_contains(frags: Seq<SpecFragment>, k: nat, i: int, v: Seq<char>)
    requires
        0 <= i < k <= frags.len(),
        (dirs_vars(frags[i].directives) + set_vars(frags[i].selection_set)).contains(v),
    ensures
        frags_vars(frags, k).contains(v),
    decreases k,
{
    if i < k - 1 {
        lemma_frags_vars_contains(frags, (k - 1) as nat, i, v);
    }
}

proof fn lemma_used_vars_finite(d: SpecDocument, op: SpecOperation)
    ensures
        used_vars(d, op).finite(),
{
    broadcast use vstd::seq_lib::seq_to_set_is_finite;

    let all = dirs_vars(op.directives) + set_vars(op.selection_set) + frags_vars(
        d.fragments,
        d.fragments.len(),
    );
    assert forall|v: Seq<char>| used_vars(d, op).contains(v) implies all.to_set().contains(v) by {
        if !dirs_vars(op.directives).contains(v) && !set_vars(op.selection_set).contains(v) {
            let n = choose|n: Seq<char>|
                reachable_from(d, set_spreads(op.selection_set), n) && #[trigger] fragment_vars(
                    d,
                    n,
                ).contains(v);
            let i = lemma_find_fragment_index(d.fragments, n);
            lemma_frags_vars_contains(d.fragments, d.fragments.len(), i, v);
        }
    }
    vstd::set_lib::lemma_len_subset(used_vars(d, op), all.to_set());
}

proof fn lemma_variable_errors(
    names: Seq<Seq<char>>,
    other: Set<Seq<char>>,
    kind: ValidationErrorKind,
    label: Seq<char>,
)
    ensures
        only_kind(variable_errors(names, other, kind, label), kind),
        has_kind(variable_errors(names, other, kind, label), kind) <==> exists|n: Seq<char>|
            names.contains(n) && !other.contains(n),
    decreases names.len(),
{
    if names.len() > 0 {
        let prev = variable_errors(names.drop_last(), other, kind, label);
        lemma_variable_errors(names.drop_last(), other, kind, label);
        assert(names =~= names.drop_last().push(names.last()));
        let n = names.last();
        if !other.contains(n) {
            lemma_has_kind_push(
                prev,
                verr(
                    kind,
                    if kind == ValidationErrorKind::UndefinedVariable {
                        msg_undefined_variable(label, n)
                    } else {
                        msg_unused_variable(label, n)
                    },
                ),
                kind,
            );
        }
        if exists|m: Seq<char>| names.contains(m) && !other.contains(m) {
            let m = choose|m: Seq<char>| names.contains(m) && !other.contains(m);
            if m != n {
                assert(names.drop_last().contains(m));
            }
        }
    }
}

proof fn lemma_operation_variable_errors(d: SpecDocument, op: SpecOperation)
    ensures
        has_kind(operation_variable_errors(d, op), ValidationErrorKind::UndefinedVariable)
            <==> exists|v: Seq<char>| used_vars(d, op).contains(v) && !declared_vars(op).contains(v),
        has_kind(operation_variable_errors(d, op), ValidationErrorKind::UnusedVariable)
            <==> exists|v: Seq<char>| declared_vars(op).contains(v) && !used_vars(d, op).contains(v),
        forall|k: ValidationErrorKind|
            k != ValidationErrorKind::UndefinedVariable && k != ValidationErrorKind::UnusedVariable
                ==> !has_kind(operation_variable_errors(d, op), k),
{
    broadcast use vstd::seq_lib::seq_to_set_is_finite;

    let uv = ValidationErrorKind::UndefinedVariable;
    let un = ValidationErrorKind::UnusedVariable;
    let used = used_vars(d, op);
    let declared = declared_vars(op);
    lemma_used_vars_finite(d, op);
    lemma_sorted_texts_exist(used);
    lemma_sorted_texts_exist(declared);
    let a = variable_errors(sorted_texts(used), declared, uv, operation_label(op));
    let b = variable_errors(sorted_texts(declared), used, un, operation_label(op));
    lemma_variable_errors(sorted_texts(used), declared, uv, operation_label(op));
    lemma_variable_errors(sorted_texts(declared), used, un, operation_label(op));
    assert forall|v: Seq<char>| sorted_texts(used).contains(v) <==> used.contains(v) by {
        assert(sorted_texts(used).to_set().contains(v) == sorted_texts(used).contains(v));
    }
    assert forall|v: Seq<char>| sorted_texts(declared).contains(v) <==> declared.contains(v) by {
        assert(sorted_texts(declared).to_set().contains(v) == sorted_texts(declared).contains(v));
    }
    if exists|v: Seq<char>| declared.contains(v) && !used.contains(v) {
        let v = choose|v: Seq<char>| declared.contains(v) && !used.contains(v);
        assert(sorted_texts(declared).contains(v));
    }
    if exists|v: Seq<char>| used.contains(v) && !declared.contains(v) {
        let v = choose|v: Seq<char>| used.contains(v) && !declared.contains(v);
        assert(sorted_texts(used).contains(v));
    }
    lemma_has_kind_concat(a, b, uv);
    lemma_has_kind_concat(a, b, un);
    lemma_only_excludes(b, un, uv);
    lemma_only_excludes(a, uv, un);
    assert forall|k: ValidationErrorKind| k != uv && k != un implies !has_kind(a + b, k) by {
        lemma_has_kind_concat(a, b, k);
        lemma_only_excludes(a, uv, k);
        lemma_only_excludes(b, un, k);
    }
}

proof fn lemma_variable_errors_upto(d: SpecDocument, k: nat)
    requires
        k <= d.operations.len(),
    ensures
        has_kind(variable_errors_upto(d, k), ValidationErrorKind::UndefinedVariable)
            <==> exists|i: int, v: Seq<char>|
            0 <= i < k && #[trigger] used_vars(d, d.operations[i]).contains(v) && !declared_vars(
                d.operations[i],
            ).contains(v),
        has_kind(variable_errors_upto(d, k), ValidationErrorKind::UnusedVariable)
            <==> exists|i: int, v: Seq<char>|
            0 <= i < k && #[trigger] declared_vars(d.operations[i]).contains(v) && !used_vars(
                d,
                d.operations[i],
            ).contains(v),
        forall|kd: ValidationErrorKind|
            kd != ValidationErrorKind::UndefinedVariable && kd != ValidationErrorKind::UnusedVariable
                ==> !has_kind(variable_errors_upto(d, k), kd),
    decreases k,
{
    let uv = ValidationErrorKind::UndefinedVariable;
    let un = ValidationErrorKind::UnusedVariable;
    if k > 0 {
        lemma_variable_errors_upto(d, (k - 1) as nat);
        let op = d.operations[k - 1];
        let prev = variable_errors_upto(d, (k - 1) as nat);
        let cur = operation_variable_errors(d, op);
        lemma_operation_variable_errors(d, op);
        lemma_has_kind_concat(prev, cur, uv);
        lemma_has_kind_concat(prev, cur, un);
        assert forall|kd: ValidationErrorKind| kd != uv && kd != un implies !has_kind(
            prev + cur,
            kd,
        ) by {
            lemma_has_kind_concat(prev, cur, kd);
        }
        if exists|v: Seq<char>| used_vars(d, op).contains(v) && !declared_vars(op).contains(v) {
            let v = choose|v: Seq<char>| used_vars(d, op).contains(v) && !declared_vars(op).contains(v);
            assert(used_vars(d, d.operations[k - 1]).contains(v));
        }
        if exists|v: Seq<char>| declared_vars(op).contains(v) && !used_vars(d, op).contains(v) {
            let v = choose|v: Seq<char>| declared_vars(op).contains(v) && !used_vars(d, op).contains(v);
            assert(declared_vars(d.operations[k - 1]).contains(v));
        }
        if exists|i: int, v: Seq<char>|
            0 <= i < k && #[trigger] used_vars(d, d.operations[i]).contains(v) && !declared_vars(
                d.operations[i],
            ).contains(v) {
            let (i, v) = choose|i: int, v: Seq<char>|
                0 <= i < k && #[trigger] used_vars(d, d.operations[i]).contains(v) && !declared_vars(
                    d.operations[i],
                ).contains(v);
            if i == k - 1 {
                assert(used_vars(d, op).contains(v) && !declared_vars(op).contains(v));
            }
        }
        if exists|i: int, v: Seq<char>|
            0 <= i < k && #[trigger] declared_vars(d.operations[i]).contains(v) && !used_vars(
                d,
                d.operations[i],
            ).contains(v) {
            let (i, v) = choose|i: int, v: Seq<char>|
                0 <= i < k && #[trigger] declared_vars(d.operations[i]).contains(v) && !used_vars(
                    d,
                    d.operations[i],
                ).contains(v);
            if i == k - 1 {
                assert(declared_vars(op).contains(v) && !used_vars(d, op).contains(v));
            }
        }
    } else {
        assert(variable_errors_upto(d, k) =~= Seq::<SpecValidationError>::empty());
    }
}

// ---------------------------------------------------------------------
// Field selection merging
// ---------------------------------------------------------------------

/// Two fields with the same response key that select different fields or
/// pass different arguments (in any order).
pub open spec fn fields_conflict(a: SpecSelection, b: SpecSelection) -> bool {
    match a {
        SpecSelection::Field(f) => match b {
            SpecSelection::Field(g) => response_key(f.alias, f.name) == response_key(g.alias, g.name)
                && (f.name != g.name || !same_arguments(f.arguments, g.arguments)),
            _ => false,
        },
        _ => false,
    }
}

/// Two fields directly in `sels` conflict.
pub open spec fn direct_conflict(sels: Seq<SpecSelection>) -> bool {
    exists|i: int, j: int| 0 <= i < j < sels.len() && fields_conflict(#[trigger] sels[i], #[trigger] sels[j])
}

/// Two fields conflict directly in `s` or in a selection set nested in it.
pub open spec fn set_has_conflict(s: SpecSelectionSet) -> bool
    decreases s,
{
    direct_conflict(s.selections) || sels_have_conflict(s.selections)
}

pub open spec fn sels_have_conflict(s: Seq<SpecSelection>) -> bool
    decreases s,
{
    if s.len() == 0 {
        false
    } else {
        sels_have_conflict(s.subrange(0, s.len() - 1)) || sel_has_conflict(s[s.len() - 1])
    }
}

pub open spec fn sel_has_conflict(sel: SpecSelection) -> bool
    decreases sel,
{
    match sel {
        SpecSelection::Field(f) => match f.selection_set {
            Some(sub) => set_has_conflict(sub),
            None => false,
        },
        SpecSelection::InlineFragment(inl) => set_has_conflict(inl.selection_set),
        SpecSelection::FragmentSpread(_) => false,
    }
}

/// Some operation or fragment has conflicting fields in one of its
/// selection sets.
pub open spec fn conflicting_fields(d: SpecDocument) -> bool {
    ||| exists|i: int|
        0 <= i < d.operations.len() && set_has_conflict(#[trigger] d.operations[i].selection_set)
    ||| exists|i: int|
        0 <= i < d.fragments.len() && set_has_conflict(#[trigger] d.fragments[i].selection_set)
}

/// The field at `j` disagrees with the first field before it that has
/// its response key.
spec fn conflicts_with_first(sels: Seq<SpecSelection>, j: int) -> bool {
    match sels[j] {
        SpecSelection::Field(g) => match first_with_key(
            sels,
            response_key(g.alias, g.name),
            j as nat,
        ) {
            Some((pn, pa)) => pn != g.name || !same_arguments(pa, g.arguments),
            None => false,
        },
        _ => false,
    }
}

spec fn field_with_key(sel: SpecSelection, key: Seq<char>) -> bool {
    match sel {
        SpecSelection::Field(f) => response_key(f.alias, f.name) == key,
        _ => false,
    }
}

proof fn lemma_fwk_stable(s: Seq<SpecSelection>, key: Seq<char>, m: nat, n: nat)
    requires
        m <= n <= s.len(),
        first_with_key(s, key, m) is Some,
    ensures
        first_with_key(s, key, n) == first_with_key(s, key, m),
    decreases n - m,
{
    if m < n {
        lemma_fwk_stable(s, key, m, (n - 1) as nat);
    }
}

proof fn lemma_fwk_exists(s: Seq<SpecSelection>, key: Seq<char>, i: int, m: nat)
    requires
        0 <= i < m <= s.len(),
        field_with_key(s[i], key),
    ensures
        first_with_key(s, key, m) is Some,
    decreases m,
{
    if i < m - 1 {
        lemma_fwk_exists(s, key, i, (m - 1) as nat);
    }
}

/// Where the first field with a response key stands.
proof fn lemma_fwk_index(s: Seq<SpecSelection>, key: Seq<char>, m: nat) -> (f0: int)
    requires
        m <= s.len(),
        first_with_key(s, key, m) is Some,
    ensures
        0 <= f0 < m,
        field_with_key(s[f0], key),
        first_with_key(s, key, f0 as nat) is None,
        first_with_key(s, key, (f0 + 1) as nat) == first_with_key(s, key, m),
        match s[f0] {
            SpecSelection::Field(f) => first_with_key(s, key, m) == Some((f.name, f.arguments)),
            _ => false,
        },
    decreases m,
{
    if first_with_key(s, key, (m - 1) as nat) is Some {
        lemma_fwk_index(s, key, (m - 1) as nat)
    } else {
        m - 1
    }
}

proof fn lemma_fwk_none(s: Seq<SpecSelection>, key: Seq<char>, m: nat, i: int)
    requires
        m <= s.len(),
        first_with_key(s, key, m) is None,
        0 <= i < m,
    ensures
        !field_with_key(s[i], key),
{
    if field_with_key(s[i], key) {
        lemma_fwk_exists(s, key, i, m);
    }
}

proof fn lemma_direct_upto(sels: Seq<SpecSelection>, k: nat)
    requires
        k <= sels.len(),
    ensures
        only_kind(direct_conflicts(sels, k), ValidationErrorKind::ConflictingFieldSelection),
        has_kind(direct_conflicts(sels, k), ValidationErrorKind::ConflictingFieldSelection)
            <==> exists|j: int| 0 <= j < k && #[trigger] conflicts_with_first(sels, j),
    decreases k,
{
    let cfs = ValidationErrorKind::ConflictingFieldSelection;
    if k > 0 {
        lemma_direct_upto(sels, (k - 1) as nat);
        let prev = direct_conflicts(sels, (k - 1) as nat);
        let last = conflicts_with_first(sels, k - 1);
        match sels[k - 1] {
            SpecSelection::Field(f) => {
                let key = response_key(f.alias, f.name);
                match first_with_key(sels, key, (k - 1) as nat) {
                    Some((pname, pargs)) => {
                        if pname != f.name {
                            lemma_has_kind_push(
                                prev,
                                verr(cfs, msg_conflicting_names(key, pname, f.name)),
                                cfs,
                            );
                        } else if !same_arguments(pargs, f.arguments) {
                            lemma_has_kind_push(
                                prev,
                                verr(cfs, msg_conflicting_arguments(key, f.name)),
                                cfs,
                            );
                        }
                    },
                    None => {},
                }
            },
            _ => {},
        }
        if exists|j: int| 0 <= j < k && #[trigger] conflicts_with_first(sels, j) {
            let j = choose|j: int| 0 <= j < k && #[trigger] conflicts_with_first(sels, j);
            if j < k - 1 {
                assert(exists|j2: int| 0 <= j2 < k - 1 && #[trigger] conflicts_with_first(sels, j2));
            }
        }
    }
}

proof fn lemma_direct(sels: Seq<SpecSelection>)
    ensures
        only_kind(
            direct_conflicts(sels, sels.len()),
            ValidationErrorKind::ConflictingFieldSelection,
        ),
        has_kind(direct_conflicts(sels, sels.len()), ValidationErrorKind::ConflictingFieldSelection)
            <==> direct_conflict(sels),
{
    lemma_direct_upto(sels, sels.len());
    if exists|j: int| 0 <= j < sels.len() && #[trigger] conflicts_with_first(sels, j) {
        let j = choose|j: int| 0 <= j < sels.len() && #[trigger] conflicts_with_first(sels, j);
        let g = sels[j]->Field_0;
        let key = response_key(g.alias, g.name);
        let f0 = lemma_fwk_index(sels, key, j as nat);
        assert(fields_conflict(sels[f0], sels[j]));
    }
    if direct_conflict(sels) {
        let (i, j) = choose|i: int, j: int|
            0 <= i < j < sels.len() && fields_conflict(#[trigger] sels[i], #[trigger] sels[j]);
        let fi = sels[i]->Field_0;
        let fj = sels[j]->Field_0;
        let key = response_key(fj.alias, fj.name);
        assert(field_with_key(sels[i], key));
        lemma_fwk_exists(sels, key, i, j as nat);
        let f0 = lemma_fwk_index(sels, key, j as nat);
        if !conflicts_with_first(sels, j) {
            if f0 > i {
                lemma_fwk_none(sels, key, f0 as nat, i);
            }
            if f0 == i {
                assert(first_with_key(sels, key, j as nat) == Some((fi.name, fi.arguments)));
            }
            assert(f0 < i);
            lemma_fwk_stable(sels, key, (f0 + 1) as nat, i as nat);
            assert(conflicts_with_first(sels, i));
        }
    }
}

proof fn lemma_set_conflicts(s: SpecSelectionSet)
    ensures
        only_kind(set_conflicts(s), ValidationErrorKind::ConflictingFieldSelection),
        has_kind(set_conflicts(s), ValidationErrorKind::ConflictingFieldSelection)
            <==> set_has_conflict(s),
    decreases s,
{
    lemma_direct(s.selections);
    lemma_nested_conflicts(s.selections);
    lemma_has_kind_concat(
        direct_conflicts(s.selections, s.selections.len()),
        nested_conflicts(s.selections),
        ValidationErrorKind::ConflictingFieldSelection,
    );
}

proof fn lemma_nested_conflicts(s: Seq<SpecSelection>)
    ensures
        only_kind(nested_conflicts(s), ValidationErrorKind::ConflictingFieldSelection),
        has_kind(nested_conflicts(s), ValidationErrorKind::ConflictingFieldSelection)
            <==> sels_have_conflict(s),
    decreases s,
{
    if s.len() > 0 {
        lemma_nested_conflicts(s.subrange(0, s.len() - 1));
        lemma_sel_conflicts(s[s.len() - 1]);
        lemma_has_kind_concat(
            nested_conflicts(s.subrange(0, s.len() - 1)),
            sel_conflicts(s[s.len() - 1]),
            ValidationErrorKind::ConflictingFieldSelection,
        );
    }
}

proof fn lemma_sel_conflicts(sel: SpecSelection)
    ensures
        only_kind(sel_conflicts(sel), ValidationErrorKind::ConflictingFieldSelection),
        has_kind(sel_conflicts(sel), ValidationErrorKind::ConflictingFieldSelection)
            <==> sel_has_conflict(sel),
    decreases sel,
{
    match sel {
        SpecSelection::Field(f) => match f.selection_set {
            Some(sub) => lemma_set_conflicts(sub),
            None => {},
        },
        SpecSelection::InlineFragment(inl) => lemma_set_conflicts(inl.selection_set),
        SpecSelection::FragmentSpread(_) => {},
    }
}

proof fn lemma_merging_ops(ops: Seq<SpecOperation>, k: nat)
    requires
        k <= ops.len(),
    ensures
        only_kind(merging_errors_ops(ops, k), ValidationErrorKind::ConflictingFieldSelection),
        has_kind(merging_errors_ops(ops, k), ValidationErrorKind::ConflictingFieldSelection)
            <==> exists|i: int| 0 <= i < k && set_has_conflict(#[trigger] ops[i].selection_set),
    decreases k,
{
    if k > 0 {
        lemma_merging_ops(ops, (k - 1) as nat);
        lemma_set_conflicts(ops[k - 1].selection_set);
        lemma_has_kind_concat(
            merging_errors_ops(ops, (k - 1) as nat),
            set_conflicts(ops[k - 1].selection_set),
            ValidationErrorKind::ConflictingFieldSelection,
        );
    }
}

proof fn lemma_merging_frags(frags: Seq<SpecFragment>, k: nat)
    requires
        k <= frags.len(),
    ensures
        only_kind(merging_errors_frags(frags, k), ValidationErrorKind::ConflictingFieldSelection),
        has_kind(merging_errors_frags(frags, k), ValidationErrorKind::ConflictingFieldSelection)
            <==> exists|i: int| 0 <= i < k && set_has_conflict(#[trigger] frags[i].selection_set),
    decreases k,
{
    if k > 0 {
        lemma_merging_frags(frags, (k - 1) as nat);
        lemma_set_conflicts(frags[k - 1].selection_set);
        lemma_has_kind_concat(
            merging_errors_frags(frags, (k - 1) as nat),
            set_conflicts(frags[k - 1].selection_set),
            ValidationErrorKind::ConflictingFieldSelection,
        );
    }
}

proof fn lemma_merging_errors(d: SpecDocument)
    ensures
        only_kind(merging_errors(d), ValidationErrorKind::ConflictingFieldSelection),
        has_kind(merging_errors(d), ValidationErrorKind::ConflictingFieldSelection)
            <==> conflicting_fields(d),
{
    lemma_merging_ops(d.operations, d.operations.len());
    lemma_merging_frags(d.fragments, d.fragments.len());
    lemma_has_kind_concat(
        merging_errors_ops(d.operations, d.operations.len()),
        merging_errors_frags(d.fragments, d.fragments.len()),
        ValidationErrorKind::ConflictingFieldSelection,
    );
}

// ---------------------------------------------------------------------
// The laws
// ---------------------------------------------------------------------

/// The errors of each rule are of its own kinds.
proof fn lemma_rule_kinds(d: SpecDocument)
    ensures
        only_kind(undefined_fragment_errors(d), ValidationErrorKind::UndefinedFragment),
        only_kind(fragment_cycle_errors(d), ValidationErrorKind::FragmentCycle),
        only_kind(unused_fragment_errors(d), ValidationErrorKind::UnusedFragment),
        only_kind(lone_anonymous_errors(d), ValidationErrorKind::LoneAnonymousOperation),
        only_kind(duplicate_name_errors(d), ValidationErrorKind::DuplicateOperationName),
        forall|k: ValidationErrorKind|
            k != ValidationErrorKind::UndefinedVariable && k != ValidationErrorKind::UnusedVariable
                ==> !has_kind(variable_errors_all(d), k),
        only_kind(merging_errors(d), ValidationErrorKind::ConflictingFieldSelection),
        has_kind(undefined_fragment_errors(d), ValidationErrorKind::UndefinedFragment)
            <==> spreads_undefined_fragment(d),
        has_kind(fragment_cycle_errors(d), ValidationErrorKind::FragmentCycle) <==> has_fragment_cycle(
            d,
        ),
        has_kind(unused_fragment_errors(d), ValidationErrorKind::UnusedFragment) <==> unused_fragment(
            d,
        ),
        has_kind(lone_anonymous_errors(d), ValidationErrorKind::LoneAnonymousOperation)
            <==> anonymous_beside_others(d),
        has_kind(duplicate_name_errors(d), ValidationErrorKind::DuplicateOperationName)
            <==> duplicate_operation_name(d),
        has_kind(variable_errors_all(d), ValidationErrorKind::UndefinedVariable)
            <==> uses_undefined_variable(d),
        has_kind(variable_errors_all(d), ValidationErrorKind::UnusedVariable)
            <==> defines_unused_variable(d),
        has_kind(merging_errors(d), ValidationErrorKind::ConflictingFieldSelection)
            <==> conflicting_fields(d),
{
    lemma_undefined_fragment_errors(d);
    lemma_fragment_cycle_errors(d);
    lemma_unused_fragment_errors(d);
    lemma_lone_anonymous_errors(d);
    lemma_duplicate_name_errors(d);
    lemma_variable_errors_upto(d, d.operations.len());
    lemma_merging_errors(d);
}

/// Which rules can report an error of kind `k`.
proof fn lemma_validation_kind(d: SpecDocument, k: ValidationErrorKind)
    ensures
        has_kind(validation_errors(d), k) == (has_kind(undefined_fragment_errors(d), k) || has_kind(
            fragment_cycle_errors(d),
            k,
        ) || has_kind(unused_fragment_errors(d), k) || has_kind(lone_anonymous_errors(d), k)
            || has_kind(duplicate_name_errors(d), k) || has_kind(variable_errors_all(d), k)
            || has_kind(merging_errors(d), k)),
{
    let a = undefined_fragment_errors(d);
    let b = fragment_cycle_errors(d);
    let c = unused_fragment_errors(d);
    let e = lone_anonymous_errors(d);
    let f = duplicate_name_errors(d);
    let g = variable_errors_all(d);
    let h = merging_errors(d);
    lemma_has_kind_concat(a, b, k);
    lemma_has_kind_concat(a + b, c, k);
    lemma_has_kind_concat(a + b + c, e, k);
    lemma_has_kind_concat(a + b + c + e, f, k);
    lemma_has_kind_concat(a + b + c + e + f, g, k);
    lemma_has_kind_concat(a + b + c + e + f + g, h, k);
}

proof fn lemma_only_rule(d: SpecDocument, k: ValidationErrorKind)
    ensures
        has_kind(validation_errors(d), k) == (if k == ValidationErrorKind::UndefinedFragment {
            spreads_undefined_fragment(d)
        } else if k == ValidationErrorKind::FragmentCycle {
            has_fragment_cycle(d)
        } else if k == ValidationErrorKind::UnusedFragment {
            unused_fragment(d)
        } else if k == ValidationErrorKind::LoneAnonymousOperation {
            anonymous_beside_others(d)
        } else if k == ValidationErrorKind::DuplicateOperationName {
            duplicate_operation_name(d)
        } else if k == ValidationErrorKind::UndefinedVariable {
            uses_undefined_variable(d)
        } else if k == ValidationErrorKind::UnusedVariable {
            defines_unused_variable(d)
        } else {
            conflicting_fields(d)
        }),
{
    lemma_rule_kinds(d);
    lemma_validation_kind(d, k);
    if k != ValidationErrorKind::UndefinedFragment {
        lemma_only_excludes(undefined_fragment_errors(d), ValidationErrorKind::UndefinedFragment, k);
    }
    if k != ValidationErrorKind::FragmentCycle {
        lemma_only_excludes(fragment_cycle_errors(d), ValidationErrorKind::FragmentCycle, k);
    }
    if k != ValidationErrorKind::UnusedFragment {
        lemma_only_excludes(unused_fragment_errors(d), ValidationErrorKind::UnusedFragment, k);
    }
    if k != ValidationErrorKind::LoneAnonymousOperation {
        lemma_only_excludes(lone_anonymous_errors(d), ValidationErrorKind::LoneAnonymousOperation, k);
    }
    if k != ValidationErrorKind::DuplicateOperationName {
        lemma_only_excludes(duplicate_name_errors(d), ValidationErrorKind::DuplicateOperationName, k);
    }
    if k != ValidationErrorKind::ConflictingFieldSelection {
        lemma_only_excludes(merging_errors(d), ValidationErrorKind::ConflictingFieldSelection, k);
    }
}

/// Validation reports an `UndefinedFragment` error exactly when an
/// operation or a fragment spreads a name that no fragment of the document
/// carries.
pub proof fn law_undefined_fragment(d: SpecDocument)
    ensures
        has_kind(validation_errors(d), ValidationErrorKind::UndefinedFragment)
            <==> spreads_undefined_fragment(d),
{
    lemma_only_rule(d, ValidationErrorKind::UndefinedFragment);
}

/// Validation reports a `FragmentCycle` error exactly when fragments spread
/// each other in a cycle, whether a fragment spreads itself or the cycle
/// runs through other fragments.
pub proof fn law_fragment_cycle(d: SpecDocument)
    ensures
        has_kind(validation_errors(d), ValidationErrorKind::FragmentCycle) <==> has_fragment_cycle(d),
{
    lemma_only_rule(d, ValidationErrorKind::FragmentCycle);
}

/// Validation reports an `UnusedFragment` error exactly when some fragment
/// is reached from no operation, neither directly nor through other
/// fragments.
pub proof fn law_unused_fragment(d: SpecDocument)
    ensures
        has_kind(validation_errors(d), ValidationErrorKind::UnusedFragment) <==> unused_fragment(d),
{
    lemma_only_rule(d, ValidationErrorKind::UnusedFragment);
}

/// Validation reports a `LoneAnonymousOperation` error exactly when an
/// anonymous operation stands beside other operations.
pub proof fn law_lone_anonymous_operation(d: SpecDocument)
    ensures
        has_kind(validation_errors(d), ValidationErrorKind::LoneAnonymousOperation)
            <==> anonymous_beside_others(d),
{
    lemma_only_rule(d, ValidationErrorKind::LoneAnonymousOperation);
}

/// Validation reports a `DuplicateOperationName` error exactly when two
/// operations carry the same name.
pub proof fn law_duplicate_operation_name(d: SpecDocument)
    ensures
        has_kind(validation_errors(d), ValidationErrorKind::DuplicateOperationName)
            <==> duplicate_operation_name(d),
{
    lemma_only_rule(d, ValidationErrorKind::DuplicateOperationName);
}

/// Validation reports an `UndefinedVariable` error exactly when an
/// operation uses a variable that it does not define, in its own selection
/// set or in a fragment that it reaches through spreads.
pub proof fn law_undefined_variable(d: SpecDocument)
    ensures
        has_kind(validation_errors(d), ValidationErrorKind::UndefinedVariable)
            <==> uses_undefined_variable(d),
{
    lemma_only_rule(d, ValidationErrorKind::UndefinedVariable);
}

/// Validation reports an `UnusedVariable` error exactly when an operation
/// defines a variable that neither it nor any fragment it reaches uses.
pub proof fn law_unused_variable(d: SpecDocument)
    ensures
        has_kind(validation_errors(d), ValidationErrorKind::UnusedVariable)
            <==> defines_unused_variable(d),
{
    lemma_only_rule(d, ValidationErrorKind::UnusedVariable);
}

/// Validation reports a `ConflictingFieldSelection` error exactly when two
/// fields directly in one selection set have the same response key but
/// select different fields or pass different arguments.
pub proof fn law_conflicting_fields(d: SpecDocument)
    ensures
        has_kind(validation_errors(d), ValidationErrorKind::ConflictingFieldSelection)
            <==> conflicting_fields(d),
{
    lemma_only_rule(d, ValidationErrorKind::ConflictingFieldSelection);
}

/// A document passes validation exactly when it breaks none of the rules.
pub proof fn law_valid_document(d: SpecDocument)
    ensures
        validation_errors(d).len() == 0 <==> {
            &&& !spreads_undefined_fragment(d)
            &&& !has_fragment_cycle(d)
            &&& !unused_fragment(d)
            &&& !anonymous_beside_others(d)
            &&& !duplicate_operation_name(d)
            &&& !uses_undefined_variable(d)
            &&& !defines_unused_variable(d)
            &&& !conflicting_fields(d)
        },
{
    let errs = validation_errors(d);
    lemma_only_rule(d, ValidationErrorKind::UndefinedFragment);
    lemma_only_rule(d, ValidationErrorKind::FragmentCycle);
    lemma_only_rule(d, ValidationErrorKind::UnusedFragment);
    lemma_only_rule(d, ValidationErrorKind::LoneAnonymousOperation);
    lemma_only_rule(d, ValidationErrorKind::DuplicateOperationName);
    lemma_only_rule(d, ValidationErrorKind::UndefinedVariable);
    lemma_only_rule(d, ValidationErrorKind::UnusedVariable);
    lemma_only_rule(d, ValidationErrorKind::ConflictingFieldSelection);
    if errs.len() > 0 {
        assert(has_kind(errs, errs[0].kind));
    }
}

/// Every `FragmentCycle` error of `errs` names a cycle of spreads.
spec fn cycle_errors_named(d: SpecDocument, errs: Seq<SpecValidationError>) -> bool {
    forall|k: int|
        0 <= k < errs.len() && (#[trigger] errs[k]).kind == ValidationErrorKind::FragmentCycle
            ==> names_a_cycle(d, errs[k].message)
}

proof fn lemma_named_concat(d: SpecDocument, a: Seq<SpecValidationError>, b: Seq<SpecValidationError>)
    requires
        cycle_errors_named(d, a),
        cycle_errors_named(d, b),
    ensures
        cycle_errors_named(d, a + b),
{
    assert forall|k: int|
        0 <= k < (a + b).len() && (#[trigger] (a + b)[k]).kind == ValidationErrorKind::FragmentCycle
            implies names_a_cycle(d, (a + b)[k].message) by {
        if k < a.len() {
            assert((a + b)[k] == a[k]);
        } else {
            assert((a + b)[k] == b[k - a.len()]);
        }
    }
}

proof fn lemma_named_none(d: SpecDocument, a: Seq<SpecValidationError>)
    requires
        !has_kind(a, ValidationErrorKind::FragmentCycle),
    ensures
        cycle_errors_named(d, a),
{
}

/// Every `FragmentCycle` error that validation reports names, in its
/// message, a cycle of spreads among the document's fragments: a chain
/// `A -> B -> ... -> A` in which each fragment spreads the next.
pub proof fn law_cycle_messages(d: SpecDocument)
    ensures
        forall|k: int|
            0 <= k < validation_errors(d).len() && (#[trigger] validation_errors(d)[k]).kind
                == ValidationErrorKind::FragmentCycle ==> names_a_cycle(
                d,
                validation_errors(d)[k].message,
            ),
{
    let fc = ValidationErrorKind::FragmentCycle;
    lemma_rule_kinds(d);
    lemma_search_upto_messages(d, d.fragments.len());
    let a = undefined_fragment_errors(d);
    let b = fragment_cycle_errors(d);
    let c = unused_fragment_errors(d);
    let e = lone_anonymous_errors(d);
    let f = duplicate_name_errors(d);
    let g = variable_errors_all(d);
    let h = merging_errors(d);
    lemma_only_excludes(a, ValidationErrorKind::UndefinedFragment, fc);
    lemma_only_excludes(c, ValidationErrorKind::UnusedFragment, fc);
    lemma_only_excludes(e, ValidationErrorKind::LoneAnonymousOperation, fc);
    lemma_only_excludes(f, ValidationErrorKind::DuplicateOperationName, fc);
    lemma_only_excludes(h, ValidationErrorKind::ConflictingFieldSelection, fc);
    lemma_named_none(d, a);
    lemma_named_none(d, c);
    lemma_named_none(d, e);
    lemma_named_none(d, f);
    lemma_named_none(d, g);
    lemma_named_none(d, h);
    assert(cycle_errors_named(d, b));
    lemma_named_concat(d, a, b);
    lemma_named_concat(d, a + b, c);
    lemma_named_concat(d, a + b + c, e);
    lemma_named_concat(d, a + b + c + e, f);
    lemma_named_concat(d, a + b + c + e + f, g);
    lemma_named_concat(d, a + b + c + e + f + g, h);
}

} // verus!
