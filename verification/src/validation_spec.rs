//! What `validate` reports, rule by rule, stated over the model of a
//! document.

use vstd::prelude::*;

use crate::ast::{
    SpecArgument, SpecDirective, SpecDocument, SpecFragment, SpecOperation, SpecSelection,
    SpecSelectionSet, SpecValue,
};

verus! {

/// The rule that a validation error breaks.
#[derive(Debug, Clone, Copy, PartialEq, Eq, Structural)]
pub enum ValidationErrorKind {
    /// A fragment spread names no fragment of the document.
    UndefinedFragment,
    /// Fragments spread each other in a cycle.
    FragmentCycle,
    /// A fragment is reached from no operation.
    UnusedFragment,
    /// An anonymous operation stands beside other operations.
    LoneAnonymousOperation,
    /// Two operations have the same name.
    DuplicateOperationName,
    /// A variable is used but not defined by its operation.
    UndefinedVariable,
    /// A variable is defined by an operation but not used.
    UnusedVariable,
    /// Two fields of one selection set with the same response key select
    /// different fields or pass different arguments.
    ConflictingFieldSelection,
}

/// The model of a validation error.
pub struct SpecValidationError {
    pub kind: ValidationErrorKind,
    pub message: Seq<char>,
}

pub open spec fn verr(kind: ValidationErrorKind, message: Seq<char>) -> SpecValidationError {
    SpecValidationError { kind, message }
}

/// How messages name an operation.
pub open spec fn operation_label(op: SpecOperation) -> Seq<char> {
    match op.name {
        Some(n) => "操作 `"@ + n + "`"@,
        None => "無名操作"@,
    }
}

pub open spec fn fragment_label(f: SpecFragment) -> Seq<char> {
    "フラグメント定義 `"@ + f.name + "`"@
}

// ---------------------------------------------------------------------
// Fragment spreads
// ---------------------------------------------------------------------

/// The names of the fragment spreads in a selection set, in document
/// order, descending into fields and inline fragments (not into the
/// fragments that the spreads name).
pub open spec fn set_spreads(s: SpecSelectionSet) -> Seq<Seq<char>>
    decreases s,
{
    sels_spreads(s.selections)
}

pub open spec fn sels_spreads(s: Seq<SpecSelection>) -> Seq<Seq<char>>
    decreases s,
{
    if s.len() == 0 {
        seq![]
    } else {
        sels_spreads(s.subrange(0, s.len() - 1)) + sel_spreads(s[s.len() - 1])
    }
}

pub open spec fn sel_spreads(sel: SpecSelection) -> Seq<Seq<char>>
    decreases sel,
{
    match sel {
        SpecSelection::Field(f) => match f.selection_set {
            Some(sub) => set_spreads(sub),
            None => seq![],
        },
        SpecSelection::FragmentSpread(sp) => seq![sp.name],
        SpecSelection::InlineFragment(inl) => set_spreads(inl.selection_set),
    }
}

/// The names of the fragments defined in the document.
pub open spec fn fragment_names(d: SpecDocument) -> Seq<Seq<char>> {
    d.fragments.map_values(|f: SpecFragment| f.name)
}

/// The definition that a name refers to: the last fragment with that name.
pub open spec fn find_fragment(frags: Seq<SpecFragment>, name: Seq<char>) -> Option<SpecFragment>
    decreases frags.len(),
{
    if frags.len() == 0 {
        None
    } else if frags.last().name == name {
        Some(frags.last())
    } else {
        find_fragment(frags.drop_last(), name)
    }
}

/// The names that the fragment called `name` spreads (none if undefined).
pub open spec fn fragment_deps(d: SpecDocument, name: Seq<char>) -> Seq<Seq<char>> {
    match find_fragment(d.fragments, name) {
        Some(f) => set_spreads(f.selection_set),
        None => seq![],
    }
}

// ---------------------------------------------------------------------
// Fragment spread target defined
// ---------------------------------------------------------------------

pub open spec fn msg_undefined_fragment(context: Seq<char>, name: Seq<char>) -> Seq<char> {
    context + "が参照するフラグメント `..."@ + name + "` は定義されていません"@
}

/// One error for each spread among `spreads` whose name is not defined.
pub open spec fn undefined_spread_errors(
    spreads: Seq<Seq<char>>,
    defined: Seq<Seq<char>>,
    context: Seq<char>,
) -> Seq<SpecValidationError>
    decreases spreads.len(),
{
    if spreads.len() == 0 {
        seq![]
    } else {
        let prev = undefined_spread_errors(spreads.drop_last(), defined, context);
        if defined.contains(spreads.last()) {
            prev
        } else {
            prev.push(
                verr(
                    ValidationErrorKind::UndefinedFragment,
                    msg_undefined_fragment(context, spreads.last()),
                ),
            )
        }
    }
}

pub open spec fn undefined_fragment_errors_ops(d: SpecDocument, k: nat) -> Seq<SpecValidationError>
    decreases k,
{
    if k == 0 || k > d.operations.len() {
        seq![]
    } else {
        let op = d.operations[k - 1];
        undefined_fragment_errors_ops(d, (k - 1) as nat) + undefined_spread_errors(
            set_spreads(op.selection_set),
            fragment_names(d),
            operation_label(op),
        )
    }
}

pub open spec fn undefined_fragment_errors_frags(d: SpecDocument, k: nat) -> Seq<
    SpecValidationError,
>
    decreases k,
{
    if k == 0 || k > d.fragments.len() {
        seq![]
    } else {
        let f = d.fragments[k - 1];
        undefined_fragment_errors_frags(d, (k - 1) as nat) + undefined_spread_errors(
            set_spreads(f.selection_set),
            fragment_names(d),
            fragment_label(f),
        )
    }
}

/// Rule "fragment spread target defined": every spread of an operation,
/// then of a fragment, in document order, that names no fragment.
pub open spec fn undefined_fragment_errors(d: SpecDocument) -> Seq<SpecValidationError> {
    undefined_fragment_errors_ops(d, d.operations.len()) + undefined_fragment_errors_frags(
        d,
        d.fragments.len(),
    )
}

// ---------------------------------------------------------------------
// Lone anonymous operation, operation name uniqueness
// ---------------------------------------------------------------------

pub open spec fn msg_lone_anonymous() -> Seq<char> {
    "無名操作は、文書内に他の操作が存在しない場合に限り許可されます"@
}

pub open spec fn anonymous_errors_upto(ops: Seq<SpecOperation>, k: nat) -> Seq<SpecValidationError>
    decreases k,
{
    if k == 0 || k > ops.len() {
        seq![]
    } else {
        let prev = anonymous_errors_upto(ops, (k - 1) as nat);
        if ops[k - 1].name is None {
            prev.push(verr(ValidationErrorKind::LoneAnonymousOperation, msg_lone_anonymous()))
        } else {
            prev
        }
    }
}

/// Rule "lone anonymous operation": where there is more than one
/// operation, one error per anonymous operation.
pub open spec fn lone_anonymous_errors(d: SpecDocument) -> Seq<SpecValidationError> {
    if d.operations.len() > 1 {
        anonymous_errors_upto(d.operations, d.operations.len())
    } else {
        seq![]
    }
}

/// Number of operations among the first `k` named `name`.
pub open spec fn name_count(ops: Seq<SpecOperation>, name: Seq<char>, k: nat) -> nat
    decreases k,
{
    if k == 0 || k > ops.len() {
        0
    } else {
        name_count(ops, name, (k - 1) as nat) + if ops[k - 1].name == Some(name) {
            1nat
        } else {
            0nat
        }
    }
}

pub open spec fn msg_duplicate_operation(name: Seq<char>, count: nat) -> Seq<char> {
    "操作名 `"@ + name + "` が文書内で"@ + crate::text::decimal_text(count)
        + "回定義されています(一意である必要があります)"@
}

pub open spec fn duplicate_errors_upto(ops: Seq<SpecOperation>, k: nat) -> Seq<SpecValidationError>
    decreases k,
{
    if k == 0 || k > ops.len() {
        seq![]
    } else {
        let prev = duplicate_errors_upto(ops, (k - 1) as nat);
        match ops[k - 1].name {
            Some(n) => if name_count(ops, n, (k - 1) as nat) == 0 && name_count(
                ops,
                n,
                ops.len(),
            ) > 1 {
                prev.push(
                    verr(
                        ValidationErrorKind::DuplicateOperationName,
                        msg_duplicate_operation(n, name_count(ops, n, ops.len())),
                    ),
                )
            } else {
                prev
            },
            None => prev,
        }
    }
}

/// Rule "operation name uniqueness": one error per name that more than one
/// operation carries, in the order of the names' first use.
pub open spec fn duplicate_name_errors(d: SpecDocument) -> Seq<SpecValidationError> {
    duplicate_errors_upto(d.operations, d.operations.len())
}

// ---------------------------------------------------------------------
// Field selection merging (within one selection set)
// ---------------------------------------------------------------------

/// The response key of a field: its alias, or else its name.
pub open spec fn response_key(alias: Option<Seq<char>>, name: Seq<char>) -> Seq<char> {
    match alias {
        Some(a) => a,
        None => name,
    }
}

/// The first field among `sels[0..k]` whose response key is `key`, as
/// (name, arguments).
pub open spec fn first_with_key(sels: Seq<SpecSelection>, key: Seq<char>, k: nat) -> Option<
    (Seq<char>, Seq<SpecArgument>),
>
    decreases k,
{
    if k == 0 || k > sels.len() {
        None
    } else {
        match first_with_key(sels, key, (k - 1) as nat) {
            Some(p) => Some(p),
            None => match sels[k - 1] {
                SpecSelection::Field(f) => if response_key(f.alias, f.name) == key {
                    Some((f.name, f.arguments))
                } else {
                    None
                },
                _ => None,
            },
        }
    }
}

pub open spec fn msg_conflicting_names(key: Seq<char>, first: Seq<char>, other: Seq<char>) -> Seq<
    char,
> {
    "レスポンスキー `"@ + key + "` が異なるフィールド(`"@ + first + "` と `"@ + other
        + "`)を指しています"@
}

pub open spec fn msg_conflicting_arguments(key: Seq<char>, name: Seq<char>) -> Seq<char> {
    "レスポンスキー `"@ + key + "` (フィールド `"@ + name + "`) が異なる引数で複数回選択されています"@
}

/// Two argument lists pass the same arguments: the order does not matter,
/// each argument of one, by name and value, is an argument of the other.
pub open spec fn same_arguments(a: Seq<SpecArgument>, b: Seq<SpecArgument>) -> bool {
    &&& forall|x: SpecArgument| a.contains(x) ==> b.contains(x)
    &&& forall|x: SpecArgument| b.contains(x) ==> a.contains(x)
}

/// The conflicts among the fields directly in `sels[0..k]`: a field whose
/// response key an earlier field already has, with another name or other
/// arguments.
pub open spec fn direct_conflicts(sels: Seq<SpecSelection>, k: nat) -> Seq<SpecValidationError>
    decreases k,
{
    if k == 0 || k > sels.len() {
        seq![]
    } else {
        let prev = direct_conflicts(sels, (k - 1) as nat);
        match sels[k - 1] {
            SpecSelection::Field(f) => {
                let key = response_key(f.alias, f.name);
                match first_with_key(sels, key, (k - 1) as nat) {
                    None => prev,
                    Some((pname, pargs)) => if pname != f.name {
                        prev.push(
                            verr(
                                ValidationErrorKind::ConflictingFieldSelection,
                                msg_conflicting_names(key, pname, f.name),
                            ),
                        )
                    } else if !same_arguments(pargs, f.arguments) {
                        prev.push(
                            verr(
                                ValidationErrorKind::ConflictingFieldSelection,
                                msg_conflicting_arguments(key, f.name),
                            ),
                        )
                    } else {
                        prev
                    },
                }
            },
            _ => prev,
        }
    }
}

/// The conflicts of a selection set, then of the selection sets nested in
/// its fields and inline fragments, in document order.
pub open spec fn set_conflicts(s: SpecSelectionSet) -> Seq<SpecValidationError>
    decreases s,
{
    direct_conflicts(s.selections, s.selections.len()) + nested_conflicts(s.selections)
}

pub open spec fn nested_conflicts(s: Seq<SpecSelection>) -> Seq<SpecValidationError>
    decreases s,
{
    if s.len() == 0 {
        seq![]
    } else {
        nested_conflicts(s.subrange(0, s.len() - 1)) + sel_conflicts(s[s.len() - 1])
    }
}

pub open spec fn sel_conflicts(sel: SpecSelection) -> Seq<SpecValidationError>
    decreases sel,
{
    match sel {
        SpecSelection::Field(f) => match f.selection_set {
            Some(sub) => set_conflicts(sub),
            None => seq![],
        },
        SpecSelection::InlineFragment(inl) => set_conflicts(inl.selection_set),
        SpecSelection::FragmentSpread(_) => seq![],
    }
}

pub open spec fn merging_errors_ops(ops: Seq<SpecOperation>, k: nat) -> Seq<SpecValidationError>
    decreases k,
{
    if k == 0 || k > ops.len() {
        seq![]
    } else {
        merging_errors_ops(ops, (k - 1) as nat) + set_conflicts(ops[k - 1].selection_set)
    }
}

pub open spec fn merging_errors_frags(frags: Seq<SpecFragment>, k: nat) -> Seq<SpecValidationError>
    decreases k,
{
    if k == 0 || k > frags.len() {
        seq![]
    } else {
        merging_errors_frags(frags, (k - 1) as nat) + set_conflicts(frags[k - 1].selection_set)
    }
}

/// Rule "field selection merging" (within each selection set): operations
/// first, then fragments.
pub open spec fn merging_errors(d: SpecDocument) -> Seq<SpecValidationError> {
    merging_errors_ops(d.operations, d.operations.len()) + merging_errors_frags(
        d.fragments,
        d.fragments.len(),
    )
}

// ---------------------------------------------------------------------
// Fragments must not form cycles
// ---------------------------------------------------------------------

/// Names joined by `" -> "`.
pub open spec fn join_arrow(names: Seq<Seq<char>>) -> Seq<char>
    decreases names.len(),
{
    if names.len() == 0 {
        seq![]
    } else if names.len() == 1 {
        names[0]
    } else {
        join_arrow(names.drop_last()) + " -> "@ + names.last()
    }
}

/// Where `x` first stands in `s` (0 where it does not).
pub open spec fn position_of(s: Seq<Seq<char>>, x: Seq<char>) -> int
    decreases s.len(),
{
    if s.len() == 0 || s[0] == x {
        0
    } else {
        1 + position_of(s.drop_first(), x)
    }
}

/// The message for a spread of `next` while the fragments of `stack` are
/// being visited: the path from `next` down the stack, and back to it.
pub open spec fn msg_cycle(stack: Seq<Seq<char>>, next: Seq<char>) -> Seq<char> {
    "フラグメントの循環参照を検出しました: "@ + join_arrow(
        stack.subrange(position_of(stack, next), stack.len() as int),
    ) + " -> "@ + next
}

/// The state of the depth-first search for cycles: the fragments finished,
/// in the order they were finished, and the errors found.
pub struct CycleSearch {
    pub done: Seq<Seq<char>>,
    pub errors: Seq<SpecValidationError>,
}

/// The number of defined fragment names not on the stack.
pub open spec fn unvisited_count(d: SpecDocument, stack: Seq<Seq<char>>) -> nat {
    fragment_names(d).to_set().difference(stack.to_set()).len()
}

pub proof fn lemma_unvisited_step(d: SpecDocument, stack: Seq<Seq<char>>, next: Seq<char>)
    requires
        fragment_names(d).contains(next),
        !stack.contains(next),
    ensures
        unvisited_count(d, stack.push(next)) < unvisited_count(d, stack),
{
    broadcast use vstd::set::group_set_axioms, vstd::seq_lib::seq_to_set_is_finite;

    let all = fragment_names(d).to_set();
    let a = all.difference(stack.to_set());
    stack.lemma_push_to_set_commute(next);
    assert(all.difference(stack.push(next).to_set()) =~= a.remove(next));
    vstd::set::axiom_set_difference_finite(all, stack.to_set());
    assert(a.contains(next));
    vstd::set::axiom_set_remove_len(a, next);
}

/// The search from the spreads `deps[j..]` of the fragment on top of
/// `stack`: a spread of a fragment on the stack is a cycle; one of a
/// finished or undefined fragment is passed over; any other fragment is
/// visited in turn, then finished.
pub open spec fn search_spreads(
    d: SpecDocument,
    stack: Seq<Seq<char>>,
    deps: Seq<Seq<char>>,
    j: nat,
    st: CycleSearch,
) -> CycleSearch
    decreases unvisited_count(d, stack), deps.len() - j,
{
    if j >= deps.len() {
        st
    } else {
        let next = deps[j as int];
        let st1 = if stack.contains(next) {
            CycleSearch {
                done: st.done,
                errors: st.errors.push(verr(ValidationErrorKind::FragmentCycle, msg_cycle(stack, next))),
            }
        } else if st.done.contains(next) || !fragment_names(d).contains(next) {
            st
        } else {
            proof {
                lemma_unvisited_step(d, stack, next);
            }
            let inner = search_spreads(d, stack.push(next), fragment_deps(d, next), 0, st);
            CycleSearch { done: inner.done.push(next), errors: inner.errors }
        };
        search_spreads(d, stack, deps, j + 1, st1)
    }
}

/// The search started, in document order, from each fragment not yet
/// finished among `d.fragments[0..k]`.
pub open spec fn cycle_search_upto(d: SpecDocument, k: nat) -> CycleSearch
    decreases k,
{
    if k == 0 || k > d.fragments.len() {
        CycleSearch { done: seq![], errors: seq![] }
    } else {
        let st1 = cycle_search_upto(d, (k - 1) as nat);
        let start = d.fragments[k - 1].name;
        if st1.done.contains(start) {
            st1
        } else {
            let inner = search_spreads(d, seq![start], fragment_deps(d, start), 0, st1);
            CycleSearch { done: inner.done.push(start), errors: inner.errors }
        }
    }
}

/// Rule "fragments must not form cycles": one error each time the
/// depth-first search meets a spread of a fragment that it is visiting.
pub open spec fn fragment_cycle_errors(d: SpecDocument) -> Seq<SpecValidationError> {
    cycle_search_upto(d, d.fragments.len()).errors
}

// ---------------------------------------------------------------------
// Reachability through fragment spreads
// ---------------------------------------------------------------------

/// `c` is a chain of fragment names, each spread by the fragment that the
/// name before it refers to.
pub open spec fn is_chain(d: SpecDocument, c: Seq<Seq<char>>) -> bool {
    &&& c.len() > 0
    &&& forall|k: int| 0 <= k < c.len() - 1 ==> #[trigger] fragment_deps(d, c[k]).contains(c[k + 1])
}

/// `name` is reached from one of `roots` through fragment spreads.
pub open spec fn reachable_from(d: SpecDocument, roots: Seq<Seq<char>>, name: Seq<char>) -> bool {
    exists|c: Seq<Seq<char>>| #[trigger] is_chain(d, c) && roots.contains(c[0]) && c.last() == name
}

/// The spreads of the operations `ops[0..k]`, in order.
pub open spec fn ops_spreads(ops: Seq<SpecOperation>, k: nat) -> Seq<Seq<char>>
    decreases k,
{
    if k == 0 || k > ops.len() {
        seq![]
    } else {
        ops_spreads(ops, (k - 1) as nat) + set_spreads(ops[k - 1].selection_set)
    }
}

/// The names that the operations spread directly.
pub open spec fn operation_roots(d: SpecDocument) -> Seq<Seq<char>> {
    ops_spreads(d.operations, d.operations.len())
}

pub open spec fn msg_unused_fragment(name: Seq<char>) -> Seq<char> {
    "フラグメント `"@ + name + "` はどの操作からも参照されていません(未使用)"@
}

pub open spec fn unused_errors_upto(d: SpecDocument, k: nat) -> Seq<SpecValidationError>
    decreases k,
{
    if k == 0 || k > d.fragments.len() {
        seq![]
    } else {
        let prev = unused_errors_upto(d, (k - 1) as nat);
        let name = d.fragments[k - 1].name;
        if reachable_from(d, operation_roots(d), name) {
            prev
        } else {
            prev.push(verr(ValidationErrorKind::UnusedFragment, msg_unused_fragment(name)))
        }
    }
}

/// Rule "fragments must be used": one error per fragment definition, in
/// order, whose name no operation reaches through fragment spreads.
pub open spec fn unused_fragment_errors(d: SpecDocument) -> Seq<SpecValidationError> {
    unused_errors_upto(d, d.fragments.len())
}

// ---------------------------------------------------------------------
// Variables
// ---------------------------------------------------------------------

/// The variables that a value refers to, in order.
pub open spec fn value_vars(v: SpecValue) -> Seq<Seq<char>>
    decreases v,
{
    match v {
        SpecValue::Variable(n) => seq![n],
        SpecValue::List(items) => values_vars(items),
        SpecValue::Object(fields) => entries_vars(fields),
        _ => seq![],
    }
}

pub open spec fn values_vars(s: Seq<SpecValue>) -> Seq<Seq<char>>
    decreases s,
{
    if s.len() == 0 {
        seq![]
    } else {
        values_vars(s.subrange(0, s.len() - 1)) + value_vars(s[s.len() - 1])
    }
}

pub open spec fn entries_vars(s: Seq<(Seq<char>, SpecValue)>) -> Seq<Seq<char>>
    decreases s,
{
    if s.len() == 0 {
        seq![]
    } else {
        entries_vars(s.subrange(0, s.len() - 1)) + value_vars(s[s.len() - 1].1)
    }
}

pub open spec fn args_vars(s: Seq<SpecArgument>) -> Seq<Seq<char>>
    decreases s.len(),
{
    if s.len() == 0 {
        seq![]
    } else {
        args_vars(s.drop_last()) + value_vars(s.last().value)
    }
}

pub open spec fn dirs_vars(s: Seq<SpecDirective>) -> Seq<Seq<char>>
    decreases s.len(),
{
    if s.len() == 0 {
        seq![]
    } else {
        dirs_vars(s.drop_last()) + args_vars(s.last().arguments)
    }
}

/// The variables used in a selection set itself: in the arguments and
/// directives of its fields, inline fragments and fragment spreads, but
/// not in the fragments that the spreads name.
pub open spec fn set_vars(s: SpecSelectionSet) -> Seq<Seq<char>>
    decreases s,
{
    sels_vars(s.selections)
}

pub open spec fn sels_vars(s: Seq<SpecSelection>) -> Seq<Seq<char>>
    decreases s,
{
    if s.len() == 0 {
        seq![]
    } else {
        sels_vars(s.subrange(0, s.len() - 1)) + sel_vars(s[s.len() - 1])
    }
}

pub open spec fn sel_vars(sel: SpecSelection) -> Seq<Seq<char>>
    decreases sel,
{
    match sel {
        SpecSelection::Field(f) => args_vars(f.arguments) + dirs_vars(f.directives) + match f.selection_set {
            Some(sub) => set_vars(sub),
            None => seq![],
        },
        SpecSelection::FragmentSpread(sp) => dirs_vars(sp.directives),
        SpecSelection::InlineFragment(inl) => dirs_vars(inl.directives) + set_vars(inl.selection_set),
    }
}

/// The variables used by the fragment that `name` refers to, in its
/// directives and its selection set.
pub open spec fn fragment_vars(d: SpecDocument, name: Seq<char>) -> Seq<Seq<char>> {
    match find_fragment(d.fragments, name) {
        Some(f) => dirs_vars(f.directives) + set_vars(f.selection_set),
        None => seq![],
    }
}

/// The variables that an operation uses: in its directives, its selection
/// set, and every fragment that its selection set reaches through spreads.
pub open spec fn used_vars(d: SpecDocument, op: SpecOperation) -> Set<Seq<char>> {
    Set::new(
        |v: Seq<char>|
            dirs_vars(op.directives).contains(v) || set_vars(op.selection_set).contains(v) || exists|
                n: Seq<char>,
            |
                reachable_from(d, set_spreads(op.selection_set), n) && #[trigger] fragment_vars(
                    d,
                    n,
                ).contains(v),
    )
}

/// The names of an operation's variable definitions, in order.
pub open spec fn variable_names(op: SpecOperation) -> Seq<Seq<char>> {
    op.variable_definitions.map_values(|v: crate::ast::SpecVariableDefinition| v.name)
}

/// The variables that an operation defines.
pub open spec fn declared_vars(op: SpecOperation) -> Set<Seq<char>> {
    variable_names(op).to_set()
}

/// Lexicographic order of texts by character code (the order of `String`).
pub open spec fn text_lt(a: Seq<char>, b: Seq<char>) -> bool
    decreases a.len(),
{
    if a.len() == 0 {
        b.len() > 0
    } else if b.len() == 0 {
        false
    } else if (a[0] as u32) < (b[0] as u32) {
        true
    } else if a[0] == b[0] {
        text_lt(a.skip(1), b.skip(1))
    } else {
        false
    }
}

pub open spec fn strictly_sorted(q: Seq<Seq<char>>) -> bool {
    forall|i: int, j: int| 0 <= i < j < q.len() ==> text_lt(#[trigger] q[i], #[trigger] q[j])
}

/// The elements of a finite set of texts in ascending order.
pub open spec fn sorted_texts(s: Set<Seq<char>>) -> Seq<Seq<char>> {
    choose|q: Seq<Seq<char>>| strictly_sorted(q) && q.to_set() == s
}

pub proof fn lemma_text_lt_irreflexive(a: Seq<char>)
    ensures
        !text_lt(a, a),
    decreases a.len(),
{
    if a.len() > 0 {
        lemma_text_lt_irreflexive(a.skip(1));
    }
}

pub proof fn lemma_text_lt_transitive(a: Seq<char>, b: Seq<char>, c: Seq<char>)
    requires
        text_lt(a, b),
        text_lt(b, c),
    ensures
        text_lt(a, c),
    decreases a.len(),
{
    if a.len() > 0 && b.len() > 0 && c.len() > 0 && a[0] == b[0] && b[0] == c[0] {
        lemma_text_lt_transitive(a.skip(1), b.skip(1), c.skip(1));
    }
}

pub proof fn lemma_text_lt_total(a: Seq<char>, b: Seq<char>)
    requires
        a != b,
    ensures
        text_lt(a, b) || text_lt(b, a),
    decreases a.len(),
{
    if a.len() > 0 && b.len() > 0 && a[0] == b[0] {
        if a.skip(1) == b.skip(1) {
            assert(a.skip(1).len() == a.len() - 1 && b.skip(1).len() == b.len() - 1);
            assert forall|i: int| 0 <= i < a.len() implies a[i] == b[i] by {
                if i > 0 {
                    assert(a[i] == a.skip(1)[i - 1]);
                    assert(b[i] == b.skip(1)[i - 1]);
                }
            }
            assert(a =~= b);
        } else {
            lemma_text_lt_total(a.skip(1), b.skip(1));
        }
    } else if a.len() > 0 && b.len() > 0 {
        vstd::utf8::char_u32_cast(a[0], a[0] as u32);
        vstd::utf8::char_u32_cast(b[0], b[0] as u32);
        assert((a[0] as u32) != (b[0] as u32));
    } else if a.len() == 0 && b.len() == 0 {
        assert(a =~= b);
    }
}

proof fn lemma_sorted_tail(x: Seq<Seq<char>>)
    requires
        strictly_sorted(x),
        x.len() > 0,
    ensures
        strictly_sorted(x.drop_first()),
{
    assert forall|i: int, j: int| 0 <= i < j < x.drop_first().len() implies text_lt(
        #[trigger] x.drop_first()[i],
        #[trigger] x.drop_first()[j],
    ) by {
        assert(x.drop_first()[i] == x[i + 1] && x.drop_first()[j] == x[j + 1]);
    }
}

/// Two strictly ascending sequences of texts with the same elements are
/// equal.
pub proof fn lemma_sorted_texts_unique(x: Seq<Seq<char>>, y: Seq<Seq<char>>)
    requires
        strictly_sorted(x),
        strictly_sorted(y),
        x.to_set() == y.to_set(),
    ensures
        x == y,
    decreases x.len(),
{
    if x.len() == 0 {
        if y.len() > 0 {
            assert(y.to_set().contains(y[0]));
        }
        assert(x =~= y);
    } else if y.len() == 0 {
        assert(x.to_set().contains(x[0]));
    } else {
        assert(x.to_set().contains(x[0]));
        assert(y.to_set().contains(y[0]));
        let j = choose|j: int| 0 <= j < y.len() && y[j] == x[0];
        let i = choose|i: int| 0 <= i < x.len() && x[i] == y[0];
        if x[0] != y[0] {
            assert(text_lt(y[0], y[j]));
            assert(text_lt(x[0], x[i]));
            lemma_text_lt_transitive(x[0], y[0], x[0]);
            lemma_text_lt_irreflexive(x[0]);
        }
        let xt = x.drop_first();
        let yt = y.drop_first();
        assert forall|v: Seq<char>| xt.to_set().contains(v) implies yt.to_set().contains(v) by {
            let k = choose|k: int| 0 <= k < xt.len() && xt[k] == v;
            assert(x[k + 1] == v);
            assert(text_lt(x[0], x[k + 1]));
            lemma_text_lt_irreflexive(v);
            assert(y.to_set().contains(v));
            let m = choose|m: int| 0 <= m < y.len() && y[m] == v;
            assert(m != 0);
            assert(yt[m - 1] == v);
        }
        assert forall|v: Seq<char>| yt.to_set().contains(v) implies xt.to_set().contains(v) by {
            let k = choose|k: int| 0 <= k < yt.len() && yt[k] == v;
            assert(y[k + 1] == v);
            assert(text_lt(y[0], y[k + 1]));
            lemma_text_lt_irreflexive(v);
            assert(x.to_set().contains(v));
            let m = choose|m: int| 0 <= m < x.len() && x[m] == v;
            assert(m != 0);
            assert(xt[m - 1] == v);
        }
        assert(xt.to_set() =~= yt.to_set());
        lemma_sorted_tail(x);
        lemma_sorted_tail(y);
        lemma_sorted_texts_unique(xt, yt);
        assert(x =~= y) by {
            assert forall|k: int| 0 <= k < x.len() implies x[k] == y[k] by {
                if k > 0 {
                    assert(x[k] == xt[k - 1] && y[k] == yt[k - 1]);
                }
            }
        }
    }
}

/// A strictly ascending sequence of texts is the ascending order of its
/// elements.
pub proof fn lemma_sorted_texts(q: Seq<Seq<char>>)
    requires
        strictly_sorted(q),
    ensures
        sorted_texts(q.to_set()) == q,
{
    let s = q.to_set();
    assert(strictly_sorted(q) && q.to_set() == s);
    let r = sorted_texts(s);
    lemma_sorted_texts_unique(r, q);
}

/// `a` is `b` or comes before it.
pub open spec fn text_le(a: Seq<char>, b: Seq<char>) -> bool {
    a == b || text_lt(a, b)
}

proof fn lemma_text_le_total_ordering()
    ensures
        vstd::relations::total_ordering(|a: Seq<char>, b: Seq<char>| text_le(a, b)),
{
    let r = |a: Seq<char>, b: Seq<char>| text_le(a, b);
    assert forall|x: Seq<char>, y: Seq<char>| #[trigger] r(x, y) && #[trigger] r(y, x) implies x
        == y by {
        if x != y {
            lemma_text_lt_transitive(x, y, x);
            lemma_text_lt_irreflexive(x);
        }
    }
    assert forall|x: Seq<char>, y: Seq<char>, z: Seq<char>| #[trigger] r(x, y) && #[trigger] r(
        y,
        z,
    ) implies r(x, z) by {
        if x != y && y != z {
            lemma_text_lt_transitive(x, y, z);
        }
    }
    assert forall|x: Seq<char>, y: Seq<char>| #[trigger] r(x, y) || #[trigger] r(y, x) by {
        if x != y {
            lemma_text_lt_total(x, y);
        }
    }
}

proof fn lemma_to_seq_no_duplicates(s: Set<Seq<char>>)
    requires
        s.finite(),
    ensures
        s.to_seq().no_duplicates(),
    decreases s.len(),
{
    broadcast use vstd::set::group_set_axioms;

    if s.len() > 0 {
        let x = s.choose();
        vstd::set_lib::lemma_set_empty_equivalency_len(s);
        assert(s.contains(x));
        let rest = s.remove(x);
        lemma_to_seq_no_duplicates(rest);
        rest.lemma_to_seq_to_set_id();
        let q = s.to_seq();
        assert(q =~= seq![x] + rest.to_seq());
        assert(!rest.to_seq().contains(x)) by {
            if rest.to_seq().contains(x) {
                assert(rest.to_seq().to_set().contains(x));
            }
        }
        assert forall|i: int, j: int| 0 <= i < q.len() && 0 <= j < q.len() && i != j implies q[i]
            != q[j] by {
            if i > 0 && j > 0 {
                assert(q[i] == rest.to_seq()[i - 1] && q[j] == rest.to_seq()[j - 1]);
            } else if i == 0 {
                assert(q[j] == rest.to_seq()[j - 1]);
            } else {
                assert(q[i] == rest.to_seq()[i - 1]);
            }
        }
    }
}

/// Every finite set of texts has an ascending order, which holds exactly
/// its elements.
pub proof fn lemma_sorted_texts_exist(s: Set<Seq<char>>)
    requires
        s.finite(),
    ensures
        strictly_sorted(sorted_texts(s)),
        sorted_texts(s).to_set() == s,
{
    broadcast use vstd::seq_lib::group_to_multiset_ensures;

    let leq = |a: Seq<char>, b: Seq<char>| text_le(a, b);
    lemma_text_le_total_ordering();
    let u = s.to_seq();
    let q = u.sort_by(leq);
    u.lemma_sort_by_ensures(leq);
    s.lemma_to_seq_to_set_id();
    lemma_to_seq_no_duplicates(s);
    u.lemma_multiset_has_no_duplicates();
    assert forall|x: Seq<char>| q.to_multiset().contains(x) implies q.to_multiset().count(x) == 1 by {
        assert(u.to_multiset().count(x) == q.to_multiset().count(x));
    }
    q.lemma_multiset_has_no_duplicates_conv();
    assert forall|i: int, j: int| 0 <= i < j < q.len() implies text_lt(
        #[trigger] q[i],
        #[trigger] q[j],
    ) by {
        assert(leq(q[i], q[j]));
    }
    assert forall|x: Seq<char>| #[trigger] q.to_set().contains(x) <==> s.contains(x) by {
        assert(q.to_multiset().count(x) == u.to_multiset().count(x));
        assert(q.contains(x) <==> q.to_multiset().count(x) > 0);
        assert(u.contains(x) <==> u.to_multiset().count(x) > 0);
        assert(u.to_set().contains(x) == s.contains(x));
    }
    assert(q.to_set() =~= s);
    lemma_sorted_texts(q);
}

pub open spec fn msg_undefined_variable(label: Seq<char>, name: Seq<char>) -> Seq<char> {
    label + "内で使用されている変数 `$"@ + name + "` はこの操作の変数定義リストに存在しません"@
}

pub open spec fn msg_unused_variable(label: Seq<char>, name: Seq<char>) -> Seq<char> {
    label + "で宣言されている変数 `$"@ + name + "` は使用されていません"@
}

/// One error per name of `names` outside `other`.
pub open spec fn variable_errors(
    names: Seq<Seq<char>>,
    other: Set<Seq<char>>,
    kind: ValidationErrorKind,
    label: Seq<char>,
) -> Seq<SpecValidationError>
    decreases names.len(),
{
    if names.len() == 0 {
        seq![]
    } else {
        let prev = variable_errors(names.drop_last(), other, kind, label);
        let n = names.last();
        if other.contains(n) {
            prev
        } else {
            prev.push(
                verr(
                    kind,
                    if kind == ValidationErrorKind::UndefinedVariable {
                        msg_undefined_variable(label, n)
                    } else {
                        msg_unused_variable(label, n)
                    },
                ),
            )
        }
    }
}

/// The variable errors of one operation: used but undefined variables in
/// ascending order, then defined but unused ones in ascending order.
pub open spec fn operation_variable_errors(d: SpecDocument, op: SpecOperation) -> Seq<
    SpecValidationError,
> {
    variable_errors(
        sorted_texts(used_vars(d, op)),
        declared_vars(op),
        ValidationErrorKind::UndefinedVariable,
        operation_label(op),
    ) + variable_errors(
        sorted_texts(declared_vars(op)),
        used_vars(d, op),
        ValidationErrorKind::UnusedVariable,
        operation_label(op),
    )
}

pub open spec fn variable_errors_upto(d: SpecDocument, k: nat) -> Seq<SpecValidationError>
    decreases k,
{
    if k == 0 || k > d.operations.len() {
        seq![]
    } else {
        variable_errors_upto(d, (k - 1) as nat) + operation_variable_errors(d, d.operations[k - 1])
    }
}

/// Rules "all variable uses defined" and "variables are used", operation
/// by operation.
pub open spec fn variable_errors_all(d: SpecDocument) -> Seq<SpecValidationError> {
    variable_errors_upto(d, d.operations.len())
}

// ---------------------------------------------------------------------
// All rules
// ---------------------------------------------------------------------

/// Everything that validation reports of a document, rule after rule:
/// undefined fragments, fragment cycles, unused fragments, anonymous
/// operations beside others, duplicate operation names, variables, and
/// conflicting fields.
pub open spec fn validation_errors(d: SpecDocument) -> Seq<SpecValidationError> {
    undefined_fragment_errors(d) + fragment_cycle_errors(d) + unused_fragment_errors(d)
        + lone_anonymous_errors(d) + duplicate_name_errors(d) + variable_errors_all(d)
        + merging_errors(d)
}

} // verus!
