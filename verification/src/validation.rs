//! Validation of parsed documents: the rules of GraphQL validation that
//! need no schema, only the document itself.
//!
//! - Fragment spread target defined (`UndefinedFragment`)
//! - Fragments must not form cycles (`FragmentCycle`)
//! - Fragments must be used (`UnusedFragment`)
//! - Lone anonymous operation (`LoneAnonymousOperation`)
//! - Operation name uniqueness (`DuplicateOperationName`)
//! - All variable uses defined (`UndefinedVariable`) and variables are used
//!   (`UnusedVariable`), following fragment spreads transitively
//! - Field selection merging, for the fields directly within one selection
//!   set (`ConflictingFieldSelection`); conflicts that arise through
//!   fragment spreads are not looked for.
//!
//! The syntax tree keeps no source positions, so messages name the
//! operations, fragments and variables concerned instead. What is reported
//! is stated in `validation_spec`.

use vstd::prelude::*;

use crate::ast::{
    arguments_view, lemma_entries_view_index, lemma_selections_view_index, lemma_values_view_index,
    selections_view, value_view, Argument, Document, FragmentDefinition, OperationDefinition,
    Selection, SelectionSet, SpecArgument, SpecSelection, Value,
};
use crate::fragment_rules::{validate_fragment_cycles, validate_unused_fragments};
use crate::text::{concat, copy_string, decimal_string, owned, same_text};
use crate::variable_rules::validate_variables;
use crate::validation_spec::{
    anonymous_errors_upto, direct_conflicts, duplicate_errors_upto, first_with_key, fragment_label,
    fragment_names, lone_anonymous_errors, merging_errors, merging_errors_frags, merging_errors_ops,
    msg_undefined_fragment, name_count, nested_conflicts, operation_label, response_key, same_arguments,
    sel_conflicts, sel_spreads, sels_spreads, set_conflicts, set_spreads, undefined_fragment_errors,
    undefined_fragment_errors_frags, undefined_fragment_errors_ops, undefined_spread_errors,
    duplicate_name_errors, validation_errors, SpecValidationError, ValidationErrorKind,
};

verus! {

/// One validation error: the rule it breaks and a message that names what
/// is concerned.
#[derive(Debug, Clone, PartialEq)]
pub struct ValidationError {
    pub kind: ValidationErrorKind,
    pub message: String,
}

impl View for ValidationError {
    type V = SpecValidationError;

    open spec fn view(&self) -> SpecValidationError {
        SpecValidationError { kind: self.kind, message: self.message@ }
    }
}

impl ValidationError {
    /// The text that the error shows: `[Kind] message`.
    pub fn to_message(&self) -> (res: String)
        ensures
            res@ == "["@ + kind_name(self.kind) + "] "@ + self.message@,
    {
        let s = concat(owned("["), kind_name_string(self.kind).as_str());
        let s = concat(s, "] ");
        concat(s, self.message.as_str())
    }
}

/// The name of a rule, as `{:?}` writes it.
pub open spec fn kind_name(k: ValidationErrorKind) -> Seq<char> {
    match k {
        ValidationErrorKind::UndefinedFragment => "UndefinedFragment"@,
        ValidationErrorKind::FragmentCycle => "FragmentCycle"@,
        ValidationErrorKind::UnusedFragment => "UnusedFragment"@,
        ValidationErrorKind::LoneAnonymousOperation => "LoneAnonymousOperation"@,
        ValidationErrorKind::DuplicateOperationName => "DuplicateOperationName"@,
        ValidationErrorKind::UndefinedVariable => "UndefinedVariable"@,
        ValidationErrorKind::UnusedVariable => "UnusedVariable"@,
        ValidationErrorKind::ConflictingFieldSelection => "ConflictingFieldSelection"@,
    }
}

fn kind_name_string(k: ValidationErrorKind) -> (res: String)
    ensures
        res@ == kind_name(k),
{
    match k {
        ValidationErrorKind::UndefinedFragment => owned("UndefinedFragment"),
        ValidationErrorKind::FragmentCycle => owned("FragmentCycle"),
        ValidationErrorKind::UnusedFragment => owned("UnusedFragment"),
        ValidationErrorKind::LoneAnonymousOperation => owned("LoneAnonymousOperation"),
        ValidationErrorKind::DuplicateOperationName => owned("DuplicateOperationName"),
        ValidationErrorKind::UndefinedVariable => owned("UndefinedVariable"),
        ValidationErrorKind::UnusedVariable => owned("UnusedVariable"),
        ValidationErrorKind::ConflictingFieldSelection => owned("ConflictingFieldSelection"),
    }
}

/// The model of a list of errors.
pub open spec fn errors_view(v: Seq<ValidationError>) -> Seq<SpecValidationError> {
    v.map_values(|e: ValidationError| e@)
}

/// The model of a list of texts.
pub open spec fn texts(v: Seq<String>) -> Seq<Seq<char>> {
    v.map_values(|s: String| s@)
}

pub(crate) fn push_error(errors: &mut Vec<ValidationError>, kind: ValidationErrorKind, message: String)
    ensures
        errors_view(final(errors)@) == errors_view(old(errors)@).push(
            SpecValidationError { kind, message: message@ },
        ),
{
    let e = ValidationError { kind, message };
    errors.push(e);
    proof {
        assert(errors_view(errors@) =~= errors_view(old(errors)@).push(e@));
    }
}

pub(crate) fn push_text(v: &mut Vec<String>, s: String)
    ensures
        texts(final(v)@) == texts(old(v)@).push(s@),
        final(v)@ == old(v)@.push(s),
{
    v.push(s);
    proof {
        assert(texts(v@) =~= texts(old(v)@).push(s@));
    }
}

/// Whether `v` holds the text of `s`.
pub fn contains_text(v: &Vec<String>, s: &String) -> (res: bool)
    ensures
        res == texts(v@).contains(s@),
{
    let mut i: usize = 0;
    while i < v.len()
        invariant
            i <= v@.len(),
            forall|j: int| 0 <= j < i ==> v@[j]@ != s@,
        decreases v.len() - i,
    {
        if same_text(&v[i], s) {
            proof {
                assert(texts(v@)[i as int] == s@);
            }
            return true;
        }
        i = i + 1;
    }
    proof {
        if texts(v@).contains(s@) {
            let j = choose|j: int| 0 <= j < texts(v@).len() && texts(v@)[j] == s@;
            assert(v@[j]@ == s@);
        }
    }
    false
}

proof fn lemma_set_spreads_step(sels: Seq<Selection>, i: int)
    requires
        0 <= i < sels.len(),
    ensures
        sels_spreads(selections_view(sels).subrange(0, i + 1)) == sels_spreads(
            selections_view(sels).subrange(0, i),
        ) + sel_spreads(sels[i]@),
{
    lemma_selections_view_index(sels);
    let sv = selections_view(sels);
    assert(sv.subrange(0, i + 1).subrange(0, i) =~= sv.subrange(0, i));
}

/// Appends the fragment spreads of a selection set (see `set_spreads`).
fn collect_spreads_set(set: &SelectionSet, out: &mut Vec<String>)
    ensures
        texts(final(out)@) == texts(old(out)@) + set_spreads(set@),
    decreases set,
{
    let mut i: usize = 0;
    proof {
        assert(texts(out@) + sels_spreads(selections_view(set.selections@).subrange(0, 0)) =~= texts(
            out@,
        ));
    }
    while i < set.selections.len()
        invariant
            i <= set.selections@.len(),
            texts(out@) == texts(old(out)@) + sels_spreads(
                selections_view(set.selections@).subrange(0, i as int),
            ),
        decreases set.selections.len() - i,
    {
        let ghost before = texts(out@);
        collect_spreads_sel(&set.selections[i], out);
        proof {
            lemma_set_spreads_step(set.selections@, i as int);
            assert(texts(out@) =~= texts(old(out)@) + sels_spreads(
                selections_view(set.selections@).subrange(0, i + 1),
            ));
        }
        i = i + 1;
    }
    proof {
        lemma_selections_view_index(set.selections@);
        assert(selections_view(set.selections@).subrange(0, set.selections@.len() as int)
            =~= selections_view(set.selections@));
    }
}

fn collect_spreads_sel(sel: &Selection, out: &mut Vec<String>)
    ensures
        texts(final(out)@) == texts(old(out)@) + sel_spreads(sel@),
    decreases sel,
{
    match sel {
        Selection::Field(f) => {
            match &f.selection_set {
                Some(sub) => collect_spreads_set(sub, out),
                None => {
                    proof {
                        assert(texts(out@) + Seq::<Seq<char>>::empty() =~= texts(out@));
                    }
                },
            }
        },
        Selection::FragmentSpread(sp) => {
            push_text(out, sp.name.clone());
            proof {
                assert(texts(old(out)@).push(sp.name@) =~= texts(old(out)@) + seq![sp.name@]);
            }
        },
        Selection::InlineFragment(inl) => collect_spreads_set(&inl.selection_set, out),
    }
}

/// The fragment spreads of a selection set.
pub(crate) fn spreads_of(set: &SelectionSet) -> (res: Vec<String>)
    ensures
        texts(res@) == set_spreads(set@),
{
    let mut out: Vec<String> = Vec::new();
    proof {
        assert(texts(out@) =~= Seq::<Seq<char>>::empty());
    }
    collect_spreads_set(set, &mut out);
    proof {
        assert(Seq::<Seq<char>>::empty() + set_spreads(set@) =~= set_spreads(set@));
    }
    out
}

/// The names of the fragments of the document, in order.
pub(crate) fn names_of_fragments(d: &Document) -> (res: Vec<String>)
    ensures
        texts(res@) == fragment_names(d@),
{
    let mut out: Vec<String> = Vec::new();
    let mut i: usize = 0;
    while i < d.fragments.len()
        invariant
            i <= d.fragments@.len(),
            texts(out@) == fragment_names(d@).subrange(0, i as int),
        decreases d.fragments.len() - i,
    {
        push_text(&mut out, d.fragments[i].name.clone());
        proof {
            assert(fragment_names(d@).subrange(0, i + 1) =~= fragment_names(d@).subrange(
                0,
                i as int,
            ).push(d.fragments@[i as int].name@));
        }
        i = i + 1;
    }
    proof {
        assert(fragment_names(d@).subrange(0, i as int) =~= fragment_names(d@));
    }
    out
}

pub(crate) fn label_of_operation(op: &OperationDefinition) -> (res: String)
    ensures
        res@ == operation_label(op@),
{
    match &op.name {
        Some(n) => concat(concat(owned("操作 `"), n.as_str()), "`"),
        None => owned("無名操作"),
    }
}

fn label_of_fragment(f: &FragmentDefinition) -> (res: String)
    ensures
        res@ == fragment_label(f@),
{
    concat(concat(owned("フラグメント定義 `"), f.name.as_str()), "`")
}

/// Validates a document and returns every error found, rule after rule
/// (see `validation_errors`); an empty list means the document passed.
pub fn validate(document: &Document) -> (res: Vec<ValidationError>)
    ensures
        errors_view(res@) == validation_errors(document@),
{
    let mut errors: Vec<ValidationError> = Vec::new();
    proof {
        assert(errors_view(errors@) =~= Seq::<SpecValidationError>::empty());
    }
    let defined = names_of_fragments(document);
    validate_known_fragment_names(document, &defined, &mut errors);
    validate_fragment_cycles(document, &mut errors);
    validate_unused_fragments(document, &mut errors);
    validate_operations(document, &mut errors);
    validate_variables(document, &mut errors);
    validate_field_selection_merging(document, &mut errors);
    proof {
        assert(errors_view(errors@) =~= validation_errors(document@));
    }
    errors
}

/// One error for each spread that names no defined fragment.
fn report_undefined_spreads(
    spreads: &Vec<String>,
    defined: &Vec<String>,
    context: &String,
    errors: &mut Vec<ValidationError>,
)
    ensures
        errors_view(final(errors)@) == errors_view(old(errors)@) + undefined_spread_errors(
            texts(spreads@),
            texts(defined@),
            context@,
        ),
{
    let mut i: usize = 0;
    proof {
        assert(texts(spreads@).subrange(0, 0) =~= Seq::<Seq<char>>::empty());
        assert(errors_view(errors@) + Seq::<SpecValidationError>::empty() =~= errors_view(errors@));
    }
    while i < spreads.len()
        invariant
            i <= spreads@.len(),
            errors_view(errors@) == errors_view(old(errors)@) + undefined_spread_errors(
                texts(spreads@).subrange(0, i as int),
                texts(defined@),
                context@,
            ),
        decreases spreads.len() - i,
    {
        let ghost sub = texts(spreads@).subrange(0, i + 1);
        proof {
            assert(sub.drop_last() =~= texts(spreads@).subrange(0, i as int));
            assert(sub.last() == spreads@[i as int]@);
        }
        if !contains_text(defined, &spreads[i]) {
            let m = concat(
                concat(concat(copy_string(context), "が参照するフラグメント `..."), spreads[i].as_str()),
                "` は定義されていません",
            );
            let ghost before = errors_view(errors@);
            push_error(errors, ValidationErrorKind::UndefinedFragment, m);
            proof {
                assert(m@ == msg_undefined_fragment(context@, spreads@[i as int]@));
            }
        }
        i = i + 1;
    }
    proof {
        assert(texts(spreads@).subrange(0, i as int) =~= texts(spreads@));
    }
}

/// Rule "fragment spread target defined".
fn validate_known_fragment_names(d: &Document, defined: &Vec<String>, errors: &mut Vec<ValidationError>)
    requires
        texts(defined@) == fragment_names(d@),
    ensures
        errors_view(final(errors)@) == errors_view(old(errors)@) + undefined_fragment_errors(d@),
{
    let mut k: usize = 0;
    proof {
        assert(errors_view(errors@) + Seq::<SpecValidationError>::empty() =~= errors_view(errors@));
    }
    while k < d.operations.len()
        invariant
            k <= d.operations@.len(),
            texts(defined@) == fragment_names(d@),
            errors_view(errors@) == errors_view(old(errors)@) + undefined_fragment_errors_ops(
                d@,
                k as nat,
            ),
        decreases d.operations.len() - k,
    {
        let op = &d.operations[k];
        let spreads = spreads_of(&op.selection_set);
        let label = label_of_operation(op);
        let ghost before = errors_view(errors@);
        report_undefined_spreads(&spreads, defined, &label, errors);
        proof {
            assert(d@.operations[k as int] == op@);
            assert(errors_view(errors@) =~= errors_view(old(errors)@) + undefined_fragment_errors_ops(
                d@,
                (k + 1) as nat,
            ));
        }
        k = k + 1;
    }
    let ghost mid = errors_view(errors@);
    let mut k: usize = 0;
    while k < d.fragments.len()
        invariant
            k <= d.fragments@.len(),
            texts(defined@) == fragment_names(d@),
            errors_view(errors@) == mid + undefined_fragment_errors_frags(d@, k as nat),
            mid == errors_view(old(errors)@) + undefined_fragment_errors_ops(
                d@,
                d@.operations.len(),
            ),
        decreases d.fragments.len() - k,
    {
        let f = &d.fragments[k];
        let spreads = spreads_of(&f.selection_set);
        let label = label_of_fragment(f);
        report_undefined_spreads(&spreads, defined, &label, errors);
        proof {
            assert(d@.fragments[k as int] == f@);
            assert(errors_view(errors@) =~= mid + undefined_fragment_errors_frags(d@, (k + 1) as nat));
        }
        k = k + 1;
    }
    proof {
        assert(errors_view(errors@) =~= errors_view(old(errors)@) + undefined_fragment_errors(d@));
    }
}

/// Rules "lone anonymous operation" and "operation name uniqueness".
fn validate_operations(d: &Document, errors: &mut Vec<ValidationError>)
    ensures
        errors_view(final(errors)@) == errors_view(old(errors)@) + lone_anonymous_errors(d@)
            + duplicate_name_errors(d@),
{
    let ghost ops = d@.operations;
    let n = d.operations.len();
    if n > 1 {
        let mut k: usize = 0;
        proof {
            assert(errors_view(errors@) + Seq::<SpecValidationError>::empty() =~= errors_view(
                errors@,
            ));
        }
        while k < n
            invariant
                n == d.operations@.len(),
                ops == d@.operations,
                k <= n,
                errors_view(errors@) == errors_view(old(errors)@) + anonymous_errors_upto(
                    ops,
                    k as nat,
                ),
            decreases n - k,
        {
            proof {
                assert(ops[k as int] == d.operations@[k as int]@);
            }
            if d.operations[k].name.is_none() {
                push_error(
                    errors,
                    ValidationErrorKind::LoneAnonymousOperation,
                    owned("無名操作は、文書内に他の操作が存在しない場合に限り許可されます"),
                );
                proof {
                    assert(errors_view(errors@) =~= errors_view(old(errors)@) + anonymous_errors_upto(
                        ops,
                        (k + 1) as nat,
                    ));
                }
            }
            k = k + 1;
        }
    } else {
        proof {
            assert(errors_view(errors@) + Seq::<SpecValidationError>::empty() =~= errors_view(
                errors@,
            ));
        }
    }
    let ghost mid = errors_view(errors@);
    let mut k: usize = 0;
    proof {
        assert(mid + Seq::<SpecValidationError>::empty() =~= mid);
    }
    while k < n
        invariant
            n == d.operations@.len(),
            ops == d@.operations,
            k <= n,
            errors_view(errors@) == mid + duplicate_errors_upto(ops, k as nat),
        decreases n - k,
    {
        proof {
            assert(ops[k as int] == d.operations@[k as int]@);
        }
        if let Some(name) = &d.operations[k].name {
            let earlier = count_named(d, name, k);
            let total = count_named(d, name, n);
            if earlier == 0 && total > 1 {
                let m = concat(concat(owned("操作名 `"), name.as_str()), "` が文書内で");
                let m = concat(m, decimal_string(total).as_str());
                let m = concat(m, "回定義されています(一意である必要があります)");
                push_error(errors, ValidationErrorKind::DuplicateOperationName, m);
                proof {
                    assert(errors_view(errors@) =~= mid + duplicate_errors_upto(ops, (k + 1) as nat));
                }
            }
        }
        k = k + 1;
    }
    proof {
        assert(errors_view(errors@) =~= errors_view(old(errors)@) + lone_anonymous_errors(d@)
            + duplicate_name_errors(d@));
    }
}

/// Number of operations among the first `k` named `name`.
fn count_named(d: &Document, name: &String, k: usize) -> (res: usize)
    requires
        k <= d.operations@.len(),
    ensures
        res == name_count(d@.operations, name@, k as nat),
        res <= k,
{
    let mut c: usize = 0;
    let mut j: usize = 0;
    while j < k
        invariant
            j <= k <= d.operations@.len(),
            c == name_count(d@.operations, name@, j as nat),
            c <= j,
        decreases k - j,
    {
        proof {
            assert(d@.operations[j as int] == d.operations@[j as int]@);
        }
        match &d.operations[j].name {
            Some(n) => {
                if same_text(n, name) {
                    c = c + 1;
                }
            },
            None => {},
        }
        j = j + 1;
    }
    c
}

// ---------------------------------------------------------------------
// Equality of values and arguments
// ---------------------------------------------------------------------

/// Whether two values are equal (float literals by their text).
#[verifier::loop_isolation(false)]
pub fn values_equal(a: &Value, b: &Value) -> (res: bool)
    ensures
        res == (a@ == b@),
    decreases a,
{
    match a {
        Value::Variable(x) => match b {
            Value::Variable(y) => same_text(x, y),
            _ => false,
        },
        Value::Int(x) => match b {
            Value::Int(y) => *x == *y,
            _ => false,
        },
        Value::Float(x) => match b {
            Value::Float(y) => same_text(x, y),
            _ => false,
        },
        Value::String(x) => match b {
            Value::String(y) => same_text(x, y),
            _ => false,
        },
        Value::Boolean(x) => match b {
            Value::Boolean(y) => *x == *y,
            _ => false,
        },
        Value::Null => match b {
            Value::Null => true,
            _ => false,
        },
        Value::Enum(x) => match b {
            Value::Enum(y) => same_text(x, y),
            _ => false,
        },
        Value::List(xs) => match b {
            Value::List(ys) => {
                proof {
                    lemma_values_view_index(xs@);
                    lemma_values_view_index(ys@);
                }
                if xs.len() != ys.len() {
                    return false;
                }
                let mut i: usize = 0;
                while i < xs.len()
                    invariant
                        xs@.len() == ys@.len(),
                        i <= xs@.len(),
                        forall|j: int| 0 <= j < i ==> value_view(xs@[j]) == value_view(ys@[j]),
                    decreases xs.len() - i,
                {
                    if !values_equal(&xs[i], &ys[i]) {
                        proof {
                            assert(crate::ast::values_view(xs@)[i as int]
                                != crate::ast::values_view(ys@)[i as int]);
                        }
                        return false;
                    }
                    i = i + 1;
                }
                proof {
                    assert(crate::ast::values_view(xs@) =~= crate::ast::values_view(ys@));
                }
                true
            },
            _ => false,
        },
        Value::Object(xs) => match b {
            Value::Object(ys) => {
                proof {
                    lemma_entries_view_index(xs@);
                    lemma_entries_view_index(ys@);
                }
                if xs.len() != ys.len() {
                    return false;
                }
                let mut i: usize = 0;
                while i < xs.len()
                    invariant
                        xs@.len() == ys@.len(),
                        i <= xs@.len(),
                        forall|j: int|
                            0 <= j < i ==> xs@[j].0@ == ys@[j].0@ && value_view(xs@[j].1)
                                == value_view(ys@[j].1),
                    decreases xs.len() - i,
                {
                    if !same_text(&xs[i].0, &ys[i].0) || !values_equal(&xs[i].1, &ys[i].1) {
                        proof {
                            assert(crate::ast::entries_view(xs@)[i as int]
                                != crate::ast::entries_view(ys@)[i as int]);
                        }
                        return false;
                    }
                    i = i + 1;
                }
                proof {
                    assert(crate::ast::entries_view(xs@) =~= crate::ast::entries_view(ys@));
                }
                true
            },
            _ => false,
        },
    }
}

/// Whether `v` holds an argument with the name and the value of `x`.
fn contains_argument(v: &Vec<Argument>, x: &Argument) -> (res: bool)
    ensures
        res == arguments_view(v@).contains(x@),
{
    let mut i: usize = 0;
    while i < v.len()
        invariant
            i <= v@.len(),
            forall|j: int| 0 <= j < i ==> v@[j]@ != x@,
        decreases v.len() - i,
    {
        if same_text(&v[i].name, &x.name) && values_equal(&v[i].value, &x.value) {
            proof {
                assert(arguments_view(v@)[i as int] == x@);
            }
            return true;
        }
        i = i + 1;
    }
    proof {
        if arguments_view(v@).contains(x@) {
            let j = choose|j: int| 0 <= j < arguments_view(v@).len() && arguments_view(v@)[j] == x@;
            assert(v@[j]@ == x@);
        }
    }
    false
}

/// Whether every argument of `a` is an argument of `b`.
fn arguments_within(a: &Vec<Argument>, b: &Vec<Argument>) -> (res: bool)
    ensures
        res == forall|x: SpecArgument| arguments_view(a@).contains(x) ==> arguments_view(
            b@,
        ).contains(x),
{
    let mut i: usize = 0;
    while i < a.len()
        invariant
            i <= a@.len(),
            forall|j: int| 0 <= j < i ==> arguments_view(b@).contains(#[trigger] a@[j]@),
        decreases a.len() - i,
    {
        if !contains_argument(b, &a[i]) {
            proof {
                assert(arguments_view(a@)[i as int] == a@[i as int]@);
            }
            return false;
        }
        i = i + 1;
    }
    proof {
        assert forall|x: SpecArgument| arguments_view(a@).contains(x) implies arguments_view(
            b@,
        ).contains(x) by {
            let j = choose|j: int| 0 <= j < arguments_view(a@).len() && arguments_view(a@)[j] == x;
            assert(a@[j]@ == x);
        }
    }
    true
}

/// Whether two argument lists pass the same arguments, in any order (see
/// `same_arguments`).
pub fn arguments_match(a: &Vec<Argument>, b: &Vec<Argument>) -> (res: bool)
    ensures
        res == same_arguments(arguments_view(a@), arguments_view(b@)),
{
    arguments_within(a, b) && arguments_within(b, a)
}

// ---------------------------------------------------------------------
// Field selection merging
// ---------------------------------------------------------------------

fn key_of(f: &crate::ast::Field) -> (res: &String)
    ensures
        res@ == response_key(crate::ast::opt_text(f.alias), f.name@),
{
    match &f.alias {
        Some(a) => a,
        None => &f.name,
    }
}

proof fn lemma_first_with_key_stable(s: Seq<SpecSelection>, key: Seq<char>, m: nat, n: nat)
    requires
        m <= n <= s.len(),
        first_with_key(s, key, m) is Some,
    ensures
        first_with_key(s, key, n) == first_with_key(s, key, m),
    decreases n - m,
{
    if m < n {
        lemma_first_with_key_stable(s, key, m, (n - 1) as nat);
    }
}

/// The first field among `sels[0..k]` whose response key is `key`.
fn find_first_with_key(sels: &Vec<Selection>, key: &String, k: usize) -> (res: Option<usize>)
    requires
        k <= sels@.len(),
    ensures
        match first_with_key(selections_view(sels@), key@, k as nat) {
            None => res is None,
            Some(p) => res matches Some(j) && j < k && sels@[j as int] is Field && (match sels@[j as int] {
                Selection::Field(f) => p == (f.name@, arguments_view(f.arguments@)),
                _ => false,
            }),
        },
{
    proof {
        lemma_selections_view_index(sels@);
    }
    let mut j: usize = 0;
    while j < k
        invariant
            j <= k <= sels@.len(),
            selections_view(sels@).len() == sels@.len(),
            forall|i: int|
                0 <= i < sels@.len() ==> #[trigger] selections_view(sels@)[i] == sels@[i]@,
            first_with_key(selections_view(sels@), key@, j as nat) is None,
        decreases k - j,
    {
        if let Selection::Field(f) = &sels[j] {
            if same_text(key_of(f), key) {
                proof {
                    assert(selections_view(sels@)[j as int] == sels@[j as int]@);
                    assert(first_with_key(selections_view(sels@), key@, (j + 1) as nat) is Some);
                    lemma_first_with_key_stable(selections_view(sels@), key@, (j + 1) as nat, k as nat);
                }
                return Some(j);
            }
        }
        j = j + 1;
    }
    None
}

proof fn lemma_direct_conflicts_step(sels: Seq<SpecSelection>, k: nat)
    requires
        k < sels.len(),
    ensures
        direct_conflicts(sels, (k + 1) as nat) == ({
            let prev = direct_conflicts(sels, k);
            match sels[k as int] {
                SpecSelection::Field(f) => {
                    let key = response_key(f.alias, f.name);
                    match first_with_key(sels, key, k) {
                        None => prev,
                        Some((pname, pargs)) => if pname != f.name {
                            prev.push(
                                crate::validation_spec::verr(
                                    ValidationErrorKind::ConflictingFieldSelection,
                                    crate::validation_spec::msg_conflicting_names(key, pname, f.name),
                                ),
                            )
                        } else if !same_arguments(pargs, f.arguments) {
                            prev.push(
                                crate::validation_spec::verr(
                                    ValidationErrorKind::ConflictingFieldSelection,
                                    crate::validation_spec::msg_conflicting_arguments(key, f.name),
                                ),
                            )
                        } else {
                            prev
                        },
                    }
                },
                _ => prev,
            }
        }),
{
}

/// The conflicts among the fields directly in a selection set.
fn report_direct_conflicts(set: &SelectionSet, errors: &mut Vec<ValidationError>)
    ensures
        errors_view(final(errors)@) == errors_view(old(errors)@) + direct_conflicts(
            selections_view(set.selections@),
            set.selections@.len(),
        ),
{
    let sels = &set.selections;
    let ghost sv = selections_view(sels@);
    proof {
        lemma_selections_view_index(sels@);
        assert(errors_view(errors@) + Seq::<SpecValidationError>::empty() =~= errors_view(errors@));
    }
    let mut k: usize = 0;
    while k < sels.len()
        invariant
            k <= sels@.len(),
            sv == selections_view(sels@),
            sv.len() == sels@.len(),
            forall|i: int| 0 <= i < sels@.len() ==> #[trigger] sv[i] == sels@[i]@,
            errors_view(errors@) == errors_view(old(errors)@) + direct_conflicts(sv, k as nat),
        decreases sels.len() - k,
    {
        proof {
            lemma_direct_conflicts_step(sv, k as nat);
            assert(sv[k as int] == sels@[k as int]@);
        }
        if let Selection::Field(f) = &sels[k] {
            let key = key_of(f);
            match find_first_with_key(sels, key, k) {
                None => {},
                Some(j) => {
                    if let Selection::Field(prev) = &sels[j] {
                        if !same_text(&prev.name, &f.name) {
                            let m = concat(concat(owned("レスポンスキー `"), key.as_str()), "` が異なるフィールド(`");
                            let m = concat(concat(m, prev.name.as_str()), "` と `");
                            let m = concat(concat(m, f.name.as_str()), "`)を指しています");
                            push_error(errors, ValidationErrorKind::ConflictingFieldSelection, m);
                        } else if !arguments_match(&prev.arguments, &f.arguments) {
                            let m = concat(concat(owned("レスポンスキー `"), key.as_str()), "` (フィールド `");
                            let m = concat(concat(m, f.name.as_str()), "`) が異なる引数で複数回選択されています");
                            push_error(errors, ValidationErrorKind::ConflictingFieldSelection, m);
                        }
                    }
                },
            }
        }
        proof {
            assert(errors_view(errors@) =~= errors_view(old(errors)@) + direct_conflicts(
                sv,
                (k + 1) as nat,
            ));
        }
        k = k + 1;
    }
}

/// The conflicts of a selection set and of the sets nested in it.
fn check_selection_set_merging(set: &SelectionSet, errors: &mut Vec<ValidationError>)
    ensures
        errors_view(final(errors)@) == errors_view(old(errors)@) + set_conflicts(set@),
    decreases set,
{
    report_direct_conflicts(set, errors);
    let ghost mid = errors_view(errors@);
    let ghost sv = selections_view(set.selections@);
    proof {
        lemma_selections_view_index(set.selections@);
        assert(sv.subrange(0, 0) =~= Seq::<SpecSelection>::empty());
        assert(mid + Seq::<SpecValidationError>::empty() =~= mid);
    }
    let mut i: usize = 0;
    while i < set.selections.len()
        invariant
            i <= set.selections@.len(),
            sv == selections_view(set.selections@),
            sv.len() == set.selections@.len(),
            forall|j: int| 0 <= j < set.selections@.len() ==> #[trigger] sv[j] == set.selections@[j]@,
            errors_view(errors@) == mid + nested_conflicts(sv.subrange(0, i as int)),
        decreases set.selections.len() - i,
    {
        proof {
            assert(sv.subrange(0, i + 1).subrange(0, i as int) =~= sv.subrange(0, i as int));
            assert(sv.subrange(0, i + 1)[i as int] == set.selections@[i as int]@);
        }
        let ghost before = errors_view(errors@);
        match &set.selections[i] {
            Selection::Field(f) => {
                match &f.selection_set {
                    Some(sub) => {
                        check_selection_set_merging(sub, errors);
                        proof {
                            assert(sel_conflicts(sv[i as int]) == set_conflicts(sub@));
                        }
                    },
                    None => {
                        proof {
                            assert(before + sel_conflicts(sv[i as int]) =~= before);
                        }
                    },
                }
            },
            Selection::InlineFragment(inl) => {
                check_selection_set_merging(&inl.selection_set, errors);
                proof {
                    assert(sel_conflicts(sv[i as int]) == set_conflicts(inl.selection_set@));
                }
            },
            Selection::FragmentSpread(_) => {
                proof {
                    assert(before + sel_conflicts(sv[i as int]) =~= before);
                }
            },
        }
        proof {
            assert(errors_view(errors@) == before + sel_conflicts(sv[i as int]));
            assert(nested_conflicts(sv.subrange(0, i + 1)) == nested_conflicts(sv.subrange(0, i as int))
                + sel_conflicts(sv[i as int]));
            assert(errors_view(errors@) =~= mid + nested_conflicts(sv.subrange(0, i + 1)));
        }
        i = i + 1;
    }
    proof {
        assert(sv.subrange(0, i as int) =~= sv);
        assert(errors_view(errors@) =~= errors_view(old(errors)@) + set_conflicts(set@));
    }
}

/// Rule "field selection merging" (subset).
fn validate_field_selection_merging(d: &Document, errors: &mut Vec<ValidationError>)
    ensures
        errors_view(final(errors)@) == errors_view(old(errors)@) + merging_errors(d@),
{
    let mut k: usize = 0;
    proof {
        assert(errors_view(errors@) + Seq::<SpecValidationError>::empty() =~= errors_view(errors@));
    }
    while k < d.operations.len()
        invariant
            k <= d.operations@.len(),
            errors_view(errors@) == errors_view(old(errors)@) + merging_errors_ops(
                d@.operations,
                k as nat,
            ),
        decreases d.operations.len() - k,
    {
        check_selection_set_merging(&d.operations[k].selection_set, errors);
        proof {
            assert(d@.operations[k as int] == d.operations@[k as int]@);
            assert(errors_view(errors@) =~= errors_view(old(errors)@) + merging_errors_ops(
                d@.operations,
                (k + 1) as nat,
            ));
        }
        k = k + 1;
    }
    let ghost mid = errors_view(errors@);
    let mut k: usize = 0;
    proof {
        assert(mid + Seq::<SpecValidationError>::empty() =~= mid);
    }
    while k < d.fragments.len()
        invariant
            k <= d.fragments@.len(),
            mid == errors_view(old(errors)@) + merging_errors_ops(
                d@.operations,
                d@.operations.len(),
            ),
            errors_view(errors@) == mid + merging_errors_frags(d@.fragments, k as nat),
        decreases d.fragments.len() - k,
    {
        check_selection_set_merging(&d.fragments[k].selection_set, errors);
        proof {
            assert(d@.fragments[k as int] == d.fragments@[k as int]@);
            assert(errors_view(errors@) =~= mid + merging_errors_frags(d@.fragments, (k + 1) as nat));
        }
        k = k + 1;
    }
    proof {
        assert(errors_view(errors@) =~= errors_view(old(errors)@) + merging_errors(d@));
    }
}

} // verus!
