//! Laws of the tokenizer and the parser taken together.

use vstd::prelude::*;

use crate::lex_spec::{
    block_raw, hex_escape_code, is_line_end, lemma_hex_escape_in_bounds, lemma_lex_from_shape,
    lemma_lex_from_step, lemma_skip_ignored_ge, lemma_token_advances, lex_from, lex_string_body,
    lex_token_at, simple_escape, skip_ignored, spec_tokenize, triple_quote_at, unicode_escape,
};
use crate::text::hex_value;
use crate::ast::{
    SpecArgument, SpecDirective, SpecSelection, SpecSelectionSet, SpecType, SpecValue,
    SpecVariableDefinition,
};
use crate::parse_spec::{
    msg_bad_int, msg_empty_arguments, msg_empty_document, msg_empty_selection_set,
    msg_empty_variables, msg_expected, msg_expected_name, msg_expected_value,
    msg_fragment_named_on, msg_missing_on, msg_operation_start, msg_subscription,
    msg_unclosed_arguments, msg_unclosed_list, msg_unclosed_object, msg_unclosed_selection_set,
    msg_unclosed_variables, msg_unknown_operation,
    bump, is_name_token, kind_at, operation_keyword, p_arguments, p_arguments_items, p_directives,
    p_document, p_expect, p_field, p_fragment_definition, p_list, p_list_items, p_name, p_object,
    p_object_fields, p_operation, p_selection_set, p_selections, p_spread_or_inline, p_type,
    p_value, p_variables, p_variables_items, spec_parse, tokens_wf, PResult, SpecParseError,
};
use crate::token::{SpecToken, SpecTokenKind};

verus! {

/// The tokens of any input that tokenizes end with one `Eof` token and
/// hold no other; their start positions lie within the input and strictly
/// increase.
pub proof fn law_tokens_end_with_eof(s: Seq<char>)
    ensures
        spec_tokenize(s) matches Ok(toks) ==> {
            &&& toks.len() > 0
            &&& toks.last().kind is Eof
            &&& forall|k: int| 0 <= k < toks.len() - 1 ==> !(#[trigger] toks[k].kind is Eof)
            &&& forall|k: int| 0 <= k < toks.len() ==> #[trigger] toks[k].start <= s.len()
            &&& forall|a: int, b: int|
                0 <= a < b < toks.len() ==> #[trigger] toks[a].start < #[trigger] toks[b].start
        },
{
    lemma_lex_from_shape(s, 0);
}

/// A sink fed by `tokenize_into` receives exactly the tokens that
/// `tokenize` returns for the same input, and the call fails with the same
/// error where `tokenize` fails.
pub proof fn law_sink_receives_tokens(s: Seq<char>)
    ensures
        match spec_tokenize(s) {
            Ok(toks) => lex_from(s, 0).1 is Ok && lex_from(s, 0).0 == toks,
            Err(e) => lex_from(s, 0).1 == Err::<(), _>(e),
        },
{
}

proof fn lemma_document_not_empty(
    t: Seq<SpecToken>,
    i: nat,
    ops: Seq<crate::ast::SpecOperation>,
    frags: Seq<crate::ast::SpecFragment>,
)
    ensures
        p_document(t, i, ops, frags) matches Ok(d) ==> d.operations.len() + d.fragments.len() > 0,
    decreases t.len() - i,
{
    if i < t.len() && !(t[i as int].kind is Eof) {
        if crate::parse_spec::is_name_token(t[i as int].kind, "fragment"@) {
            match crate::parse_spec::p_fragment_definition(t, i) {
                Ok((f, j)) => if j > i && j <= t.len() {
                    lemma_document_not_empty(t, j, ops, frags.push(f));
                },
                Err(_) => {},
            }
        } else {
            match crate::parse_spec::p_operation(t, i) {
                Ok((o, j)) => if j > i && j <= t.len() {
                    lemma_document_not_empty(t, j, ops.push(o), frags);
                },
                Err(_) => {},
            }
        }
    }
}

/// A document that parses holds at least one operation or fragment.
pub proof fn law_parsed_document_not_empty(s: Seq<char>)
    ensures
        spec_parse(s) matches Ok(d) ==> d.operations.len() + d.fragments.len() > 0,
{
    if let Ok(t) = spec_tokenize(s) {
        lemma_document_not_empty(t, 0, seq![], seq![]);
    }
}

// ---------------------------------------------------------------------
// The parser itself reports only syntax errors
// ---------------------------------------------------------------------

/// A parse result that is no tokenizer error.
pub open spec fn no_lex_error<T>(r: PResult<T>) -> bool {
    !(r matches Err(SpecParseError::Lex(_)))
}

proof fn lemma_value_syntax(t: Seq<SpecToken>, i: nat)
    ensures
        no_lex_error(p_value(t, i)),
    decreases t.len() - i, 2nat,
{
    if i < t.len() {
        match kind_at(t, i) {
            SpecTokenKind::BracketL => lemma_list_syntax(t, i),
            SpecTokenKind::BraceL => lemma_object_syntax(t, i),
            _ => {},
        }
    }
}

proof fn lemma_list_syntax(t: Seq<SpecToken>, i: nat)
    ensures
        no_lex_error(p_list(t, i)),
    decreases t.len() - i, 1nat,
{
    if let Ok((_, j)) = p_expect(t, i, SpecTokenKind::BracketL) {
        if j > i && j <= t.len() {
            lemma_list_items_syntax(t, j, seq![]);
        }
    }
}

proof fn lemma_list_items_syntax(t: Seq<SpecToken>, i: nat, acc: Seq<SpecValue>)
    ensures
        no_lex_error(p_list_items(t, i, acc)),
    decreases t.len() - i, 3nat,
{
    if i < t.len() && !(kind_at(t, i) is BracketR) && !(kind_at(t, i) is Eof) {
        lemma_value_syntax(t, i);
        if let Ok((v, j)) = p_value(t, i) {
            if j > i && j <= t.len() {
                lemma_list_items_syntax(t, j, acc.push(v));
            }
        }
    }
}

proof fn lemma_object_syntax(t: Seq<SpecToken>, i: nat)
    ensures
        no_lex_error(p_object(t, i)),
    decreases t.len() - i, 1nat,
{
    if let Ok((_, j)) = p_expect(t, i, SpecTokenKind::BraceL) {
        if j > i && j <= t.len() {
            lemma_object_fields_syntax(t, j, seq![]);
        }
    }
}

proof fn lemma_object_fields_syntax(t: Seq<SpecToken>, i: nat, acc: Seq<(Seq<char>, SpecValue)>)
    ensures
        no_lex_error(p_object_fields(t, i, acc)),
    decreases t.len() - i, 3nat,
{
    if i < t.len() && !(kind_at(t, i) is BraceR) && !(kind_at(t, i) is Eof) {
        if let Ok((name, j)) = p_name(t, i) {
            if let Ok((_, k)) = p_expect(t, j, SpecTokenKind::Colon) {
                if k >= i && k < t.len() {
                    lemma_value_syntax(t, k);
                    if let Ok((v, m)) = p_value(t, k) {
                        if m > i && m <= t.len() {
                            lemma_object_fields_syntax(t, m, acc.push((name, v)));
                        }
                    }
                }
            }
        }
    }
}

proof fn lemma_arguments_items_syntax(t: Seq<SpecToken>, i: nat, acc: Seq<SpecArgument>)
    ensures
        no_lex_error(p_arguments_items(t, i, acc)),
    decreases t.len() - i,
{
    if i < t.len() && !(kind_at(t, i) is ParenR) && !(kind_at(t, i) is Eof) {
        if let Ok((name, j)) = p_name(t, i) {
            if let Ok((_, k)) = p_expect(t, j, SpecTokenKind::Colon) {
                lemma_value_syntax(t, k);
                if let Ok((v, m)) = p_value(t, k) {
                    if m > i && m <= t.len() {
                        lemma_arguments_items_syntax(t, m, acc.push(SpecArgument { name, value: v }));
                    }
                }
            }
        }
    }
}

proof fn lemma_arguments_syntax(t: Seq<SpecToken>, i: nat)
    ensures
        no_lex_error(p_arguments(t, i)),
{
    if let Ok((_, j)) = p_expect(t, i, SpecTokenKind::ParenL) {
        lemma_arguments_items_syntax(t, j, seq![]);
    }
}

proof fn lemma_directives_syntax(t: Seq<SpecToken>, i: nat, acc: Seq<SpecDirective>)
    ensures
        no_lex_error(p_directives(t, i, acc)),
    decreases t.len() - i,
{
    if i < t.len() && kind_at(t, i) is At {
        if let Ok((name, j)) = p_name(t, bump(t, i)) {
            if j < t.len() && kind_at(t, j) is ParenL {
                lemma_arguments_syntax(t, j);
            }
            let args = if j < t.len() && kind_at(t, j) is ParenL {
                p_arguments(t, j)
            } else {
                Ok((seq![], j))
            };
            if let Ok((arguments, k)) = args {
                if k > i && k <= t.len() {
                    lemma_directives_syntax(t, k, acc.push(SpecDirective { name, arguments }));
                }
            }
        }
    }
}

proof fn lemma_type_syntax(t: Seq<SpecToken>, i: nat)
    ensures
        no_lex_error(p_type(t, i)),
    decreases t.len() - i,
{
    if i < t.len() && kind_at(t, i) is BracketL {
        let j = bump(t, i);
        if j > i && j <= t.len() {
            lemma_type_syntax(t, j);
        }
    }
}

proof fn lemma_variables_items_syntax(t: Seq<SpecToken>, i: nat, acc: Seq<SpecVariableDefinition>)
    ensures
        no_lex_error(p_variables_items(t, i, acc)),
    decreases t.len() - i,
{
    if i < t.len() && !(kind_at(t, i) is ParenR) && !(kind_at(t, i) is Eof) {
        if let Ok((_, j)) = p_expect(t, i, SpecTokenKind::Dollar) {
            if let Ok((name, k)) = p_name(t, j) {
                if let Ok((_, m)) = p_expect(t, k, SpecTokenKind::Colon) {
                    lemma_type_syntax(t, m);
                    if let Ok((var_type, n)) = p_type(t, m) {
                        lemma_value_syntax(t, bump(t, n));
                        let default = if kind_at(t, n) is Equals {
                            match p_value(t, bump(t, n)) {
                                Err(e) => Err(e),
                                Ok((v, q)) => Ok((Some(v), q)),
                            }
                        } else {
                            Ok((None, n))
                        };
                        if let Ok((default_value, q)) = default {
                            if q > i && q <= t.len() {
                                lemma_variables_items_syntax(
                                    t,
                                    q,
                                    acc.push(SpecVariableDefinition { name, var_type, default_value }),
                                );
                            }
                        }
                    }
                }
            }
        }
    }
}

proof fn lemma_selection_set_syntax(t: Seq<SpecToken>, i: nat)
    ensures
        no_lex_error(p_selection_set(t, i)),
    decreases t.len() - i, 0nat,
{
    if let Ok((_, j)) = p_expect(t, i, SpecTokenKind::BraceL) {
        if j > i && j <= t.len() {
            lemma_selections_syntax(t, j, seq![]);
        }
    }
}

proof fn lemma_selections_syntax(t: Seq<SpecToken>, i: nat, acc: Seq<SpecSelection>)
    ensures
        no_lex_error(p_selections(t, i, acc)),
    decreases t.len() - i, 2nat,
{
    if i < t.len() && !(kind_at(t, i) is BraceR) && !(kind_at(t, i) is Eof) {
        let sel = if kind_at(t, i) is Spread {
            lemma_spread_or_inline_syntax(t, i);
            p_spread_or_inline(t, i)
        } else {
            lemma_field_syntax(t, i);
            p_field(t, i)
        };
        if let Ok((s, j)) = sel {
            if j > i && j <= t.len() {
                lemma_selections_syntax(t, j, acc.push(s));
            }
        }
    }
}

proof fn lemma_spread_or_inline_syntax(t: Seq<SpecToken>, i: nat)
    ensures
        no_lex_error(p_spread_or_inline(t, i)),
    decreases t.len() - i, 1nat,
{
    if let Ok((_, j)) = p_expect(t, i, SpecTokenKind::Spread) {
        if j > i && j < t.len() {
            if is_name_token(kind_at(t, j), "on"@) {
                if let Ok((tc, k)) = p_name(t, bump(t, j)) {
                    lemma_directives_syntax(t, k, seq![]);
                    if let Ok((directives, m)) = p_directives(t, k, seq![]) {
                        if m >= j && m <= t.len() {
                            lemma_selection_set_syntax(t, m);
                        }
                    }
                }
            } else if kind_at(t, j) is Name {
                if let Ok((name, k)) = p_name(t, j) {
                    lemma_directives_syntax(t, k, seq![]);
                }
            } else {
                lemma_directives_syntax(t, j, seq![]);
                if let Ok((directives, m)) = p_directives(t, j, seq![]) {
                    if m >= j && m <= t.len() {
                        lemma_selection_set_syntax(t, m);
                    }
                }
            }
        }
    }
}

proof fn lemma_field_syntax(t: Seq<SpecToken>, i: nat)
    ensures
        no_lex_error(p_field(t, i)),
    decreases t.len() - i, 1nat,
{
    if let Ok((first, j)) = p_name(t, i) {
        if j > i && j < t.len() {
            let named = if kind_at(t, j) is Colon {
                match p_name(t, bump(t, j)) {
                    Err(e) => Err(e),
                    Ok((actual, k)) => Ok(((Some(first), actual), k)),
                }
            } else {
                Ok(((None, first), j))
            };
            if let Ok(((alias, name), k)) = named {
                if k < t.len() && kind_at(t, k) is ParenL {
                    lemma_arguments_syntax(t, k);
                }
                let args = if k < t.len() && kind_at(t, k) is ParenL {
                    p_arguments(t, k)
                } else {
                    Ok((seq![], k))
                };
                if let Ok((arguments, m)) = args {
                    lemma_directives_syntax(t, m, seq![]);
                    if let Ok((directives, n)) = p_directives(t, m, seq![]) {
                        if n < t.len() && kind_at(t, n) is BraceL && n >= j && n <= t.len() {
                            lemma_selection_set_syntax(t, n);
                        }
                    }
                }
            }
        }
    }
}

proof fn lemma_fragment_definition_syntax(t: Seq<SpecToken>, i: nat)
    ensures
        no_lex_error(p_fragment_definition(t, i)),
{
    reveal(p_fragment_definition);
    if let Ok((name, j)) = p_name(t, bump(t, i)) {
        if let Ok((type_condition, k)) = p_name(t, bump(t, j)) {
            lemma_directives_syntax(t, k, seq![]);
            if let Ok((directives, m)) = p_directives(t, k, seq![]) {
                lemma_selection_set_syntax(t, m);
            }
        }
    }
}

proof fn lemma_operation_syntax(t: Seq<SpecToken>, i: nat)
    ensures
        no_lex_error(p_operation(t, i)),
{
    reveal(p_operation);
    lemma_selection_set_syntax(t, i);
    if let Ok((operation, j)) = operation_keyword(t, i) {
        let named = if kind_at(t, j) is Name {
            match p_name(t, j) {
                Err(e) => Err(e),
                Ok((n, k)) => Ok((Some(n), k)),
            }
        } else {
            Ok((None, j))
        };
        if let Ok((name, k)) = named {
            if kind_at(t, k) is ParenL {
                if let Ok((_, k2)) = p_expect(t, k, SpecTokenKind::ParenL) {
                    lemma_variables_items_syntax(t, k2, seq![]);
                }
            }
            let vars = if kind_at(t, k) is ParenL {
                p_variables(t, k)
            } else {
                Ok((seq![], k))
            };
            if let Ok((variable_definitions, m)) = vars {
                lemma_directives_syntax(t, m, seq![]);
                if let Ok((directives, n)) = p_directives(t, m, seq![]) {
                    lemma_selection_set_syntax(t, n);
                }
            }
        }
    }
}

proof fn lemma_document_syntax(
    t: Seq<SpecToken>,
    i: nat,
    ops: Seq<crate::ast::SpecOperation>,
    frags: Seq<crate::ast::SpecFragment>,
)
    ensures
        !(p_document(t, i, ops, frags) matches Err(SpecParseError::Lex(_))),
    decreases t.len() - i,
{
    if i < t.len() && !(t[i as int].kind is Eof) {
        if is_name_token(t[i as int].kind, "fragment"@) {
            lemma_fragment_definition_syntax(t, i);
            match p_fragment_definition(t, i) {
                Ok((f, j)) => if j > i && j <= t.len() {
                    lemma_document_syntax(t, j, ops, frags.push(f));
                },
                Err(_) => {},
            }
        } else {
            lemma_operation_syntax(t, i);
            match p_operation(t, i) {
                Ok((o, j)) => if j > i && j <= t.len() {
                    lemma_document_syntax(t, j, ops.push(o), frags);
                },
                Err(_) => {},
            }
        }
    }
}

/// `parse` reports a tokenizer error exactly when the input does not
/// tokenize, and then the tokenizer's error; every other parse error is a
/// syntax error.
pub proof fn law_parse_lex_error(s: Seq<char>)
    ensures
        match spec_tokenize(s) {
            Err(e) => spec_parse(s) == Err::<crate::ast::SpecDocument, _>(SpecParseError::Lex(e)),
            Ok(_) => !(spec_parse(s) matches Err(SpecParseError::Lex(_))),
        },
{
    if let Ok(t) = spec_tokenize(s) {
        lemma_document_syntax(t, 0, seq![], seq![]);
    }
}

// ---------------------------------------------------------------------
// Selection sets are never empty
// ---------------------------------------------------------------------

/// `s` and every selection set nested in it hold at least one selection.
pub open spec fn set_nonempty(s: SpecSelectionSet) -> bool
    decreases s,
{
    s.selections.len() > 0 && sels_nonempty(s.selections)
}

pub open spec fn sels_nonempty(s: Seq<SpecSelection>) -> bool
    decreases s,
{
    if s.len() == 0 {
        true
    } else {
        sels_nonempty(s.subrange(0, s.len() - 1)) && sel_nonempty(s[s.len() - 1])
    }
}

pub open spec fn sel_nonempty(sel: SpecSelection) -> bool
    decreases sel,
{
    match sel {
        SpecSelection::Field(f) => match f.selection_set {
            Some(sub) => set_nonempty(sub),
            None => true,
        },
        SpecSelection::InlineFragment(inl) => set_nonempty(inl.selection_set),
        SpecSelection::FragmentSpread(_) => true,
    }
}

/// Every selection set of the document holds at least one selection.
pub open spec fn document_sets_nonempty(d: crate::ast::SpecDocument) -> bool {
    &&& forall|i: int| 0 <= i < d.operations.len() ==> set_nonempty(#[trigger] d.operations[i].selection_set)
    &&& forall|i: int| 0 <= i < d.fragments.len() ==> set_nonempty(#[trigger] d.fragments[i].selection_set)
}

proof fn lemma_sels_push(s: Seq<SpecSelection>, x: SpecSelection)
    requires
        sels_nonempty(s),
        sel_nonempty(x),
    ensures
        sels_nonempty(s.push(x)),
{
    assert(s.push(x).subrange(0, s.len() as int) =~= s);
}

proof fn lemma_selection_set_nonempty(t: Seq<SpecToken>, i: nat)
    ensures
        p_selection_set(t, i) matches Ok((s, _)) ==> set_nonempty(s),
    decreases t.len() - i, 0nat,
{
    if let Ok((_, j)) = p_expect(t, i, SpecTokenKind::BraceL) {
        if j > i && j <= t.len() {
            lemma_selections_nonempty(t, j, seq![]);
        }
    }
}

proof fn lemma_selections_nonempty(t: Seq<SpecToken>, i: nat, acc: Seq<SpecSelection>)
    requires
        sels_nonempty(acc),
    ensures
        p_selections(t, i, acc) matches Ok((s, _)) ==> set_nonempty(s),
    decreases t.len() - i, 2nat,
{
    if i < t.len() && !(kind_at(t, i) is BraceR) && !(kind_at(t, i) is Eof) {
        let sel = if kind_at(t, i) is Spread {
            lemma_spread_or_inline_nonempty(t, i);
            p_spread_or_inline(t, i)
        } else {
            lemma_field_nonempty(t, i);
            p_field(t, i)
        };
        if let Ok((x, j)) = sel {
            if j > i && j <= t.len() {
                lemma_sels_push(acc, x);
                lemma_selections_nonempty(t, j, acc.push(x));
            }
        }
    }
}

proof fn lemma_spread_or_inline_nonempty(t: Seq<SpecToken>, i: nat)
    ensures
        p_spread_or_inline(t, i) matches Ok((x, _)) ==> sel_nonempty(x),
    decreases t.len() - i, 1nat,
{
    if let Ok((_, j)) = p_expect(t, i, SpecTokenKind::Spread) {
        if j > i && j < t.len() {
            if is_name_token(kind_at(t, j), "on"@) {
                if let Ok((tc, k)) = p_name(t, bump(t, j)) {
                    if let Ok((directives, m)) = p_directives(t, k, seq![]) {
                        if m >= j && m <= t.len() {
                            lemma_selection_set_nonempty(t, m);
                        }
                    }
                }
            } else if !(kind_at(t, j) is Name) {
                if let Ok((directives, m)) = p_directives(t, j, seq![]) {
                    if m >= j && m <= t.len() {
                        lemma_selection_set_nonempty(t, m);
                    }
                }
            }
        }
    }
}

proof fn lemma_field_nonempty(t: Seq<SpecToken>, i: nat)
    ensures
        p_field(t, i) matches Ok((x, _)) ==> sel_nonempty(x),
    decreases t.len() - i, 1nat,
{
    if let Ok((first, j)) = p_name(t, i) {
        if j > i && j < t.len() {
            let named = if kind_at(t, j) is Colon {
                match p_name(t, bump(t, j)) {
                    Err(e) => Err(e),
                    Ok((actual, k)) => Ok(((Some(first), actual), k)),
                }
            } else {
                Ok(((None, first), j))
            };
            if let Ok(((alias, name), k)) = named {
                let args = if k < t.len() && kind_at(t, k) is ParenL {
                    p_arguments(t, k)
                } else {
                    Ok((seq![], k))
                };
                if let Ok((arguments, m)) = args {
                    if let Ok((directives, n)) = p_directives(t, m, seq![]) {
                        if n < t.len() && kind_at(t, n) is BraceL && n >= j && n <= t.len() {
                            lemma_selection_set_nonempty(t, n);
                        }
                    }
                }
            }
        }
    }
}

proof fn lemma_document_sets_nonempty(
    t: Seq<SpecToken>,
    i: nat,
    ops: Seq<crate::ast::SpecOperation>,
    frags: Seq<crate::ast::SpecFragment>,
)
    requires
        forall|k: int| 0 <= k < ops.len() ==> set_nonempty(#[trigger] ops[k].selection_set),
        forall|k: int| 0 <= k < frags.len() ==> set_nonempty(#[trigger] frags[k].selection_set),
    ensures
        p_document(t, i, ops, frags) matches Ok(d) ==> document_sets_nonempty(d),
    decreases t.len() - i,
{
    if i < t.len() && !(t[i as int].kind is Eof) {
        if is_name_token(t[i as int].kind, "fragment"@) {
            reveal(p_fragment_definition);
            if let Ok((name, j)) = p_name(t, bump(t, i)) {
                if let Ok((type_condition, k)) = p_name(t, bump(t, j)) {
                    if let Ok((directives, m)) = p_directives(t, k, seq![]) {
                        lemma_selection_set_nonempty(t, m);
                    }
                }
            }
            match p_fragment_definition(t, i) {
                Ok((f, j)) => if j > i && j <= t.len() {
                    assert forall|k: int| 0 <= k < frags.push(f).len() implies set_nonempty(
                        #[trigger] frags.push(f)[k].selection_set,
                    ) by {
                        if k < frags.len() {
                            assert(frags.push(f)[k] == frags[k]);
                        }
                    }
                    lemma_document_sets_nonempty(t, j, ops, frags.push(f));
                },
                Err(_) => {},
            }
        } else {
            reveal(p_operation);
            lemma_selection_set_nonempty(t, i);
            if let Ok((operation, j)) = operation_keyword(t, i) {
                let named = if kind_at(t, j) is Name {
                    match p_name(t, j) {
                        Err(e) => Err(e),
                        Ok((n, k)) => Ok((Some(n), k)),
                    }
                } else {
                    Ok((None, j))
                };
                if let Ok((name, k)) = named {
                    let vars = if kind_at(t, k) is ParenL {
                        p_variables(t, k)
                    } else {
                        Ok((seq![], k))
                    };
                    if let Ok((variable_definitions, m)) = vars {
                        if let Ok((directives, n)) = p_directives(t, m, seq![]) {
                            lemma_selection_set_nonempty(t, n);
                        }
                    }
                }
            }
            match p_operation(t, i) {
                Ok((o, j)) => if j > i && j <= t.len() {
                    assert forall|k: int| 0 <= k < ops.push(o).len() implies set_nonempty(
                        #[trigger] ops.push(o)[k].selection_set,
                    ) by {
                        if k < ops.len() {
                            assert(ops.push(o)[k] == ops[k]);
                        }
                    }
                    lemma_document_sets_nonempty(t, j, ops.push(o), frags);
                },
                Err(_) => {},
            }
        }
    }
}

/// Every selection set of a document that parses, nested ones included,
/// holds at least one selection.
pub proof fn law_selection_sets_not_empty(s: Seq<char>)
    ensures
        spec_parse(s) matches Ok(d) ==> document_sets_nonempty(d),
{
    if let Ok(t) = spec_tokenize(s) {
        lemma_document_sets_nonempty(t, 0, seq![], seq![]);
    }
}

// ---------------------------------------------------------------------
// Where lexical errors stand
// ---------------------------------------------------------------------

proof fn lemma_hex_error_at(s: Seq<char>, start: nat, i: nat, k: nat, code: nat)
    ensures
        hex_escape_code(s, start, i, k, code) matches Err(e) ==> e.position == start,
    decreases 4 - k,
{
    if k < 4 && i + k < s.len() {
        if let Some(d) = hex_value(s[(i + k) as int]) {
            lemma_hex_error_at(s, start, i, k + 1, (code * 16 + d) as nat);
        }
    }
}

proof fn lemma_string_body_error_at(s: Seq<char>, start: nat, i: nat, acc: Seq<char>)
    ensures
        lex_string_body(s, start, i, acc) matches Err(e) ==> e.position == start,
    decreases s.len() - i,
{
    if i < s.len() {
        let c = s[i as int];
        if c == '\\' && i + 1 < s.len() {
            let e = s[(i + 1) as int];
            match simple_escape(e) {
                Some(x) => lemma_string_body_error_at(s, start, i + 2, acc.push(x)),
                None => if e == 'u' {
                    lemma_hex_error_at(s, start, i + 2, 0, 0);
                    lemma_hex_escape_in_bounds(s, start, i + 2, 0, 0);
                    if let Ok(x) = unicode_escape(s, start, i + 2) {
                        lemma_string_body_error_at(s, start, i + 6, acc.push(x));
                    }
                },
            }
        } else if c != '"' && !is_line_end(c) && c != '\\' {
            lemma_string_body_error_at(s, start, i + 1, acc.push(c));
        }
    }
}

proof fn lemma_block_raw_error_at(s: Seq<char>, start: nat, i: nat, raw: Seq<char>)
    ensures
        block_raw(s, start, i, raw) matches Err(e) ==> e.position == start,
    decreases s.len() - i,
{
    if !triple_quote_at(s, i) && i < s.len() {
        if s[i as int] == '\\' && triple_quote_at(s, i + 1) {
            lemma_block_raw_error_at(s, start, i + 4, raw + seq!['"', '"', '"']);
        } else {
            lemma_block_raw_error_at(s, start, i + 1, raw.push(s[i as int]));
        }
    }
}

/// A token that fails to lex fails at its own start, inside the input.
proof fn lemma_token_error_at(s: Seq<char>, p: nat)
    ensures
        lex_token_at(s, p) matches Err(e) ==> e.position == p && p < s.len(),
{
    reveal(lex_token_at);
    lemma_string_body_error_at(s, p, p + 1, seq![]);
    lemma_block_raw_error_at(s, p, p + 3, seq![]);
}

proof fn lemma_lex_from_error(s: Seq<char>, i: nat)
    requires
        i <= s.len(),
    ensures
        lex_from(s, i).1 matches Err(e) ==> {
            &&& i <= e.position < s.len()
            &&& forall|k: int|
                0 <= k < lex_from(s, i).0.len() ==> (#[trigger] lex_from(s, i).0[k]).start
                    < e.position && !(lex_from(s, i).0[k].kind is Eof)
        },
    decreases s.len() - i,
{
    lemma_lex_from_step(s, i);
    lemma_skip_ignored_ge(s, i, false);
    let p = skip_ignored(s, i, false);
    lemma_token_advances(s, p);
    lemma_token_error_at(s, p);
    if let Ok((k, end)) = lex_token_at(s, p) {
        if !(k is Eof) {
            lemma_lex_from_error(s, end);
            let rest = lex_from(s, end).0;
            let toks = lex_from(s, i).0;
            if let Err(e) = lex_from(s, i).1 {
                assert forall|x: int| 0 <= x < toks.len() implies (#[trigger] toks[x]).start
                    < e.position && !(toks[x].kind is Eof) by {
                    if x > 0 {
                        assert(toks[x] == rest[x - 1]);
                    }
                }
            }
        }
    }
}

/// A lexical error lies inside the input, after the start of every token
/// handed to the sink before it; none of those tokens is `Eof`. The
/// tokenizer reports the same error.
pub proof fn law_lex_error_position(s: Seq<char>)
    ensures
        lex_from(s, 0).1 matches Err(e) ==> {
            &&& e.position < s.len()
            &&& spec_tokenize(s) == Err::<Seq<SpecToken>, _>(e)
            &&& forall|k: int|
                0 <= k < lex_from(s, 0).0.len() ==> (#[trigger] lex_from(s, 0).0[k]).start
                    < e.position && !(lex_from(s, 0).0[k].kind is Eof)
        },
{
    lemma_lex_from_error(s, 0);
}

// ---------------------------------------------------------------------
// Where syntax errors stand
// ---------------------------------------------------------------------

/// Some token of `t` starts at `position`.
pub open spec fn token_start(t: Seq<SpecToken>, position: nat) -> bool {
    exists|k: int| 0 <= k < t.len() && (#[trigger] t[k]).start == position
}

/// What a parse step from `i` keeps: it ends at a token at or after `i`
/// (after `i` where `strict`), or fails with a message at the start of a
/// token.
pub open spec fn step_ok<T>(t: Seq<SpecToken>, i: nat, r: PResult<T>, strict: bool) -> bool {
    match r {
        Ok((_, j)) => i <= j < t.len() && (strict ==> i < j),
        Err(SpecParseError::Syntax { message, position }) => token_start(t, position)
            && message.len() > 0,
        Err(SpecParseError::Lex(_)) => true,
    }
}

/// Every syntax-error message of the grammar is non-empty.
proof fn lemma_messages()
    ensures
        forall|k: SpecTokenKind, f: SpecTokenKind| #[trigger] msg_expected(k, f).len() > 0,
        forall|f: SpecTokenKind| #[trigger] msg_expected_name(f).len() > 0,
        forall|f: SpecTokenKind| #[trigger] msg_expected_value(f).len() > 0,
        forall|f: SpecTokenKind| #[trigger] msg_operation_start(f).len() > 0,
        forall|f: SpecTokenKind| #[trigger] msg_missing_on(f).len() > 0,
        forall|n: Seq<char>| #[trigger] msg_unknown_operation(n).len() > 0,
        forall|n: Seq<char>| #[trigger] msg_bad_int(n).len() > 0,
        msg_empty_arguments().len() > 0,
        msg_empty_document().len() > 0,
        msg_empty_selection_set().len() > 0,
        msg_empty_variables().len() > 0,
        msg_fragment_named_on().len() > 0,
        msg_subscription().len() > 0,
        msg_unclosed_arguments().len() > 0,
        msg_unclosed_list().len() > 0,
        msg_unclosed_object().len() > 0,
        msg_unclosed_selection_set().len() > 0,
        msg_unclosed_variables().len() > 0,
{
    reveal_strlit(" が見つかりました");
    reveal_strlit("` を i64 として解釈できません");
    reveal_strlit("`(`query`/`mutation` を期待)");
    reveal_strlit("引数リスト `()` は空にできません");
    reveal_strlit("空のドキュメントです(少なくとも1つの操作が必要)");
    reveal_strlit("選択集合には少なくとも1つのフィールドが必要です");
    reveal_strlit("変数定義リスト `()` は空にできません");
    reveal_strlit("フラグメント名に予約語 `on` は使えません");
    reveal_strlit("`subscription` 操作は現段階では未対応です(次段階で実装予定)");
    reveal_strlit("引数リストが `)` で閉じられていません");
    reveal_strlit("リスト値が `]` で閉じられていません");
    reveal_strlit("入力オブジェクト値が `}` で閉じられていません");
    reveal_strlit("選択集合が `}` で閉じられていません");
    reveal_strlit("変数定義リストが `)` で閉じられていません");
}

proof fn lemma_bump(t: Seq<SpecToken>, i: nat)
    requires
        tokens_wf(t),
        i < t.len(),
    ensures
        i <= bump(t, i) < t.len(),
        !(t[i as int].kind is Eof) ==> bump(t, i) == i + 1,
        token_start(t, t[i as int].start),
{
    assert(t[i as int].start == t[i as int].start);
    lemma_messages();
}

proof fn lemma_expect_pos(t: Seq<SpecToken>, i: nat, k: SpecTokenKind)
    requires
        tokens_wf(t),
        i < t.len(),
        !(k is Eof),
    ensures
        step_ok(t, i, p_expect(t, i, k), true),
{
    lemma_messages();
    lemma_bump(t, i);
}

proof fn lemma_name_pos(t: Seq<SpecToken>, i: nat)
    requires
        tokens_wf(t),
        i < t.len(),
    ensures
        step_ok(t, i, p_name(t, i), true),
{
    lemma_messages();
    lemma_bump(t, i);
}

proof fn lemma_value_pos(t: Seq<SpecToken>, i: nat)
    requires
        tokens_wf(t),
        i < t.len(),
    ensures
        step_ok(t, i, p_value(t, i), true),
    decreases t.len() - i, 2nat,
{
    lemma_messages();
    lemma_bump(t, i);
    match kind_at(t, i) {
        SpecTokenKind::Dollar => lemma_name_pos(t, bump(t, i)),
        SpecTokenKind::Int(_) => lemma_bump(t, bump(t, i)),
        SpecTokenKind::BracketL => lemma_list_pos(t, i),
        SpecTokenKind::BraceL => lemma_object_pos(t, i),
        _ => {},
    }
}

proof fn lemma_list_pos(t: Seq<SpecToken>, i: nat)
    requires
        tokens_wf(t),
        i < t.len(),
    ensures
        step_ok(t, i, p_list(t, i), true),
    decreases t.len() - i, 1nat,
{
    lemma_messages();
    lemma_expect_pos(t, i, SpecTokenKind::BracketL);
    if let Ok((_, j)) = p_expect(t, i, SpecTokenKind::BracketL) {
        lemma_list_items_pos(t, j, seq![]);
    }
}

proof fn lemma_list_items_pos(t: Seq<SpecToken>, i: nat, acc: Seq<SpecValue>)
    requires
        tokens_wf(t),
        i < t.len(),
    ensures
        step_ok(t, i, p_list_items(t, i, acc), true),
    decreases t.len() - i, 3nat,
{
    lemma_messages();
    lemma_bump(t, i);
    if !(kind_at(t, i) is BracketR) && !(kind_at(t, i) is Eof) {
        lemma_value_pos(t, i);
        if let Ok((v, j)) = p_value(t, i) {
            lemma_list_items_pos(t, j, acc.push(v));
        }
    }
}

proof fn lemma_object_pos(t: Seq<SpecToken>, i: nat)
    requires
        tokens_wf(t),
        i < t.len(),
    ensures
        step_ok(t, i, p_object(t, i), true),
    decreases t.len() - i, 1nat,
{
    lemma_messages();
    lemma_expect_pos(t, i, SpecTokenKind::BraceL);
    if let Ok((_, j)) = p_expect(t, i, SpecTokenKind::BraceL) {
        lemma_object_fields_pos(t, j, seq![]);
    }
}

proof fn lemma_object_fields_pos(t: Seq<SpecToken>, i: nat, acc: Seq<(Seq<char>, SpecValue)>)
    requires
        tokens_wf(t),
        i < t.len(),
    ensures
        step_ok(t, i, p_object_fields(t, i, acc), true),
    decreases t.len() - i, 3nat,
{
    lemma_messages();
    lemma_bump(t, i);
    if !(kind_at(t, i) is BraceR) && !(kind_at(t, i) is Eof) {
        lemma_name_pos(t, i);
        if let Ok((name, j)) = p_name(t, i) {
            lemma_expect_pos(t, j, SpecTokenKind::Colon);
            if let Ok((_, k)) = p_expect(t, j, SpecTokenKind::Colon) {
                lemma_value_pos(t, k);
                if let Ok((v, m)) = p_value(t, k) {
                    lemma_object_fields_pos(t, m, acc.push((name, v)));
                }
            }
        }
    }
}

proof fn lemma_arguments_items_pos(t: Seq<SpecToken>, i: nat, acc: Seq<SpecArgument>)
    requires
        tokens_wf(t),
        i < t.len(),
    ensures
        step_ok(t, i, p_arguments_items(t, i, acc), true),
    decreases t.len() - i,
{
    lemma_messages();
    lemma_bump(t, i);
    if !(kind_at(t, i) is ParenR) && !(kind_at(t, i) is Eof) {
        lemma_name_pos(t, i);
        if let Ok((name, j)) = p_name(t, i) {
            lemma_expect_pos(t, j, SpecTokenKind::Colon);
            if let Ok((_, k)) = p_expect(t, j, SpecTokenKind::Colon) {
                lemma_value_pos(t, k);
                if let Ok((v, m)) = p_value(t, k) {
                    lemma_arguments_items_pos(t, m, acc.push(SpecArgument { name, value: v }));
                }
            }
        }
    } else if kind_at(t, i) is ParenR {
        lemma_bump(t, bump(t, i));
    }
}

proof fn lemma_arguments_pos(t: Seq<SpecToken>, i: nat)
    requires
        tokens_wf(t),
        i < t.len(),
    ensures
        step_ok(t, i, p_arguments(t, i), true),
{
    lemma_messages();
    lemma_expect_pos(t, i, SpecTokenKind::ParenL);
    if let Ok((_, j)) = p_expect(t, i, SpecTokenKind::ParenL) {
        lemma_arguments_items_pos(t, j, seq![]);
    }
}

proof fn lemma_directives_pos(t: Seq<SpecToken>, i: nat, acc: Seq<SpecDirective>)
    requires
        tokens_wf(t),
        i < t.len(),
    ensures
        step_ok(t, i, p_directives(t, i, acc), false),
    decreases t.len() - i,
{
    lemma_messages();
    if kind_at(t, i) is At {
        lemma_bump(t, i);
        lemma_name_pos(t, bump(t, i));
        if let Ok((name, j)) = p_name(t, bump(t, i)) {
            if j < t.len() && kind_at(t, j) is ParenL {
                lemma_arguments_pos(t, j);
            }
            let args = if j < t.len() && kind_at(t, j) is ParenL {
                p_arguments(t, j)
            } else {
                Ok((seq![], j))
            };
            if let Ok((arguments, k)) = args {
                lemma_directives_pos(t, k, acc.push(SpecDirective { name, arguments }));
            }
        }
    }
}

proof fn lemma_type_pos(t: Seq<SpecToken>, i: nat)
    requires
        tokens_wf(t),
        i < t.len(),
    ensures
        step_ok(t, i, p_type(t, i), true),
    decreases t.len() - i,
{
    lemma_messages();
    lemma_bump(t, i);
    lemma_name_pos(t, i);
    let base = if kind_at(t, i) is BracketL {
        let j = bump(t, i);
        lemma_type_pos(t, j);
        match p_type(t, j) {
            Err(e) => Err(e),
            Ok((inner, k)) => {
                lemma_expect_pos(t, k, SpecTokenKind::BracketR);
                match p_expect(t, k, SpecTokenKind::BracketR) {
                    Err(e) => Err(e),
                    Ok((_, m)) => Ok((SpecType::List(Box::new(inner)), m)),
                }
            },
        }
    } else {
        match p_name(t, i) {
            Err(e) => Err(e),
            Ok((n, j)) => Ok((SpecType::Named(n), j)),
        }
    };
    if let Ok((ty, m)) = base {
        lemma_bump(t, m);
    }
}

proof fn lemma_variables_items_pos(t: Seq<SpecToken>, i: nat, acc: Seq<SpecVariableDefinition>)
    requires
        tokens_wf(t),
        i < t.len(),
    ensures
        step_ok(t, i, p_variables_items(t, i, acc), true),
    decreases t.len() - i,
{
    lemma_messages();
    lemma_bump(t, i);
    if !(kind_at(t, i) is ParenR) && !(kind_at(t, i) is Eof) {
        lemma_expect_pos(t, i, SpecTokenKind::Dollar);
        if let Ok((_, j)) = p_expect(t, i, SpecTokenKind::Dollar) {
            lemma_name_pos(t, j);
            if let Ok((name, k)) = p_name(t, j) {
                lemma_expect_pos(t, k, SpecTokenKind::Colon);
                if let Ok((_, m)) = p_expect(t, k, SpecTokenKind::Colon) {
                    lemma_type_pos(t, m);
                    if let Ok((var_type, n)) = p_type(t, m) {
                        lemma_bump(t, n);
                        lemma_value_pos(t, bump(t, n));
                        let default = if kind_at(t, n) is Equals {
                            match p_value(t, bump(t, n)) {
                                Err(e) => Err(e),
                                Ok((v, q)) => Ok((Some(v), q)),
                            }
                        } else {
                            Ok((None, n))
                        };
                        if let Ok((default_value, q)) = default {
                            lemma_variables_items_pos(
                                t,
                                q,
                                acc.push(SpecVariableDefinition { name, var_type, default_value }),
                            );
                        }
                    }
                }
            }
        }
    } else if kind_at(t, i) is ParenR {
        lemma_bump(t, bump(t, i));
    }
}

proof fn lemma_selection_set_pos(t: Seq<SpecToken>, i: nat)
    requires
        tokens_wf(t),
        i < t.len(),
    ensures
        step_ok(t, i, p_selection_set(t, i), true),
    decreases t.len() - i, 0nat,
{
    lemma_messages();
    lemma_expect_pos(t, i, SpecTokenKind::BraceL);
    if let Ok((_, j)) = p_expect(t, i, SpecTokenKind::BraceL) {
        lemma_selections_pos(t, j, seq![]);
    }
}

proof fn lemma_selections_pos(t: Seq<SpecToken>, i: nat, acc: Seq<SpecSelection>)
    requires
        tokens_wf(t),
        i < t.len(),
    ensures
        step_ok(t, i, p_selections(t, i, acc), true),
    decreases t.len() - i, 2nat,
{
    lemma_messages();
    lemma_bump(t, i);
    if !(kind_at(t, i) is BraceR) && !(kind_at(t, i) is Eof) {
        let sel = if kind_at(t, i) is Spread {
            lemma_spread_or_inline_pos(t, i);
            p_spread_or_inline(t, i)
        } else {
            lemma_field_pos(t, i);
            p_field(t, i)
        };
        if let Ok((x, j)) = sel {
            lemma_selections_pos(t, j, acc.push(x));
        }
    } else if kind_at(t, i) is BraceR {
        lemma_bump(t, bump(t, i));
    }
}

proof fn lemma_spread_or_inline_pos(t: Seq<SpecToken>, i: nat)
    requires
        tokens_wf(t),
        i < t.len(),
    ensures
        step_ok(t, i, p_spread_or_inline(t, i), true),
    decreases t.len() - i, 1nat,
{
    lemma_messages();
    lemma_expect_pos(t, i, SpecTokenKind::Spread);
    if let Ok((_, j)) = p_expect(t, i, SpecTokenKind::Spread) {
        lemma_bump(t, j);
        if is_name_token(kind_at(t, j), "on"@) {
            lemma_name_pos(t, bump(t, j));
            if let Ok((tc, k)) = p_name(t, bump(t, j)) {
                lemma_directives_pos(t, k, seq![]);
                if let Ok((directives, m)) = p_directives(t, k, seq![]) {
                    lemma_selection_set_pos(t, m);
                }
            }
        } else if kind_at(t, j) is Name {
            lemma_name_pos(t, j);
            if let Ok((name, k)) = p_name(t, j) {
                lemma_directives_pos(t, k, seq![]);
            }
        } else {
            lemma_directives_pos(t, j, seq![]);
            if let Ok((directives, m)) = p_directives(t, j, seq![]) {
                lemma_selection_set_pos(t, m);
            }
        }
    }
}

proof fn lemma_field_pos(t: Seq<SpecToken>, i: nat)
    requires
        tokens_wf(t),
        i < t.len(),
    ensures
        step_ok(t, i, p_field(t, i), true),
    decreases t.len() - i, 1nat,
{
    lemma_messages();
    lemma_name_pos(t, i);
    if let Ok((first, j)) = p_name(t, i) {
        lemma_bump(t, j);
        lemma_name_pos(t, bump(t, j));
        let named = if kind_at(t, j) is Colon {
            match p_name(t, bump(t, j)) {
                Err(e) => Err(e),
                Ok((actual, k)) => Ok(((Some(first), actual), k)),
            }
        } else {
            Ok(((None, first), j))
        };
        if let Ok(((alias, name), k)) = named {
            if kind_at(t, k) is ParenL {
                lemma_arguments_pos(t, k);
            }
            let args = if k < t.len() && kind_at(t, k) is ParenL {
                p_arguments(t, k)
            } else {
                Ok((seq![], k))
            };
            if let Ok((arguments, m)) = args {
                lemma_directives_pos(t, m, seq![]);
                if let Ok((directives, n)) = p_directives(t, m, seq![]) {
                    if kind_at(t, n) is BraceL {
                        lemma_selection_set_pos(t, n);
                    }
                }
            }
        }
    }
}

proof fn lemma_fragment_definition_pos(t: Seq<SpecToken>, i: nat)
    requires
        tokens_wf(t),
        i < t.len(),
        is_name_token(t[i as int].kind, "fragment"@),
    ensures
        step_ok(t, i, p_fragment_definition(t, i), true),
{
    lemma_messages();
    reveal(p_fragment_definition);
    lemma_bump(t, i);
    lemma_name_pos(t, bump(t, i));
    if let Ok((name, j)) = p_name(t, bump(t, i)) {
        lemma_bump(t, j);
        lemma_name_pos(t, bump(t, j));
        if let Ok((type_condition, k)) = p_name(t, bump(t, j)) {
            lemma_directives_pos(t, k, seq![]);
            if let Ok((directives, m)) = p_directives(t, k, seq![]) {
                lemma_selection_set_pos(t, m);
            }
        }
    }
}

proof fn lemma_operation_pos(t: Seq<SpecToken>, i: nat)
    requires
        tokens_wf(t),
        i < t.len(),
    ensures
        step_ok(t, i, p_operation(t, i), true),
{
    lemma_messages();
    reveal(p_operation);
    lemma_bump(t, i);
    lemma_selection_set_pos(t, i);
    if let Ok((operation, j)) = operation_keyword(t, i) {
        lemma_name_pos(t, j);
        let named = if kind_at(t, j) is Name {
            match p_name(t, j) {
                Err(e) => Err(e),
                Ok((n, k)) => Ok((Some(n), k)),
            }
        } else {
            Ok((None, j))
        };
        if let Ok((name, k)) = named {
            if kind_at(t, k) is ParenL {
                lemma_expect_pos(t, k, SpecTokenKind::ParenL);
                if let Ok((_, k2)) = p_expect(t, k, SpecTokenKind::ParenL) {
                    lemma_variables_items_pos(t, k2, seq![]);
                }
            }
            let vars = if kind_at(t, k) is ParenL {
                p_variables(t, k)
            } else {
                Ok((seq![], k))
            };
            if let Ok((variable_definitions, m)) = vars {
                lemma_directives_pos(t, m, seq![]);
                if let Ok((directives, n)) = p_directives(t, m, seq![]) {
                    lemma_selection_set_pos(t, n);
                }
            }
        }
    }
}

proof fn lemma_document_pos(
    t: Seq<SpecToken>,
    i: nat,
    ops: Seq<crate::ast::SpecOperation>,
    frags: Seq<crate::ast::SpecFragment>,
)
    requires
        tokens_wf(t),
        i < t.len(),
    ensures
        p_document(t, i, ops, frags) matches Err(SpecParseError::Syntax { message, position })
            ==> token_start(t, position) && message.len() > 0,
    decreases t.len() - i,
{
    lemma_messages();
    lemma_bump(t, i);
    if !(t[i as int].kind is Eof) {
        if is_name_token(t[i as int].kind, "fragment"@) {
            lemma_fragment_definition_pos(t, i);
            if let Ok((f, j)) = p_fragment_definition(t, i) {
                lemma_document_pos(t, j, ops, frags.push(f));
            }
        } else {
            lemma_operation_pos(t, i);
            if let Ok((o, j)) = p_operation(t, i) {
                lemma_document_pos(t, j, ops.push(o), frags);
            }
        }
    }
}

/// Every construct of the grammar, read from a token of a well-formed token
/// list, either consumes at least one token and ends inside the list, or
/// fails with a message at the start of a token (directives may consume
/// none). So the grammar's guards against a construct that consumed no
/// token are never taken.
pub proof fn law_grammar_advances(t: Seq<SpecToken>, i: nat)
    requires
        tokens_wf(t),
        i < t.len(),
    ensures
        step_ok(t, i, p_value(t, i), true),
        step_ok(t, i, p_arguments(t, i), true),
        step_ok(t, i, p_directives(t, i, seq![]), false),
        step_ok(t, i, p_type(t, i), true),
        step_ok(t, i, p_variables(t, i), true),
        step_ok(t, i, p_selection_set(t, i), true),
        step_ok(t, i, p_field(t, i), true),
        step_ok(t, i, p_spread_or_inline(t, i), true),
        step_ok(t, i, p_operation(t, i), true),
        is_name_token(t[i as int].kind, "fragment"@) ==> step_ok(
            t,
            i,
            p_fragment_definition(t, i),
            true,
        ),
{
    lemma_value_pos(t, i);
    lemma_arguments_pos(t, i);
    lemma_directives_pos(t, i, seq![]);
    lemma_type_pos(t, i);
    lemma_expect_pos(t, i, SpecTokenKind::ParenL);
    if let Ok((_, j)) = p_expect(t, i, SpecTokenKind::ParenL) {
        lemma_variables_items_pos(t, j, seq![]);
    }
    lemma_selection_set_pos(t, i);
    lemma_field_pos(t, i);
    lemma_spread_or_inline_pos(t, i);
    lemma_operation_pos(t, i);
    if is_name_token(t[i as int].kind, "fragment"@) {
        lemma_fragment_definition_pos(t, i);
    }
}

/// A syntax error of `parse` stands at the start of one of the input's
/// tokens and carries a message: the empty message that the grammar gives
/// where a construct consumed no token never comes out of `parse`.
pub proof fn law_syntax_error_position(s: Seq<char>)
    ensures
        spec_tokenize(s) matches Ok(toks) ==> (spec_parse(s) matches Err(
            SpecParseError::Syntax { message, position },
        ) ==> token_start(toks, position) && message.len() > 0),
{
    if let Ok(t) = spec_tokenize(s) {
        law_tokens_end_with_eof(s);
        lemma_document_pos(t, 0, seq![], seq![]);
    }
}

/// A field written `a: n` carries the alias `a` and the name `n`; one
/// written `n` alone carries the name `n` and no alias.
pub proof fn law_field_alias(t: Seq<SpecToken>, i: nat)
    requires
        tokens_wf(t),
        i < t.len(),
    ensures
        p_field(t, i) matches Ok((sel, _)) ==> {
            &&& sel is Field
            &&& kind_at(t, i) is Name
            &&& i + 1 < t.len()
            &&& if kind_at(t, i + 1) is Colon {
                &&& i + 2 < t.len()
                &&& kind_at(t, i + 2) is Name
                &&& sel->Field_0.alias == Some(kind_at(t, i)->Name_0)
                &&& sel->Field_0.name == kind_at(t, i + 2)->Name_0
            } else {
                &&& sel->Field_0.alias is None
                &&& sel->Field_0.name == kind_at(t, i)->Name_0
            }
        },
{
    if p_field(t, i) is Ok {
        assert(kind_at(t, i) is Name);
        let j = bump(t, i);
        assert(j == i + 1);
        if kind_at(t, i + 1) is Colon {
            assert(!(t[(i + 1) as int].kind is Eof));
            assert(i + 1 != t.len() - 1);
        }
    }
}

/// A type written `n` is the named type `n`, `[T]` is the list of `T`, and
/// a `!` after either makes it non-null.
pub proof fn law_type_shapes(t: Seq<SpecToken>, i: nat)
    requires
        tokens_wf(t),
        i < t.len(),
    ensures
        kind_at(t, i) is Name ==> {
            let j = bump(t, i);
            p_type(t, i) == if kind_at(t, j) is Bang {
                Ok::<_, SpecParseError>(
                    (SpecType::NonNull(Box::new(SpecType::Named(kind_at(t, i)->Name_0))), bump(t, j)),
                )
            } else {
                Ok::<_, SpecParseError>((SpecType::Named(kind_at(t, i)->Name_0), j))
            }
        },
        kind_at(t, i) is BracketL ==> i + 1 < t.len() && match p_type(t, i + 1) {
            Ok((inner, k)) => kind_at(t, k) is BracketR ==> {
                let m = bump(t, k);
                p_type(t, i) == if kind_at(t, m) is Bang {
                    Ok::<_, SpecParseError>(
                        (SpecType::NonNull(Box::new(SpecType::List(Box::new(inner)))), bump(t, m)),
                    )
                } else {
                    Ok::<_, SpecParseError>((SpecType::List(Box::new(inner)), m))
                }
            },
            Err(e) => p_type(t, i) == Err::<(SpecType, nat), _>(e),
        },
{
    if kind_at(t, i) is BracketL {
        assert(i + 1 < t.len());
        assert(bump(t, i) == i + 1);
    }
}

/// After `...`, a name other than `on` makes a fragment spread of that
/// name; `on T` makes an inline fragment on the type `T`; anything else
/// makes an inline fragment with no type condition.
pub proof fn law_spread_shapes(t: Seq<SpecToken>, i: nat)
    requires
        tokens_wf(t),
        i < t.len(),
    ensures
        p_spread_or_inline(t, i) matches Ok((sel, _)) ==> {
            &&& kind_at(t, i) is Spread
            &&& i + 1 < t.len()
            &&& if kind_at(t, i + 1) == SpecTokenKind::Name("on"@) {
                &&& i + 2 < t.len()
                &&& kind_at(t, i + 2) is Name
                &&& sel is InlineFragment
                &&& sel->InlineFragment_0.type_condition == Some(kind_at(t, i + 2)->Name_0)
            } else if kind_at(t, i + 1) is Name {
                &&& sel is FragmentSpread
                &&& sel->FragmentSpread_0.name == kind_at(t, i + 1)->Name_0
            } else {
                &&& sel is InlineFragment
                &&& sel->InlineFragment_0.type_condition is None
            }
        },
{
    if p_spread_or_inline(t, i) is Ok {
        assert(kind_at(t, i) is Spread);
        assert(bump(t, i) == i + 1);
        if kind_at(t, i + 1) == SpecTokenKind::Name("on"@) {
            assert(is_name_token(kind_at(t, i + 1), "on"@));
            assert(!(t[(i + 1) as int].kind is Eof));
            assert(i + 1 != t.len() - 1);
        } else {
            assert(!is_name_token(kind_at(t, i + 1), "on"@));
        }
    }
}

} // verus!
