//! The syntactic grammar of GraphQL query documents, stated over token
//! sequences. Each `p_*` function gives, for the tokens `t` and a position
//! `i`, the syntax tree read from `i` and the position after it, or the
//! syntax error; `spec_parse` is what `parse` computes.
//!
//! Positions never move past the last token (`Eof`). The branches marked
//! `stalled` are taken only where a construct consumed no token, which
//! cannot happen on the tokens of an input.

use vstd::prelude::*;

use crate::ast::{
    OperationType, SpecArgument, SpecDirective, SpecDocument, SpecField, SpecFragment,
    SpecFragmentSpread, SpecInlineFragment, SpecOperation, SpecSelection, SpecSelectionSet,
    SpecType, SpecValue, SpecVariableDefinition,
};
use crate::lex_spec::{spec_tokenize, SpecLexError};
use crate::text::{is_digit, str_debug};
use crate::token::{SpecToken, SpecTokenKind};

verus! {

/// The model of a parse error.
pub enum SpecParseError {
    Lex(SpecLexError),
    Syntax { message: Seq<char>, position: nat },
}

/// A value read from the tokens, with the position after it.
pub type PResult<T> = Result<(T, nat), SpecParseError>;

// ---------------------------------------------------------------------
// Token access
// ---------------------------------------------------------------------

/// Token sequences as the tokenizer produces them: non-empty, ending with
/// `Eof`.
pub open spec fn tokens_wf(t: Seq<SpecToken>) -> bool {
    t.len() > 0 && t.last().kind is Eof
}

pub open spec fn kind_at(t: Seq<SpecToken>, i: nat) -> SpecTokenKind {
    t[i as int].kind
}

/// The position after consuming the token at `i` (the last token is
/// never passed).
pub open spec fn bump(t: Seq<SpecToken>, i: nat) -> nat {
    if i + 1 < t.len() {
        i + 1
    } else {
        i
    }
}

pub open spec fn syntax_at<T>(t: Seq<SpecToken>, i: nat, message: Seq<char>) -> PResult<T> {
    Err(SpecParseError::Syntax { message, position: t[i as int].start })
}

/// The result of a construct that consumed no token.
pub open spec fn stalled<T>() -> PResult<T> {
    Err(SpecParseError::Syntax { message: seq![], position: 0 })
}

pub open spec fn is_name_token(k: SpecTokenKind, text: Seq<char>) -> bool {
    k matches SpecTokenKind::Name(s) && s == text
}

// ---------------------------------------------------------------------
// Messages
// ---------------------------------------------------------------------

/// `{:?}` of a token kind.
pub open spec fn kind_debug(k: SpecTokenKind) -> Seq<char> {
    match k {
        SpecTokenKind::Bang => "Bang"@,
        SpecTokenKind::Dollar => "Dollar"@,
        SpecTokenKind::Amp => "Amp"@,
        SpecTokenKind::ParenL => "ParenL"@,
        SpecTokenKind::ParenR => "ParenR"@,
        SpecTokenKind::Spread => "Spread"@,
        SpecTokenKind::Colon => "Colon"@,
        SpecTokenKind::Equals => "Equals"@,
        SpecTokenKind::At => "At"@,
        SpecTokenKind::BracketL => "BracketL"@,
        SpecTokenKind::BracketR => "BracketR"@,
        SpecTokenKind::BraceL => "BraceL"@,
        SpecTokenKind::BraceR => "BraceR"@,
        SpecTokenKind::Pipe => "Pipe"@,
        SpecTokenKind::Name(s) => "Name("@ + str_debug(s) + ")"@,
        SpecTokenKind::Int(s) => "Int("@ + str_debug(s) + ")"@,
        SpecTokenKind::Float(s) => "Float("@ + str_debug(s) + ")"@,
        SpecTokenKind::Str(s) => "Str("@ + str_debug(s) + ")"@,
        SpecTokenKind::Eof => "Eof"@,
    }
}

pub open spec fn msg_expected(k: SpecTokenKind, found: SpecTokenKind) -> Seq<char> {
    kind_debug(k) + " を期待しましたが "@ + kind_debug(found) + " が見つかりました"@
}

pub open spec fn msg_expected_name(found: SpecTokenKind) -> Seq<char> {
    "名前を期待しましたが "@ + kind_debug(found) + " が見つかりました"@
}

pub open spec fn msg_empty_document() -> Seq<char> {
    "空のドキュメントです(少なくとも1つの操作が必要)"@
}

pub open spec fn msg_operation_start(found: SpecTokenKind) -> Seq<char> {
    "操作定義の開始(`{` または `query`)を期待しましたが "@ + kind_debug(found) + " が見つかりました"@
}

pub open spec fn msg_subscription() -> Seq<char> {
    "`subscription` 操作は現段階では未対応です(次段階で実装予定)"@
}

pub open spec fn msg_unknown_operation(name: Seq<char>) -> Seq<char> {
    "未知の操作種別 `"@ + name + "`(`query`/`mutation` を期待)"@
}

pub open spec fn msg_unclosed_variables() -> Seq<char> {
    "変数定義リストが `)` で閉じられていません"@
}

pub open spec fn msg_empty_variables() -> Seq<char> {
    "変数定義リスト `()` は空にできません"@
}

pub open spec fn msg_fragment_named_on() -> Seq<char> {
    "フラグメント名に予約語 `on` は使えません"@
}

pub open spec fn msg_missing_on(found: SpecTokenKind) -> Seq<char> {
    "フラグメント定義には `on TypeName` が必要ですが "@ + kind_debug(found) + " が見つかりました"@
}

pub open spec fn msg_unclosed_selection_set() -> Seq<char> {
    "選択集合が `}` で閉じられていません"@
}

pub open spec fn msg_empty_selection_set() -> Seq<char> {
    "選択集合には少なくとも1つのフィールドが必要です"@
}

pub open spec fn msg_unclosed_arguments() -> Seq<char> {
    "引数リストが `)` で閉じられていません"@
}

pub open spec fn msg_empty_arguments() -> Seq<char> {
    "引数リスト `()` は空にできません"@
}

pub open spec fn msg_bad_int(text: Seq<char>) -> Seq<char> {
    "整数 `"@ + text + "` を i64 として解釈できません"@
}

pub open spec fn msg_expected_value(found: SpecTokenKind) -> Seq<char> {
    "値を期待しましたが "@ + kind_debug(found) + " が見つかりました"@
}

pub open spec fn msg_unclosed_list() -> Seq<char> {
    "リスト値が `]` で閉じられていません"@
}

pub open spec fn msg_unclosed_object() -> Seq<char> {
    "入力オブジェクト値が `}` で閉じられていません"@
}

// ---------------------------------------------------------------------
// Integers
// ---------------------------------------------------------------------

pub open spec fn all_digits(s: Seq<char>) -> bool {
    forall|k: int| 0 <= k < s.len() ==> is_digit(#[trigger] s[k])
}

/// The value of a string of decimal digits.
pub open spec fn digits_value(s: Seq<char>) -> nat
    decreases s.len(),
{
    if s.len() == 0 {
        0
    } else {
        digits_value(s.drop_last()) * 10 + (s.last() as nat - '0' as nat) as nat
    }
}

/// What `str::parse::<i64>` gives for `text`: an optional sign followed
/// by one or more digits, in the range of `i64`.
pub open spec fn int_text_value(text: Seq<char>) -> Option<int> {
    let neg = text.len() > 0 && text[0] == '-';
    let signed = text.len() > 0 && (text[0] == '-' || text[0] == '+');
    let digits = if signed {
        text.skip(1)
    } else {
        text
    };
    if digits.len() == 0 || !all_digits(digits) {
        None
    } else if neg {
        if digits_value(digits) <= 9223372036854775808 {
            Some(-(digits_value(digits) as int))
        } else {
            None
        }
    } else if digits_value(digits) <= 9223372036854775807 {
        Some(digits_value(digits) as int)
    } else {
        None
    }
}

// ---------------------------------------------------------------------
// Basic steps
// ---------------------------------------------------------------------

/// Consumes a token of kind `k`.
pub open spec fn p_expect(t: Seq<SpecToken>, i: nat, k: SpecTokenKind) -> PResult<()> {
    if kind_at(t, i) == k {
        Ok(((), bump(t, i)))
    } else {
        syntax_at(t, i, msg_expected(k, kind_at(t, i)))
    }
}

/// Consumes a name and yields its text.
pub open spec fn p_name(t: Seq<SpecToken>, i: nat) -> PResult<Seq<char>> {
    match kind_at(t, i) {
        SpecTokenKind::Name(s) => Ok((s, bump(t, i))),
        other => syntax_at(t, i, msg_expected_name(other)),
    }
}

// ---------------------------------------------------------------------
// Values
// ---------------------------------------------------------------------

/// An input value.
pub open spec fn p_value(t: Seq<SpecToken>, i: nat) -> PResult<SpecValue>
    decreases t.len() - i, 2nat,
{
    if i >= t.len() {
        stalled()
    } else {
        match kind_at(t, i) {
            SpecTokenKind::Dollar => match p_name(t, bump(t, i)) {
                Ok((n, j)) => Ok((SpecValue::Variable(n), j)),
                Err(e) => Err(e),
            },
            SpecTokenKind::Int(s) => match int_text_value(s) {
                Some(n) => Ok((SpecValue::Int(n), bump(t, i))),
                None => syntax_at(t, bump(t, i), msg_bad_int(s)),
            },
            SpecTokenKind::Float(s) => Ok((SpecValue::Float(s), bump(t, i))),
            SpecTokenKind::Str(s) => Ok((SpecValue::String(s), bump(t, i))),
            SpecTokenKind::Name(s) => Ok(
                (
                    if s == "true"@ {
                        SpecValue::Boolean(true)
                    } else if s == "false"@ {
                        SpecValue::Boolean(false)
                    } else if s == "null"@ {
                        SpecValue::Null
                    } else {
                        SpecValue::Enum(s)
                    },
                    bump(t, i),
                ),
            ),
            SpecTokenKind::BracketL => p_list(t, i),
            SpecTokenKind::BraceL => p_object(t, i),
            other => syntax_at(t, i, msg_expected_value(other)),
        }
    }
}

/// A list value `[ value* ]`.
pub open spec fn p_list(t: Seq<SpecToken>, i: nat) -> PResult<SpecValue>
    decreases t.len() - i, 1nat,
{
    match p_expect(t, i, SpecTokenKind::BracketL) {
        Err(e) => Err(e),
        Ok((_, j)) => if j <= i || j > t.len() {
            stalled()
        } else {
            p_list_items(t, j, seq![])
        },
    }
}

/// The items of a list value from `i`, after the items `acc`.
pub open spec fn p_list_items(t: Seq<SpecToken>, i: nat, acc: Seq<SpecValue>) -> PResult<SpecValue>
    decreases t.len() - i, 3nat,
{
    if i >= t.len() {
        stalled()
    } else if kind_at(t, i) is BracketR {
        Ok((SpecValue::List(acc), bump(t, i)))
    } else if kind_at(t, i) is Eof {
        syntax_at(t, i, msg_unclosed_list())
    } else {
        match p_value(t, i) {
            Err(e) => Err(e),
            Ok((v, j)) => if j <= i || j > t.len() {
                stalled()
            } else {
                p_list_items(t, j, acc.push(v))
            },
        }
    }
}

/// An input object value `{ name: value* }`.
pub open spec fn p_object(t: Seq<SpecToken>, i: nat) -> PResult<SpecValue>
    decreases t.len() - i, 1nat,
{
    match p_expect(t, i, SpecTokenKind::BraceL) {
        Err(e) => Err(e),
        Ok((_, j)) => if j <= i || j > t.len() {
            stalled()
        } else {
            p_object_fields(t, j, seq![])
        },
    }
}

/// The fields of an input object value from `i`, after the fields `acc`.
pub open spec fn p_object_fields(
    t: Seq<SpecToken>,
    i: nat,
    acc: Seq<(Seq<char>, SpecValue)>,
) -> PResult<SpecValue>
    decreases t.len() - i, 3nat,
{
    if i >= t.len() {
        stalled()
    } else if kind_at(t, i) is BraceR {
        Ok((SpecValue::Object(acc), bump(t, i)))
    } else if kind_at(t, i) is Eof {
        syntax_at(t, i, msg_unclosed_object())
    } else {
        match p_name(t, i) {
            Err(e) => Err(e),
            Ok((name, j)) => match p_expect(t, j, SpecTokenKind::Colon) {
                Err(e) => Err(e),
                Ok((_, k)) => if k < i || k >= t.len() {
                    stalled()
                } else {
                    match p_value(t, k) {
                        Err(e) => Err(e),
                        Ok((v, m)) => if m <= i || m > t.len() {
                            stalled()
                        } else {
                            p_object_fields(t, m, acc.push((name, v)))
                        },
                    }
                },
            },
        }
    }
}

// ---------------------------------------------------------------------
// Arguments, directives, types, variable definitions
// ---------------------------------------------------------------------

/// The arguments of a list from `i`, after the arguments `acc`.
pub open spec fn p_arguments_items(t: Seq<SpecToken>, i: nat, acc: Seq<SpecArgument>) -> PResult<
    Seq<SpecArgument>,
>
    decreases t.len() - i,
{
    if i >= t.len() {
        stalled()
    } else if kind_at(t, i) is ParenR {
        let j = bump(t, i);
        if acc.len() == 0 {
            syntax_at(t, j, msg_empty_arguments())
        } else {
            Ok((acc, j))
        }
    } else if kind_at(t, i) is Eof {
        syntax_at(t, i, msg_unclosed_arguments())
    } else {
        match p_name(t, i) {
            Err(e) => Err(e),
            Ok((name, j)) => match p_expect(t, j, SpecTokenKind::Colon) {
                Err(e) => Err(e),
                Ok((_, k)) => match p_value(t, k) {
                    Err(e) => Err(e),
                    Ok((v, m)) => if m <= i || m > t.len() {
                        stalled()
                    } else {
                        p_arguments_items(t, m, acc.push(SpecArgument { name, value: v }))
                    },
                },
            },
        }
    }
}

/// An argument list `( name: value+ )`.
pub open spec fn p_arguments(t: Seq<SpecToken>, i: nat) -> PResult<Seq<SpecArgument>> {
    match p_expect(t, i, SpecTokenKind::ParenL) {
        Err(e) => Err(e),
        Ok((_, j)) => p_arguments_items(t, j, seq![]),
    }
}

/// Zero or more directives from `i`, after the directives `acc`.
pub open spec fn p_directives(t: Seq<SpecToken>, i: nat, acc: Seq<SpecDirective>) -> PResult<
    Seq<SpecDirective>,
>
    decreases t.len() - i,
{
    if i < t.len() && kind_at(t, i) is At {
        match p_name(t, bump(t, i)) {
            Err(e) => Err(e),
            Ok((name, j)) => {
                let args = if j < t.len() && kind_at(t, j) is ParenL {
                    p_arguments(t, j)
                } else {
                    Ok((seq![], j))
                };
                match args {
                    Err(e) => Err(e),
                    Ok((arguments, k)) => if k <= i || k > t.len() {
                        stalled()
                    } else {
                        p_directives(t, k, acc.push(SpecDirective { name, arguments }))
                    },
                }
            },
        }
    } else {
        Ok((acc, i))
    }
}

/// A type reference.
pub open spec fn p_type(t: Seq<SpecToken>, i: nat) -> PResult<SpecType>
    decreases t.len() - i,
{
    let base = if i < t.len() && kind_at(t, i) is BracketL {
        let j = bump(t, i);
        if j <= i || j > t.len() {
            stalled()
        } else {
            match p_type(t, j) {
                Err(e) => Err(e),
                Ok((inner, k)) => match p_expect(t, k, SpecTokenKind::BracketR) {
                    Err(e) => Err(e),
                    Ok((_, m)) => Ok((SpecType::List(Box::new(inner)), m)),
                },
            }
        }
    } else {
        match p_name(t, i) {
            Err(e) => Err(e),
            Ok((n, j)) => Ok((SpecType::Named(n), j)),
        }
    };
    match base {
        Err(e) => Err(e),
        Ok((ty, m)) => if kind_at(t, m) is Bang {
            Ok((SpecType::NonNull(Box::new(ty)), bump(t, m)))
        } else {
            Ok((ty, m))
        },
    }
}

/// The definitions of a variable list from `i`, after the definitions `acc`.
pub open spec fn p_variables_items(
    t: Seq<SpecToken>,
    i: nat,
    acc: Seq<SpecVariableDefinition>,
) -> PResult<Seq<SpecVariableDefinition>>
    decreases t.len() - i,
{
    if i >= t.len() {
        stalled()
    } else if kind_at(t, i) is ParenR {
        let j = bump(t, i);
        if acc.len() == 0 {
            syntax_at(t, j, msg_empty_variables())
        } else {
            Ok((acc, j))
        }
    } else if kind_at(t, i) is Eof {
        syntax_at(t, i, msg_unclosed_variables())
    } else {
        match p_expect(t, i, SpecTokenKind::Dollar) {
            Err(e) => Err(e),
            Ok((_, j)) => match p_name(t, j) {
                Err(e) => Err(e),
                Ok((name, k)) => match p_expect(t, k, SpecTokenKind::Colon) {
                    Err(e) => Err(e),
                    Ok((_, m)) => match p_type(t, m) {
                        Err(e) => Err(e),
                        Ok((var_type, n)) => {
                            let default = if kind_at(t, n) is Equals {
                                match p_value(t, bump(t, n)) {
                                    Err(e) => Err(e),
                                    Ok((v, q)) => Ok((Some(v), q)),
                                }
                            } else {
                                Ok((None, n))
                            };
                            match default {
                                Err(e) => Err(e),
                                Ok((default_value, q)) => if q <= i || q > t.len() {
                                    stalled()
                                } else {
                                    p_variables_items(
                                        t,
                                        q,
                                        acc.push(
                                            SpecVariableDefinition { name, var_type, default_value },
                                        ),
                                    )
                                },
                            }
                        },
                    },
                },
            },
        }
    }
}

/// A variable definition list `( $name: Type = default, ... )`.
pub open spec fn p_variables(t: Seq<SpecToken>, i: nat) -> PResult<Seq<SpecVariableDefinition>> {
    match p_expect(t, i, SpecTokenKind::ParenL) {
        Err(e) => Err(e),
        Ok((_, j)) => p_variables_items(t, j, seq![]),
    }
}

// ---------------------------------------------------------------------
// Selections
// ---------------------------------------------------------------------

/// A selection set `{ selection+ }`.
pub open spec fn p_selection_set(t: Seq<SpecToken>, i: nat) -> PResult<SpecSelectionSet>
    decreases t.len() - i, 0nat,
{
    match p_expect(t, i, SpecTokenKind::BraceL) {
        Err(e) => Err(e),
        Ok((_, j)) => if j <= i || j > t.len() {
            stalled()
        } else {
            p_selections(t, j, seq![])
        },
    }
}

/// The selections of a set from `i`, after the selections `acc`.
pub open spec fn p_selections(t: Seq<SpecToken>, i: nat, acc: Seq<SpecSelection>) -> PResult<
    SpecSelectionSet,
>
    decreases t.len() - i, 2nat,
{
    if i >= t.len() {
        stalled()
    } else if kind_at(t, i) is BraceR {
        let j = bump(t, i);
        if acc.len() == 0 {
            syntax_at(t, j, msg_empty_selection_set())
        } else {
            Ok((SpecSelectionSet { selections: acc }, j))
        }
    } else if kind_at(t, i) is Eof {
        syntax_at(t, i, msg_unclosed_selection_set())
    } else {
        let sel = if kind_at(t, i) is Spread {
            p_spread_or_inline(t, i)
        } else {
            p_field(t, i)
        };
        match sel {
            Err(e) => Err(e),
            Ok((s, j)) => if j <= i || j > t.len() {
                stalled()
            } else {
                p_selections(t, j, acc.push(s))
            },
        }
    }
}

/// After `...`: a fragment spread `...Name @dir` or an inline fragment
/// `... on Type @dir { ... }` / `... @dir { ... }`.
pub open spec fn p_spread_or_inline(t: Seq<SpecToken>, i: nat) -> PResult<SpecSelection>
    decreases t.len() - i, 1nat,
{
    match p_expect(t, i, SpecTokenKind::Spread) {
        Err(e) => Err(e),
        Ok((_, j)) => if j <= i || j >= t.len() {
            stalled()
        } else if is_name_token(kind_at(t, j), "on"@) {
            match p_name(t, bump(t, j)) {
                Err(e) => Err(e),
                Ok((tc, k)) => match p_directives(t, k, seq![]) {
                    Err(e) => Err(e),
                    Ok((directives, m)) => if m < j || m > t.len() {
                        stalled()
                    } else {
                        match p_selection_set(t, m) {
                            Err(e) => Err(e),
                            Ok((selection_set, n)) => Ok(
                                (
                                    SpecSelection::InlineFragment(
                                        SpecInlineFragment {
                                            type_condition: Some(tc),
                                            directives,
                                            selection_set,
                                        },
                                    ),
                                    n,
                                ),
                            ),
                        }
                    },
                },
            }
        } else if kind_at(t, j) is Name {
            match p_name(t, j) {
                Err(e) => Err(e),
                Ok((name, k)) => match p_directives(t, k, seq![]) {
                    Err(e) => Err(e),
                    Ok((directives, m)) => Ok(
                        (
                            SpecSelection::FragmentSpread(SpecFragmentSpread { name, directives }),
                            m,
                        ),
                    ),
                },
            }
        } else {
            match p_directives(t, j, seq![]) {
                Err(e) => Err(e),
                Ok((directives, m)) => if m < j || m > t.len() {
                    stalled()
                } else {
                    match p_selection_set(t, m) {
                        Err(e) => Err(e),
                        Ok((selection_set, n)) => Ok(
                            (
                                SpecSelection::InlineFragment(
                                    SpecInlineFragment {
                                        type_condition: None,
                                        directives,
                                        selection_set,
                                    },
                                ),
                                n,
                            ),
                        ),
                    }
                },
            }
        }
    }
}

/// A field `alias: name(args) @dir { ... }`.
pub open spec fn p_field(t: Seq<SpecToken>, i: nat) -> PResult<SpecSelection>
    decreases t.len() - i, 1nat,
{
    match p_name(t, i) {
        Err(e) => Err(e),
        Ok((first, j)) => if j <= i || j >= t.len() {
            stalled()
        } else {
            let named = if kind_at(t, j) is Colon {
                match p_name(t, bump(t, j)) {
                    Err(e) => Err(e),
                    Ok((actual, k)) => Ok(((Some(first), actual), k)),
                }
            } else {
                Ok(((None, first), j))
            };
            match named {
                Err(e) => Err(e),
                Ok(((alias, name), k)) => {
                    let args = if k < t.len() && kind_at(t, k) is ParenL {
                        p_arguments(t, k)
                    } else {
                        Ok((seq![], k))
                    };
                    match args {
                        Err(e) => Err(e),
                        Ok((arguments, m)) => match p_directives(t, m, seq![]) {
                            Err(e) => Err(e),
                            Ok((directives, n)) => {
                                let sub = if n < t.len() && kind_at(t, n) is BraceL {
                                    if n < j || n > t.len() {
                                        stalled()
                                    } else {
                                        match p_selection_set(t, n) {
                                            Err(e) => Err(e),
                                            Ok((s, q)) => Ok((Some(s), q)),
                                        }
                                    }
                                } else {
                                    Ok((None, n))
                                };
                                match sub {
                                    Err(e) => Err(e),
                                    Ok((selection_set, q)) => Ok(
                                        (
                                            SpecSelection::Field(
                                                SpecField {
                                                    alias,
                                                    name,
                                                    arguments,
                                                    directives,
                                                    selection_set,
                                                },
                                            ),
                                            q,
                                        ),
                                    ),
                                }
                            },
                        },
                    }
                },
            }
        },
    }
}

// ---------------------------------------------------------------------
// Definitions and documents
// ---------------------------------------------------------------------

/// A fragment definition; the token at `i` is the name `fragment`.
#[verifier::opaque]
pub open spec fn p_fragment_definition(t: Seq<SpecToken>, i: nat) -> PResult<SpecFragment> {
    match p_name(t, bump(t, i)) {
        Err(e) => Err(e),
        Ok((name, j)) => if name == "on"@ {
            syntax_at(t, j, msg_fragment_named_on())
        } else if !is_name_token(kind_at(t, j), "on"@) {
            syntax_at(t, j, msg_missing_on(kind_at(t, j)))
        } else {
            match p_name(t, bump(t, j)) {
                Err(e) => Err(e),
                Ok((type_condition, k)) => match p_directives(t, k, seq![]) {
                    Err(e) => Err(e),
                    Ok((directives, m)) => match p_selection_set(t, m) {
                        Err(e) => Err(e),
                        Ok((selection_set, n)) => Ok(
                            (SpecFragment { name, type_condition, directives, selection_set }, n),
                        ),
                    },
                },
            }
        },
    }
}

/// The operation type that a keyword names, or the error for it.
pub open spec fn operation_keyword(t: Seq<SpecToken>, i: nat) -> PResult<OperationType> {
    match kind_at(t, i) {
        SpecTokenKind::Name(s) => if s == "query"@ {
            Ok((OperationType::Query, bump(t, i)))
        } else if s == "mutation"@ {
            Ok((OperationType::Mutation, bump(t, i)))
        } else if s == "subscription"@ {
            syntax_at(t, i, msg_subscription())
        } else {
            syntax_at(t, i, msg_unknown_operation(s))
        },
        other => syntax_at(t, i, msg_operation_start(other)),
    }
}

/// An operation definition: the shorthand `{ ... }` or
/// `query|mutation Name? variables? directives { ... }`.
#[verifier::opaque]
pub open spec fn p_operation(t: Seq<SpecToken>, i: nat) -> PResult<SpecOperation> {
    if kind_at(t, i) is BraceL {
        match p_selection_set(t, i) {
            Err(e) => Err(e),
            Ok((selection_set, j)) => Ok(
                (
                    SpecOperation {
                        operation: OperationType::Query,
                        name: None,
                        variable_definitions: seq![],
                        directives: seq![],
                        selection_set,
                    },
                    j,
                ),
            ),
        }
    } else {
        match operation_keyword(t, i) {
            Err(e) => Err(e),
            Ok((operation, j)) => {
                let named = if kind_at(t, j) is Name {
                    match p_name(t, j) {
                        Err(e) => Err(e),
                        Ok((n, k)) => Ok((Some(n), k)),
                    }
                } else {
                    Ok((None, j))
                };
                match named {
                    Err(e) => Err(e),
                    Ok((name, k)) => {
                        let vars = if kind_at(t, k) is ParenL {
                            p_variables(t, k)
                        } else {
                            Ok((seq![], k))
                        };
                        match vars {
                            Err(e) => Err(e),
                            Ok((variable_definitions, m)) => match p_directives(t, m, seq![]) {
                                Err(e) => Err(e),
                                Ok((directives, n)) => match p_selection_set(t, n) {
                                    Err(e) => Err(e),
                                    Ok((selection_set, q)) => Ok(
                                        (
                                            SpecOperation {
                                                operation,
                                                name,
                                                variable_definitions,
                                                directives,
                                                selection_set,
                                            },
                                            q,
                                        ),
                                    ),
                                },
                            },
                        }
                    },
                }
            },
        }
    }
}

/// The definitions of a document from `i`, after the operations `ops` and
/// fragments `frags`.
pub open spec fn p_document(
    t: Seq<SpecToken>,
    i: nat,
    ops: Seq<SpecOperation>,
    frags: Seq<SpecFragment>,
) -> Result<SpecDocument, SpecParseError>
    decreases t.len() - i,
{
    if i >= t.len() {
        Err(SpecParseError::Syntax { message: seq![], position: 0 })
    } else if kind_at(t, i) is Eof {
        if ops.len() == 0 && frags.len() == 0 {
            Err(SpecParseError::Syntax { message: msg_empty_document(), position: t[i as int].start })
        } else {
            Ok(SpecDocument { operations: ops, fragments: frags })
        }
    } else if is_name_token(kind_at(t, i), "fragment"@) {
        match p_fragment_definition(t, i) {
            Err(e) => Err(e),
            Ok((f, j)) => if j <= i || j > t.len() {
                Err(SpecParseError::Syntax { message: seq![], position: 0 })
            } else {
                p_document(t, j, ops, frags.push(f))
            },
        }
    } else {
        match p_operation(t, i) {
            Err(e) => Err(e),
            Ok((o, j)) => if j <= i || j > t.len() {
                Err(SpecParseError::Syntax { message: seq![], position: 0 })
            } else {
                p_document(t, j, ops.push(o), frags)
            },
        }
    }
}

/// The document that a query text denotes, or why it does not parse.
pub open spec fn spec_parse(s: Seq<char>) -> Result<SpecDocument, SpecParseError> {
    match spec_tokenize(s) {
        Err(e) => Err(SpecParseError::Lex(e)),
        Ok(t) => p_document(t, 0, seq![], seq![]),
    }
}

} // verus!
