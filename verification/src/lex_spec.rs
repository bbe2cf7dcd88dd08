//! The lexical grammar of GraphQL queries, stated over the characters of
//! the input. `spec_tokenize` is what `tokenize` computes.

use vstd::prelude::*;

use crate::block_spec::dedent;
use crate::text::{char_debug, hex4_text, hex_value, is_digit, is_name_continue, is_name_start};
use crate::token::{SpecToken, SpecTokenKind};

verus! {

/// The model of a lexical error: a message and a character offset.
pub struct SpecLexError {
    pub message: Seq<char>,
    pub position: nat,
}

pub open spec fn lex_err<T>(message: Seq<char>, position: nat) -> Result<T, SpecLexError> {
    Err(SpecLexError { message, position })
}

// ---------------------------------------------------------------------
// Messages
// ---------------------------------------------------------------------

pub open spec fn msg_unexpected_char(c: char) -> Seq<char> {
    "予期しない文字 "@ + char_debug(c)
}

pub open spec fn msg_lone_dot() -> Seq<char> {
    "'.' は '...'(スプレッド)としてのみ有効です"@
}

pub open spec fn msg_leading_zero() -> Seq<char> {
    "整数リテラルの先頭に余分な '0' があります"@
}

pub open spec fn msg_no_integer_part() -> Seq<char> {
    "数値リテラルの整数部がありません"@
}

pub open spec fn msg_no_fraction_digits() -> Seq<char> {
    "小数点の後に数字がありません"@
}

pub open spec fn msg_no_exponent_digits() -> Seq<char> {
    "指数部に数字がありません"@
}

pub open spec fn msg_unterminated_string() -> Seq<char> {
    "文字列リテラルが閉じられていません"@
}

pub open spec fn msg_raw_newline() -> Seq<char> {
    "通常の文字列リテラルに生の改行は使えません"@
}

pub open spec fn msg_incomplete_escape() -> Seq<char> {
    "文字列末尾の不完全なエスケープ"@
}

pub open spec fn msg_bad_escape(c: char) -> Seq<char> {
    "不正なエスケープ '\\"@ + seq![c] + "'"@
}

pub open spec fn msg_short_unicode_escape() -> Seq<char> {
    "\\u エスケープが4桁に足りません"@
}

pub open spec fn msg_bad_hex_digit(c: char) -> Seq<char> {
    "\\u エスケープに不正な16進数字 "@ + char_debug(c)
}

pub open spec fn msg_bad_code_point(code: nat) -> Seq<char> {
    "不正なUnicodeコードポイント U+"@ + hex4_text(code)
}

pub open spec fn msg_unterminated_block_string() -> Seq<char> {
    "ブロック文字列が閉じられていません"@
}

// ---------------------------------------------------------------------
// Ignored tokens
// ---------------------------------------------------------------------

/// White space, line terminators, commas and the byte order mark.
pub open spec fn is_ignored(c: char) -> bool {
    c == ' ' || c == '\t' || c == '\n' || c == '\r' || c == ',' || c == '\u{feff}'
}

pub open spec fn is_line_end(c: char) -> bool {
    c == '\n' || c == '\r'
}

/// The first position at or after `i` that starts a token (or the end of
/// input). `in_comment` is true inside a `#` comment, which runs to the end
/// of its line.
pub open spec fn skip_ignored(s: Seq<char>, i: nat, in_comment: bool) -> nat
    decreases s.len() - i,
{
    if i >= s.len() {
        i
    } else if in_comment {
        if is_line_end(s[i as int]) {
            skip_ignored(s, i + 1, false)
        } else {
            skip_ignored(s, i + 1, true)
        }
    } else if is_ignored(s[i as int]) {
        skip_ignored(s, i + 1, false)
    } else if s[i as int] == '#' {
        skip_ignored(s, i + 1, true)
    } else {
        i
    }
}

// ---------------------------------------------------------------------
// Names and numbers
// ---------------------------------------------------------------------

/// The end of the run of name characters that starts at `i`.
pub open spec fn scan_name(s: Seq<char>, i: nat) -> nat
    decreases s.len() - i,
{
    if i < s.len() && is_name_continue(s[i as int]) {
        scan_name(s, i + 1)
    } else {
        i
    }
}

/// The end of the run of decimal digits that starts at `i`.
pub open spec fn scan_digits(s: Seq<char>, i: nat) -> nat
    decreases s.len() - i,
{
    if i < s.len() && is_digit(s[i as int]) {
        scan_digits(s, i + 1)
    } else {
        i
    }
}

pub open spec fn char_at_is(s: Seq<char>, i: nat, c: char) -> bool {
    i < s.len() && s[i as int] == c
}

/// The exponent part of a number whose integer and fraction parts end at
/// `p`; `is_float` tells whether a fraction part was present.
pub open spec fn lex_exponent(s: Seq<char>, start: nat, p: nat, is_float: bool) -> Result<
    (SpecTokenKind, nat),
    SpecLexError,
> {
    if char_at_is(s, p, 'e') || char_at_is(s, p, 'E') {
        let q = if char_at_is(s, p + 1, '+') || char_at_is(s, p + 1, '-') {
            p + 2
        } else {
            p + 1
        };
        let e = scan_digits(s, q);
        if e == q {
            lex_err(msg_no_exponent_digits(), start)
        } else {
            Ok((SpecTokenKind::Float(s.subrange(start as int, e as int)), e))
        }
    } else if is_float {
        Ok((SpecTokenKind::Float(s.subrange(start as int, p as int)), p))
    } else {
        Ok((SpecTokenKind::Int(s.subrange(start as int, p as int)), p))
    }
}

/// The fraction and exponent parts of a number whose integer part ends
/// at `p`.
pub open spec fn lex_fraction(s: Seq<char>, start: nat, p: nat) -> Result<
    (SpecTokenKind, nat),
    SpecLexError,
> {
    if char_at_is(s, p, '.') {
        let e = scan_digits(s, p + 1);
        if e == p + 1 {
            lex_err(msg_no_fraction_digits(), start)
        } else {
            lex_exponent(s, start, e, true)
        }
    } else {
        lex_exponent(s, start, p, false)
    }
}

/// An `IntValue` or `FloatValue` starting at `start` (at `-` or a digit).
pub open spec fn lex_number(s: Seq<char>, start: nat) -> Result<(SpecTokenKind, nat), SpecLexError> {
    let p = if char_at_is(s, start, '-') {
        start + 1
    } else {
        start
    };
    if char_at_is(s, p, '0') {
        if p + 1 < s.len() && is_digit(s[(p + 1) as int]) {
            lex_err(msg_leading_zero(), start)
        } else {
            lex_fraction(s, start, p + 1)
        }
    } else if p < s.len() && is_digit(s[p as int]) {
        lex_fraction(s, start, scan_digits(s, p))
    } else {
        lex_err(msg_no_integer_part(), start)
    }
}

// ---------------------------------------------------------------------
// Strings
// ---------------------------------------------------------------------

/// The code of the four hexadecimal digits of a `\u` escape that begin at
/// `i`, having read `k` of them into `code`.
pub open spec fn hex_escape_code(s: Seq<char>, start: nat, i: nat, k: nat, code: nat) -> Result<
    nat,
    SpecLexError,
>
    decreases 4 - k,
{
    if k >= 4 {
        Ok(code)
    } else if i + k >= s.len() {
        lex_err(msg_short_unicode_escape(), start)
    } else {
        match hex_value(s[(i + k) as int]) {
            None => lex_err(msg_bad_hex_digit(s[(i + k) as int]), start),
            Some(d) => hex_escape_code(s, start, i, k + 1, (code * 16 + d) as nat),
        }
    }
}

pub open spec fn is_scalar_value(code: nat) -> bool {
    code <= 0x10FFFF && !(0xD800 <= code && code <= 0xDFFF)
}

/// The character of a `\uXXXX` escape whose digits begin at `i`.
pub open spec fn unicode_escape(s: Seq<char>, start: nat, i: nat) -> Result<char, SpecLexError> {
    match hex_escape_code(s, start, i, 0, 0) {
        Err(e) => Err(e),
        Ok(code) => if is_scalar_value(code) {
            Ok(code as char)
        } else {
            lex_err(msg_bad_code_point(code), start)
        },
    }
}

/// The character that a one-letter escape `\e` stands for.
pub open spec fn simple_escape(e: char) -> Option<char> {
    if e == '"' {
        Some('"')
    } else if e == '\\' {
        Some('\\')
    } else if e == '/' {
        Some('/')
    } else if e == 'b' {
        Some('\u{0008}')
    } else if e == 'f' {
        Some('\u{000c}')
    } else if e == 'n' {
        Some('\n')
    } else if e == 'r' {
        Some('\r')
    } else if e == 't' {
        Some('\t')
    } else {
        None
    }
}

/// The rest of a quoted string from position `i`, with `acc` decoded so
/// far; yields the decoded text and the position after the closing quote.
pub open spec fn lex_string_body(s: Seq<char>, start: nat, i: nat, acc: Seq<char>) -> Result<
    (Seq<char>, nat),
    SpecLexError,
>
    decreases s.len() - i,
{
    if i >= s.len() {
        lex_err(msg_unterminated_string(), start)
    } else {
        let c = s[i as int];
        if c == '"' {
            Ok((acc, i + 1))
        } else if is_line_end(c) {
            lex_err(msg_raw_newline(), start)
        } else if c == '\\' {
            if i + 1 >= s.len() {
                lex_err(msg_incomplete_escape(), start)
            } else {
                let e = s[(i + 1) as int];
                match simple_escape(e) {
                    Some(x) => lex_string_body(s, start, i + 2, acc.push(x)),
                    None => if e == 'u' {
                        match unicode_escape(s, start, i + 2) {
                            Err(err) => Err(err),
                            Ok(x) => {
                                proof {
                                    lemma_hex_escape_in_bounds(s, start, i + 2, 0, 0);
                                }
                                lex_string_body(s, start, i + 6, acc.push(x))
                            },
                        }
                    } else {
                        lex_err(msg_bad_escape(e), start)
                    },
                }
            }
        } else {
            lex_string_body(s, start, i + 1, acc.push(c))
        }
    }
}

pub open spec fn triple_quote_at(s: Seq<char>, i: nat) -> bool {
    i + 2 < s.len() && s[i as int] == '"' && s[(i + 1) as int] == '"' && s[(i + 2) as int] == '"'
}

/// The raw text of a block string from position `i` up to its closing
/// `"""` (with `\"""` read as `"""`), and the position after it.
pub open spec fn block_raw(s: Seq<char>, start: nat, i: nat, raw: Seq<char>) -> Result<
    (Seq<char>, nat),
    SpecLexError,
>
    decreases s.len() - i,
{
    if triple_quote_at(s, i) {
        Ok((raw, i + 3))
    } else if i >= s.len() {
        lex_err(msg_unterminated_block_string(), start)
    } else if s[i as int] == '\\' && triple_quote_at(s, i + 1) {
        block_raw(s, start, i + 4, raw + seq!['"', '"', '"'])
    } else {
        block_raw(s, start, i + 1, raw.push(s[i as int]))
    }
}

/// A string literal (quoted or block) starting at the `"` at `start`.
pub open spec fn lex_string(s: Seq<char>, start: nat) -> Result<(SpecTokenKind, nat), SpecLexError> {
    if triple_quote_at(s, start) {
        match block_raw(s, start, start + 3, seq![]) {
            Err(e) => Err(e),
            Ok((raw, end)) => Ok((SpecTokenKind::Str(dedent(raw)), end)),
        }
    } else {
        match lex_string_body(s, start, start + 1, seq![]) {
            Err(e) => Err(e),
            Ok((text, end)) => Ok((SpecTokenKind::Str(text), end)),
        }
    }
}

// ---------------------------------------------------------------------
// Tokens
// ---------------------------------------------------------------------

pub open spec fn punctuator(c: char) -> Option<SpecTokenKind> {
    if c == '!' {
        Some(SpecTokenKind::Bang)
    } else if c == '$' {
        Some(SpecTokenKind::Dollar)
    } else if c == '&' {
        Some(SpecTokenKind::Amp)
    } else if c == '(' {
        Some(SpecTokenKind::ParenL)
    } else if c == ')' {
        Some(SpecTokenKind::ParenR)
    } else if c == ':' {
        Some(SpecTokenKind::Colon)
    } else if c == '=' {
        Some(SpecTokenKind::Equals)
    } else if c == '@' {
        Some(SpecTokenKind::At)
    } else if c == '[' {
        Some(SpecTokenKind::BracketL)
    } else if c == ']' {
        Some(SpecTokenKind::BracketR)
    } else if c == '{' {
        Some(SpecTokenKind::BraceL)
    } else if c == '}' {
        Some(SpecTokenKind::BraceR)
    } else if c == '|' {
        Some(SpecTokenKind::Pipe)
    } else {
        None
    }
}

/// The token that starts at `p` (already past ignored characters) and the
/// position after it.
#[verifier::opaque]
pub open spec fn lex_token_at(s: Seq<char>, p: nat) -> Result<(SpecTokenKind, nat), SpecLexError> {
    if p >= s.len() {
        Ok((SpecTokenKind::Eof, p))
    } else {
        let c = s[p as int];
        match punctuator(c) {
            Some(k) => Ok((k, p + 1)),
            None => if c == '.' {
                if char_at_is(s, p + 1, '.') && char_at_is(s, p + 2, '.') {
                    Ok((SpecTokenKind::Spread, p + 3))
                } else {
                    lex_err(msg_lone_dot(), p)
                }
            } else if c == '"' {
                lex_string(s, p)
            } else if is_name_start(c) {
                let e = scan_name(s, p);
                Ok((SpecTokenKind::Name(s.subrange(p as int, e as int)), e))
            } else if c == '-' || is_digit(c) {
                lex_number(s, p)
            } else {
                lex_err(msg_unexpected_char(c), p)
            },
        }
    }
}

/// The tokens produced from position `i` onwards, and how lexing ends:
/// `Ok(())` after `Eof`, or the first lexical error.
pub open spec fn lex_from(s: Seq<char>, i: nat) -> (Seq<SpecToken>, Result<(), SpecLexError>)
    decreases s.len() - i,
{
    let p = skip_ignored(s, i, false);
    match lex_token_at(s, p) {
        Err(e) => (seq![], Err(e)),
        Ok((kind, end)) => {
            let tok = SpecToken { kind, start: p };
            if kind is Eof {
                (seq![tok], Ok(()))
            } else {
                proof {
                    lemma_skip_ignored_ge(s, i, false);
                    lemma_token_advances(s, p);
                }
                let rest = lex_from(s, end);
                (seq![tok] + rest.0, rest.1)
            }
        },
    }
}

/// The tokens of the input (ending with `Eof`), or the first lexical error.
pub open spec fn spec_tokenize(s: Seq<char>) -> Result<Seq<SpecToken>, SpecLexError> {
    let r = lex_from(s, 0);
    match r.1 {
        Ok(_) => Ok(r.0),
        Err(e) => Err(e),
    }
}

// ---------------------------------------------------------------------
// Every token but `Eof` consumes input
// ---------------------------------------------------------------------

pub proof fn lemma_skip_ignored_ge(s: Seq<char>, i: nat, in_comment: bool)
    ensures
        skip_ignored(s, i, in_comment) >= i,
        i <= s.len() ==> skip_ignored(s, i, in_comment) <= s.len(),
    decreases s.len() - i,
{
    if i < s.len() {
        lemma_skip_ignored_ge(s, i + 1, false);
        lemma_skip_ignored_ge(s, i + 1, true);
    }
}

pub proof fn lemma_scan_name_ge(s: Seq<char>, i: nat)
    ensures
        scan_name(s, i) >= i,
        i <= s.len() ==> scan_name(s, i) <= s.len(),
    decreases s.len() - i,
{
    if i < s.len() && is_name_continue(s[i as int]) {
        lemma_scan_name_ge(s, i + 1);
    }
}

pub proof fn lemma_scan_digits_ge(s: Seq<char>, i: nat)
    ensures
        scan_digits(s, i) >= i,
        i <= s.len() ==> scan_digits(s, i) <= s.len(),
    decreases s.len() - i,
{
    if i < s.len() && is_digit(s[i as int]) {
        lemma_scan_digits_ge(s, i + 1);
    }
}

pub proof fn lemma_hex_escape_in_bounds(s: Seq<char>, start: nat, i: nat, k: nat, code: nat)
    requires
        k <= 4,
    ensures
        hex_escape_code(s, start, i, k, code) is Ok ==> i + 4 <= s.len() || k == 4,
    decreases 4 - k,
{
    if k < 4 && i + k < s.len() {
        if let Some(d) = hex_value(s[(i + k) as int]) {
            lemma_hex_escape_in_bounds(s, start, i, k + 1, (code * 16 + d) as nat);
        }
    }
}

pub proof fn lemma_string_body_advances(s: Seq<char>, start: nat, i: nat, acc: Seq<char>)
    ensures
        lex_string_body(s, start, i, acc) matches Ok((_, end)) ==> i < end <= s.len(),
    decreases s.len() - i,
{
    if i < s.len() {
        let c = s[i as int];
        if c == '\\' && i + 1 < s.len() {
            let e = s[(i + 1) as int];
            match simple_escape(e) {
                Some(x) => lemma_string_body_advances(s, start, i + 2, acc.push(x)),
                None => if e == 'u' {
                    lemma_hex_escape_in_bounds(s, start, i + 2, 0, 0);
                    if let Ok(x) = unicode_escape(s, start, i + 2) {
                        lemma_string_body_advances(s, start, i + 6, acc.push(x));
                    }
                },
            }
        } else if c != '"' && !is_line_end(c) && c != '\\' {
            lemma_string_body_advances(s, start, i + 1, acc.push(c));
        }
    }
}

pub proof fn lemma_block_raw_advances(s: Seq<char>, start: nat, i: nat, raw: Seq<char>)
    ensures
        block_raw(s, start, i, raw) matches Ok((_, end)) ==> i + 3 <= end <= s.len(),
    decreases s.len() - i,
{
    if !triple_quote_at(s, i) && i < s.len() {
        if s[i as int] == '\\' && triple_quote_at(s, i + 1) {
            lemma_block_raw_advances(s, start, i + 4, raw + seq!['"', '"', '"']);
        } else {
            lemma_block_raw_advances(s, start, i + 1, raw.push(s[i as int]));
        }
    }
}

pub proof fn lemma_number_advances(s: Seq<char>, start: nat)
    requires
        start < s.len(),
    ensures
        lex_number(s, start) matches Ok((_, end)) ==> start < end <= s.len(),
{
    let p = if char_at_is(s, start, '-') {
        start + 1
    } else {
        start
    };
    lemma_scan_digits_ge(s, p);
    lemma_scan_digits_ge(s, p + 1);
    lemma_scan_digits_ge(s, p + 2);
    let q = scan_digits(s, p);
    lemma_scan_digits_ge(s, q + 1);
    lemma_scan_digits_ge(s, q + 2);
    let r = scan_digits(s, q + 1);
    lemma_scan_digits_ge(s, r + 1);
    lemma_scan_digits_ge(s, r + 2);
    let r2 = scan_digits(s, p + 2);
    lemma_scan_digits_ge(s, r2 + 1);
    lemma_scan_digits_ge(s, r2 + 2);
}

pub proof fn lemma_token_advances(s: Seq<char>, p: nat)
    ensures
        lex_token_at(s, p) matches Ok((k, end)) ==> (k is Eof && end == p && p >= s.len()) || (!(
        k is Eof) && p < end <= s.len()),
{
    reveal(lex_token_at);
    if p < s.len() {
        let c = s[p as int];
        if punctuator(c) is None {
            if c == '"' {
                lemma_block_raw_advances(s, p, p + 3, seq![]);
                lemma_string_body_advances(s, p, p + 1, seq![]);
            } else if is_name_start(c) {
                lemma_scan_name_ge(s, p + 1);
                assert(is_name_continue(c));
            } else if c == '-' || is_digit(c) {
                lemma_number_advances(s, p);
            }
        }
    }
}

/// One step of `lex_from`.
pub proof fn lemma_lex_from_step(s: Seq<char>, i: nat)
    ensures
        ({
            let p = skip_ignored(s, i, false);
            match lex_token_at(s, p) {
                Err(e) => lex_from(s, i) == (Seq::<SpecToken>::empty(), Err::<(), SpecLexError>(e)),
                Ok((k, end)) => {
                    let tok = SpecToken { kind: k, start: p };
                    if k is Eof {
                        lex_from(s, i) == (seq![tok], Ok::<(), SpecLexError>(()))
                    } else {
                        &&& end > i
                        &&& lex_from(s, i) == (seq![tok] + lex_from(s, end).0, lex_from(s, end).1)
                    }
                },
            }
        }),
{
    let p = skip_ignored(s, i, false);
    lemma_skip_ignored_ge(s, i, false);
    lemma_token_advances(s, p);
}

/// The tokens produced from `i` end with `Eof`, which occurs nowhere else,
/// and their offsets lie in `[i, s.len()]` and strictly increase.
pub proof fn lemma_lex_from_shape(s: Seq<char>, i: nat)
    requires
        i <= s.len(),
    ensures
        ({
            let toks = lex_from(s, i).0;
            &&& lex_from(s, i).1 is Ok ==> toks.len() > 0 && toks.last().kind is Eof
            &&& forall|k: int| 0 <= k < toks.len() - 1 ==> !(#[trigger] toks[k].kind is Eof)
            &&& forall|k: int| 0 <= k < toks.len() ==> i <= #[trigger] toks[k].start <= s.len()
            &&& forall|a: int, b: int|
                0 <= a < b < toks.len() ==> #[trigger] toks[a].start < #[trigger] toks[b].start
        }),
    decreases s.len() - i,
{
    lemma_lex_from_step(s, i);
    lemma_skip_ignored_ge(s, i, false);
    let p = skip_ignored(s, i, false);
    lemma_token_advances(s, p);
    match lex_token_at(s, p) {
        Err(_) => {},
        Ok((k, end)) => {
            if !(k is Eof) {
                lemma_lex_from_shape(s, end);
                let rest = lex_from(s, end).0;
                let toks = lex_from(s, i).0;
                assert forall|x: int| 0 <= x < toks.len() implies i <= #[trigger] toks[x].start
                    <= s.len() by {
                    if x > 0 {
                        assert(toks[x] == rest[x - 1]);
                    }
                }
                assert forall|a: int, b: int| 0 <= a < b < toks.len() implies #[trigger] toks[a].start
                    < #[trigger] toks[b].start by {
                    assert(toks[b] == rest[b - 1]);
                    if a > 0 {
                        assert(toks[a] == rest[a - 1]);
                    }
                }
                assert forall|x: int| 0 <= x < toks.len() - 1 implies !(#[trigger] toks[x].kind is Eof) by {
                    if x > 0 {
                        assert(toks[x] == rest[x - 1]);
                    }
                }
                if lex_from(s, i).1 is Ok {
                    assert(toks.last() == rest.last());
                }
            }
        },
    }
}

} // verus!
