//! The tokenizer of the GraphQL query language.
//!
//! Ignored tokens (white space, line terminators, tabs, the byte order
//! mark, commas and `#` comments), punctuators `! $ & ( ) ... : = @ [ ] { } |`,
//! names, integer and float literals, quoted strings (with the escapes
//! `\" \\ \/ \b \f \n \r \t` and `\uXXXX`) and block strings (with their
//! common indentation removed). The grammar is stated in `lex_spec`.

use vstd::prelude::*;

use crate::block_string::dedent_exec;
use crate::lex_spec::{
    block_raw, hex_escape_code, lex_exponent, lex_from, lex_number, lex_string, lex_string_body,
    lex_token_at, msg_bad_escape, msg_lone_dot, scan_digits, scan_name, skip_ignored,
    spec_tokenize, triple_quote_at, unicode_escape, SpecLexError,
    lemma_skip_ignored_ge, lemma_token_advances, lemma_scan_digits_ge,
};
use crate::text::{
    char_from_code, chars_of, concat, debug_char, hex4_string, hex_value_of, is_digit_char,
    is_name_continue_char, is_name_start_char, owned, push_char, string_of_chars, string_of_range,
};
use crate::token::{
    tokens_view, CollectingSink, SpecToken, SpecTokenKind, Token, TokenKind, TokenSink,
};

verus! {

/// A lexical error, with the character offset of the token it concerns.
#[derive(Debug, Clone, PartialEq)]
pub struct LexError {
    pub message: String,
    pub position: usize,
}

impl View for LexError {
    type V = SpecLexError;

    open spec fn view(&self) -> SpecLexError {
        SpecLexError { message: self.message@, position: self.position as nat }
    }
}

impl LexError {
    /// The text that the error shows: `字句エラー(位置 N): message`.
    pub fn to_message(&self) -> (res: String)
        ensures
            res@ == lex_error_text(self@),
    {
        let s = owned("字句エラー(位置 ");
        let s = concat(s, crate::text::decimal_string(self.position).as_str());
        let s = concat(s, "): ");
        concat(s, self.message.as_str())
    }
}

/// The displayed text of a lexical error.
pub open spec fn lex_error_text(e: SpecLexError) -> Seq<char> {
    "字句エラー(位置 "@ + crate::text::decimal_text(e.position) + "): "@ + e.message
}

/// Inputs whose characters fit in memory as a `Vec<char>`.
pub open spec fn fits_in_memory(s: Seq<char>) -> bool {
    4 * s.len() <= isize::MAX
}

fn mk_err(message: String, position: usize) -> (res: LexError)
    ensures
        res.message@ == message@,
        res.position == position,
{
    LexError { message, position }
}

/// Whether `r` is the token (or error) that the grammar gives at `start`.
pub open spec fn token_matches(
    r: Result<Token, LexError>,
    spec: Result<(SpecTokenKind, nat), SpecLexError>,
    start: nat,
) -> bool {
    match spec {
        Ok((k, _)) => r matches Ok(t) && t.kind@ == k && t.start == start,
        Err(e) => r matches Err(x) && x@ == e,
    }
}

pub open spec fn end_of(spec: Result<(SpecTokenKind, nat), SpecLexError>) -> nat {
    match spec {
        Ok((_, e)) => e,
        Err(_) => 0,
    }
}

struct Lexer {
    chars: Vec<char>,
    pos: usize,
}

impl Lexer {
    spec fn s(&self) -> Seq<char> {
        self.chars@
    }

    spec fn wf(&self) -> bool {
        &&& self.pos <= self.chars@.len()
        &&& 4 * self.chars@.len() <= usize::MAX
    }

    fn new(input: &str) -> (res: Self)
        requires
            fits_in_memory(input@),
        ensures
            res.chars@ == input@,
            res.pos == 0,
            res.wf(),
    {
        Lexer { chars: chars_of(input), pos: 0 }
    }

    fn peek(&self) -> (res: Option<char>)
        ensures
            self.pos < self.chars@.len() ==> res == Some(self.chars@[self.pos as int]),
            self.pos >= self.chars@.len() ==> res is None,
    {
        if self.pos < self.chars.len() {
            Some(self.chars[self.pos])
        } else {
            None
        }
    }

    fn peek_at(&self, offset: usize) -> (res: Option<char>)
        requires
            self.wf(),
            offset <= 3,
        ensures
            self.pos + offset < self.chars@.len() ==> res == Some(
                self.chars@[self.pos + offset],
            ),
            self.pos + offset >= self.chars@.len() ==> res is None,
    {
        if offset < self.chars.len() - self.pos {
            Some(self.chars[self.pos + offset])
        } else {
            None
        }
    }

    /// `"""` at the current position plus `offset`.
    fn triple_quote_ahead(&self, offset: usize) -> (res: bool)
        requires
            self.wf(),
            offset <= 1,
        ensures
            res == triple_quote_at(self.s(), (self.pos + offset) as nat),
    {
        self.peek_at(offset) == Some('"') && self.peek_at(offset + 1) == Some('"') && self.peek_at(
            offset + 2,
        ) == Some('"')
    }

    /// Skips white space, line terminators, commas, the byte order mark
    /// and comments.
    #[verifier::loop_isolation(false)]
    fn skip_ignored(&mut self)
        requires
            old(self).wf(),
        ensures
            final(self).wf(),
            final(self).s() == old(self).s(),
            final(self).pos == skip_ignored(old(self).s(), old(self).pos as nat, false),
    {
        let ghost s = self.s();
        let ghost target = skip_ignored(s, self.pos as nat, false);
        loop
            invariant
                self.wf(),
                self.s() == s,
                target == skip_ignored(s, self.pos as nat, false),
            decreases self.chars@.len() - self.pos,
        {
            match self.peek() {
                None => {
                    return;
                },
                Some(c) => {
                    if c == ' ' || c == '\t' || c == '\n' || c == '\r' || c == ',' || c
                        == '\u{feff}' {
                        self.pos = self.pos + 1;
                    } else if c == '#' {
                        let ghost p_hash = self.pos;
                        self.pos = self.pos + 1;
                        // A comment runs to the end of its line.
                        loop
                            invariant
                                self.wf(),
                                self.s() == s,
                                self.pos >= p_hash + 1,
                                target == skip_ignored(s, self.pos as nat, true),
                            decreases self.chars@.len() - self.pos,
                        {
                            match self.peek() {
                                None => {
                                    return;
                                },
                                Some(cc) => {
                                    if cc == '\n' || cc == '\r' {
                                        break;
                                    }
                                    self.pos = self.pos + 1;
                                },
                            }
                        }
                    } else {
                        return;
                    }
                },
            }
        }
    }

    fn single(&mut self, kind: TokenKind) -> (res: Token)
        requires
            old(self).wf(),
            old(self).pos < old(self).chars@.len(),
        ensures
            final(self).wf(),
            final(self).s() == old(self).s(),
            final(self).pos == old(self).pos + 1,
            res.kind == kind,
            res.start == old(self).pos,
    {
        let start = self.pos;
        self.pos = self.pos + 1;
        Token::new(kind, start)
    }

    /// A name; the current character is a name start.
    #[verifier::loop_isolation(false)]
    fn lex_name(&mut self, start: usize) -> (res: Token)
        requires
            old(self).wf(),
            old(self).pos == start,
        ensures
            final(self).wf(),
            final(self).s() == old(self).s(),
            final(self).pos == scan_name(old(self).s(), start as nat),
            res.kind@ == SpecTokenKind::Name(
                old(self).s().subrange(start as int, scan_name(old(self).s(), start as nat) as int),
            ),
            res.start == start,
    {
        let ghost s = self.s();
        while self.pos < self.chars.len() && is_name_continue_char(self.chars[self.pos])
            invariant
                self.wf(),
                self.s() == s,
                start <= self.pos,
                scan_name(s, start as nat) == scan_name(s, self.pos as nat),
            decreases self.chars@.len() - self.pos,
        {
            self.pos = self.pos + 1;
        }
        let text = string_of_range(&self.chars, start, self.pos);
        Token::new(TokenKind::Name(text), start)
    }

    /// Advances over a run of digits.
    #[verifier::loop_isolation(false)]
    fn skip_digits(&mut self)
        requires
            old(self).wf(),
        ensures
            final(self).wf(),
            final(self).s() == old(self).s(),
            final(self).pos == scan_digits(old(self).s(), old(self).pos as nat),
    {
        let ghost s = self.s();
        let ghost p0 = self.pos;
        while self.pos < self.chars.len() && is_digit_char(self.chars[self.pos])
            invariant
                self.wf(),
                self.s() == s,
                scan_digits(s, p0 as nat) == scan_digits(s, self.pos as nat),
            decreases self.chars@.len() - self.pos,
        {
            self.pos = self.pos + 1;
        }
    }

    /// The exponent part of a number (see `lex_exponent`).
    fn lex_exponent(&mut self, start: usize, is_float: bool) -> (res: Result<Token, LexError>)
        requires
            old(self).wf(),
            start <= old(self).pos,
        ensures
            final(self).wf(),
            final(self).s() == old(self).s(),
            token_matches(
                res,
                lex_exponent(old(self).s(), start as nat, old(self).pos as nat, is_float),
                start as nat,
            ),
            res is Ok ==> final(self).pos == end_of(
                lex_exponent(old(self).s(), start as nat, old(self).pos as nat, is_float),
            ),
    {
        let ghost s = self.s();
        let ghost p = self.pos as nat;
        let c = self.peek();
        if c == Some('e') || c == Some('E') {
            self.pos = self.pos + 1;
            let d = self.peek();
            if d == Some('+') || d == Some('-') {
                self.pos = self.pos + 1;
            }
            let q = self.pos;
            self.skip_digits();
            proof {
                lemma_scan_digits_ge(s, q as nat);
            }
            if self.pos == q {
                return Err(mk_err(owned("指数部に数字がありません"), start));
            }
            let text = string_of_range(&self.chars, start, self.pos);
            Ok(Token::new(TokenKind::Float(text), start))
        } else {
            let text = string_of_range(&self.chars, start, self.pos);
            if is_float {
                Ok(Token::new(TokenKind::Float(text), start))
            } else {
                Ok(Token::new(TokenKind::Int(text), start))
            }
        }
    }

    /// An integer or float literal; the current character is `-` or a digit.
    fn lex_number(&mut self, start: usize) -> (res: Result<Token, LexError>)
        requires
            old(self).wf(),
            old(self).pos == start,
        ensures
            final(self).wf(),
            final(self).s() == old(self).s(),
            token_matches(res, lex_number(old(self).s(), start as nat), start as nat),
            res is Ok ==> final(self).pos == end_of(lex_number(old(self).s(), start as nat)),
    {
        let ghost s = self.s();
        if self.peek() == Some('-') {
            self.pos = self.pos + 1;
        }
        let ghost p = self.pos as nat;
        match self.peek() {
            Some('0') => {
                self.pos = self.pos + 1;
                if let Some(c) = self.peek() {
                    if is_digit_char(c) {
                        return Err(mk_err(owned("整数リテラルの先頭に余分な '0' があります"), start));
                    }
                }
            },
            Some(c) => {
                if is_digit_char(c) {
                    self.skip_digits();
                } else {
                    return Err(mk_err(owned("数値リテラルの整数部がありません"), start));
                }
            },
            None => {
                return Err(mk_err(owned("数値リテラルの整数部がありません"), start));
            },
        }
        proof {
            lemma_scan_digits_ge(s, p);
        }
        // Fraction part.
        if self.peek() == Some('.') {
            self.pos = self.pos + 1;
            let q = self.pos;
            self.skip_digits();
            if self.pos == q {
                return Err(mk_err(owned("小数点の後に数字がありません"), start));
            }
            proof {
                lemma_scan_digits_ge(s, q as nat);
            }
            self.lex_exponent(start, true)
        } else {
            self.lex_exponent(start, false)
        }
    }

    /// The four hexadecimal digits of a `\u` escape, as a character.
    #[verifier::loop_isolation(false)]
    fn read_unicode_escape(&mut self, start: usize) -> (res: Result<char, LexError>)
        requires
            old(self).wf(),
        ensures
            final(self).wf(),
            final(self).s() == old(self).s(),
            match unicode_escape(old(self).s(), start as nat, old(self).pos as nat) {
                Ok(c) => res == Ok::<char, LexError>(c) && final(self).pos == old(self).pos + 4,
                Err(e) => res matches Err(x) && x@ == e,
            },
    {
        let ghost s = self.s();
        let ghost i = self.pos as nat;
        let mut code: u32 = 0;
        let mut k: usize = 0;
        while k < 4
            invariant
                self.wf(),
                self.s() == s,
                k <= 4,
                self.pos == i + k,
                hex_escape_code(s, start as nat, i, 0, 0) == hex_escape_code(
                    s,
                    start as nat,
                    i,
                    k as nat,
                    code as nat,
                ),
                k == 0 ==> code < 1,
                k == 1 ==> code < 16,
                k == 2 ==> code < 256,
                k == 3 ==> code < 4096,
                k == 4 ==> code < 65536,
            decreases 4 - k,
        {
            let c = match self.peek() {
                None => {
                    return Err(mk_err(owned("\\u エスケープが4桁に足りません"), start));
                },
                Some(c) => c,
            };
            let d = match hex_value_of(c) {
                None => {
                    let m = concat(owned("\\u エスケープに不正な16進数字 "), debug_char(c).as_str());
                    return Err(mk_err(m, start));
                },
                Some(d) => d,
            };
            self.pos = self.pos + 1;
            code = code * 16 + d;
            k = k + 1;
        }
        match char_from_code(code) {
            Some(c) => Ok(c),
            None => {
                let m = concat(owned("不正なUnicodeコードポイント U+"), hex4_string(code).as_str());
                Err(mk_err(m, start))
            },
        }
    }

    /// A quoted string; the opening quote has been consumed.
    #[verifier::loop_isolation(false)]
    fn lex_normal_string(&mut self, start: usize) -> (res: Result<Token, LexError>)
        requires
            old(self).wf(),
        ensures
            final(self).wf(),
            final(self).s() == old(self).s(),
            match lex_string_body(old(self).s(), start as nat, old(self).pos as nat, seq![]) {
                Ok((text, end)) => res matches Ok(t) && t.kind@ == SpecTokenKind::Str(text)
                    && t.start == start && final(self).pos == end,
                Err(e) => res matches Err(x) && x@ == e,
            },
    {
        let ghost s = self.s();
        let ghost i0 = self.pos as nat;
        let mut acc: Vec<char> = Vec::new();
        loop
            invariant
                self.wf(),
                self.s() == s,
                lex_string_body(s, start as nat, i0, seq![]) == lex_string_body(
                    s,
                    start as nat,
                    self.pos as nat,
                    acc@,
                ),
            decreases self.chars@.len() - self.pos,
        {
            let c = match self.peek() {
                None => {
                    return Err(mk_err(owned("文字列リテラルが閉じられていません"), start));
                },
                Some(c) => c,
            };
            self.pos = self.pos + 1;
            if c == '"' {
                return Ok(Token::new(TokenKind::Str(string_of_chars(&acc)), start));
            } else if c == '\n' || c == '\r' {
                return Err(mk_err(owned("通常の文字列リテラルに生の改行は使えません"), start));
            } else if c == '\\' {
                let esc = match self.peek() {
                    None => {
                        return Err(mk_err(owned("文字列末尾の不完全なエスケープ"), start));
                    },
                    Some(e) => e,
                };
                self.pos = self.pos + 1;
                if esc == '"' {
                    acc.push('"');
                } else if esc == '\\' {
                    acc.push('\\');
                } else if esc == '/' {
                    acc.push('/');
                } else if esc == 'b' {
                    acc.push('\u{0008}');
                } else if esc == 'f' {
                    acc.push('\u{000c}');
                } else if esc == 'n' {
                    acc.push('\n');
                } else if esc == 'r' {
                    acc.push('\r');
                } else if esc == 't' {
                    acc.push('\t');
                } else if esc == 'u' {
                    let cp = self.read_unicode_escape(start)?;
                    acc.push(cp);
                } else {
                    let mut m = owned("不正なエスケープ '\\");
                    push_char(&mut m, esc);
                    let m = concat(m, "'");
                    proof {
                        assert(m@ =~= msg_bad_escape(esc));
                    }
                    return Err(mk_err(m, start));
                }
            } else {
                acc.push(c);
            }
        }
    }

    /// A block string; the opening `"""` has been consumed.
    #[verifier::loop_isolation(false)]
    fn lex_block_string(&mut self, start: usize) -> (res: Result<Token, LexError>)
        requires
            old(self).wf(),
        ensures
            final(self).wf(),
            final(self).s() == old(self).s(),
            match block_raw(old(self).s(), start as nat, old(self).pos as nat, seq![]) {
                Ok((raw, end)) => res matches Ok(t) && t.kind@ == SpecTokenKind::Str(
                    crate::block_spec::dedent(raw),
                ) && t.start == start && final(self).pos == end,
                Err(e) => res matches Err(x) && x@ == e,
            },
    {
        let ghost s = self.s();
        let ghost i0 = self.pos as nat;
        let mut raw: Vec<char> = Vec::new();
        loop
            invariant
                self.wf(),
                self.s() == s,
                raw@.len() <= self.pos,
                block_raw(s, start as nat, i0, seq![]) == block_raw(
                    s,
                    start as nat,
                    self.pos as nat,
                    raw@,
                ),
            decreases self.chars@.len() - self.pos,
        {
            if self.triple_quote_ahead(0) {
                self.pos = self.pos + 3;
                return Ok(Token::new(TokenKind::Str(dedent_exec(&raw)), start));
            }
            let c = match self.peek() {
                None => {
                    return Err(mk_err(owned("ブロック文字列が閉じられていません"), start));
                },
                Some(c) => c,
            };
            if c == '\\' && self.triple_quote_ahead(1) {
                let ghost before = raw@;
                raw.push('"');
                raw.push('"');
                raw.push('"');
                proof {
                    assert(raw@ =~= before + seq!['"', '"', '"']);
                }
                self.pos = self.pos + 4;
            } else {
                raw.push(c);
                self.pos = self.pos + 1;
            }
        }
    }

    /// A string literal, quoted or block; the current character is `"`.
    fn lex_string(&mut self, start: usize) -> (res: Result<Token, LexError>)
        requires
            old(self).wf(),
            old(self).pos == start,
            start < old(self).chars@.len(),
            old(self).s()[start as int] == '"',
        ensures
            final(self).wf(),
            final(self).s() == old(self).s(),
            token_matches(res, lex_string(old(self).s(), start as nat), start as nat),
            res is Ok ==> final(self).pos == end_of(lex_string(old(self).s(), start as nat)),
    {
        if self.triple_quote_ahead(0) {
            self.pos = self.pos + 3;
            self.lex_block_string(start)
        } else {
            self.pos = self.pos + 1;
            self.lex_normal_string(start)
        }
    }

    /// The next token.
    fn next_token(&mut self) -> (res: Result<Token, LexError>)
        requires
            old(self).wf(),
        ensures
            final(self).wf(),
            final(self).s() == old(self).s(),
            ({
                let s = old(self).s();
                let p = skip_ignored(s, old(self).pos as nat, false);
                &&& token_matches(res, lex_token_at(s, p), p)
                &&& res is Ok ==> final(self).pos == end_of(lex_token_at(s, p))
            }),
    {
        proof {
            reveal(lex_token_at);
        }
        self.skip_ignored();
        let start = self.pos;
        let c = match self.peek() {
            None => {
                return Ok(Token::new(TokenKind::Eof, start));
            },
            Some(c) => c,
        };
        if c == '!' {
            return Ok(self.single(TokenKind::Bang));
        } else if c == '$' {
            return Ok(self.single(TokenKind::Dollar));
        } else if c == '&' {
            return Ok(self.single(TokenKind::Amp));
        } else if c == '(' {
            return Ok(self.single(TokenKind::ParenL));
        } else if c == ')' {
            return Ok(self.single(TokenKind::ParenR));
        } else if c == ':' {
            return Ok(self.single(TokenKind::Colon));
        } else if c == '=' {
            return Ok(self.single(TokenKind::Equals));
        } else if c == '@' {
            return Ok(self.single(TokenKind::At));
        } else if c == '[' {
            return Ok(self.single(TokenKind::BracketL));
        } else if c == ']' {
            return Ok(self.single(TokenKind::BracketR));
        } else if c == '{' {
            return Ok(self.single(TokenKind::BraceL));
        } else if c == '}' {
            return Ok(self.single(TokenKind::BraceR));
        } else if c == '|' {
            return Ok(self.single(TokenKind::Pipe));
        } else if c == '.' {
            return self.lex_spread(start);
        } else if c == '"' {
            return self.lex_string(start);
        }
        if is_name_start_char(c) {
            return Ok(self.lex_name(start));
        }
        if c == '-' || is_digit_char(c) {
            return self.lex_number(start);
        }
        let m = concat(owned("予期しない文字 "), debug_char(c).as_str());
        Err(mk_err(m, start))
    }

    /// `...`; the current character is `.`.
    fn lex_spread(&mut self, start: usize) -> (res: Result<Token, LexError>)
        requires
            old(self).wf(),
            old(self).pos == start,
            start < old(self).chars@.len(),
        ensures
            final(self).wf(),
            final(self).s() == old(self).s(),
            ({
                let s = old(self).s();
                if crate::lex_spec::char_at_is(s, (start + 1) as nat, '.')
                    && crate::lex_spec::char_at_is(s, (start + 2) as nat, '.') {
                    res matches Ok(t) && t.kind@ == SpecTokenKind::Spread && t.start == start
                        && final(self).pos == start + 3
                } else {
                    res matches Err(x) && x@ == SpecLexError {
                        message: msg_lone_dot(),
                        position: start as nat,
                    }
                }
            }),
    {
        if self.peek_at(1) == Some('.') && self.peek_at(2) == Some('.') {
            self.pos = self.pos + 3;
            Ok(Token::new(TokenKind::Spread, start))
        } else {
            Err(mk_err(owned("'.' は '...'(スプレッド)としてのみ有効です"), start))
        }
    }
}

/// Tokenizes the whole input, handing each token to `sink` as soon as it
/// is produced; the last token handed over is always `Eof`. On a lexical
/// error the tokens before it have been handed over and the error is
/// returned.
pub fn tokenize_into<S: TokenSink>(input: &str, sink: &mut S) -> (res: Result<(), LexError>)
    requires
        fits_in_memory(input@),
    ensures
        final(sink).received() == old(sink).received() + lex_from(input@, 0).0,
        match lex_from(input@, 0).1 {
            Ok(_) => res is Ok,
            Err(e) => res matches Err(x) && x@ == e,
        },
{
    let mut lexer = Lexer::new(input);
    let ghost s = input@;
    proof {
        assert(old(sink).received() + Seq::<SpecToken>::empty() =~= old(sink).received());
    }
    loop
        invariant
            lexer.wf(),
            lexer.s() == s,
            s == input@,
            old(sink).received() + lex_from(s, 0).0 == sink.received() + lex_from(
                s,
                lexer.pos as nat,
            ).0,
            lex_from(s, 0).1 == lex_from(s, lexer.pos as nat).1,
        decreases lexer.chars@.len() - lexer.pos,
    {
        let ghost i = lexer.pos as nat;
        let ghost p = skip_ignored(s, i, false);
        let ghost before = sink.received();
        proof {
            lemma_skip_ignored_ge(s, i, false);
            lemma_token_advances(s, p);
            crate::lex_spec::lemma_lex_from_step(s, i);
        }
        let token = match lexer.next_token() {
            Ok(t) => t,
            Err(e) => {
                proof {
                    assert(lex_token_at(s, p) is Err);
                    assert(lex_from(s, i).1 == Err::<(), SpecLexError>(e@));
                    assert(lex_from(s, i).0 =~= Seq::<SpecToken>::empty());
                    assert(sink.received() + lex_from(s, i).0 =~= sink.received());
                }
                return Err(e);
            },
        };
        let is_eof = match token.kind {
            TokenKind::Eof => true,
            _ => false,
        };
        let ghost tv = token@;
        sink.process_token(token);
        if is_eof {
            proof {
                assert(sink.received() =~= before + lex_from(s, i).0);
            }
            return Ok(());
        }
        proof {
            let rest = lex_from(s, lexer.pos as nat);
            assert(lex_from(s, i).0 =~= seq![tv] + rest.0);
            assert(before + (seq![tv] + rest.0) =~= sink.received() + rest.0);
        }
    }
}

/// Tokenizes the whole input; the tokens end with exactly one `Eof`.
pub fn tokenize(input: &str) -> (res: Result<Vec<Token>, LexError>)
    requires
        fits_in_memory(input@),
    ensures
        match spec_tokenize(input@) {
            Ok(toks) => res matches Ok(v) && tokens_view(v@) == toks,
            Err(e) => res matches Err(x) && x@ == e,
        },
{
    let mut sink = CollectingSink::new();
    proof {
        assert(tokens_view(sink.tokens@) =~= Seq::<SpecToken>::empty());
    }
    tokenize_into(input, &mut sink)?;
    proof {
        assert(sink.received() =~= Seq::<SpecToken>::empty() + lex_from(input@, 0).0);
    }
    Ok(sink.tokens)
}

} // verus!
