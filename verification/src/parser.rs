//! The recursive-descent parser of GraphQL query documents: it consumes
//! the tokens of `lexer` and builds the syntax tree of `ast`.
//!
//! Supported: `query` and `mutation` operations (named, or the anonymous
//! shorthand `{ ... }`), variable definitions with list and non-null
//! types, fields with aliases, arguments and sub-selections, fragment
//! definitions, fragment spreads, inline fragments (with or without a type
//! condition), directives, and every kind of input value. `subscription`
//! is reported as unsupported. The grammar is stated in `parse_spec`.

use vstd::prelude::*;

use crate::ast::{
    arguments_view, directives_view, lemma_entries_view_push, lemma_selections_view_push,
    lemma_values_view_push, variable_definitions_view, Argument, Directive, Document, Field,
    FragmentDefinition, FragmentSpread, InlineFragment, OperationDefinition, OperationType,
    Selection, SelectionSet, Type, Value, VariableDefinition,
};
use crate::lexer::{fits_in_memory, tokenize, LexError};
use crate::parse_spec::{
    all_digits, bump, digits_value, int_text_value, kind_at, kind_debug, p_arguments,
    p_arguments_items, p_directives, p_document, p_expect, p_field, p_fragment_definition, p_list,
    p_list_items, p_name, p_object, p_object_fields, p_operation, p_selection_set, p_selections,
    p_spread_or_inline, p_type, p_value, p_variables, p_variables_items, spec_parse, tokens_wf,
    PResult, SpecParseError,
};
use crate::text::{chars_of, concat, debug_str, owned, text_is};
use crate::token::{tokens_view, SpecToken, SpecTokenKind, Token, TokenKind};

verus! {

/// A parse error: a lexical error, or a syntax error with its message and
/// the character offset of the token where it was found.
#[derive(Debug, Clone, PartialEq)]
pub enum ParseError {
    Lex(LexError),
    Syntax { message: String, position: usize },
}

impl View for ParseError {
    type V = SpecParseError;

    open spec fn view(&self) -> SpecParseError {
        match self {
            ParseError::Lex(e) => SpecParseError::Lex(e@),
            ParseError::Syntax { message, position } => SpecParseError::Syntax {
                message: message@,
                position: *position as nat,
            },
        }
    }
}

impl ParseError {
    /// The text that the error shows.
    pub fn to_message(&self) -> (res: String)
        ensures
            res@ == parse_error_text(self@),
    {
        match self {
            ParseError::Lex(e) => e.to_message(),
            ParseError::Syntax { message, position } => {
                let s = owned("構文エラー(位置 ");
                let s = concat(s, crate::text::decimal_string(*position).as_str());
                let s = concat(s, "): ");
                concat(s, message.as_str())
            },
        }
    }
}

/// The displayed text of a parse error.
pub open spec fn parse_error_text(e: SpecParseError) -> Seq<char> {
    match e {
        SpecParseError::Lex(l) => crate::lexer::lex_error_text(l),
        SpecParseError::Syntax { message, position } => "構文エラー(位置 "@
            + crate::text::decimal_text(position) + "): "@ + message,
    }
}

impl From<LexError> for ParseError {
    fn from(e: LexError) -> (res: Self) {
        ParseError::Lex(e)
    }
}

impl vstd::std_specs::convert::FromSpecImpl<LexError> for ParseError {
    open spec fn obeys_from_spec() -> bool {
        true
    }

    open spec fn from_spec(e: LexError) -> ParseError {
        ParseError::Lex(e)
    }
}

/// Whether `r` agrees with the grammar's result `s`, the parser having
/// stopped at `end`.
pub open spec fn outcome<X, V>(
    r: Result<X, ParseError>,
    s: PResult<V>,
    end: nat,
    view: spec_fn(X) -> V,
) -> bool {
    match s {
        Ok((v, j)) => r matches Ok(x) && view(x) == v && end == j,
        Err(e) => r matches Err(x) && x@ == e,
    }
}

/// `{:?}` of a token kind.
pub fn describe_kind(k: &TokenKind) -> (res: String)
    ensures
        res@ == kind_debug(k@),
{
    match k {
        TokenKind::Bang => owned("Bang"),
        TokenKind::Dollar => owned("Dollar"),
        TokenKind::Amp => owned("Amp"),
        TokenKind::ParenL => owned("ParenL"),
        TokenKind::ParenR => owned("ParenR"),
        TokenKind::Spread => owned("Spread"),
        TokenKind::Colon => owned("Colon"),
        TokenKind::Equals => owned("Equals"),
        TokenKind::At => owned("At"),
        TokenKind::BracketL => owned("BracketL"),
        TokenKind::BracketR => owned("BracketR"),
        TokenKind::BraceL => owned("BraceL"),
        TokenKind::BraceR => owned("BraceR"),
        TokenKind::Pipe => owned("Pipe"),
        TokenKind::Name(s) => concat(concat(owned("Name("), debug_str(s.as_str()).as_str()), ")"),
        TokenKind::Int(s) => concat(concat(owned("Int("), debug_str(s.as_str()).as_str()), ")"),
        TokenKind::Float(s) => concat(concat(owned("Float("), debug_str(s.as_str()).as_str()), ")"),
        TokenKind::Str(s) => concat(concat(owned("Str("), debug_str(s.as_str()).as_str()), ")"),
        TokenKind::Eof => owned("Eof"),
    }
}

/// Whether two token kinds are equal.
pub fn same_kind(a: &TokenKind, b: &TokenKind) -> (res: bool)
    ensures
        res == (a@ == b@),
{
    match (a, b) {
        (TokenKind::Bang, TokenKind::Bang) => true,
        (TokenKind::Dollar, TokenKind::Dollar) => true,
        (TokenKind::Amp, TokenKind::Amp) => true,
        (TokenKind::ParenL, TokenKind::ParenL) => true,
        (TokenKind::ParenR, TokenKind::ParenR) => true,
        (TokenKind::Spread, TokenKind::Spread) => true,
        (TokenKind::Colon, TokenKind::Colon) => true,
        (TokenKind::Equals, TokenKind::Equals) => true,
        (TokenKind::At, TokenKind::At) => true,
        (TokenKind::BracketL, TokenKind::BracketL) => true,
        (TokenKind::BracketR, TokenKind::BracketR) => true,
        (TokenKind::BraceL, TokenKind::BraceL) => true,
        (TokenKind::BraceR, TokenKind::BraceR) => true,
        (TokenKind::Pipe, TokenKind::Pipe) => true,
        (TokenKind::Name(x), TokenKind::Name(y)) => crate::text::same_text(x, y),
        (TokenKind::Int(x), TokenKind::Int(y)) => crate::text::same_text(x, y),
        (TokenKind::Float(x), TokenKind::Float(y)) => crate::text::same_text(x, y),
        (TokenKind::Str(x), TokenKind::Str(y)) => crate::text::same_text(x, y),
        (TokenKind::Eof, TokenKind::Eof) => true,
        _ => false,
    }
}

/// Whether `k` is the name `text`.
fn is_name(k: &TokenKind, text: &str) -> (res: bool)
    ensures
        res == crate::parse_spec::is_name_token(k@, text@),
{
    match k {
        TokenKind::Name(s) => text_is(s, text),
        _ => false,
    }
}

proof fn lemma_digits_value_take_step(s: Seq<char>, m: int)
    requires
        0 <= m < s.len(),
    ensures
        digits_value(s.take(m + 1)) == digits_value(s.take(m)) * 10 + ((s[m] as nat - '0' as nat) as nat),
{
    assert(s.take(m + 1).drop_last() =~= s.take(m));
}

proof fn lemma_digits_value_monotone(s: Seq<char>, m: int, n: int)
    requires
        0 <= m <= n <= s.len(),
        all_digits(s),
    ensures
        digits_value(s.take(m)) <= digits_value(s.take(n)),
    decreases n - m,
{
    if m < n {
        lemma_digits_value_monotone(s, m, n - 1);
        lemma_digits_value_take_step(s, n - 1);
        assert(crate::text::is_digit(s[n - 1]));
    }
}

/// What `str::parse::<i64>` gives for `s`.
pub fn parse_i64(s: &String) -> (res: Option<i64>)
    ensures
        match int_text_value(s@) {
            Some(v) => res == Some(v as i64) && v == (v as i64) as int,
            None => res is None,
        },
{
    let chars = chars_of(s.as_str());
    let n = chars.len();
    if n == 0 {
        return None;
    }
    let neg = chars[0] == '-';
    let start: usize = if chars[0] == '-' || chars[0] == '+' {
        1
    } else {
        0
    };
    if start >= n {
        proof {
            assert(s@.skip(1).len() == 0);
        }
        return None;
    }
    let ghost digits = s@.skip(start as int);
    proof {
        assert(s@.skip(0) =~= s@);
    }
    let limit: u128 = if neg {
        9223372036854775808
    } else {
        9223372036854775807
    };
    let mut mag: u128 = 0;
    let mut k: usize = start;
    while k < n
        invariant
            chars@ == s@,
            n == chars@.len(),
            start <= k <= n,
            start == 0 || start == 1,
            digits == s@.skip(start as int),
            digits == (if start == 1 {
                s@.skip(1)
            } else {
                s@
            }),
            all_digits(digits.take(k - start)),
            mag == digits_value(digits.take(k - start)),
            mag <= limit,
            limit <= 9223372036854775808,
            neg == (s@.len() > 0 && s@[0] == '-'),
            (start == 1) == (s@.len() > 0 && (s@[0] == '-' || s@[0] == '+')),
            neg ==> limit == 9223372036854775808,
            !neg ==> limit == 9223372036854775807,
        decreases n - k,
    {
        let c = chars[k];
        proof {
            assert(digits[k - start] == c);
        }
        if !('0' <= c && c <= '9') {
            proof {
                assert(!crate::text::is_digit(digits[k - start]));
            }
            return None;
        }
        let d = ((c as u32) - ('0' as u32)) as u128;
        proof {
            lemma_digits_value_take_step(digits, k - start);
            assert(digits.take(k - start + 1) =~= digits.take(k - start).push(c));
        }
        mag = mag * 10 + d;
        k = k + 1;
        if mag > limit {
            proof {
                assert forall|j: int| 0 <= j < k - start implies crate::text::is_digit(
                    #[trigger] digits.take(k - start)[j],
                ) by {
                    if j < k - start - 1 {
                        assert(digits.take(k - start)[j] == digits.take(k - start - 1)[j]);
                    }
                }
                if all_digits(digits) {
                    lemma_digits_value_monotone(digits, k - start, digits.len() as int);
                    assert(digits.take(digits.len() as int) =~= digits);
                }
            }
            return None;
        }
        proof {
            assert forall|j: int| 0 <= j < k - start implies crate::text::is_digit(
                #[trigger] digits.take(k - start)[j],
            ) by {
                if j < k - start - 1 {
                    assert(digits.take(k - start)[j] == digits.take(k - start - 1)[j]);
                }
            }
        }
    }
    proof {
        assert(digits.take(k - start) =~= digits);
    }
    if neg {
        if mag == 9223372036854775808 {
            Some(i64::MIN)
        } else {
            Some(-(mag as i64))
        }
    } else {
        Some(mag as i64)
    }
}

struct Parser {
    tokens: Vec<Token>,
    pos: usize,
}

/// The parser `after` reads the same tokens as `before`, from a position
/// no earlier.
spec fn kept(before: Parser, after: Parser) -> bool {
    &&& after.wf()
    &&& after.tokens@ == before.tokens@
    &&& after.pos >= before.pos
}

impl Parser {
    spec fn t(&self) -> Seq<SpecToken> {
        tokens_view(self.tokens@)
    }

    spec fn wf(&self) -> bool {
        &&& tokens_wf(self.t())
        &&& self.pos < self.tokens@.len()
    }

    spec fn i(&self) -> nat {
        self.pos as nat
    }

    /// The token at `i` is not the last one unless it is `Eof`.
    proof fn lemma_not_eof_not_last(&self, i: nat)
        requires
            self.wf(),
            i < self.tokens@.len(),
            !(kind_at(self.t(), i) is Eof),
        ensures
            i + 1 < self.tokens@.len(),
            bump(self.t(), i) == i + 1,
    {
    }

    fn new(tokens: Vec<Token>) -> (res: Self)
        requires
            tokens_wf(tokens_view(tokens@)),
        ensures
            res.wf(),
            res.tokens@ == tokens@,
            res.pos == 0,
    {
        Parser { tokens, pos: 0 }
    }

    fn peek(&self) -> (res: &Token)
        requires
            self.wf(),
        ensures
            res@ == self.t()[self.pos as int],
    {
        let last = self.tokens.len() - 1;
        let i = if self.pos < last {
            self.pos
        } else {
            last
        };
        &self.tokens[i]
    }

    fn bump(&mut self) -> (res: Token)
        requires
            old(self).wf(),
        ensures
            kept(*old(self), *final(self)),
            final(self).pos == bump(old(self).t(), old(self).i()),
            res@ == old(self).t()[old(self).pos as int],
    {
        let t = self.peek().duplicate();
        if self.pos < self.tokens.len() - 1 {
            self.pos = self.pos + 1;
        }
        t
    }

    fn at_eof(&self) -> (res: bool)
        requires
            self.wf(),
        ensures
            res == (kind_at(self.t(), self.i()) is Eof),
    {
        match self.peek().kind {
            TokenKind::Eof => true,
            _ => false,
        }
    }

    /// Whether the current token is of kind `kind`.
    fn peek_is(&self, kind: &TokenKind) -> (res: bool)
        requires
            self.wf(),
        ensures
            res == (kind_at(self.t(), self.i()) == kind@),
    {
        same_kind(&self.peek().kind, kind)
    }

    /// A syntax error at the current token.
    fn syntax<T>(&self, message: String) -> (res: Result<T, ParseError>)
        requires
            self.wf(),
        ensures
            res matches Err(e) && e@ == (SpecParseError::Syntax {
                message: message@,
                position: self.t()[self.pos as int].start,
            }),
    {
        Err(ParseError::Syntax { message, position: self.peek().start })
    }

    /// Consumes the next token if it is of kind `kind`.
    fn eat(&mut self, kind: &TokenKind) -> (res: bool)
        requires
            old(self).wf(),
        ensures
            kept(*old(self), *final(self)),
            res == (kind_at(old(self).t(), old(self).i()) == kind@),
            res ==> final(self).pos == bump(old(self).t(), old(self).i()),
            !res ==> final(self).pos == old(self).pos,
    {
        if same_kind(&self.peek().kind, kind) {
            self.bump();
            true
        } else {
            false
        }
    }

    /// Consumes a token of kind `kind`, or reports what was found instead.
    fn expect(&mut self, kind: &TokenKind) -> (res: Result<Token, ParseError>)
        requires
            old(self).wf(),
        ensures
            kept(*old(self), *final(self)),
            outcome(
                res,
                p_expect(old(self).t(), old(self).i(), kind@),
                final(self).i(),
                |t: Token| (),
            ),
    {
        if same_kind(&self.peek().kind, kind) {
            Ok(self.bump())
        } else {
            let m = concat(
                concat(concat(describe_kind(kind), " を期待しましたが "), describe_kind(&self.peek().kind).as_str()),
                " が見つかりました",
            );
            self.syntax(m)
        }
    }

    /// Consumes a name and returns its text.
    fn expect_name(&mut self) -> (res: Result<String, ParseError>)
        requires
            old(self).wf(),
        ensures
            kept(*old(self), *final(self)),
            outcome(res, p_name(old(self).t(), old(self).i()), final(self).i(), |s: String| s@),
    {
        match &self.peek().kind {
            TokenKind::Name(s) => {
                let s = s.clone();
                self.bump();
                Ok(s)
            },
            other => {
                let m = concat(
                    concat(owned("名前を期待しましたが "), describe_kind(other).as_str()),
                    " が見つかりました",
                );
                self.syntax(m)
            },
        }
    }

    /// An input value.
    fn parse_value(&mut self) -> (res: Result<Value, ParseError>)
        requires
            old(self).wf(),
        ensures
            kept(*old(self), *final(self)),
            outcome(res, p_value(old(self).t(), old(self).i()), final(self).i(), |v: Value| v@),
            res is Ok ==> final(self).pos > old(self).pos,
        decreases old(self).tokens@.len() - old(self).pos, 2nat,
    {
        let ghost t = self.t();
        let ghost i = self.i();
        let kind = self.peek().kind.duplicate();
        match kind {
            TokenKind::Dollar => {
                proof {
                    self.lemma_not_eof_not_last(i);
                }
                self.bump();
                let name = self.expect_name()?;
                Ok(Value::Variable(name))
            },
            TokenKind::Int(s) => {
                proof {
                    self.lemma_not_eof_not_last(i);
                }
                self.bump();
                match parse_i64(&s) {
                    Some(n) => Ok(Value::Int(n)),
                    None => {
                        let m = concat(concat(owned("整数 `"), s.as_str()), "` を i64 として解釈できません");
                        self.syntax(m)
                    },
                }
            },
            TokenKind::Float(s) => {
                proof {
                    self.lemma_not_eof_not_last(i);
                }
                self.bump();
                Ok(Value::Float(s))
            },
            TokenKind::Str(s) => {
                proof {
                    self.lemma_not_eof_not_last(i);
                }
                self.bump();
                Ok(Value::String(s))
            },
            TokenKind::Name(s) => {
                proof {
                    self.lemma_not_eof_not_last(i);
                }
                self.bump();
                if text_is(&s, "true") {
                    Ok(Value::Boolean(true))
                } else if text_is(&s, "false") {
                    Ok(Value::Boolean(false))
                } else if text_is(&s, "null") {
                    Ok(Value::Null)
                } else {
                    Ok(Value::Enum(s))
                }
            },
            TokenKind::BracketL => self.parse_list_value(),
            TokenKind::BraceL => self.parse_object_value(),
            other => {
                let m = concat(
                    concat(owned("値を期待しましたが "), describe_kind(&other).as_str()),
                    " が見つかりました",
                );
                self.syntax(m)
            },
        }
    }

    /// A list value `[ value* ]`.
    fn parse_list_value(&mut self) -> (res: Result<Value, ParseError>)
        requires
            old(self).wf(),
            kind_at(old(self).t(), old(self).i()) is BracketL,
        ensures
            kept(*old(self), *final(self)),
            outcome(res, p_list(old(self).t(), old(self).i()), final(self).i(), |v: Value| v@),
            res is Ok ==> final(self).pos > old(self).pos,
        decreases old(self).tokens@.len() - old(self).pos, 1nat,
    {
        let ghost t = self.t();
        let ghost i0 = self.i();
        proof {
            self.lemma_not_eof_not_last(i0);
        }
        self.expect(&TokenKind::BracketL)?;
        let mut items: Vec<Value> = Vec::new();
        while !self.peek_is(&TokenKind::BracketR)
            invariant
                self.wf(),
                self.t() == t,
                self.tokens@ == old(self).tokens@,
                self.pos > i0,
                i0 == old(self).i(),
                p_list(t, i0) == p_list_items(t, self.i(), crate::ast::values_view(items@)),
            decreases self.tokens@.len() - self.pos,
        {
            if self.at_eof() {
                return self.syntax(owned("リスト値が `]` で閉じられていません"));
            }
            let ghost before = self.i();
            let v = self.parse_value()?;
            proof {
                lemma_values_view_push(items@, v);
            }
            items.push(v);
        }
        self.expect(&TokenKind::BracketR)?;
        Ok(Value::List(items))
    }

    /// An input object value `{ name: value* }`.
    fn parse_object_value(&mut self) -> (res: Result<Value, ParseError>)
        requires
            old(self).wf(),
            kind_at(old(self).t(), old(self).i()) is BraceL,
        ensures
            kept(*old(self), *final(self)),
            outcome(res, p_object(old(self).t(), old(self).i()), final(self).i(), |v: Value| v@),
            res is Ok ==> final(self).pos > old(self).pos,
        decreases old(self).tokens@.len() - old(self).pos, 1nat,
    {
        let ghost t = self.t();
        let ghost i0 = self.i();
        proof {
            self.lemma_not_eof_not_last(i0);
        }
        self.expect(&TokenKind::BraceL)?;
        let mut fields: Vec<(String, Value)> = Vec::new();
        while !self.peek_is(&TokenKind::BraceR)
            invariant
                self.wf(),
                self.t() == t,
                self.tokens@ == old(self).tokens@,
                self.pos > i0,
                i0 == old(self).i(),
                p_object(t, i0) == p_object_fields(t, self.i(), crate::ast::entries_view(fields@)),
            decreases self.tokens@.len() - self.pos,
        {
            if self.at_eof() {
                return self.syntax(owned("入力オブジェクト値が `}` で閉じられていません"));
            }
            let name = self.expect_name()?;
            self.expect(&TokenKind::Colon)?;
            let value = self.parse_value()?;
            let e = (name, value);
            proof {
                lemma_entries_view_push(fields@, e);
            }
            fields.push(e);
        }
        self.expect(&TokenKind::BraceR)?;
        Ok(Value::Object(fields))
    }

    /// An argument list `( name: value+ )`; the current token is `(`.
    fn parse_arguments(&mut self) -> (res: Result<Vec<Argument>, ParseError>)
        requires
            old(self).wf(),
            kind_at(old(self).t(), old(self).i()) is ParenL,
        ensures
            kept(*old(self), *final(self)),
            outcome(
                res,
                p_arguments(old(self).t(), old(self).i()),
                final(self).i(),
                |a: Vec<Argument>| arguments_view(a@),
            ),
            res is Ok ==> final(self).pos > old(self).pos,
    {
        let ghost t = self.t();
        let ghost i0 = self.i();
        proof {
            self.lemma_not_eof_not_last(i0);
        }
        self.expect(&TokenKind::ParenL)?;
        let mut args: Vec<Argument> = Vec::new();
        proof {
            assert(arguments_view(args@) =~= Seq::<crate::ast::SpecArgument>::empty());
        }
        while !self.peek_is(&TokenKind::ParenR)
            invariant
                self.wf(),
                self.t() == t,
                self.tokens@ == old(self).tokens@,
                self.pos > i0,
                i0 == old(self).i(),
                p_arguments(t, i0) == p_arguments_items(t, self.i(), arguments_view(args@)),
            decreases self.tokens@.len() - self.pos,
        {
            if self.at_eof() {
                return self.syntax(owned("引数リストが `)` で閉じられていません"));
            }
            let name = self.expect_name()?;
            self.expect(&TokenKind::Colon)?;
            let value = self.parse_value()?;
            let a = Argument { name, value };
            let ghost prev = args@;
            args.push(a);
            proof {
                assert(arguments_view(args@) =~= arguments_view(prev).push(a@));
            }
        }
        self.expect(&TokenKind::ParenR)?;
        if args.len() == 0 {
            return self.syntax(owned("引数リスト `()` は空にできません"));
        }
        Ok(args)
    }

    /// Zero or more directives `@name(args)`.
    fn parse_directives(&mut self) -> (res: Result<Vec<Directive>, ParseError>)
        requires
            old(self).wf(),
        ensures
            kept(*old(self), *final(self)),
            outcome(
                res,
                p_directives(old(self).t(), old(self).i(), seq![]),
                final(self).i(),
                |d: Vec<Directive>| directives_view(d@),
            ),
    {
        let ghost t = self.t();
        let ghost i0 = self.i();
        let mut directives: Vec<Directive> = Vec::new();
        proof {
            assert(directives_view(directives@) =~= Seq::<crate::ast::SpecDirective>::empty());
        }
        while self.peek_is(&TokenKind::At)
            invariant
                self.wf(),
                self.t() == t,
                self.tokens@ == old(self).tokens@,
                self.pos >= i0,
                i0 == old(self).i(),
                p_directives(t, i0, seq![]) == p_directives(
                    t,
                    self.i(),
                    directives_view(directives@),
                ),
            decreases self.tokens@.len() - self.pos,
        {
            proof {
                self.lemma_not_eof_not_last(self.i());
            }
            self.bump();
            let name = self.expect_name()?;
            let arguments = if self.peek_is(&TokenKind::ParenL) {
                self.parse_arguments()?
            } else {
                let v: Vec<Argument> = Vec::new();
                proof {
                    assert(arguments_view(v@) =~= Seq::<crate::ast::SpecArgument>::empty());
                }
                v
            };
            let d = Directive { name, arguments };
            let ghost prev = directives@;
            directives.push(d);
            proof {
                assert(directives_view(directives@) =~= directives_view(prev).push(d@));
            }
        }
        Ok(directives)
    }

    /// A type reference `Name`, `[Type]` or `Type!`.
    fn parse_type(&mut self) -> (res: Result<Type, ParseError>)
        requires
            old(self).wf(),
        ensures
            kept(*old(self), *final(self)),
            outcome(res, p_type(old(self).t(), old(self).i()), final(self).i(), |ty: Type| ty@),
            res is Ok ==> final(self).pos > old(self).pos,
        decreases old(self).tokens@.len() - old(self).pos,
    {
        let ghost t = self.t();
        let ghost i0 = self.i();
        let base = if self.peek_is(&TokenKind::BracketL) {
            proof {
                self.lemma_not_eof_not_last(i0);
            }
            self.bump();
            let inner = self.parse_type()?;
            self.expect(&TokenKind::BracketR)?;
            Type::List(Box::new(inner))
        } else {
            let name = self.expect_name()?;
            Type::Named(name)
        };
        let ghost m = self.i();
        proof {
            let b = if i0 < t.len() && kind_at(t, i0) is BracketL {
                let j = bump(t, i0);
                match p_type(t, j) {
                    Err(e) => Err(e),
                    Ok((inner, k)) => match p_expect(t, k, SpecTokenKind::BracketR) {
                        Err(e) => Err(e),
                        Ok((_, m)) => Ok((crate::ast::SpecType::List(Box::new(inner)), m)),
                    },
                }
            } else {
                match p_name(t, i0) {
                    Err(e) => Err(e),
                    Ok((n, j)) => Ok((crate::ast::SpecType::Named(n), j)),
                }
            };
            assert(b == Ok::<(crate::ast::SpecType, nat), SpecParseError>((base@, m)));
        }
        if self.eat(&TokenKind::Bang) {
            Ok(Type::NonNull(Box::new(base)))
        } else {
            Ok(base)
        }
    }

    /// A variable definition list `( $name: Type = default, ... )`; the
    /// current token is `(`.
    fn parse_variable_definitions(&mut self) -> (res: Result<Vec<VariableDefinition>, ParseError>)
        requires
            old(self).wf(),
            kind_at(old(self).t(), old(self).i()) is ParenL,
        ensures
            kept(*old(self), *final(self)),
            outcome(
                res,
                p_variables(old(self).t(), old(self).i()),
                final(self).i(),
                |d: Vec<VariableDefinition>| variable_definitions_view(d@),
            ),
            res is Ok ==> final(self).pos > old(self).pos,
    {
        let ghost t = self.t();
        let ghost i0 = self.i();
        proof {
            self.lemma_not_eof_not_last(i0);
        }
        self.expect(&TokenKind::ParenL)?;
        let mut defs: Vec<VariableDefinition> = Vec::new();
        proof {
            assert(variable_definitions_view(defs@) =~= Seq::<crate::ast::SpecVariableDefinition>::empty());
        }
        while !self.peek_is(&TokenKind::ParenR)
            invariant
                self.wf(),
                self.t() == t,
                self.tokens@ == old(self).tokens@,
                self.pos > i0,
                i0 == old(self).i(),
                p_variables(t, i0) == p_variables_items(t, self.i(), variable_definitions_view(defs@)),
            decreases self.tokens@.len() - self.pos,
        {
            if self.at_eof() {
                return self.syntax(owned("変数定義リストが `)` で閉じられていません"));
            }
            self.expect(&TokenKind::Dollar)?;
            let name = self.expect_name()?;
            self.expect(&TokenKind::Colon)?;
            let var_type = self.parse_type()?;
            let default_value = if self.eat(&TokenKind::Equals) {
                Some(self.parse_value()?)
            } else {
                None
            };
            let d = VariableDefinition { name, var_type, default_value };
            let ghost prev = defs@;
            defs.push(d);
            proof {
                assert(variable_definitions_view(defs@) =~= variable_definitions_view(prev).push(d@));
            }
        }
        self.expect(&TokenKind::ParenR)?;
        if defs.len() == 0 {
            return self.syntax(owned("変数定義リスト `()` は空にできません"));
        }
        Ok(defs)
    }

    /// A selection set `{ selection+ }`.
    fn parse_selection_set(&mut self) -> (res: Result<SelectionSet, ParseError>)
        requires
            old(self).wf(),
        ensures
            kept(*old(self), *final(self)),
            outcome(
                res,
                p_selection_set(old(self).t(), old(self).i()),
                final(self).i(),
                |s: SelectionSet| s@,
            ),
            res is Ok ==> final(self).pos > old(self).pos,
        decreases old(self).tokens@.len() - old(self).pos, 0nat,
    {
        let ghost t = self.t();
        let ghost i0 = self.i();
        if self.peek_is(&TokenKind::BraceL) {
            proof {
                self.lemma_not_eof_not_last(i0);
            }
        }
        self.expect(&TokenKind::BraceL)?;
        let mut selections: Vec<Selection> = Vec::new();
        while !self.peek_is(&TokenKind::BraceR)
            invariant
                self.wf(),
                self.t() == t,
                self.tokens@ == old(self).tokens@,
                self.pos > i0,
                i0 == old(self).i(),
                p_selection_set(t, i0) == p_selections(
                    t,
                    self.i(),
                    crate::ast::selections_view(selections@),
                ),
            decreases self.tokens@.len() - self.pos,
        {
            if self.at_eof() {
                return self.syntax(owned("選択集合が `}` で閉じられていません"));
            }
            let s = if self.peek_is(&TokenKind::Spread) {
                self.parse_fragment_spread_or_inline_fragment()?
            } else {
                self.parse_field()?
            };
            proof {
                lemma_selections_view_push(selections@, s);
            }
            selections.push(s);
        }
        self.expect(&TokenKind::BraceR)?;
        if selections.len() == 0 {
            return self.syntax(owned("選択集合には少なくとも1つのフィールドが必要です"));
        }
        Ok(SelectionSet { selections })
    }

    /// After `...`: a fragment spread or an inline fragment; the current
    /// token is `...`.
    fn parse_fragment_spread_or_inline_fragment(&mut self) -> (res: Result<Selection, ParseError>)
        requires
            old(self).wf(),
            kind_at(old(self).t(), old(self).i()) is Spread,
        ensures
            kept(*old(self), *final(self)),
            outcome(
                res,
                p_spread_or_inline(old(self).t(), old(self).i()),
                final(self).i(),
                |s: Selection| s@,
            ),
            res is Ok ==> final(self).pos > old(self).pos,
        decreases old(self).tokens@.len() - old(self).pos, 1nat,
    {
        let ghost t = self.t();
        let ghost i0 = self.i();
        proof {
            self.lemma_not_eof_not_last(i0);
        }
        self.expect(&TokenKind::Spread)?;
        let is_on = is_name(&self.peek().kind, "on");
        if is_on {
            proof {
                self.lemma_not_eof_not_last(self.i());
            }
            self.bump();
            let type_condition = Some(self.expect_name()?);
            let directives = self.parse_directives()?;
            let selection_set = self.parse_selection_set()?;
            return Ok(
                Selection::InlineFragment(InlineFragment { type_condition, directives, selection_set }),
            );
        }
        if let TokenKind::Name(_) = self.peek().kind {
            let name = self.expect_name()?;
            let directives = self.parse_directives()?;
            return Ok(Selection::FragmentSpread(FragmentSpread { name, directives }));
        }
        let directives = self.parse_directives()?;
        let selection_set = self.parse_selection_set()?;
        Ok(
            Selection::InlineFragment(
                InlineFragment { type_condition: None, directives, selection_set },
            ),
        )
    }

    /// A field `alias: name(args) @dir { ... }`.
    #[verifier::rlimit(40)]
    fn parse_field(&mut self) -> (res: Result<Selection, ParseError>)
        requires
            old(self).wf(),
        ensures
            kept(*old(self), *final(self)),
            outcome(res, p_field(old(self).t(), old(self).i()), final(self).i(), |s: Selection| s@),
            res is Ok ==> final(self).pos > old(self).pos,
        decreases old(self).tokens@.len() - old(self).pos, 1nat,
    {
        let ghost t = self.t();
        let ghost i0 = self.i();
        let first = self.expect_name()?;
        proof {
            self.lemma_not_eof_not_last(i0);
        }
        let (alias, name) = if self.eat(&TokenKind::Colon) {
            let actual = self.expect_name()?;
            (Some(first), actual)
        } else {
            (None, first)
        };
        let arguments = if self.peek_is(&TokenKind::ParenL) {
            self.parse_arguments()?
        } else {
            let v: Vec<Argument> = Vec::new();
            proof {
                assert(arguments_view(v@) =~= Seq::<crate::ast::SpecArgument>::empty());
            }
            v
        };
        let directives = self.parse_directives()?;
        let selection_set = if self.peek_is(&TokenKind::BraceL) {
            Some(self.parse_selection_set()?)
        } else {
            None
        };
        Ok(Selection::Field(Field { alias, name, arguments, directives, selection_set }))
    }

    /// A fragment definition `fragment Name on Type @dir { ... }`; the
    /// current token is the name `fragment`.
    fn parse_fragment_definition(&mut self) -> (res: Result<FragmentDefinition, ParseError>)
        requires
            old(self).wf(),
            kind_at(old(self).t(), old(self).i()) is Name,
        ensures
            kept(*old(self), *final(self)),
            outcome(
                res,
                p_fragment_definition(old(self).t(), old(self).i()),
                final(self).i(),
                |f: FragmentDefinition| f@,
            ),
            res is Ok ==> final(self).pos > old(self).pos,
    {
        proof {
            reveal(p_fragment_definition);
            self.lemma_not_eof_not_last(self.i());
        }
        self.bump();
        let name = self.expect_name()?;
        if text_is(&name, "on") {
            return self.syntax(owned("フラグメント名に予約語 `on` は使えません"));
        }
        if is_name(&self.peek().kind, "on") {
            self.bump();
        } else {
            let m = concat(
                concat(owned("フラグメント定義には `on TypeName` が必要ですが "), describe_kind(&self.peek().kind).as_str()),
                " が見つかりました",
            );
            return self.syntax(m);
        }
        let type_condition = self.expect_name()?;
        let directives = self.parse_directives()?;
        let selection_set = self.parse_selection_set()?;
        Ok(FragmentDefinition { name, type_condition, directives, selection_set })
    }

    /// An operation definition.
    fn parse_operation(&mut self) -> (res: Result<OperationDefinition, ParseError>)
        requires
            old(self).wf(),
        ensures
            kept(*old(self), *final(self)),
            outcome(
                res,
                p_operation(old(self).t(), old(self).i()),
                final(self).i(),
                |o: OperationDefinition| o@,
            ),
            res is Ok ==> final(self).pos > old(self).pos,
    {
        proof {
            reveal(p_operation);
        }
        let ghost t = self.t();
        let ghost i0 = self.i();
        if self.peek_is(&TokenKind::BraceL) {
            let selection_set = self.parse_selection_set()?;
            let op = OperationDefinition {
                operation: OperationType::Query,
                name: None,
                variable_definitions: Vec::new(),
                directives: Vec::new(),
                selection_set,
            };
            proof {
                assert(variable_definitions_view(op.variable_definitions@) =~= Seq::<
                    crate::ast::SpecVariableDefinition,
                >::empty());
                assert(directives_view(op.directives@) =~= Seq::<crate::ast::SpecDirective>::empty());
            }
            return Ok(op);
        }
        let op_name = match &self.peek().kind {
            TokenKind::Name(s) => s.clone(),
            other => {
                let m = concat(
                    concat(owned("操作定義の開始(`{` または `query`)を期待しましたが "), describe_kind(other).as_str()),
                    " が見つかりました",
                );
                return self.syntax(m);
            },
        };
        let operation = if text_is(&op_name, "query") {
            OperationType::Query
        } else if text_is(&op_name, "mutation") {
            OperationType::Mutation
        } else if text_is(&op_name, "subscription") {
            return self.syntax(owned("`subscription` 操作は現段階では未対応です(次段階で実装予定)"));
        } else {
            let m = concat(concat(owned("未知の操作種別 `"), op_name.as_str()), "`(`query`/`mutation` を期待)");
            return self.syntax(m);
        };
        proof {
            self.lemma_not_eof_not_last(i0);
        }
        self.bump();
        let name = if let TokenKind::Name(_) = self.peek().kind {
            Some(self.expect_name()?)
        } else {
            None
        };
        let variable_definitions = if self.peek_is(&TokenKind::ParenL) {
            self.parse_variable_definitions()?
        } else {
            let v: Vec<VariableDefinition> = Vec::new();
            proof {
                assert(variable_definitions_view(v@) =~= Seq::<crate::ast::SpecVariableDefinition>::empty());
            }
            v
        };
        let directives = self.parse_directives()?;
        let selection_set = self.parse_selection_set()?;
        Ok(OperationDefinition { operation, name, variable_definitions, directives, selection_set })
    }

    /// A whole document: one or more operation and fragment definitions.
    fn parse_document(&mut self) -> (res: Result<Document, ParseError>)
        requires
            old(self).wf(),
        ensures
            match p_document(old(self).t(), old(self).i(), seq![], seq![]) {
                Ok(d) => res matches Ok(x) && x@ == d,
                Err(e) => res matches Err(x) && x@ == e,
            },
    {
        let ghost t = self.t();
        let ghost i0 = self.i();
        let mut operations: Vec<OperationDefinition> = Vec::new();
        let mut fragments: Vec<FragmentDefinition> = Vec::new();
        proof {
            assert(operations@.map_values(|o: OperationDefinition| o@) =~= Seq::<
                crate::ast::SpecOperation,
            >::empty());
            assert(fragments@.map_values(|f: FragmentDefinition| f@) =~= Seq::<
                crate::ast::SpecFragment,
            >::empty());
        }
        while !self.at_eof()
            invariant
                self.wf(),
                self.t() == t,
                self.tokens@ == old(self).tokens@,
                self.pos >= i0,
                i0 == old(self).i(),
                p_document(t, i0, seq![], seq![]) == p_document(
                    t,
                    self.i(),
                    operations@.map_values(|o: OperationDefinition| o@),
                    fragments@.map_values(|f: FragmentDefinition| f@),
                ),
            decreases self.tokens@.len() - self.pos,
        {
            if is_name(&self.peek().kind, "fragment") {
                let f = self.parse_fragment_definition()?;
                let ghost prev = fragments@;
                fragments.push(f);
                proof {
                    assert(fragments@.map_values(|f: FragmentDefinition| f@) =~= prev.map_values(
                        |f: FragmentDefinition| f@,
                    ).push(f@));
                }
            } else {
                let o = self.parse_operation()?;
                let ghost prev = operations@;
                operations.push(o);
                proof {
                    assert(operations@.map_values(|o: OperationDefinition| o@) =~= prev.map_values(
                        |o: OperationDefinition| o@,
                    ).push(o@));
                }
            }
        }
        if operations.len() == 0 && fragments.len() == 0 {
            return self.syntax(owned("空のドキュメントです(少なくとも1つの操作が必要)"));
        }
        Ok(Document { operations, fragments })
    }
}

/// Parses a GraphQL query document.
pub fn parse(input: &str) -> (res: Result<Document, ParseError>)
    requires
        fits_in_memory(input@),
    ensures
        match spec_parse(input@) {
            Ok(d) => res matches Ok(x) && x@ == d,
            Err(e) => res matches Err(x) && x@ == e,
        },
{
    let tokens = match tokenize(input) {
        Ok(t) => t,
        Err(e) => {
            return Err(ParseError::Lex(e));
        },
    };
    proof {
        crate::lex_spec::lemma_lex_from_shape(input@, 0);
    }
    let mut parser = Parser::new(tokens);
    parser.parse_document()
}

} // verus!
