use rgraphql::{
    parse, tokenize, tokenize_into, validate, CollectingSink, GraphQLRequest, ParseError,
    TokenKind, ValidationError, ValidationErrorKind,
};

fn errors_of(src: &str) -> Vec<ValidationError> {
    validate(&parse(src).unwrap())
}

fn messages_of(errors: &[ValidationError], kind: ValidationErrorKind) -> Vec<String> {
    errors.iter().filter(|e| e.kind == kind).map(|e| e.message.clone()).collect()
}

// --- tokenizer ---

#[test]
fn token_starts_increase_and_eof_comes_last() {
    let tokens = tokenize("query Q { hero(id: 1) }").unwrap();
    let starts: Vec<usize> = tokens.iter().map(|t| t.start).collect();
    assert_eq!(starts, vec![0, 6, 8, 10, 14, 15, 17, 19, 20, 22, 23]);
    assert_eq!(tokens.last().unwrap().kind, TokenKind::Eof);
    assert_eq!(tokens.iter().filter(|t| t.kind == TokenKind::Eof).count(), 1);
}

#[test]
fn sink_receives_what_tokenize_returns() {
    let mut sink = CollectingSink::new();
    let res = tokenize_into("{ hero { name } }", &mut sink);
    assert!(res.is_ok());
    assert_eq!(sink.tokens, tokenize("{ hero { name } }").unwrap());
}

#[test]
fn sink_keeps_tokens_before_an_error() {
    let mut sink = CollectingSink::new();
    let res = tokenize_into("{ hero ?", &mut sink);
    let err = res.unwrap_err();
    assert_eq!(err.position, 7);
    let kinds: Vec<TokenKind> = sink.tokens.into_iter().map(|t| t.kind).collect();
    assert_eq!(kinds, vec![TokenKind::BraceL, TokenKind::Name("hero".to_string())]);
}

#[test]
fn unexpected_character_is_named_in_the_message() {
    let err = tokenize("{ ? }").unwrap_err();
    assert_eq!(err.position, 2);
    assert_eq!(err.message, "予期しない文字 '?'");
    assert_eq!(err.to_message(), "字句エラー(位置 2): 予期しない文字 '?'");
}

#[test]
fn unicode_escape_gives_the_character() {
    assert_eq!(
        tokenize(r#""\u0041\u00e9""#).unwrap()[0].kind,
        TokenKind::Str("Aé".to_string())
    );
}

#[test]
fn surrogate_escape_is_rejected() {
    let err = tokenize(r#""\uD800""#).unwrap_err();
    assert_eq!(err.message, "不正なUnicodeコードポイント U+D800");
}

#[test]
fn bad_hex_digit_in_escape_is_named() {
    let err = tokenize(r#""\u00ZZ""#).unwrap_err();
    assert_eq!(err.message, "\\u エスケープに不正な16進数字 'Z'");
}

#[test]
fn single_dot_is_rejected() {
    let err = tokenize("{ . }").unwrap_err();
    assert_eq!(err.message, "'.' は '...'(スプレッド)としてのみ有効です");
}

#[test]
fn exponent_without_digits_is_rejected() {
    assert_eq!(tokenize("1e").unwrap_err().message, "指数部に数字がありません");
}

#[test]
fn raw_newline_in_string_is_rejected() {
    assert_eq!(
        tokenize("\"a\nb\"").unwrap_err().message,
        "通常の文字列リテラルに生の改行は使えません"
    );
}

#[test]
fn block_string_keeps_relative_indentation_and_trims_blank_lines() {
    let src = "\"\"\"\n\n  a\n    b\n\n\"\"\"";
    assert_eq!(tokenize(src).unwrap()[0].kind, TokenKind::Str("a\n  b".to_string()));
}

#[test]
fn block_string_indentation_counts_only_spaces_and_tabs() {
    let src = "\"\"\"\n\u{00A0}a\"\"\"";
    assert_eq!(tokenize(src).unwrap()[0].kind, TokenKind::Str("\u{00A0}a".to_string()));
    let src = "\"\"\"\n\t  a\n\t    b\n\"\"\"";
    assert_eq!(tokenize(src).unwrap()[0].kind, TokenKind::Str("a\n  b".to_string()));
}

#[test]
fn block_string_with_wide_white_space_never_fails() {
    let src = "\"\"\"\n\u{3000}\u{3000}x\n y\n\"\"\"";
    assert_eq!(
        tokenize(src).unwrap()[0].kind,
        TokenKind::Str("\u{3000}\u{3000}x\n y".to_string())
    );
}

// --- parser ---

#[test]
fn parse_reports_the_tokenizer_error() {
    let lex = tokenize("01").unwrap_err();
    assert_eq!(parse("01").unwrap_err(), ParseError::Lex(lex));
}

#[test]
fn empty_document_is_rejected() {
    let err = parse("").unwrap_err();
    assert_eq!(
        err,
        ParseError::Syntax {
            message: "空のドキュメントです(少なくとも1つの操作が必要)".to_string(),
            position: 0,
        }
    );
    assert_eq!(
        err.to_message(),
        "構文エラー(位置 0): 空のドキュメントです(少なくとも1つの操作が必要)"
    );
}

#[test]
fn empty_selection_set_error_points_after_the_brace() {
    assert_eq!(
        parse("{ }").unwrap_err(),
        ParseError::Syntax {
            message: "選択集合には少なくとも1つのフィールドが必要です".to_string(),
            position: 3,
        }
    );
}

#[test]
fn unclosed_selection_set_error() {
    assert_eq!(
        parse("{ hero ").unwrap_err(),
        ParseError::Syntax {
            message: "選択集合が `}` で閉じられていません".to_string(),
            position: 7,
        }
    );
}

#[test]
fn missing_colon_names_both_tokens() {
    assert_eq!(
        parse("query Q { hero(id 1) }").unwrap_err(),
        ParseError::Syntax {
            message: "Colon を期待しましたが Int(\"1\") が見つかりました".to_string(),
            position: 18,
        }
    );
}

#[test]
fn empty_argument_list_is_rejected() {
    match parse("{ hero() }").unwrap_err() {
        ParseError::Syntax { message, .. } => {
            assert_eq!(message, "引数リスト `()` は空にできません")
        }
        other => panic!("構文エラーを期待しましたが {:?} でした", other),
    }
}

#[test]
fn integer_too_large_for_i64_is_rejected() {
    match parse("{ f(n: 9223372036854775808) }").unwrap_err() {
        ParseError::Syntax { message, .. } => {
            assert_eq!(message, "整数 `9223372036854775808` を i64 として解釈できません")
        }
        other => panic!("構文エラーを期待しましたが {:?} でした", other),
    }
}

#[test]
fn request_parses_its_query() {
    let req = GraphQLRequest::new("query A { a } query B { b }");
    assert!(req.operation_name.is_none());
    let doc = req.parse_query().unwrap();
    assert_eq!(doc, parse("query A { a } query B { b }").unwrap());
    assert_eq!(doc.operations.len(), 2);
}

// --- validation ---

#[test]
fn self_spread_cycle_message() {
    let errors = errors_of("{ hero { ...A } } fragment A on T { ...A }");
    assert_eq!(
        messages_of(&errors, ValidationErrorKind::FragmentCycle),
        vec!["フラグメントの循環参照を検出しました: A -> A".to_string()]
    );
}

#[test]
fn three_fragment_cycle_message() {
    let errors = errors_of(
        "{ hero { ...A } } fragment A on T { ...B } fragment B on T { ...C } fragment C on T { ...A }",
    );
    assert_eq!(
        messages_of(&errors, ValidationErrorKind::FragmentCycle),
        vec!["フラグメントの循環参照を検出しました: A -> B -> C -> A".to_string()]
    );
}

#[test]
fn diamond_of_fragments_is_no_cycle() {
    let errors = errors_of(
        "{ hero { ...A } } fragment A on T { ...B ...C } fragment B on T { ...D } \
         fragment C on T { ...D } fragment D on T { name }",
    );
    assert_eq!(errors, Vec::new());
}

#[test]
fn cycle_not_reached_from_an_operation_is_still_found() {
    let errors = errors_of("{ hero } fragment A on T { ...B } fragment B on T { ...A }");
    assert_eq!(
        messages_of(&errors, ValidationErrorKind::FragmentCycle),
        vec!["フラグメントの循環参照を検出しました: A -> B -> A".to_string()]
    );
    assert_eq!(messages_of(&errors, ValidationErrorKind::UnusedFragment).len(), 2);
}

#[test]
fn undefined_fragment_message_names_the_context() {
    let errors = errors_of("{ hero { ...Missing } }");
    assert_eq!(
        messages_of(&errors, ValidationErrorKind::UndefinedFragment),
        vec!["無名操作が参照するフラグメント `...Missing` は定義されていません".to_string()]
    );
    let errors = errors_of("query Q { hero { ...F } } fragment F on T { ...G }");
    assert_eq!(
        messages_of(&errors, ValidationErrorKind::UndefinedFragment),
        vec!["フラグメント定義 `F`が参照するフラグメント `...G` は定義されていません".to_string()]
    );
}

#[test]
fn unused_fragment_message() {
    let errors = errors_of("{ hero } fragment Lonely on T { name }");
    assert_eq!(
        messages_of(&errors, ValidationErrorKind::UnusedFragment),
        vec!["フラグメント `Lonely` はどの操作からも参照されていません(未使用)".to_string()]
    );
}

#[test]
fn every_anonymous_operation_beside_others_is_reported() {
    let errors = errors_of("{ a } { b } query C { c }");
    assert_eq!(
        messages_of(&errors, ValidationErrorKind::LoneAnonymousOperation),
        vec![
            "無名操作は、文書内に他の操作が存在しない場合に限り許可されます".to_string(),
            "無名操作は、文書内に他の操作が存在しない場合に限り許可されます".to_string(),
        ]
    );
}

#[test]
fn duplicate_operation_name_counts_the_definitions() {
    let errors = errors_of("query H { a } query H { b } query H { c } query K { d } query K { e }");
    assert_eq!(
        messages_of(&errors, ValidationErrorKind::DuplicateOperationName),
        vec![
            "操作名 `H` が文書内で3回定義されています(一意である必要があります)".to_string(),
            "操作名 `K` が文書内で2回定義されています(一意である必要があります)".to_string(),
        ]
    );
}

#[test]
fn undefined_variables_are_reported_in_ascending_order() {
    let errors = errors_of("query Q { a(x: $zeta, y: [$alpha, {k: $beta}]) }");
    assert_eq!(
        messages_of(&errors, ValidationErrorKind::UndefinedVariable),
        vec![
            "操作 `Q`内で使用されている変数 `$alpha` はこの操作の変数定義リストに存在しません"
                .to_string(),
            "操作 `Q`内で使用されている変数 `$beta` はこの操作の変数定義リストに存在しません"
                .to_string(),
            "操作 `Q`内で使用されている変数 `$zeta` はこの操作の変数定義リストに存在しません"
                .to_string(),
        ]
    );
}

#[test]
fn unused_variable_message() {
    let errors = errors_of("query Q($b: Int, $a: Int) { f(x: $b) }");
    assert_eq!(
        messages_of(&errors, ValidationErrorKind::UnusedVariable),
        vec!["操作 `Q`で宣言されている変数 `$a` は使用されていません".to_string()]
    );
}

#[test]
fn variable_used_two_fragments_deep_counts_as_used() {
    let errors = errors_of(
        "query Q($v: Int) { ...A } fragment A on T { ...B } fragment B on T { f(x: $v) }",
    );
    assert_eq!(errors, Vec::new());
}

#[test]
fn variable_in_fragment_directive_counts_as_used() {
    let errors = errors_of("query Q($v: Boolean) { ...A } fragment A on T @include(if: $v) { f }");
    assert_eq!(errors, Vec::new());
}

#[test]
fn conflicting_field_messages() {
    let errors = errors_of("{ k: a k: b }");
    assert_eq!(
        messages_of(&errors, ValidationErrorKind::ConflictingFieldSelection),
        vec!["レスポンスキー `k` が異なるフィールド(`a` と `b`)を指しています".to_string()]
    );
    let errors = errors_of("{ a(x: 1) a(x: 2) }");
    assert_eq!(
        messages_of(&errors, ValidationErrorKind::ConflictingFieldSelection),
        vec!["レスポンスキー `a` (フィールド `a`) が異なる引数で複数回選択されています".to_string()]
    );
}

#[test]
fn conflicts_are_found_in_nested_selection_sets() {
    let errors = errors_of("{ hero { ... on Droid { k: a k: b } } }");
    assert_eq!(messages_of(&errors, ValidationErrorKind::ConflictingFieldSelection).len(), 1);
}

#[test]
fn argument_order_does_not_make_a_conflict() {
    let errors = errors_of("{ hero(a: 1, b: 2) hero(b: 2, a: 1) }");
    assert_eq!(errors, Vec::new());
    let errors = errors_of("{ hero(a: 1, b: 2) hero(b: 2) }");
    assert_eq!(messages_of(&errors, ValidationErrorKind::ConflictingFieldSelection).len(), 1);
}

#[test]
fn later_field_is_compared_with_the_first_of_its_key() {
    let errors = errors_of("{ a(x: 1) a(x: 2) a(x: 1) }");
    assert_eq!(messages_of(&errors, ValidationErrorKind::ConflictingFieldSelection).len(), 1);
}

#[test]
fn error_text_shows_kind_and_message() {
    let errors = errors_of("{ hero } fragment Lonely on T { name }");
    assert_eq!(
        errors[0].to_message(),
        "[UnusedFragment] フラグメント `Lonely` はどの操作からも参照されていません(未使用)"
    );
}

#[test]
fn rules_are_reported_in_order() {
    let errors = errors_of("{ a(x: $v) { ...M } } query D { b } fragment F on T { c }");
    let kinds: Vec<ValidationErrorKind> = errors.iter().map(|e| e.kind).collect();
    assert_eq!(
        kinds,
        vec![
            ValidationErrorKind::UndefinedFragment,
            ValidationErrorKind::UnusedFragment,
            ValidationErrorKind::LoneAnonymousOperation,
            ValidationErrorKind::UndefinedVariable,
        ]
    );
}

#[test]
fn syntax_errors_stand_at_token_starts() {
    for src in ["{ hero(id 1) }", "query Q() { a }", "{ a { } }", "fragment on on T { a }", "{ a"] {
        let starts: Vec<usize> = tokenize(src).unwrap().iter().map(|t| t.start).collect();
        match parse(src).unwrap_err() {
            ParseError::Syntax { position, .. } => assert!(starts.contains(&position)),
            other => panic!("構文エラーを期待しましたが {:?} でした", other),
        }
    }
}

#[test]
fn blanks_and_commas_between_tokens_are_interchangeable() {
    assert_eq!(tokenize("{ a, b }").unwrap(), tokenize("{ a  b }").unwrap());
    assert_eq!(tokenize("f(x:1,y:2)").unwrap(), tokenize("f(x:1\ty:2)").unwrap());
    assert_eq!(tokenize("# a, b\nc").unwrap(), tokenize("# a  b\nc").unwrap());
    assert_eq!(tokenize("\"\\q\" , b").unwrap_err(), tokenize("\"\\q\"   b").unwrap_err());
    // Inside a string literal the character is part of its value.
    assert_ne!(tokenize("\"a,b\"").unwrap(), tokenize("\"a b\"").unwrap());
}
