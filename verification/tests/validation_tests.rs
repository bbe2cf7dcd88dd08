use rgraphql::{parse, validate, ValidationError, ValidationErrorKind};

fn errors_of(src: &str) -> Vec<ValidationError> {
    let doc = parse(src).expect("パースに失敗しました(テストの前提が壊れています)");
    validate(&doc)
}

fn has_kind(errors: &[ValidationError], kind: ValidationErrorKind) -> bool {
    errors.iter().any(|e| e.kind == kind)
}

// --- Fragment Spread Target Defined ---

#[test]
fn rejects_spread_of_undefined_fragment() {
    let errors = errors_of("{ hero { ...MissingFields } }");
    assert!(has_kind(&errors, ValidationErrorKind::UndefinedFragment));
}

#[test]
fn accepts_spread_of_defined_fragment() {
    let errors = errors_of(
        r#"
        { hero { ...HeroFields } }
        fragment HeroFields on Character { name appearsIn }
        "#,
    );
    assert!(!has_kind(&errors, ValidationErrorKind::UndefinedFragment));
}

// --- Fragments Must Not Form Cycles ---

#[test]
fn rejects_direct_fragment_self_cycle() {
    let errors = errors_of(
        r#"
        { hero { ...A } }
        fragment A on Character { ...A }
        "#,
    );
    assert!(has_kind(&errors, ValidationErrorKind::FragmentCycle));
}

#[test]
fn rejects_indirect_fragment_cycle() {
    let errors = errors_of(
        r#"
        { hero { ...A } }
        fragment A on Character { name ...B }
        fragment B on Character { name ...A }
        "#,
    );
    assert!(has_kind(&errors, ValidationErrorKind::FragmentCycle));
}

#[test]
fn accepts_non_cyclic_fragment_chain() {
    let errors = errors_of(
        r#"
        { hero { ...A } }
        fragment A on Character { name ...B }
        fragment B on Character { appearsIn }
        "#,
    );
    assert!(!has_kind(&errors, ValidationErrorKind::FragmentCycle));
}

// --- Fragments Must Be Used ---

#[test]
fn rejects_unused_fragment_definition() {
    let errors = errors_of(
        r#"
        { hero { name } }
        fragment Unused on Character { appearsIn }
        "#,
    );
    assert!(has_kind(&errors, ValidationErrorKind::UnusedFragment));
}

#[test]
fn accepts_used_fragment_definition() {
    let errors = errors_of(
        r#"
        { hero { ...HeroFields } }
        fragment HeroFields on Character { name }
        "#,
    );
    assert!(!has_kind(&errors, ValidationErrorKind::UnusedFragment));
}

#[test]
fn accepts_fragment_used_only_transitively_through_another_fragment() {
    let errors = errors_of(
        r#"
        { hero { ...A } }
        fragment A on Character { name ...B }
        fragment B on Character { appearsIn }
        "#,
    );
    assert!(!has_kind(&errors, ValidationErrorKind::UnusedFragment));
}

// --- Lone Anonymous Operation ---

#[test]
fn rejects_anonymous_operation_alongside_named_operation() {
    let errors = errors_of("{ hero } query Other { droid }");
    assert!(has_kind(
        &errors,
        ValidationErrorKind::LoneAnonymousOperation
    ));
}

#[test]
fn accepts_lone_anonymous_operation() {
    let errors = errors_of("{ hero }");
    assert!(!has_kind(
        &errors,
        ValidationErrorKind::LoneAnonymousOperation
    ));
}

#[test]
fn accepts_multiple_named_operations_without_anonymous() {
    let errors = errors_of("query A { hero } query B { droid }");
    assert!(!has_kind(
        &errors,
        ValidationErrorKind::LoneAnonymousOperation
    ));
}

// --- Operation Name Uniqueness ---

#[test]
fn rejects_duplicate_operation_names() {
    let errors = errors_of("query Hero { hero } query Hero { droid }");
    assert!(has_kind(
        &errors,
        ValidationErrorKind::DuplicateOperationName
    ));
}

#[test]
fn accepts_distinct_operation_names() {
    let errors = errors_of("query Hero { hero } query Droid { droid }");
    assert!(!has_kind(
        &errors,
        ValidationErrorKind::DuplicateOperationName
    ));
}

// --- All Variable Uses Defined ---

#[test]
fn rejects_undefined_variable_usage() {
    let errors = errors_of("query Q { hero(id: $missing) }");
    assert!(has_kind(&errors, ValidationErrorKind::UndefinedVariable));
}

#[test]
fn accepts_variable_usage_declared_on_operation() {
    let errors = errors_of("query Q($id: ID!) { hero(id: $id) }");
    assert!(!has_kind(&errors, ValidationErrorKind::UndefinedVariable));
}

#[test]
fn accepts_variable_used_transitively_through_fragment() {
    let errors = errors_of(
        r#"
        query Q($skipName: Boolean!) { hero { ...HeroFields } }
        fragment HeroFields on Character { name @skip(if: $skipName) }
        "#,
    );
    assert!(!has_kind(&errors, ValidationErrorKind::UndefinedVariable));
    assert!(!has_kind(&errors, ValidationErrorKind::UnusedVariable));
}

// --- Variables Are Used ---

#[test]
fn rejects_unused_declared_variable() {
    let errors = errors_of("query Q($id: ID!) { hero }");
    assert!(has_kind(&errors, ValidationErrorKind::UnusedVariable));
}

#[test]
fn accepts_declared_variable_used_in_nested_argument_object() {
    let errors = errors_of("query Q($id: ID!) { hero(filter: {id: $id}) }");
    assert!(!has_kind(&errors, ValidationErrorKind::UnusedVariable));
}

// --- Field Selection Merging(部分集合) ---

#[test]
fn rejects_conflicting_aliases_pointing_to_different_fields() {
    let errors = errors_of("{ hero { name: id name: title } }");
    assert!(has_kind(
        &errors,
        ValidationErrorKind::ConflictingFieldSelection
    ));
}

#[test]
fn rejects_same_field_with_conflicting_arguments_at_same_response_key() {
    let errors = errors_of("{ hero(id: 1) hero(id: 2) }");
    assert!(has_kind(
        &errors,
        ValidationErrorKind::ConflictingFieldSelection
    ));
}

#[test]
fn accepts_identical_repeated_field_selection() {
    let errors = errors_of("{ hero(id: 1) hero(id: 1) }");
    assert!(!has_kind(
        &errors,
        ValidationErrorKind::ConflictingFieldSelection
    ));
}

#[test]
fn accepts_distinct_aliases_for_same_field() {
    let errors = errors_of("{ luke: hero(id: 1) leia: hero(id: 2) }");
    assert!(!has_kind(
        &errors,
        ValidationErrorKind::ConflictingFieldSelection
    ));
}

// --- 総合サニティチェック: 現実的な複数操作/複数フラグメントの
// ドキュメントで、意図せぬfalse positiveが出ないことを確認する ---

#[test]
fn realistic_multi_operation_multi_fragment_document_is_fully_valid() {
    let errors = errors_of(
        r#"
        query HeroComparison($episode: Episode, $withFriends: Boolean! = true) {
            hero(episode: $episode) {
                ...HeroFields
                friends @include(if: $withFriends) {
                    ...HeroFields
                }
            }
        }

        mutation LikeHero($storyID: ID!) {
            like(storyID: $storyID) {
                likeCount
            }
        }

        fragment HeroFields on Character {
            id
            name
            appearsIn
            ... on Droid {
                primaryFunction
            }
        }
        "#,
    );
    assert_eq!(errors, Vec::new(), "妥当なドキュメントでエラーが検出されました: {:?}", errors);
}

#[test]
fn realistic_document_with_nested_fragments_and_inline_fragments_is_valid() {
    let errors = errors_of(
        r#"
        query FeedQuery {
            feed {
                ...FeedEntryFields
                ... on StoryEntry {
                    commentCount
                }
            }
        }

        fragment FeedEntryFields on Entry {
            id
            ...EntryMeta
        }

        fragment EntryMeta on Entry {
            repository {
                name
            }
        }
        "#,
    );
    assert_eq!(errors, Vec::new(), "妥当なドキュメントでエラーが検出されました: {:?}", errors);
}

#[test]
fn realistic_named_multi_operation_document_with_variables_is_valid() {
    let errors = errors_of(
        r#"
        query GetHero($id: ID!) {
            human(id: $id) {
                name
                height
            }
        }

        query GetDroid($id: ID!) {
            droid(id: $id) {
                name
                primaryFunction
            }
        }
        "#,
    );
    assert_eq!(errors, Vec::new(), "妥当なドキュメントでエラーが検出されました: {:?}", errors);
}
