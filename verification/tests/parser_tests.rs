use rgraphql::{parse, Argument, Field, OperationType, ParseError, Selection, Type, Value};

/// The field that a selection is; panics on any other selection.
fn as_field(sel: &Selection) -> &Field {
    match sel {
        Selection::Field(f) => f,
        other => panic!("Field を期待しましたが {:?} でした", other),
    }
}

#[test]
fn shorthand_query_single_field() {
    let doc = parse("{ hero }").unwrap();
    assert_eq!(doc.operations.len(), 1);
    let op = &doc.operations[0];
    assert_eq!(op.operation, OperationType::Query);
    assert_eq!(op.name, None);
    assert!(op.variable_definitions.is_empty());
    assert!(op.directives.is_empty());
    assert_eq!(op.selection_set.selections.len(), 1);
    let f = as_field(&op.selection_set.selections[0]);
    assert_eq!(f.name, "hero");
    assert!(f.alias.is_none());
    assert!(f.arguments.is_empty());
    assert!(f.selection_set.is_none());
}

#[test]
fn named_query_with_nested_selection() {
    let doc = parse("query HeroName { hero { name friends { name } } }").unwrap();
    let op = &doc.operations[0];
    assert_eq!(op.name.as_deref(), Some("HeroName"));
    let hero = as_field(&op.selection_set.selections[0]);
    assert_eq!(hero.name, "hero");
    let sub = hero.selection_set.as_ref().unwrap();
    assert_eq!(sub.selections.len(), 2);
    let friends = as_field(&sub.selections[1]);
    assert_eq!(friends.name, "friends");
    assert!(friends.selection_set.is_some());
}

#[test]
fn alias_is_parsed() {
    let doc = parse("{ empireHero: hero }").unwrap();
    let f = as_field(&doc.operations[0].selection_set.selections[0]);
    assert_eq!(f.alias.as_deref(), Some("empireHero"));
    assert_eq!(f.name, "hero");
}

#[test]
fn arguments_with_various_value_kinds() {
    let doc = parse(
        r#"{ human(id: 1000, height: 1.8, name: "Luke", active: true, home: null, ep: JEDI) { name } }"#,
    )
    .unwrap();
    let f = as_field(&doc.operations[0].selection_set.selections[0]);
    assert_eq!(f.arguments.len(), 6);
    assert_eq!(f.arguments[0], Argument { name: "id".into(), value: Value::Int(1000) });
    assert_eq!(f.arguments[1].name, "height");
    match &f.arguments[1].value {
        Value::Float(text) => assert_eq!(text.parse::<f64>().unwrap(), 1.8),
        other => panic!("Float を期待しましたが {:?} でした", other),
    }
    assert_eq!(
        f.arguments[2],
        Argument { name: "name".into(), value: Value::String("Luke".into()) }
    );
    assert_eq!(f.arguments[3], Argument { name: "active".into(), value: Value::Boolean(true) });
    assert_eq!(f.arguments[4], Argument { name: "home".into(), value: Value::Null });
    assert_eq!(
        f.arguments[5],
        Argument { name: "ep".into(), value: Value::Enum("JEDI".into()) }
    );
}

#[test]
fn list_and_object_and_variable_values() {
    let doc = parse(r#"{ f(nums: [1, 2, 3], obj: {a: 1, b: "x"}, v: $myVar) }"#).unwrap();
    let f = as_field(&doc.operations[0].selection_set.selections[0]);
    assert_eq!(
        f.arguments[0].value,
        Value::List(vec![Value::Int(1), Value::Int(2), Value::Int(3)])
    );
    assert_eq!(
        f.arguments[1].value,
        Value::Object(vec![
            ("a".into(), Value::Int(1)),
            ("b".into(), Value::String("x".into())),
        ])
    );
    assert_eq!(f.arguments[2].value, Value::Variable("myVar".into()));
}

#[test]
fn empty_selection_set_is_rejected() {
    assert!(parse("{ }").is_err());
}

#[test]
fn unterminated_selection_set_is_rejected() {
    assert!(parse("{ hero ").is_err());
}

#[test]
fn subscription_is_reported_as_unsupported() {
    let err = parse("subscription { like }").unwrap_err();
    match err {
        ParseError::Syntax { message, .. } => assert!(message.contains("未対応")),
        _ => panic!("構文エラーを期待"),
    }
}

#[test]
fn mutation_operation_is_parsed() {
    let doc = parse(r#"mutation LikeStory { like(storyID: 12345) { likeCount } }"#).unwrap();
    let op = &doc.operations[0];
    assert_eq!(op.operation, OperationType::Mutation);
    assert_eq!(op.name.as_deref(), Some("LikeStory"));
    let f = as_field(&op.selection_set.selections[0]);
    assert_eq!(f.name, "like");
    assert_eq!(f.arguments[0], Argument { name: "storyID".into(), value: Value::Int(12345) });
}

#[test]
fn variable_definitions_are_parsed() {
    let doc = parse(
        r#"query Hero($episode: Episode, $withFriends: Boolean! = true) { hero(episode: $episode) { friends @include(if: $withFriends) { name } } }"#,
    )
    .unwrap();
    let op = &doc.operations[0];
    assert_eq!(op.variable_definitions.len(), 2);
    assert_eq!(op.variable_definitions[0].name, "episode");
    assert_eq!(op.variable_definitions[0].var_type, Type::Named("Episode".into()));
    assert_eq!(op.variable_definitions[0].default_value, None);
    assert_eq!(
        op.variable_definitions[1].var_type,
        Type::NonNull(Box::new(Type::Named("Boolean".into())))
    );
    assert_eq!(op.variable_definitions[1].default_value, Some(Value::Boolean(true)));

    let hero = as_field(&op.selection_set.selections[0]);
    assert_eq!(hero.arguments[0].value, Value::Variable("episode".into()));
}

#[test]
fn list_and_nonnull_list_types_are_parsed() {
    let doc = parse(r#"query Q($ids: [ID!]!) { node }"#).unwrap();
    let var_type = &doc.operations[0].variable_definitions[0].var_type;
    assert_eq!(
        *var_type,
        Type::NonNull(Box::new(Type::List(Box::new(Type::NonNull(Box::new(Type::Named(
            "ID".into()
        )))))))
    );
}

#[test]
fn empty_variable_definitions_are_rejected() {
    assert!(parse("query Q() { node }").is_err());
}

#[test]
fn fragment_definition_and_spread_are_parsed() {
    let doc = parse(
        r#"
        query HeroComparison {
            hero { ...HeroFields }
        }
        fragment HeroFields on Character {
            name
            appearsIn
        }
        "#,
    )
    .unwrap();
    assert_eq!(doc.fragments.len(), 1);
    let frag = &doc.fragments[0];
    assert_eq!(frag.name, "HeroFields");
    assert_eq!(frag.type_condition, "Character");
    assert_eq!(frag.selection_set.selections.len(), 2);

    let hero = as_field(&doc.operations[0].selection_set.selections[0]);
    let sub = hero.selection_set.as_ref().unwrap();
    match &sub.selections[0] {
        Selection::FragmentSpread(spread) => assert_eq!(spread.name, "HeroFields"),
        other => panic!("FragmentSpread を期待しましたが {:?} でした", other),
    }
}

#[test]
fn inline_fragment_with_and_without_type_condition() {
    let doc = parse(
        r#"{
            hero {
                ... on Droid { primaryFunction }
                ... @include(if: true) { name }
            }
        }"#,
    )
    .unwrap();
    let hero = as_field(&doc.operations[0].selection_set.selections[0]);
    let sub = hero.selection_set.as_ref().unwrap();
    assert_eq!(sub.selections.len(), 2);
    match &sub.selections[0] {
        Selection::InlineFragment(inline) => {
            assert_eq!(inline.type_condition.as_deref(), Some("Droid"));
        }
        other => panic!("InlineFragment を期待しましたが {:?} でした", other),
    }
    match &sub.selections[1] {
        Selection::InlineFragment(inline) => {
            assert_eq!(inline.type_condition, None);
            assert_eq!(inline.directives.len(), 1);
            assert_eq!(inline.directives[0].name, "include");
        }
        other => panic!("InlineFragment を期待しましたが {:?} でした", other),
    }
}

#[test]
fn fragment_name_on_is_rejected() {
    assert!(parse("fragment on on Type { name }").is_err());
}

#[test]
fn field_and_operation_directives_are_parsed() {
    let doc = parse(
        r#"query Q($skipName: Boolean!) @cached { hero { name @skip(if: $skipName) id } }"#,
    )
    .unwrap();
    let op = &doc.operations[0];
    assert_eq!(op.directives.len(), 1);
    assert_eq!(op.directives[0].name, "cached");

    let hero = as_field(&op.selection_set.selections[0]);
    let sub = hero.selection_set.as_ref().unwrap();
    let name_field = as_field(&sub.selections[0]);
    assert_eq!(name_field.directives.len(), 1);
    assert_eq!(name_field.directives[0].name, "skip");
    assert_eq!(
        name_field.directives[0].arguments[0],
        Argument { name: "if".into(), value: Value::Variable("skipName".into()) }
    );
}
