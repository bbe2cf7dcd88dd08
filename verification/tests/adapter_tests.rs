use rgraphql::GraphQLRequest;

#[test]
fn adapter_stub_parses_query_without_poem_dependency() {
    let req = GraphQLRequest::new("{ hero { name } }");
    let doc = req.parse_query().unwrap();
    assert_eq!(doc.operations.len(), 1);
}
