use schema_lint::checks::{check_required, check_unique_items};
use schema_lint::document::{Entry, Node, NodeValue, Span};
use schema_lint::json::{Json, Member};
use schema_lint::report::{Keyword, Report};
use schema_lint::validator::JSONSchemaValidator;

fn at(line: u32) -> Span {
    Span { start_line: line, start_column: 0, end_line: line, end_column: 1 }
}

fn node(line: u32, value: NodeValue) -> Node {
    Node { span: at(line), value }
}

fn text(line: u32, s: &str) -> Node {
    node(line, NodeValue::Str(s.to_string()))
}

fn num(line: u32, v: i64) -> Node {
    node(line, NodeValue::Number(v))
}

fn array(line: u32, items: Vec<Node>) -> Node {
    node(line, NodeValue::Array(items))
}

fn object(line: u32, entries: Vec<(&str, Node)>) -> Node {
    let entries = entries
        .into_iter()
        .map(|(k, v)| Entry { key: k.to_string(), key_span: v.span, value: v })
        .collect();
    node(line, NodeValue::Object(entries))
}

fn s(v: &str) -> Json {
    Json::Str(v.to_string())
}

fn obj(members: Vec<(&str, Json)>) -> Json {
    Json::Object(members.into_iter().map(|(k, v)| Member { key: k.to_string(), value: v }).collect())
}

fn run(doc: &Node, schema: Json) -> Report {
    JSONSchemaValidator::new(schema).validate(doc)
}

fn kinds(r: &Report) -> Vec<Keyword> {
    r.diagnostics.iter().map(|d| d.keyword).collect()
}

fn version_schema() -> Json {
    obj(vec![
        ("$schema", s("http://json-schema.org/draft-04/schema#")),
        ("type", s("object")),
        (
            "properties",
            obj(vec![(
                "version",
                obj(vec![
                    ("type", s("string")),
                    ("minLength", Json::Number(0)),
                    ("maxLength", Json::Number(10)),
                ]),
            )]),
        ),
        ("required", Json::Array(vec![s("version")])),
    ])
}

#[test]
fn basic_validation() {
    let doc = object(0, vec![("version", text(1, "testing"))]);
    let result = run(&doc, version_schema());
    assert_eq!(result.diagnostics.len(), 0);
}

#[test]
fn wrong_property_type_is_one_diagnostic() {
    let doc = object(0, vec![("version", num(1, 5))]);
    let result = run(&doc, version_schema());
    assert_eq!(kinds(&result), vec![Keyword::Type]);
    assert_eq!(result.diagnostics[0].span, at(1));
}

#[test]
fn too_long_string() {
    let doc = object(0, vec![("version", text(1, "eleven-char"))]);
    let result = run(&doc, version_schema());
    assert_eq!(kinds(&result), vec![Keyword::MaxLength]);
}

#[test]
fn length_counts_characters_not_bytes() {
    let schema = obj(vec![("maxLength", Json::Number(2))]);
    assert_eq!(run(&text(0, "éé"), schema).diagnostics.len(), 0);
    let schema = obj(vec![("minLength", Json::Number(3))]);
    assert_eq!(kinds(&run(&text(0, "éé"), schema)), vec![Keyword::MinLength]);
}

#[test]
fn required_missing_names_the_key() {
    let schema = obj(vec![("required", Json::Array(vec![s("k")]))]);
    let result = run(&object(0, vec![("other", num(1, 1))]), schema);
    assert_eq!(kinds(&result), vec![Keyword::Required]);
    assert_eq!(result.diagnostics[0].subject, "k");
    let schema = obj(vec![("required", Json::Array(vec![s("k")]))]);
    let result = run(&object(0, vec![("k", node(1, NodeValue::Null))]), schema);
    assert_eq!(result.diagnostics.len(), 0);
}

#[test]
fn declared_property_is_not_additional() {
    let schema = obj(vec![
        ("properties", obj(vec![("a", obj(vec![]))])),
        ("additionalProperties", Json::Bool(false)),
    ]);
    let result = run(&object(0, vec![("a", num(1, 1)), ("b", num(2, 2))]), schema);
    assert_eq!(kinds(&result), vec![Keyword::AdditionalProperties]);
    assert_eq!(result.diagnostics[0].subject, "b");
}

#[test]
fn pattern_properties_claim_before_additional() {
    let schema = obj(vec![
        ("patternProperties", obj(vec![("^x-", obj(vec![("type", s("number"))]))])),
        ("additionalProperties", Json::Bool(false)),
    ]);
    let result = run(&object(0, vec![("x-a", text(1, "no")), ("y", num(2, 2))]), schema);
    assert_eq!(kinds(&result), vec![Keyword::Type, Keyword::AdditionalProperties]);
    assert_eq!(result.diagnostics[1].subject, "y");
}

#[test]
fn additional_properties_schema_and_true() {
    let schema = obj(vec![("additionalProperties", obj(vec![("type", s("string"))]))]);
    let result = run(&object(0, vec![("a", num(1, 1))]), schema);
    assert_eq!(kinds(&result), vec![Keyword::Type]);
    let schema = obj(vec![("minimum", Json::Number(3)), ("additionalProperties", Json::Bool(true))]);
    let result = run(&object(0, vec![("a", num(1, 1))]), schema);
    assert_eq!(kinds(&result), vec![Keyword::Minimum]);
}

#[test]
fn unique_items() {
    let schema = || obj(vec![("uniqueItems", Json::Bool(true))]);
    let dup = array(0, vec![num(1, 1), num(2, 2), num(3, 1)]);
    assert_eq!(kinds(&run(&dup, schema())), vec![Keyword::UniqueItems]);
    let distinct = array(0, vec![num(1, 1), num(2, 2), num(3, 3)]);
    assert_eq!(run(&distinct, schema()).diagnostics.len(), 0);
}

#[test]
fn additional_items_false() {
    let schema = obj(vec![
        ("items", Json::Array(vec![obj(vec![("type", s("string"))])])),
        ("additionalItems", Json::Bool(false)),
    ]);
    let result = run(&array(0, vec![text(1, "a"), num(2, 1)]), schema);
    assert_eq!(kinds(&result), vec![Keyword::AdditionalItems]);
    assert_eq!(result.diagnostics[0].span, at(2));
    assert_eq!(result.diagnostics[0].counts, Some((1, 2)));
}

#[test]
fn additional_items_false_flags_each_extra_element() {
    let schema = obj(vec![
        ("items", Json::Array(vec![obj(vec![])])),
        ("additionalItems", Json::Bool(false)),
    ]);
    let result = run(&array(0, vec![num(1, 1), num(2, 2), num(3, 3)]), schema);
    assert_eq!(kinds(&result), vec![Keyword::AdditionalItems, Keyword::AdditionalItems]);
    let spans: Vec<Span> = result.diagnostics.iter().map(|d| d.span).collect();
    assert_eq!(spans, vec![at(2), at(3)]);
    assert!(result.diagnostics.iter().all(|d| d.counts == Some((1, 3))));
}

#[test]
fn wrong_kind_keywords_add_nothing() {
    let schema = || {
        obj(vec![
            ("minLength", s("x")),
            ("required", Json::Number(5)),
            ("items", Json::Number(3)),
            ("additionalProperties", s("no")),
            ("type", Json::Number(7)),
            ("properties", Json::Bool(true)),
            ("dependencies", Json::Null),
        ])
    };
    assert_eq!(run(&object(0, vec![("a", text(1, "v"))]), schema()).diagnostics.len(), 0);
    assert_eq!(run(&array(0, vec![num(1, 1)]), schema()).diagnostics.len(), 0);
    assert_eq!(run(&text(0, "v"), schema()).diagnostics.len(), 0);
}

#[test]
fn additional_items_schema_and_single_items() {
    let schema = obj(vec![
        ("items", Json::Array(vec![obj(vec![("type", s("string"))])])),
        ("additionalItems", obj(vec![("type", s("string"))])),
    ]);
    let result = run(&array(0, vec![text(1, "a"), num(2, 1)]), schema);
    assert_eq!(kinds(&result), vec![Keyword::Type]);
    assert_eq!(result.diagnostics[0].span, at(2));
    let schema = obj(vec![("items", obj(vec![("type", s("string"))])), ("additionalItems", Json::Bool(false))]);
    let result = run(&array(0, vec![num(1, 1), text(2, "b"), num(3, 1)]), schema);
    assert_eq!(kinds(&result), vec![Keyword::Type, Keyword::Type]);
}

#[test]
fn exclusive_minimum() {
    let schema = || obj(vec![("exclusiveMinimum", Json::Bool(true)), ("minimum", Json::Number(0))]);
    assert_eq!(kinds(&run(&num(0, 0), schema())), vec![Keyword::Minimum]);
    assert_eq!(run(&num(0, 1), schema()).diagnostics.len(), 0);
    let inclusive = obj(vec![("minimum", Json::Number(0))]);
    assert_eq!(run(&num(0, 0), inclusive).diagnostics.len(), 0);
}

#[test]
fn maximum_and_multiple_of() {
    let schema = || {
        obj(vec![("maximum", Json::Number(10)), ("exclusiveMaximum", Json::Bool(true)), ("multipleOf", Json::Number(5))])
    };
    assert_eq!(kinds(&run(&num(0, 10), schema())), vec![Keyword::Maximum]);
    assert_eq!(kinds(&run(&num(0, 7), schema())), vec![Keyword::MultipleOf]);
    assert_eq!(run(&num(0, -5), schema()).diagnostics.len(), 0);
    assert_eq!(kinds(&run(&num(0, -7), schema())), vec![Keyword::MultipleOf]);
}

#[test]
fn pattern_searches_anywhere() {
    let schema = || obj(vec![("pattern", s("b+"))]);
    assert_eq!(run(&text(0, "abbc"), schema()).diagnostics.len(), 0);
    assert_eq!(kinds(&run(&text(0, "ac"), schema())), vec![Keyword::Pattern]);
    let broken = obj(vec![("pattern", s("("))]);
    assert_eq!(run(&text(0, "ac"), broken).diagnostics.len(), 0);
}

#[test]
fn type_list_and_integer() {
    let schema = || obj(vec![("type", Json::Array(vec![s("string"), s("integer")]))]);
    assert_eq!(run(&num(0, 3), schema()).diagnostics.len(), 0);
    assert_eq!(kinds(&run(&node(0, NodeValue::Bool(true)), schema())), vec![Keyword::Type]);
}

#[test]
fn item_and_property_counts() {
    let schema = obj(vec![("minItems", Json::Number(2)), ("maxItems", Json::Number(0))]);
    assert_eq!(kinds(&run(&array(0, vec![num(1, 1)]), schema)), vec![Keyword::MinItems, Keyword::MaxItems]);
    let schema = obj(vec![("minProperties", Json::Number(2)), ("maxProperties", Json::Number(0))]);
    let result = run(&object(0, vec![("a", num(1, 1))]), schema);
    assert_eq!(kinds(&result), vec![Keyword::MaxProperties, Keyword::MinProperties]);
}

#[test]
fn dependencies_names_and_schema() {
    let schema = obj(vec![(
        "dependencies",
        obj(vec![("a", Json::Array(vec![s("b"), s("c")])), ("c", obj(vec![("required", Json::Array(vec![s("d")]))]))]),
    )]);
    let result = run(&object(0, vec![("a", num(1, 1)), ("c", num(2, 2))]), schema);
    assert_eq!(kinds(&result), vec![Keyword::Dependencies, Keyword::Required]);
    assert_eq!(result.diagnostics[0].subject, "b");
    assert_eq!(result.diagnostics[1].subject, "d");
}

#[test]
fn absent_keywords_give_no_diagnostics() {
    let doc = object(0, vec![("a", array(1, vec![num(2, 1), num(3, 1)])), ("b", text(4, ""))]);
    let result = run(&doc, obj(vec![]));
    assert_eq!(result.diagnostics.len(), 0);
    assert_eq!(result.matches.len(), 1);
}

#[test]
fn same_input_same_diagnostics() {
    let doc = object(0, vec![("version", num(1, 5)), ("x", text(2, "y"))]);
    let first = run(&doc, version_schema());
    let second = run(&doc, version_schema());
    assert_eq!(kinds(&first), kinds(&second));
    let spans: Vec<Span> = first.diagnostics.iter().map(|d| d.span).collect();
    let again: Vec<Span> = second.diagnostics.iter().map(|d| d.span).collect();
    assert_eq!(spans, again);
    let marks: Vec<Span> = first.matches.iter().map(|m| m.span).collect();
    let again: Vec<Span> = second.matches.iter().map(|m| m.span).collect();
    assert_eq!(marks, again);
}

#[test]
fn match_records_follow_recursion() {
    let doc = object(0, vec![("version", text(1, "v"))]);
    let result = run(&doc, version_schema());
    let marks: Vec<Span> = result.matches.iter().map(|m| m.span).collect();
    assert_eq!(marks, vec![at(0), at(1)]);
    assert!(matches!(&result.matches[0].schema, Json::Object(ms) if ms.len() == 4));
    assert!(matches!(&result.matches[1].schema, Json::Object(ms) if ms.len() == 3 && ms[0].key == "type"));
}

#[test]
fn enum_membership() {
    let schema = || obj(vec![("enum", Json::Array(vec![s("a"), Json::Number(2), obj(vec![("k", Json::Null)])]))]);
    assert_eq!(run(&text(0, "a"), schema()).diagnostics.len(), 0);
    assert_eq!(run(&num(0, 2), schema()).diagnostics.len(), 0);
    assert_eq!(run(&object(0, vec![("k", node(1, NodeValue::Null))]), schema()).diagnostics.len(), 0);
    assert_eq!(kinds(&run(&text(0, "b"), schema())), vec![Keyword::Enum]);
    assert_eq!(kinds(&run(&object(0, vec![("j", node(1, NodeValue::Null))]), schema())), vec![Keyword::Enum]);
}

#[test]
fn formats_by_shape() {
    let with = |f: &str| obj(vec![("format", s(f))]);
    assert_eq!(run(&text(0, "2024-02-30"), with("date")).diagnostics.len(), 0);
    assert_eq!(kinds(&run(&text(0, "2024-2-03"), with("date"))), vec![Keyword::Format]);
    assert_eq!(run(&text(0, "2024-02-03T10:20:30Z"), with("date-time")).diagnostics.len(), 0);
    assert_eq!(run(&text(0, "2024-02-03T10:20:30.125+02:00"), with("date-time")).diagnostics.len(), 0);
    assert_eq!(kinds(&run(&text(0, "2024-02-03T10:20:30."), with("date-time"))), vec![Keyword::Format]);
    assert_eq!(kinds(&run(&text(0, "2024-02-03 10:20:30Z"), with("date-time"))), vec![Keyword::Format]);
    assert_eq!(run(&text(0, "a@b.org"), with("email")).diagnostics.len(), 0);
    assert_eq!(kinds(&run(&text(0, "a@b@c"), with("email"))), vec![Keyword::Format]);
    assert_eq!(kinds(&run(&text(0, "@b"), with("email"))), vec![Keyword::Format]);
    assert_eq!(run(&text(0, "https://example.org"), with("uri")).diagnostics.len(), 0);
    assert_eq!(kinds(&run(&text(0, "1http://x"), with("uri"))), vec![Keyword::Format]);
    assert_eq!(run(&text(0, "anything"), with("hostname")).diagnostics.len(), 0);
}

#[test]
fn required_check_lists_every_missing_name_in_order() {
    let schema = obj(vec![("required", Json::Array(vec![s("a"), s("b"), Json::Number(3), s("c")]))]);
    let entries = vec![Entry { key: "b".to_string(), key_span: at(1), value: num(1, 1) }];
    let found = check_required(&entries, at(0), &schema);
    let names: Vec<&str> = found.iter().map(|d| d.subject.as_str()).collect();
    assert_eq!(names, vec!["a", "c"]);
}

#[test]
fn unique_items_compares_nested_values() {
    let schema = obj(vec![("uniqueItems", Json::Bool(true))]);
    let pair = |l: u32, v: i64| object(l, vec![("k", array(l, vec![num(l, v)]))]);
    assert!(check_unique_items(&vec![pair(1, 1), pair(2, 1)], at(0), &schema).is_some());
    assert!(check_unique_items(&vec![pair(1, 1), pair(2, 2)], at(0), &schema).is_none());
    let off = obj(vec![("uniqueItems", Json::Bool(false))]);
    assert!(check_unique_items(&vec![pair(1, 1), pair(2, 1)], at(0), &off).is_none());
}

#[test]
fn nested_required_is_reported_with_its_name() {
    let schema = obj(vec![(
        "properties",
        obj(vec![("inner", obj(vec![("required", Json::Array(vec![s("z")]))]))]),
    )]);
    let doc = object(0, vec![("inner", object(1, vec![]))]);
    let result = run(&doc, schema);
    assert_eq!(kinds(&result), vec![Keyword::Required]);
    assert_eq!(result.diagnostics[0].subject, "z");
    assert_eq!(result.diagnostics[0].span, at(1));
}
