use schema_infer::json::JsonValue;
use schema_infer::schema::SchemaError;
use schema_infer::typed::{create_typed_object, get_typed_map, rv_eq, FieldType, ResultValue};

fn tstr(s: &str) -> JsonValue {
    JsonValue::Text(String::from(s))
}

fn tobj(fields: Vec<(&str, JsonValue)>) -> JsonValue {
    JsonValue::Obj(fields.into_iter().map(|(k, v)| (String::from(k), v)).collect())
}

fn row<'a>(
    rows: &'a Vec<(String, Vec<ResultValue>)>,
    name: &str,
) -> &'a Vec<ResultValue> {
    for (k, v) in rows.iter() {
        if k == name {
            return v;
        }
    }
    panic!("row {} not found", name);
}

fn is_tag(v: &ResultValue, t: FieldType) -> bool {
    matches!(v, ResultValue::Type(x) if *x == t)
}

#[test]
fn classifies_fields_coarsely() {
    let doc = tobj(vec![
        ("a", JsonValue::Null),
        ("b", JsonValue::Bool),
        ("c", JsonValue::Number),
        ("d", tstr("hi")),
        ("e", JsonValue::Arr(vec![JsonValue::Number, tstr("x")])),
    ]);
    match &doc {
        JsonValue::Obj(fields) => {
            let typed = get_typed_map(fields);
            assert_eq!(typed.len(), 5);
            assert!(is_tag(&typed[0].1, FieldType::NULL));
            assert!(is_tag(&typed[1].1, FieldType::BOOL));
            assert!(is_tag(&typed[2].1, FieldType::NUMBER));
            assert!(is_tag(&typed[3].1, FieldType::STRING));
            match &typed[4].1 {
                ResultValue::Array(inner) => {
                    assert!(is_tag(&inner[0], FieldType::NUMBER));
                    assert!(is_tag(&inner[1], FieldType::STRING));
                }
                _ => panic!("e should classify as an array"),
            }
        }
        _ => unreachable!(),
    }
}

#[test]
fn summarizes_distinct_tags_per_field() {
    let sample = JsonValue::Arr(vec![
        tobj(vec![("x", JsonValue::Number), ("y", tstr("a"))]),
        tobj(vec![("x", tstr("12")), ("y", tstr("b"))]),
        tobj(vec![("x", JsonValue::Number)]),
    ]);
    let rows = create_typed_object(&sample).unwrap();
    assert_eq!(rows.len(), 2);
    let x = row(&rows, "x");
    assert_eq!(x.len(), 2);
    assert!(is_tag(&x[0], FieldType::NUMBER));
    assert!(is_tag(&x[1], FieldType::STRING));
    let y = row(&rows, "y");
    assert_eq!(y.len(), 1);
    assert!(is_tag(&y[0], FieldType::STRING));
}

#[test]
fn deduplicates_equal_object_classifications() {
    let sample = JsonValue::Arr(vec![
        tobj(vec![("p", tobj(vec![("q", JsonValue::Number)]))]),
        tobj(vec![("p", tobj(vec![("q", JsonValue::Number)]))]),
        tobj(vec![("p", tobj(vec![("q", tstr("s"))]))]),
    ]);
    let rows = create_typed_object(&sample).unwrap();
    let p = row(&rows, "p");
    assert_eq!(p.len(), 2);
    assert!(!rv_eq(&p[0], &p[1]));
}

#[test]
fn rejects_documents_that_are_not_object_arrays() {
    assert!(matches!(
        create_typed_object(&tstr("nope")),
        Err(SchemaError::InvalidInput)
    ));
    assert!(matches!(
        create_typed_object(&tobj(vec![])),
        Err(SchemaError::InvalidInput)
    ));
    let mixed = JsonValue::Arr(vec![tobj(vec![]), JsonValue::Number]);
    assert!(matches!(create_typed_object(&mixed), Err(SchemaError::InvalidInput)));
}
