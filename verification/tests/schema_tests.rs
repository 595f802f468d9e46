use schema_infer::json::JsonValue;
use schema_infer::schema::{PrimitiveKind, Schema, SchemaError, SchemaValueType};

fn jstr(s: &str) -> JsonValue {
    JsonValue::Text(String::from(s))
}

fn jobj(fields: Vec<(&str, JsonValue)>) -> JsonValue {
    JsonValue::Obj(fields.into_iter().map(|(k, v)| (String::from(k), v)).collect())
}

fn jarr(vs: Vec<JsonValue>) -> JsonValue {
    JsonValue::Arr(vs)
}

fn types_of<'a>(s: &'a Schema, name: &str) -> &'a Vec<SchemaValueType> {
    for (k, v) in s.map.iter() {
        if k == name {
            return v;
        }
    }
    panic!("field {} not found", name);
}

fn field_names(s: &Schema) -> Vec<String> {
    s.map.iter().map(|(k, _)| k.clone()).collect()
}

fn is_prim(v: &SchemaValueType, k: PrimitiveKind) -> bool {
    matches!(v, SchemaValueType::Primitive(x) if *x == k)
}

fn is_range(v: &SchemaValueType, lo: usize, hi: usize) -> bool {
    matches!(v, SchemaValueType::StringRange(a, b) if *a == lo && *b == hi)
}

fn person_array() -> JsonValue {
    jarr(vec![
        jobj(vec![
            ("name", jstr("Sherlock Holmes")),
            ("title", jstr("")),
            ("age", JsonValue::Number),
            (
                "personal_data",
                jobj(vec![("gender", jstr("male")), ("marital_status", jstr("single"))]),
            ),
            (
                "address",
                jobj(vec![
                    ("street", jstr("10 Downing Street")),
                    ("city", jstr("London")),
                    ("zip", jstr("12345")),
                    ("country_code", jstr("UK")),
                ]),
            ),
            (
                "phones",
                jarr(vec![
                    jstr("+44 1234567"),
                    jstr("+44 2345678"),
                    JsonValue::Number,
                    jobj(vec![("mobile", jstr("+44 3456789"))]),
                ]),
            ),
        ]),
        jobj(vec![
            ("name", jstr("Tony Soprano")),
            ("title", jstr("")),
            ("age", JsonValue::Number),
            (
                "personal_data",
                jobj(vec![("gender", jstr("male")), ("marital_status", jstr("married"))]),
            ),
            (
                "address",
                jobj(vec![
                    ("street", jstr("14 Aspen Drive")),
                    ("city", jstr("Caldwell")),
                    ("zip", jstr("NJ 07006")),
                    ("country", jstr("USA")),
                    ("state", jstr("New Jersey")),
                    ("country_code", jstr("US")),
                ]),
            ),
            (
                "phones",
                jarr(vec![
                    jstr("+1 1234567"),
                    jstr("+1 2345678"),
                    jstr("+1 11111111111"),
                    jstr("+1 301234566"),
                    JsonValue::Number,
                    jobj(vec![("mobile", jstr("+1 3456789"))]),
                ]),
            ),
        ]),
        jobj(vec![
            ("name", jstr("Angela Merkel")),
            ("title", jstr("")),
            ("age", JsonValue::Number),
            (
                "personal_data",
                jobj(vec![("gender", jstr("female")), ("marital_status", jstr("married"))]),
            ),
            (
                "address",
                jobj(vec![
                    ("street", jstr("Gr. Weg 3")),
                    ("city", jstr("Potsdam")),
                    ("zip", jstr("14467")),
                    ("country", jstr("Germany")),
                    ("state", jstr("Brandenburg")),
                ]),
            ),
            (
                "phones",
                jarr(vec![
                    jstr("+49 1234222567"),
                    jstr("+49 2343231678"),
                    jstr("+49 1111131111111"),
                    jstr("+49 301212334566"),
                    JsonValue::Number,
                    jobj(vec![
                        ("mobile", jstr("+49 343156789")),
                        ("fax", jstr("+49 343156780")),
                    ]),
                ]),
            ),
        ]),
        jobj(vec![
            ("name", jstr("Jane Doe")),
            ("title", jstr("Dr.")),
            ("age", jstr("73")),
            ("personal_data", jobj(vec![("gender", jstr("female"))])),
            ("address", JsonValue::Null),
            ("phones", JsonValue::Null),
        ]),
    ])
}

#[test]
fn invalid_input() {
    let r = Schema::from_json(&JsonValue::Null, false);
    assert!(matches!(r, Err(SchemaError::InvalidInput)));
}

#[test]
fn test_schema_from_object() {
    let json = jobj(vec![
        ("name", jstr("John Doe")),
        ("title", jstr("")),
        ("age", JsonValue::Number),
        (
            "address",
            jobj(vec![("street", jstr("10 Downing Street")), ("city", jstr("London"))]),
        ),
        (
            "phones",
            jarr(vec![
                jstr("+44 1234567"),
                jstr("+44 2345678"),
                JsonValue::Number,
                jobj(vec![("mobile", jstr("+44 3456789"))]),
            ]),
        ),
    ]);
    let schema = Schema::from_json(&json, true).unwrap();
    assert_eq!(schema.name, "root");
    assert_eq!(field_names(&schema), vec!["name", "title", "age", "address", "phones"]);
    let name = types_of(&schema, "name");
    assert!(name.len() == 1 && is_range(&name[0], 8, 8));
    let title = types_of(&schema, "title");
    assert!(title.len() == 1 && is_range(&title[0], 0, 0));
    let age = types_of(&schema, "age");
    assert!(age.len() == 1 && is_prim(&age[0], PrimitiveKind::Number));
    let address = types_of(&schema, "address");
    assert_eq!(address.len(), 1);
    match &address[0] {
        SchemaValueType::Object(child) => {
            assert_eq!(field_names(child), vec!["street", "city"]);
            assert!(is_range(&types_of(child, "street")[0], 17, 17));
            assert!(is_range(&types_of(child, "city")[0], 6, 6));
        }
        _ => panic!("address should be an object variant"),
    }
    let phones = types_of(&schema, "phones");
    assert_eq!(phones.len(), 1);
    match &phones[0] {
        SchemaValueType::Array(inner) => {
            assert_eq!(inner.len(), 3);
            assert!(matches!(&inner[0], SchemaValueType::Object(_)));
            assert!(is_prim(&inner[1], PrimitiveKind::Number));
            assert!(is_range(&inner[2], 11, 11));
            match &inner[0] {
                SchemaValueType::Object(child) => {
                    assert_eq!(field_names(child), vec!["mobile"]);
                    assert!(is_range(&types_of(child, "mobile")[0], 11, 11));
                }
                _ => unreachable!(),
            }
        }
        _ => panic!("phones should be an array variant"),
    }
}

#[test]
fn test_schema_from_array_merged() {
    let schema = Schema::from_json(&person_array(), true).unwrap();
    assert_eq!(
        field_names(&schema),
        vec!["name", "title", "age", "personal_data", "address", "phones"]
    );
    let name = types_of(&schema, "name");
    assert!(name.len() == 1 && is_range(&name[0], 8, 15));
    let title = types_of(&schema, "title");
    assert!(title.len() == 1 && is_range(&title[0], 0, 3));
    let age = types_of(&schema, "age");
    assert!(age.len() == 2 && is_prim(&age[0], PrimitiveKind::Number) && is_range(&age[1], 2, 2));
    let pd = types_of(&schema, "personal_data");
    assert_eq!(pd.len(), 1);
    match &pd[0] {
        SchemaValueType::Object(child) => {
            assert_eq!(field_names(child), vec!["gender", "marital_status"]);
            assert!(is_range(&types_of(child, "gender")[0], 4, 6));
            assert!(is_range(&types_of(child, "marital_status")[0], 6, 7));
        }
        _ => panic!("personal_data should be an object variant"),
    }
    let address = types_of(&schema, "address");
    assert_eq!(address.len(), 2);
    assert!(is_prim(&address[0], PrimitiveKind::Null));
    match &address[1] {
        SchemaValueType::Object(child) => {
            assert_eq!(
                field_names(child),
                vec!["street", "city", "zip", "country_code", "country", "state"]
            );
            assert!(is_range(&types_of(child, "country_code")[0], 2, 2));
            assert!(is_range(&types_of(child, "country")[0], 3, 7));
        }
        _ => panic!("address should end with a merged object variant"),
    }
    let phones = types_of(&schema, "phones");
    assert_eq!(phones.len(), 2);
    assert!(is_prim(&phones[0], PrimitiveKind::Null));
    match &phones[1] {
        SchemaValueType::Array(inner) => {
            assert_eq!(inner.len(), 3);
            match &inner[0] {
                SchemaValueType::Object(child) => {
                    assert_eq!(field_names(child), vec!["mobile", "fax"]);
                }
                _ => panic!("first inner variant should be the merged phone object"),
            }
            assert!(is_prim(&inner[1], PrimitiveKind::Number));
            assert!(is_range(&inner[2], 10, 17));
        }
        _ => panic!("phones should end with an array variant"),
    }
}

#[test]
fn test_schema_from_array_unmerged() {
    let schema = Schema::from_json(&person_array(), false).unwrap();
    assert_eq!(
        field_names(&schema),
        vec!["name", "title", "age", "personal_data", "address", "phones"]
    );
    let pd = types_of(&schema, "personal_data");
    assert_eq!(pd.len(), 2);
    match (&pd[0], &pd[1]) {
        (SchemaValueType::Object(full), SchemaValueType::Object(single)) => {
            assert_eq!(field_names(full), vec!["gender", "marital_status"]);
            assert_eq!(field_names(single), vec!["gender"]);
        }
        _ => panic!("personal_data should carry two object variants"),
    }
    let address = types_of(&schema, "address");
    assert_eq!(address.len(), 4);
    assert!(is_prim(&address[0], PrimitiveKind::Null));
    let mut key_sets: Vec<Vec<String>> = Vec::new();
    for v in address.iter().skip(1) {
        match v {
            SchemaValueType::Object(child) => key_sets.push(field_names(child)),
            _ => panic!("address variants past the null should be objects"),
        }
    }
    assert_eq!(key_sets[0], vec!["street", "city", "zip", "country_code"]);
    assert_eq!(
        key_sets[1],
        vec!["street", "city", "zip", "country", "state", "country_code"]
    );
    assert_eq!(key_sets[2], vec!["street", "city", "zip", "country", "state"]);
    let phones = types_of(&schema, "phones");
    match &phones[1] {
        SchemaValueType::Array(inner) => {
            assert_eq!(inner.len(), 4);
            match (&inner[0], &inner[1]) {
                (SchemaValueType::Object(a), SchemaValueType::Object(b)) => {
                    assert_eq!(field_names(a), vec!["mobile"]);
                    assert_eq!(field_names(b), vec!["mobile", "fax"]);
                }
                _ => panic!("inner array should start with two object variants"),
            }
            assert!(is_prim(&inner[2], PrimitiveKind::Number));
            assert!(is_range(&inner[3], 10, 17));
        }
        _ => panic!("phones should end with an array variant"),
    }
}

#[test]
fn rejects_scalar_documents() {
    assert!(matches!(
        Schema::from_json(&jstr("plain"), true),
        Err(SchemaError::InvalidInput)
    ));
    assert!(matches!(
        Schema::from_json(&JsonValue::Number, true),
        Err(SchemaError::InvalidInput)
    ));
    assert!(matches!(
        Schema::from_json(&JsonValue::Bool, false),
        Err(SchemaError::InvalidInput)
    ));
    assert!(matches!(
        Schema::from_json(&JsonValue::Null, true),
        Err(SchemaError::InvalidInput)
    ));
}

#[test]
fn string_range_bounds() {
    let json = jarr(vec![
        jobj(vec![("note", jstr("abc"))]),
        jobj(vec![("note", jstr(""))]),
        jobj(vec![("note", jstr("abcdefg"))]),
    ]);
    let schema = Schema::from_json(&json, true).unwrap();
    let note = types_of(&schema, "note");
    assert!(note.len() == 1 && is_range(&note[0], 0, 7));
    let single = Schema::from_json(&jobj(vec![("note", jstr("fives"))]), true).unwrap();
    let note = types_of(&single, "note");
    assert!(note.len() == 1 && is_range(&note[0], 5, 5));
}

#[test]
fn null_versus_absent() {
    let json = jarr(vec![
        jobj(vec![("x", JsonValue::Null), ("y", JsonValue::Number)]),
        jobj(vec![("y", JsonValue::Number)]),
    ]);
    let schema = Schema::from_json(&json, true).unwrap();
    let x = types_of(&schema, "x");
    assert_eq!(x.len(), 1);
    assert!(is_prim(&x[0], PrimitiveKind::Null));
}

#[test]
fn merge_flag_branching() {
    let json = jarr(vec![
        jobj(vec![(
            "address",
            jobj(vec![("street", jstr("a")), ("city", jstr("b"))]),
        )]),
        jobj(vec![(
            "address",
            jobj(vec![("street", jstr("c")), ("city", jstr("d")), ("zip", jstr("e"))]),
        )]),
    ]);
    let merged = Schema::from_json(&json, true).unwrap();
    let address = types_of(&merged, "address");
    assert_eq!(address.len(), 1);
    match &address[0] {
        SchemaValueType::Object(child) => {
            assert_eq!(field_names(child), vec!["street", "city", "zip"]);
        }
        _ => panic!("merged address should be one object variant"),
    }
    let split = Schema::from_json(&json, false).unwrap();
    let address = types_of(&split, "address");
    assert_eq!(address.len(), 2);
    assert!(matches!(&address[0], SchemaValueType::Object(_)));
    assert!(matches!(&address[1], SchemaValueType::Object(_)));
}

#[test]
fn grouping_ignores_position() {
    let json = jarr(vec![
        jobj(vec![("v", jobj(vec![("a", JsonValue::Number)]))]),
        jobj(vec![("v", jobj(vec![("b", JsonValue::Number)]))]),
        jobj(vec![("v", jobj(vec![("a", JsonValue::Bool)]))]),
    ]);
    let schema = Schema::from_json(&json, false).unwrap();
    let v = types_of(&schema, "v");
    assert_eq!(v.len(), 2);
    match (&v[0], &v[1]) {
        (SchemaValueType::Object(a), SchemaValueType::Object(b)) => {
            assert_eq!(field_names(a), vec!["a"]);
            assert_eq!(field_names(b), vec!["b"]);
            let kinds = types_of(a, "a");
            assert_eq!(kinds.len(), 2);
            assert!(is_prim(&kinds[0], PrimitiveKind::Number));
            assert!(is_prim(&kinds[1], PrimitiveKind::Bool));
        }
        _ => panic!("both variants should be objects"),
    }
}

#[test]
fn deterministic_across_runs() {
    let a = Schema::from_json(&person_array(), true).unwrap();
    let b = Schema::from_json(&person_array(), true).unwrap();
    assert!(a.structural_eq(&b));
    let c = Schema::from_json(&person_array(), false).unwrap();
    let d = Schema::from_json(&person_array(), false).unwrap();
    assert!(c.structural_eq(&d));
    assert!(!a.structural_eq(&c));
}

#[test]
fn repeated_instance_adds_nothing() {
    let base = jarr(vec![
        jobj(vec![("a", JsonValue::Number), ("b", jstr("xy"))]),
        jobj(vec![("a", JsonValue::Bool)]),
    ]);
    let repeated = jarr(vec![
        jobj(vec![("a", JsonValue::Number), ("b", jstr("xy"))]),
        jobj(vec![("a", JsonValue::Bool)]),
        jobj(vec![("a", JsonValue::Number), ("b", jstr("xy"))]),
    ]);
    let s1 = Schema::from_json(&base, true).unwrap();
    let s2 = Schema::from_json(&repeated, true).unwrap();
    assert_eq!(s1.map.len(), s2.map.len());
    for i in 0..s1.map.len() {
        assert_eq!(s1.map[i].0, s2.map[i].0);
        assert_eq!(s1.map[i].1.len(), s2.map[i].1.len());
    }
}

#[test]
fn empty_array_keeps_array_variant() {
    let json = jobj(vec![("tags", jarr(vec![]))]);
    let schema = Schema::from_json(&json, true).unwrap();
    let tags = types_of(&schema, "tags");
    assert_eq!(tags.len(), 1);
    match &tags[0] {
        SchemaValueType::Array(inner) => assert!(inner.is_empty()),
        _ => panic!("tags should be an array variant"),
    }
}

#[test]
fn nested_arrays_dedup_as_sets() {
    let json = jobj(vec![(
        "grid",
        jarr(vec![
            jarr(vec![JsonValue::Number, jstr("a")]),
            jarr(vec![jstr("b"), JsonValue::Number]),
        ]),
    )]);
    let schema = Schema::from_json(&json, true).unwrap();
    let grid = types_of(&schema, "grid");
    assert_eq!(grid.len(), 1);
    match &grid[0] {
        SchemaValueType::Array(inner) => {
            assert_eq!(inner.len(), 1);
            match &inner[0] {
                SchemaValueType::Array(cell) => {
                    assert_eq!(cell.len(), 2);
                    assert!(is_prim(&cell[0], PrimitiveKind::Number));
                    assert!(is_range(&cell[1], 1, 1));
                }
                _ => panic!("the one inner variant should be a nested array"),
            }
        }
        _ => panic!("grid should be an array variant"),
    }
}

#[test]
fn strings_inside_nested_arrays() {
    let json = jobj(vec![("rows", jarr(vec![jarr(vec![jstr("abc")])]))]);
    let schema = Schema::from_json(&json, true).unwrap();
    let rows = types_of(&schema, "rows");
    assert_eq!(rows.len(), 1);
    match &rows[0] {
        SchemaValueType::Array(inner) => {
            assert_eq!(inner.len(), 1);
            match &inner[0] {
                SchemaValueType::Array(cell) => {
                    assert!(cell.len() == 1 && is_range(&cell[0], 3, 3));
                }
                _ => panic!("the inner variant should be a nested array"),
            }
        }
        _ => panic!("rows should be an array variant"),
    }
}

fn doc_to_serde(v: &JsonValue) -> serde_json::Value {
    match v {
        JsonValue::Null => serde_json::Value::Null,
        JsonValue::Bool => serde_json::Value::Bool(false),
        JsonValue::Number => serde_json::Value::Number(serde_json::Number::from(0)),
        JsonValue::Text(s) => serde_json::Value::String(s.clone()),
        JsonValue::Arr(vs) => serde_json::Value::Array(vs.iter().map(doc_to_serde).collect()),
        JsonValue::Obj(fs) => {
            let mut map = serde_json::Map::new();
            for (k, val) in fs.iter() {
                map.insert(k.clone(), doc_to_serde(val));
            }
            serde_json::Value::Object(map)
        }
    }
}

#[test]
fn serializes_ranges_and_kinds() {
    let json = jobj(vec![
        ("age", JsonValue::Number),
        ("nick", jstr("abcde")),
        ("tags", jarr(vec![jstr(""), jstr("0123456"), JsonValue::Null])),
    ]);
    let schema = Schema::from_json(&json, true).unwrap();
    let doc = doc_to_serde(&schema.to_json());
    assert_eq!(doc["age"]["types"][0], serde_json::Value::String(String::from("NUMBER")));
    assert_eq!(
        doc["nick"]["types"][0],
        serde_json::Value::String(String::from("STRING(5)"))
    );
    let tag_types = &doc["tags"]["types"][0]["ARRAY"];
    assert_eq!(tag_types[0], serde_json::Value::String(String::from("NULL")));
    assert_eq!(tag_types[1], serde_json::Value::String(String::from("STRING(0, 7)")));
}

#[test]
fn round_trip_through_text() {
    let schema = Schema::from_json(&person_array(), true).unwrap();
    let text = serde_json::to_string_pretty(&doc_to_serde(&schema.to_json())).unwrap();
    let parsed: serde_json::Value = serde_json::from_str(&text).unwrap();
    let obj = parsed.as_object().unwrap();
    assert_eq!(obj.len(), schema.map.len());
    for (name, types) in schema.map.iter() {
        let entry = obj.get(name).unwrap().as_object().unwrap();
        let listed = entry.get("types").unwrap().as_array().unwrap();
        assert_eq!(listed.len(), types.len());
        for (slot, vt) in listed.iter().zip(types.iter()) {
            match vt {
                SchemaValueType::Primitive(PrimitiveKind::Null) => {
                    assert_eq!(slot.as_str().unwrap(), "NULL");
                }
                SchemaValueType::Primitive(PrimitiveKind::Bool) => {
                    assert_eq!(slot.as_str().unwrap(), "BOOL");
                }
                SchemaValueType::Primitive(PrimitiveKind::Number) => {
                    assert_eq!(slot.as_str().unwrap(), "NUMBER");
                }
                SchemaValueType::StringRange(_, _) => {
                    assert!(slot.as_str().unwrap().starts_with("STRING("));
                }
                SchemaValueType::Array(_) => {
                    assert!(slot.as_object().unwrap().contains_key("ARRAY"));
                }
                SchemaValueType::Object(child) => {
                    assert_eq!(slot.as_object().unwrap().len(), child.map.len());
                }
            }
        }
    }
}
