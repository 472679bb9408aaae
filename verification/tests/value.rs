use jsonb_ivm::ids::{jsonb_array_contains_id, jsonb_extract_id, Id};
use jsonb_ivm::path_ops::{jsonb_ivm_array_update_where_path, jsonb_ivm_set_path};
use jsonb_ivm::depth::MAX_JSONB_DEPTH;
use jsonb_ivm::error::{Error, PathSyntaxError};
use jsonb_ivm::search::{find_by_int_id_optimized, find_element_by_match};
use jsonb_ivm::text::{decimal_text, integer_text};
use jsonb_ivm::value::{value_type_name, Kind, Number, Object, Value};

fn num(n: i64) -> Value {
    Value::Number(Number::signed(n))
}

fn unsigned(n: u64) -> Value {
    Value::Number(Number::unsigned(n))
}

fn float(x: f64) -> Value {
    Value::Number(Number::float(x.to_bits()))
}

fn text(s: &str) -> Value {
    Value::String(s.to_string())
}

fn object(list: Vec<(&str, Value)>) -> Value {
    let mut o = Object::new();
    for (key, value) in list {
        o.insert(key.to_string(), value);
    }
    Value::Object(o)
}

fn array(items: Vec<Value>) -> Value {
    Value::Array(items)
}

fn nested(levels: usize) -> Value {
    let mut deep = object(vec![("level", num(1))]);
    for _ in 0..levels {
        deep = object(vec![("nested", deep)]);
    }
    deep
}

#[test]
fn object_insert_overwrites_in_place() {
    let mut o = Object::new();
    assert_eq!(o.len(), 0);
    o.insert("a".to_string(), num(1));
    o.insert("b".to_string(), num(2));
    o.insert("a".to_string(), num(3));
    assert_eq!(o.len(), 2);
    assert_eq!(o.key_at(0), "a");
    assert_eq!(o.value_at(0), &num(3));
    assert_eq!(o.key_at(1), "b");
    assert_eq!(o.get("a"), Some(&num(3)));
    assert_eq!(o.get("c"), None);
    assert_eq!(o.index_of("b"), Some(1));
    assert_eq!(o.index_of("zz"), None);
    assert!(o.contains_key("b"));
    assert!(!o.contains_key(""));
    let previous = o.replace_value(1, text("new"));
    assert_eq!(previous, num(2));
    assert_eq!(o.get("b"), Some(&text("new")));
}

#[test]
fn objects_are_equal_whatever_the_order_of_their_keys() {
    let a = object(vec![("x", num(1)), ("y", array(vec![num(2), object(vec![("p", num(1)), ("q", num(2))])]))]);
    let b = object(vec![("y", array(vec![num(2), object(vec![("q", num(2)), ("p", num(1))])])), ("x", num(1))]);
    assert_eq!(a, b);
    assert!(a.same(&b));
    assert_ne!(a, object(vec![("x", num(1))]));
    assert_ne!(a, object(vec![("x", num(1)), ("y", num(2))]));
    assert_ne!(object(vec![("x", num(1)), ("y", num(2))]), object(vec![("x", num(1)), ("z", num(2))]));
    assert_ne!(array(vec![num(1), num(2)]), array(vec![num(2), num(1)]));
    assert_ne!(array(vec![num(1)]), array(vec![num(1), num(1)]));
}

#[test]
fn numbers_are_equal_as_the_documents_they_stand_for() {
    assert_eq!(num(5), num(5));
    assert_ne!(num(5), num(6));
    assert_ne!(num(5), float(5.0));
    // floating values are the same number when their bits are
    assert_ne!(float(0.0), float(-0.0));
    assert_eq!(float(-0.0), float(-0.0));
    assert_eq!(float(1.5), float(1.5));
    assert_ne!(float(1.5), float(2.5));
    assert_ne!(unsigned(u64::MAX), unsigned(u64::MAX - 1));
    assert_eq!(unsigned(7), num(7));
    assert_ne!(num(1), text("1"));
    assert_ne!(Value::Null, Value::Bool(false));
}

#[test]
fn number_as_i64() {
    assert_eq!(num(5).as_i64(), Some(5));
    assert_eq!(num(-5).as_i64(), Some(-5));
    assert_eq!(unsigned(i64::MAX as u64).as_i64(), Some(i64::MAX));
    assert_eq!(unsigned(i64::MAX as u64 + 1).as_i64(), None);
    assert_eq!(float(5.0).as_i64(), None);
    assert_eq!(text("5").as_i64(), None);
    assert_eq!(num(i64::MIN).as_i64(), Some(i64::MIN));
}

#[test]
fn clone_is_deep_and_equal() {
    let doc = object(vec![("a", array(vec![num(1), object(vec![("b", text("c"))])])), ("d", Value::Null)]);
    let copy = doc.clone();
    assert_eq!(copy, doc);
    let mut changed = doc.duplicate();
    jsonb_ivm::path::set_path(&mut changed, &jsonb_ivm::path::parse_path("a[1].b").unwrap(), num(9)).unwrap();
    assert_ne!(changed, doc);
    assert_eq!(doc.get("a").unwrap().as_array().unwrap()[1].get("b"), Some(&text("c")));
}

#[test]
fn kinds_and_their_names() {
    assert_eq!(value_type_name(&Value::Null), "null");
    assert_eq!(value_type_name(&Value::Bool(true)), "boolean");
    assert_eq!(value_type_name(&num(1)), "number");
    assert_eq!(value_type_name(&text("")), "string");
    assert_eq!(value_type_name(&array(vec![])), "array");
    assert_eq!(value_type_name(&object(vec![])), "object");
    assert_eq!(array(vec![]).kind(), Kind::Array);
    assert_eq!(Kind::Object.name(), "object");
    assert!(object(vec![]).is_object());
    assert!(!object(vec![]).is_array());
    assert!(array(vec![]).is_array());
    assert!(num(1).as_object().is_none());
    assert!(num(1).as_array().is_none());
    assert_eq!(num(1).get("a"), None);
}

#[test]
fn decimal_text_examples() {
    assert_eq!(decimal_text(0), "0");
    assert_eq!(decimal_text(7), "7");
    assert_eq!(decimal_text(10), "10");
    assert_eq!(decimal_text(1000), "1000");
    assert_eq!(decimal_text(9081726354), "9081726354");
    assert_eq!(decimal_text(u64::MAX), u64::MAX.to_string());
    assert_eq!(integer_text(0), "0");
    assert_eq!(integer_text(-1), "-1");
    assert_eq!(integer_text(i64::MIN), i64::MIN.to_string());
    assert_eq!(integer_text(i64::MAX), i64::MAX.to_string());
}

#[test]
fn find_by_id_gives_the_first_position() {
    let rows: Vec<Value> = (0..50).map(|i| object(vec![("id", num(i % 10))])).collect();
    for id in 0..10 {
        assert_eq!(find_by_int_id_optimized(&rows, "id", id), Some(id as usize));
    }
    assert_eq!(find_by_int_id_optimized(&rows, "id", 10), None);
    assert_eq!(find_by_int_id_optimized(&rows, "other", 1), None);
    assert_eq!(find_by_int_id_optimized(&Vec::new(), "id", 1), None);
    let mixed = vec![num(1), object(vec![("id", text("1"))]), object(vec![("id", float(1.0))]), object(vec![("id", num(1))])];
    assert_eq!(find_by_int_id_optimized(&mixed, "id", 1), Some(3));
    assert_eq!(find_element_by_match(&mixed, "id", &num(1)), Some(3));
    assert_eq!(find_element_by_match(&mixed, "id", &text("1")), Some(1));
    assert_eq!(find_element_by_match(&mixed, "id", &float(1.0)), Some(2));
    assert_eq!(find_element_by_match(&mixed, "id", &Value::Null), None);
}

#[test]
fn search_agrees_with_a_plain_scan() {
    for len in 0..80usize {
        let rows: Vec<Value> = (0..len)
            .map(|i| match i % 4 {
                0 => object(vec![("id", num((i * 7 % 13) as i64))]),
                1 => object(vec![("id", text("x"))]),
                2 => num(i as i64),
                _ => object(vec![("other", num(1))]),
            })
            .collect();
        for id in 0..13i64 {
            let plain = rows.iter().position(|e| e.get("id").and_then(|v| v.as_i64()) == Some(id));
            assert_eq!(find_by_int_id_optimized(&rows, "id", id), plain);
            assert_eq!(find_element_by_match(&rows, "id", &num(id)), plain);
        }
    }
}

#[test]
fn extract_id_examples() {
    let doc = object(vec![("id", text("550e8400-e29b-41d4-a716-446655440000")), ("name", text("Alice"))]);
    match jsonb_extract_id(&doc, "id") {
        Some(Id::Text(s)) => assert_eq!(s, "550e8400-e29b-41d4-a716-446655440000"),
        other => panic!("unexpected {:?}", other),
    }
    let doc = object(vec![("post_id", num(123))]);
    match jsonb_extract_id(&doc, "post_id") {
        Some(Id::Text(s)) => assert_eq!(s, "123"),
        other => panic!("unexpected {:?}", other),
    }
    for (value, written) in [
        (num(42), "42"),
        (num(0), "0"),
        (num(-7), "-7"),
        (num(i64::MIN), "-9223372036854775808"),
        (num(i64::MAX), "9223372036854775807"),
        (unsigned(u64::MAX), "18446744073709551615"),
    ] {
        match jsonb_extract_id(&object(vec![("id", value)]), "id") {
            Some(Id::Text(s)) => assert_eq!(s, written),
            other => panic!("unexpected {:?}", other),
        }
    }
    match jsonb_extract_id(&object(vec![("id", float(1.5))]), "id") {
        Some(Id::Float(n)) => assert_eq!(n.float_bits(), Some(1.5f64.to_bits())),
        other => panic!("unexpected {:?}", other),
    }
    assert!(jsonb_extract_id(&doc, "id").is_none());
    assert!(jsonb_extract_id(&object(vec![("id", Value::Bool(true))]), "id").is_none());
    assert!(jsonb_extract_id(&object(vec![("id", Value::Null)]), "id").is_none());
    assert!(jsonb_extract_id(&object(vec![("id", array(vec![]))]), "id").is_none());
    assert!(jsonb_extract_id(&array(vec![]), "id").is_none());
}

#[test]
fn array_contains_id_examples() {
    let doc = object(vec![("posts", array(vec![object(vec![("id", num(1))]), object(vec![("id", num(2))]), object(vec![("id", num(3))])]))]);
    assert!(jsonb_array_contains_id(&doc, "posts", "id", &num(2)));
    assert!(!jsonb_array_contains_id(&doc, "posts", "id", &num(999)));
    assert!(!jsonb_array_contains_id(&doc, "other", "id", &num(1)));
    assert!(!jsonb_array_contains_id(&num(1), "posts", "id", &num(1)));
    assert!(!jsonb_array_contains_id(&object(vec![("posts", num(1))]), "posts", "id", &num(1)));
    let uuids = object(vec![("posts", array(vec![object(vec![("id", text("550e8400"))]), object(vec![("id", text("660f9500"))])]))]);
    assert!(jsonb_array_contains_id(&uuids, "posts", "id", &text("550e8400")));
    assert!(!jsonb_array_contains_id(&uuids, "posts", "id", &text("nope")));
}

#[test]
fn set_path_from_text() {
    assert_eq!(
        jsonb_ivm_set_path(object(vec![("user", object(vec![("profile", object(vec![]))]))]), "user.profile.name", text("Alice")),
        Ok(object(vec![("user", object(vec![("profile", object(vec![("name", text("Alice"))]))]))]))
    );
    assert_eq!(
        jsonb_ivm_set_path(object(vec![("items", array(vec![]))]), "items[0]", text("first item")),
        Ok(object(vec![("items", array(vec![text("first item")]))]))
    );
    assert_eq!(
        jsonb_ivm_set_path(object(vec![]), "a..b", num(1)),
        Err(Error::InvalidPath(PathSyntaxError::ConsecutiveDots))
    );
    assert_eq!(
        jsonb_ivm_set_path(object(vec![]), "", num(1)),
        Err(Error::InvalidPath(PathSyntaxError::EmptyPath))
    );
    assert_eq!(
        jsonb_ivm_set_path(object(vec![]), "a", nested(MAX_JSONB_DEPTH)),
        Err(Error::DepthExceeded { max_depth: 1000 })
    );
    // the path is looked at before the value
    assert_eq!(
        jsonb_ivm_set_path(object(vec![]), "a]", nested(MAX_JSONB_DEPTH)),
        Err(Error::InvalidPath(PathSyntaxError::UnexpectedClosingBracket))
    );
}

#[test]
fn array_update_where_path_examples() {
    let doc = object(vec![(
        "users",
        array(vec![object(vec![("id", num(1)), ("profile", object(vec![("name", text("Alice"))]))])]),
    )]);
    assert_eq!(
        jsonb_ivm_array_update_where_path(doc.clone(), "users", "id", num(1), "profile.name", text("Bob")),
        Ok(object(vec![(
            "users",
            array(vec![object(vec![("id", num(1)), ("profile", object(vec![("name", text("Bob"))]))])]),
        )]))
    );
    assert_eq!(
        jsonb_ivm_array_update_where_path(doc.clone(), "users", "id", num(2), "profile.name", text("Bob")),
        Ok(doc.clone())
    );
    // intermediate places are made as the path asks
    assert_eq!(
        jsonb_ivm_array_update_where_path(doc.clone(), "users", "id", num(1), "tags[1].label", text("x")),
        Ok(object(vec![(
            "users",
            array(vec![object(vec![
                ("id", num(1)),
                ("profile", object(vec![("name", text("Alice"))])),
                ("tags", array(vec![Value::Null, object(vec![("label", text("x"))])])),
            ])]),
        )]))
    );
    // a path that ends in an index writes nothing at its end
    assert_eq!(
        jsonb_ivm_array_update_where_path(doc.clone(), "users", "id", num(1), "profile[2]", text("x")),
        Ok(doc.clone())
    );
    assert_eq!(
        jsonb_ivm_array_update_where_path(doc.clone(), "users", "id", num(1), "list[2][0]", text("x")),
        Ok(object(vec![(
            "users",
            array(vec![object(vec![
                ("id", num(1)),
                ("profile", object(vec![("name", text("Alice"))])),
                ("list", array(vec![Value::Null, Value::Null, Value::Null])),
            ])]),
        )]))
    );
}

#[test]
fn array_update_where_path_errors() {
    let doc = object(vec![("users", array(vec![object(vec![("id", num(1))])])), ("n", num(1))]);
    assert_eq!(
        jsonb_ivm_array_update_where_path(doc.clone(), "users", "id", num(1), "a[]", num(1)),
        Err(Error::InvalidPath(PathSyntaxError::EmptyIndex))
    );
    assert_eq!(
        jsonb_ivm_array_update_where_path(doc.clone(), "missing", "id", num(1), "a", num(1)),
        Err(Error::MissingArray)
    );
    assert_eq!(
        jsonb_ivm_array_update_where_path(doc.clone(), "n", "id", num(1), "a", num(1)),
        Err(Error::NotAnArray { found: Kind::Number })
    );
    assert_eq!(
        jsonb_ivm_array_update_where_path(doc.clone(), "users", "id", num(1), "a", nested(MAX_JSONB_DEPTH)),
        Err(Error::DepthExceeded { max_depth: 1000 })
    );
    // the path is looked at first, the field before the value
    assert_eq!(
        jsonb_ivm_array_update_where_path(doc.clone(), "missing", "id", num(1), "a..b", num(1)),
        Err(Error::InvalidPath(PathSyntaxError::ConsecutiveDots))
    );
    assert_eq!(
        jsonb_ivm_array_update_where_path(doc, "missing", "id", num(1), "a", nested(MAX_JSONB_DEPTH)),
        Err(Error::MissingArray)
    );
}
