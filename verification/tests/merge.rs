use jsonb_ivm::depth::MAX_JSONB_DEPTH;
use jsonb_ivm::error::{Argument, Error};
use jsonb_ivm::merge::{
    deep_merge_recursive, jsonb_deep_merge, jsonb_merge_at_path, jsonb_merge_shallow,
    jsonb_smart_patch_array, jsonb_smart_patch_nested, jsonb_smart_patch_scalar, merge_into,
};
use jsonb_ivm::value::{Kind, Number, Object, Value};

fn num(n: i64) -> Value {
    Value::Number(Number::signed(n))
}

fn text(s: &str) -> Value {
    Value::String(s.to_string())
}

fn fields(list: Vec<(&str, Value)>) -> Object {
    let mut o = Object::new();
    for (key, value) in list {
        o.insert(key.to_string(), value);
    }
    o
}

fn object(list: Vec<(&str, Value)>) -> Value {
    Value::Object(fields(list))
}

fn keys(list: &[&str]) -> Vec<String> {
    list.iter().map(|s| s.to_string()).collect()
}

fn nested(levels: usize) -> Value {
    let mut deep = object(vec![("level", num(1))]);
    for _ in 0..levels {
        deep = object(vec![("nested", deep)]);
    }
    deep
}

fn key_order(v: &Value) -> Vec<String> {
    match v {
        Value::Object(o) => (0..o.len()).map(|i| o.key_at(i).clone()).collect(),
        _ => vec![],
    }
}

#[test]
fn shallow_merge_overwrites_and_adds() {
    let target = object(vec![("a", num(1)), ("b", num(2))]);
    let source = object(vec![("b", num(99)), ("c", num(3))]);
    let merged = jsonb_merge_shallow(Some(target), Some(source)).unwrap().unwrap();
    assert_eq!(merged, object(vec![("a", num(1)), ("b", num(99)), ("c", num(3))]));
    assert_eq!(key_order(&merged), vec!["a", "b", "c"]);
}

#[test]
fn shallow_merge_holds_exactly_the_keys_of_both() {
    let target = object(vec![("a", num(1)), ("b", object(vec![("x", num(1))])), ("c", Value::Null)]);
    let source = object(vec![("b", object(vec![("y", num(2))])), ("d", Value::Bool(true))]);
    let merged = jsonb_merge_shallow(Some(target.clone()), Some(source.clone())).unwrap().unwrap();
    let m = merged.as_object().unwrap();
    assert_eq!(m.len(), 4);
    assert_eq!(m.get("a"), target.get("a"));
    assert_eq!(m.get("c"), target.get("c"));
    assert_eq!(m.get("b"), source.get("b"));
    assert_eq!(m.get("d"), source.get("d"));
    assert_eq!(m.get("b"), Some(&object(vec![("y", num(2))])));
}

#[test]
fn shallow_merge_without_an_argument_has_no_result() {
    let doc = object(vec![("a", num(1))]);
    assert_eq!(jsonb_merge_shallow(None, Some(doc.clone())), Ok(None));
    assert_eq!(jsonb_merge_shallow(Some(doc.clone()), None), Ok(None));
    assert_eq!(jsonb_merge_shallow(None, None), Ok(None));
    // absence is settled before the kinds are looked at
    assert_eq!(jsonb_merge_shallow(Some(num(1)), None), Ok(None));
}

#[test]
fn shallow_merge_refuses_what_is_no_object() {
    let doc = object(vec![("a", num(1))]);
    assert_eq!(
        jsonb_merge_shallow(Some(Value::Array(vec![])), Some(doc.clone())),
        Err(Error::NotAnObject { argument: Argument::Target, found: Kind::Array })
    );
    assert_eq!(
        jsonb_merge_shallow(Some(doc.clone()), Some(text("x"))),
        Err(Error::NotAnObject { argument: Argument::Source, found: Kind::String })
    );
    assert_eq!(
        jsonb_merge_shallow(Some(num(1)), Some(Value::Null)),
        Err(Error::NotAnObject { argument: Argument::Target, found: Kind::Number })
    );
    assert_eq!(
        jsonb_smart_patch_scalar(Value::Bool(true), doc.clone()),
        Err(Error::NotAnObject { argument: Argument::Target, found: Kind::Bool })
    );
}

#[test]
fn shallow_merge_holds_the_source_to_the_depth_bound() {
    let doc = object(vec![("a", num(1))]);
    assert_eq!(
        jsonb_merge_shallow(Some(doc.clone()), Some(nested(MAX_JSONB_DEPTH))),
        Err(Error::DepthExceeded { max_depth: 1000 })
    );
    // the bound comes before the kinds
    assert_eq!(
        jsonb_merge_shallow(Some(num(1)), Some(nested(MAX_JSONB_DEPTH))),
        Err(Error::DepthExceeded { max_depth: 1000 })
    );
    assert!(jsonb_merge_shallow(Some(doc.clone()), Some(nested(MAX_JSONB_DEPTH - 1)))
        .unwrap()
        .is_some());
    // the target is not held to it
    assert!(jsonb_merge_shallow(Some(nested(MAX_JSONB_DEPTH)), Some(doc)).unwrap().is_some());
}

#[test]
fn smart_patch_scalar_merges_at_the_root() {
    let target = object(vec![("id", num(1)), ("name", text("old")), ("count", num(10))]);
    let source = object(vec![("name", text("new")), ("active", Value::Bool(true))]);
    assert_eq!(
        jsonb_smart_patch_scalar(target, source),
        Ok(object(vec![
            ("id", num(1)),
            ("name", text("new")),
            ("count", num(10)),
            ("active", Value::Bool(true)),
        ]))
    );
}

#[test]
fn merge_into_keeps_places_and_appends_new_keys() {
    let mut target = fields(vec![("z", num(1)), ("a", num(2))]);
    let source = fields(vec![("m", num(3)), ("z", num(4))]);
    merge_into(&mut target, &source);
    assert_eq!(target, fields(vec![("z", num(4)), ("a", num(2)), ("m", num(3))]));
    let order: Vec<String> = (0..target.len()).map(|i| target.key_at(i).clone()).collect();
    assert_eq!(order, vec!["z", "a", "m"]);
}

#[test]
fn merge_at_path_updates_the_nested_object() {
    let target = object(vec![
        ("id", num(1)),
        ("network_configuration", object(vec![("id", num(17)), ("name", text("old"))])),
    ]);
    let source = object(vec![("name", text("updated"))]);
    let merged = jsonb_merge_at_path(target, source, &keys(&["network_configuration"])).unwrap();
    assert_eq!(
        merged,
        object(vec![
            ("id", num(1)),
            ("network_configuration", object(vec![("id", num(17)), ("name", text("updated"))])),
        ])
    );
    assert_eq!(merged.get("id"), Some(&num(1)));
    let inner = merged.get("network_configuration").unwrap();
    assert_eq!(inner.get("name"), Some(&text("updated")));
    assert_eq!(inner.get("id"), Some(&num(17)));
}

#[test]
fn merge_at_empty_path_is_the_shallow_merge() {
    let target = object(vec![("a", num(1)), ("b", num(2))]);
    let source = object(vec![("b", num(99)), ("c", num(3))]);
    assert_eq!(
        jsonb_merge_at_path(target, source.clone(), &keys(&[])),
        Ok(object(vec![("a", num(1)), ("b", num(99)), ("c", num(3))]))
    );
    assert_eq!(
        jsonb_merge_at_path(num(1), source, &keys(&[])),
        Err(Error::NotAnObject { argument: Argument::Target, found: Kind::Number })
    );
}

#[test]
fn merge_at_path_goes_several_levels_down() {
    let target = object(vec![
        ("id", num(1)),
        (
            "user",
            object(vec![
                ("name", text("Alice")),
                ("company", object(vec![("name", text("ACME")), ("city", text("NYC"))])),
            ]),
        ),
    ]);
    let source = object(vec![("name", text("ACME Corp"))]);
    assert_eq!(
        jsonb_smart_patch_nested(target, source, &keys(&["user", "company"])),
        Ok(object(vec![
            ("id", num(1)),
            (
                "user",
                object(vec![
                    ("name", text("Alice")),
                    ("company", object(vec![("name", text("ACME Corp")), ("city", text("NYC"))])),
                ]),
            ),
        ]))
    );
}

#[test]
fn merge_at_path_creates_what_is_missing() {
    let target = object(vec![("id", num(1))]);
    let source = object(vec![("x", num(2))]);
    assert_eq!(
        jsonb_merge_at_path(target.clone(), source.clone(), &keys(&["a"])),
        Ok(object(vec![("id", num(1)), ("a", object(vec![("x", num(2))]))]))
    );
    assert_eq!(
        jsonb_merge_at_path(target, source, &keys(&["a", "b", "c"])),
        Ok(object(vec![
            ("id", num(1)),
            ("a", object(vec![("b", object(vec![("c", object(vec![("x", num(2))]))]))])),
        ]))
    );
}

#[test]
fn merge_at_path_errors() {
    let source = object(vec![("x", num(2))]);
    assert_eq!(
        jsonb_merge_at_path(object(vec![]), num(5), &keys(&["a"])),
        Err(Error::NotAnObject { argument: Argument::Source, found: Kind::Number })
    );
    // the source is looked at before the target
    assert_eq!(
        jsonb_merge_at_path(num(1), Value::Null, &keys(&[])),
        Err(Error::NotAnObject { argument: Argument::Source, found: Kind::Null })
    );
    assert_eq!(
        jsonb_merge_at_path(text("doc"), source.clone(), &keys(&["a"])),
        Err(Error::PathNavigation { hops: 0, found: Kind::String })
    );
    let target = object(vec![("a", object(vec![("b", Value::Array(vec![]))]))]);
    assert_eq!(
        jsonb_merge_at_path(target.clone(), source.clone(), &keys(&["a", "b", "c"])),
        Err(Error::PathNavigation { hops: 2, found: Kind::Array })
    );
    assert_eq!(
        jsonb_merge_at_path(target.clone(), source.clone(), &keys(&["a", "b"])),
        Err(Error::MergeIntoNonObject { found: Kind::Array })
    );
    let target = object(vec![("a", num(1))]);
    assert_eq!(
        jsonb_merge_at_path(target.clone(), source.clone(), &keys(&["a", "b"])),
        Err(Error::PathNavigation { hops: 1, found: Kind::Number })
    );
    assert_eq!(
        jsonb_merge_at_path(target, source, &keys(&["a"])),
        Err(Error::MergeIntoNonObject { found: Kind::Number })
    );
}

#[test]
fn merge_at_path_holds_the_source_to_the_depth_bound() {
    let target = object(vec![("a", object(vec![]))]);
    for path in [keys(&[]), keys(&["a"]), keys(&["a", "b"])] {
        assert_eq!(
            jsonb_merge_at_path(target.clone(), nested(MAX_JSONB_DEPTH), &path),
            Err(Error::DepthExceeded { max_depth: 1000 })
        );
        assert_eq!(
            jsonb_smart_patch_nested(target.clone(), nested(MAX_JSONB_DEPTH), &path),
            Err(Error::DepthExceeded { max_depth: 1000 })
        );
        assert!(jsonb_merge_at_path(target.clone(), nested(MAX_JSONB_DEPTH - 1), &path).is_ok());
    }
    // the bound comes before the kinds
    assert_eq!(
        jsonb_merge_at_path(num(1), Value::Array(vec![nested(MAX_JSONB_DEPTH - 1)]), &keys(&[])),
        Err(Error::DepthExceeded { max_depth: 1000 })
    );
    // the target is not held to it
    assert!(jsonb_merge_at_path(nested(MAX_JSONB_DEPTH), object(vec![]), &keys(&[])).is_ok());
}

#[test]
fn deep_merge_merges_nested_objects() {
    let target = object(vec![(
        "user",
        object(vec![("name", text("Alice")), ("prefs", object(vec![("theme", text("light"))]))]),
    )]);
    let source = object(vec![("user", object(vec![("prefs", object(vec![("lang", text("en"))]))]))]);
    assert_eq!(
        jsonb_deep_merge(target, source),
        Ok(object(vec![(
            "user",
            object(vec![
                ("name", text("Alice")),
                ("prefs", object(vec![("theme", text("light")), ("lang", text("en"))])),
            ]),
        )]))
    );
}

#[test]
fn deep_merge_keeps_siblings_at_every_level() {
    let target = object(vec![(
        "user",
        object(vec![
            ("name", text("Alice")),
            ("company", object(vec![("name", text("ACME")), ("city", text("NYC"))])),
        ]),
    )]);
    let source = object(vec![(
        "user",
        object(vec![("company", object(vec![("name", text("ACME Corp"))]))]),
    )]);
    let merged = deep_merge_recursive(target, source);
    let user = merged.get("user").unwrap();
    assert_eq!(user.get("name"), Some(&text("Alice")));
    let company = user.get("company").unwrap();
    assert_eq!(company.get("city"), Some(&text("NYC")));
    assert_eq!(company.get("name"), Some(&text("ACME Corp")));
    assert_eq!(
        merged,
        object(vec![(
            "user",
            object(vec![
                ("name", text("Alice")),
                ("company", object(vec![("name", text("ACME Corp")), ("city", text("NYC"))])),
            ]),
        )])
    );
}

#[test]
fn deep_merge_with_itself_changes_nothing() {
    let docs = vec![
        Value::Null,
        num(3),
        text("s"),
        Value::Array(vec![num(1), object(vec![("a", num(2))])]),
        object(vec![]),
        object(vec![
            ("a", object(vec![("b", object(vec![("c", Value::Array(vec![num(1)]))]))])),
            ("d", Value::Bool(false)),
        ]),
    ];
    for doc in docs {
        assert_eq!(deep_merge_recursive(doc.clone(), doc.clone()), doc);
    }
}

#[test]
fn deep_merge_replaces_arrays_and_mismatched_kinds() {
    let target = object(vec![
        ("list", Value::Array(vec![num(1), num(2), num(3)])),
        ("obj", object(vec![("a", num(1))])),
        ("scalar", num(1)),
    ]);
    let source = object(vec![
        ("list", Value::Array(vec![num(9)])),
        ("obj", text("now a string")),
        ("scalar", object(vec![("b", num(2))])),
    ]);
    assert_eq!(
        deep_merge_recursive(target, source),
        object(vec![
            ("list", Value::Array(vec![num(9)])),
            ("obj", text("now a string")),
            ("scalar", object(vec![("b", num(2))])),
        ])
    );
    assert_eq!(deep_merge_recursive(object(vec![("a", num(1))]), num(5)), num(5));
    assert_eq!(
        deep_merge_recursive(num(5), object(vec![("a", num(1))])),
        object(vec![("a", num(1))])
    );
    assert_eq!(
        deep_merge_recursive(Value::Array(vec![num(1)]), Value::Array(vec![num(2)])),
        Value::Array(vec![num(2)])
    );
}

#[test]
fn deep_merge_holds_the_source_to_the_depth_bound() {
    let target = object(vec![("a", num(1))]);
    assert_eq!(
        jsonb_deep_merge(target.clone(), nested(MAX_JSONB_DEPTH)),
        Err(Error::DepthExceeded { max_depth: 1000 })
    );
    assert!(jsonb_deep_merge(target, nested(MAX_JSONB_DEPTH - 1)).is_ok());
}

#[test]
fn smart_patch_array_updates_the_matching_element() {
    let target = object(vec![(
        "posts",
        Value::Array(vec![
            object(vec![("id", num(1)), ("title", text("Old"))]),
            object(vec![("id", num(2)), ("title", text("Post 2"))]),
        ]),
    )]);
    let source = object(vec![("title", text("New")), ("updated", Value::Bool(true))]);
    assert_eq!(
        jsonb_smart_patch_array(target, source, "posts", "id", num(1)),
        Ok(object(vec![(
            "posts",
            Value::Array(vec![
                object(vec![("id", num(1)), ("title", text("New")), ("updated", Value::Bool(true))]),
                object(vec![("id", num(2)), ("title", text("Post 2"))]),
            ]),
        )]))
    );
}

#[test]
fn smart_patch_array_holds_the_source_to_the_depth_bound() {
    let target = object(vec![("posts", Value::Array(vec![object(vec![("id", num(1))])]))]);
    assert_eq!(
        jsonb_smart_patch_array(target.clone(), nested(MAX_JSONB_DEPTH), "posts", "id", num(1)),
        Err(Error::DepthExceeded { max_depth: 1000 })
    );
    let patched =
        jsonb_smart_patch_array(target, nested(MAX_JSONB_DEPTH - 1), "posts", "id", num(1))
            .unwrap();
    let posts = patched.get("posts").unwrap().as_array().unwrap();
    assert!(posts[0].get("nested").is_some());
    assert_eq!(
        jsonb_smart_patch_array(object(vec![]), object(vec![]), "posts", "id", num(1)),
        Err(Error::MissingArray)
    );
}
