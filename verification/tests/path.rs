use jsonb_ivm::error::{PathError, PathSyntaxError};
use jsonb_ivm::path::{navigate_path, parse_path, set_path, PathSegment};
use jsonb_ivm::value::{Number, Object, Value};

fn num(n: i64) -> Value {
    Value::Number(Number::signed(n))
}

fn text(s: &str) -> Value {
    Value::String(s.to_string())
}

fn object(fields: Vec<(&str, Value)>) -> Value {
    let mut o = Object::new();
    for (key, value) in fields {
        o.insert(key.to_string(), value);
    }
    Value::Object(o)
}

fn key(s: &str) -> PathSegment {
    PathSegment::Key(s.to_string())
}

#[test]
fn test_parse_simple_key() {
    assert_eq!(parse_path("user").unwrap(), vec![PathSegment::Key("user".into())]);
}

#[test]
fn test_parse_dot_notation() {
    assert_eq!(
        parse_path("a.b.c").unwrap(),
        vec![
            PathSegment::Key("a".into()),
            PathSegment::Key("b".into()),
            PathSegment::Key("c".into()),
        ]
    );
}

#[test]
fn test_parse_array_index() {
    assert_eq!(
        parse_path("a[0]").unwrap(),
        vec![PathSegment::Key("a".into()), PathSegment::Index(0),]
    );
}

#[test]
fn test_parse_mixed_path() {
    assert_eq!(
        parse_path("orders[0].items[1].price").unwrap(),
        vec![
            PathSegment::Key("orders".into()),
            PathSegment::Index(0),
            PathSegment::Key("items".into()),
            PathSegment::Index(1),
            PathSegment::Key("price".into()),
        ]
    );
}

#[test]
fn test_parse_invalid_empty_index() {
    assert!(parse_path("a[]").is_err());
}

#[test]
fn test_parse_invalid_consecutive_dots() {
    assert!(parse_path("a..b").is_err());
}

#[test]
fn test_parse_invalid_unexpected_bracket() {
    assert!(parse_path("a]").is_err());
}

#[test]
fn test_navigate_simple_path() {
    let data = object(vec![("user", object(vec![("name", text("Alice"))]))]);
    let path = parse_path("user.name").unwrap();
    assert_eq!(navigate_path(&data, &path), Some(&text("Alice")));
}

#[test]
fn test_navigate_array_path() {
    let data = object(vec![("items", Value::Array(vec![text("a"), text("b"), text("c")]))]);
    let path = parse_path("items[1]").unwrap();
    assert_eq!(navigate_path(&data, &path), Some(&text("b")));
}

#[test]
fn test_navigate_nonexistent_path() {
    let data = object(vec![("user", object(vec![("name", text("Alice"))]))]);
    let path = parse_path("user.age").unwrap();
    assert_eq!(navigate_path(&data, &path), None);
}

#[test]
fn test_navigate_invalid_array_access() {
    let data = object(vec![("user", object(vec![("name", text("Alice"))]))]);
    let path = parse_path("user[0]").unwrap();
    assert_eq!(navigate_path(&data, &path), None);
}

#[test]
fn test_set_simple_path() {
    let mut data = object(vec![("user", object(vec![]))]);
    let path = parse_path("user.name").unwrap();
    set_path(&mut data, &path, text("Alice")).unwrap();
    assert_eq!(data, object(vec![("user", object(vec![("name", text("Alice"))]))]));
}

#[test]
fn test_set_array_path() {
    let mut data = object(vec![("items", Value::Array(vec![]))]);
    let path = parse_path("items[0]").unwrap();
    set_path(&mut data, &path, text("first")).unwrap();
    assert_eq!(data, object(vec![("items", Value::Array(vec![text("first")]))]));
}

#[test]
fn test_set_nested_path() {
    let mut data = object(vec![]);
    let path = parse_path("user.profile.settings.theme").unwrap();
    set_path(&mut data, &path, text("dark")).unwrap();
    assert_eq!(
        data,
        object(vec![(
            "user",
            object(vec![(
                "profile",
                object(vec![("settings", object(vec![("theme", text("dark"))]))])
            )])
        )])
    );
}

#[test]
fn parse_errors_name_their_cause() {
    assert_eq!(parse_path("a..b"), Err(PathSyntaxError::ConsecutiveDots));
    assert_eq!(parse_path("a[]"), Err(PathSyntaxError::EmptyIndex));
    assert_eq!(parse_path("a["), Err(PathSyntaxError::UnclosedBracket));
    assert_eq!(parse_path("a[0"), Err(PathSyntaxError::UnclosedBracket));
    assert_eq!(parse_path("a[3].b[x"), Err(PathSyntaxError::UnclosedBracket));
    assert_eq!(parse_path(".a"), Err(PathSyntaxError::LeadingDot));
    assert_eq!(parse_path(".[0]"), Err(PathSyntaxError::LeadingDot));
    assert_eq!(parse_path(".."), Err(PathSyntaxError::LeadingDot));
    assert_eq!(parse_path("a."), Err(PathSyntaxError::TrailingDot));
    assert_eq!(parse_path("a[0]."), Err(PathSyntaxError::TrailingDot));
    assert_eq!(parse_path("a.b.c."), Err(PathSyntaxError::TrailingDot));
    assert_eq!(parse_path("a]"), Err(PathSyntaxError::UnexpectedClosingBracket));
    assert_eq!(parse_path(""), Err(PathSyntaxError::EmptyPath));
    assert_eq!(parse_path("."), Err(PathSyntaxError::LeadingDot));
    assert_eq!(parse_path("a[x1]"), Err(PathSyntaxError::InvalidIndex { start: 2, end: 4 }));
    assert_eq!(parse_path("a[-1]"), Err(PathSyntaxError::InvalidIndex { start: 2, end: 4 }));
    assert_eq!(parse_path("a[+]"), Err(PathSyntaxError::InvalidIndex { start: 2, end: 3 }));
    assert_eq!(parse_path("a[1 ]"), Err(PathSyntaxError::InvalidIndex { start: 2, end: 4 }));
}

#[test]
fn parse_index_at_the_limit_of_the_machine() {
    let most = usize::MAX;
    assert_eq!(parse_path(&format!("a[{}]", most)), Ok(vec![key("a"), PathSegment::Index(most)]));
    let text = format!("a[{}0]", most);
    assert_eq!(
        parse_path(&text),
        Err(PathSyntaxError::InvalidIndex { start: 2, end: text.len() - 1 })
    );
    assert_eq!(
        parse_path("a[99999999999999999999999999]"),
        Err(PathSyntaxError::InvalidIndex { start: 2, end: 28 })
    );
}

#[test]
fn parse_accepts_what_the_grammar_leaves_open() {
    assert_eq!(parse_path("a[+7]"), Ok(vec![key("a"), PathSegment::Index(7)]));
    assert_eq!(parse_path("a[007]"), Ok(vec![key("a"), PathSegment::Index(7)]));
    assert_eq!(parse_path("[2]"), Ok(vec![PathSegment::Index(2)]));
    assert_eq!(parse_path("a[0]b"), Ok(vec![key("a"), PathSegment::Index(0), key("b")]));
    assert_eq!(parse_path("a.[1].b"), Ok(vec![key("a"), PathSegment::Index(1), key("b")]));
    assert_eq!(parse_path("a[0][1]"), Ok(vec![key("a"), PathSegment::Index(0), PathSegment::Index(1)]));
    assert_eq!(parse_path("clé.naïve"), Ok(vec![key("clé"), key("naïve")]));
}

#[test]
fn parse_reports_the_first_error() {
    assert_eq!(parse_path("a[]..b"), Err(PathSyntaxError::EmptyIndex));
    assert_eq!(parse_path("a..b[]"), Err(PathSyntaxError::ConsecutiveDots));
    assert_eq!(parse_path("a]..b"), Err(PathSyntaxError::UnexpectedClosingBracket));
}

#[test]
fn navigate_empty_path_is_the_root() {
    let data = object(vec![("a", num(1))]);
    assert_eq!(navigate_path(&data, &[]), Some(&data));
}

#[test]
fn navigate_index_out_of_bounds() {
    let data = object(vec![("items", Value::Array(vec![num(1), num(2)]))]);
    assert_eq!(navigate_path(&data, &parse_path("items[2]").unwrap()), None);
    assert_eq!(navigate_path(&data, &parse_path("items[1]").unwrap()), Some(&num(2)));
    assert_eq!(navigate_path(&data, &parse_path("items.x").unwrap()), None);
}

#[test]
fn set_empty_path_is_refused_and_changes_nothing() {
    let mut data = object(vec![("a", num(1))]);
    assert_eq!(set_path(&mut data, &[], num(2)), Err(PathError::EmptyPath));
    assert_eq!(data, object(vec![("a", num(1))]));
}

#[test]
fn set_pads_arrays_with_null() {
    let mut data = object(vec![("items", Value::Array(vec![num(1)]))]);
    set_path(&mut data, &parse_path("items[3]").unwrap(), num(9)).unwrap();
    assert_eq!(
        data,
        object(vec![("items", Value::Array(vec![num(1), Value::Null, Value::Null, num(9)]))])
    );
}

#[test]
fn set_replaces_what_is_in_the_way() {
    let mut data = object(vec![("a", num(1))]);
    set_path(&mut data, &parse_path("a.b").unwrap(), num(2)).unwrap();
    assert_eq!(data, object(vec![("a", object(vec![("b", num(2))]))]));

    let mut data = text("scalar");
    set_path(&mut data, &parse_path("[1].k").unwrap(), num(3)).unwrap();
    assert_eq!(data, Value::Array(vec![Value::Null, object(vec![("k", num(3))])]));

    let mut data = object(vec![("a", object(vec![("keep", num(1))]))]);
    set_path(&mut data, &parse_path("a[0]").unwrap(), num(5)).unwrap();
    assert_eq!(data, object(vec![("a", Value::Array(vec![num(5)]))]));
}

#[test]
fn set_overwrites_and_keeps_siblings() {
    let mut data = object(vec![("a", object(vec![("x", num(1)), ("y", num(2))])), ("b", num(3))]);
    set_path(&mut data, &parse_path("a.x").unwrap(), text("new")).unwrap();
    assert_eq!(
        data,
        object(vec![("a", object(vec![("x", text("new")), ("y", num(2))])), ("b", num(3))])
    );
}

#[test]
fn set_missing_key_before_an_index_makes_an_array() {
    let mut data = object(vec![]);
    set_path(&mut data, &parse_path("list[1]").unwrap(), num(4)).unwrap();
    assert_eq!(data, object(vec![("list", Value::Array(vec![Value::Null, num(4)]))]));
}
