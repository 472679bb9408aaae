use jsonb_ivm::depth::{get_max_depth, validate_depth, MAX_JSONB_DEPTH};
use jsonb_ivm::value::{Number, Object, Value};

fn num(n: i64) -> Value {
    Value::Number(Number::signed(n))
}

fn object(fields: Vec<(&str, Value)>) -> Value {
    let mut o = Object::new();
    for (key, value) in fields {
        o.insert(key.to_string(), value);
    }
    Value::Object(o)
}

fn nested(levels: usize) -> Value {
    let mut deep = object(vec![("level", num(1))]);
    for _ in 0..levels {
        deep = object(vec![("nested", deep)]);
    }
    deep
}

#[test]
fn test_validate_depth_shallow() {
    let val = object(vec![("a", num(1)), ("b", object(vec![("c", num(2))]))]);
    assert!(validate_depth(&val, MAX_JSONB_DEPTH).is_ok());
}

#[test]
fn test_validate_depth_array() {
    let val = Value::Array(vec![object(vec![(
        "nested",
        Value::Array(vec![num(1), num(2), num(3)]),
    )])]);
    assert!(validate_depth(&val, MAX_JSONB_DEPTH).is_ok());
}

#[test]
fn test_validate_depth_too_deep() {
    let mut deep = object(vec![("level", num(1))]);

    for _ in 0..MAX_JSONB_DEPTH {
        deep = object(vec![("nested", deep)]);
    }

    let result = validate_depth(&deep, MAX_JSONB_DEPTH);
    assert!(result.is_err());
    let err_msg = result.unwrap_err().message();
    assert!(err_msg.contains("JSONB nesting too deep"));
    assert!(err_msg.contains("max 1000"));
}

#[test]
fn test_get_max_depth() {
    assert_eq!(get_max_depth(&num(42)), 0);
    assert_eq!(get_max_depth(&object(vec![("a", num(1))])), 1);
    assert_eq!(
        get_max_depth(&object(vec![("a", object(vec![("b", object(vec![("c", num(1))]))]))])),
        3
    );
    assert_eq!(
        get_max_depth(&Value::Array(vec![object(vec![("a", Value::Array(vec![num(1), num(2)]))])])),
        3
    );
}

#[test]
fn test_max_depth_within_limit() {
    let mut deep = object(vec![("level", num(1))]);

    for _ in 0..(MAX_JSONB_DEPTH - 1) {
        deep = object(vec![("nested", deep)]);
    }

    assert_eq!(get_max_depth(&deep), MAX_JSONB_DEPTH);
    assert!(validate_depth(&deep, MAX_JSONB_DEPTH).is_ok());
}

#[test]
fn depth_message_is_exact() {
    let err = validate_depth(&nested(3), 2).unwrap_err();
    assert_eq!(err.max_depth, 2);
    assert_eq!(err.message(), "JSONB nesting too deep (max 2, found >2)");
    let err = validate_depth(&nested(MAX_JSONB_DEPTH), MAX_JSONB_DEPTH).unwrap_err();
    assert_eq!(err.message(), "JSONB nesting too deep (max 1000, found >1000)");
    let err = validate_depth(&nested(0), 0).unwrap_err();
    assert_eq!(err.message(), "JSONB nesting too deep (max 0, found >0)");
}

#[test]
fn depth_threshold_is_exact() {
    for limit in [0usize, 1, 2, 5, 17] {
        // `nested(k)` has its deepest node at level k + 1
        let at_limit = if limit == 0 { num(1) } else { nested(limit - 1) };
        assert_eq!(get_max_depth(&at_limit), limit);
        assert!(validate_depth(&at_limit, limit).is_ok());
        let above = nested(limit);
        assert_eq!(get_max_depth(&above), limit + 1);
        assert!(validate_depth(&above, limit).is_err());
    }
}

#[test]
fn empty_containers_have_depth_zero() {
    assert_eq!(get_max_depth(&Value::Array(vec![])), 0);
    assert_eq!(get_max_depth(&object(vec![])), 0);
    assert_eq!(get_max_depth(&Value::Null), 0);
    assert!(validate_depth(&Value::Array(vec![]), 0).is_ok());
    assert!(validate_depth(&object(vec![]), 0).is_ok());
    assert!(validate_depth(&Value::Array(vec![Value::Null]), 0).is_err());
    assert_eq!(get_max_depth(&Value::Array(vec![Value::Array(vec![])])), 1);
}

#[test]
fn depth_is_that_of_the_deepest_branch() {
    let val = Value::Array(vec![
        num(1),
        object(vec![("a", Value::Array(vec![object(vec![("b", num(2))])]))]),
        Value::Array(vec![num(3)]),
    ]);
    assert_eq!(get_max_depth(&val), 4);
    assert!(validate_depth(&val, 4).is_ok());
    assert!(validate_depth(&val, 3).is_err());
}

#[test]
fn far_too_deep_is_refused_whatever_lies_at_the_bottom() {
    for bottom in [Value::Null, num(1), Value::Array(vec![num(1), num(2)]), object(vec![("k", num(1))])] {
        let mut deep = bottom;
        for _ in 0..1010 {
            deep = object(vec![("nested", deep)]);
        }
        assert!(validate_depth(&deep, MAX_JSONB_DEPTH).is_err());
        assert!(get_max_depth(&deep) >= 1010);
    }
}
