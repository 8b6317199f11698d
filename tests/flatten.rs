use flatten_json::{flatten_from_str, flatten_from_value, Flattener, Joiner, JsonValue};

fn num(n: u64) -> JsonValue {
    JsonValue::Number(serde_json::Number::from(n))
}

fn text(s: &str) -> JsonValue {
    JsonValue::String(s.to_string())
}

fn obj(entries: Vec<(&str, JsonValue)>) -> JsonValue {
    JsonValue::Object(entries.into_iter().map(|(k, v)| (k.to_string(), v)).collect())
}

#[test]
fn test_general_case() {
    let json = r#"[{"a": "a", "b": {"c": { "d": 1 }}}]"#;
    let expected = r#"[{"a":"a","b.c.d":1}]"#;
    assert_eq!(flatten_from_str(json).unwrap(), expected);
}

#[test]
fn test_flat_array() {
    let f = Flattener { flat_array: true, ..Flattener::default() };
    let json = r#"[{"a": "a", "b": {"c": { "d": 1 }}}]"#;
    let expected = r#"{"0.a":"a","0.b.c.d":1}"#;
    assert_eq!(f.flatten_from_str(json).unwrap(), expected);
}

#[test]
fn test_custom_key() {
    let f = Flattener { flat_key_cb: Joiner::new("_"), ..Flattener::default() };
    let json = r#"[{"a": "a", "b": {"c": { "d": 1 }}}]"#;
    let expected = r#"[{"a":"a","b_c_d":1}]"#;
    assert_eq!(f.flatten_from_str(json).unwrap(), expected);
}

#[test]
fn empty_object_stays_empty() {
    assert_eq!(flatten_from_str("{}").unwrap(), "{}");
}

#[test]
fn scalars_in_kept_array_untouched() {
    assert_eq!(flatten_from_str(r#"{"a": [1,2,3]}"#).unwrap(), r#"{"a":[1,2,3]}"#);
}

#[test]
fn empty_nested_object_adds_no_key() {
    assert_eq!(flatten_from_str(r#"{"x": {}}"#).unwrap(), "{}");
}

#[test]
fn empty_array_adds_no_key_when_flattened() {
    let f = Flattener { flat_array: true, ..Flattener::default() };
    assert_eq!(f.flatten_from_str(r#"{"x": [], "y": 2}"#).unwrap(), r#"{"y":2}"#);
}

#[test]
fn empty_array_kept_when_arrays_kept() {
    assert_eq!(flatten_from_str(r#"{"x": []}"#).unwrap(), r#"{"x":[]}"#);
}

#[test]
fn insertion_order_kept() {
    assert_eq!(
        flatten_from_str(r#"{"z": 1, "a": {"y": 2, "b": 3}}"#).unwrap(),
        r#"{"z":1,"a.y":2,"a.b":3}"#
    );
}

#[test]
fn top_level_scalar_unchanged() {
    assert_eq!(flatten_from_str("42").unwrap(), "42");
    assert_eq!(flatten_from_str(r#""s""#).unwrap(), r#""s""#);
    assert_eq!(flatten_from_str("null").unwrap(), "null");
}

#[test]
fn invalid_text_is_decode_error() {
    assert!(flatten_from_str("{\"a\": ").is_err());
    assert!(Flattener::new().flatten_from_str("not json").is_err());
}

#[test]
fn indices_past_nine_are_decimal() {
    let f = Flattener { flat_array: true, ..Flattener::default() };
    let json = "[0,1,2,3,4,5,6,7,8,9,10,11]";
    let expected = r#"{"0":0,"1":1,"2":2,"3":3,"4":4,"5":5,"6":6,"7":7,"8":8,"9":9,"10":10,"11":11}"#;
    assert_eq!(f.flatten_from_str(json).unwrap(), expected);
}

#[test]
fn nested_arrays_flattened_by_index() {
    let f = Flattener { flat_array: true, ..Flattener::default() };
    assert_eq!(
        f.flatten_from_str(r#"{"a": [[1], {"b": true}]}"#).unwrap(),
        r#"{"a.0.0":1,"a.1.b":true}"#
    );
}

#[test]
fn collision_last_write_wins() {
    let json = r#"{"a.b": 1, "a": {"b": 2}, "c": 3}"#;
    assert_eq!(flatten_from_str(json).unwrap(), r#"{"a.b":2,"c":3}"#);
}

#[test]
fn flat_object_unchanged() {
    let v = obj(vec![("a", num(1)), ("b", text("x")), ("c", JsonValue::Bool(false))]);
    let f = Flattener::new();
    assert_eq!(
        f.flatten(&v),
        obj(vec![("a", num(1)), ("b", text("x")), ("c", JsonValue::Bool(false))])
    );
}

#[test]
fn flattening_twice_gives_equal_results() {
    let v = obj(vec![("a", obj(vec![("b", num(1))])), ("c", JsonValue::Array(vec![num(2)]))]);
    let f = Flattener::new();
    assert_eq!(f.flatten(&v), f.flatten(&v));
    assert_eq!(f.flatten_from_value(&v).unwrap(), f.flatten_from_value(&v).unwrap());
}

#[test]
fn kept_array_has_same_length() {
    let v = JsonValue::Array(vec![
        obj(vec![("a", obj(vec![("b", num(1))]))]),
        num(7),
        JsonValue::Array(vec![obj(vec![("c", obj(vec![("d", JsonValue::Null)]))])]),
    ]);
    let expected = JsonValue::Array(vec![
        obj(vec![("a.b", num(1))]),
        num(7),
        JsonValue::Array(vec![obj(vec![("c.d", JsonValue::Null)])]),
    ]);
    assert_eq!(Flattener::new().flatten(&v), expected);
}

#[test]
fn scalar_path_becomes_key() {
    let v = obj(vec![("p", obj(vec![("q", obj(vec![("r", text("leaf"))]))]))]);
    let f = Flattener { flat_key_cb: Joiner::new("/"), ..Flattener::default() };
    assert_eq!(f.flatten(&v), obj(vec![("p/q/r", text("leaf"))]));
}

#[test]
fn module_function_matches_default_instance() {
    let v = obj(vec![("a", JsonValue::Array(vec![obj(vec![("b", num(1))])]))]);
    assert_eq!(flatten_from_value(&v).unwrap(), r#"{"a":[{"b":1}]}"#);
    assert_eq!(flatten_from_value(&v).unwrap(), Flattener::default().flatten_from_value(&v).unwrap());
}

#[test]
fn input_left_unchanged() {
    let v = obj(vec![("a", obj(vec![("b", num(1))]))]);
    let _ = Flattener::new().flatten(&v);
    assert_eq!(v, obj(vec![("a", obj(vec![("b", num(1))]))]));
}

#[test]
fn scalar_path_through_flattened_arrays() {
    let v = obj(vec![("a", JsonValue::Array(vec![num(5), obj(vec![("b", JsonValue::Array(vec![text("z")]))])]))]);
    let f = Flattener { flat_array: true, ..Flattener::default() };
    assert_eq!(f.flatten(&v), obj(vec![("a.0", num(5)), ("a.1.b.0", text("z"))]));
}

#[test]
fn flattener_clone_behaves_the_same() {
    let f = Flattener { flat_key_cb: Joiner::new("::"), flat_array: true };
    let g = f.clone();
    assert_eq!(g.flatten_from_str(r#"{"a":[{"b":1}]}"#).unwrap(), r#"{"a::0::b":1}"#);
    assert_eq!(Joiner::dot().separator, ".");
}

#[test]
fn decoded_error_is_handed_on() {
    let err = serde_json::from_str::<serde_json::Value>("{").unwrap_err();
    let msg = err.to_string();
    let r = Flattener::new().flatten_decoded(Err(err));
    assert_eq!(r.unwrap_err().to_string(), msg);
}

#[test]
fn decoded_value_is_flattened_and_encoded() {
    let v = obj(vec![("a", obj(vec![("b", JsonValue::Null), ("c", JsonValue::Bool(true))])), ("d", text("s"))]);
    let r = Flattener::new().flatten_decoded(Ok(v));
    assert_eq!(r.unwrap(), r#"{"a.b":null,"a.c":true,"d":"s"}"#);
}

#[test]
fn module_text_function_matches_default_instance() {
    for json in [r#"{"a":{"b":[1,{"c":2}]}}"#, "42", "[]", "{\"x\": "] {
        let a = flatten_from_str(json);
        let b = Flattener::new().flatten_from_str(json);
        assert_eq!(a.is_ok(), b.is_ok());
        if let (Ok(x), Ok(y)) = (a, b) {
            assert_eq!(x, y);
        }
    }
}
