use pensive_store::value::{value_from_text, value_to_text, Value};

fn chars(s: &str) -> Vec<char> {
    s.chars().collect()
}

fn text_of(v: &Value) -> String {
    value_to_text(v).into_iter().collect()
}

fn round_trips(v: Value) -> Value {
    let t = value_to_text(&v);
    let back = value_from_text(&t).expect("canonical text must parse");
    assert_eq!(text_of(&back), text_of(&v));
    back
}

#[test]
fn null_text_is_exact() {
    assert_eq!(text_of(&Value::Null), "n");
    assert_eq!(text_of(&Value::Bool(true)), "t");
    assert_eq!(text_of(&Value::Bool(false)), "f");
}

#[test]
fn int_text_is_exact() {
    assert_eq!(text_of(&Value::Int(5)), "i+00000000000000000005");
    assert_eq!(text_of(&Value::Int(-42)), "i-00000000000000000042");
    assert_eq!(text_of(&Value::Int(0)), "i+00000000000000000000");
    assert_eq!(
        text_of(&Value::Int(i64::MIN)),
        "i-09223372036854775808"
    );
    assert_eq!(
        text_of(&Value::Int(i64::MAX)),
        "i+09223372036854775807"
    );
}

#[test]
fn text_text_is_exact() {
    assert_eq!(
        text_of(&Value::Text(chars("Hello"))),
        "s00000000000000000005Hello"
    );
    assert_eq!(text_of(&Value::Text(chars(""))), "s00000000000000000000");
}

#[test]
fn scalar_round_trips() {
    round_trips(Value::Null);
    round_trips(Value::Bool(true));
    round_trips(Value::Bool(false));
    round_trips(Value::Int(0));
    round_trips(Value::Int(-1));
    round_trips(Value::Int(i64::MIN));
    round_trips(Value::Int(i64::MAX));
}

#[test]
fn text_round_trips() {
    let v = round_trips(Value::Text(chars("héllo wörld {[\"]}")));
    match v {
        Value::Text(t) => assert_eq!(t.iter().collect::<String>(), "héllo wörld {[\"]}"),
        _ => panic!("wrong variant"),
    }
}

#[test]
fn array_round_trips() {
    let v = Value::Arr(vec![
        Value::Null,
        Value::Int(7),
        Value::Text(chars("x")),
        Value::Arr(vec![Value::Bool(false)]),
    ]);
    let back = round_trips(v);
    match back {
        Value::Arr(items) => assert_eq!(items.len(), 4),
        _ => panic!("wrong variant"),
    }
}

#[test]
fn object_round_trips() {
    let v = Value::Obj(vec![
        (chars("title"), Value::Text(chars("Hello"))),
        (chars(""), Value::Null),
        (chars("nested"), Value::Obj(vec![(chars("k"), Value::Int(-3))])),
    ]);
    let back = round_trips(v);
    match back {
        Value::Obj(pairs) => {
            assert_eq!(pairs.len(), 3);
            assert_eq!(pairs[0].0.iter().collect::<String>(), "title");
        }
        _ => panic!("wrong variant"),
    }
}

#[test]
fn garbage_is_rejected() {
    assert!(value_from_text(&chars("")).is_none());
    assert!(value_from_text(&chars("x")).is_none());
    assert!(value_from_text(&chars("i+123")).is_none());
    assert!(value_from_text(&chars("i-00000000000000000000")).is_none());
    assert!(value_from_text(&chars("i+99999999999999999999")).is_none());
    assert!(value_from_text(&chars("nn")).is_none());
    assert!(value_from_text(&chars("s00000000000000000005Hi")).is_none());
    assert!(value_from_text(&chars("[n")).is_none());
    assert!(value_from_text(&chars("{n}")).is_none());
}
