use response_value::input::{InputValue, Spanning};
use response_value::value::{ObjectMap, Value};

fn key(s: &str) -> String {
    s.to_string()
}

fn unlocated_int(item: &Spanning<InputValue>, expected: i32) -> bool {
    item.span.is_none() && matches!(item.item, InputValue::Int(i) if i == expected)
}

#[test]
fn null_is_null_and_nothing_else_is() {
    assert!(Value::null().is_null());
    assert!(!Value::integer(0).is_null());
    assert!(!Value::float_bits(0).is_null());
    assert!(!Value::string("").is_null());
    assert!(!Value::boolean(false).is_null());
    assert!(!Value::list(vec![]).is_null());
    assert!(!Value::object(vec![]).is_null());
}

#[test]
fn list_round_trips_through_as_list() {
    let v = Value::list(vec![Value::integer(1), Value::string("a"), Value::null()]);
    let l = v.as_list_value().unwrap();
    assert_eq!(l.len(), 3);
    assert!(l[0] == Value::integer(1));
    assert!(l[1] == Value::string("a"));
    assert!(l[2] == Value::null());
}

#[test]
fn as_list_is_absent_on_other_variants() {
    assert!(Value::null().as_list_value().is_none());
    assert!(Value::integer(3).as_list_value().is_none());
    assert!(Value::string("x").as_list_value().is_none());
    assert!(Value::object(vec![]).as_list_value().is_none());
}

#[test]
fn as_object_of_object_keeps_keys_and_values() {
    let v = Value::object(vec![
        (key("a"), Value::integer(1)),
        (key("b"), Value::boolean(true)),
    ]);
    let o = v.as_object_value().unwrap();
    assert_eq!(o.len(), 2);
    assert!(*o.get(&key("a")).unwrap() == Value::integer(1));
    assert!(*o.get(&key("b")).unwrap() == Value::boolean(true));
    assert!(o.get(&key("c")).is_none());
    assert!(Value::list(vec![]).as_object_value().is_none());
}

#[test]
fn as_string_views_strings_only() {
    assert_eq!(Value::string("hello").as_string_value(), Some("hello"));
    assert_eq!(Value::integer(1).as_string_value(), None);
    assert_eq!(Value::null().as_string_value(), None);
}

#[test]
fn object_key_collision_keeps_later_value() {
    let v = Value::object(vec![
        (key("a"), Value::integer(1)),
        (key("a"), Value::integer(2)),
    ]);
    let o = v.as_object_value().unwrap();
    assert_eq!(o.len(), 1);
    assert!(*o.get(&key("a")).unwrap() == Value::integer(2));
}

#[test]
fn mutable_object_insert_is_seen() {
    let mut v = Value::object(vec![]);
    let previous = v.as_mut_object_value().unwrap().insert(key("k"), Value::integer(1));
    assert!(previous.is_none());
    let o = v.as_object_value().unwrap();
    assert_eq!(o.len(), 1);
    assert!(*o.get(&key("k")).unwrap() == Value::integer(1));
    assert!(v == Value::object(vec![(key("k"), Value::integer(1))]));
}

#[test]
fn mutable_object_absent_on_other_variants() {
    let mut v = Value::integer(4);
    assert!(v.as_mut_object_value().is_none());
    assert!(v == Value::integer(4));
}

#[test]
fn object_map_insert_replace_and_remove() {
    let mut o = ObjectMap::new();
    assert!(o.is_empty());
    assert!(o.insert(key("x"), Value::integer(1)).is_none());
    assert!(o.insert(key("y"), Value::integer(2)).is_none());
    let replaced = o.insert(key("x"), Value::integer(3)).unwrap();
    assert!(replaced == Value::integer(1));
    assert_eq!(o.len(), 2);
    assert!(o.contains_key(&key("x")));
    let removed = o.remove(&key("x")).unwrap();
    assert!(removed == Value::integer(3));
    assert!(!o.contains_key(&key("x")));
    assert!(o.remove(&key("x")).is_none());
    assert_eq!(o.len(), 1);
}

#[test]
fn literal_of_scalars() {
    assert!(matches!(Value::null().to_input_value(), InputValue::Null));
    assert!(matches!(Value::integer(5).to_input_value(), InputValue::Int(5)));
    let bits = 2.5f64.to_bits();
    match Value::float_bits(bits).to_input_value() {
        InputValue::Float(b) => assert_eq!(f64::from_bits(b), 2.5),
        _ => panic!("expected a float literal"),
    }
    match Value::string("x").to_input_value() {
        InputValue::String(s) => assert_eq!(s, "x"),
        _ => panic!("expected a string literal"),
    }
    assert!(matches!(Value::boolean(true).to_input_value(), InputValue::Boolean(true)));
}

#[test]
fn float_payload_is_copied_bit_for_bit() {
    let nan_bits = f64::NAN.to_bits() | 1;
    match Value::float_bits(nan_bits).to_input_value() {
        InputValue::Float(b) => assert_eq!(b, nan_bits),
        _ => panic!("expected a float literal"),
    }
    let inf = f64::INFINITY.to_bits();
    assert!(matches!(Value::float_bits(inf).to_input_value(), InputValue::Float(b) if b == inf));
}

#[test]
fn literal_of_list_keeps_order_and_is_unlocated() {
    let v = Value::list(vec![Value::integer(1), Value::null()]);
    match v.to_input_value() {
        InputValue::List(items) => {
            assert_eq!(items.len(), 2);
            assert!(unlocated_int(&items[0], 1));
            assert!(items[1].span.is_none());
            assert!(matches!(items[1].item, InputValue::Null));
        }
        _ => panic!("expected a list literal"),
    }
}

#[test]
fn literal_of_nested_object() {
    let v = Value::object(vec![(key("a"), Value::list(vec![Value::integer(1)]))]);
    match v.to_input_value() {
        InputValue::Object(entries) => {
            assert_eq!(entries.len(), 1);
            let (k, val) = &entries[0];
            assert!(k.span.is_none());
            assert_eq!(k.item, "a");
            assert!(val.span.is_none());
            match &val.item {
                InputValue::List(items) => {
                    assert_eq!(items.len(), 1);
                    assert!(unlocated_int(&items[0], 1));
                }
                _ => panic!("expected a list literal"),
            }
        }
        _ => panic!("expected an object literal"),
    }
}

#[test]
fn literal_of_object_lists_each_key_once() {
    let v = Value::object(vec![
        (key("a"), Value::integer(1)),
        (key("b"), Value::integer(2)),
        (key("a"), Value::integer(3)),
    ]);
    match v.to_input_value() {
        InputValue::Object(entries) => {
            assert_eq!(entries.len(), 2);
            let mut seen: Vec<(String, i32)> = entries
                .iter()
                .map(|(k, v)| match v.item {
                    InputValue::Int(i) => (k.item.clone(), i),
                    _ => panic!("expected an integer literal"),
                })
                .collect();
            seen.sort();
            assert_eq!(seen, vec![(key("a"), 3), (key("b"), 2)]);
        }
        _ => panic!("expected an object literal"),
    }
}

#[test]
fn equality_ignores_object_key_order() {
    let a = Value::object(vec![(key("x"), Value::integer(1)), (key("y"), Value::null())]);
    let b = Value::object(vec![(key("y"), Value::null()), (key("x"), Value::integer(1))]);
    assert!(a == b);
}

#[test]
fn equality_distinguishes_key_sets_and_values() {
    let a = Value::object(vec![(key("x"), Value::integer(1))]);
    let other_key = Value::object(vec![(key("z"), Value::integer(1))]);
    let other_value = Value::object(vec![(key("x"), Value::integer(2))]);
    let more_keys = Value::object(vec![(key("x"), Value::integer(1)), (key("y"), Value::integer(1))]);
    assert!(a != other_key);
    assert!(a != other_value);
    assert!(a != more_keys);
    assert!(more_keys != a);
}

#[test]
fn equality_is_variant_sensitive_and_recursive() {
    assert!(Value::integer(1) != Value::boolean(true));
    assert!(Value::null() != Value::list(vec![]));
    assert!(Value::string("1") != Value::integer(1));
    assert!(Value::list(vec![Value::integer(1), Value::integer(2)])
        != Value::list(vec![Value::integer(2), Value::integer(1)]));
    assert!(Value::list(vec![Value::integer(1)]) != Value::list(vec![Value::integer(1), Value::null()]));
    assert!(Value::list(vec![Value::string("s")]) == Value::list(vec![Value::string("s")]));
    assert!(Value::float_bits(7) == Value::float_bits(7));
    assert!(Value::float_bits(7) != Value::float_bits(8));
}
