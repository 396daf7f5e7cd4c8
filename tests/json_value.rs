use json_value::JsonValue;
use json_value::ParseError;
use json_value::pretty::format_text;
use json_value::whitespace::remove_formatting;

fn parsed(text: &str) -> JsonValue {
    let mut v = JsonValue::new();
    assert_eq!(v.parse(text), Ok(()));
    v
}

#[test]
fn new_value_is_undefined() {
    let v = JsonValue::new();
    assert!(v.is_undefined());
    assert!(!v.is_null());
    assert!(!v.is_value());
    assert_eq!(v.to_string(), "null");
    assert_eq!(v.as_string(), "");
    assert_eq!(v.get_array().len(), 0);
    assert_eq!(v.get_object().len(), 0);
}

#[test]
fn array_auto_vivification() {
    let mut v = JsonValue::new();
    v.get_or_create_at(2).set_int(7);
    assert!(v.is_array());
    assert_eq!(v.get_array().len(), 3);
    assert!(v.get(0).unwrap().is_undefined());
    assert!(v.get(1).unwrap().is_undefined());
    assert_eq!(v.get(2).unwrap().as_int(), 7);
    assert!(v.get(3).is_none());
    assert_eq!(v.to_string(), "[null,null,7]");
}

#[test]
fn field_auto_vivification() {
    let mut v = JsonValue::new();
    v.get_or_create_field("x").set_bool(true);
    assert!(v.is_object());
    assert!(v.get_field("x").unwrap().as_bool());
    assert!(v.get_field("y").is_none());
    v.get_or_create_field("x").set_string("s");
    assert_eq!(v.get_object().len(), 1);
    assert_eq!(v.to_string(), "{\"x\":\"s\"}");
}

#[test]
fn type_inference() {
    let v = parsed("{\"a\":1,\"b\":1.5,\"c\":true,\"d\":\"x\",\"e\":null}");
    assert!(v.is_object());
    assert!(v.get_field("a").unwrap().is_int());
    assert!(v.get_field("b").unwrap().is_decimal());
    assert!(v.get_field("c").unwrap().is_bool());
    assert!(v.get_field("d").unwrap().is_string());
    assert!(v.get_field("e").unwrap().is_null());
    assert_eq!(v.get_field("d").unwrap().as_string(), "x");
    assert_eq!(v.get_field("b").unwrap().as_string(), "1.5");
    assert_eq!(v.get_field("e").unwrap().as_string(), "null");
    assert_eq!(v.get_field("a").unwrap().as_string(), "1");
    let text = v.to_string();
    assert!(!text.contains("\"e\""));
    assert_eq!(text, "{\"a\":1,\"b\":1.5,\"c\":true,\"d\":\"x\"}");
}

#[test]
fn bool_literal_any_case() {
    let v = parsed("{\"a\":TRUE,\"b\":False,\"c\":true}");
    assert!(v.get_field("a").unwrap().is_bool());
    assert!(!v.get_field("a").unwrap().as_bool());
    assert!(v.get_field("b").unwrap().is_bool());
    assert!(v.get_field("c").unwrap().as_bool());
}

#[test]
fn nested_structure() {
    let v = parsed("{\"a\":[1,2,{\"b\":3}]}");
    assert!(v.is_object());
    assert_eq!(v.get_object().len(), 1);
    let a = v.get_field("a").unwrap();
    assert!(a.is_array());
    assert_eq!(a.get_array().len(), 3);
    let third = a.get(2).unwrap();
    assert!(third.is_object());
    assert!(third.get_field("b").unwrap().is_int());
    assert_eq!(third.get_field("b").unwrap().as_int(), 3);
}

#[test]
fn round_trip_of_built_tree() {
    let mut inner = JsonValue::new();
    inner.append_int(-12);
    inner.append_bool(false);
    inner.append_string("x y");
    inner.append_decimal_text("2.25");
    let mut obj = JsonValue::new();
    obj.add_int("b", 3);
    obj.add_string("s", "hello world");
    inner.append_json(obj);
    let mut v = JsonValue::new();
    v.add_json("list", inner);
    v.add_bool("flag", true);
    v.add_decimal_text("d", "0.5");
    let text = v.to_string();
    let back = parsed(&text);
    assert_eq!(back.to_string(), text);
    let list = back.get_field("list").unwrap();
    assert!(list.get(0).unwrap().is_int());
    assert_eq!(list.get(0).unwrap().as_int(), -12);
    assert!(list.get(1).unwrap().is_bool());
    assert_eq!(list.get(2).unwrap().as_string(), "x y");
    assert!(list.get(3).unwrap().is_decimal());
    assert_eq!(list.get(4).unwrap().get_field("s").unwrap().as_string(), "hello world");
}

#[test]
fn null_fields_are_elided() {
    let mut v = JsonValue::new();
    v.add_int("a", 1);
    v.add_json("n", JsonValue::new());
    let mut null = JsonValue::new();
    assert_eq!(null.parse("{\"z\":null}"), Ok(()));
    v.add_json("m", JsonValue::new());
    assert_eq!(v.to_string(), "{\"a\":1}");
    let back = parsed(&v.to_string());
    assert!(back.get_field("n").is_none());
    assert_eq!(null.to_string(), "{}");
}

#[test]
fn escape_round_trip() {
    let original = "a\nb\\c\td";
    let mut v = JsonValue::new();
    v.add_string("s", original);
    let text = v.to_string();
    assert_eq!(text, "{\"s\":\"a\\nb\\\\c\\td\"}");
    let back = parsed(&text);
    assert_eq!(back.get_field("s").unwrap().as_string(), original);
}

#[test]
fn normalization_is_idempotent() {
    let raw = "{ \"a b\" : [ 1 ,\n\t2 ] ,\r\n \"c\" : \" x \" }";
    let once = remove_formatting(raw);
    assert_eq!(once, "{\"a b\":[1,2],\"c\":\" x \"}");
    assert_eq!(remove_formatting(&once), once);
}

#[test]
fn pretty_then_strip_gives_compact() {
    let mut v = JsonValue::new();
    v.add_string("k", "a b");
    let mut arr = JsonValue::new();
    arr.append_int(1);
    arr.append_json(JsonValue::new());
    v.add_json("a", arr);
    let compact = v.to_string();
    let pretty = v.to_formatted_string();
    assert_eq!(pretty, format_text(&compact));
    assert_eq!(remove_formatting(&pretty), compact);
}

#[test]
fn pretty_layout() {
    assert_eq!(
        format_text("{\"a\":[1,2]}"),
        "{\n    \"a\": \n    [\n        1,\n        2\n    ]\n}"
    );
    assert_eq!(format_text("{\"a\":{\"b\":1}}"), "{\n    \"a\": \n    {\n        \"b\": 1\n    }\n}");
    assert_eq!(format_text("[{\"a\":1}]"), "[\n    {\n        \"a\": 1\n    }\n]");
    assert_eq!(format_text(""), "");
}

#[test]
fn integer_text_both_ways() {
    let mut v = JsonValue::new();
    v.set_int(i128::MIN);
    assert_eq!(v.as_string(), "-170141183460469231731687303715884105728");
    assert_eq!(v.as_int(), i128::MIN);
    v.set_int(i128::MAX);
    assert_eq!(v.as_int(), i128::MAX);
    v.set_int(0);
    assert_eq!(v.to_string(), "0");
    v.set_int(-905);
    assert_eq!(v.to_string(), "-905");
    assert_eq!(v.as_int(), -905);
}

#[test]
fn lenient_integer_reading() {
    let v = parsed("{\"a\":+5,\"b\":abc,\"c\":170141183460469231731687303715884105728,\"d\":-,\"e\":12x}");
    assert_eq!(v.get_field("a").unwrap().as_int(), 5);
    assert_eq!(v.get_field("b").unwrap().as_int(), 0);
    assert_eq!(v.get_field("c").unwrap().as_int(), 0);
    assert_eq!(v.get_field("d").unwrap().as_int(), 0);
    assert_eq!(v.get_field("e").unwrap().as_int(), 0);
    let mut s = JsonValue::new();
    s.set_string("42");
    assert_eq!(s.as_int(), 42);
    let arr = parsed("{\"x\":[1]}");
    assert_eq!(arr.as_int(), 0);
    assert_eq!(arr.as_string(), "");
}

#[test]
fn bool_reading() {
    let mut v = JsonValue::new();
    v.set_bool(true);
    assert!(v.as_bool());
    assert_eq!(v.to_string(), "true");
    v.set_bool(false);
    assert!(!v.as_bool());
    assert_eq!(v.to_string(), "false");
    v.set_string("true");
    assert!(v.as_bool());
    assert!(v.is_string());
}

#[test]
fn setters_discard_containers() {
    let mut v = JsonValue::new();
    v.add_int("a", 1);
    v.set_int(5);
    assert!(v.is_int());
    v.add_int("b", 2);
    assert_eq!(v.to_string(), "{\"b\":2}");
    v.append_int(3);
    assert_eq!(v.to_string(), "[3]");
}

#[test]
fn adding_overwrites_same_key() {
    let mut v = JsonValue::new();
    v.add_int("a", 1);
    v.add_int("b", 2);
    v.add_string("a", "z");
    assert_eq!(v.get_object().len(), 2);
    assert_eq!(v.to_string(), "{\"a\":\"z\",\"b\":2}");
    let dup = parsed("{\"k\":1,\"k\":2}");
    assert_eq!(dup.to_string(), "{\"k\":2}");
}

#[test]
fn empty_containers() {
    let mut v = JsonValue::new();
    v.append_int(1);
    v.get_array_mut().pop();
    assert!(v.is_array());
    assert_eq!(v.to_string(), "[]");
    let mut o = JsonValue::new();
    o.add_int("a", 1);
    o.get_object_mut().pop();
    assert_eq!(o.to_string(), "{}");
    let e = parsed("{\"a\":[],\"b\":{}}");
    assert!(e.get_field("a").unwrap().is_undefined());
    assert!(e.get_field("b").unwrap().is_undefined());
    assert_eq!(e.to_string(), "{}");
}

#[test]
fn parse_merges_into_existing_object() {
    let mut v = JsonValue::new();
    v.add_int("a", 1);
    assert_eq!(v.parse("{\"b\":2}"), Ok(()));
    assert_eq!(v.to_string(), "{\"a\":1,\"b\":2}");
    assert_eq!(v.parse("{}"), Ok(()));
    assert_eq!(v.to_string(), "{\"a\":1,\"b\":2}");
}

#[test]
fn parse_errors() {
    let mut v = JsonValue::new();
    assert_eq!(v.parse("{\"a\":"), Err(ParseError::TruncatedInput));
    assert_eq!(v.parse(""), Err(ParseError::TruncatedInput));
    assert_eq!(v.parse("{\"a\":1"), Err(ParseError::TruncatedInput));
    assert_eq!(v.parse("{:1}"), Err(ParseError::UnexpectedToken));
    assert_eq!(v.parse("{\"a\":[}]}"), Err(ParseError::UnbalancedBrackets));
    assert_eq!(v.parse("{\"a\":1]"), Err(ParseError::UnbalancedBrackets));
    assert_eq!(v.parse("{\"a\":\"}"), Err(ParseError::UnterminatedString));
    assert!(v.is_undefined());
}

#[test]
fn whitespace_in_input_is_ignored() {
    let v = parsed("{\n  \"a\" : [ 1 , 2 ],\n  \"s\" : \"x y\"\n}");
    assert_eq!(v.to_string(), "{\"a\":[1,2],\"s\":\"x y\"}");
}

#[test]
fn unknown_escape_is_dropped() {
    let v = parsed("{\"s\":\"a\\qb\"}");
    assert_eq!(v.get_field("s").unwrap().as_string(), "ab");
}

#[test]
fn empty_scalar_reads_as_null_with_empty_text() {
    let v = parsed("{\"a\":,\"b\":1}");
    assert!(v.get_field("a").unwrap().is_null());
    assert_eq!(v.get_field("a").unwrap().as_string(), "");
    assert_eq!(v.to_string(), "{\"b\":1}");
}

#[test]
fn kind_change_clears_other_containers() {
    let mut v = JsonValue::new();
    v.append_int(1);
    v.add_int("a", 2);
    assert_eq!(v.get_array().len(), 0);
    assert_eq!(v.get_object().len(), 1);
    v.get_or_create_at(0).set_bool(true);
    assert_eq!(v.get_object().len(), 0);
    assert_eq!(v.get_array().len(), 1);
    v.get_or_create_field("k");
    assert_eq!(v.get_array().len(), 0);
    v.set_string("s");
    assert_eq!(v.get_array().len(), 0);
    assert_eq!(v.get_object().len(), 0);
}

#[test]
fn strings_with_terminators_round_trip() {
    let mut t = JsonValue::new();
    t.add_string("k", ",");
    let text = t.to_string();
    assert_eq!(text, "{\"k\":\",\"}");
    let back = parsed(&text);
    assert!(back.get_field("k").unwrap().is_string());
    assert_eq!(back.get_field("k").unwrap().as_string(), ",");
    let mut u = JsonValue::new();
    u.add_string("a", "x,y}z]");
    let mut arr = JsonValue::new();
    arr.append_string("[1,2]");
    arr.append_int(3);
    u.add_json("b", arr);
    let text = u.to_string();
    let back = parsed(&text);
    assert_eq!(back.to_string(), text);
    assert_eq!(back.get_field("a").unwrap().as_string(), "x,y}z]");
    assert_eq!(back.get_field("b").unwrap().get(0).unwrap().as_string(), "[1,2]");
    assert_eq!(back.get_field("b").unwrap().get(1).unwrap().as_int(), 3);
}

#[test]
fn all_null_fields_give_empty_object() {
    let mut v = JsonValue::new();
    v.add_json("a", JsonValue::new());
    v.add_json("b", JsonValue::new());
    assert!(v.is_object());
    assert_eq!(v.to_string(), "{}");
}
