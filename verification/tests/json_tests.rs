use inventory::ansible::Inventory;
use inventory::json::Json;

#[test]
fn string_values_are_escaped_as_json_requires() {
    let mut i = Inventory::new();
    i.add_group_var("g", "s", Json::Str("say \"hi\"\\\n\ttab\u{1}".to_string()));
    let v: serde_json::Value = serde_json::from_str(&i.to_string()).unwrap();
    assert_eq!(
        v["g"]["vars"]["s"],
        serde_json::Value::String("say \"hi\"\\\n\ttab\u{1}".to_string())
    );
}

#[test]
fn non_ascii_text_passes_through() {
    let mut i = Inventory::new();
    i.add_group_var("g", "name", Json::Str("zürich-東京".to_string()));
    let v: serde_json::Value = serde_json::from_str(&i.to_string()).unwrap();
    assert_eq!(
        v["g"]["vars"]["name"],
        serde_json::Value::String("zürich-東京".to_string())
    );
}

#[test]
fn integers_render_in_decimal_including_extremes() {
    let mut i = Inventory::new();
    i.add_group_var("g", "zero", Json::Int(0));
    i.add_group_var("g", "neg", Json::Int(-42));
    i.add_group_var("g", "min", Json::Int(i64::MIN));
    i.add_group_var("g", "max", Json::Int(i64::MAX));
    let v: serde_json::Value = serde_json::from_str(&i.to_string()).unwrap();
    assert_eq!(v["g"]["vars"]["zero"].as_i64(), Some(0));
    assert_eq!(v["g"]["vars"]["neg"].as_i64(), Some(-42));
    assert_eq!(v["g"]["vars"]["min"].as_i64(), Some(i64::MIN));
    assert_eq!(v["g"]["vars"]["max"].as_i64(), Some(i64::MAX));
}

#[test]
fn nested_arrays_and_objects_serialize() {
    let mut i = Inventory::new();
    i.add_group_var(
        "g",
        "nested",
        Json::Obj(vec![
            ("xs".to_string(), Json::Arr(vec![Json::Int(1), Json::Str("two".to_string())])),
            ("flag".to_string(), Json::Bool(false)),
            ("nothing".to_string(), Json::Null),
        ]),
    );
    let v: serde_json::Value = serde_json::from_str(&i.to_string()).unwrap();
    let expected: serde_json::Value =
        serde_json::from_str(r#"{"xs":[1,"two"],"flag":false,"nothing":null}"#).unwrap();
    assert_eq!(v["g"]["vars"]["nested"], expected);
}

#[test]
fn empty_containers_serialize_to_empty_json_forms() {
    let mut i = Inventory::new();
    i.add_group_var("g", "arr", Json::Arr(Vec::new()));
    i.add_group_var("g", "obj", Json::Obj(Vec::new()));
    let v: serde_json::Value = serde_json::from_str(&i.to_string()).unwrap();
    let empty_arr: serde_json::Value = serde_json::from_str("[]").unwrap();
    let empty_obj: serde_json::Value = serde_json::from_str("{}").unwrap();
    assert_eq!(v["g"]["vars"]["arr"], empty_arr);
    assert_eq!(v["g"]["vars"]["obj"], empty_obj);
}
