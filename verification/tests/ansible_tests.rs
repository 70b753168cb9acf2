use inventory::ansible::Inventory;
use inventory::json::Json;

/// Empty is the minimum valid json for ansible inventory
const EMPTY: &'static str = r#"
    {
        "_meta": {
            "hostvars": {}
        },
        "all": {
            "children": [
            "ungrouped"
            ]
        },
        "ungrouped": {
            "children": [
            ]
        }
    }
    "#;

#[test]
fn test_new() {
    let i = Inventory::new();

    let data: serde_json::Value = serde_json::from_str(EMPTY).unwrap();
    let data1: serde_json::Value = serde_json::from_str(&i.to_string()).unwrap();
    assert_eq!(data, data1);
}

#[test]
fn test_add_group() {
    let mut i = Inventory::new();
    i.add_group("foo");
    i.add_group("baz");
    i.add_group("foo");

    // the order of the keys doesn't matter
    let expected_str = r#"
    {
        "_meta": {
            "hostvars": {}
        },
        "baz": {
            "children": [],
            "vars": {}
        },
        "foo":  {
            "children": [],
            "vars": {}
        },
        "all": {
            "children": [
            "ungrouped",
            "foo",
            "baz"
            ]
        },
        "ungrouped": {
            "children": [
            ]
        }
    }
    "#;
    let expected: serde_json::Value = serde_json::from_str(expected_str).unwrap();
    let actual: serde_json::Value = serde_json::from_str(&i.to_string()).unwrap();
    assert_eq!(expected, actual);
}

#[test]
fn test_add_group_var() {
    let mut i = Inventory::new();
    i.add_group_var("foo", "no", Json::Int(69));
    i.add_group_var("baz", "hello", Json::Str("world".to_string()));
    i.add_group_var("baz", "favorite", Json::Int(100));
    i.add_group_var("foo", "in", Json::Str("the".to_string()));
    i.add_group_var("foo", "champagne", Json::Str("room".to_string()));

    let expected_str = r#"
    {
        "_meta": {
            "hostvars": {}
        },
        "baz": {
            "children": [],
            "vars": {
                "hello": "world",
                "favorite": 100
            }
        },
        "foo":  {
            "children": [],
            "vars": {
                "no": 69,
                "in": "the",
                "champagne": "room"
            }
        },
        "all": {
            "children": [
            "ungrouped",
            "foo",
            "baz"
            ]
        },
        "ungrouped": {
            "children": [
            ]
        }
    }
    "#;
    let expected: serde_json::Value = serde_json::from_str(expected_str).unwrap();
    let actual: serde_json::Value = serde_json::from_str(&i.to_string()).unwrap();
    assert_eq!(expected, actual);
}

#[test]
fn test_add_host() {
    let expected_str = r#"
    {
        "_meta": {
            "hostvars": {}
        },
        "all": {
            "children": [
            "ungrouped"
            ]
        },
        "ungrouped": {
            "children": [
            ]
        }
    }
    "#;
    let _ = expected_str;
}

#[test]
fn empty_document_serializes_to_minimum_valid_form() {
    let i = Inventory::new();
    assert_eq!(
        i.to_string(),
        "{\"_meta\":{\"hostvars\":{}},\"all\":{\"children\":[\"ungrouped\"]},\"ungrouped\":{\"children\":[]}}"
    );
}

#[test]
fn add_group_keeps_first_occurrence_order() {
    let mut i = Inventory::new();
    i.add_group("foo");
    i.add_group("baz");
    i.add_group("foo");
    let v: serde_json::Value = serde_json::from_str(&i.to_string()).unwrap();
    let children = v["all"]["children"].as_array().unwrap();
    assert_eq!(children.len(), 3);
    assert_eq!(children[0], "ungrouped");
    assert_eq!(children[1], "foo");
    assert_eq!(children[2], "baz");
    let empty_group: serde_json::Value = serde_json::from_str(r#"{"children":[],"vars":{}}"#).unwrap();
    assert_eq!(v["foo"], empty_group);
    assert_eq!(v["baz"], empty_group);
}

#[test]
fn group_vars_keep_latest_value_and_do_not_duplicate_groups() {
    let mut i = Inventory::new();
    i.add_group_var("foo", "no", Json::Int(69));
    i.add_group_var("baz", "hello", Json::Str("world".to_string()));
    i.add_group_var("baz", "favorite", Json::Int(100));
    i.add_group_var("baz", "favorite", Json::Int(7));
    let v: serde_json::Value = serde_json::from_str(&i.to_string()).unwrap();
    let foo_vars: serde_json::Value = serde_json::from_str(r#"{"no":69}"#).unwrap();
    let baz_vars: serde_json::Value = serde_json::from_str(r#"{"hello":"world","favorite":7}"#).unwrap();
    assert_eq!(v["foo"]["vars"], foo_vars);
    assert_eq!(v["baz"]["vars"], baz_vars);
    let children = v["all"]["children"].as_array().unwrap();
    assert_eq!(children.iter().filter(|c| **c == "foo").count(), 1);
    assert_eq!(children.iter().filter(|c| **c == "baz").count(), 1);
}

#[test]
fn add_host_places_hosts_and_creates_groups() {
    let mut i = Inventory::new();
    i.add_host(None, "web1");
    i.add_host(Some("db"), "db1");
    let v: serde_json::Value = serde_json::from_str(&i.to_string()).unwrap();
    let ungrouped_hosts = v["ungrouped"]["hosts"].as_array().unwrap();
    assert_eq!(ungrouped_hosts.len(), 1);
    assert_eq!(ungrouped_hosts[0], "web1");
    let db_hosts = v["db"]["hosts"].as_array().unwrap();
    assert_eq!(db_hosts.len(), 1);
    assert_eq!(db_hosts[0], "db1");
    let children = v["all"]["children"].as_array().unwrap();
    assert_eq!(children.iter().filter(|c| **c == "db").count(), 1);
}

#[test]
fn add_host_appends_actual_identifier_in_call_order() {
    let mut i = Inventory::new();
    i.add_host(Some("g1"), "h1");
    i.add_host(Some("g1"), "h2");
    i.add_host(Some("g1"), "h1");
    let v: serde_json::Value = serde_json::from_str(&i.to_string()).unwrap();
    let hosts = v["g1"]["hosts"].as_array().unwrap();
    assert_eq!(hosts.len(), 3);
    assert_eq!(hosts[0], "h1");
    assert_eq!(hosts[1], "h2");
    assert_eq!(hosts[2], "h1");
}

#[test]
fn reserialization_round_trips() {
    let mut i = Inventory::new();
    i.add_group_var("foo", "quote\"key", Json::Str("a\"b\\c\nd".to_string()));
    i.add_group_var("ungrouped", "zone", Json::Str("eu".to_string()));
    i.add_host(None, "web1");
    i.add_host(Some("db"), "db1");
    i.add_group_var(
        "db",
        "ports",
        Json::Arr(vec![Json::Int(5432), Json::Null, Json::Bool(true)]),
    );
    let s1 = i.to_string();
    let v1: serde_json::Value = serde_json::from_str(&s1).unwrap();
    let s2 = v1.to_string();
    let v2: serde_json::Value = serde_json::from_str(&s2).unwrap();
    assert_eq!(v1, v2);
}

#[test]
fn ungrouped_accepts_vars_and_hosts() {
    let mut i = Inventory::new();
    i.add_group("ungrouped");
    assert_eq!(
        i.to_string(),
        "{\"_meta\":{\"hostvars\":{}},\"all\":{\"children\":[\"ungrouped\"]},\"ungrouped\":{\"children\":[]}}"
    );
    i.add_group_var("ungrouped", "zone", Json::Str("eu".to_string()));
    i.add_host(Some("ungrouped"), "h1");
    i.add_host(None, "h2");
    let v: serde_json::Value = serde_json::from_str(&i.to_string()).unwrap();
    assert_eq!(v["ungrouped"]["vars"]["zone"], serde_json::Value::String("eu".to_string()));
    let hosts = v["ungrouped"]["hosts"].as_array().unwrap();
    assert_eq!(hosts.len(), 2);
    assert_eq!(hosts[0], "h1");
    assert_eq!(hosts[1], "h2");
    let children = v["all"]["children"].as_array().unwrap();
    assert_eq!(children.len(), 1);
    assert_eq!(children[0], "ungrouped");
}

#[test]
fn apply_resolved_row_skips_hostless_rows() {
    let mut i = Inventory::new();
    assert!(!i.apply_resolved_row(Some("g1"), None));
    assert_eq!(
        i.to_string(),
        "{\"_meta\":{\"hostvars\":{}},\"all\":{\"children\":[\"ungrouped\"]},\"ungrouped\":{\"children\":[]}}"
    );
    assert!(i.apply_resolved_row(Some("g1"), Some("h1")));
    let v: serde_json::Value = serde_json::from_str(&i.to_string()).unwrap();
    let hosts = v["g1"]["hosts"].as_array().unwrap();
    assert_eq!(hosts.len(), 1);
    assert_eq!(hosts[0], "h1");
}
