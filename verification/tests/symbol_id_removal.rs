#![allow(unused_imports, dead_code)]

use fig2json::schema::transformations::{remove_symbol_id_fields};
use fig2json::{Json, JsonNumber};

/// Reads a JSON text into the library's document type.
fn json(text: &str) -> Json {
    to_json(&serde_json::from_str(text).unwrap())
}

fn to_json(v: &serde_json::Value) -> Json {
    match v {
        serde_json::Value::Null => Json::Null,
        serde_json::Value::Bool(b) => Json::Bool(*b),
        serde_json::Value::Number(n) => Json::Number(if let Some(u) = n.as_u64() {
            JsonNumber::PosInt(u)
        } else if let Some(i) = n.as_i64() {
            JsonNumber::NegInt(i)
        } else {
            JsonNumber::Float(n.as_f64().unwrap().to_bits())
        }),
        serde_json::Value::String(s) => Json::Str(s.clone()),
        serde_json::Value::Array(items) => Json::Array(items.iter().map(to_json).collect()),
        serde_json::Value::Object(m) => {
            Json::Object(m.iter().map(|(k, v)| (k.clone(), to_json(v))).collect())
        }
    }
}

/// `serde_json`-style access for the assertions.
trait Access {
    fn at(&self, key: &str) -> &Json;
    fn nth(&self, i: usize) -> &Json;
    fn as_f64(&self) -> Option<f64>;
}

impl Access for Json {
    fn at(&self, key: &str) -> &Json {
        self.get(key).unwrap()
    }

    fn nth(&self, i: usize) -> &Json {
        &self.as_array().unwrap()[i]
    }

    fn as_f64(&self) -> Option<f64> {
        match self {
            Json::Number(JsonNumber::PosInt(n)) => Some(*n as f64),
            Json::Number(JsonNumber::NegInt(n)) => Some(*n as f64),
            Json::Number(JsonNumber::Float(bits)) => Some(f64::from_bits(*bits)),
            _ => None,
        }
    }
}


#[test]
fn test_remove_symbol_id_with_both_fields() {
    let mut input = json(
        r##"{
        "name": "Navigation",
        "symbolID": {
            "localID": 10596,
            "sessionID": 4331
        },
        "size": {
            "x": 375.0,
            "y": 122.0
        }
    }"##,
    );

    remove_symbol_id_fields(&mut input).unwrap();

    let expected = json(
        r##"{
        "name": "Navigation",
        "size": {
            "x": 375.0,
            "y": 122.0
        }
    }"##,
    );

    assert_eq!(input, expected);
}

#[test]
fn test_remove_symbol_id_with_only_local_id() {
    let mut input = json(
        r##"{
        "name": "Test",
        "symbolID": {
            "localID": 123
        }
    }"##,
    );

    remove_symbol_id_fields(&mut input).unwrap();

    let expected = json(
        r##"{
        "name": "Test"
    }"##,
    );

    assert_eq!(input, expected);
}

#[test]
fn test_remove_symbol_id_with_only_session_id() {
    let mut input = json(
        r##"{
        "name": "Test",
        "symbolID": {
            "sessionID": 456
        }
    }"##,
    );

    remove_symbol_id_fields(&mut input).unwrap();

    let expected = json(
        r##"{
        "name": "Test"
    }"##,
    );

    assert_eq!(input, expected);
}

#[test]
fn test_keep_symbol_id_with_extra_fields() {
    let mut input = json(
        r##"{
        "name": "Test",
        "symbolID": {
            "localID": 123,
            "sessionID": 456,
            "customField": "value"
        }
    }"##,
    );

    let expected = input.deep_copy();
    remove_symbol_id_fields(&mut input).unwrap();

    assert_eq!(input, expected);
}

#[test]
fn test_keep_symbol_id_with_different_field() {
    let mut input = json(
        r##"{
        "name": "Test",
        "symbolID": {
            "localID": 123,
            "customField": "value"
        }
    }"##,
    );

    let expected = input.deep_copy();
    remove_symbol_id_fields(&mut input).unwrap();

    assert_eq!(input, expected);
}

#[test]
fn test_remove_empty_symbol_id() {
    let mut input = json(
        r##"{
        "name": "Test",
        "symbolID": {}
    }"##,
    );

    remove_symbol_id_fields(&mut input).unwrap();

    let expected = json(
        r##"{
        "name": "Test"
    }"##,
    );

    assert_eq!(input, expected);
}

#[test]
fn test_nested_symbol_id_removal() {
    let mut input = json(
        r##"{
        "children": [
            {
                "name": "Child1",
                "symbolID": {
                    "localID": 1,
                    "sessionID": 2
                }
            },
            {
                "name": "Child2",
                "nested": {
                    "symbolID": {
                        "localID": 3,
                        "sessionID": 4
                    }
                }
            }
        ]
    }"##,
    );

    remove_symbol_id_fields(&mut input).unwrap();

    let expected = json(
        r##"{
        "children": [
            {
                "name": "Child1"
            },
            {
                "name": "Child2",
                "nested": {}
            }
        ]
    }"##,
    );

    assert_eq!(input, expected);
}

#[test]
fn test_mixed_symbol_ids() {
    let mut input = json(
        r##"{
        "nodes": [
            {
                "name": "Remove",
                "symbolID": {
                    "localID": 1,
                    "sessionID": 2
                }
            },
            {
                "name": "Keep",
                "symbolID": {
                    "localID": 3,
                    "sessionID": 4,
                    "extra": "field"
                }
            }
        ]
    }"##,
    );

    remove_symbol_id_fields(&mut input).unwrap();

    let expected = json(
        r##"{
        "nodes": [
            {
                "name": "Remove"
            },
            {
                "name": "Keep",
                "symbolID": {
                    "localID": 3,
                    "sessionID": 4,
                    "extra": "field"
                }
            }
        ]
    }"##,
    );

    assert_eq!(input, expected);
}

#[test]
fn test_symbol_id_not_object() {
    // If symbolID is not an object, keep it (shouldn't happen, but be defensive)
    let mut input = json(
        r##"{
        "name": "Test",
        "symbolID": "string_value"
    }"##,
    );

    let expected = input.deep_copy();
    remove_symbol_id_fields(&mut input).unwrap();

    assert_eq!(input, expected);
}

#[test]
fn test_preserve_symbol_id_inside_symbol_data() {
    // symbolData.symbolID is the INSTANCE → COMPONENT link. Plain guid
    // form must survive even though it has only localID/sessionID.
    let mut input = json(
        r##"{
        "name": "Instance",
        "symbolData": {
            "symbolID": { "localID": 10, "sessionID": 20 },
            "symbolOverrides": []
        }
    }"##,
    );
    let expected = input.deep_copy();
    remove_symbol_id_fields(&mut input).unwrap();
    assert_eq!(input, expected);
}

#[test]
fn test_deeply_nested_structure() {
    let mut input = json(
        r##"{
        "level1": {
            "symbolID": {
                "localID": 1
            },
            "level2": {
                "symbolID": {
                    "sessionID": 2
                },
                "level3": {
                    "symbolID": {
                        "localID": 3,
                        "sessionID": 4
                    }
                }
            }
        }
    }"##,
    );

    remove_symbol_id_fields(&mut input).unwrap();

    let expected = json(
        r##"{
        "level1": {
            "level2": {
                "level3": {}
            }
        }
    }"##,
    );

    assert_eq!(input, expected);
}
