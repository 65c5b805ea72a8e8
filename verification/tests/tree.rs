#![allow(unused_imports, dead_code)]

use fig2json::schema::tree::{build_tree, build_tree_with_components, format_guid, format_parent_guid};
use fig2json::{Json, JsonNumber};

/// Reads a JSON text into the library's document type.
fn json(text: &str) -> Json {
    to_json(&serde_json::from_str(text).unwrap())
}

fn to_json(v: &serde_json::Value) -> Json {
    match v {
        serde_json::Value::Null => Json::Null,
        serde_json::Value::Bool(b) => Json::Bool(*b),
        serde_json::Value::Number(n) => Json::Number(if let Some(u) = n.as_u64() {
            JsonNumber::PosInt(u)
        } else if let Some(i) = n.as_i64() {
            JsonNumber::NegInt(i)
        } else {
            JsonNumber::Float(n.as_f64().unwrap().to_bits())
        }),
        serde_json::Value::String(s) => Json::Str(s.clone()),
        serde_json::Value::Array(items) => Json::Array(items.iter().map(to_json).collect()),
        serde_json::Value::Object(m) => {
            Json::Object(m.iter().map(|(k, v)| (k.clone(), to_json(v))).collect())
        }
    }
}

/// `serde_json`-style access for the assertions.
trait Access {
    fn at(&self, key: &str) -> &Json;
    fn nth(&self, i: usize) -> &Json;
    fn as_f64(&self) -> Option<f64>;
}

impl Access for Json {
    fn at(&self, key: &str) -> &Json {
        self.get(key).unwrap()
    }

    fn nth(&self, i: usize) -> &Json {
        &self.as_array().unwrap()[i]
    }

    fn as_f64(&self) -> Option<f64> {
        match self {
            Json::Number(JsonNumber::PosInt(n)) => Some(*n as f64),
            Json::Number(JsonNumber::NegInt(n)) => Some(*n as f64),
            Json::Number(JsonNumber::Float(bits)) => Some(f64::from_bits(*bits)),
            _ => None,
        }
    }
}


#[test]
fn test_format_guid() {
    let node = json(
        r##"{
        "guid": {
            "sessionID": 1,
            "localID": 42
        }
    }"##,
    );

    assert_eq!(format_guid(&node).unwrap(), "1:42");
}

#[test]
fn test_format_parent_guid() {
    let parent_index = json(
        r##"{
        "guid": {
            "sessionID": 0,
            "localID": 1
        },
        "position": "!"
    }"##,
    );

    assert_eq!(format_parent_guid(&parent_index).unwrap(), "0:1");
}

#[test]
fn test_build_tree_simple() {
    let node_changes = vec![
        json(
        r##"{
            "guid": {"sessionID": 0, "localID": 0},
            "name": "Root",
            "type": "DOCUMENT"
        }"##,
    ),
        json(
        r##"{
            "guid": {"sessionID": 0, "localID": 1},
            "parentIndex": {
                "guid": {"sessionID": 0, "localID": 0},
                "position": "a"
            },
            "name": "Child1"
        }"##,
    ),
        json(
        r##"{
            "guid": {"sessionID": 0, "localID": 2},
            "parentIndex": {
                "guid": {"sessionID": 0, "localID": 0},
                "position": "b"
            },
            "name": "Child2"
        }"##,
    ),
    ];

    let root = build_tree(node_changes).unwrap();

    // Check root
    assert_eq!(root.get("name").and_then(|v| v.as_str()), Some("Root"));

    // Check children
    let children = root.get("children").and_then(|v| v.as_array()).unwrap();
    assert_eq!(children.len(), 2);
    assert_eq!(children[0].get("name").and_then(|v| v.as_str()), Some("Child1"));
    assert_eq!(children[1].get("name").and_then(|v| v.as_str()), Some("Child2"));

    // Check parentIndex is removed
    assert!(children[0].get("parentIndex").is_none());
}

#[test]
fn test_build_tree_with_components_emits_orphan_symbols() {
    let node_changes = vec![
        json(
        r##"{
            "guid": {"sessionID": 0, "localID": 0},
            "name": "Doc"
        }"##,
    ),
        // Orphan SYMBOL master (no parentIndex)
        json(
        r##"{
            "guid": {"sessionID": 1, "localID": 1},
            "name": "Master",
            "type": { "__enum__": "NodeType", "value": "SYMBOL" }
        }"##,
    ),
        // Child of the master
        json(
        r##"{
            "guid": {"sessionID": 1, "localID": 2},
            "name": "MasterChild",
            "parentIndex": {
                "guid": {"sessionID": 1, "localID": 1},
                "position": "a"
            }
        }"##,
    ),
    ];
    let out = build_tree_with_components(node_changes).unwrap();
    let document = out.get("document").unwrap();
    assert_eq!(document.get("name").and_then(|v| v.as_str()), Some("Doc"));

    let components = out
        .get("components")
        .expect("components should be present")
        .as_array()
        .unwrap();
    assert_eq!(components.len(), 1, "expected one master");
    let master = &components[0];
    assert_eq!(master.get("name").and_then(|v| v.as_str()), Some("Master"));
    let kids = master.get("children").and_then(|v| v.as_array()).unwrap();
    assert_eq!(kids.len(), 1);
    assert_eq!(kids[0].get("name").and_then(|v| v.as_str()), Some("MasterChild"));
}

#[test]
fn test_sort_children_by_position() {
    let node_changes = vec![
        json(
        r##"{
            "guid": {"sessionID": 0, "localID": 0},
            "name": "Root"
        }"##,
    ),
        json(
        r##"{
            "guid": {"sessionID": 0, "localID": 1},
            "parentIndex": {
                "guid": {"sessionID": 0, "localID": 0},
                "position": "z"  
            },
            "name": "Third"
        }"##,
    ),
        json(
        r##"{
            "guid": {"sessionID": 0, "localID": 2},
            "parentIndex": {
                "guid": {"sessionID": 0, "localID": 0},
                "position": "a"  
            },
            "name": "First"
        }"##,
    ),
        json(
        r##"{
            "guid": {"sessionID": 0, "localID": 3},
            "parentIndex": {
                "guid": {"sessionID": 0, "localID": 0},
                "position": "m"  
            },
            "name": "Second"
        }"##,
    ),
    ];

    let root = build_tree(node_changes).unwrap();
    let children = root.get("children").and_then(|v| v.as_array()).unwrap();

    // Check sorted order
    assert_eq!(children[0].get("name").and_then(|v| v.as_str()), Some("First"));
    assert_eq!(children[1].get("name").and_then(|v| v.as_str()), Some("Second"));
    assert_eq!(children[2].get("name").and_then(|v| v.as_str()), Some("Third"));
}
