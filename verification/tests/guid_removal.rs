#![allow(unused_imports, dead_code)]

use fig2json::schema::transformations::{remove_guid_fields, remove_guid_fields_outside_masters};
use fig2json::{Json, JsonNumber};

/// Reads a JSON text into the library's document type.
fn json(text: &str) -> Json {
    to_json(&serde_json::from_str(text).unwrap())
}

fn to_json(v: &serde_json::Value) -> Json {
    match v {
        serde_json::Value::Null => Json::Null,
        serde_json::Value::Bool(b) => Json::Bool(*b),
        serde_json::Value::Number(n) => Json::Number(if let Some(u) = n.as_u64() {
            JsonNumber::PosInt(u)
        } else if let Some(i) = n.as_i64() {
            JsonNumber::NegInt(i)
        } else {
            JsonNumber::Float(n.as_f64().unwrap().to_bits())
        }),
        serde_json::Value::String(s) => Json::Str(s.clone()),
        serde_json::Value::Array(items) => Json::Array(items.iter().map(to_json).collect()),
        serde_json::Value::Object(m) => {
            Json::Object(m.iter().map(|(k, v)| (k.clone(), to_json(v))).collect())
        }
    }
}

/// `serde_json`-style access for the assertions.
trait Access {
    fn at(&self, key: &str) -> &Json;
    fn nth(&self, i: usize) -> &Json;
    fn as_f64(&self) -> Option<f64>;
}

impl Access for Json {
    fn at(&self, key: &str) -> &Json {
        self.get(key).unwrap()
    }

    fn nth(&self, i: usize) -> &Json {
        &self.as_array().unwrap()[i]
    }

    fn as_f64(&self) -> Option<f64> {
        match self {
            Json::Number(JsonNumber::PosInt(n)) => Some(*n as f64),
            Json::Number(JsonNumber::NegInt(n)) => Some(*n as f64),
            Json::Number(JsonNumber::Float(bits)) => Some(f64::from_bits(*bits)),
            _ => None,
        }
    }
}


#[test]
fn test_remove_guid_simple() {
    let mut tree = json(
        r##"{
        "name": "Rectangle",
        "guid": {
            "localID": 3,
            "sessionID": 1
        },
        "visible": true
    }"##,
    );

    remove_guid_fields(&mut tree).unwrap();

    assert!(tree.get("guid").is_none());
    assert_eq!(tree.get("name").unwrap().as_str(), Some("Rectangle"));
    assert_eq!(tree.get("visible").unwrap().as_bool(), Some(true));
}

#[test]
fn test_remove_guid_nested() {
    let mut tree = json(
        r##"{
        "name": "Frame",
        "guid": {"localID": 1, "sessionID": 2},
        "children": [
            {
                "name": "Child1",
                "guid": {"localID": 3, "sessionID": 4}
            },
            {
                "name": "Child2",
                "guid": {"localID": 5, "sessionID": 6}
            }
        ]
    }"##,
    );

    remove_guid_fields(&mut tree).unwrap();

    assert!(tree.get("guid").is_none());
    assert!(tree.at("children").nth(0).get("guid").is_none());
    assert!(tree.at("children").nth(1).get("guid").is_none());
}

#[test]
fn preserves_guids_inside_components_subtrees() {
    // The components array carries master subtrees; renderers walk into
    // them when hydrating instances and need every descendant's guid
    // intact so symbolOverrides[*].guidPath references resolve.
    let mut tree = json(
        r##"{
        "document": {
            "guid": { "localID": 0, "sessionID": 0 },
            "name": "Document"
        },
        "components": [
            {
                "name": "MasterA",
                "guid": { "localID": 1, "sessionID": 2 },
                "children": [
                    {
                        "name": "InnerVector",
                        "guid": { "localID": 1594, "sessionID": 33 },
                        "fillPaints": [{"color": "#ffffff", "type": "SOLID"}]
                    }
                ]
            }
        ]
    }"##,
    );

    remove_guid_fields_outside_masters(&mut tree).unwrap();

    // Document's guid stripped (outside any master subtree).
    assert!(tree.at("document").get("guid").is_none());
    // Master root and descendant both keep their guids.
    assert!(tree.at("components").nth(0).get("guid").is_some());
    assert!(tree.at("components").nth(0).at("children").nth(0).get("guid").is_some());
}
