#![allow(unused_imports, dead_code)]

use fig2json::schema::transformations::{extract_styles};
use fig2json::{Json, JsonNumber};

/// Reads a JSON text into the library's document type.
fn json(text: &str) -> Json {
    to_json(&serde_json::from_str(text).unwrap())
}

fn to_json(v: &serde_json::Value) -> Json {
    match v {
        serde_json::Value::Null => Json::Null,
        serde_json::Value::Bool(b) => Json::Bool(*b),
        serde_json::Value::Number(n) => Json::Number(if let Some(u) = n.as_u64() {
            JsonNumber::PosInt(u)
        } else if let Some(i) = n.as_i64() {
            JsonNumber::NegInt(i)
        } else {
            JsonNumber::Float(n.as_f64().unwrap().to_bits())
        }),
        serde_json::Value::String(s) => Json::Str(s.clone()),
        serde_json::Value::Array(items) => Json::Array(items.iter().map(to_json).collect()),
        serde_json::Value::Object(m) => {
            Json::Object(m.iter().map(|(k, v)| (k.clone(), to_json(v))).collect())
        }
    }
}

/// `serde_json`-style access for the assertions.
trait Access {
    fn at(&self, key: &str) -> &Json;
    fn nth(&self, i: usize) -> &Json;
    fn as_f64(&self) -> Option<f64>;
}

impl Access for Json {
    fn at(&self, key: &str) -> &Json {
        self.get(key).unwrap()
    }

    fn nth(&self, i: usize) -> &Json {
        &self.as_array().unwrap()[i]
    }

    fn as_f64(&self) -> Option<f64> {
        match self {
            Json::Number(JsonNumber::PosInt(n)) => Some(*n as f64),
            Json::Number(JsonNumber::NegInt(n)) => Some(*n as f64),
            Json::Number(JsonNumber::Float(bits)) => Some(f64::from_bits(*bits)),
            _ => None,
        }
    }
}


#[test]
fn extracts_fill_style_by_guid_key() {
    let mut tree = json(
        r##"{
        "document": {
            "children": [
                {
                    "name": "Internal Only Canvas",
                    "internalOnly": true,
                    "children": [
                        {
                            "name": "Primary/Primary",
                            "guid": { "localID": 28, "sessionID": 39 },
                            "styleType": "FILL",
                            "fillPaints": [
                                { "color": "#04c88f", "type": "SOLID" }
                            ]
                        }
                    ]
                }
            ]
        }
    }"##,
    );

    extract_styles(&mut tree).unwrap();

    let styles = tree.get("styles").unwrap();
    let entry = styles.get("39:28").unwrap();
    assert_eq!(entry.get("name").unwrap().as_str(), Some("Primary/Primary"));
    assert_eq!(entry.get("styleType").unwrap().as_str(), Some("FILL"));
    assert!(entry.get("fillPaints").is_some());
}

#[test]
fn ignores_geometry_nodes_without_style_type() {
    let mut tree = json(
        r##"{
        "document": {
            "children": [
                {
                    "name": "Some Frame",
                    "guid": { "localID": 1, "sessionID": 2 },
                    "fillPaints": [{ "color": "#fff", "type": "SOLID" }]
                }
            ]
        }
    }"##,
    );

    extract_styles(&mut tree).unwrap();

    let styles = tree.get("styles").unwrap().as_object().unwrap();
    assert!(styles.is_empty());
}
