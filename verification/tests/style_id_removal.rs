#![allow(unused_imports, dead_code)]

use fig2json::schema::transformations::{remove_style_ids};
use fig2json::{Json, JsonNumber};

/// Reads a JSON text into the library's document type.
fn json(text: &str) -> Json {
    to_json(&serde_json::from_str(text).unwrap())
}

fn to_json(v: &serde_json::Value) -> Json {
    match v {
        serde_json::Value::Null => Json::Null,
        serde_json::Value::Bool(b) => Json::Bool(*b),
        serde_json::Value::Number(n) => Json::Number(if let Some(u) = n.as_u64() {
            JsonNumber::PosInt(u)
        } else if let Some(i) = n.as_i64() {
            JsonNumber::NegInt(i)
        } else {
            JsonNumber::Float(n.as_f64().unwrap().to_bits())
        }),
        serde_json::Value::String(s) => Json::Str(s.clone()),
        serde_json::Value::Array(items) => Json::Array(items.iter().map(to_json).collect()),
        serde_json::Value::Object(m) => {
            Json::Object(m.iter().map(|(k, v)| (k.clone(), to_json(v))).collect())
        }
    }
}

/// `serde_json`-style access for the assertions.
trait Access {
    fn at(&self, key: &str) -> &Json;
    fn nth(&self, i: usize) -> &Json;
    fn as_f64(&self) -> Option<f64>;
}

impl Access for Json {
    fn at(&self, key: &str) -> &Json {
        self.get(key).unwrap()
    }

    fn nth(&self, i: usize) -> &Json {
        &self.as_array().unwrap()[i]
    }

    fn as_f64(&self) -> Option<f64> {
        match self {
            Json::Number(JsonNumber::PosInt(n)) => Some(*n as f64),
            Json::Number(JsonNumber::NegInt(n)) => Some(*n as f64),
            Json::Number(JsonNumber::Float(bits)) => Some(f64::from_bits(*bits)),
            _ => None,
        }
    }
}


#[test]
fn rewrites_local_guid_fill_ref_to_string() {
    let mut tree = json(
        r##"{
        "name": "Rectangle",
        "fillPaints": [{"color": "#ff0000", "type": "SOLID"}],
        "styleIdForFill": {
            "guid": { "localID": 28, "sessionID": 39 }
        },
        "visible": true
    }"##,
    );

    remove_style_ids(&mut tree).unwrap();

    assert_eq!(
        tree.get("styleIdForFill").unwrap().as_str(),
        Some("39:28")
    );
    assert_eq!(tree.get("name").unwrap().as_str(), Some("Rectangle"));
    assert!(tree.get("fillPaints").is_some());
}

#[test]
fn rewrites_text_and_stroke_refs() {
    let mut tree = json(
        r##"{
        "styleIdForText": { "guid": { "localID": 1, "sessionID": 2 } },
        "styleIdForStrokeFill": { "guid": { "localID": 3, "sessionID": 4 } }
    }"##,
    );

    remove_style_ids(&mut tree).unwrap();

    assert_eq!(tree.get("styleIdForText").unwrap().as_str(), Some("2:1"));
    assert_eq!(
        tree.get("styleIdForStrokeFill").unwrap().as_str(),
        Some("4:3")
    );
}

#[test]
fn leaves_cross_file_assetref_alone() {
    // Cross-file library refs use `assetRef` instead of `guid`. The
    // referenced style data isn't in this file at all, so we leave the
    // record as-is rather than fabricate a key that resolves to nothing.
    let mut tree = json(
        r##"{
        "styleIdForFill": {
            "assetRef": { "key": "abc123", "version": "1:77" }
        }
    }"##,
    );

    remove_style_ids(&mut tree).unwrap();

    let v = tree.get("styleIdForFill").unwrap();
    assert!(v.is_object());
    assert!(v.get("assetRef").is_some());
}

#[test]
fn rewrites_in_symbol_overrides() {
    let mut tree = json(
        r##"{
        "symbolData": {
            "symbolOverrides": [
                {
                    "styleIdForFill": { "guid": { "localID": 28, "sessionID": 39 } }
                },
                {
                    "styleIdForText": { "guid": { "localID": 5, "sessionID": 6 } },
                    "fontSize": 12.0
                }
            ]
        }
    }"##,
    );

    remove_style_ids(&mut tree).unwrap();

    assert_eq!(
        tree.at("symbolData").at("symbolOverrides").nth(0).at("styleIdForFill").as_str(),
        Some("39:28")
    );
    assert_eq!(
        tree.at("symbolData").at("symbolOverrides").nth(1).at("styleIdForText").as_str(),
        Some("6:5")
    );
    assert_eq!(
        tree.at("symbolData").at("symbolOverrides").nth(1).at("fontSize").as_f64(),
        Some(12.0)
    );
}

#[test]
fn nodes_without_style_refs_unchanged() {
    let mut tree = json(
        r##"{
        "name": "Frame",
        "type": "FRAME",
        "visible": true
    }"##,
    );

    remove_style_ids(&mut tree).unwrap();

    assert!(tree.get("styleIdForFill").is_none());
    assert_eq!(tree.get("name").unwrap().as_str(), Some("Frame"));
}
