#![allow(unused_imports, dead_code)]

use fig2json::schema::transformations::{remove_stroke_properties};
use fig2json::{Json, JsonNumber};

/// Reads a JSON text into the library's document type.
fn json(text: &str) -> Json {
    to_json(&serde_json::from_str(text).unwrap())
}

fn to_json(v: &serde_json::Value) -> Json {
    match v {
        serde_json::Value::Null => Json::Null,
        serde_json::Value::Bool(b) => Json::Bool(*b),
        serde_json::Value::Number(n) => Json::Number(if let Some(u) = n.as_u64() {
            JsonNumber::PosInt(u)
        } else if let Some(i) = n.as_i64() {
            JsonNumber::NegInt(i)
        } else {
            JsonNumber::Float(n.as_f64().unwrap().to_bits())
        }),
        serde_json::Value::String(s) => Json::Str(s.clone()),
        serde_json::Value::Array(items) => Json::Array(items.iter().map(to_json).collect()),
        serde_json::Value::Object(m) => {
            Json::Object(m.iter().map(|(k, v)| (k.clone(), to_json(v))).collect())
        }
    }
}

/// `serde_json`-style access for the assertions.
trait Access {
    fn at(&self, key: &str) -> &Json;
    fn nth(&self, i: usize) -> &Json;
    fn as_f64(&self) -> Option<f64>;
}

impl Access for Json {
    fn at(&self, key: &str) -> &Json {
        self.get(key).unwrap()
    }

    fn nth(&self, i: usize) -> &Json {
        &self.as_array().unwrap()[i]
    }

    fn as_f64(&self) -> Option<f64> {
        match self {
            Json::Number(JsonNumber::PosInt(n)) => Some(*n as f64),
            Json::Number(JsonNumber::NegInt(n)) => Some(*n as f64),
            Json::Number(JsonNumber::Float(bits)) => Some(f64::from_bits(*bits)),
            _ => None,
        }
    }
}


#[test]
fn test_preserves_stroke_align() {
    let mut tree = json(
        r##"{
        "name": "Rectangle",
        "strokeAlign": "INSIDE",
        "visible": true
    }"##,
    );

    remove_stroke_properties(&mut tree).unwrap();

    assert_eq!(tree.get("strokeAlign").and_then(|v| v.as_str()), Some("INSIDE"));
}

#[test]
fn test_preserves_stroke_join() {
    let mut tree = json(
        r##"{
        "name": "Line",
        "strokeJoin": "MITER",
        "opacity": 1.0
    }"##,
    );

    remove_stroke_properties(&mut tree).unwrap();

    assert_eq!(tree.get("strokeJoin").and_then(|v| v.as_str()), Some("MITER"));
}

#[test]
fn test_preserve_stroke_weight() {
    let mut tree = json(
        r##"{
        "name": "Shape",
        "strokeWeight": 1.0,
        "visible": true
    }"##,
    );

    remove_stroke_properties(&mut tree).unwrap();

    // strokeWeight is kept for downstream rasterisers.
    assert_eq!(tree.get("strokeWeight").and_then(|v| v.as_f64()), Some(1.0));
    assert_eq!(tree.get("name").unwrap().as_str(), Some("Shape"));
    assert_eq!(tree.get("visible").unwrap().as_bool(), Some(true));
}

#[test]
fn test_preserves_all_stroke_fields() {
    let mut tree = json(
        r##"{
        "name": "Rectangle",
        "strokeAlign": "CENTER",
        "strokeJoin": "BEVEL",
        "strokeWeight": 2.5
    }"##,
    );

    remove_stroke_properties(&mut tree).unwrap();

    assert_eq!(tree.get("strokeAlign").and_then(|v| v.as_str()), Some("CENTER"));
    assert_eq!(tree.get("strokeJoin").and_then(|v| v.as_str()), Some("BEVEL"));
    assert_eq!(tree.get("strokeWeight").and_then(|v| v.as_f64()), Some(2.5));
}

#[test]
fn test_no_stroke_properties() {
    let mut tree = json(
        r##"{
        "name": "Rectangle",
        "width": 100,
        "height": 200,
        "visible": true
    }"##,
    );

    remove_stroke_properties(&mut tree).unwrap();

    // Tree without stroke properties should be unchanged
    assert_eq!(tree.get("name").unwrap().as_str(), Some("Rectangle"));
    assert_eq!(tree.get("width").unwrap().as_i64(), Some(100));
    assert_eq!(tree.get("height").unwrap().as_i64(), Some(200));
    assert_eq!(tree.get("visible").unwrap().as_bool(), Some(true));
}

#[test]
fn test_preserves_stroke_paints() {
    let mut tree = json(
        r##"{
        "name": "Line",
        "strokeWeight": 1.0,
        "strokePaints": [{ "color": "#000000" }]
    }"##,
    );

    remove_stroke_properties(&mut tree).unwrap();

    assert_eq!(tree.get("strokeWeight").and_then(|v| v.as_f64()), Some(1.0));
    assert!(tree.get("strokePaints").is_some());
    assert_eq!(tree.at("strokePaints").nth(0).at("color").as_str(), Some("#000000"));
}
