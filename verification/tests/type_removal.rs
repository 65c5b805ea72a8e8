#![allow(unused_imports, dead_code)]

use fig2json::schema::transformations::{remove_type};
use fig2json::{Json, JsonNumber};

/// Reads a JSON text into the library's document type.
fn json(text: &str) -> Json {
    to_json(&serde_json::from_str(text).unwrap())
}

fn to_json(v: &serde_json::Value) -> Json {
    match v {
        serde_json::Value::Null => Json::Null,
        serde_json::Value::Bool(b) => Json::Bool(*b),
        serde_json::Value::Number(n) => Json::Number(if let Some(u) = n.as_u64() {
            JsonNumber::PosInt(u)
        } else if let Some(i) = n.as_i64() {
            JsonNumber::NegInt(i)
        } else {
            JsonNumber::Float(n.as_f64().unwrap().to_bits())
        }),
        serde_json::Value::String(s) => Json::Str(s.clone()),
        serde_json::Value::Array(items) => Json::Array(items.iter().map(to_json).collect()),
        serde_json::Value::Object(m) => {
            Json::Object(m.iter().map(|(k, v)| (k.clone(), to_json(v))).collect())
        }
    }
}

/// `serde_json`-style access for the assertions.
trait Access {
    fn at(&self, key: &str) -> &Json;
    fn nth(&self, i: usize) -> &Json;
    fn as_f64(&self) -> Option<f64>;
}

impl Access for Json {
    fn at(&self, key: &str) -> &Json {
        self.get(key).unwrap()
    }

    fn nth(&self, i: usize) -> &Json {
        &self.as_array().unwrap()[i]
    }

    fn as_f64(&self) -> Option<f64> {
        match self {
            Json::Number(JsonNumber::PosInt(n)) => Some(*n as f64),
            Json::Number(JsonNumber::NegInt(n)) => Some(*n as f64),
            Json::Number(JsonNumber::Float(bits)) => Some(f64::from_bits(*bits)),
            _ => None,
        }
    }
}


#[test]
fn test_removes_type_from_frame() {
    let mut tree = json(
        r##"{
        "name": "Frame",
        "type": "FRAME",
        "size": {"x": 100.0, "y": 100.0}
    }"##,
    );

    remove_type(&mut tree).unwrap();

    assert!(tree.get("type").is_none());
    assert_eq!(tree.get("name").unwrap().as_str(), Some("Frame"));
    assert!(tree.get("size").is_some());
}

#[test]
fn test_removes_type_from_instance() {
    let mut tree = json(
        r##"{
        "name": "Button",
        "type": "INSTANCE",
        "size": {"x": 120.0, "y": 40.0}
    }"##,
    );

    remove_type(&mut tree).unwrap();

    assert!(tree.get("type").is_none());
    assert_eq!(tree.get("name").unwrap().as_str(), Some("Button"));
}

#[test]
fn test_removes_type_from_text() {
    let mut tree = json(
        r##"{
        "name": "Label",
        "type": "TEXT",
        "fontSize": 14.0
    }"##,
    );

    remove_type(&mut tree).unwrap();

    assert!(tree.get("type").is_none());
    assert_eq!(tree.get("name").unwrap().as_str(), Some("Label"));
    assert_eq!(tree.get("fontSize").unwrap().as_f64(), Some(14.0));
}

#[test]
fn test_removes_type_from_vector() {
    let mut tree = json(
        r##"{
        "name": "Icon",
        "type": "VECTOR"
    }"##,
    );

    remove_type(&mut tree).unwrap();

    assert!(tree.get("type").is_none());
    assert_eq!(tree.get("name").unwrap().as_str(), Some("Icon"));
}

#[test]
fn test_handles_nested_objects() {
    let mut tree = json(
        r##"{
        "name": "Parent",
        "type": "FRAME",
        "children": [
            {
                "name": "Child1",
                "type": "INSTANCE"
            },
            {
                "name": "Child2",
                "type": "TEXT"
            }
        ]
    }"##,
    );

    remove_type(&mut tree).unwrap();

    assert!(tree.get("type").is_none());
    let children = tree.get("children").unwrap().as_array().unwrap();
    assert!(children[0].get("type").is_none());
    assert!(children[1].get("type").is_none());
    assert_eq!(children[0].get("name").unwrap().as_str(), Some("Child1"));
    assert_eq!(children[1].get("name").unwrap().as_str(), Some("Child2"));
}

#[test]
fn test_handles_deeply_nested_structures() {
    let mut tree = json(
        r##"{
        "name": "Root",
        "type": "FRAME",
        "children": [
            {
                "name": "Level1",
                "type": "FRAME",
                "children": [
                    {
                        "name": "Level2",
                        "type": "RECTANGLE"
                    }
                ]
            }
        ]
    }"##,
    );

    remove_type(&mut tree).unwrap();

    assert!(tree.get("type").is_none());
    let level1 = &tree.get("children").unwrap().as_array().unwrap()[0];
    assert!(level1.get("type").is_none());
    let level2 = &level1.get("children").unwrap().as_array().unwrap()[0];
    assert!(level2.get("type").is_none());
    assert_eq!(level2.get("name").unwrap().as_str(), Some("Level2"));
}

#[test]
fn test_handles_missing_type() {
    let mut tree = json(
        r##"{
        "name": "Frame",
        "size": {"x": 100.0, "y": 100.0}
    }"##,
    );

    remove_type(&mut tree).unwrap();

    assert_eq!(tree.get("name").unwrap().as_str(), Some("Frame"));
    assert!(tree.get("size").is_some());
}

#[test]
fn test_handles_empty_object() {
    let mut tree = json(
        r##"{}"##,
    );

    remove_type(&mut tree).unwrap();

    assert_eq!(tree.as_object().unwrap().len(), 0);
}

#[test]
fn test_preserves_other_fields() {
    let mut tree = json(
        r##"{
        "name": "Frame",
        "type": "FRAME",
        "stackMode": "HORIZONTAL",
        "size": {"x": 100.0, "y": 100.0},
        "transform": {"x": 10.0, "y": 20.0},
        "fillPaints": [{"color": "#ffffff", "type": "SOLID"}]
    }"##,
    );

    remove_type(&mut tree).unwrap();

    assert!(tree.get("type").is_none());
    assert_eq!(tree.get("name").unwrap().as_str(), Some("Frame"));
    assert_eq!(tree.get("stackMode").unwrap().as_str(), Some("HORIZONTAL"));
    assert!(tree.get("size").is_some());
    assert!(tree.get("transform").is_some());
    assert!(tree.get("fillPaints").is_some());

    // Paint types are preserved — without them, renderers can't tell a
    // linear gradient from a radial one (both share the `stops` field).
    let paints = tree.get("fillPaints").unwrap().as_array().unwrap();
    assert_eq!(paints[0].get("type").and_then(|v| v.as_str()), Some("SOLID"));
    assert_eq!(paints[0].get("color").unwrap().as_str(), Some("#ffffff"));
}

#[test]
fn test_handles_multiple_types_in_array() {
    let mut tree = json(
        r##"{
        "children": [
            {"name": "A", "type": "FRAME"},
            {"name": "B", "type": "TEXT"},
            {"name": "C", "type": "RECTANGLE"},
            {"name": "D", "type": "INSTANCE"},
            {"name": "E"}
        ]
    }"##,
    );

    remove_type(&mut tree).unwrap();

    let children = tree.get("children").unwrap().as_array().unwrap();
    for child in children {
        assert!(child.get("type").is_none());
        assert!(child.get("name").is_some());
    }
}

#[test]
fn test_removes_all_node_types() {
    let mut tree = json(
        r##"{
        "children": [
            {"name": "Frame", "type": "FRAME"},
            {"name": "Instance", "type": "INSTANCE"},
            {"name": "Text", "type": "TEXT"},
            {"name": "Rectangle", "type": "RECTANGLE"},
            {"name": "Ellipse", "type": "ELLIPSE"},
            {"name": "Vector", "type": "VECTOR"},
            {"name": "Group", "type": "GROUP"}
        ]
    }"##,
    );

    remove_type(&mut tree).unwrap();

    let children = tree.get("children").unwrap().as_array().unwrap();
    for child in children {
        assert!(child.get("type").is_none());
    }
}

#[test]
fn test_preserves_type_inside_fill_paints() {
    // Paint.type distinguishes SOLID / GRADIENT_LINEAR / GRADIENT_RADIAL
    // etc. — all gradient paints share the `stops` field, so renderers
    // can't tell them apart without the type enum. Must survive.
    let mut tree = json(
        r##"{
        "name": "Rectangle",
        "type": "RECTANGLE",
        "fillPaints": [
            { "type": "GRADIENT_RADIAL", "stops": [], "opacity": 1.0 },
            { "type": "SOLID", "color": "#ff0000" }
        ],
        "strokePaints": [
            { "type": "IMAGE", "image": { "filename": "foo.png" } }
        ]
    }"##,
    );

    remove_type(&mut tree).unwrap();

    // Node-level type is still removed.
    assert!(tree.get("type").is_none());
    // Paint types are preserved.
    let fills = tree.at("fillPaints").as_array().unwrap();
    assert_eq!(fills[0].at("type").as_str(), Some("GRADIENT_RADIAL"));
    assert_eq!(fills[1].at("type").as_str(), Some("SOLID"));
    let strokes = tree.at("strokePaints").as_array().unwrap();
    assert_eq!(strokes[0].at("type").as_str(), Some("IMAGE"));
}
