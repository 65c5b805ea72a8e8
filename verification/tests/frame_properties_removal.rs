#![allow(unused_imports, dead_code)]

use fig2json::schema::transformations::{remove_frame_properties};
use fig2json::{Json, JsonNumber};

/// Reads a JSON text into the library's document type.
fn json(text: &str) -> Json {
    to_json(&serde_json::from_str(text).unwrap())
}

fn to_json(v: &serde_json::Value) -> Json {
    match v {
        serde_json::Value::Null => Json::Null,
        serde_json::Value::Bool(b) => Json::Bool(*b),
        serde_json::Value::Number(n) => Json::Number(if let Some(u) = n.as_u64() {
            JsonNumber::PosInt(u)
        } else if let Some(i) = n.as_i64() {
            JsonNumber::NegInt(i)
        } else {
            JsonNumber::Float(n.as_f64().unwrap().to_bits())
        }),
        serde_json::Value::String(s) => Json::Str(s.clone()),
        serde_json::Value::Array(items) => Json::Array(items.iter().map(to_json).collect()),
        serde_json::Value::Object(m) => {
            Json::Object(m.iter().map(|(k, v)| (k.clone(), to_json(v))).collect())
        }
    }
}

/// `serde_json`-style access for the assertions.
trait Access {
    fn at(&self, key: &str) -> &Json;
    fn nth(&self, i: usize) -> &Json;
    fn as_f64(&self) -> Option<f64>;
}

impl Access for Json {
    fn at(&self, key: &str) -> &Json {
        self.get(key).unwrap()
    }

    fn nth(&self, i: usize) -> &Json {
        &self.as_array().unwrap()[i]
    }

    fn as_f64(&self) -> Option<f64> {
        match self {
            Json::Number(JsonNumber::PosInt(n)) => Some(*n as f64),
            Json::Number(JsonNumber::NegInt(n)) => Some(*n as f64),
            Json::Number(JsonNumber::Float(bits)) => Some(f64::from_bits(*bits)),
            _ => None,
        }
    }
}


#[test]
fn test_preserve_frame_mask_disabled() {
    let mut tree = json(
        r##"{
        "name": "Frame",
        "frameMaskDisabled": false,
        "visible": true
    }"##,
    );

    remove_frame_properties(&mut tree).unwrap();

    // frameMaskDisabled is kept — pixel renderers need it to decide
    // whether to clip descendants to the frame's shape.
    assert_eq!(tree.get("frameMaskDisabled").and_then(|v| v.as_bool()), Some(false));
    assert_eq!(tree.get("name").unwrap().as_str(), Some("Frame"));
    assert_eq!(tree.get("visible").unwrap().as_bool(), Some(true));
}

#[test]
fn test_remove_target_aspect_ratio() {
    let mut tree = json(
        r##"{
        "name": "Image",
        "targetAspectRatio": {
            "value": {
                "x": 300.0,
                "y": 300.0
            }
        },
        "opacity": 1.0
    }"##,
    );

    remove_frame_properties(&mut tree).unwrap();

    assert!(tree.get("targetAspectRatio").is_none());
    assert_eq!(tree.get("name").unwrap().as_str(), Some("Image"));
    assert_eq!(tree.get("opacity").unwrap().as_f64(), Some(1.0));
}

#[test]
fn test_remove_target_aspect_ratio_keeps_mask_disabled() {
    let mut tree = json(
        r##"{
        "name": "Frame",
        "frameMaskDisabled": false,
        "targetAspectRatio": {
            "value": {
                "x": 16.0,
                "y": 9.0
            }
        },
        "type": "FRAME"
    }"##,
    );

    remove_frame_properties(&mut tree).unwrap();

    assert_eq!(tree.get("frameMaskDisabled").and_then(|v| v.as_bool()), Some(false));
    assert!(tree.get("targetAspectRatio").is_none());
    assert_eq!(tree.get("name").unwrap().as_str(), Some("Frame"));
    assert_eq!(tree.get("type").unwrap().as_str(), Some("FRAME"));
}

#[test]
fn test_nested_frame_properties() {
    let mut tree = json(
        r##"{
        "name": "Root",
        "children": [
            {
                "name": "Child1",
                "frameMaskDisabled": false
            },
            {
                "name": "Child2",
                "children": [
                    {
                        "name": "DeepChild",
                        "targetAspectRatio": {
                            "value": {
                                "x": 100.0,
                                "y": 100.0
                            }
                        }
                    }
                ]
            }
        ]
    }"##,
    );

    remove_frame_properties(&mut tree).unwrap();

    // frameMaskDisabled preserved on Child1
    assert_eq!(
        tree.at("children").nth(0).get("frameMaskDisabled").and_then(|v| v.as_bool()),
        Some(false)
    );
    assert_eq!(
        tree.at("children").nth(0).get("name").unwrap().as_str(),
        Some("Child1")
    );

    // targetAspectRatio removed on DeepChild
    let deep_child = tree.at("children").nth(1).at("children").nth(0);
    assert!(deep_child.get("targetAspectRatio").is_none());
    assert_eq!(deep_child.get("name").unwrap().as_str(), Some("DeepChild"));
}

#[test]
fn test_no_frame_properties() {
    let mut tree = json(
        r##"{
        "name": "Rectangle",
        "width": 100,
        "height": 200,
        "visible": true
    }"##,
    );

    remove_frame_properties(&mut tree).unwrap();

    // Tree without frame properties should be unchanged
    assert_eq!(tree.get("name").unwrap().as_str(), Some("Rectangle"));
    assert_eq!(tree.get("width").unwrap().as_i64(), Some(100));
    assert_eq!(tree.get("height").unwrap().as_i64(), Some(200));
    assert_eq!(tree.get("visible").unwrap().as_bool(), Some(true));
}

#[test]
fn test_preserves_other_frame_fields() {
    let mut tree = json(
        r##"{
        "name": "Ecran 1",
        "frameMaskDisabled": false,
        "type": "FRAME",
        "size": {
            "x": 1170.0,
            "y": 2532.0
        },
        "fillPaints": [
            {
                "color": "#ffffff",
                "opacity": 1.0,
                "visible": true
            }
        ]
    }"##,
    );

    remove_frame_properties(&mut tree).unwrap();

    // frameMaskDisabled preserved
    assert_eq!(tree.get("frameMaskDisabled").and_then(|v| v.as_bool()), Some(false));

    // Other fields preserved
    assert_eq!(tree.get("name").unwrap().as_str(), Some("Ecran 1"));
    assert_eq!(tree.get("type").unwrap().as_str(), Some("FRAME"));
    assert!(tree.get("size").is_some());
    assert!(tree.get("fillPaints").is_some());
}

#[test]
fn test_multiple_frames() {
    let mut tree = json(
        r##"{
        "items": [
            {
                "name": "Frame1",
                "frameMaskDisabled": false
            },
            {
                "name": "Frame2",
                "frameMaskDisabled": true
            },
            {
                "name": "Image1",
                "targetAspectRatio": {
                    "value": {
                        "x": 4.0,
                        "y": 3.0
                    }
                }
            }
        ]
    }"##,
    );

    remove_frame_properties(&mut tree).unwrap();

    // frameMaskDisabled preserved everywhere; targetAspectRatio removed.
    assert_eq!(
        tree.at("items").nth(0).get("frameMaskDisabled").and_then(|v| v.as_bool()),
        Some(false)
    );
    assert_eq!(
        tree.at("items").nth(0).get("name").unwrap().as_str(),
        Some("Frame1")
    );

    assert_eq!(
        tree.at("items").nth(1).get("frameMaskDisabled").and_then(|v| v.as_bool()),
        Some(true)
    );
    assert_eq!(
        tree.at("items").nth(1).get("name").unwrap().as_str(),
        Some("Frame2")
    );

    assert!(tree.at("items").nth(2).get("targetAspectRatio").is_none());
    assert_eq!(
        tree.at("items").nth(2).get("name").unwrap().as_str(),
        Some("Image1")
    );
}

#[test]
fn test_frame_mask_disabled_preserved_for_both_values() {
    let mut tree = json(
        r##"{
        "frame1": {
            "frameMaskDisabled": false,
            "name": "Frame1"
        },
        "frame2": {
            "frameMaskDisabled": true,
            "name": "Frame2"
        }
    }"##,
    );

    remove_frame_properties(&mut tree).unwrap();

    // Both true and false values are preserved — the renderer needs them
    // to know which frames clip their descendants.
    assert_eq!(
        tree.at("frame1").get("frameMaskDisabled").and_then(|v| v.as_bool()),
        Some(false)
    );
    assert_eq!(tree.at("frame1").get("name").unwrap().as_str(), Some("Frame1"));

    assert_eq!(
        tree.at("frame2").get("frameMaskDisabled").and_then(|v| v.as_bool()),
        Some(true)
    );
    assert_eq!(tree.at("frame2").get("name").unwrap().as_str(), Some("Frame2"));
}

#[test]
fn test_empty_object() {
    let mut tree = json(
        r##"{}"##,
    );

    remove_frame_properties(&mut tree).unwrap();

    // Empty object should remain empty
    assert_eq!(tree.as_object().unwrap().len(), 0);
}
