#![allow(unused_imports, dead_code)]

use fig2json::schema::transformations::{remove_text_metadata_fields};
use fig2json::{Json, JsonNumber};

/// Reads a JSON text into the library's document type.
fn json(text: &str) -> Json {
    to_json(&serde_json::from_str(text).unwrap())
}

fn to_json(v: &serde_json::Value) -> Json {
    match v {
        serde_json::Value::Null => Json::Null,
        serde_json::Value::Bool(b) => Json::Bool(*b),
        serde_json::Value::Number(n) => Json::Number(if let Some(u) = n.as_u64() {
            JsonNumber::PosInt(u)
        } else if let Some(i) = n.as_i64() {
            JsonNumber::NegInt(i)
        } else {
            JsonNumber::Float(n.as_f64().unwrap().to_bits())
        }),
        serde_json::Value::String(s) => Json::Str(s.clone()),
        serde_json::Value::Array(items) => Json::Array(items.iter().map(to_json).collect()),
        serde_json::Value::Object(m) => {
            Json::Object(m.iter().map(|(k, v)| (k.clone(), to_json(v))).collect())
        }
    }
}

/// `serde_json`-style access for the assertions.
trait Access {
    fn at(&self, key: &str) -> &Json;
    fn nth(&self, i: usize) -> &Json;
    fn as_f64(&self) -> Option<f64>;
}

impl Access for Json {
    fn at(&self, key: &str) -> &Json {
        self.get(key).unwrap()
    }

    fn nth(&self, i: usize) -> &Json {
        &self.as_array().unwrap()[i]
    }

    fn as_f64(&self) -> Option<f64> {
        match self {
            Json::Number(JsonNumber::PosInt(n)) => Some(*n as f64),
            Json::Number(JsonNumber::NegInt(n)) => Some(*n as f64),
            Json::Number(JsonNumber::Float(bits)) => Some(f64::from_bits(*bits)),
            _ => None,
        }
    }
}


#[test]
fn test_remove_text_bidi_version() {
    let mut tree = json(
        r##"{
        "name": "Text",
        "textBidiVersion": 1,
        "fontSize": 16.0
    }"##,
    );

    remove_text_metadata_fields(&mut tree).unwrap();

    assert!(tree.get("textBidiVersion").is_none());
    assert_eq!(tree.get("name").unwrap().as_str(), Some("Text"));
    assert_eq!(tree.get("fontSize").unwrap().as_f64(), Some(16.0));
}

#[test]
fn test_remove_text_layout_versions() {
    let mut tree = json(
        r##"{
        "name": "Text",
        "textExplicitLayoutVersion": 1,
        "textUserLayoutVersion": 5,
        "visible": true
    }"##,
    );

    remove_text_metadata_fields(&mut tree).unwrap();

    assert!(tree.get("textExplicitLayoutVersion").is_none());
    assert!(tree.get("textUserLayoutVersion").is_none());
    assert_eq!(tree.get("name").unwrap().as_str(), Some("Text"));
    assert_eq!(tree.get("visible").unwrap().as_bool(), Some(true));
}

#[test]
fn test_remove_font_variants() {
    let mut tree = json(
        r##"{
        "name": "Text",
        "fontVariantCommonLigatures": true,
        "fontVariantContextualLigatures": true,
        "fontVariantNumericFigure": "LINING",
        "fontVariantNumericSpacing": "PROPORTIONAL",
        "fontVariations": [],
        "fontVersion": "1.0",
        "fontSize": 14.0
    }"##,
    );

    remove_text_metadata_fields(&mut tree).unwrap();

    assert!(tree.get("fontVariantCommonLigatures").is_none());
    assert!(tree.get("fontVariantContextualLigatures").is_none());
    assert!(tree.get("fontVariantNumericFigure").is_none());
    assert!(tree.get("fontVariantNumericSpacing").is_none());
    assert!(tree.get("fontVariations").is_none());
    assert!(tree.get("fontVersion").is_none());
    assert_eq!(tree.get("name").unwrap().as_str(), Some("Text"));
    assert_eq!(tree.get("fontSize").unwrap().as_f64(), Some(14.0));
}

#[test]
fn test_remove_emoji_image_set() {
    let mut tree = json(
        r##"{
        "name": "Text",
        "emojiImageSet": {
            "__enum__": "EmojiImageSet",
            "value": "APPLE"
        },
        "visible": true
    }"##,
    );

    remove_text_metadata_fields(&mut tree).unwrap();

    assert!(tree.get("emojiImageSet").is_none());
    assert_eq!(tree.get("name").unwrap().as_str(), Some("Text"));
    assert_eq!(tree.get("visible").unwrap().as_bool(), Some(true));
}

#[test]
fn test_remove_auto_rename_and_tracking() {
    let mut tree = json(
        r##"{
        "name": "Text",
        "autoRename": true,
        "textTracking": 0.0,
        "fontSize": 12.0
    }"##,
    );

    remove_text_metadata_fields(&mut tree).unwrap();

    assert!(tree.get("autoRename").is_none());
    assert!(tree.get("textTracking").is_none());
    assert_eq!(tree.get("name").unwrap().as_str(), Some("Text"));
    assert_eq!(tree.get("fontSize").unwrap().as_f64(), Some(12.0));
}

#[test]
fn test_remove_text_decoration_skip_ink() {
    let mut tree = json(
        r##"{
        "name": "Text",
        "textDecorationSkipInk": true,
        "visible": true
    }"##,
    );

    remove_text_metadata_fields(&mut tree).unwrap();

    assert!(tree.get("textDecorationSkipInk").is_none());
    assert_eq!(tree.get("name").unwrap().as_str(), Some("Text"));
    assert_eq!(tree.get("visible").unwrap().as_bool(), Some(true));
}

#[test]
fn test_remove_all_text_metadata() {
    let mut tree = json(
        r##"{
        "name": "ComplexText",
        "textBidiVersion": 1,
        "textExplicitLayoutVersion": 1,
        "textUserLayoutVersion": 5,
        "textDecorationSkipInk": true,
        "fontVariantCommonLigatures": true,
        "fontVariantContextualLigatures": true,
        "fontVariations": [],
        "fontVersion": "",
        "emojiImageSet": {"__enum__": "EmojiImageSet", "value": "APPLE"},
        "autoRename": true,
        "textTracking": 0.0,
        "fontSize": 128.0
    }"##,
    );

    remove_text_metadata_fields(&mut tree).unwrap();

    // All metadata fields removed
    assert!(tree.get("textBidiVersion").is_none());
    assert!(tree.get("textExplicitLayoutVersion").is_none());
    assert!(tree.get("textUserLayoutVersion").is_none());
    assert!(tree.get("textDecorationSkipInk").is_none());
    assert!(tree.get("fontVariantCommonLigatures").is_none());
    assert!(tree.get("fontVariantContextualLigatures").is_none());
    assert!(tree.get("fontVariations").is_none());
    assert!(tree.get("fontVersion").is_none());
    assert!(tree.get("emojiImageSet").is_none());
    assert!(tree.get("autoRename").is_none());
    assert!(tree.get("textTracking").is_none());

    // Other fields preserved
    assert_eq!(tree.get("name").unwrap().as_str(), Some("ComplexText"));
    assert_eq!(tree.get("fontSize").unwrap().as_f64(), Some(128.0));
}

#[test]
fn test_nested_text_metadata() {
    let mut tree = json(
        r##"{
        "name": "Root",
        "children": [
            {
                "name": "Child1",
                "textBidiVersion": 1,
                "autoRename": true
            },
            {
                "name": "Child2",
                "children": [
                    {
                        "name": "DeepChild",
                        "textUserLayoutVersion": 5,
                        "textTracking": 0.0
                    }
                ]
            }
        ]
    }"##,
    );

    remove_text_metadata_fields(&mut tree).unwrap();

    // Check first nested text
    assert!(tree.at("children").nth(0).get("textBidiVersion").is_none());
    assert!(tree.at("children").nth(0).get("autoRename").is_none());
    assert_eq!(
        tree.at("children").nth(0).get("name").unwrap().as_str(),
        Some("Child1")
    );

    // Check deeply nested text
    let deep_child = tree.at("children").nth(1).at("children").nth(0);
    assert!(deep_child.get("textUserLayoutVersion").is_none());
    assert!(deep_child.get("textTracking").is_none());
    assert_eq!(deep_child.get("name").unwrap().as_str(), Some("DeepChild"));
}

#[test]
fn test_no_text_metadata() {
    let mut tree = json(
        r##"{
        "name": "Rectangle",
        "width": 100,
        "height": 200,
        "visible": true
    }"##,
    );

    remove_text_metadata_fields(&mut tree).unwrap();

    // Tree without text metadata should be unchanged
    assert_eq!(tree.get("name").unwrap().as_str(), Some("Rectangle"));
    assert_eq!(tree.get("width").unwrap().as_i64(), Some(100));
    assert_eq!(tree.get("height").unwrap().as_i64(), Some(200));
    assert_eq!(tree.get("visible").unwrap().as_bool(), Some(true));
}

#[test]
fn test_preserves_important_text_fields() {
    let mut tree = json(
        r##"{
        "name": "Hello",
        "autoRename": true,
        "textTracking": 0.0,
        "fontName": {
            "family": "Inter",
            "style": "Regular"
        },
        "fontSize": 128.0,
        "textData": {
            "characters": "Hello"
        }
    }"##,
    );

    remove_text_metadata_fields(&mut tree).unwrap();

    // Metadata removed
    assert!(tree.get("autoRename").is_none());
    assert!(tree.get("textTracking").is_none());

    // Important fields preserved
    assert_eq!(tree.get("name").unwrap().as_str(), Some("Hello"));
    assert!(tree.get("fontName").is_some());
    assert_eq!(tree.get("fontSize").unwrap().as_f64(), Some(128.0));
    assert!(tree.get("textData").is_some());
    assert_eq!(
        tree.at("textData").at("characters").as_str(),
        Some("Hello")
    );
}

#[test]
fn test_preserve_text_align_vertical() {
    let mut tree = json(
        r##"{
        "name": "Text",
        "textAlignVertical": "TOP",
        "fontSize": 16.0
    }"##,
    );

    remove_text_metadata_fields(&mut tree).unwrap();

    assert_eq!(
        tree.get("textAlignVertical").and_then(|v| v.as_str()),
        Some("TOP")
    );
    assert_eq!(tree.get("name").unwrap().as_str(), Some("Text"));
    assert_eq!(tree.get("fontSize").unwrap().as_f64(), Some(16.0));
}

#[test]
fn test_preserve_text_auto_resize() {
    let mut tree = json(
        r##"{
        "name": "Text",
        "textAutoResize": "WIDTH_AND_HEIGHT",
        "fontSize": 14.0
    }"##,
    );

    remove_text_metadata_fields(&mut tree).unwrap();

    assert_eq!(
        tree.get("textAutoResize").and_then(|v| v.as_str()),
        Some("WIDTH_AND_HEIGHT")
    );
    assert_eq!(tree.get("name").unwrap().as_str(), Some("Text"));
    assert_eq!(tree.get("fontSize").unwrap().as_f64(), Some(14.0));
}

#[test]
fn test_remove_font_variant_numeric_properties() {
    let mut tree = json(
        r##"{
        "name": "Members without roles",
        "fontVariantNumericFigure": "LINING",
        "fontVariantNumericSpacing": "PROPORTIONAL",
        "fontSize": 14.0,
        "fontName": {
            "family": "Inter",
            "style": "Medium"
        }
    }"##,
    );

    remove_text_metadata_fields(&mut tree).unwrap();

    assert!(tree.get("fontVariantNumericFigure").is_none());
    assert!(tree.get("fontVariantNumericSpacing").is_none());
    assert_eq!(tree.get("name").unwrap().as_str(), Some("Members without roles"));
    assert_eq!(tree.get("fontSize").unwrap().as_f64(), Some(14.0));
    assert!(tree.get("fontName").is_some());
}
