#![allow(unused_imports, dead_code)]

use fig2json::schema::transformations::{remove_image_metadata_fields};
use fig2json::{Json, JsonNumber};

/// Reads a JSON text into the library's document type.
fn json(text: &str) -> Json {
    to_json(&serde_json::from_str(text).unwrap())
}

fn to_json(v: &serde_json::Value) -> Json {
    match v {
        serde_json::Value::Null => Json::Null,
        serde_json::Value::Bool(b) => Json::Bool(*b),
        serde_json::Value::Number(n) => Json::Number(if let Some(u) = n.as_u64() {
            JsonNumber::PosInt(u)
        } else if let Some(i) = n.as_i64() {
            JsonNumber::NegInt(i)
        } else {
            JsonNumber::Float(n.as_f64().unwrap().to_bits())
        }),
        serde_json::Value::String(s) => Json::Str(s.clone()),
        serde_json::Value::Array(items) => Json::Array(items.iter().map(to_json).collect()),
        serde_json::Value::Object(m) => {
            Json::Object(m.iter().map(|(k, v)| (k.clone(), to_json(v))).collect())
        }
    }
}

/// `serde_json`-style access for the assertions.
trait Access {
    fn at(&self, key: &str) -> &Json;
    fn nth(&self, i: usize) -> &Json;
    fn as_f64(&self) -> Option<f64>;
}

impl Access for Json {
    fn at(&self, key: &str) -> &Json {
        self.get(key).unwrap()
    }

    fn nth(&self, i: usize) -> &Json {
        &self.as_array().unwrap()[i]
    }

    fn as_f64(&self) -> Option<f64> {
        match self {
            Json::Number(JsonNumber::PosInt(n)) => Some(*n as f64),
            Json::Number(JsonNumber::NegInt(n)) => Some(*n as f64),
            Json::Number(JsonNumber::Float(bits)) => Some(f64::from_bits(*bits)),
            _ => None,
        }
    }
}


#[test]
fn test_remove_thumb_hash() {
    let mut tree = json(
        r##"{
        "name": "Image",
        "thumbHash": [],
        "visible": true
    }"##,
    );

    remove_image_metadata_fields(&mut tree).unwrap();

    assert!(tree.get("thumbHash").is_none());
    assert_eq!(tree.get("name").unwrap().as_str(), Some("Image"));
    assert_eq!(tree.get("visible").unwrap().as_bool(), Some(true));
}

#[test]
fn test_remove_animation_frame() {
    let mut tree = json(
        r##"{
        "name": "Image",
        "animationFrame": 0,
        "opacity": 1.0
    }"##,
    );

    remove_image_metadata_fields(&mut tree).unwrap();

    assert!(tree.get("animationFrame").is_none());
    assert_eq!(tree.get("name").unwrap().as_str(), Some("Image"));
    assert_eq!(tree.get("opacity").unwrap().as_f64(), Some(1.0));
}

#[test]
fn test_remove_color_manage_flag() {
    let mut tree = json(
        r##"{
        "name": "Image",
        "imageShouldColorManage": true,
        "visible": true
    }"##,
    );

    remove_image_metadata_fields(&mut tree).unwrap();

    assert!(tree.get("imageShouldColorManage").is_none());
    assert_eq!(tree.get("name").unwrap().as_str(), Some("Image"));
    assert_eq!(tree.get("visible").unwrap().as_bool(), Some(true));
}

#[test]
fn test_rename_image_scale_mode() {
    // imageScaleMode should be renamed to scaleMode (Figma REST API name)
    // — downstream renderers need this to pick FILL / FIT / CROP / STRETCH.
    // The enum object form is what arrives if this transformation runs
    // before enum_simplification; the simple-string form is what arrives
    // after.
    let mut tree = json(
        r##"{
        "name": "Image",
        "imageScaleMode": {
            "__enum__": "ImageScaleMode",
            "value": "FILL"
        },
        "opacity": 1.0
    }"##,
    );

    remove_image_metadata_fields(&mut tree).unwrap();

    assert!(tree.get("imageScaleMode").is_none());
    assert!(tree.get("scaleMode").is_some());
    assert_eq!(tree.get("name").unwrap().as_str(), Some("Image"));
    assert_eq!(tree.get("opacity").unwrap().as_f64(), Some(1.0));
}

#[test]
fn test_rename_image_scale_mode_simplified() {
    // After enum_simplification has run, imageScaleMode is just a string.
    let mut tree = json(
        r##"{
        "name": "Image",
        "imageScaleMode": "FILL",
        "opacity": 1.0
    }"##,
    );

    remove_image_metadata_fields(&mut tree).unwrap();

    assert!(tree.get("imageScaleMode").is_none());
    assert_eq!(tree.get("scaleMode").unwrap().as_str(), Some("FILL"));
}

#[test]
fn test_remove_original_dimensions() {
    let mut tree = json(
        r##"{
        "name": "Image",
        "originalImageWidth": 300,
        "originalImageHeight": 300,
        "visible": true
    }"##,
    );

    remove_image_metadata_fields(&mut tree).unwrap();

    assert!(tree.get("originalImageWidth").is_none());
    assert!(tree.get("originalImageHeight").is_none());
    assert_eq!(tree.get("name").unwrap().as_str(), Some("Image"));
    assert_eq!(tree.get("visible").unwrap().as_bool(), Some(true));
}

#[test]
fn test_remove_alt_text() {
    let mut tree = json(
        r##"{
        "name": "Image",
        "altText": "",
        "visible": true
    }"##,
    );

    remove_image_metadata_fields(&mut tree).unwrap();

    assert!(tree.get("altText").is_none());
    assert_eq!(tree.get("name").unwrap().as_str(), Some("Image"));
    assert_eq!(tree.get("visible").unwrap().as_bool(), Some(true));
}

#[test]
fn test_remove_image_paint_rotation_scale() {
    let mut tree = json(
        r##"{
        "type": {
            "__enum__": "PaintType",
            "value": "IMAGE"
        },
        "rotation": 0.0,
        "scale": 0.5,
        "opacity": 1.0
    }"##,
    );

    remove_image_metadata_fields(&mut tree).unwrap();

    assert!(tree.get("rotation").is_none());
    assert!(tree.get("scale").is_none());
    assert_eq!(tree.get("opacity").unwrap().as_f64(), Some(1.0));
}

#[test]
fn test_preserve_non_image_rotation_scale() {
    let mut tree = json(
        r##"{
        "name": "Frame",
        "rotation": 45.0,
        "scale": 2.0,
        "type": "FRAME"
    }"##,
    );

    remove_image_metadata_fields(&mut tree).unwrap();

    // rotation and scale should be preserved for non-image objects
    assert_eq!(tree.get("rotation").unwrap().as_f64(), Some(45.0));
    assert_eq!(tree.get("scale").unwrap().as_f64(), Some(2.0));
    assert_eq!(tree.get("name").unwrap().as_str(), Some("Frame"));
}

#[test]
fn test_remove_all_image_metadata() {
    let mut tree = json(
        r##"{
        "name": "ComplexImage",
        "thumbHash": [],
        "animationFrame": 0,
        "imageShouldColorManage": true,
        "imageScaleMode": {
            "__enum__": "ImageScaleMode",
            "value": "FILL"
        },
        "originalImageWidth": 300,
        "originalImageHeight": 300,
        "altText": "",
        "type": {
            "__enum__": "PaintType",
            "value": "IMAGE"
        },
        "rotation": 0.0,
        "scale": 0.5,
        "opacity": 1.0
    }"##,
    );

    remove_image_metadata_fields(&mut tree).unwrap();

    // All metadata fields removed
    assert!(tree.get("thumbHash").is_none());
    assert!(tree.get("animationFrame").is_none());
    assert!(tree.get("imageShouldColorManage").is_none());
    assert!(tree.get("imageScaleMode").is_none());
    assert!(tree.get("originalImageWidth").is_none());
    assert!(tree.get("originalImageHeight").is_none());
    assert!(tree.get("altText").is_none());
    assert!(tree.get("rotation").is_none());
    assert!(tree.get("scale").is_none());

    // imageScaleMode is renamed (not removed) to scaleMode.
    assert!(tree.get("scaleMode").is_some());

    // Other fields preserved
    assert_eq!(tree.get("name").unwrap().as_str(), Some("ComplexImage"));
    assert!(tree.get("type").is_some());
    assert_eq!(tree.get("opacity").unwrap().as_f64(), Some(1.0));
}

#[test]
fn test_nested_image_metadata() {
    let mut tree = json(
        r##"{
        "name": "Root",
        "fillPaints": [
            {
                "type": {
                    "__enum__": "PaintType",
                    "value": "IMAGE"
                },
                "thumbHash": [],
                "animationFrame": 0,
                "rotation": 0.0,
                "scale": 0.5,
                "opacity": 1.0
            }
        ]
    }"##,
    );

    remove_image_metadata_fields(&mut tree).unwrap();

    // Check nested image paint
    let paint = tree.at("fillPaints").nth(0);
    assert!(paint.get("thumbHash").is_none());
    assert!(paint.get("animationFrame").is_none());
    assert!(paint.get("rotation").is_none());
    assert!(paint.get("scale").is_none());
    assert!(paint.get("type").is_some());
    assert_eq!(paint.get("opacity").unwrap().as_f64(), Some(1.0));
}

#[test]
fn test_no_image_metadata() {
    let mut tree = json(
        r##"{
        "name": "Rectangle",
        "width": 100,
        "height": 200,
        "visible": true
    }"##,
    );

    remove_image_metadata_fields(&mut tree).unwrap();

    // Tree without image metadata should be unchanged
    assert_eq!(tree.get("name").unwrap().as_str(), Some("Rectangle"));
    assert_eq!(tree.get("width").unwrap().as_i64(), Some(100));
    assert_eq!(tree.get("height").unwrap().as_i64(), Some(200));
    assert_eq!(tree.get("visible").unwrap().as_bool(), Some(true));
}

#[test]
fn test_remove_image_thumbnail() {
    let mut tree = json(
        r##"{
        "fillPaints": [
            {
                "type": "IMAGE",
                "image": {
                    "filename": "images/abc123",
                    "name": "Photo"
                },
                "imageThumbnail": {
                    "filename": "images/abc123",
                    "name": "Photo"
                }
            }
        ]
    }"##,
    );

    remove_image_metadata_fields(&mut tree).unwrap();

    let paint = tree.at("fillPaints").nth(0);
    // imageThumbnail should be removed (duplicate of image)
    assert!(paint.get("imageThumbnail").is_none());
    // image should be preserved
    assert!(paint.get("image").is_some());
}

#[test]
fn test_remove_image_thumbnail_nested() {
    let mut tree = json(
        r##"{
        "children": [
            {
                "fillPaints": [
                    {
                        "image": {"filename": "images/abc"},
                        "imageThumbnail": {"filename": "images/abc"}
                    }
                ]
            }
        ]
    }"##,
    );

    remove_image_metadata_fields(&mut tree).unwrap();

    let paint = tree.at("children").nth(0).at("fillPaints").nth(0);
    assert!(paint.get("imageThumbnail").is_none());
    assert!(paint.get("image").is_some());
}
