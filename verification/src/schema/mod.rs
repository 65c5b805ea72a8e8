//! The document schema: tree building and the cleanup passes.

pub mod hierarchy;
pub mod sibling_order;
pub mod transformations;
pub mod tree;

pub use transformations::{
    extract_styles, remove_frame_properties, remove_geometry_fields, remove_guid_fields,
    remove_guid_fields_outside_masters, remove_guid_paths, remove_image_metadata_fields,
    remove_stroke_properties, remove_style_ids, remove_symbol_id_fields,
    remove_text_metadata_fields, remove_type,
};
pub use tree::{build_tree, build_tree_with_components};
