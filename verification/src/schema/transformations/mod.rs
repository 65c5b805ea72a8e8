//! Passes over the JSON document that delete or rewrite fields.

pub mod frame_properties_removal;
pub mod geometry_removal;
pub mod guid_path_removal;
pub mod guid_removal;
pub mod pass_laws;
pub mod image_metadata_removal;
pub mod prune;
pub mod prune_laws;
pub mod stroke_properties_removal;
pub mod style_extraction;
pub mod style_id_removal;
pub mod symbol_id_removal;
pub mod text_metadata_removal;
pub mod type_removal;

pub use frame_properties_removal::remove_frame_properties;
pub use geometry_removal::remove_geometry_fields;
pub use guid_path_removal::remove_guid_paths;
pub use guid_removal::{remove_guid_fields, remove_guid_fields_outside_masters};
pub use image_metadata_removal::remove_image_metadata_fields;
pub use stroke_properties_removal::remove_stroke_properties;
pub use style_extraction::extract_styles;
pub use style_id_removal::remove_style_ids;
pub use symbol_id_removal::remove_symbol_id_fields;
pub use text_metadata_removal::remove_text_metadata_fields;
pub use type_removal::remove_type;
