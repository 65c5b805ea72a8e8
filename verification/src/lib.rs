//! Cleans the JSON document decoded from a Figma file: rebuilds the node
//! tree from the flat node list and strips or rewrites fields that HTML/CSS
//! rendering does not need.

pub mod error;
pub mod json;
pub mod schema;
pub mod text;

pub use error::{FigError, TreeError};
pub use json::{Json, JsonNumber};
