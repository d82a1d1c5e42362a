pub mod annotations;
pub mod budget;
pub mod fingerprint;
pub mod float;
pub mod geometry;
pub mod links;
pub mod path;
pub mod pdf;
pub mod render;
pub mod text;
pub mod viewer;
