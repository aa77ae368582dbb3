//! Chart data model.

pub mod bga;
pub mod bms_loader;
pub mod bms_model;
pub mod note;
pub mod timeline;
