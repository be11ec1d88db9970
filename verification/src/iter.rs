pub mod extension;
pub mod multiple_zip;
pub mod none;
pub mod types;
pub mod unique;
