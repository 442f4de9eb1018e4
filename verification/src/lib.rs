//! The logic of a fast viewer for culling photo shoots.
pub mod app;
pub mod date;
pub mod decode;
pub mod format;
pub mod frame;
pub mod gpu;
pub mod icc;
pub mod input;
pub mod measure;
pub mod path;
pub mod prefetch;
pub mod report;
pub mod scan;
pub mod search;
pub mod shader;
pub mod table;
pub mod text;
pub mod tiff;
pub mod trash;
pub mod tree;
pub mod ui;
pub mod upload;
pub mod view;
pub mod written;
