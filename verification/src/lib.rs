//! Image preprocessing, feature extraction, matching and pose recovery.

pub mod binary32;
pub mod blur;
pub mod camera;
pub mod csv;
pub mod downscale;
pub mod fast;
pub mod grid;
pub mod linalg;
pub mod localize;
pub mod matcher;
pub mod pose;
pub mod protocol;
pub mod pyramid;
pub mod ransac;
pub mod rbrief;
pub mod reader;
pub mod semantic;
pub mod sqrt;
pub mod store;
pub mod value;
pub mod words;
