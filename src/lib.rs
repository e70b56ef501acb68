pub mod darktable;
pub mod errors;
pub mod grouping;
pub mod label;
pub mod order;
pub mod paths;
pub mod photo;
pub mod plan;
pub mod rename;
pub mod text;

pub use errors::Error;
pub use grouping::{group_by_fn, GroupByFn};
pub use paths::{common_prefix, CommonPrefix};
pub use photo::{group_photo_files, Photo};
