//! Surgical, in-place edits of JSON documents: merge a patch at the top, at
//! a path or recursively; change, delete or insert one element of an array;
//! read and write at a path. Every operation is verified against a
//! mathematical model of the document.

pub mod array_ops;
pub mod compare;
pub mod depth;
pub mod error;
pub mod ids;
pub mod merge;
pub mod order;
pub mod path;
pub mod path_ops;
pub mod rank;
pub mod search;
pub mod text;
pub mod value;

pub use array_ops::{
    find_insertion_point, jsonb_array_delete_where, jsonb_array_insert_where,
    jsonb_array_update_multi_row, jsonb_array_update_where, jsonb_array_update_where_batch,
};
pub use compare::compare_values;
pub use depth::{get_max_depth, validate_depth, DepthExceeded, MAX_JSONB_DEPTH};
pub use error::{Argument, Error, PathError, PathSyntaxError};
pub use ids::{jsonb_array_contains_id, jsonb_extract_id, Id};
pub use merge::{
    deep_merge_recursive, jsonb_deep_merge, jsonb_merge_at_path, jsonb_merge_shallow,
    jsonb_smart_patch_array, jsonb_smart_patch_nested, jsonb_smart_patch_scalar,
};
pub use path::{navigate_path, parse_path, set_path, PathSegment};
pub use path_ops::{jsonb_ivm_array_update_where_path, jsonb_ivm_set_path};
pub use search::{find_by_int_id_optimized, find_element_by_match};
pub use value::{value_type_name, Kind, Number, Object, Value};
