//! A copy-on-write B-epsilon tree key-value store: on-disk object formats,
//! the object manager that allocates and caches objects, the merge of a
//! memstore of pending inserts into the tree, and the user-facing context.

pub mod common;
pub mod non_volatile;
pub mod object_type;
pub mod object_pointer;
pub mod uberblock;
pub mod algo;
pub mod tree;
pub mod algorithm;
pub mod serializable;
pub mod nv_obj_cache;
pub mod nv_obj_mngr;
pub mod context;
pub mod any_object;
pub mod space_manager;
pub mod cached_space_manager;
