pub mod any_rc_object;
pub mod object_pointer;
pub mod object_type;
pub mod tree;
pub mod uberblock;
