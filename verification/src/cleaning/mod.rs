pub mod mark_for_deletion;
pub mod track_files_for_deletion;
pub mod tree_shape;
