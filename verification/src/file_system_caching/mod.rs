pub mod folder_meta;
