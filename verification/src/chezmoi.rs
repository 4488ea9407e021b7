//! Migration of a chezmoi source directory into a manifest.

pub mod collapse;
pub mod generate;
pub mod migrate;
pub mod names;
pub mod topics;
pub mod walk;

pub use names::{
    is_special_chezmoi_dir, is_special_chezmoi_file, parse_dir_name, parse_file_name, DirAttr,
    FileAttr, FileKind, NameError,
};
