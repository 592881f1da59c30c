pub mod path;
pub mod text;
pub mod sort;
pub mod size;
pub mod file_list;
pub mod fs_data;
pub mod explorer;
pub mod explorer_laws;
