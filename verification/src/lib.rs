//! The logic of a viewer for NeXus/HDF5 files.

pub mod browse;
pub mod datatype;
pub mod number;
pub mod order;
pub mod panels;
pub mod path;
pub mod pv;
pub mod run_files;
pub mod run_search;
pub mod runs;
pub mod series;
pub mod session;
pub mod text;
pub mod tree;
pub mod view;
