//! What holds of the library as a whole, stated of the inputs and results of its
//! functions.

pub mod classify;
pub mod closure;
pub mod compat;
pub mod elf;
pub mod index;
pub mod index_json;
pub mod json;
pub mod metadata;
pub mod orphans;
pub mod plan;
pub mod plan_json;
pub mod rpath;
pub mod scan;
pub mod store;
pub mod text;
pub mod text_files;
pub mod version;
pub mod wrapper;
