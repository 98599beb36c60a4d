//! The logic of packaging Nix closures as Flatpak bundles.
//!
//! A runtime is indexed (`places`, `index`, `metadata`, `index_json`), a closure is
//! compared with the index and reduced to a plan (`closure`, `version`,
//! `classify`, `orphans`, `scan`, `plan`, `plan_json`), and the files that the
//! plan keeps are rewritten (`elf_paths`, `wrapper`, `text_files`, `compat`).
//! Reading and writing files is left to the programs around the library: they
//! hand in what they read, and do what comes back.

pub mod bytes;
pub mod classify;
pub mod closure;
pub mod compat;
pub mod elf;
pub mod elf_paths;
pub mod index;
pub mod index_json;
pub mod json;
pub mod json_text;
pub mod laws;
pub mod metadata;
pub mod order;
pub mod orphans;
pub mod pairs;
pub mod pattern;
pub mod places;
pub mod plan;
pub mod plan_json;
pub mod rewrites;
pub mod scan;
pub mod store;
pub mod table;
pub mod text;
pub mod text_files;
pub mod version;
pub mod wrapper;
