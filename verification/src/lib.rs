//! Keeps the module declarations and re-exports of a crate's module files in
//! step with what the files beside them declare.

pub mod text;
pub mod pub_type;
pub mod matcher;
pub mod scanner;
pub mod segment;
pub mod parser;
pub mod grammar;
pub mod exports;
pub mod synthesizer;
pub mod imports_and_exports;
pub mod import_export_updater;
pub mod files;
pub mod lib_export_generator;
pub mod library;
pub mod libraries_storage;
pub mod library_imports_updater;
pub mod manager;

pub use libraries_storage::LibrariesStorage;
pub use library::Library;
pub use manager::CrateManager;
pub use pub_type::PubType;
