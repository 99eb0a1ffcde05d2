//! The logic of a language server for beancount ledgers.
pub mod document;
pub mod document_store;
pub mod file_path;
pub mod paths;
pub mod progress;
pub mod protocol;
pub mod providers;
pub mod requests;
pub mod ropes;
pub mod routes;
pub mod server;
pub mod strings;
pub mod syntax;
pub mod text;
pub mod treesitter_utils;
pub mod uris;
