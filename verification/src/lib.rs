//! SEN: a keyfile-encrypted notepad. This crate holds its document model,
//! file formats and editing logic, each with a contract checked by Verus.

pub mod app_state;
pub mod batch;
pub mod bytes;
pub mod crypto;
pub mod editing;
pub mod clock;
pub mod config_crypto;
pub mod history;
pub mod ico;
pub mod session;
pub mod settings;
pub mod file_tree;
pub mod fonts;
pub mod search;
pub mod strings;
pub mod text;
pub mod theme;
