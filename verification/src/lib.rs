//! The rules Letur's window answers through.
pub mod document;
pub mod files;
pub mod panel;
pub mod path;
pub mod preview;
pub mod remote;
pub mod store;
pub mod text;
