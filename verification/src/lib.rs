//! A file workspace's model, verified: error codes, jobs, commands and
//! keymaps, localisation catalogues, locations, the hex editor's piece table,
//! disk imaging arithmetic and the decisions the filesystem layer makes about
//! untrusted names.

#![allow(unused_imports)]

pub mod text;
pub mod error;
pub mod jobs;
pub mod ordered;
pub mod commands;
pub mod i18n;
pub mod file;
pub mod location;
pub mod naming;
pub mod pathinput;
pub mod theme;
pub mod hexedit;
pub mod imaging;
pub mod fs;
