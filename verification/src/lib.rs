//! The configuration layer of a package manager: manifests are read into an
//! ordered list of packages, the dependency forest is walked in pre-order, and
//! a lockfile is rendered from the installed packages.

pub mod config_file;
pub mod forest;
pub mod lockfile;
pub mod manifest;
pub mod order;
pub mod package;
