//! A reader and forensic auditor for Denis Corbin DAR (Disk ARchiver)
//! archives, verified with Verus.
//!
//! The archive is held as a byte buffer; every parse step is a function of the
//! bytes and a position, stated over the spec functions of each module.

pub mod text;
pub mod index;
pub mod wire;
pub mod catalog;
pub mod locate;
pub mod codec;
pub mod reader;
pub mod findings;
pub mod audit;
pub mod bodyfile;
pub mod tree;

pub use catalog::EntryKind;
pub use findings::{Anomaly, AnomalyKind, Severity};
pub use reader::{DarEntry, DarReader};
pub use wire::DarError;
