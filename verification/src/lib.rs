//! Source-tracked kernel arguments for Boot Loader Specification entries.
//!
//! A source owns some of the kernel parameters of a loader entry, and the entry records which
//! under the key `x-options-source-<name>`. [`entries`] replaces what a source owns in the
//! entries of a boot partition; the modules ending in `_laws` state what holds across calls.

pub mod bls;
pub mod bls_laws;
pub mod boot_laws;
pub mod cmdline;
pub mod cmdline_laws;
pub mod config_laws;
pub mod entries;
pub mod entry_laws;
pub mod error;
pub mod fields;
pub mod merge_laws;
pub mod source;
pub mod text;
pub mod text_laws;
