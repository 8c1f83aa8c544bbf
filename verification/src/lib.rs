//! The tuonelang toolchain's data-level core: the package format
//! (manifest, lockfile, resolution) and the MIR optimizer.

pub mod text;
pub mod assoc;
pub mod toml;
pub mod manifest;
pub mod lockfile;
pub mod edit;
pub mod resolve;
pub mod scaffold;
pub mod mir;
pub mod opt;
pub mod ownership;
pub mod literal;
pub mod readback;
pub mod lock_readback;
pub mod dataflow;
pub mod structural;
pub mod types;
pub mod type_checks;
pub mod mir_verify;
