//! Decompile and recompile the Pixel carrierconfig (cfgdb) database: the
//! confseq protobuf codec, the CLZ4 container, manifest reference rewriting,
//! the NV-item name table, and the planning logic behind `decompile`,
//! `compile`, `check`, `inspect` and Magisk packaging.
use vstd::prelude::*;

pub mod error;
pub mod cfgdb;
pub mod clz4;
pub mod confseq;
pub mod text;
pub mod magisk;
pub mod manifest;
pub mod manifest_rewrite;
pub mod nvtable;
pub mod project;
pub mod report;
pub mod sorted;
pub mod spans;

verus! {

} // verus!
