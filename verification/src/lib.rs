//! Overwrites the bytes that back object symbols of an ELF image.
//!
//! The image is read once: every defined object symbol of `.symtab` that is
//! backed by a loadable segment becomes a patch site. Patches are then applied
//! by symbol name; a patch that cannot apply is recorded as a failure and the
//! patcher goes on.

pub mod site;
pub mod image;
pub mod patcher;
pub mod run;
pub mod reader;
pub mod cli;
pub mod direct;
pub mod entries;
pub mod hex;
pub mod laws;
pub mod order;
pub mod text;

pub use cli::Args;
pub use entries::Entries;
pub use hex::HexBytes;
pub use patcher::{ElfSymtabPatcher, PatchFailure};
pub use site::PatchFailureReason;
