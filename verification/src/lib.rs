//! Redwing: the verified core of a small RISC-V teaching kernel and its file
//! systems.

pub mod path;
pub mod errors;
pub(crate) mod text;
pub mod name;
pub mod human_size;
pub mod le;
pub mod kernel;
pub mod fcntl;
pub mod ramfs;
pub mod efs;
