//! A small simulated operating environment: a block store with an on-disk
//! image format, a virtual filesystem with synthetic mounts, a priority
//! scheduler and a manager of isolated virtual machines.

pub mod bytes;
pub mod disk;
pub mod filesystem;
pub mod image;
pub mod node;
pub mod path;
pub mod renderer;
pub mod scheduler;
pub mod shell;
pub mod text;
pub mod vps;
