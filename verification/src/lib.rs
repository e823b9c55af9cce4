//! A verified core for `cloud-hypervisor-jailer`, a manifest-driven privilege boundary for one
//! Cloud Hypervisor process.
//!
//! [`manifest`] holds the sandbox contract and its rules. [`launch`] decides in which order a
//! launch proceeds; [`jail`], [`cgroup`] and [`process`] decide what each of its stages does.
//! Nothing here performs input or output.

pub mod acceptance;
pub mod cgroup;
pub mod jail;
pub mod launch;
pub mod manifest;
pub mod path;
pub mod process;
pub mod properties;
pub mod steps;
pub mod text;
pub mod util;
