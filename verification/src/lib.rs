//! A small init system: service and configuration files, the order in which services
//! and their dependencies start, and the kernel messages it listens to, with the
//! reading, deciding and decoding proved against their specifications.

use vstd::prelude::*;

pub mod text;
pub mod config;
pub mod service;
pub mod netlink;
pub mod linux;
pub mod walk;
pub mod run;

verus! {

}
