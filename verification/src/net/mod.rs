//! What to scan: addresses, networks and the sets of addresses they stand for.

pub mod addr;
pub mod local;
pub mod target;

pub use addr::Ipv4Addr;
pub use target::{Ipv4Net, TargetSet};
