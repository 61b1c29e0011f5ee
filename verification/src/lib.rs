//! Discovery and inventory of the local network.
//!
//! The layout follows the flow of the data:
//!
//! - [`cli`] turns the arguments of the program into decisions;
//! - [`net`] decides *what* to scan (targets, local subnet);
//! - [`probe`] knows what the answers of an address mean;
//! - [`scan`] *orchestrates* the probes and tells events;
//! - [`inventory`] *gathers* the results into identified machines;
//! - [`ui`] *presents* it all, and is never consulted by the engine.
//!
//! Nothing here touches the network, the terminal or the clock: the engine
//! says what to do next, and is told what came of it.

pub mod cli;
pub mod error;
pub mod inventory;
pub mod net;
pub mod probe;
pub mod scan;
pub mod sort;
pub mod text;
pub mod time;
pub mod ui;

pub use error::Error;
