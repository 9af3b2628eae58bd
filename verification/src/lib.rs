//! Earth mover's distance between two equal-length mass sequences over ordered
//! bins, computed by a greedy nearest-match transport scan.
//!
//! The scan ([`emd`]) is generic in the arithmetic of the masses ([`Mass`]),
//! and [`transport::emd_spec`] defines what it computes. [`exact`] studies that
//! definition over the mathematical integers: the distance is symmetric, never
//! negative, zero from a sequence to itself, and linear in the masses.
//! [`cumulative`] shows that between sequences of equal total mass it is the
//! mass that crosses each bin boundary, summed over the boundaries, and that
//! no plan of transfers does less work. [`fixed`] carries these results over
//! to `i64`, whose arithmetic saturates.
pub mod error;
pub mod mass;
pub mod transport;
pub mod engine;
pub mod metric;
pub mod exact;
pub mod cumulative;
pub mod fixed;

pub use crate::engine::{emd, subtract};
pub use crate::error::EmdError;
pub use crate::mass::{Mass, MassSpec};
pub use crate::metric::Emd;
