//! Allocation of customer order lines against stock batches.
//!
//! The domain model (`Batch`, `OrderLine`) and the `allocate` selection
//! algorithm live in [`model`]; calendar dates of incoming shipments live in
//! [`date`].

pub mod date;
pub mod model;

pub use date::Date;
pub use model::{allocate, sort_by_preference, Batch, DomainError, OrderLine, Quantity, Reference, Sku};
