//! A quota-aware work scheduler for tagging an image library.
//!
//! The crate keeps a priority table of image keys, decides which image is
//! handled next, accounts for the two rate limits of the annotation service
//! and says what has to be persisted so that an interrupted run can resume.

pub mod annotate;
pub mod fairness;
pub mod key_order;
pub mod listing;
pub mod liveness;
pub mod persist;
pub mod quota;
pub mod rotation;
pub mod scan;
pub mod scheduler;
pub mod table;
pub mod tags;
