//! Storage strategies for a per-entity value over a churning, generational
//! identifier space, with a verified allocator, five storage backends kept in
//! lockstep, and the run generator that fills and churns them.
pub mod churn;
pub mod entity;
pub mod entropy;
pub mod storage;
pub mod total;
pub mod world;
