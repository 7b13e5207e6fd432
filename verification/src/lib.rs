//! The verified core of a small kernel: heap management (an alignment helper,
//! a bump allocator and a first-fit free-list allocator, each over an
//! integer-addressed heap region) and what the PC speaker driver computes.

pub mod allocator;
pub mod devices;
