//! The store: a git repository that holds the manifest and the topics as branches.

pub mod branch;
pub mod clone;
pub mod heads;
pub mod layout;
pub mod remote;

pub use branch::Branch;
pub use remote::Remote;
