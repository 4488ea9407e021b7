//! The engine: what a synchronization decides.

pub mod again;
pub mod apply;
pub mod capture;
pub mod diff;
pub mod merge;
pub mod path_util;
pub mod reconcile;
pub mod report;
pub mod resolver;
pub mod settle;
pub mod status;
pub mod sync;
