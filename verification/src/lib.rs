//! Enumeration of the physical pages that back a 64-bit x86 guest's address
//! space, and the search of those pages for a byte pattern, with every rule
//! of the traversal and of the scan stated as a contract and proved.

pub mod cli;
pub mod matcher;
pub mod model;
pub mod orchestrator;
pub mod page_walker;
pub mod pageset;
pub mod patch;
pub mod paging;
pub mod range;
pub mod session;
pub mod utils;
