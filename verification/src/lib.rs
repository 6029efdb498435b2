//! Verified core of a file catalogue: diff rows between two storages,
//! include/exclude rules for scanned folders, and the bookkeeping that
//! decides where catalogue records are written.
pub mod text;
pub mod dirdiff;
pub mod remote;
pub mod paths;
pub mod rules;
pub mod util;
pub mod scan;
pub mod command;
pub mod session;
