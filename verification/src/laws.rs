//! What the modules promise, stated over what goes in and what comes out.
//!
//! Nothing here is stated through the definitions by which a module says how
//! it works: a law speaks of the rules, numbers and texts themselves.

pub mod answers;
pub mod apply;
pub mod ask;
pub mod decide;
pub mod expand;
pub mod follow;
pub mod load;
pub mod machine;
pub mod read;
pub mod records;
pub mod sample;
pub mod resolve;
pub mod rounds;
pub mod rules;
pub mod scenes;
pub mod watch;
pub mod words;
