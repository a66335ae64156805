//! Cursors that wrap other cursors.

pub mod chain;
pub mod deref;
pub mod filter;
pub mod filter_map;
pub mod flat_map;
pub mod flatten;
pub mod fuse;
pub mod inspect;
pub mod map;
pub mod map_ref;
pub mod owned;
pub mod rev;
pub mod skip;
pub mod skip_while;
pub mod take;
pub mod take_while;
