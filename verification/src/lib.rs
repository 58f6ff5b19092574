//! Deniable storage: several password-protected messages are hidden at
//! random, non-touching positions inside one fixed-size block whose other
//! bytes are random.

pub mod block;
pub mod error;
pub mod hash;
pub mod item;
pub mod manifest;
pub mod mode;
pub mod naming;
pub mod piece;
pub mod plause;
pub mod random;
pub mod settings;
pub mod util;
