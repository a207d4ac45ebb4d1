//! A session store with lazy expiry, and a shim that moves sessions of a
//! legacy store into it on their first update.
pub mod key;
pub mod state;
pub mod table;
pub mod shim;
