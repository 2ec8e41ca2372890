//! Reconciles the SSH public keys that a directory service assigns to local
//! accounts with the `authorized_keys` files that the SSH daemon reads.
pub mod api;
pub mod codec;
pub mod locator;
pub mod owner;
pub mod ssh_keys;
pub mod store;
pub mod sync;
pub mod system;
pub mod text;
pub mod update;
pub mod users;
