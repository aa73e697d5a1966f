//! Name service registry: a store that binds public keys to unique display
//! names, driven one command at a time.

pub mod error;
pub mod handle;
pub mod key;
pub mod laws;
pub mod model;
pub mod registry;

pub use error::Error;
pub use handle::{get_all_outcome, put_outcome};
pub use key::PublicKey;
pub use registry::AccountsHandler;
