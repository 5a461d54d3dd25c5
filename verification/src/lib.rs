//! An in-memory user registry: records are validated on every write,
//! identifiers are handed out by a monotonically increasing counter, and the
//! whole mapping can be rendered to and rebuilt from a JSON text form.

pub mod codec;
pub mod store;
pub mod text;

pub use crate::store::StoreError;
pub use crate::store::User;
pub use crate::store::UserManager;
pub use crate::store::UserView;
