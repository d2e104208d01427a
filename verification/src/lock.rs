pub mod api;
pub mod bakery;
pub mod filter_lock;
pub mod peterson;
pub mod peterson_lock;

pub use api::{BoundedLock, BoundedRawLock};
pub use bakery::BakeryLock;
pub use filter_lock::FilterLock;
pub use peterson::PetersonLock;
