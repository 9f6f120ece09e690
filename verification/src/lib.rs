pub mod address;
pub mod error;
pub mod model;
pub mod snapshot;
pub mod ledger;
pub mod laws;

pub use address::Address;
pub use error::DividendError;
pub use ledger::{Distribution, DividendLedger, VERSION};
pub use snapshot::{SnapshotEntry, snapshot_balance, validate_eligible};
