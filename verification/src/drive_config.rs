//! The configuration surface handed in by the application.

use vstd::prelude::*;

verus! {

/// What a run is configured with: the upload endpoints (as webhook URLs)
/// and the credentials file for the ledger store. The application reads
/// this from its config file; the engine only consumes the values.
pub struct DriveConfig {
    pub webhooks: Vec<String>,
    pub service_account_file_location: String,
}

impl DriveConfig {
    /// The endpoint pool must not be empty: with no endpoint nothing can
    /// be uploaded, and round-robin assignment would be undefined.
    pub fn has_endpoints(&self) -> (r: bool)
        ensures
            r == (self.webhooks@.len() > 0),
    {
        self.webhooks.len() > 0
    }
}

} // verus!
