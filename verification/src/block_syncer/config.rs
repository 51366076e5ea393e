//! Settings of the block syncer.
use vstd::prelude::*;

verus! {

/// Block syncer configuration.
pub struct Config {
    /// The URL of the fuel sentry that supports GraphQL.
    pub fuel_sentry_url: url::Url,
    /// Produce and store DA compressed blocks with this retention time, in whole seconds.
    pub compression: u64,
}

} // verus!
