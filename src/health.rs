use vstd::prelude::*;

verus! {

/// What a health check reports of the service.
#[derive(Debug, Clone, Copy, PartialEq, Eq, Structural)]
pub enum ServingStatus {
    Unknown,
    Serving,
    NotServing,
}

/// The health service of a queue server, which is serving for as long as it
/// answers at all.
#[derive(Debug, Default)]
pub struct DefaultHealthService {}

impl DefaultHealthService {
    pub fn new() -> (r: DefaultHealthService) {
        DefaultHealthService {  }
    }

    /// The status a check reports.
    pub fn check(&self) -> (r: ServingStatus)
        ensures
            r == ServingStatus::Serving,
    {
        ServingStatus::Serving
    }
}

} // verus!
