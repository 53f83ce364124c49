//! Failures of the filter layer.
use vstd::prelude::*;
use crate::common::Endpoint;
use crate::filter::interface::FilterMode;

verus! {

#[derive(Debug, Clone)]
pub enum FilterError {
    /// The filter's mode does not take this data.
    UnexpectedData { mode: FilterMode, invalid_data: String },
    /// A state the filter should never be in.
    InternalError { problem: String },
    /// No record of this endpoint.
    EndpointNotFound { endpoint: Endpoint },
    /// The application asked the filter to shut down.
    ShutdownRequested { graceful: bool },
    /// A peer or the application asked for something the filter refuses (a misbehaving peer,
    /// or a request not supported).
    Refused { problem: String },
}

} // verus!
