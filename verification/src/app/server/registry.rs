//! Registration of a public server with the registrar.
use vstd::prelude::*;

verus! {

/// Time between two registrations, in milliseconds (seven hours).
pub const REGISTER_INTERVAL_MS: u64 = 7 * 3600 * 1000;
/// Attempts per registration.
pub const REGISTER_RETRIES: usize = 3;
/// Pause after each attempt, in milliseconds.
pub const REGISTER_RETRY_SLEEP_MS: u64 = 5000;

/// Where a public server registers by default.
pub open spec fn registry_default_url() -> Seq<char> {
    "https://registry.conwayste.rs/addServer"@
}

/// What a registration sends, and where.
#[derive(Debug, Clone)]
pub struct RegistryParams {
    /// The value sent to the registrar.
    pub public_addr: String,
    /// The URL to POST the public address to.
    pub registry_url: String,
}

impl RegistryParams {
    /// Parameters to register `public_addr` with the default registrar.
    pub fn new(public_addr: String) -> (r: Self)
        ensures
            r.public_addr@ == public_addr@,
            r.registry_url@ == registry_default_url(),
    {
        RegistryParams { public_addr, registry_url: String::from_str("https://registry.conwayste.rs/addServer") }
    }
}

/// The registrar's answer to one attempt, by HTTP status code.
#[derive(Debug, Clone, PartialEq, Eq, Structural)]
pub enum ServerRegistrationError {
    RegistrationFailed { status: u16 },
}

/// An attempt succeeded only when the registrar answered 200 OK.
pub fn registration_outcome(status: u16) -> (r: Result<(), ServerRegistrationError>)
    ensures
        status == 200 ==> r is Ok,
        status != 200 ==> r == Err::<(), ServerRegistrationError>(ServerRegistrationError::RegistrationFailed { status }),
{
    if status != 200 {
        Err(ServerRegistrationError::RegistrationFailed { status })
    } else {
        Ok(())
    }
}

/// What to do after attempt number `attempt` (counting from one) of a registration.
#[derive(Debug, Clone, Copy, PartialEq, Eq, Structural)]
pub enum RegistrationStep {
    /// The registrar took it: stop.
    Done,
    /// Pause `REGISTER_RETRY_SLEEP_MS`, then try again.
    PauseAndRetry,
    /// Pause `REGISTER_RETRY_SLEEP_MS`, then stop: every attempt failed.
    PauseAndGiveUp,
}

/// The next step of a registration after attempt `attempt` ended with `succeeded`.
pub fn next_registration_step(attempt: usize, succeeded: bool) -> (r: RegistrationStep)
    requires
        1 <= attempt <= REGISTER_RETRIES,
    ensures
        succeeded ==> r == RegistrationStep::Done,
        !succeeded && attempt < REGISTER_RETRIES ==> r == RegistrationStep::PauseAndRetry,
        !succeeded && attempt == REGISTER_RETRIES ==> r == RegistrationStep::PauseAndGiveUp,
{
    if succeeded {
        RegistrationStep::Done
    } else if attempt < REGISTER_RETRIES {
        RegistrationStep::PauseAndRetry
    } else {
        RegistrationStep::PauseAndGiveUp
    }
}

} // verus!
