//! Whether a device can be used.

use vstd::prelude::*;
use vstd::string::*;

verus! {

/// The health of a device.
#[derive(Clone, Copy, Debug, PartialEq, Eq, Structural)]
pub enum Health {
    Healthy,
    Unhealthy,
}

/// The name that kubelet knows a health by.
pub open spec fn health_text(health: Health) -> Seq<char> {
    match health {
        Health::Healthy => "Healthy"@,
        Health::Unhealthy => "Unhealthy"@,
    }
}

impl Health {
    /// The name that kubelet knows this health by.
    pub fn as_str(&self) -> (text: &'static str)
        ensures
            text@ == health_text(*self),
    {
        match self {
            Health::Healthy => "Healthy",
            Health::Unhealthy => "Unhealthy",
        }
    }

    /// The name that kubelet knows this health by.
    pub fn to_string(&self) -> (text: String)
        ensures
            text@ == health_text(*self),
    {
        self.as_str().to_owned()
    }
}

} // verus!
