//! The ternary health state of a cluster node.

use vstd::prelude::*;

verus! {

/// Ternary health state for a cluster node.
///
/// The code of a state is what [`Health::as_i8`] gives. An `as` cast gives the
/// discriminant instead, which is the code of `Recovering` and `Healthy` only.
#[derive(Debug, Clone, Copy, PartialEq, Eq, Hash, Structural)]
pub enum Health {
    /// Warming up; takes no work. Its code is 0.
    Recovering,
    /// Up; takes work. Its code is 1.
    Healthy,
    /// Down; takes no work. Its code is -1.
    Offline,
}

impl Health {
    /// The ternary code of a state.
    pub open spec fn code(self) -> int {
        match self {
            Health::Healthy => 1,
            Health::Recovering => 0,
            Health::Offline => -1,
        }
    }

    /// The ternary code of the state.
    pub fn as_i8(self) -> (v: i8)
        ensures
            v == self.code(),
            self == Health::Healthy ==> v == 1,
            self == Health::Recovering ==> v == 0,
            self == Health::Offline ==> v == -1,
    {
        match self {
            Health::Healthy => 1,
            Health::Recovering => 0,
            Health::Offline => -1,
        }
    }

    /// The state with the ternary code `v`, if there is one.
    pub fn from_i8(v: i8) -> (state: Option<Self>)
        ensures
            state is Some <==> -1 <= v <= 1,
            state matches Some(health) ==> health.code() == v,
            v == 1 ==> state == Some(Health::Healthy),
            v == 0 ==> state == Some(Health::Recovering),
            v == -1 ==> state == Some(Health::Offline),
    {
        match v {
            1 => Some(Health::Healthy),
            0 => Some(Health::Recovering),
            -1 => Some(Health::Offline),
            _ => None,
        }
    }

    /// Whether a node in this state takes work.
    pub open spec fn accepts_work(self) -> bool {
        self == Health::Healthy
    }

    /// Returns true if the node can accept work.
    pub fn can_accept_work(&self) -> (answer: bool)
        ensures
            answer == self.accepts_work(),
            answer <==> *self == Health::Healthy,
    {
        matches!(self, Health::Healthy)
    }
}

/// The codes are 1 for healthy, 0 for recovering and -1 for offline, and healthy
/// nodes alone take work.
pub proof fn law_health_codes(health: Health)
    ensures
        health.code() == 1 <==> health == Health::Healthy,
        health.code() == 0 <==> health == Health::Recovering,
        health.code() == -1 <==> health == Health::Offline,
        health.accepts_work() <==> health == Health::Healthy,
{
}

/// A state is known by its code: no two states share one.
pub proof fn law_health_code_injective(a: Health, b: Health)
    ensures
        a.code() == b.code() <==> a == b,
        -1 <= a.code() <= 1,
{
}

} // verus!
