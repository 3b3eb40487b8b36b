//! Roles of the parties in the query service.

use vstd::prelude::*;

verus! {

/// The role of a party in the query service.
#[derive(Debug, Clone, Copy, PartialEq, Eq, Structural)]
pub enum ServerRole {
    /// Holds the primary shares.
    First,
    /// Holds the secondary shares.
    Second,
    /// Assists in the oblivious shuffle.
    Third,
    /// Reserved for expansion.
    Helper,
}

impl ServerRole {
    /// The role in rotation: the second and third roles swap, the others stay.
    pub fn next(&self) -> (r: ServerRole)
        ensures
            r == match *self {
                ServerRole::First => ServerRole::First,
                ServerRole::Second => ServerRole::Third,
                ServerRole::Third => ServerRole::Second,
                ServerRole::Helper => ServerRole::Helper,
            },
    {
        match self {
            ServerRole::First => ServerRole::First,
            ServerRole::Second => ServerRole::Third,
            ServerRole::Third => ServerRole::Second,
            ServerRole::Helper => ServerRole::Helper,
        }
    }

    /// The first and second roles hold data.
    pub fn holds_data(&self) -> (r: bool)
        ensures
            r == (*self == ServerRole::First || *self == ServerRole::Second),
    {
        match self {
            ServerRole::First | ServerRole::Second => true,
            _ => false,
        }
    }

    /// All roles but the helper take part in the shuffle.
    pub fn participates_in_shuffle(&self) -> (r: bool)
        ensures
            r == (*self != ServerRole::Helper),
    {
        match self {
            ServerRole::Helper => false,
            _ => true,
        }
    }
}

} // verus!
