//! The three parties: their roles, their state machine, and the shares and
//! results a computational party holds.

use crate::field::FieldElement;
use crate::online::{PartyShares, RevealMessage};
use crate::protocol::ProtocolError;
use vstd::prelude::*;

verus! {

/// The role of a party: the auxiliary party generates correlated randomness,
/// the two computational parties hold shares and compute.
#[derive(Debug, Clone, Copy, PartialEq, Eq, Structural)]
pub enum ServerRole {
    Auxiliary,
    Computational,
}

/// Where a party stands in a run.
#[derive(Debug, Clone, PartialEq, Eq)]
pub enum ServerState {
    Offline,
    Online,
    Participating,
    Completed,
    Failed(String),
}

impl ServerState {
    /// Online, participating or completed.
    pub fn is_available(&self) -> (r: bool)
        ensures
            r == (*self is Online || *self is Participating || *self is Completed),
    {
        match self {
            ServerState::Online | ServerState::Participating | ServerState::Completed => true,
            _ => false,
        }
    }

    pub fn is_failed(&self) -> (r: bool)
        ensures
            r == (*self is Failed),
    {
        match self {
            ServerState::Failed(_) => true,
            _ => false,
        }
    }
}

/// A copy of a state.
fn copy_state(s: &ServerState) -> (r: ServerState)
    ensures
        r == *s,
{
    match s {
        ServerState::Offline => ServerState::Offline,
        ServerState::Online => ServerState::Online,
        ServerState::Participating => ServerState::Participating,
        ServerState::Completed => ServerState::Completed,
        ServerState::Failed(m) => ServerState::Failed(m.clone()),
    }
}

/// A party of the protocol.
#[derive(Debug, Clone)]
pub struct Server {
    pub id: usize,
    pub role: ServerRole,
    pub state: ServerState,
    pub shares: Option<PartyShares>,
    pub final_result: Option<Vec<Vec<FieldElement>>>,
}

/// A summary of a party's state.
#[derive(Debug, Clone)]
pub struct ServerStats {
    pub id: usize,
    pub role: ServerRole,
    pub state: ServerState,
    pub has_shares: bool,
    pub has_final_result: bool,
}

impl Server {
    /// A party that is offline and holds nothing.
    pub fn new(id: usize, role: ServerRole) -> (r: Server)
        ensures
            r.id == id,
            r.role == role,
            r.state is Offline,
            r.shares is None,
            r.final_result is None,
    {
        Server { id, role, state: ServerState::Offline, shares: None, final_result: None }
    }

    /// Brings the party online.
    pub fn initialize(&mut self)
        ensures
            final(self).state is Online,
            final(self).id == old(self).id,
            final(self).role == old(self).role,
            final(self).shares == old(self).shares,
            final(self).final_result == old(self).final_result,
    {
        self.state = ServerState::Online;
    }

    pub fn id(&self) -> (r: usize)
        ensures
            r == self.id,
    {
        self.id
    }

    pub fn role(&self) -> (r: &ServerRole)
        ensures
            *r == self.role,
    {
        &self.role
    }

    pub fn state(&self) -> (r: &ServerState)
        ensures
            *r == self.state,
    {
        &self.state
    }

    pub fn set_state(&mut self, state: ServerState)
        ensures
            final(self).state == state,
            final(self).id == old(self).id,
            final(self).role == old(self).role,
            final(self).shares == old(self).shares,
            final(self).final_result == old(self).final_result,
    {
        self.state = state;
    }

    pub fn is_auxiliary(&self) -> (r: bool)
        ensures
            r == (self.role == ServerRole::Auxiliary),
    {
        self.role == ServerRole::Auxiliary
    }

    pub fn is_computational(&self) -> (r: bool)
        ensures
            r == (self.role == ServerRole::Computational),
    {
        self.role == ServerRole::Computational
    }

    pub fn is_available(&self) -> (r: bool)
        ensures
            r == (self.state is Online || self.state is Participating || self.state is Completed),
    {
        self.state.is_available()
    }

    pub fn is_failed(&self) -> (r: bool)
        ensures
            r == (self.state is Failed),
    {
        self.state.is_failed()
    }

    /// Stores the shares delivered at the end of the offline phase. Only a
    /// computational party may hold shares: any other fails with `InvalidConfiguration`.
    pub fn receive_shares(&mut self, shares: PartyShares) -> (r: Result<(), ProtocolError>)
        ensures
            final(self).id == old(self).id,
            final(self).role == old(self).role,
            final(self).state == old(self).state,
            final(self).final_result == old(self).final_result,
            match r {
                Ok(()) => old(self).role == ServerRole::Computational && final(self).shares == Some(shares),
                Err(e) => old(self).role != ServerRole::Computational && e is InvalidConfiguration
                    && final(self).shares == old(self).shares,
            },
    {
        if self.role != ServerRole::Computational {
            return Err(ProtocolError::InvalidConfiguration { message: "only a computational party holds shares".to_string() });
        }
        self.shares = Some(shares);
        Ok(())
    }

    /// The shares held, if any.
    pub fn get_shares(&self) -> (r: Option<&PartyShares>)
        ensures
            match self.shares {
                Some(s) => r == Some(&s),
                None => r is None,
            },
    {
        match &self.shares {
            Some(s) => Some(s),
            None => None,
        }
    }

    /// Starts the online phase. The offline deliveries must be complete: the
    /// party is online and, if computational, holds its shares.
    pub fn begin_run(&mut self) -> (r: Result<(), ProtocolError>)
        ensures
            final(self).id == old(self).id,
            final(self).role == old(self).role,
            final(self).shares == old(self).shares,
            final(self).final_result == old(self).final_result,
            match r {
                Ok(()) => old(self).state is Online && (old(self).role == ServerRole::Computational ==> old(self).shares is Some)
                    && final(self).state is Participating,
                Err(e) => !(old(self).state is Online && (old(self).role == ServerRole::Computational ==> old(self).shares is Some))
                    && e is InvalidConfiguration && final(self).state == old(self).state,
            },
    {
        let ready = match self.state {
            ServerState::Online => true,
            _ => false,
        };
        if !ready {
            return Err(ProtocolError::InvalidConfiguration { message: "the party is not online".to_string() });
        }
        if self.role == ServerRole::Computational && self.shares.is_none() {
            return Err(ProtocolError::InvalidConfiguration { message: "the offline deliveries are not complete".to_string() });
        }
        self.state = ServerState::Participating;
        Ok(())
    }

    /// Stores the party's result share; only a participating computational
    /// party has one. The run is then complete for this party.
    pub fn set_final_result(&mut self, result: Vec<Vec<FieldElement>>) -> (r: Result<(), ProtocolError>)
        ensures
            final(self).id == old(self).id,
            final(self).role == old(self).role,
            final(self).shares == old(self).shares,
            match r {
                Ok(()) => old(self).role == ServerRole::Computational && old(self).state is Participating
                    && final(self).final_result == Some(result) && final(self).state is Completed,
                Err(e) => !(old(self).role == ServerRole::Computational && old(self).state is Participating)
                    && e is InvalidConfiguration && final(self).final_result == old(self).final_result
                    && final(self).state == old(self).state,
            },
    {
        if self.role != ServerRole::Computational {
            return Err(ProtocolError::InvalidConfiguration { message: "only a computational party has a result".to_string() });
        }
        let participating = match self.state {
            ServerState::Participating => true,
            _ => false,
        };
        if !participating {
            return Err(ProtocolError::InvalidConfiguration { message: "the party is not participating".to_string() });
        }
        self.final_result = Some(result);
        self.state = ServerState::Completed;
        Ok(())
    }

    /// The reveal message: the result share and the party's point. The result
    /// slot is read once: it is empty afterwards. Fails with
    /// `InsufficientShares` when the party has no result.
    pub fn reveal_message(&mut self) -> (r: Result<RevealMessage, ProtocolError>)
        ensures
            final(self).id == old(self).id,
            final(self).role == old(self).role,
            final(self).state == old(self).state,
            final(self).shares == old(self).shares,
            match r {
                Ok(m) => old(self).shares is Some && old(self).final_result is Some && m.point
                    == old(self).shares->Some_0.point && m.values == old(self).final_result->Some_0
                    && final(self).final_result is None,
                Err(e) => !(old(self).shares is Some && old(self).final_result is Some) && e
                    == ProtocolError::InsufficientShares && final(self).final_result == old(self).final_result,
            },
    {
        let point = match &self.shares {
            Some(s) => s.point,
            None => return Err(ProtocolError::InsufficientShares),
        };
        if self.final_result.is_none() {
            return Err(ProtocolError::InsufficientShares);
        }
        match self.final_result.take() {
            Some(values) => Ok(RevealMessage { point, values }),
            None => Err(ProtocolError::InsufficientShares),
        }
    }

    /// Cancels the run: all per-run state is discarded and the party is online again.
    pub fn cancel_run(&mut self)
        ensures
            final(self).id == old(self).id,
            final(self).role == old(self).role,
            final(self).state is Online,
            final(self).shares is None,
            final(self).final_result is None,
    {
        self.shares = None;
        self.final_result = None;
        self.state = ServerState::Online;
    }

    /// A summary of the party's state.
    pub fn get_stats(&self) -> (r: ServerStats)
        ensures
            r.id == self.id,
            r.role == self.role,
            r.state == self.state,
            r.has_shares == self.shares is Some,
            r.has_final_result == self.final_result is Some,
    {
        ServerStats {
            id: self.id,
            role: self.role,
            state: copy_state(&self.state),
            has_shares: self.shares.is_some(),
            has_final_result: self.final_result.is_some(),
        }
    }
}

} // verus!
