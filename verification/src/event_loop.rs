//! The reactor's bookkeeping: which connections are live, under which tokens,
//! and what a wake-up asks for.
//!
//! The reactor itself waits on the operating system and owns the sockets. It
//! asks this module what to do with each event, and keeps its connections in
//! a [`Registry`].

use std::collections::HashMap;
use vstd::prelude::*;

verus! {

/// The token of the listening socket. No connection is ever registered under it.
pub const SERVER: usize = 0;

/// The live connections, each under the token that it was given when it was
/// accepted. Tokens are handed out in rising order and never twice.
pub struct Registry<C> {
    connections: HashMap<usize, C>,
    next_token: usize,
}

/// What the reactor does with a token that is ready.
#[derive(Debug, Clone, Copy, PartialEq, Eq, Structural)]
pub enum Wake {
    /// The listener is ready: accept until it would block.
    Accept,
    /// A live connection is ready: run the handler on it once.
    Serve,
    /// The connection is gone: nothing to do.
    Skip,
}

/// How a call to accept ended.
#[derive(Debug, Clone, Copy, PartialEq, Eq, Structural)]
pub enum Accepted {
    /// A new connection came in.
    Connection,
    /// No connection is waiting.
    WouldBlock,
    /// The call failed.
    Failed,
}

/// What the reactor does after a call to accept.
#[derive(Debug, Clone, Copy, PartialEq, Eq, Structural)]
pub enum AcceptStep {
    /// Register the connection for reading and writing, then accept again.
    Register,
    /// Go on with the next event.
    Resume,
    /// Give up: the loop ends with the error.
    Abort,
}

/// What a wake-up on `token` asks for, given the live connections.
pub open spec fn wake_spec<C>(connections: Map<usize, C>, token: usize) -> Wake {
    if token == SERVER {
        Wake::Accept
    } else if connections.contains_key(token) {
        Wake::Serve
    } else {
        Wake::Skip
    }
}

/// What follows a call to accept.
pub open spec fn accept_spec(outcome: Accepted) -> AcceptStep {
    match outcome {
        Accepted::Connection => AcceptStep::Register,
        Accepted::WouldBlock => AcceptStep::Resume,
        Accepted::Failed => AcceptStep::Abort,
    }
}

/// Decides what follows a call to accept.
pub fn on_accept(outcome: Accepted) -> (step: AcceptStep)
    ensures
        step == accept_spec(outcome),
{
    match outcome {
        Accepted::Connection => AcceptStep::Register,
        Accepted::WouldBlock => AcceptStep::Resume,
        Accepted::Failed => AcceptStep::Abort,
    }
}

impl<C> View for Registry<C> {
    type V = Map<usize, C>;

    closed spec fn view(&self) -> Map<usize, C> {
        self.connections@
    }
}

impl<C> Registry<C> {
    /// The token that the next connection gets.
    pub closed spec fn next(&self) -> usize {
        self.next_token
    }

    /// Whether the registry is well-formed: every live token lies between
    /// the listener's and the next one to be handed out.
    pub open spec fn wf(&self) -> bool {
        &&& self.next() > SERVER
        &&& forall|token: usize| self@.contains_key(token) ==> SERVER < token < self.next()
    }

    /// A registry without connections. The first token is the one behind
    /// the listener's.
    pub fn new() -> (registry: Registry<C>)
        ensures
            registry.wf(),
            registry@ == Map::<usize, C>::empty(),
            registry.next() == SERVER + 1,
    {
        Registry { connections: HashMap::new(), next_token: 1 }
    }

    /// The token that the next connection gets.
    pub fn next_token(&self) -> (token: usize)
        ensures
            token == self.next(),
    {
        self.next_token
    }

    /// The number of live connections.
    pub fn len(&self) -> (n: usize)
        ensures
            n == self@.len(),
    {
        self.connections.len()
    }

    /// Takes a connection in under the next token, and returns the token.
    /// The connection is handed back where the tokens have run out.
    pub fn register(&mut self, connection: C) -> (res: Result<usize, C>)
        requires
            old(self).wf(),
        ensures
            final(self).wf(),
            match res {
                Ok(token) => {
                    &&& token == old(self).next()
                    &&& token < usize::MAX
                    &&& token != SERVER
                    &&& !old(self)@.contains_key(token)
                    &&& final(self).next() == token + 1
                    &&& final(self)@ == old(self)@.insert(token, connection)
                },
                Err(back) => {
                    &&& back == connection
                    &&& old(self).next() == usize::MAX
                    &&& final(self).next() == old(self).next()
                    &&& final(self)@ == old(self)@
                },
            },
    {
        if self.next_token == usize::MAX {
            return Err(connection);
        }
        let token = self.next_token;
        self.connections.insert(token, connection);
        self.next_token = token + 1;
        assert forall|live: usize| self@.contains_key(live) implies SERVER < live
            < self.next() by {
            if live != token {
                assert(old(self)@.contains_key(live));
            }
        }
        Ok(token)
    }

    /// The connection under `token`, if it is live.
    pub fn get(&self, token: usize) -> (res: Option<&C>)
        ensures
            match res {
                Some(connection) => self@.contains_key(token) && self@[token] == *connection,
                None => !self@.contains_key(token),
            },
    {
        self.connections.get(&token)
    }

    /// Takes the connection under `token` out, if it is live. The token is
    /// not handed out again.
    pub fn remove(&mut self, token: usize) -> (res: Option<C>)
        requires
            old(self).wf(),
        ensures
            final(self).wf(),
            final(self).next() == old(self).next(),
            final(self)@ == old(self)@.remove(token),
            match res {
                Some(connection) => old(self)@.contains_key(token) && old(self)@[token]
                    == connection,
                None => !old(self)@.contains_key(token),
            },
    {
        let res = self.connections.remove(&token);
        assert forall|live: usize| self@.contains_key(live) implies SERVER < live
            < self.next() by {
            assert(old(self)@.contains_key(live));
        }
        res
    }

    /// Decides what a wake-up on `token` asks for.
    pub fn on_ready(&self, token: usize) -> (wake: Wake)
        ensures
            wake == wake_spec(self@, token),
    {
        if token == SERVER {
            Wake::Accept
        } else if self.connections.contains_key(&token) {
            Wake::Serve
        } else {
            Wake::Skip
        }
    }
}

} // verus!
