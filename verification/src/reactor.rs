//! The state of the event loop: which tokens are taken and which connection
//! stands behind each.
//!
//! The loop itself, which waits on the poller and makes the socket calls, is not
//! here. It tells the reactor what happened (a connection was accepted, a read
//! ended so) and the reactor keeps the books and answers with what to do.

use crate::echo::{after_read, Echo, EchoState, IoOutcome, ReadStep, SCRATCH_SIZE};
use crate::pool::{lemma_allocate_keeps_wf, lemma_release_keeps_wf, TokenPool};
use crate::token::{index_of, token_index};
use crate::tokenmanager::TokenManager;
use mio::Token;
use std::collections::HashMap;
use vstd::prelude::*;

verus! {

broadcast use vstd::std_specs::hash::group_hash_axioms;

/// What the server holds for each client it serves: the socket of the
/// connection, and the peer's address as text, kept for diagnostics.
#[derive(Debug, PartialEq, Eq)]
pub struct Client<S> {
    pub socket: S,
    pub address: String,
}

/// Whom a readiness event is for.
#[derive(Clone, Copy, Debug, PartialEq, Eq, Structural)]
pub enum Dispatch {
    /// The listening socket: connections are waiting to be accepted.
    Listener,
    /// A live connection: it has something to read.
    Client,
    /// Nobody: the connection under this token is gone. Such an event is
    /// expected after a teardown and is skipped.
    Stale,
}

/// What an accept call on the listening socket gave.
#[derive(Debug, PartialEq, Eq)]
pub enum Accepted<S> {
    /// A connection. Its socket is registered with the poller for reading,
    /// under the token that `next_token` named.
    Connection(Client<S>),
    /// No connection is waiting any more.
    WouldBlock,
    /// The call failed for another reason.
    Failed,
}

/// What the event loop does after an accept call.
#[derive(Clone, Copy, Debug, PartialEq, Eq)]
pub enum AcceptStep {
    /// The connection is in the table under this token: accept again, so that
    /// no connection that arrived in the meantime is left waiting.
    Attached(Token),
    /// The queue is empty: go on with the next event.
    Drained,
    /// The listening socket failed: the loop ends with that error.
    Abort,
}

/// What the event loop does for a connection after one read on it.
#[derive(Debug, PartialEq, Eq)]
pub enum Served<S> {
    /// Bytes were read: write them back.
    Echo(Echo),
    /// Nothing was there to read: wait for the next readiness event.
    Wait,
    /// The peer shut the stream down. The connection is out of the table and
    /// its token is free; here is its entry, to deregister and drop.
    Closed(Client<S>),
    /// The read failed. The connection is out of the table and its token is
    /// free; here is its entry, to deregister and drop.
    Failed(Client<S>),
    /// No connection is open under the token: nothing was done.
    Stale,
}

/// The state of a reactor as a mathematical value.
pub struct ReactorState<S> {
    /// The tokens handed out and free.
    pub tokens: TokenPool,
    /// The token of the listening socket.
    pub listener: nat,
    /// The connections that are open, by token.
    pub clients: Map<nat, Client<S>>,
}

impl<S> ReactorState<S> {
    /// The state of a new reactor: the listening socket holds the first token,
    /// and no connection is open.
    pub open spec fn initial() -> ReactorState<S> {
        ReactorState {
            tokens: TokenPool::initial().allocate(),
            listener: 0,
            clients: Map::empty(),
        }
    }

    /// The tokens in use are the listener's and those of the open connections,
    /// and the listener's is not among the latter.
    pub open spec fn wf(self) -> bool {
        &&& self.tokens.wf()
        &&& self.tokens.used == self.clients.dom().insert(self.listener)
        &&& !self.clients.contains_key(self.listener)
    }

    /// Whom an event with this token is for.
    pub open spec fn dispatch(self, token: nat) -> Dispatch {
        if token == self.listener {
            Dispatch::Listener
        } else if self.clients.contains_key(token) {
            Dispatch::Client
        } else {
            Dispatch::Stale
        }
    }

    /// The state after a connection was accepted: it holds the token that the
    /// pool hands out next.
    pub open spec fn attach(self, client: Client<S>) -> ReactorState<S> {
        ReactorState {
            tokens: self.tokens.allocate(),
            listener: self.listener,
            clients: self.clients.insert(self.tokens.upcoming(), client),
        }
    }

    /// The state after the connection under `token` was torn down: its token is
    /// free and its entry gone, both or neither. A token without a connection,
    /// the listener's too, changes nothing.
    pub open spec fn teardown(self, token: nat) -> ReactorState<S> {
        if self.clients.contains_key(token) {
            ReactorState {
                tokens: self.tokens.release(token),
                listener: self.listener,
                clients: self.clients.remove(token),
            }
        } else {
            self
        }
    }
}

/// A table keyed by machine integers as a map keyed by naturals.
pub(crate) open spec fn lift_map<V>(m: Map<usize, V>) -> Map<nat, V> {
    Map::new(|k: nat| k <= usize::MAX && m.contains_key(k as usize), |k: nat| m[k as usize])
}

/// The token manager, the listener's token and the connection table of one
/// event loop.
pub struct Reactor<S> {
    tokens: TokenManager,
    listen_token: Token,
    clients: HashMap<usize, Client<S>>,
}

impl<S> View for Reactor<S> {
    type V = ReactorState<S>;

    closed spec fn view(&self) -> ReactorState<S> {
        ReactorState {
            tokens: self.tokens@,
            listener: token_index(self.listen_token) as nat,
            clients: lift_map(self.clients@),
        }
    }
}

impl<S> Reactor<S> {
    /// The reactor's invariant.
    pub open spec fn wf(&self) -> bool {
        self@.wf()
    }

    /// A reactor with no connection. It allocates the token under which the
    /// listening socket is to be registered.
    pub fn new() -> (reactor: Reactor<S>)
        ensures
            reactor.wf(),
            reactor@ == ReactorState::<S>::initial(),
    {
        let mut tokens = TokenManager::new();
        let listen_token = tokens.allocate_token();
        let reactor = Reactor { tokens, listen_token, clients: HashMap::new() };
        assert(reactor@.clients =~= Map::<nat, Client<S>>::empty());
        assert(reactor@.tokens.used =~= reactor@.clients.dom().insert(reactor@.listener));
        reactor
    }

    /// The token of the listening socket.
    pub fn listen_token(&self) -> (token: Token)
        ensures
            token_index(token) as nat == self@.listener,
    {
        self.listen_token
    }

    /// The number of open connections.
    pub fn client_count(&self) -> (n: usize)
        ensures
            n == self@.clients.dom().len(),
    {
        proof {
            lemma_lift_map_len(self.clients@);
        }
        self.clients.len()
    }

    /// Whom a readiness event with this token is for.
    pub fn dispatch(&self, token: Token) -> (target: Dispatch)
        ensures
            target == self@.dispatch(token_index(token) as nat),
    {
        let index: usize = index_of(token);
        if index == index_of(self.listen_token) {
            Dispatch::Listener
        } else if self.clients.contains_key(&index) {
            Dispatch::Client
        } else {
            Dispatch::Stale
        }
    }

    /// Whether a token is left for one more connection: one is free for reuse,
    /// or the counter has not reached the largest index.
    pub open spec fn spec_has_capacity(&self) -> bool {
        self@.tokens.free.len() > 0 || self@.tokens.next < usize::MAX
    }

    /// Whether a connection can be taken in.
    #[verifier::when_used_as_spec(spec_has_capacity)]
    pub fn has_capacity(&self) -> (yes: bool)
        ensures
            yes == self.spec_has_capacity(),
    {
        self.tokens.has_capacity()
    }

    /// The token that the next accepted connection gets: the one to register
    /// its socket under before handing it to `on_accept`.
    pub fn next_token(&self) -> (token: Token)
        requires
            self.wf(),
            self.has_capacity(),
        ensures
            token_index(token) as nat == self@.tokens.upcoming(),
            self@.dispatch(token_index(token) as nat) is Stale,
    {
        proof {
            lemma_allocate_keeps_wf(self@.tokens);
        }
        self.tokens.peek_token()
    }

    /// Takes in the result of one accept call. A connection gets a token and
    /// an entry in the table; a call that would block ends the accepting for
    /// this event; any other failure ends the loop.
    pub fn on_accept(&mut self, accepted: Accepted<S>) -> (step: AcceptStep)
        requires
            old(self).wf(),
            accepted is Connection ==> old(self).has_capacity(),
        ensures
            final(self).wf(),
            match accepted {
                Accepted::Connection(client) => {
                    &&& step matches AcceptStep::Attached(token)
                    &&& token_index(token) as nat == old(self)@.tokens.upcoming()
                    &&& final(self)@ == old(self)@.attach(client)
                },
                Accepted::WouldBlock => step is Drained && final(self)@ == old(self)@,
                Accepted::Failed => step is Abort && final(self)@ == old(self)@,
            },
    {
        match accepted {
            Accepted::Connection(client) => {
                proof {
                    lemma_attach_keeps_wf(self@, client);
                }
                let token = self.tokens.allocate_token();
                let index: usize = index_of(token);
                self.clients.insert(index, client);
                assert(self@.clients =~= old(self)@.clients.insert(index as nat, client));
                AcceptStep::Attached(token)
            },
            Accepted::WouldBlock => AcceptStep::Drained,
            Accepted::Failed => AcceptStep::Abort,
        }
    }

    /// Tears down the connection under `token`: frees the token and takes the
    /// entry out of the table, in one step. The entry is returned, so that its
    /// socket can be deregistered and closed. Without a connection under the
    /// token nothing happens.
    pub fn teardown(&mut self, token: Token) -> (removed: Option<Client<S>>)
        requires
            old(self).wf(),
        ensures
            final(self).wf(),
            final(self)@ == old(self)@.teardown(token_index(token) as nat),
            removed == if old(self)@.clients.contains_key(token_index(token) as nat) {
                Some(old(self)@.clients[token_index(token) as nat])
            } else {
                None
            },
    {
        proof {
            lemma_teardown_keeps_wf(self@, token_index(token) as nat);
        }
        let index: usize = index_of(token);
        match self.clients.remove(&index) {
            Some(client) => {
                self.tokens.free_token(token);
                assert(self@.clients =~= old(self)@.clients.remove(index as nat));
                Some(client)
            },
            None => {
                assert(self@.clients =~= old(self)@.clients);
                None
            },
        }
    }

    /// Takes in the result of one read on the connection under `token`, into a
    /// buffer of `SCRATCH_SIZE` bytes. On the end of the stream or a failure
    /// the connection is torn down; the other connections are not touched.
    pub fn on_read(&mut self, token: Token, outcome: IoOutcome) -> (served: Served<S>)
        requires
            old(self).wf(),
        ensures
            final(self).wf(),
            ({
                let t = token_index(token) as nat;
                let before = old(self)@;
                if !before.clients.contains_key(t) {
                    served is Stale && final(self)@ == before
                } else {
                    match outcome {
                        IoOutcome::Transferred(n) => if n == 0 {
                            served == Served::Closed(before.clients[t]) && final(self)@
                                == before.teardown(t)
                        } else if n <= SCRATCH_SIZE {
                            &&& served matches Served::Echo(echo)
                            &&& echo@ == EchoState::start(n as nat)
                            &&& final(self)@ == before
                        } else {
                            served == Served::Failed(before.clients[t]) && final(self)@
                                == before.teardown(t)
                        },
                        IoOutcome::WouldBlock => served is Wait && final(self)@ == before,
                        IoOutcome::Failed => served == Served::Failed(before.clients[t])
                            && final(self)@ == before.teardown(t),
                    }
                }
            }),
    {
        let index: usize = index_of(token);
        let open = self.clients.contains_key(&index);
        match after_read(outcome) {
            ReadStep::Echo(echo) => if open {
                Served::Echo(echo)
            } else {
                Served::Stale
            },
            ReadStep::Wait => if open {
                Served::Wait
            } else {
                Served::Stale
            },
            ReadStep::Closed => match self.teardown(token) {
                Some(client) => Served::Closed(client),
                None => Served::Stale,
            },
            ReadStep::Failed => match self.teardown(token) {
                Some(client) => Served::Failed(client),
                None => Served::Stale,
            },
        }
    }

    /// The connection under `token`, if one is open.
    pub fn client(&self, token: Token) -> (found: Option<&Client<S>>)
        ensures
            match found {
                Some(client) => self@.clients.contains_key(token_index(token) as nat)
                    && *client == self@.clients[token_index(token) as nat],
                None => !self@.clients.contains_key(token_index(token) as nat),
            },
    {
        let index: usize = index_of(token);
        self.clients.get(&index)
    }
}

/// Accepting a connection keeps the state well formed.
pub proof fn lemma_attach_keeps_wf<S>(state: ReactorState<S>, client: Client<S>)
    requires
        state.wf(),
    ensures
        state.attach(client).wf(),
        !state.clients.contains_key(state.tokens.upcoming()),
        state.tokens.upcoming() != state.listener,
{
    lemma_allocate_keeps_wf(state.tokens);
    let after = state.attach(client);
    assert(after.tokens.used =~= after.clients.dom().insert(after.listener));
}

/// Tearing a connection down keeps the state well formed.
pub proof fn lemma_teardown_keeps_wf<S>(state: ReactorState<S>, token: nat)
    requires
        state.wf(),
    ensures
        state.teardown(token).wf(),
{
    lemma_release_keeps_wf(state.tokens, token);
    let after = state.teardown(token);
    assert(after.tokens.used =~= after.clients.dom().insert(after.listener));
}

/// A teardown touches one connection only: every other entry of the table is
/// as it was, and the listener keeps its token.
pub proof fn lemma_teardown_is_local<S>(state: ReactorState<S>, token: nat, other: nat)
    requires
        other != token,
    ensures
        state.teardown(token).listener == state.listener,
        state.teardown(token).clients.contains_key(other) == state.clients.contains_key(other),
        state.clients.contains_key(other) ==> state.teardown(token).clients[other]
            == state.clients[other],
        state.teardown(token).dispatch(other) == state.dispatch(other),
{
}

/// After an orderly close the server goes on as before: the token of the
/// connection that was torn down is free, nothing answers to it, and the next
/// connection accepted gets that token, without a new one being minted.
pub proof fn lemma_closed_token_is_reused<S>(state: ReactorState<S>, token: nat, client: Client<S>)
    requires
        state.wf(),
        state.clients.contains_key(token),
    ensures
        state.teardown(token).wf(),
        state.teardown(token).dispatch(token) is Stale,
        state.teardown(token).tokens.upcoming() == token,
        state.teardown(token).attach(client).wf(),
        state.teardown(token).attach(client).clients[token] == client,
        state.teardown(token).attach(client).dispatch(token) is Client,
        state.teardown(token).attach(client).tokens.next == state.tokens.next,
{
    lemma_teardown_keeps_wf(state, token);
    lemma_attach_keeps_wf(state.teardown(token), client);
}

/// Lifting a finite table keeps the number of its keys.
proof fn lemma_lift_map_len<V>(m: Map<usize, V>)
    requires
        m.dom().finite(),
    ensures
        lift_map(m).dom().finite(),
        lift_map(m).dom().len() == m.dom().len(),
    decreases m.dom().len(),
{
    if m.dom().len() == 0 {
        assert(m.dom() =~= Set::empty());
        assert(lift_map(m).dom() =~= Set::empty());
    } else {
        let k = m.dom().choose();
        lemma_lift_map_len(m.remove(k));
        assert(lift_map(m).dom() =~= lift_map(m.remove(k)).dom().insert(k as nat));
    }
}

} // verus!
