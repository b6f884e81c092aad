//! Allocation and reuse of poller tokens.

use crate::pool::{lemma_allocate_keeps_wf, lemma_release_keeps_wf, TokenPool};
use crate::token::{index_of, token_index, token_of};
use mio::Token;
use std::collections::HashSet;
use vstd::prelude::*;

verus! {

broadcast use vstd::std_specs::hash::group_hash_axioms;

/// A set of machine integers as a set of naturals.
pub(crate) open spec fn lift_set(s: Set<usize>) -> Set<nat> {
    Set::new(|t: nat| t <= usize::MAX && s.contains(t as usize))
}

/// A sequence of machine integers as a sequence of naturals.
pub(crate) open spec fn lift_seq(s: Seq<usize>) -> Seq<nat> {
    Seq::new(s.len(), |i: int| s[i] as nat)
}

/// Allocates and manages poller tokens, so that no two users hold the same one.
pub struct TokenManager {
    used_tokens: HashSet<usize>,
    free_tokens: Vec<usize>,
    next: usize,
}

impl View for TokenManager {
    type V = TokenPool;

    closed spec fn view(&self) -> TokenPool {
        TokenPool {
            used: lift_set(self.used_tokens@),
            free: lift_seq(self.free_tokens@),
            next: self.next as nat,
        }
    }
}

impl TokenManager {
    /// The manager's invariant: its pool is well formed.
    pub open spec fn wf(&self) -> bool {
        self@.wf()
    }

    /// A manager with no token allocated.
    pub fn new() -> (manager: TokenManager)
        ensures
            manager.wf(),
            manager@ == TokenPool::initial(),
    {
        let manager = TokenManager {
            used_tokens: HashSet::new(),
            free_tokens: Vec::new(),
            next: 0,
        };
        assert(manager@.used =~= Set::<nat>::empty());
        assert(manager@.free =~= Seq::<nat>::empty());
        manager
    }

    /// Whether a token can be allocated: one is free for reuse, or the counter
    /// has not reached the largest index.
    pub open spec fn spec_has_capacity(&self) -> bool {
        self@.free.len() > 0 || self@.next < usize::MAX
    }

    /// Whether `allocate_token` may be called.
    #[verifier::when_used_as_spec(spec_has_capacity)]
    pub fn has_capacity(&self) -> (yes: bool)
        ensures
            yes == self.spec_has_capacity(),
    {
        self.free_tokens.len() > 0 || self.next < usize::MAX
    }

    /// Whether `token` is allocated now.
    pub fn is_used(&self, token: Token) -> (yes: bool)
        ensures
            yes == self@.used.contains(token_index(token) as nat),
    {
        let index: usize = index_of(token);
        self.used_tokens.contains(&index)
    }

    /// The token that the next call of `allocate_token` returns.
    pub fn peek_token(&self) -> (token: Token)
        requires
            self.wf(),
            self.has_capacity(),
        ensures
            token_index(token) as nat == self@.upcoming(),
    {
        let n: usize = self.free_tokens.len();
        if n > 0 {
            token_of(self.free_tokens[n - 1])
        } else {
            token_of(self.next)
        }
    }

    /// Allocate an unused token: the one freed last if any is free, else a new
    /// one.
    pub fn allocate_token(&mut self) -> (token: Token)
        requires
            old(self).wf(),
            old(self).has_capacity(),
        ensures
            final(self).wf(),
            final(self)@ == old(self)@.allocate(),
            token_index(token) as nat == old(self)@.upcoming(),
            !old(self)@.used.contains(token_index(token) as nat),
    {
        proof {
            lemma_allocate_keeps_wf(self@);
        }
        if let Some(index) = self.free_tokens.pop() {
            self.used_tokens.insert(index);
            assert(self@.used =~= old(self)@.used.insert(index as nat));
            assert(self@.free =~= old(self)@.free.drop_last());
            token_of(index)
        } else {
            let index: usize = self.next;
            self.next = self.next + 1;
            self.used_tokens.insert(index);
            assert(self@.used =~= old(self)@.used.insert(index as nat));
            assert(self@.free =~= old(self)@.free);
            token_of(index)
        }
    }

    /// Release a token. One that is not allocated is left alone.
    pub fn free_token(&mut self, token: Token)
        requires
            old(self).wf(),
        ensures
            final(self).wf(),
            final(self)@ == old(self)@.release(token_index(token) as nat),
    {
        proof {
            lemma_release_keeps_wf(self@, token_index(token) as nat);
        }
        let index: usize = index_of(token);
        if self.used_tokens.remove(&index) {
            self.free_tokens.push(index);
            assert(self@.used =~= old(self)@.used.remove(index as nat));
            assert(self@.free =~= old(self)@.free.push(index as nat));
        } else {
            assert(self@.used =~= old(self)@.used);
        }
    }
}

} // verus!
