//! The token pool as a mathematical value, and what holds of every run of it.

use vstd::prelude::*;

verus! {

/// The state of a token manager as a mathematical value.
pub struct TokenPool {
    /// The tokens that are allocated now.
    pub used: Set<nat>,
    /// The tokens that were freed and not handed out again, oldest first.
    pub free: Seq<nat>,
    /// The number of tokens minted so far, which is also the next one to mint.
    pub next: nat,
}

impl TokenPool {
    /// The pool before anything was allocated.
    pub open spec fn initial() -> TokenPool {
        TokenPool { used: Set::empty(), free: Seq::empty(), next: 0 }
    }

    /// The token that the next allocation hands out: the one freed last if
    /// there is one, else a new one.
    pub open spec fn upcoming(self) -> nat {
        if self.free.len() > 0 {
            self.free.last()
        } else {
            self.next
        }
    }

    /// The pool after one allocation.
    pub open spec fn allocate(self) -> TokenPool {
        if self.free.len() > 0 {
            TokenPool {
                used: self.used.insert(self.free.last()),
                free: self.free.drop_last(),
                next: self.next,
            }
        } else {
            TokenPool { used: self.used.insert(self.next), free: self.free, next: self.next + 1 }
        }
    }

    /// The pool after `token` was freed. A token that is not in use changes
    /// nothing.
    pub open spec fn release(self, token: nat) -> TokenPool {
        if self.used.contains(token) {
            TokenPool {
                used: self.used.remove(token),
                free: self.free.push(token),
                next: self.next,
            }
        } else {
            self
        }
    }

    /// What holds of every pool that allocations and frees can reach: the
    /// tokens below `next` are exactly those in use or free, and none is both,
    /// or free twice.
    pub open spec fn wf(self) -> bool {
        &&& self.free.no_duplicates()
        &&& forall|i: int| 0 <= i < self.free.len() ==> !self.used.contains(#[trigger] self.free[i])
        &&& forall|t: nat|
            t < self.next <==> #[trigger] self.used.contains(t) || self.free.contains(t)
    }
}

/// An allocation from a well-formed pool hands out a token that is not in use,
/// and leaves a well-formed pool.
pub proof fn lemma_allocate_keeps_wf(pool: TokenPool)
    requires
        pool.wf(),
    ensures
        !pool.used.contains(pool.upcoming()),
        pool.allocate().used == pool.used.insert(pool.upcoming()),
        pool.allocate().wf(),
{
    let after = pool.allocate();
    let token = pool.upcoming();
    if pool.free.len() > 0 {
        let last = pool.free.len() - 1;
        assert(pool.free[last] == token);
        assert forall|t: nat|
            t < after.next <==> #[trigger] after.used.contains(t) || after.free.contains(t) by {
            if pool.free.contains(t) && t != token {
                let i = choose|i: int| 0 <= i < pool.free.len() && pool.free[i] == t;
                assert(after.free[i] == t);
            }
            if after.free.contains(t) {
                let i = choose|i: int| 0 <= i < after.free.len() && after.free[i] == t;
                assert(pool.free[i] == t);
            }
            if t == token {
                assert(pool.free.contains(t));
            }
        }
        assert forall|i: int| 0 <= i < after.free.len() implies !after.used.contains(
            #[trigger] after.free[i],
        ) by {
            assert(after.free[i] == pool.free[i]);
        }
    } else {
        assert(!pool.free.contains(token));
        assert forall|t: nat|
            t < after.next <==> #[trigger] after.used.contains(t) || after.free.contains(t) by {
            if t < pool.next {
                assert(pool.used.contains(t) || pool.free.contains(t));
            }
        }
    }
}

/// Freeing a token, in use or not, leaves a well-formed pool well formed.
pub proof fn lemma_release_keeps_wf(pool: TokenPool, token: nat)
    requires
        pool.wf(),
    ensures
        pool.release(token).wf(),
{
    let after = pool.release(token);
    if pool.used.contains(token) {
        assert forall|i: int, j: int|
            0 <= i < after.free.len() && 0 <= j < after.free.len() && i != j implies after.free[i]
            != after.free[j] by {
            if i < pool.free.len() {
                assert(!pool.used.contains(pool.free[i]));
            }
            if j < pool.free.len() {
                assert(!pool.used.contains(pool.free[j]));
            }
        }
        assert forall|i: int| 0 <= i < after.free.len() implies !after.used.contains(
            #[trigger] after.free[i],
        ) by {
            if i < pool.free.len() {
                assert(after.free[i] == pool.free[i]);
            }
        }
        assert forall|t: nat|
            t < after.next <==> #[trigger] after.used.contains(t) || after.free.contains(t) by {
            if pool.free.contains(t) {
                let i = choose|i: int| 0 <= i < pool.free.len() && pool.free[i] == t;
                assert(after.free[i] == t);
            }
            if after.free.contains(t) && t != token {
                let i = choose|i: int| 0 <= i < after.free.len() && after.free[i] == t;
                assert(pool.free[i] == t);
            }
            if t == token {
                assert(after.free[pool.free.len() as int] == t);
                assert(pool.used.contains(t));
            }
        }
    }
}

/// One call on a token manager.
pub enum TokenOp {
    /// A call of allocate.
    Allocate,
    /// A call of free with this token.
    Free(nat),
}

impl TokenPool {
    /// The pool after one call.
    pub open spec fn apply(self, op: TokenOp) -> TokenPool {
        match op {
            TokenOp::Allocate => self.allocate(),
            TokenOp::Free(token) => self.release(token),
        }
    }

    /// The pool after a sequence of calls, made in order.
    pub open spec fn run(self, ops: Seq<TokenOp>) -> TokenPool
        decreases ops.len(),
    {
        if ops.len() == 0 {
            self
        } else {
            self.run(ops.drop_last()).apply(ops.last())
        }
    }
}

/// The pool that a new manager reaches by `ops`.
pub open spec fn reached(ops: Seq<TokenOp>) -> TokenPool {
    TokenPool::initial().run(ops)
}

/// The largest number of tokens that were in use at once at any point of
/// `ops`, started on a new manager.
pub open spec fn high_water(ops: Seq<TokenOp>) -> nat
    decreases ops.len(),
{
    if ops.len() == 0 {
        0
    } else {
        let before = high_water(ops.drop_last());
        let now = reached(ops).used.len();
        if now > before {
            now
        } else {
            before
        }
    }
}

/// Every pool that a new manager can reach is well formed.
pub proof fn lemma_reached_wf(ops: Seq<TokenOp>)
    ensures
        reached(ops).wf(),
    decreases ops.len(),
{
    if ops.len() > 0 {
        lemma_reached_wf(ops.drop_last());
        let before = reached(ops.drop_last());
        match ops.last() {
            TokenOp::Allocate => lemma_allocate_keeps_wf(before),
            TokenOp::Free(token) => lemma_release_keeps_wf(before, token),
        }
    }
}

/// Tokens are unique: after any sequence of allocations and frees, the token
/// that the next allocation hands out is not in use, so no two tokens that are
/// in use at the same time are equal.
pub proof fn lemma_tokens_unique(ops: Seq<TokenOp>)
    ensures
        !reached(ops).used.contains(reached(ops).upcoming()),
        reached(ops.push(TokenOp::Allocate)).used == reached(ops).used.insert(
            reached(ops).upcoming(),
        ),
{
    lemma_reached_wf(ops);
    lemma_allocate_keeps_wf(reached(ops));
    assert(ops.push(TokenOp::Allocate).drop_last() =~= ops);
}

/// A token stays in use until it is freed: the token that call `i` of `ops`
/// allocated is in use after the first `k` calls, when none of the calls after
/// `i` and before `k` frees it.
pub proof fn lemma_in_use_until_freed(ops: Seq<TokenOp>, i: int, k: int)
    requires
        0 <= i < k <= ops.len(),
        ops[i] is Allocate,
        forall|m: int| i < m < k ==> ops[m] != TokenOp::Free(reached(ops.take(i)).upcoming()),
    ensures
        reached(ops.take(k)).used.contains(reached(ops.take(i)).upcoming()),
    decreases k - i,
{
    let token = reached(ops.take(i)).upcoming();
    assert(ops.take(k).drop_last() =~= ops.take(k - 1));
    assert(ops.take(k).last() == ops[k - 1]);
    if k > i + 1 {
        lemma_in_use_until_freed(ops, i, k - 1);
    }
}

/// Tokens are unique along every run: two allocations of a sequence of calls
/// return different tokens, unless the token of the first was freed in
/// between.
pub proof fn lemma_live_tokens_differ(ops: Seq<TokenOp>, i: int, j: int)
    requires
        0 <= i < j < ops.len(),
        ops[i] is Allocate,
        ops[j] is Allocate,
        forall|m: int| i < m < j ==> ops[m] != TokenOp::Free(reached(ops.take(i)).upcoming()),
    ensures
        reached(ops.take(i)).upcoming() != reached(ops.take(j)).upcoming(),
{
    lemma_in_use_until_freed(ops, i, j);
    lemma_tokens_unique(ops.take(j));
}

/// Tokens are reused last in, first out: when `a` and then `b` are freed, both
/// in use and different, the next two allocations return `b` and then `a`.
pub proof fn lemma_reuse_in_stack_order(pool: TokenPool, a: nat, b: nat)
    requires
        pool.used.contains(a),
        pool.used.contains(b),
        a != b,
    ensures
        pool.release(a).release(b).upcoming() == b,
        pool.release(a).release(b).allocate().upcoming() == a,
{
    let freed = pool.release(a).release(b);
    assert(freed.free == pool.free.push(a).push(b));
    assert(freed.allocate().free =~= pool.free.push(a));
}

/// Freeing is idempotent: a second free of the same token changes nothing, and
/// neither does a free of a token that is not in use, so whatever is allocated
/// afterwards is the same.
pub proof fn lemma_free_idempotent(pool: TokenPool, token: nat)
    ensures
        pool.release(token).release(token) == pool.release(token),
        !pool.used.contains(token) ==> pool.release(token) == pool,
        forall|ops: Seq<TokenOp>| #[trigger]
            pool.release(token).release(token).run(ops) == pool.release(token).run(ops),
{
}

/// In a well-formed pool every minted token is in use or free, and none both.
pub proof fn lemma_pool_count(pool: TokenPool)
    requires
        pool.wf(),
    ensures
        pool.used.finite(),
        pool.used.len() + pool.free.len() == pool.next,
    decreases pool.next,
{
    if pool.next == 0 {
        assert(pool.used =~= Set::empty());
        if pool.free.len() > 0 {
            assert(pool.free.contains(pool.free[0]));
        }
    } else {
        // Take the newest token out of the pool, from whichever side holds it.
        let top = (pool.next - 1) as nat;
        assert(pool.used.contains(top) || pool.free.contains(top));
        if pool.used.contains(top) {
            let rest = TokenPool {
                used: pool.used.remove(top),
                free: pool.free,
                next: top,
            };
            assert forall|t: nat|
                t < rest.next <==> #[trigger] rest.used.contains(t) || rest.free.contains(t) by {
                if rest.free.contains(t) {
                    let i = choose|i: int| 0 <= i < pool.free.len() && pool.free[i] == t;
                    assert(!pool.used.contains(pool.free[i]));
                }
            }
            lemma_pool_count(rest);
            assert(pool.used =~= rest.used.insert(top));
        } else {
            let i = choose|i: int| 0 <= i < pool.free.len() && pool.free[i] == top;
            let rest = TokenPool { used: pool.used, free: pool.free.remove(i), next: top };
            assert forall|j: int| 0 <= j < rest.free.len() implies !rest.used.contains(
                #[trigger] rest.free[j],
            ) && rest.free[j] != top by {
                let k = if j < i {
                    j
                } else {
                    j + 1
                };
                assert(rest.free[j] == pool.free[k]);
            }
            assert forall|j: int, k: int|
                0 <= j < rest.free.len() && 0 <= k < rest.free.len() && j != k implies rest.free[j]
                != rest.free[k] by {
                let jj = if j < i {
                    j
                } else {
                    j + 1
                };
                let kk = if k < i {
                    k
                } else {
                    k + 1
                };
                assert(rest.free[j] == pool.free[jj]);
                assert(rest.free[k] == pool.free[kk]);
            }
            assert forall|t: nat|
                t < rest.next <==> #[trigger] rest.used.contains(t) || rest.free.contains(t) by {
                if pool.free.contains(t) && t != top {
                    let k = choose|k: int| 0 <= k < pool.free.len() && pool.free[k] == t;
                    let j = if k < i {
                        k
                    } else {
                        k - 1
                    };
                    assert(rest.free[j] == t);
                }
                if rest.free.contains(t) {
                    let j = choose|j: int| 0 <= j < rest.free.len() && rest.free[j] == t;
                    let k = if j < i {
                        j
                    } else {
                        j + 1
                    };
                    assert(pool.free[k] == t);
                }
            }
            lemma_pool_count(rest);
        }
    }
}

/// No token leaks: after any sequence of allocations and frees on a new
/// manager, the number of tokens ever minted is the largest number that were
/// in use at once. A new token is minted only when none is free.
pub proof fn lemma_minted_is_high_water(ops: Seq<TokenOp>)
    ensures
        reached(ops).next == high_water(ops),
    decreases ops.len(),
{
    if ops.len() == 0 {
    } else {
        let before = reached(ops.drop_last());
        let after = reached(ops);
        lemma_minted_is_high_water(ops.drop_last());
        lemma_reached_wf(ops.drop_last());
        lemma_reached_wf(ops);
        lemma_pool_count(before);
        lemma_pool_count(after);
        match ops.last() {
            TokenOp::Allocate => {
                lemma_allocate_keeps_wf(before);
            },
            TokenOp::Free(token) => {},
        }
    }
}

} // verus!
