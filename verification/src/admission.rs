//! Admission of requests: in a closed loop a fixed number of users take turns,
//! and each has at most one request under way.
//!
//! A user is a token. A request takes a token before it is issued and hands
//! it back when it is done, whatever became of it. With every token out, the
//! next request has to wait. An open loop has no tokens: every request goes
//! through.

use vstd::prelude::*;

verus! {

/// The tokens of a closed loop, numbered from 0.
pub struct TokenPool {
    free: Vec<usize>,
    out: Vec<bool>,
}

impl TokenPool {
    /// The number of tokens.
    pub closed spec fn capacity(&self) -> nat {
        self.out@.len()
    }

    /// The tokens that are out with a request.
    pub closed spec fn outstanding(&self) -> Set<usize> {
        Set::new(|token: usize| token < self.out@.len() && self.out@[token as int])
    }

    /// Every token is either free or out, and none is free twice.
    pub closed spec fn wf(&self) -> bool {
        &&& self.free@.no_duplicates()
        &&& forall|i: int| 0 <= i < self.free@.len() ==> #[trigger] self.free@[i] < self.out@.len()
        &&& forall|token: usize|
            token < self.out@.len() ==> (self.out@[token as int] <==> !self.free@.contains(token))
        &&& self.outstanding().finite()
        &&& self.outstanding().len() + self.free@.len() == self.out@.len()
    }

    /// A pool of `capacity` tokens, all free.
    pub fn new(capacity: usize) -> (pool: Self)
        ensures
            pool.wf(),
            pool.capacity() == capacity,
            pool.outstanding() == Set::<usize>::empty(),
    {
        let mut free: Vec<usize> = Vec::new();
        let mut out: Vec<bool> = Vec::new();
        let mut token: usize = 0;
        while token < capacity
            invariant
                token <= capacity,
                free.len() == token,
                out.len() == token,
                forall|i: int| 0 <= i < token ==> #[trigger] free[i] == i,
                forall|i: int| 0 <= i < token ==> !#[trigger] out[i],
            decreases capacity - token,
        {
            free.push(token);
            out.push(false);
            token += 1;
        }
        let pool = Self { free, out };
        proof {
            assert(pool.outstanding() =~= Set::<usize>::empty());
            assert forall|t: usize| t < pool.out@.len() implies (pool.out@[t as int]
                <==> !pool.free@.contains(t)) by {
                assert(pool.free@[t as int] == t);
            }
        }
        pool
    }

    /// Takes a free token, if there is one.
    pub fn acquire(&mut self) -> (token: Option<usize>)
        requires
            old(self).wf(),
        ensures
            final(self).wf(),
            final(self).capacity() == old(self).capacity(),
            old(self).outstanding().len() < old(self).capacity() ==> {
                &&& token matches Some(t)
                &&& t < old(self).capacity()
                &&& !old(self).outstanding().contains(t)
                &&& final(self).outstanding() == old(self).outstanding().insert(t)
            },
            old(self).outstanding().len() >= old(self).capacity() ==> {
                &&& token.is_none()
                &&& final(self).outstanding() == old(self).outstanding()
            },
    {
        let ghost before = *self;
        match self.free.pop() {
            Some(t) => {
                self.out.set(t, true);
                proof {
                    assert(before.free@[before.free@.len() - 1] == t);
                    assert(!self.free@.contains(t));
                    assert(!before.outstanding().contains(t));
                    assert(self.outstanding() =~= before.outstanding().insert(t));
                    assert forall|u: usize| u < self.out@.len() implies (self.out@[u as int]
                        <==> !self.free@.contains(u)) by {
                        if u != t {
                            if before.free@.contains(u) {
                                let i = choose|i: int|
                                    0 <= i < before.free@.len() && before.free@[i] == u;
                                assert(self.free@[i] == u);
                            }
                        }
                    }
                }
                Some(t)
            },
            None => None,
        }
    }

    /// Hands a token back. Tells whether the token was out: a token that is
    /// not out, or that the pool does not have, is not taken.
    pub fn release(&mut self, token: usize) -> (taken: bool)
        requires
            old(self).wf(),
        ensures
            final(self).wf(),
            final(self).capacity() == old(self).capacity(),
            taken == old(self).outstanding().contains(token),
            final(self).outstanding() == old(self).outstanding().remove(token),
    {
        let ghost before = *self;
        if token < self.out.len() && self.out[token] {
            self.out.set(token, false);
            self.free.push(token);
            proof {
                assert(self.outstanding() =~= before.outstanding().remove(token));
                assert forall|u: usize| u < self.out@.len() implies (self.out@[u as int]
                    <==> !self.free@.contains(u)) by {
                    if u == token {
                        assert(self.free@[self.free@.len() - 1] == token);
                    } else if before.free@.contains(u) {
                        let i = choose|i: int| 0 <= i < before.free@.len() && before.free@[i] == u;
                        assert(self.free@[i] == u);
                    }
                }
            }
            true
        } else {
            proof {
                assert(self.outstanding() =~= before.outstanding().remove(token));
            }
            false
        }
    }

    /// The number of tokens that are out.
    pub fn in_flight(&self) -> (count: usize)
        requires
            self.wf(),
        ensures
            count == self.outstanding().len(),
            count <= self.capacity(),
    {
        self.out.len() - self.free.len()
    }
}

/// In a pool the tokens that are out are never more than the pool has.
pub proof fn lemma_outstanding_bounded(pool: TokenPool)
    requires
        pool.wf(),
    ensures
        pool.outstanding().finite(),
        pool.outstanding().len() <= pool.capacity(),
        forall|token: usize| pool.outstanding().contains(token) ==> token < pool.capacity(),
{
}

/// Whether a request may be issued.
#[derive(Clone, Copy, Debug, PartialEq, Eq, Structural)]
pub enum Admission {
    /// Open loop: the request is issued, and holds no token.
    Open,
    /// Closed loop: the request is issued and holds this token.
    Granted { token: usize },
    /// Closed loop: every token is out, and the request waits for one.
    Wait,
}

/// The admission controller: a token pool in a closed loop, nothing in an
/// open one.
pub struct AdmissionController {
    pool: Option<TokenPool>,
}

impl AdmissionController {
    /// The bound on the requests under way, if there is one.
    pub closed spec fn bound(&self) -> Option<nat> {
        match self.pool {
            Some(pool) => Some(pool.capacity()),
            None => None,
        }
    }

    /// The tokens that are out with a request.
    pub closed spec fn outstanding(&self) -> Set<usize> {
        match self.pool {
            Some(pool) => pool.outstanding(),
            None => Set::empty(),
        }
    }

    /// The pool, if there is one, is well formed.
    pub closed spec fn wf(&self) -> bool {
        match self.pool {
            Some(pool) => pool.wf(),
            None => true,
        }
    }

    /// A controller that lets every request through.
    pub fn open_loop() -> (controller: Self)
        ensures
            controller.wf(),
            controller.bound().is_none(),
            controller.outstanding() == Set::<usize>::empty(),
    {
        Self { pool: None }
    }

    /// A controller that lets at most `users` requests be under way at a time.
    pub fn closed_loop(users: usize) -> (controller: Self)
        ensures
            controller.wf(),
            controller.bound() == Some(users as nat),
            controller.outstanding() == Set::<usize>::empty(),
    {
        Self { pool: Some(TokenPool::new(users)) }
    }

    /// Asks for admission of the next request.
    pub fn enter(&mut self) -> (admission: Admission)
        requires
            old(self).wf(),
        ensures
            final(self).wf(),
            final(self).bound() == old(self).bound(),
            match old(self).bound() {
                None => admission == Admission::Open && final(self).outstanding() == old(
                    self,
                ).outstanding(),
                Some(users) => if old(self).outstanding().len() < users {
                    &&& admission matches Admission::Granted { token }
                    &&& token < users
                    &&& !old(self).outstanding().contains(token)
                    &&& final(self).outstanding() == old(self).outstanding().insert(token)
                } else {
                    &&& admission == Admission::Wait
                    &&& final(self).outstanding() == old(self).outstanding()
                },
            },
    {
        match &mut self.pool {
            None => Admission::Open,
            Some(pool) => match pool.acquire() {
                Some(token) => Admission::Granted { token },
                None => Admission::Wait,
            },
        }
    }

    /// Takes back the token of a request that is done. Tells whether the
    /// token was out; an open loop has no tokens to take back.
    pub fn complete(&mut self, token: usize) -> (taken: bool)
        requires
            old(self).wf(),
        ensures
            final(self).wf(),
            final(self).bound() == old(self).bound(),
            taken == old(self).outstanding().contains(token),
            final(self).outstanding() == old(self).outstanding().remove(token),
    {
        match &mut self.pool {
            None => {
                assert(Set::<usize>::empty().remove(token) =~= Set::<usize>::empty());
                false
            },
            Some(pool) => pool.release(token),
        }
    }
}

/// With a bound of `users`, never more than `users` requests are under way.
pub proof fn lemma_bound_holds(controller: AdmissionController)
    requires
        controller.wf(),
    ensures
        controller.outstanding().finite(),
        controller.bound() matches Some(users) ==> controller.outstanding().len() <= users,
{
    match controller.pool {
        Some(pool) => {
            lemma_outstanding_bounded(pool);
        },
        None => {},
    }
}

} // verus!
