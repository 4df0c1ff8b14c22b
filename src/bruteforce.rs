//! The search driver: two generators, the password changing fastest, and a
//! hash check on every pair they produce.

use vstd::prelude::*;

use crate::credentials::{credentials_hash, Credentials};
use crate::generator::{
    lemma_advanced_by_config, lemma_reset, lemma_walk, ConfigurationError, GenState, StringGenerator,
};
use vstd::arithmetic::div_mod::{lemma_fundamental_div_mod, lemma_fundamental_div_mod_converse};

verus! {

/// What one step of the search did.
#[derive(Debug, Clone, Copy, PartialEq, Eq, Structural)]
pub enum Step {
    /// A new pair was produced and its hash differs from the target.
    Miss,
    /// A new pair was produced and its hash equals the target.
    Match,
    /// Every pair has been produced; the search is over.
    Exhausted,
}

/// The verdict on a pair against a target hash.
pub open spec fn verdict(username: Seq<u8>, password: Seq<u8>, hash: i32) -> Step {
    if credentials_hash(username, password) == hash as int {
        Step::Match
    } else {
        Step::Miss
    }
}

/// The abstract state of the search: the state of each axis.
pub struct DriverState {
    pub username: GenState,
    pub password: GenState,
}

impl DriverState {
    /// The state of a new search: the username axis is on its first string,
    /// already in use, and the password axis is reset.
    pub open spec fn initial(username: GenState, password: GenState) -> DriverState {
        DriverState { username: username.reset().advanced(), password: password.reset() }
    }

    /// The current pair.
    pub open spec fn pair(self) -> (Seq<u8>, Seq<u8>) {
        (self.username.buffer(), self.password.buffer())
    }

    /// Whether the next step produces a pair.
    pub open spec fn produces(self) -> bool {
        self.password.yields() || self.username.yields()
    }

    /// The state after one step: the password axis advances; when it is
    /// exhausted, the username axis advances and the password axis starts
    /// over from its first string; when both are exhausted, nothing changes.
    pub open spec fn stepped(self) -> DriverState {
        if self.password.yields() {
            DriverState { password: self.password.advanced(), ..self }
        } else if self.username.yields() {
            DriverState {
                username: self.username.advanced(),
                password: self.password.reset().advanced(),
            }
        } else {
            self
        }
    }

    /// What one step reports: the verdict on the pair it produces, or the
    /// end of the search.
    pub open spec fn outcome(self, hash: i32) -> Step {
        if self.produces() {
            verdict(self.stepped().pair().0, self.stepped().pair().1, hash)
        } else {
            Step::Exhausted
        }
    }

    /// The state after `n` steps.
    pub open spec fn stepped_by(self, n: nat) -> DriverState
        decreases n,
    {
        if n == 0 {
            self
        } else {
            self.stepped_by((n - 1) as nat).stepped()
        }
    }
}

/// An exhaustive search over username and password strings of one alphabet
/// and one length range.
pub struct Bruteforce {
    username: StringGenerator,
    password: StringGenerator,
}

impl View for Bruteforce {
    type V = DriverState;

    closed spec fn view(&self) -> DriverState {
        DriverState { username: self.username@, password: self.password@ }
    }
}

impl Bruteforce {
    pub closed spec fn wf(&self) -> bool {
        self.username.wf() && self.password.wf()
    }

    /// Sets up a search over `chars` with strings of `min_length` to
    /// `max_length` characters on both axes. Fails as the generators do.
    pub fn new(chars: &[u8], min_length: usize, max_length: usize) -> (r: Result<
        Bruteforce,
        ConfigurationError,
    >)
        requires
            1 <= min_length,
            chars@.no_duplicates(),
        ensures
            min_length > max_length ==> r == Err::<Bruteforce, _>(
                ConfigurationError::MinExceedsMax,
            ),
            min_length <= max_length && chars@.len() == 0 ==> r == Err::<Bruteforce, _>(
                ConfigurationError::EmptyAlphabet,
            ),
            min_length <= max_length && chars@.len() > 0 ==> r is Ok,
            r matches Ok(b) ==> b.wf() && b@ == DriverState::initial(
                GenState::initial(chars@, min_length as nat, max_length as nat),
                GenState::initial(chars@, min_length as nat, max_length as nat),
            ),
    {
        let mut username = match StringGenerator::new(chars, min_length, max_length) {
            Ok(g) => g,
            Err(e) => return Err(e),
        };
        let password = match StringGenerator::new(chars, min_length, max_length) {
            Ok(g) => g,
            Err(e) => return Err(e),
        };
        // The first username is in use from the first pair on.
        username.advance();
        Ok(Bruteforce { username, password })
    }

    /// The current pair.
    pub fn credentials(&self) -> (r: Credentials<'_>)
        requires
            self.wf(),
        ensures
            r.username@ == self@.username.buffer(),
            r.password@ == self@.password.buffer(),
    {
        Credentials::new(self.username.value(), self.password.value())
    }

    /// Produces the next pair and checks it against `hash`, or reports that
    /// the search is over.
    pub fn step(&mut self, hash: i32) -> (r: Step)
        requires
            old(self).wf(),
        ensures
            final(self).wf(),
            final(self)@ == old(self)@.stepped(),
            r == old(self)@.outcome(hash),
    {
        if !self.password.advance() {
            if !self.username.advance() {
                return Step::Exhausted;
            }
            self.password.reset();
            // Hands out the reset password as the pair's password, so that
            // the next step moves past it.
            self.password.advance();
        }
        if self.credentials().verify(hash) {
            Step::Match
        } else {
            Step::Miss
        }
    }
}

/// After `n >= 1` steps of a new search, the username axis has handed out
/// string number `(n - 1) / np` of its sequence and the password axis string
/// number `(n - 1) % np`, numbering from zero, where `np` is the password
/// axis's count; and step `n - 1` produced a pair.
proof fn lemma_state(u: GenState, p: GenState, n: nat)
    requires
        u.config_ok(),
        p.config_ok(),
        1 <= n <= u.count() * p.count(),
    ensures
        DriverState::initial(u, p).stepped_by(n) == (DriverState {
            username: u.reset().advanced_by((((n - 1) as nat) / p.count() + 1) as nat),
            password: p.reset().advanced_by((((n - 1) as nat) % p.count() + 1) as nat),
        }),
        DriverState::initial(u, p).stepped_by((n - 1) as nat).produces(),
    decreases n,
{
    let np = p.count();
    let nu = u.count();
    let d0 = DriverState::initial(u, p);
    lemma_walk(p, 0);
    lemma_walk(u, 0);
    if n == 1 {
        lemma_fundamental_div_mod_converse(0, np as int, 0, 0);
        assert(u.reset().advanced_by(1) == u.reset().advanced());
        assert(p.reset().advanced_by(1) == p.reset().advanced_by(0).advanced());
        assert(d0.password.yields());
        assert(d0.stepped_by(1) == d0.stepped_by(0).stepped());
        assert(d0.stepped_by(1) == (DriverState {
            username: u.reset().advanced_by(1),
            password: p.reset().advanced_by(1),
        }));
    } else {
        let m = (n - 1) as nat;
        lemma_state(u, p, m);
        let i = ((m - 1) as nat) / np;
        let j = ((m - 1) as nat) % np;
        lemma_fundamental_div_mod((m - 1) as int, np as int);
        let s = d0.stepped_by(m);
        if j + 1 < np {
            lemma_walk(p, (j + 1) as nat);
            lemma_fundamental_div_mod_converse(m as int, np as int, i as int, (j + 1) as int);
            assert(s.password.yields());
            assert(p.reset().advanced_by((j + 2) as nat) == p.reset().advanced_by(
                (j + 1) as nat,
            ).advanced());
            assert(d0.stepped_by(n) == s.stepped());
            assert(d0.stepped_by(n) == (DriverState {
                username: u.reset().advanced_by((i + 1) as nat),
                password: p.reset().advanced_by((j + 2) as nat),
            }));
        } else {
            lemma_walk(p, np);
            assert(m == (i + 1) * np) by (nonlinear_arith)
                requires
                    m - 1 == np * i + j,
                    j + 1 == np,
            ;
            assert(i + 1 < nu) by (nonlinear_arith)
                requires
                    m == (i + 1) * np,
                    m < nu * np,
            ;
            lemma_walk(u, (i + 1) as nat);
            lemma_advanced_by_config(p.reset(), np);
            lemma_reset(p, 0);
            assert(p.reset().advanced_by(1) == p.reset().advanced_by(0).advanced());
            lemma_fundamental_div_mod_converse(m as int, np as int, (i + 1) as int, 0);
            assert(!s.password.yields());
            assert(s.username.yields());
            assert(u.reset().advanced_by((i + 2) as nat) == u.reset().advanced_by(
                (i + 1) as nat,
            ).advanced());
            assert(s.password.reset() == p.reset());
            assert(d0.stepped_by(n) == s.stepped());
        }
    }
}

/// Full cross-product coverage: a new search checks, at step `n` (counting
/// from zero), the pair of the username axis's string number `n / np` and the
/// password axis's string number `n % np`, for every `n` below `nu * np`,
/// where `nu` and `np` count each axis's strings; so every pair of the two
/// sequences is checked exactly once, passwords changing fastest. The step
/// after those reports the end of the search.
pub proof fn lemma_cross_product(u: GenState, p: GenState, hash: i32)
    requires
        u.config_ok(),
        p.config_ok(),
    ensures
        forall|n: nat|
            n < u.count() * p.count() ==> {
                let un = u.reset().advanced_by(n / p.count() + 1).buffer();
                let pn = p.reset().advanced_by(n % p.count() + 1).buffer();
                &&& #[trigger] DriverState::initial(u, p).stepped_by(n).outcome(hash) == verdict(
                    un,
                    pn,
                    hash,
                )
                &&& DriverState::initial(u, p).stepped_by(n + 1).pair() == (un, pn)
            },
        DriverState::initial(u, p).stepped_by(u.count() * p.count()).outcome(hash)
            == Step::Exhausted,
{
    let np = p.count();
    let nu = u.count();
    let d0 = DriverState::initial(u, p);
    lemma_walk(p, 0);
    lemma_walk(u, 0);
    assert forall|n: nat| n < nu * np implies {
        let un = u.reset().advanced_by(n / np + 1).buffer();
        let pn = p.reset().advanced_by(n % np + 1).buffer();
        &&& #[trigger] d0.stepped_by(n).outcome(hash) == verdict(un, pn, hash)
        &&& d0.stepped_by(n + 1).pair() == (un, pn)
    } by {
        lemma_state(u, p, n + 1);
        assert(d0.stepped_by(n + 1) == d0.stepped_by(n).stepped());
    }
    let last = nu * np;
    assert(last >= 1) by (nonlinear_arith)
        requires
            last == nu * np,
            nu >= 1,
            np >= 1,
    ;
    lemma_state(u, p, last);
    assert(last - 1 == (nu - 1) * np + (np - 1)) by (nonlinear_arith)
        requires
            last == nu * np,
            nu >= 1,
    ;
    lemma_fundamental_div_mod_converse(
        (last - 1) as int,
        np as int,
        (nu - 1) as int,
        (np - 1) as int,
    );
    lemma_walk(p, np);
    lemma_walk(u, nu);
}

} // verus!
