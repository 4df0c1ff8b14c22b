//! The string generator: an odometer over an alphabet that walks every
//! string of every length in `[min_length, max_length]`.

use vstd::prelude::*;

use crate::odometer::{
    all_last, lemma_rank_bound, lemma_rank_succ, lemma_succ, lemma_succ_at, rank, succ, sum_pow,
    valid_digits, value, zeros,
};

verus! {

/// Why a generator could not be built.
#[derive(Debug, Clone, Copy, PartialEq, Eq, Structural)]
pub enum ConfigurationError {
    /// The alphabet has no characters.
    EmptyAlphabet,
    /// `min_length` is greater than `max_length`.
    MinExceedsMax,
}

/// The abstract state of a generator: its configuration, the current string
/// as digits (positions in the alphabet), and whether the current string has
/// been handed out yet.
pub struct GenState {
    pub alphabet: Seq<u8>,
    pub min_length: nat,
    pub max_length: nat,
    pub digits: Seq<nat>,
    pub started: bool,
}

impl GenState {
    /// The size of the alphabet.
    pub open spec fn k(self) -> nat {
        self.alphabet.len()
    }

    /// A usable configuration: a nonempty, duplicate-free alphabet and
    /// positive bounds in order.
    pub open spec fn config_ok(self) -> bool {
        &&& self.alphabet.len() >= 1
        &&& self.alphabet.no_duplicates()
        &&& 1 <= self.min_length <= self.max_length
    }

    /// A usable configuration and a current string of alphabet positions
    /// whose length lies between one and `max_length`.
    pub open spec fn wf(self) -> bool {
        &&& self.config_ok()
        &&& valid_digits(self.k(), self.digits)
        &&& 1 <= self.digits.len() <= self.max_length
    }

    /// The current string, spelled in the alphabet.
    pub open spec fn buffer(self) -> Seq<u8> {
        self.digits.map_values(|d: nat| self.alphabet[d as int])
    }

    /// The digits of the first string: the first `min_length` positions of
    /// the alphabet, in order (all of them when the alphabet is shorter).
    pub open spec fn start_digits(k: nat, min_length: nat) -> Seq<nat> {
        let n = if min_length <= k { min_length } else { k };
        Seq::new(n, |i: int| i as nat)
    }

    /// A generator that has not yet handed out its first string.
    pub open spec fn initial(alphabet: Seq<u8>, min_length: nat, max_length: nat) -> GenState {
        GenState {
            alphabet,
            min_length,
            max_length,
            digits: Self::start_digits(alphabet.len(), min_length),
            started: false,
        }
    }

    /// The state that `reset` leaves: the initial one of the same
    /// configuration.
    pub open spec fn reset(self) -> GenState {
        Self::initial(self.alphabet, self.min_length, self.max_length)
    }

    /// The last string of the longest length has been handed out.
    pub open spec fn is_exhausted(self) -> bool {
        &&& self.started
        &&& self.digits.len() == self.max_length
        &&& all_last(self.k(), self.digits)
    }

    /// Whether advancing yields a string.
    pub open spec fn yields(self) -> bool {
        !self.is_exhausted()
    }

    /// The state after advancing: the first call hands out the current
    /// string unchanged, later ones move to the odometer's successor, and an
    /// exhausted generator stays as it is.
    pub open spec fn advanced(self) -> GenState {
        if !self.started {
            GenState { started: true, ..self }
        } else if self.is_exhausted() {
            self
        } else {
            GenState { digits: succ(self.k(), self.digits), ..self }
        }
    }

    /// The state after advancing `n` times.
    pub open spec fn advanced_by(self, n: nat) -> GenState
        decreases n,
    {
        if n == 0 {
            self
        } else {
            self.advanced_by((n - 1) as nat).advanced()
        }
    }

    /// How many strings a generator of this configuration hands out between
    /// a reset and exhaustion: the strings of length one to `max_length`,
    /// less those that come before the first one.
    pub open spec fn count(self) -> nat {
        (sum_pow(self.k(), 1, self.max_length) - rank(self.k(), self.reset().digits)) as nat
    }
}

/// Enumerates strings over an alphabet in place, shortest first, each length
/// in alphabet order with the rightmost character changing fastest.
pub struct StringGenerator {
    /// The alphabet, without duplicates.
    chars: Vec<u8>,
    /// The current string.
    value: Vec<u8>,
    /// The position in `chars` of each character of `value`.
    indexes: Vec<usize>,
    min_length: usize,
    max_length: usize,
    /// Whether the current string has been handed out.
    started: bool,
}

impl View for StringGenerator {
    type V = GenState;

    closed spec fn view(&self) -> GenState {
        GenState {
            alphabet: self.chars@,
            min_length: self.min_length as nat,
            max_length: self.max_length as nat,
            digits: self.indexes@.map_values(|i: usize| i as nat),
            started: self.started,
        }
    }
}

impl StringGenerator {
    /// The abstract state is well formed and `value` spells `indexes`.
    pub closed spec fn wf(&self) -> bool {
        &&& self@.wf()
        &&& self.value@.len() == self.indexes@.len()
        &&& forall|i: int|
            0 <= i < self.value@.len() ==> self.value@[i] == self.chars@[self.indexes@[i] as int]
    }

    /// Builds a generator over `chars` whose current string is the first one
    /// of its sequence. Fails when `min_length > max_length` or when `chars`
    /// is empty.
    pub fn new(chars: &[u8], min_length: usize, max_length: usize) -> (r: Result<
        StringGenerator,
        ConfigurationError,
    >)
        requires
            1 <= min_length,
            chars@.no_duplicates(),
        ensures
            min_length > max_length ==> r == Err::<StringGenerator, _>(
                ConfigurationError::MinExceedsMax,
            ),
            min_length <= max_length && chars@.len() == 0 ==> r == Err::<StringGenerator, _>(
                ConfigurationError::EmptyAlphabet,
            ),
            min_length <= max_length && chars@.len() > 0 ==> r is Ok,
            r matches Ok(g) ==> g.wf() && g@ == GenState::initial(
                chars@,
                min_length as nat,
                max_length as nat,
            ),
    {
        if min_length > max_length {
            return Err(ConfigurationError::MinExceedsMax);
        }
        if chars.len() == 0 {
            return Err(ConfigurationError::EmptyAlphabet);
        }
        let mut generator = StringGenerator {
            chars: vstd::slice::slice_to_vec(chars),
            value: Vec::with_capacity(max_length),
            indexes: Vec::with_capacity(max_length),
            min_length,
            max_length,
            started: false,
        };
        generator.fill_start();
        Ok(generator)
    }

    /// Sets the current string to the first `min_length` characters of the
    /// alphabet and clears `started`.
    fn fill_start(&mut self)
        requires
            old(self)@.config_ok(),
        ensures
            final(self).wf(),
            final(self)@ == old(self)@.reset(),
    {
        self.value.clear();
        self.indexes.clear();
        let mut i: usize = 0;
        while i < self.min_length && i < self.chars.len()
            invariant
                self@.config_ok(),
                self.chars@ == old(self).chars@,
                self.min_length == old(self).min_length,
                self.max_length == old(self).max_length,
                i <= self.chars@.len(),
                i <= self.min_length,
                self.value@.len() == i,
                self.indexes@ == Seq::new(i as nat, |j: int| j as usize),
                forall|j: int| 0 <= j < i ==> self.value@[j] == self.chars@[j],
            decreases self.chars@.len() - i,
        {
            self.value.push(self.chars[i]);
            self.indexes.push(i);
            assert(self.indexes@ =~= Seq::new((i + 1) as nat, |j: int| j as usize));
            i = i + 1;
        }
        self.started = false;
        assert(self.indexes@.map_values(|i: usize| i as nat) =~= GenState::start_digits(
            self.chars@.len(),
            self.min_length as nat,
        ));
    }

    /// Returns to the first string of the sequence: the first `min_length`
    /// characters of the alphabet, with nothing handed out yet.
    pub fn reset(&mut self)
        requires
            old(self).wf(),
        ensures
            final(self).wf(),
            final(self)@ == old(self)@.reset(),
    {
        self.fill_start();
    }

    /// The current string.
    pub fn value(&self) -> (r: &[u8])
        requires
            self.wf(),
        ensures
            r@ == self@.buffer(),
    {
        assert(self.value@ =~= self@.buffer());
        self.value.as_slice()
    }

    /// The position in the alphabet of each character of the current string.
    pub fn indexes(&self) -> (r: &[usize])
        ensures
            r@.map_values(|i: usize| i as nat) == self@.digits,
    {
        self.indexes.as_slice()
    }

    /// Sets every position from `from` on to the alphabet's first character.
    fn clear_from(&mut self, from: usize)
        requires
            old(self).wf(),
            from <= old(self).indexes@.len(),
        ensures
            final(self).chars@ == old(self).chars@,
            final(self).min_length == old(self).min_length,
            final(self).max_length == old(self).max_length,
            final(self).started == old(self).started,
            final(self)@.digits == old(self)@.digits.take(from as int) + zeros(
                (old(self)@.digits.len() - from) as nat,
            ),
            final(self).value@.len() == final(self).indexes@.len(),
            forall|i: int|
                0 <= i < final(self).value@.len() ==> final(self).value@[i]
                    == final(self).chars@[final(self).indexes@[i] as int],
    {
        let ghost d0 = self@.digits;
        let len = self.indexes.len();
        let first = self.chars[0];
        let mut j: usize = from;
        while j < len
            invariant
                from <= j <= len,
                len == self.indexes@.len(),
                len == d0.len(),
                self.value@.len() == len,
                self.chars@ == old(self).chars@,
                self.chars@.len() >= 1,
                first == self.chars@[0],
                self.min_length == old(self).min_length,
                self.max_length == old(self).max_length,
                self.started == old(self).started,
                forall|i: int|
                    0 <= i < len ==> self.indexes@[i] as nat == (if from <= i < j {
                        0
                    } else {
                        d0[i]
                    }),
                forall|i: int|
                    0 <= i < len ==> self.value@[i] == self.chars@[self.indexes@[i] as int],
            decreases len - j,
        {
            self.value.set(j, first);
            self.indexes.set(j, 0);
            j = j + 1;
        }
        assert(self@.digits =~= d0.take(from as int) + zeros((d0.len() - from) as nat));
    }

    /// Moves to the next string of the sequence and says whether there was
    /// one. The first call after construction or `reset` hands out the
    /// current string unchanged. Otherwise the rightmost character that is
    /// not the alphabet's last becomes its successor and every character
    /// right of it becomes the first; when every character is the last, the
    /// string grows by one position and is all first characters, unless it
    /// already has `max_length` characters: then the sequence is exhausted
    /// and the generator stays as it is until `reset`.
    pub fn advance(&mut self) -> (r: bool)
        requires
            old(self).wf(),
        ensures
            final(self).wf(),
            r == old(self)@.yields(),
            final(self)@ == old(self)@.advanced(),
    {
        if !self.started {
            self.started = true;
            return true;
        }
        let ghost g = self@;
        let ghost k = g.k();
        let len = self.indexes.len();
        let last = self.chars.len() - 1;
        let mut i: usize = len;
        while i > 0 && self.indexes[i - 1] == last
            invariant
                self.wf(),
                self@ == g,
                len == self.indexes@.len(),
                last == k - 1,
                i <= len,
                forall|j: int| i <= j < len ==> g.digits[j] == k - 1,
            decreases i,
        {
            i = i - 1;
        }
        if i == 0 {
            assert(all_last(k, g.digits));
            if len < self.max_length {
                proof {
                    lemma_succ(k, g.digits);
                }
                self.clear_from(0);
                let ghost cleared = self.indexes@;
                assert(g.digits.take(0) + zeros(len as nat) =~= zeros(len as nat));
                assert(forall|i: int| 0 <= i < len ==> cleared[i] as nat == zeros(len as nat)[i]);
                let first = self.chars[0];
                self.value.push(first);
                self.indexes.push(0);
                assert(self.indexes@ == cleared.push(0usize));
                assert(self@.digits =~= zeros((len + 1) as nat));
                return true;
            }
            return false;
        }
        let p = i - 1;
        proof {
            assert(g.digits[p as int] == self.indexes@[p as int] as nat);
            assert(!all_last(k, g.digits));
            lemma_succ_at(k, g.digits, p as int);
        }
        let idx = self.indexes[p] + 1;
        self.value.set(p, self.chars[idx]);
        self.indexes.set(p, idx);
        let ghost d1 = self@.digits;
        assert(d1 =~= g.digits.update(p as int, idx as nat));
        self.clear_from(i);
        assert(self@.digits =~= succ(k, g.digits));
        proof {
            lemma_succ(k, g.digits);
        }
        true
    }
}

/// Advancing keeps the configuration; so `reset` after any number of steps
/// gives the same state.
pub proof fn lemma_advanced_by_config(g: GenState, n: nat)
    ensures
        g.advanced_by(n).alphabet == g.alphabet,
        g.advanced_by(n).min_length == g.min_length,
        g.advanced_by(n).max_length == g.max_length,
        g.advanced_by(n).reset() == g.reset(),
    decreases n,
{
    if n > 0 {
        lemma_advanced_by_config(g, (n - 1) as nat);
    }
}

/// The first string is well formed.
proof fn lemma_initial_wf(g: GenState)
    requires
        g.config_ok(),
    ensures
        g.reset().wf(),
{
}

/// From a reset state, the `m`-th string handed out (counting from one) has
/// rank `m - 1` above the first one, and advancing yields a string exactly
/// `count` times.
pub proof fn lemma_walk(g: GenState, m: nat)
    requires
        g.config_ok(),
        m <= g.count(),
    ensures
        g.count() >= 1,
        g.reset().advanced_by(m).wf(),
        m >= 1 ==> g.reset().advanced_by(m).started,
        m >= 1 ==> rank(g.k(), g.reset().advanced_by(m).digits) == rank(g.k(), g.reset().digits)
            + m - 1,
        g.reset().advanced_by(m).yields() <==> m < g.count(),
    decreases m,
{
    let g0 = g.reset();
    let k = g.k();
    let top = sum_pow(k, 1, g.max_length);
    lemma_initial_wf(g);
    lemma_rank_bound(k, g0.digits, g.max_length);
    lemma_advanced_by_config(g0, m);
    if m > 0 {
        lemma_walk(g, (m - 1) as nat);
        let s = g0.advanced_by((m - 1) as nat);
        let t = g0.advanced_by(m);
        if m > 1 {
            lemma_succ(k, s.digits);
            lemma_rank_succ(k, s.digits);
            assert(t.digits == succ(k, s.digits));
        }
        lemma_rank_bound(k, t.digits, g.max_length);
    }
}

/// A string spelled in a duplicate-free alphabet determines its digits.
proof fn lemma_buffer_injective(g: GenState, h: GenState)
    requires
        g.wf(),
        h.wf(),
        g.alphabet == h.alphabet,
        g.buffer() == h.buffer(),
    ensures
        g.digits == h.digits,
{
    assert(g.buffer().len() == g.digits.len());
    assert(h.buffer().len() == h.digits.len());
    assert forall|i: int| 0 <= i < g.digits.len() implies g.digits[i] == h.digits[i] by {
        assert(g.buffer()[i] == g.alphabet[g.digits[i] as int]);
        assert(h.buffer()[i] == h.alphabet[h.digits[i] as int]);
        assert(g.buffer()[i] == h.buffer()[i]);
    }
    assert(g.digits =~= h.digits);
}

/// Enumeration count: from a reset, a generator whose `min_length` is one
/// hands out `k^1 + k^2 + ... + k^max_length` strings, all different, and then
/// reports exhaustion.
pub proof fn lemma_enumeration_count(g: GenState)
    requires
        g.config_ok(),
        g.min_length == 1,
    ensures
        g.count() == sum_pow(g.k(), g.min_length, g.max_length),
        forall|m: nat| m < g.count() ==> #[trigger] g.reset().advanced_by(m).yields(),
        !g.reset().advanced_by(g.count()).yields(),
        forall|a: nat, b: nat|
            1 <= a < b <= g.count() ==> #[trigger] g.reset().advanced_by(a).buffer()
                != #[trigger] g.reset().advanced_by(b).buffer(),
{
    let k = g.k();
    let start = g.reset().digits;
    assert(start.drop_last() =~= Seq::<nat>::empty());
    assert(start.len() == 1 && start[0] == 0);
    assert(value(k, start.drop_last()) == 0);
    assert(0 * k == 0);
    assert(value(k, start) == 0);
    assert(rank(k, start) == 0);
    assert forall|m: nat| m < g.count() implies #[trigger] g.reset().advanced_by(m).yields() by {
        lemma_walk(g, m);
    }
    lemma_walk(g, g.count());
    assert forall|a: nat, b: nat|
        1 <= a < b <= g.count() implies #[trigger] g.reset().advanced_by(a).buffer()
        != #[trigger] g.reset().advanced_by(b).buffer() by {
        lemma_walk(g, a);
        lemma_walk(g, b);
        lemma_advanced_by_config(g.reset(), a);
        lemma_advanced_by_config(g.reset(), b);
        if g.reset().advanced_by(a).buffer() == g.reset().advanced_by(b).buffer() {
            lemma_buffer_injective(g.reset().advanced_by(a), g.reset().advanced_by(b));
        }
    }
}

/// Reset: whatever was handed out before, `reset` returns to the first
/// `min_length` characters of the alphabet with nothing handed out, and a
/// second `reset` changes nothing.
pub proof fn lemma_reset(g: GenState, n: nat)
    requires
        g.config_ok(),
    ensures
        g.advanced_by(n).reset() == g.reset(),
        g.reset().reset() == g.reset(),
        g.reset().buffer() == g.alphabet.take(g.reset().digits.len() as int),
        g.reset().digits.len() == (if g.min_length <= g.k() { g.min_length } else { g.k() }),
        !g.reset().started,
{
    lemma_advanced_by_config(g, n);
    assert(g.reset().buffer() =~= g.alphabet.take(g.reset().digits.len() as int));
}

} // verus!
