//! The rolling hash over a credentials message and the match check.

use vstd::prelude::*;

verus! {

/// The literal that opens every hashed message: `username=`.
pub open spec fn username_tag() -> Seq<u8> {
    seq![117u8, 115, 101, 114, 110, 97, 109, 101, 61]
}

/// The literal between the two fields: `&password=`.
pub open spec fn password_tag() -> Seq<u8> {
    seq![38u8, 112, 97, 115, 115, 119, 111, 114, 100, 61]
}

/// The exact bytes that are hashed for one candidate pair.
pub open spec fn message(username: Seq<u8>, password: Seq<u8>) -> Seq<u8> {
    username_tag() + username + password_tag() + password
}

/// Two's-complement wraparound of an integer into the range of `i32`.
pub open spec fn wrap_i32(x: int) -> int {
    let r = x % 0x1_0000_0000;
    if r > 0x7fff_ffff { r - 0x1_0000_0000 } else { r }
}

/// One step of the accumulator: `acc * 31 + byte`, wrapped to 32 bits.
pub open spec fn hash_step(acc: int, byte: u8) -> int {
    wrap_i32(acc * 31 + byte)
}

/// The accumulator after folding `bytes` left to right, starting from `acc`.
pub open spec fn fold_hash(acc: int, bytes: Seq<u8>) -> int
    decreases bytes.len(),
{
    if bytes.len() == 0 {
        acc
    } else {
        hash_step(fold_hash(acc, bytes.drop_last()), bytes.last())
    }
}

/// The rolling hash of a byte sequence: the fold started from zero.
pub open spec fn rolling_hash(bytes: Seq<u8>) -> int {
    fold_hash(0, bytes)
}

/// The hash of the message built from a candidate pair.
pub open spec fn credentials_hash(username: Seq<u8>, password: Seq<u8>) -> int {
    rolling_hash(message(username, password))
}

proof fn lemma_wrap_i32_range(x: int)
    ensures
        i32::MIN <= wrap_i32(x) <= i32::MAX,
        (wrap_i32(x) - x) % 0x1_0000_0000 == 0,
{
}

proof fn lemma_wrap_i32_congruent(x: int, y: int)
    requires
        (x - y) % 0x1_0000_0000 == 0,
    ensures
        wrap_i32(x) == wrap_i32(y),
{
}

/// Folding a concatenation is folding the second part from where the first
/// left off.
pub proof fn lemma_fold_hash_append(acc: int, a: Seq<u8>, b: Seq<u8>)
    ensures
        fold_hash(acc, a + b) == fold_hash(fold_hash(acc, a), b),
    decreases b.len(),
{
    if b.len() > 0 {
        assert((a + b).drop_last() =~= a + b.drop_last());
        lemma_fold_hash_append(acc, a, b.drop_last());
    } else {
        assert(a + b =~= a);
    }
}

/// The accumulator stays within `i32` whatever it folds.
pub proof fn lemma_fold_hash_range(acc: int, bytes: Seq<u8>)
    requires
        i32::MIN <= acc <= i32::MAX,
    ensures
        i32::MIN <= fold_hash(acc, bytes) <= i32::MAX,
    decreases bytes.len(),
{
    if bytes.len() > 0 {
        lemma_wrap_i32_range(fold_hash(acc, bytes.drop_last()) * 31 + bytes.last());
    }
}

/// Hash determinism: the hash of a pair is a function of the message bytes
/// alone, so pairs that spell the same message, and in particular the same
/// pair hashed twice, hash alike; and it always fits in an `i32`.
pub proof fn lemma_hash_deterministic(
    username: Seq<u8>,
    password: Seq<u8>,
    other_username: Seq<u8>,
    other_password: Seq<u8>,
)
    requires
        message(username, password) == message(other_username, other_password),
    ensures
        credentials_hash(username, password) == credentials_hash(other_username, other_password),
        i32::MIN <= credentials_hash(username, password) <= i32::MAX,
{
    lemma_fold_hash_range(0, message(username, password));
}

/// One accumulator step: multiply by 31 (shift left by five, less the
/// accumulator) and add the byte, with 32-bit wraparound.
fn step_hash(acc: i32, byte: u8) -> (r: i32)
    ensures
        r as int == hash_step(acc as int, byte),
{
    let r = acc.wrapping_mul(31).wrapping_add(byte as i32);
    proof {
        let m = acc.wrapping_mul(31);
        lemma_wrap_i32_range(acc * 31);
        assert(m as int == wrap_i32(acc * 31));
        let s = m as int + byte as int;
        assert(r as int == wrap_i32(s)) by {
            lemma_wrap_i32_range(s);
            lemma_wrap_i32_congruent(r as int, s);
        }
        lemma_wrap_i32_congruent(s, acc * 31 + byte);
    }
    r
}

/// Folds `bytes` into the accumulator `acc`.
fn fold_bytes(acc: i32, bytes: &[u8]) -> (r: i32)
    ensures
        r as int == fold_hash(acc as int, bytes@),
{
    let mut h: i32 = acc;
    let mut i: usize = 0;
    while i < bytes.len()
        invariant
            i <= bytes@.len(),
            h as int == fold_hash(acc as int, bytes@.take(i as int)),
        decreases bytes@.len() - i,
    {
        h = step_hash(h, bytes[i]);
        assert(bytes@.take(i + 1).drop_last() =~= bytes@.take(i as int));
        i = i + 1;
    }
    assert(bytes@.take(i as int) =~= bytes@);
    h
}

/// The bytes of `username=`.
fn username_tag_bytes() -> (r: [u8; 9])
    ensures
        r@ == username_tag(),
{
    let r: [u8; 9] = [117, 115, 101, 114, 110, 97, 109, 101, 61];
    assert(r@ =~= username_tag());
    r
}

/// The bytes of `&password=`.
fn password_tag_bytes() -> (r: [u8; 10])
    ensures
        r@ == password_tag(),
{
    let r: [u8; 10] = [38, 112, 97, 115, 115, 119, 111, 114, 100, 61];
    assert(r@ =~= password_tag());
    r
}

/// A candidate pair: a view of the current username and password, borrowed
/// from wherever they are held.
pub struct Credentials<'a> {
    pub username: &'a [u8],
    pub password: &'a [u8],
}

impl<'a> Credentials<'a> {
    /// Pairs a username with a password.
    pub fn new(username: &'a [u8], password: &'a [u8]) -> (r: Credentials<'a>)
        ensures
            r.username@ == username@,
            r.password@ == password@,
    {
        Credentials { username, password }
    }

    /// The rolling hash of `username=<username>&password=<password>`.
    pub fn hash(&self) -> (r: i32)
        ensures
            r as int == credentials_hash(self.username@, self.password@),
    {
        let user_tag = username_tag_bytes();
        let pass_tag = password_tag_bytes();
        let h1 = fold_bytes(0, user_tag.as_slice());
        let h2 = fold_bytes(h1, self.username);
        let h3 = fold_bytes(h2, pass_tag.as_slice());
        let h4 = fold_bytes(h3, self.password);
        proof {
            let u = self.username@;
            let p = self.password@;
            lemma_fold_hash_append(0, username_tag(), u);
            lemma_fold_hash_append(0, username_tag() + u, password_tag());
            lemma_fold_hash_append(0, username_tag() + u + password_tag(), p);
        }
        h4
    }

    /// Whether the pair's hash equals `hash`.
    pub fn verify(&self, hash: i32) -> (r: bool)
        ensures
            r == (credentials_hash(self.username@, self.password@) == hash as int),
    {
        self.hash() == hash
    }
}

} // verus!
