use vstd::prelude::*;

verus! {

use vstd::arithmetic::div_mod::{
    lemma_add_mod_noop,
    lemma_mod_add_multiples_vanish,
    lemma_mul_mod_noop_left,
    lemma_sub_mod_noop,
};

/// One byte's contribution to the rolling hash: the byte plus a bias of 31.
/// The sum stays far below 2^16, so the 16-bit accumulators see it whole.
pub open spec fn rh_term(x: u8) -> int {
    x + 31
}

/// First accumulator of the rolling hash over a window: the sum of the terms
/// of all bytes, wrapping at 16 bits.
pub open spec fn rh_a(s: Seq<u8>) -> int
    decreases s.len(),
{
    if s.len() == 0 {
        0
    } else {
        (rh_a(s.drop_last()) + rh_term(s.last())) % 0x10000
    }
}

/// Second accumulator: after each byte it absorbs the current value of the
/// first accumulator, wrapping at 16 bits.
pub open spec fn rh_b(s: Seq<u8>) -> int
    decreases s.len(),
{
    if s.len() == 0 {
        0
    } else {
        (rh_b(s.drop_last()) + rh_a(s)) % 0x10000
    }
}

/// The 32-bit weak hash of a byte sequence: the first accumulator in the low
/// half, the second in the high half.
pub open spec fn rh_hash(s: Seq<u8>) -> u32 {
    (rh_a(s) as u32) | ((rh_b(s) as u32) << 16)
}

/// The plain (unwrapped) sum of the terms of a byte sequence.
pub open spec fn rh_sum(s: Seq<u8>) -> int
    decreases s.len(),
{
    if s.len() == 0 {
        0
    } else {
        rh_sum(s.drop_last()) + rh_term(s.last())
    }
}

/// The plain weighted sum behind the second accumulator: each byte's term is
/// counted once for every byte from it to the end of the window.
pub open spec fn rh_wsum(s: Seq<u8>) -> int
    decreases s.len(),
{
    if s.len() == 0 {
        0
    } else {
        rh_wsum(s.drop_last()) + rh_sum(s)
    }
}


pub proof fn lemma_rh_sum_nonneg(s: Seq<u8>)
    ensures
        rh_sum(s) >= 0,
    decreases s.len(),
{
    if s.len() > 0 {
        lemma_rh_sum_nonneg(s.drop_last());
    }
}

/// The wrapped accumulators are the plain sums reduced modulo 2^16.
pub proof fn lemma_rh_closed(s: Seq<u8>)
    ensures
        rh_a(s) == rh_sum(s) % 0x10000,
        rh_b(s) == rh_wsum(s) % 0x10000,
    decreases s.len(),
{
    if s.len() > 0 {
        let s2 = s.drop_last();
        let t = rh_term(s.last());
        lemma_rh_closed(s2);
        lemma_add_mod_noop(rh_sum(s2), t, 0x10000);
        assert(t % 0x10000 == t);
        assert(rh_a(s) == rh_sum(s) % 0x10000);
        lemma_add_mod_noop(rh_wsum(s2), rh_sum(s), 0x10000);
        assert((rh_wsum(s2) + rh_sum(s)) % 0x10000 == rh_wsum(s) % 0x10000);
    }
}

/// Removing the oldest byte subtracts its term from the plain sum, and its
/// term weighted by the window length from the weighted sum.
pub proof fn lemma_rh_sums_drop_first(s: Seq<u8>)
    requires
        s.len() > 0,
    ensures
        rh_sum(s.drop_first()) == rh_sum(s) - rh_term(s[0]),
        rh_wsum(s.drop_first()) == rh_wsum(s) - s.len() * rh_term(s[0]),
    decreases s.len(),
{
    if s.len() == 1 {
        assert(s.drop_first() =~= Seq::<u8>::empty());
        assert(s.drop_last() =~= Seq::<u8>::empty());
        assert(s.last() == s[0]);
        assert(1 * rh_term(s[0]) == rh_term(s[0])) by (nonlinear_arith);
    } else {
        let s2 = s.drop_last();
        let t0 = rh_term(s[0]);
        lemma_rh_sums_drop_first(s2);
        assert(s.drop_first().drop_last() =~= s2.drop_first());
        assert(s.drop_first().last() == s.last());
        assert(s2[0] == s[0]);
        assert(rh_sum(s.drop_first()) == rh_sum(s2.drop_first()) + rh_term(s.last()));
        assert(rh_wsum(s.drop_first()) == rh_wsum(s2.drop_first()) + rh_sum(s.drop_first()));
        assert((s.len() - 1) * t0 + t0 == s.len() * t0) by (nonlinear_arith);
    }
}

/// The Adler-style rolling hash: two 16-bit accumulators and a byte count,
/// with a ghost record of the bytes currently in the window.
pub struct RollingHash {
    pub a: u16,
    pub b: u16,
    pub count: usize,
    pub window: Ghost<Seq<u8>>,
}

impl RollingHash {
    /// The accumulators and the count agree with the ghost window.
    pub open spec fn wf(self) -> bool {
        &&& self.a == rh_a(self.window@)
        &&& self.b == rh_b(self.window@)
        &&& self.count == self.window@.len()
    }

    pub fn new() -> (r: RollingHash)
        ensures
            r.wf(),
            r.window@ == Seq::<u8>::empty(),
    {
        RollingHash { a: 0, b: 0, count: 0, window: Ghost(Seq::empty()) }
    }

    pub fn count(&self) -> (r: usize)
        requires
            self.wf(),
        ensures
            r == self.window@.len(),
    {
        self.count
    }

    /// Absorb one byte at the leading edge of the window.
    pub fn add(&mut self, x: u8)
        requires
            old(self).wf(),
            old(self).window@.len() < usize::MAX,
        ensures
            final(self).wf(),
            final(self).window@ == old(self).window@.push(x),
    {
        let t: u16 = (x as u16) + 31;
        self.a = (((self.a as u32) + (t as u32)) % 0x10000) as u16;
        self.b = (((self.b as u32) + (self.a as u32)) % 0x10000) as u16;
        self.count = self.count + 1;
        proof {
            let s = old(self).window@;
            assert(s.push(x).drop_last() =~= s);
            assert(s.push(x).last() == x);
        }
        self.window = Ghost(old(self).window@.push(x));
    }

    /// Remove the oldest byte from the trailing edge of the window. The caller
    /// must pass the byte that entered the window first.
    pub fn sub(&mut self, x: u8)
        requires
            old(self).wf(),
            old(self).window@.len() > 0,
            x == old(self).window@[0],
        ensures
            final(self).wf(),
            final(self).window@ == old(self).window@.drop_first(),
    {
        proof {
            let s = old(self).window@;
            lemma_rh_closed(s);
            lemma_rh_closed(s.drop_first());
            lemma_rh_sums_drop_first(s);
            lemma_rh_sum_nonneg(s.drop_first());
        }
        let t: u16 = (x as u16) + 31;
        let a2: u32 = ((self.a as u32) + 0x10000 - (t as u32)) % 0x10000;
        let cmod: u64 = (self.count as u64) % 0x10000;
        proof {
            assert(cmod * (t as u64) < 0x100000000) by (nonlinear_arith)
                requires
                    cmod < 0x10000,
                    t < 0x10000,
            ;
        }
        let cm: u64 = (cmod * (t as u64)) % 0x10000;
        let b2: u64 = ((self.b as u64) + 0x10000 - cm) % 0x10000;
        proof {
            let s = old(self).window@;
            let r = s.drop_first();
            let t0 = rh_term(s[0]);
            let m = 0x10000int;
            // the first accumulator: (rh_sum(s) % m + m - t0) % m == (rh_sum(s) - t0) % m
            lemma_sub_mod_noop(rh_sum(s), t0, m);
            lemma_mod_add_multiples_vanish(rh_sum(s) % m - t0, m);
            assert(a2 == (rh_sum(s) - t0) % m);
            // the weight of the removed term is the window length modulo 2^16
            lemma_mul_mod_noop_left(s.len() as int, t0, m);
            assert(cm == (s.len() * t0) % m);
            // the second accumulator: subtract the weighted term modulo 2^16
            lemma_sub_mod_noop(rh_wsum(s), s.len() * t0, m);
            lemma_mod_add_multiples_vanish(rh_wsum(s) % m - (s.len() * t0) % m, m);
            assert(b2 == (rh_wsum(s) - s.len() * t0) % m);
        }
        self.a = a2 as u16;
        self.b = b2 as u16;
        self.count = self.count - 1;
        self.window = Ghost(old(self).window@.drop_first());
    }

    /// Absorb a run of bytes in order.
    pub fn update(&mut self, input: &[u8])
        requires
            old(self).wf(),
            old(self).window@.len() + input@.len() <= usize::MAX,
        ensures
            final(self).wf(),
            final(self).window@ == old(self).window@ + input@,
    {
        let n = input.len();
        let mut i: usize = 0;
        while i < n
            invariant
                i <= n,
                n == input@.len(),
                self.wf(),
                self.window@ == old(self).window@ + input@.take(i as int),
                old(self).window@.len() + input@.len() <= usize::MAX,
            decreases n - i,
        {
            self.add(input[i]);
            proof {
                let pre = old(self).window@;
                assert((pre + input@.take(i as int)).push(input@[i as int]) =~= pre + input@.take(
                    i + 1,
                ));
            }
            i = i + 1;
        }
        proof {
            assert(input@.take(n as int) =~= input@);
        }
    }

    /// The current 32-bit hash of the window contents.
    pub fn get(&self) -> (r: u32)
        requires
            self.wf(),
        ensures
            r == rh_hash(self.window@),
    {
        (self.a as u32) | ((self.b as u32) << 16)
    }
}

/// Appending a run of bytes adds its term sum to the plain sum, and its
/// weighted sum plus one whole term sum per appended byte to the weighted sum.
pub proof fn lemma_rh_sums_append(p: Seq<u8>, q: Seq<u8>)
    ensures
        rh_sum(p + q) == rh_sum(p) + rh_sum(q),
        rh_wsum(p + q) == rh_wsum(p) + q.len() * rh_sum(p) + rh_wsum(q),
    decreases q.len(),
{
    if q.len() == 0 {
        assert(p + q =~= p);
        assert(0int * rh_sum(p) == 0) by (nonlinear_arith);
    } else {
        lemma_rh_sums_append(p, q.drop_last());
        assert((p + q).drop_last() =~= p + q.drop_last());
        assert((p + q).last() == q.last());
        assert((q.len() - 1) * rh_sum(p) + rh_sum(p) == q.len() * rh_sum(p)) by (nonlinear_arith);
    }
}

/// Law: absorbing a byte sequence in any order-preserving split gives the
/// same hash as absorbing it whole: the accumulators after `p + q` are a
/// function of the accumulators after `p`, the length of `q`, and `q` alone —
/// the construction is associative, so every split of one byte sequence over
/// add and update calls ends in the same get() value.
pub proof fn lemma_rolling_hash_append(p: Seq<u8>, q: Seq<u8>)
    ensures
        rh_a(p + q) == (rh_a(p) + rh_sum(q)) % 0x10000,
        rh_b(p + q) == (rh_b(p) + q.len() * rh_a(p) + rh_wsum(q)) % 0x10000,
{
    let m = 0x10000int;
    let x = rh_wsum(p);
    let y = rh_sum(p);
    let z = rh_wsum(q);
    let l = q.len() as int;
    lemma_rh_closed(p);
    lemma_rh_closed(p + q);
    lemma_rh_sums_append(p, q);
    // the first accumulator: (y % m + rh_sum(q)) % m == (y + rh_sum(q)) % m
    lemma_add_mod_noop(y, rh_sum(q), m);
    vstd::arithmetic::div_mod::lemma_add_mod_noop_right(y % m, rh_sum(q), m);
    assert(rh_a(p + q) == (rh_a(p) + rh_sum(q)) % m);
    // the second accumulator: replace x by x % m and l * y by l * (y % m)
    let u = l * (y % m);
    let v = l * y;
    vstd::arithmetic::div_mod::lemma_mul_mod_noop_right(l, y, m);
    assert(u % m == v % m);
    lemma_add_mod_noop(x, u + z, m);
    vstd::arithmetic::div_mod::lemma_add_mod_noop_right(x % m, u + z, m);
    assert((x % m + u + z) % m == (x + u + z) % m);
    vstd::arithmetic::div_mod::lemma_add_mod_noop_right(x + z, u, m);
    vstd::arithmetic::div_mod::lemma_add_mod_noop_right(x + z, v, m);
    assert((x + u + z) % m == (x + v + z) % m);
    assert(rh_b(p + q) == (rh_b(p) + q.len() * rh_a(p) + rh_wsum(q)) % m);
}

/// A 128-bit strong fingerprint: the leading 16 bytes of a BLAKE3 digest.
#[derive(Clone, Copy, Debug, Hash)]
pub struct Hash128([u8; 16]);

impl View for Hash128 {
    type V = Seq<u8>;

    closed spec fn view(&self) -> Seq<u8> {
        self.0@
    }
}

impl PartialEq for Hash128 {
    fn eq(&self, other: &Hash128) -> (r: bool) {
        let mut i: usize = 0;
        while i < 16
            invariant
                i <= 16,
                forall|j: int| 0 <= j < i ==> self.0@[j] == other.0@[j],
            decreases 16 - i,
        {
            if self.0[i] != other.0[i] {
                return false;
            }
            i = i + 1;
        }
        proof {
            assert(self.0@ =~= other.0@);
        }
        true
    }
}

impl Eq for Hash128 {

}

impl vstd::std_specs::cmp::PartialEqSpecImpl for Hash128 {
    open spec fn obeys_eq_spec() -> bool {
        true
    }

    open spec fn eq_spec(&self, other: &Hash128) -> bool {
        self.view() == other.view()
    }
}

/// A hexadecimal digit character for a value below 16.
pub open spec fn hex_digit(d: int) -> char {
    if d < 10 {
        ((48 + d) as u8) as char
    } else {
        ((87 + d) as u8) as char
    }
}

/// The lowercase hexadecimal rendering of a byte sequence, two digits per byte.
pub open spec fn hex_of(s: Seq<u8>) -> Seq<char> {
    Seq::new(2 * s.len(), |i: int| if i % 2 == 0 {
        hex_digit((s[i / 2] >> 4) as int)
    } else {
        hex_digit((s[i / 2] & 0xf) as int)
    })
}

/// Relies on String::push: it appends the one character to the string.
#[verifier::external_body]
fn string_push(s: &mut String, c: char)
    ensures
        final(s)@ == old(s)@.push(c),
{
    s.push(c);
}

fn hex_char(d: u8) -> (r: char)
    requires
        d < 16,
    ensures
        r == hex_digit(d as int),
{
    if d < 10 {
        (48 + d) as char
    } else {
        (87 + d) as char
    }
}

impl Hash128 {
    pub fn new_zero() -> (r: Hash128)
        ensures
            r@.len() == 16,
            forall|i: int| 0 <= i < 16 ==> r@[i] == 0u8,
    {
        Hash128([0; 16])
    }

    /// Relies on blake3::Hash::as_bytes: it hands out the digest's 32 raw
    /// bytes, of which the leading 16 are kept.
    #[verifier::external_body]
    pub fn new_from_blake3(hash: &blake3::Hash) -> Hash128 {
        let mut bytes: [u8; 16] = [0; 16];
        bytes.copy_from_slice(&hash.as_bytes()[0..16]);
        Hash128(bytes)
    }

    pub fn as_bytes(&self) -> (r: &[u8; 16])
        ensures
            r@ == self@,
    {
        &self.0
    }

    /// The lowercase hexadecimal rendering of the fingerprint.
    pub fn to_hex_string(&self) -> (r: String)
        ensures
            r@ == hex_of(self@),
    {
        let mut s = String::new();
        let mut i: usize = 0;
        while i < 16
            invariant
                i <= 16,
                s@ == hex_of(self@).take(2 * i as int),
            decreases 16 - i,
        {
            let b = self.0[i];
            proof {
                assert(b >> 4 < 16 && b & 0xf < 16) by (bit_vector);
            }
            string_push(&mut s, hex_char(b >> 4));
            string_push(&mut s, hex_char(b & 0xf));
            proof {
                assert(hex_of(self@).take(2 * (i + 1) as int) =~= hex_of(self@).take(
                    2 * i as int,
                ).push(hex_digit((self.0@[i as int] >> 4) as int)).push(
                    hex_digit((self.0@[i as int] & 0xf) as int),
                ));
            }
            i = i + 1;
        }
        proof {
            assert(hex_of(self@).take(32) =~= hex_of(self@));
        }
        s
    }
}

/// The outside type of a full BLAKE3 digest, carried opaquely.
#[verifier::external_type_specification]
#[verifier::external_body]
pub struct ExBlake3Hash(blake3::Hash);

/// The 16-byte truncation of the BLAKE3 digest of a byte sequence; the digest
/// is a function of the input bytes alone.
pub uninterp spec fn blake3_128_of(s: Seq<u8>) -> Seq<u8>;

/// Relies on blake3::hash: the digest depends only on the input bytes, and is
/// 32 bytes long, of which the leading 16 are kept here.
#[verifier::external_body]
pub fn compute_hash_strong(input: &[u8]) -> (r: Hash128)
    ensures
        r@ == blake3_128_of(input@),
{
    let h = blake3::hash(input);
    Hash128::new_from_blake3(&h)
}

/// The weak hash of a byte sequence, computed from a fresh rolling hash.
pub fn compute_hash_weak(input: &[u8]) -> (r: u32)
    ensures
        r == rh_hash(input@),
{
    let mut hash_rolling = RollingHash::new();
    let n = input.len();
    proof {
        assert(input@.len() == n);
    }
    hash_rolling.update(input);
    proof {
        assert(Seq::<u8>::empty() + input@ =~= input@);
    }
    hash_rolling.get()
}

} // verus!
