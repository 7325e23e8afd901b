//! Canonical Rabin-Karp rolling hash over the DNA alphabet.
//!
//! A window `w` of `k` bases has a forward hash `sum FWD[w[j]] * M^(k-1-j)` and a
//! reverse hash `sum BKW[w[j]] * M^j`, both modulo 2^64. The reverse hash equals
//! the forward hash of the reverse complement, so `min(fwd, rev)` does not depend
//! on the strand the window was read from.
use vstd::arithmetic::div_mod::*;
use vstd::arithmetic::power::*;
use vstd::prelude::*;

verus! {

pub type HashIntegerType = u64;

/// Odd multiplier of the polynomial hash.
pub const MULTIPLIER: u64 = 0x5851f42d4c957f2d;

/// Inverse of `MULTIPLIER` modulo 2^64.
pub const MULT_INV: u64 = 0xc097ef87329e28a5;

pub const MULT_A: u64 = 0x3c8bfbb395c60474;

pub const MULT_C: u64 = 0x3193c18562a02b4c;

pub const MULT_G: u64 = 0x20323ed082572324;

pub const MULT_T: u64 = 0x295549f54be24456;

pub open spec fn modulus() -> int {
    0x1_0000_0000_0000_0000
}

/// Forward contribution of a symbol, given either 2-bit compressed
/// (A=0, C=1, T=2, G=3, N=4) or as ASCII. Other symbols map to 1.
pub open spec fn fwd_spec(c: u8) -> u64 {
    if c == 0 || c == 65 {
        MULT_A
    } else if c == 1 || c == 67 {
        MULT_C
    } else if c == 2 || c == 84 {
        MULT_T
    } else if c == 3 || c == 71 {
        MULT_G
    } else if c == 4 || c == 78 {
        0
    } else {
        1
    }
}

/// Backward contribution of a symbol: the forward contribution of its complement.
pub open spec fn bkw_spec(c: u8) -> u64 {
    if c == 0 || c == 65 {
        MULT_T
    } else if c == 1 || c == 67 {
        MULT_G
    } else if c == 2 || c == 84 {
        MULT_A
    } else if c == 3 || c == 71 {
        MULT_C
    } else if c == 4 || c == 78 {
        0
    } else {
        1
    }
}

/// The symbols the hash accepts, in both encodings.
pub open spec fn is_base(c: u8) -> bool {
    c == 0 || c == 1 || c == 2 || c == 3 || c == 4 || c == 65 || c == 67 || c == 71 || c == 84
        || c == 78
}

/// Complement of a symbol, within its own encoding.
pub open spec fn complement(c: u8) -> u8 {
    if c == 0 {
        2
    } else if c == 2 {
        0
    } else if c == 1 {
        3
    } else if c == 3 {
        1
    } else if c == 65 {
        84
    } else if c == 84 {
        65
    } else if c == 67 {
        71
    } else if c == 71 {
        67
    } else {
        c
    }
}

pub open spec fn reverse_complement(s: Seq<u8>) -> Seq<u8> {
    Seq::new(s.len(), |i: int| complement(s[s.len() - 1 - i]))
}

/// Forward polynomial of a window, over the integers.
pub open spec fn fwd_poly(w: Seq<u8>) -> int
    decreases w.len(),
{
    if w.len() == 0 {
        0
    } else {
        fwd_poly(w.drop_last()) * MULTIPLIER + fwd_spec(w.last())
    }
}

/// Reverse polynomial of a window, over the integers.
pub open spec fn rev_poly(w: Seq<u8>) -> int
    decreases w.len(),
{
    if w.len() == 0 {
        0
    } else {
        bkw_spec(w[0]) + MULTIPLIER * rev_poly(w.drop_first())
    }
}

#[verifier::opaque]
pub open spec fn fwd_hash(w: Seq<u8>) -> u64 {
    (fwd_poly(w) % modulus()) as u64
}

#[verifier::opaque]
pub open spec fn rev_hash(w: Seq<u8>) -> u64 {
    (rev_poly(w) % modulus()) as u64
}

/// What the rolling state keeps of the reverse strand for a partial window `w`:
/// its reverse polynomial shifted by one position.
#[verifier::opaque]
pub open spec fn rev_state(w: Seq<u8>) -> int {
    (MULTIPLIER * rev_poly(w)) % modulus()
}

pub open spec fn ext_hash_of(w: Seq<u8>) -> ExtCanonicalRabinKarpHash {
    ExtCanonicalRabinKarpHash(fwd_hash(w), rev_hash(w))
}

pub open spec fn min_u64(a: u64, b: u64) -> u64 {
    if a <= b {
        a
    } else {
        b
    }
}

/// Canonical hash of a window: the smaller of its two strand hashes.
pub open spec fn canonical_hash(w: Seq<u8>) -> u64 {
    min_u64(fwd_hash(w), rev_hash(w))
}

/// `M^(k-1)` modulo 2^64.
#[verifier::opaque]
pub open spec fn rmmult_of(k: nat) -> u64 {
    (pow(MULTIPLIER as int, (k - 1) as nat) % modulus()) as u64
}

pub fn fwd_l(c: u8) -> (r: HashIntegerType)
    ensures
        r == fwd_spec(c),
{
    match c {
        0 | 65 => MULT_A,
        1 | 67 => MULT_C,
        2 | 84 => MULT_T,
        3 | 71 => MULT_G,
        4 | 78 => 0,
        _ => 1,
    }
}

pub fn bkw_l(c: u8) -> (r: HashIntegerType)
    ensures
        r == bkw_spec(c),
{
    match c {
        0 | 65 => MULT_T,
        1 | 67 => MULT_G,
        2 | 84 => MULT_A,
        3 | 71 => MULT_C,
        4 | 78 => 0,
        _ => 1,
    }
}

// ---- modular arithmetic helpers ----

proof fn lemma_wrapping_add(x: u64, y: u64)
    ensures
        x.wrapping_add(y) as int == (x + y) % modulus(),
{
    if x + y >= modulus() {
        lemma_fundamental_div_mod_converse(x + y, modulus(), 1, x + y - modulus());
    } else {
        lemma_small_mod((x + y) as nat, modulus() as nat);
    }
}

proof fn lemma_wrapping_sub(x: u64, y: u64)
    ensures
        x.wrapping_sub(y) as int == (x - y) % modulus(),
{
    if x - y < 0 {
        lemma_fundamental_div_mod_converse(x - y, modulus(), -1, x - y + modulus());
    } else {
        lemma_small_mod((x - y) as nat, modulus() as nat);
    }
}

proof fn lemma_wrapping_mul(x: u64, y: u64)
    ensures
        x.wrapping_mul(y) as int == (x * y) % modulus(),
{
}

/// `((a mod m) * b + c) mod m == (a * b + c) mod m`
proof fn lemma_mod_mul_add(a: int, b: int, c: int)
    ensures
        ((a % modulus()) * b + c) % modulus() == (a * b + c) % modulus(),
{
    lemma_mul_mod_noop_left(a, b, modulus());
    lemma_add_mod_noop((a % modulus()) * b, c, modulus());
    lemma_add_mod_noop(a * b, c, modulus());
}

/// `((a mod m) + c) mod m == (a + c) mod m`
proof fn lemma_mod_add(a: int, c: int)
    ensures
        ((a % modulus()) + c) % modulus() == (a + c) % modulus(),
{
    lemma_mod_mul_add(a, 1, c);
}

proof fn lemma_mult_inverse()
    ensures
        (MULTIPLIER * MULT_INV) % modulus() == 1,
{
    assert((MULTIPLIER as int * MULT_INV as int) % 0x1_0000_0000_0000_0000int == 1) by (nonlinear_arith);
}

pub fn fastexp(base: HashIntegerType, exp: usize) -> (r: HashIntegerType)
    ensures
        r as int == pow(base as int, exp as nat) % modulus(),
{
    let mut result: HashIntegerType = 1;
    let mut sqv = base;
    let mut e: usize = exp;
    proof {
        lemma_pow0(base as int);
        lemma_pow_mod_noop(base as int, exp as nat, modulus());
    }
    while e > 0
        invariant
            (result as int * pow(sqv as int, e as nat)) % modulus() == pow(base as int, exp as nat)
                % modulus(),
        decreases e,
    {
        let ghost old_result = result as int;
        let ghost old_sqv = sqv as int;
        let ghost old_e = e as nat;
        let ghost half = (e / 2) as nat;
        proof {
            lemma_fundamental_div_mod(e as int, 2);
            lemma_pow_adds(old_sqv, half, half);
            lemma_square_is_pow2(old_sqv);
            lemma_pow_multiplies(old_sqv, 2, half);
            if e % 2 == 1 {
                lemma_pow_adds(old_sqv, 1, (2 * half) as nat);
                lemma_pow1(old_sqv);
            }
        }
        if e & 0x1 == 1 {
            assert(e & 1 == e % 2) by (bit_vector);
            result = result.wrapping_mul(sqv);
        } else {
            assert(e & 1 == e % 2) by (bit_vector);
        }
        e = e / 2;
        sqv = sqv.wrapping_mul(sqv);
        proof {
            let sq = old_sqv * old_sqv;
            let p = pow(sq, half);
            // pow(old_sqv, old_e) == [old_sqv if odd] * p
            assert(pow(old_sqv, 2) == sq);
            assert(pow(old_sqv, (2 * half) as nat) == p);
            let before = (old_result * pow(old_sqv, old_e)) % modulus();
            if old_e % 2 == 1 {
                assert(pow(old_sqv, old_e) == old_sqv * p);
                assert(old_result * (old_sqv * p) == (old_result * old_sqv) * p)
                    by (nonlinear_arith);
                lemma_mul_mod_noop_left(old_result * old_sqv, p, modulus());
            } else {
                assert(old_e == 2 * half);
            }
            // result * p  ==  before (mod m); now replace sq by sqv mod m
            lemma_pow_mod_noop(sq, half, modulus());
            lemma_mul_mod_noop_right(result as int, pow(sq % modulus(), half), modulus());
            lemma_mul_mod_noop_right(result as int, p, modulus());
            lemma_pow_mod_noop(sqv as int, half, modulus());
            lemma_mul_mod_noop_right(result as int, pow(sqv as int, half), modulus());
        }
    }
    proof {
        lemma_pow0(sqv as int);
    }
    result
}

/// `M^(k-1)` modulo 2^64. The value depends on `k` alone, so it is simply computed.
pub fn get_rmmult(k: usize) -> (r: HashIntegerType)
    requires
        k >= 1,
    ensures
        r == rmmult_of(k as nat),
{
    proof {
        reveal(rmmult_of);
    }
    fastexp(MULTIPLIER, k - 1)
}

/// Peeling the first base off a window: `fwd(w) == FWD[w[0]] * M^(|w|-1) + fwd(w[1..])`.
pub proof fn lemma_fwd_poly_first(w: Seq<u8>)
    requires
        w.len() >= 1,
    ensures
        fwd_poly(w) == fwd_spec(w[0]) * pow(MULTIPLIER as int, (w.len() - 1) as nat) + fwd_poly(
            w.drop_first(),
        ),
    decreases w.len(),
{
    let m = MULTIPLIER as int;
    if w.len() == 1 {
        assert(fwd_poly(w.drop_last()) == 0);
        assert(fwd_poly(w.drop_first()) == 0);
        assert(w.last() == w[0]);
        lemma_pow0(m);
        assert(fwd_spec(w[0]) * pow(m, 0) == fwd_spec(w[0]));
    } else {
        let u = w.drop_last();
        let d = w.drop_first();
        lemma_fwd_poly_first(u);
        assert(u.drop_first() =~= d.drop_last());
        assert(d.last() == w.last());
        let e = (w.len() - 2) as nat;
        lemma_pow_adds(m, e, 1);
        lemma_pow1(m);
        assert(u[0] == w[0]);
        assert(u.len() - 1 == e);
        assert(d.len() - 1 == e);
        let f0 = fwd_spec(w[0]) as int;
        let pe = pow(m, e);
        let q = fwd_poly(d.drop_last());
        let fl = fwd_spec(w.last()) as int;
        assert(fwd_poly(u) == f0 * pe + q);
        assert(fwd_poly(w) == fwd_poly(u) * m + fl);
        assert(fwd_poly(d) == q * m + fl);
        assert(pow(m, (e + 1) as nat) == pe * m);
        assert((w.len() - 1) as nat == (e + 1) as nat);
        assert((f0 * pe + q) * m + fl == f0 * (pe * m) + (q * m + fl)) by (nonlinear_arith);
    }
}

/// Peeling the last base off a window: `rev(w) == rev(w[..|w|-1]) + BKW[w.last()] * M^(|w|-1)`.
pub proof fn lemma_rev_poly_last(w: Seq<u8>)
    requires
        w.len() >= 1,
    ensures
        rev_poly(w) == rev_poly(w.drop_last()) + bkw_spec(w.last()) * pow(
            MULTIPLIER as int,
            (w.len() - 1) as nat,
        ),
    decreases w.len(),
{
    let m = MULTIPLIER as int;
    if w.len() == 1 {
        assert(rev_poly(w.drop_last()) == 0);
        assert(rev_poly(w.drop_first()) == 0);
        assert(w.last() == w[0]);
        lemma_pow0(m);
        assert(bkw_spec(w[0]) * pow(m, 0) == bkw_spec(w[0]));
    } else {
        let d = w.drop_first();
        let u = w.drop_last();
        lemma_rev_poly_last(d);
        assert(d.drop_last() =~= u.drop_first());
        assert(u[0] == w[0]);
        let e = (w.len() - 2) as nat;
        lemma_pow_adds(m, 1, e);
        lemma_pow1(m);
        assert(d.last() == w.last());
        assert(d.len() - 1 == e);
        let bl = bkw_spec(w.last()) as int;
        let b0 = bkw_spec(w[0]) as int;
        let pe = pow(m, e);
        let q = rev_poly(u.drop_first());
        assert(rev_poly(d) == q + bl * pe);
        assert(rev_poly(w) == b0 + m * rev_poly(d));
        assert(rev_poly(u) == b0 + m * q);
        assert(pow(m, (e + 1) as nat) == m * pe);
        assert((w.len() - 1) as nat == (e + 1) as nat);
        assert(b0 + m * (q + bl * pe) == (b0 + m * q) + bl * (m * pe)) by (nonlinear_arith);
    }
}

/// `(M * x * M^-1) mod 2^64 == x mod 2^64`
proof fn lemma_mul_inverse_cancels(x: int)
    ensures
        ((MULTIPLIER * x) % modulus()) * MULT_INV % modulus() == x % modulus(),
{
    let m = MULTIPLIER as int;
    let i = MULT_INV as int;
    lemma_mult_inverse();
    lemma_mul_mod_noop_left(m * x, i, modulus());
    assert(m * x * i == x * (m * i)) by (nonlinear_arith);
    lemma_mul_mod_noop_right(x, m * i, modulus());
}

/// Extendable canonical hash: the forward and the reverse hash of a window.
#[derive(Copy, Clone, Debug, PartialEq, Eq, Structural)]
pub struct ExtCanonicalRabinKarpHash(pub HashIntegerType, pub HashIntegerType);


proof fn lemma_empty_hashes()
    ensures
        fwd_hash(Seq::<u8>::empty()) == 0,
        rev_hash(Seq::<u8>::empty()) == 0,
{
    reveal(fwd_hash);
    reveal(rev_hash);
    lemma_small_mod(0, modulus() as nat);
}

/// Appending a base to the forward hash.
proof fn lemma_fwd_push(w: Seq<u8>, fh: u64)
    requires
        w.len() >= 1,
        fh == fwd_hash(w.drop_last()),
    ensures
        fh.wrapping_mul(MULTIPLIER).wrapping_add(fwd_spec(w.last())) == fwd_hash(w),
{
    reveal(fwd_hash);
    let fi = fwd_spec(w.last());
    let prev = w.drop_last();
    lemma_wrapping_mul(fh, MULTIPLIER);
    lemma_wrapping_add(fh.wrapping_mul(MULTIPLIER), fi);
    lemma_mod_mul_add(fwd_poly(prev), MULTIPLIER as int, fi as int);
    lemma_mod_mul_add(fwd_poly(prev), MULTIPLIER as int, 0);
    lemma_mod_add(fwd_poly(prev) * MULTIPLIER, fi as int);
}

/// Prepending a base to the reverse hash.
proof fn lemma_rev_prepend(w: Seq<u8>, bw: u64)
    requires
        w.len() >= 1,
        bw == rev_hash(w.drop_first()),
    ensures
        bw.wrapping_mul(MULTIPLIER).wrapping_add(bkw_spec(w[0])) == rev_hash(w),
{
    reveal(rev_hash);
    let b = bkw_spec(w[0]);
    let r = rev_poly(w.drop_first());
    lemma_wrapping_mul(bw, MULTIPLIER);
    lemma_wrapping_add(bw.wrapping_mul(MULTIPLIER), b);
    lemma_mod_mul_add(r, MULTIPLIER as int, b as int);
    lemma_mod_mul_add(r, MULTIPLIER as int, 0);
    lemma_mod_add(r * MULTIPLIER, b as int);
    assert(r * MULTIPLIER + b == b + MULTIPLIER * r) by (nonlinear_arith);
}

proof fn lemma_rev_shift(w: Seq<u8>, bw: u64)
    requires
        bw == rev_hash(w),
    ensures
        bw.wrapping_mul(MULTIPLIER) as int == rev_state(w),
{
    reveal(rev_hash);
    reveal(rev_state);
    let r = rev_poly(w);
    lemma_wrapping_mul(bw, MULTIPLIER);
    lemma_mod_mul_add(r, MULTIPLIER as int, 0);
    assert(r * MULTIPLIER == MULTIPLIER * r) by (nonlinear_arith);
}

/// Bringing `w.last()` into a state that holds `w[..|w|-1]` yields the hashes of `w`.
proof fn lemma_roll_in(w: Seq<u8>, fh: u64, rc: u64, rmmult: u64)
    requires
        w.len() >= 2,
        fh == fwd_hash(w.drop_last()),
        rc as int == rev_state(w.drop_last()),
        rmmult == rmmult_of(w.len()),
    ensures
        fh.wrapping_mul(MULTIPLIER).wrapping_add(fwd_spec(w.last())) == fwd_hash(w),
        rc.wrapping_mul(MULT_INV).wrapping_add(bkw_spec(w.last()).wrapping_mul(rmmult))
            == rev_hash(w),
{
    reveal(fwd_hash);
    reveal(rev_hash);
    reveal(rev_state);
    reveal(rmmult_of);
    let prev = w.drop_last();
    let fi = fwd_spec(w.last());
    let bi = bkw_spec(w.last());
    let pk = pow(MULTIPLIER as int, (w.len() - 1) as nat);
    lemma_rev_poly_last(w);
    lemma_wrapping_mul(fh, MULTIPLIER);
    lemma_wrapping_add(fh.wrapping_mul(MULTIPLIER), fi);
    lemma_mod_mul_add(fwd_poly(prev), MULTIPLIER as int, fi as int);
    lemma_mod_mul_add(fwd_poly(prev), MULTIPLIER as int, 0);
    lemma_mod_add(fwd_poly(prev) * MULTIPLIER, fi as int);
    lemma_wrapping_mul(rc, MULT_INV);
    lemma_wrapping_mul(bi, rmmult);
    lemma_wrapping_add(rc.wrapping_mul(MULT_INV), bi.wrapping_mul(rmmult));
    lemma_mul_inverse_cancels(rev_poly(prev));
    lemma_mul_mod_noop_right(bi as int, pk, modulus());
    lemma_add_mod_noop(rev_poly(prev), bi * pk, modulus());
}

/// Dropping `w[0]` from the hashes of `w` leaves a state that holds `w[1..]`.
proof fn lemma_roll_out(w: Seq<u8>, fh: u64, bk: u64, rmmult: u64)
    requires
        w.len() >= 2,
        fh == fwd_hash(w),
        bk == rev_hash(w),
        rmmult == rmmult_of(w.len()),
    ensures
        fh.wrapping_sub(fwd_spec(w[0]).wrapping_mul(rmmult)) == fwd_hash(w.drop_first()),
        bk.wrapping_sub(bkw_spec(w[0])) as int == rev_state(w.drop_first()),
{
    reveal(fwd_hash);
    reveal(rev_hash);
    reveal(rev_state);
    reveal(rmmult_of);
    let fo = fwd_spec(w[0]);
    let bo = bkw_spec(w[0]);
    let pk = pow(MULTIPLIER as int, (w.len() - 1) as nat);
    lemma_fwd_poly_first(w);
    lemma_wrapping_mul(fo, rmmult);
    lemma_wrapping_sub(fh, fo.wrapping_mul(rmmult));
    lemma_mul_mod_noop_right(fo as int, pk, modulus());
    lemma_sub_mod_noop(fwd_poly(w), fo * pk, modulus());
    lemma_wrapping_sub(bk, bo);
    lemma_sub_mod_noop(rev_poly(w), bo as int, modulus());
    lemma_small_mod(bo as nat, modulus() as nat);
}

fn roll_in(fh: u64, rc: u64, rmmult: u64, in_base: u8, Ghost(w): Ghost<Seq<u8>>) -> (r: (
    u64,
    u64,
))
    requires
        w.len() >= 2,
        in_base == w.last(),
        fh == fwd_hash(w.drop_last()),
        rc as int == rev_state(w.drop_last()),
        rmmult == rmmult_of(w.len()),
    ensures
        r.0 == fwd_hash(w),
        r.1 == rev_hash(w),
{
    proof {
        lemma_roll_in(w, fh, rc, rmmult);
    }
    let f = fh.wrapping_mul(MULTIPLIER).wrapping_add(fwd_l(in_base));
    let b = rc.wrapping_mul(MULT_INV).wrapping_add(bkw_l(in_base).wrapping_mul(rmmult));
    (f, b)
}

fn roll_out(fh: u64, bk: u64, rmmult: u64, out_base: u8, Ghost(w): Ghost<Seq<u8>>) -> (r: (
    u64,
    u64,
))
    requires
        w.len() >= 2,
        out_base == w[0],
        fh == fwd_hash(w),
        bk == rev_hash(w),
        rmmult == rmmult_of(w.len()),
    ensures
        r.0 == fwd_hash(w.drop_first()),
        r.1 as int == rev_state(w.drop_first()),
{
    proof {
        lemma_roll_out(w, fh, bk, rmmult);
    }
    let f = fh.wrapping_sub(fwd_l(out_base).wrapping_mul(rmmult));
    let b = bk.wrapping_sub(bkw_l(out_base));
    (f, b)
}

/// Rolling state over a base sequence. After `new`, each call of `roll_hash`
/// yields the hashes of the next window of `k` bases.
pub struct CanonicalRabinKarpHashIterator {
    seq: Vec<u8>,
    rmmult: HashIntegerType,
    fh: HashIntegerType,
    rc: HashIntegerType,
    k_minus1: usize,
    index: usize,
}

impl CanonicalRabinKarpHashIterator {
    /// The bases being hashed.
    pub closed spec fn bases(&self) -> Seq<u8> {
        self.seq@
    }

    /// The window length.
    pub closed spec fn k(&self) -> nat {
        (self.k_minus1 + 1) as nat
    }

    /// Index of the base that the next roll brings into the window.
    pub closed spec fn position(&self) -> nat {
        self.index as nat
    }

    pub closed spec fn wf(&self) -> bool {
        &&& self.k_minus1 >= 1
        &&& self.k_minus1 <= self.index <= self.seq@.len()
        &&& self.rmmult == rmmult_of((self.k_minus1 + 1) as nat)
        &&& self.fh == fwd_hash(self.seq@.subrange(self.index - self.k_minus1, self.index as int))
        &&& self.rc as int == rev_state(
            self.seq@.subrange(self.index - self.k_minus1, self.index as int),
        )
    }

    /// Starts hashing `seq` with windows of `k` bases: the state holds the
    /// first `k - 1` bases.
    pub fn new(seq: Vec<u8>, k: usize) -> (r: Result<CanonicalRabinKarpHashIterator, &'static str>)
        requires
            k >= 2,
            seq@.len() >= k - 1,
        ensures
            r matches Ok(it) && it.wf() && it.bases() == seq@ && it.k() == k && it.position() == k
                - 1,
    {
        let mut fh: HashIntegerType = 0;
        let mut bw: HashIntegerType = 0;
        let mut i: usize = 0;
        proof {
            lemma_empty_hashes();
            assert(seq@.subrange(0, 0) =~= Seq::<u8>::empty());
        }
        while i < k - 1
            invariant
                i <= k - 1,
                k - 1 <= seq@.len(),
                fh == fwd_hash(seq@.subrange(0, i as int)),
            decreases k - 1 - i,
        {
            let f = fwd_l(seq[i]);
            proof {
                let w = seq@.subrange(0, i + 1);
                assert(w.drop_last() =~= seq@.subrange(0, i as int));
                lemma_fwd_push(w, fh);
            }
            fh = fh.wrapping_mul(MULTIPLIER).wrapping_add(f);
            i = i + 1;
        }
        let mut j: usize = k - 1;
        proof {
            lemma_empty_hashes();
            assert(seq@.subrange(0, 0) =~= Seq::<u8>::empty());
            assert(seq@.subrange(j as int, k - 1) =~= Seq::<u8>::empty());
        }
        while j > 0
            invariant
                j <= k - 1,
                k - 1 <= seq@.len(),
                bw == rev_hash(seq@.subrange(j as int, k - 1)),
            decreases j,
        {
            j = j - 1;
            let b = bkw_l(seq[j]);
            proof {
                let w = seq@.subrange(j as int, k - 1);
                assert(w.drop_first() =~= seq@.subrange(j + 1, k - 1));
                lemma_rev_prepend(w, bw);
            }
            bw = bw.wrapping_mul(MULTIPLIER).wrapping_add(b);
        }
        proof {
            lemma_rev_shift(seq@.subrange(0, k - 1), bw);
        }
        bw = bw.wrapping_mul(MULTIPLIER);
        let rmmult = get_rmmult(k);
        Ok(CanonicalRabinKarpHashIterator { seq, rmmult, fh, rc: bw, k_minus1: k - 1, index: k - 1 })
    }

    /// Brings the base at `position()` into the window and drops the oldest one;
    /// returns the hashes of the window that ends at that base.
    pub fn roll_hash(&mut self) -> (r: ExtCanonicalRabinKarpHash)
        requires
            old(self).wf(),
            old(self).position() < old(self).bases().len(),
        ensures
            final(self).wf(),
            final(self).bases() == old(self).bases(),
            final(self).k() == old(self).k(),
            final(self).position() == old(self).position() + 1,
            r == ext_hash_of(
                old(self).bases().subrange(
                    old(self).position() + 1 - old(self).k(),
                    (old(self).position() + 1) as int,
                ),
            ),
    {
        let index = self.index;
        let bases_count = self.seq.len();
        let in_base = self.seq[index];
        let out_base = self.seq[index - self.k_minus1];
        let ghost p = index - self.k_minus1;
        let ghost w = self.seq@.subrange(p, index + 1);
        let ghost prev = self.seq@.subrange(p, index as int);
        let ghost next = self.seq@.subrange(p + 1, index + 1);
        proof {
            assert(w.drop_last() =~= prev);
            assert(w.drop_first() =~= next);
        }
        let (current_fh, current_bk) = roll_in(self.fh, self.rc, self.rmmult, in_base, Ghost(w));
        let (new_fh, new_rc) = roll_out(current_fh, current_bk, self.rmmult, out_base, Ghost(w));
        self.fh = new_fh;
        self.rc = new_rc;
        assert(index < bases_count);
        self.index = index + 1;
        ExtCanonicalRabinKarpHash(current_fh, current_bk)
    }
}


impl CanonicalRabinKarpHashIterator {
    /// Hashes of every remaining window, in order: entry `j` is the pair of
    /// hashes of the window that ends at base `position() + j`.
    pub fn iter(self) -> (r: Vec<ExtCanonicalRabinKarpHash>)
        requires
            self.wf(),
        ensures
            r@.len() == self.bases().len() - self.position(),
            forall|j: int|
                0 <= j < r@.len() ==> r@[j] == ext_hash_of(
                    #[trigger] self.bases().subrange(
                        self.position() + 1 - self.k() + j,
                        self.position() + 1 + j,
                    ),
                ),
    {
        let ghost start = self.position() as int;
        let ghost bases = self.bases();
        let ghost k = self.k() as int;
        let mut it = self;
        let mut out: Vec<ExtCanonicalRabinKarpHash> = Vec::new();
        let n = it.seq.len();
        while it.index < n
            invariant
                it.wf(),
                it.bases() == bases,
                it.k() == k,
                n == bases.len(),
                it.position() == start + out@.len(),
                forall|j: int|
                    0 <= j < out@.len() ==> out@[j] == ext_hash_of(
                        #[trigger] bases.subrange(start + 1 - k + j, start + 1 + j),
                    ),
            decreases n - it.index,
        {
            let h = it.roll_hash();
            out.push(h);
        }
        out
    }

    /// Hashes of every remaining window, each with the index of its first base.
    pub fn iter_enumerate(self) -> (r: Vec<(usize, ExtCanonicalRabinKarpHash)>)
        requires
            self.wf(),
        ensures
            r@.len() == self.bases().len() - self.position(),
            forall|j: int|
                0 <= j < r@.len() ==> (#[trigger] r@[j]).0 == self.position() + 1 - self.k() + j
                    && r@[j].1 == ext_hash_of(
                    self.bases().subrange(
                        self.position() + 1 - self.k() + j,
                        self.position() + 1 + j,
                    ),
                ),
    {
        let ghost start = self.position() as int;
        let ghost bases = self.bases();
        let ghost k = self.k() as int;
        let mut it = self;
        let mut out: Vec<(usize, ExtCanonicalRabinKarpHash)> = Vec::new();
        let n = it.seq.len();
        while it.index < n
            invariant
                it.wf(),
                it.bases() == bases,
                it.k() == k,
                n == bases.len(),
                it.position() == start + out@.len(),
                forall|j: int|
                    0 <= j < out@.len() ==> (#[trigger] out@[j]).0 == start + 1 - k + j
                        && out@[j].1 == ext_hash_of(bases.subrange(start + 1 - k + j, start + 1 + j)),
            decreases n - it.index,
        {
            let first = it.index - it.k_minus1;
            let h = it.roll_hash();
            out.push((first, h));
        }
        out
    }
}

impl ExtCanonicalRabinKarpHash {
    /// The canonical hash: the smaller of the two strand hashes.
    pub fn to_unextendable(self) -> (r: HashIntegerType)
        ensures
            r == min_u64(self.0, self.1),
    {
        if self.0 <= self.1 {
            self.0
        } else {
            self.1
        }
    }
}

/// Rolling forward: drop `out` on the left, append `in` on the right.
pub open spec fn roll_forward_spec(
    h: ExtCanonicalRabinKarpHash,
    k: nat,
    out_base: u8,
    in_base: u8,
) -> ExtCanonicalRabinKarpHash {
    ExtCanonicalRabinKarpHash(
        h.0.wrapping_sub(fwd_spec(out_base).wrapping_mul(rmmult_of(k))).wrapping_mul(
            MULTIPLIER,
        ).wrapping_add(fwd_spec(in_base)),
        h.1.wrapping_sub(bkw_spec(out_base)).wrapping_mul(MULT_INV).wrapping_add(
            bkw_spec(in_base).wrapping_mul(rmmult_of(k)),
        ),
    )
}

/// Rolling backward: drop `out` on the right, prepend `in` on the left.
pub open spec fn roll_reverse_spec(
    h: ExtCanonicalRabinKarpHash,
    k: nat,
    out_base: u8,
    in_base: u8,
) -> ExtCanonicalRabinKarpHash {
    ExtCanonicalRabinKarpHash(
        h.0.wrapping_sub(fwd_spec(out_base)).wrapping_mul(MULT_INV).wrapping_add(
            fwd_spec(in_base).wrapping_mul(rmmult_of(k)),
        ),
        h.1.wrapping_sub(bkw_spec(out_base).wrapping_mul(rmmult_of(k))).wrapping_mul(
            MULTIPLIER,
        ).wrapping_add(bkw_spec(in_base)),
    )
}

/// Shrinking the window by its leftmost base.
pub open spec fn remove_forward_spec(
    h: ExtCanonicalRabinKarpHash,
    k: nat,
    out_base: u8,
) -> ExtCanonicalRabinKarpHash {
    ExtCanonicalRabinKarpHash(
        h.0.wrapping_sub(rmmult_of(k).wrapping_mul(fwd_spec(out_base))),
        h.1.wrapping_sub(bkw_spec(out_base)).wrapping_mul(MULT_INV),
    )
}

/// Shrinking the window by its rightmost base.
pub open spec fn remove_reverse_spec(
    h: ExtCanonicalRabinKarpHash,
    k: nat,
    out_base: u8,
) -> ExtCanonicalRabinKarpHash {
    ExtCanonicalRabinKarpHash(
        h.0.wrapping_sub(fwd_spec(out_base)).wrapping_mul(MULT_INV),
        h.1.wrapping_sub(rmmult_of(k).wrapping_mul(bkw_spec(out_base))),
    )
}

/// The hash family: constructs rolling iterators and works on single hashes.
#[derive(Copy, Clone, Debug, PartialEq, Eq, Structural)]
pub struct CanonicalRabinKarpHashFactory;

impl CanonicalRabinKarpHashFactory {
    pub fn new(seq: Vec<u8>, k: usize) -> (r: CanonicalRabinKarpHashIterator)
        requires
            k >= 2,
            seq@.len() >= k - 1,
        ensures
            r.wf(),
            r.bases() == seq@,
            r.k() == k,
            r.position() == k - 1,
    {
        match CanonicalRabinKarpHashIterator::new(seq, k) {
            Ok(it) => it,
            Err(_) => vstd::pervasive::unreached(),
        }
    }

    /// Bucket of a hash: its low 32 bits, unmixed.
    pub fn get_bucket(hash: HashIntegerType) -> (r: u32)
        ensures
            r as int == hash as int % 0x1_0000_0000,
            r < 0x1_0000_0000,
    {
        let r = hash as u32;
        assert(r as int == hash as int % 0x1_0000_0000) by (bit_vector)
            requires r == hash as u32;
        r
    }

    /// Second bucket: not a capability of this hash.
    pub fn get_second_bucket(hash: HashIntegerType) -> (r: Option<u32>)
        ensures
            r is None,
    {
        None
    }

    /// Minimizer value: not a capability of this hash.
    pub fn get_minimizer(hash: HashIntegerType) -> (r: Option<u32>)
        ensures
            r is None,
    {
        None
    }

    /// The byte of `hash` that starts at bit `shift`.
    pub fn get_shifted(hash: HashIntegerType, shift: u8) -> (r: u8)
        requires
            shift < 64,
        ensures
            r == (hash >> shift) as u8,
    {
        (hash >> shift) as u8
    }

    pub fn manual_roll_forward(
        hash: ExtCanonicalRabinKarpHash,
        k: usize,
        out_base: u8,
        in_base: u8,
    ) -> (r: ExtCanonicalRabinKarpHash)
        requires
            k >= 1,
        ensures
            r == roll_forward_spec(hash, k as nat, out_base, in_base),
    {
        let rmmult = get_rmmult(k);
        ExtCanonicalRabinKarpHash(
            hash.0.wrapping_sub(fwd_l(out_base).wrapping_mul(rmmult)).wrapping_mul(
                MULTIPLIER,
            ).wrapping_add(fwd_l(in_base)),
            hash.1.wrapping_sub(bkw_l(out_base)).wrapping_mul(MULT_INV).wrapping_add(
                bkw_l(in_base).wrapping_mul(rmmult),
            ),
        )
    }

    pub fn manual_roll_reverse(
        hash: ExtCanonicalRabinKarpHash,
        k: usize,
        out_base: u8,
        in_base: u8,
    ) -> (r: ExtCanonicalRabinKarpHash)
        requires
            k >= 1,
        ensures
            r == roll_reverse_spec(hash, k as nat, out_base, in_base),
    {
        let rmmult = get_rmmult(k);
        ExtCanonicalRabinKarpHash(
            hash.0.wrapping_sub(fwd_l(out_base)).wrapping_mul(MULT_INV).wrapping_add(
                fwd_l(in_base).wrapping_mul(rmmult),
            ),
            hash.1.wrapping_sub(bkw_l(out_base).wrapping_mul(rmmult)).wrapping_mul(
                MULTIPLIER,
            ).wrapping_add(bkw_l(in_base)),
        )
    }

    pub fn manual_remove_only_forward(
        hash: ExtCanonicalRabinKarpHash,
        k: usize,
        out_base: u8,
    ) -> (r: ExtCanonicalRabinKarpHash)
        requires
            k >= 1,
        ensures
            r == remove_forward_spec(hash, k as nat, out_base),
    {
        let rmmult = get_rmmult(k);
        ExtCanonicalRabinKarpHash(
            hash.0.wrapping_sub(rmmult.wrapping_mul(fwd_l(out_base))),
            hash.1.wrapping_sub(bkw_l(out_base)).wrapping_mul(MULT_INV),
        )
    }

    pub fn manual_remove_only_reverse(
        hash: ExtCanonicalRabinKarpHash,
        k: usize,
        out_base: u8,
    ) -> (r: ExtCanonicalRabinKarpHash)
        requires
            k >= 1,
        ensures
            r == remove_reverse_spec(hash, k as nat, out_base),
    {
        let rmmult = get_rmmult(k);
        ExtCanonicalRabinKarpHash(
            hash.0.wrapping_sub(fwd_l(out_base)).wrapping_mul(MULT_INV),
            hash.1.wrapping_sub(rmmult.wrapping_mul(bkw_l(out_base))),
        )
    }
}

/// Rolling a window forward by hand gives the hashes of the shifted window:
/// for a window `w` of `k` bases, `manual_roll_forward(hash(w), k, w[0], c)` is
/// `hash(w[1..] + [c])`.
pub proof fn lemma_manual_roll_forward(w: Seq<u8>, in_base: u8)
    requires
        w.len() >= 2,
    ensures
        roll_forward_spec(ext_hash_of(w), w.len(), w[0], in_base) == ext_hash_of(
            w.drop_first().push(in_base),
        ),
{
    let h = ext_hash_of(w);
    let rm = rmmult_of(w.len());
    lemma_roll_out(w, h.0, h.1, rm);
    let v = w.drop_first().push(in_base);
    assert(v.drop_last() =~= w.drop_first());
    let fh = h.0.wrapping_sub(fwd_spec(w[0]).wrapping_mul(rm));
    let rc = h.1.wrapping_sub(bkw_spec(w[0]));
    lemma_roll_in(v, fh, rc, rm);
}

proof fn lemma_reverse_complement_polys(w: Seq<u8>)
    requires
        forall|i: int| 0 <= i < w.len() ==> is_base(#[trigger] w[i]),
    ensures
        fwd_poly(reverse_complement(w)) == rev_poly(w),
        rev_poly(reverse_complement(w)) == fwd_poly(w),
    decreases w.len(),
{
    let rc = reverse_complement(w);
    if w.len() == 0 {
        assert(rc.len() == 0);
    } else {
        assert(rc.drop_last() =~= reverse_complement(w.drop_first()));
        assert(rc.drop_first() =~= reverse_complement(w.drop_last()));
        assert(rc.last() == complement(w[0]));
        assert(rc[0] == complement(w.last()));
        assert(is_base(w[0]));
        assert(is_base(w.last()));
        lemma_reverse_complement_polys(w.drop_first());
        lemma_reverse_complement_polys(w.drop_last());
        let a = rev_poly(w.drop_first());
        let b = fwd_poly(w.drop_last());
        assert(a * MULTIPLIER == MULTIPLIER * a) by (nonlinear_arith);
        assert(MULTIPLIER * b == b * MULTIPLIER) by (nonlinear_arith);
    }
}

/// Strand invariance: on a sequence of accepted symbols, the canonical hash of
/// the window at `i` equals the canonical hash of the reverse complement's
/// window at `|s| - k - i`.
pub proof fn lemma_canonical_strand_invariant(s: Seq<u8>, k: nat, i: nat)
    requires
        i + k <= s.len(),
        forall|j: int| 0 <= j < s.len() ==> is_base(#[trigger] s[j]),
    ensures
        canonical_hash(s.subrange(i as int, (i + k) as int)) == canonical_hash(
            reverse_complement(s).subrange(s.len() - k - i, s.len() - i),
        ),
{
    let w = s.subrange(i as int, (i + k) as int);
    let r = reverse_complement(s).subrange(s.len() - k - i, s.len() - i);
    assert(r =~= reverse_complement(w));
    lemma_reverse_complement_polys(w);
    reveal(fwd_hash);
    reveal(rev_hash);
}

} // verus!
