//! The 256-bit unsigned word: the value type of the stack, storage and most
//! operands. A word is four 64-bit limbs, least significant first; its
//! mathematical value is the Horner sum of the limbs.

use vstd::prelude::*;
use vstd::arithmetic::div_mod::*;
use vstd::arithmetic::power::*;
use vstd::arithmetic::power2::pow2;

verus! {

/// The base of one limb: 2^64.
pub open spec fn p64() -> nat {
    0x1_0000_0000_0000_0000nat
}

/// The word modulus: 2^256. All word arithmetic is carried out modulo this.
pub open spec fn p256() -> nat {
    0x1_0000_0000_0000_0000_0000_0000_0000_0000_0000_0000_0000_0000_0000_0000_0000_0000nat
}

/// Half the word modulus: 2^255, the weight of the sign bit under the
/// two's-complement reading.
pub open spec fn p255() -> nat {
    0x8000_0000_0000_0000_0000_0000_0000_0000_0000_0000_0000_0000_0000_0000_0000_0000nat
}

/// A 256-bit unsigned integer, stored as four 64-bit limbs, least
/// significant limb first.
#[derive(Clone, Copy, PartialEq, Eq, Structural, Hash, Debug)]
pub struct Word {
    pub l0: u64,
    pub l1: u64,
    pub l2: u64,
    pub l3: u64,
}

impl View for Word {
    type V = nat;

    open spec fn view(&self) -> nat {
        (((self.l3 * p64() + self.l2) * p64() + self.l1) * p64() + self.l0) as nat
    }
}

impl Word {
    /// The word of value zero.
    pub fn zero() -> (r: Word)
        ensures
            r@ == 0,
    {
        Word { l0: 0, l1: 0, l2: 0, l3: 0 }
    }

    /// The word holding a small value.
    pub fn from_u64(v: u64) -> (r: Word)
        ensures
            r@ == v,
    {
        Word { l0: v, l1: 0, l2: 0, l3: 0 }
    }

    /// Whether the word is zero.
    pub fn is_zero(&self) -> (r: bool)
        ensures
            r == (self@ == 0),
    {
        proof {
            lemma_view_injective(*self, Word { l0: 0, l1: 0, l2: 0, l3: 0 });
        }
        self.l0 == 0 && self.l1 == 0 && self.l2 == 0 && self.l3 == 0
    }
}

/// Every word value lies below 2^256.
pub proof fn lemma_view_bound(w: Word)
    ensures
        w@ < p256(),
{
    assert(w.l0 < p64() && w.l1 < p64() && w.l2 < p64() && w.l3 < p64());
    assert((((w.l3 * p64() + w.l2) * p64() + w.l1) * p64() + w.l0) < p64() * p64() * p64() * p64())
        by (nonlinear_arith)
        requires
            w.l0 < p64(),
            w.l1 < p64(),
            w.l2 < p64(),
            w.l3 < p64(),
            p64() > 0,
    ;
    assert(p64() * p64() * p64() * p64() == p256()) by (nonlinear_arith);
}

/// Two base-b digit pairs compare as their lexicographic order.
pub proof fn lemma_digit_lt(ah: nat, al: nat, bh: nat, bl: nat, base: nat)
    requires
        al < base,
        bl < base,
    ensures
        (ah * base + al < bh * base + bl) <==> (ah < bh || (ah == bh && al < bl)),
{
    if ah < bh {
        assert(ah * base + al < bh * base + bl) by (nonlinear_arith)
            requires
                al < base,
                ah < bh,
        ;
    } else if ah == bh {
        assert(ah * base == bh * base);
    } else {
        assert(bh * base + bl < ah * base + al) by (nonlinear_arith)
            requires
                bl < base,
                bh < ah,
        ;
    }
}

/// Two base-b digit pairs are equal exactly when both digits agree.
pub proof fn lemma_digit_eq(ah: nat, al: nat, bh: nat, bl: nat, base: nat)
    requires
        al < base,
        bl < base,
    ensures
        (ah * base + al == bh * base + bl) <==> (ah == bh && al == bl),
{
    if ah * base + al == bh * base + bl {
        lemma_fundamental_div_mod_converse((ah * base + al) as int, base as int, ah as int, al as int);
        lemma_fundamental_div_mod_converse((bh * base + bl) as int, base as int, bh as int, bl as int);
    }
}

/// A word's value determines its limbs: the view is injective.
pub proof fn lemma_view_injective(a: Word, b: Word)
    ensures
        (a@ == b@) <==> (a == b),
{
    let a1: nat = (a.l3 * p64() + a.l2) as nat;
    let a2: nat = (a1 * p64() + a.l1) as nat;
    let b1: nat = (b.l3 * p64() + b.l2) as nat;
    let b2: nat = (b1 * p64() + b.l1) as nat;
    if a@ == b@ {
        lemma_digit_eq(a2, a.l0 as nat, b2, b.l0 as nat, p64());
        lemma_digit_eq(a1, a.l1 as nat, b1, b.l1 as nat, p64());
        lemma_digit_eq(a.l3 as nat, a.l2 as nat, b.l3 as nat, b.l2 as nat, p64());
    }
}

/// Words compare as their values: limbwise lexicographic comparison, most
/// significant limb first.
pub fn word_lt(a: &Word, b: &Word) -> (r: bool)
    ensures
        r == (a@ < b@),
{
    proof {
        let a1: nat = (a.l3 * p64() + a.l2) as nat;
        let a2: nat = (a1 * p64() + a.l1) as nat;
        let b1: nat = (b.l3 * p64() + b.l2) as nat;
        let b2: nat = (b1 * p64() + b.l1) as nat;
        lemma_digit_lt(a2, a.l0 as nat, b2, b.l0 as nat, p64());
        lemma_digit_lt(a1, a.l1 as nat, b1, b.l1 as nat, p64());
        lemma_digit_lt(a.l3 as nat, a.l2 as nat, b.l3 as nat, b.l2 as nat, p64());
        lemma_digit_eq(a2, a.l0 as nat, b2, b.l0 as nat, p64());
        lemma_digit_eq(a1, a.l1 as nat, b1, b.l1 as nat, p64());
        lemma_digit_eq(a.l3 as nat, a.l2 as nat, b.l3 as nat, b.l2 as nat, p64());
    }
    if a.l3 != b.l3 {
        a.l3 < b.l3
    } else if a.l2 != b.l2 {
        a.l2 < b.l2
    } else if a.l1 != b.l1 {
        a.l1 < b.l1
    } else {
        a.l0 < b.l0
    }
}

/// 256 raised to the power n, as a natural number.
pub open spec fn pow256(n: nat) -> nat {
    pow(256, n) as nat
}

pub proof fn lemma_pow256_pos(n: nat)
    ensures
        pow256(n) > 0,
{
    lemma_pow_positive(256, n);
}

pub proof fn lemma_pow256_zero()
    ensures
        pow256(0) == 1,
{
    lemma_pow0(256);
}

pub proof fn lemma_pow256_unfold(n: nat)
    requires
        n > 0,
    ensures
        pow256(n) == 256 * pow256((n - 1) as nat),
{
    lemma_pow_positive(256, n);
    lemma_pow_positive(256, (n - 1) as nat);
    reveal(pow);
    assert(pow(256, n) == 256 * pow(256, (n - 1) as nat));
}

/// The big-endian value of a byte sequence: the first byte is the most
/// significant.
pub open spec fn be_val(s: Seq<u8>) -> nat
    decreases s.len(),
{
    if s.len() == 0 {
        0
    } else {
        be_val(s.drop_last()) * 256 + (s.last() as nat)
    }
}

/// The last `n` base-256 digits of a value, most significant first.
pub open spec fn le_digits(v: nat, n: nat) -> Seq<u8>
    decreases n,
{
    if n == 0 {
        Seq::empty()
    } else {
        le_digits(v / 256, (n - 1) as nat).push((v % 256) as u8)
    }
}

/// The 32-byte big-endian image of a word value.
pub open spec fn word_be_bytes(v: nat) -> Seq<u8> {
    le_digits(v, 32)
}

pub proof fn lemma_be_val_bound(s: Seq<u8>)
    ensures
        be_val(s) < pow256(s.len()),
    decreases s.len(),
{
    if s.len() == 0 {
        lemma_pow256_pos(0);
    } else {
        let d: Seq<u8> = s.drop_last();
        lemma_be_val_bound(d);
        lemma_pow256_unfold(s.len());
        assert(be_val(d) * 256 + (s.last() as nat) < 256 * pow256(d.len())) by (nonlinear_arith)
            requires
                be_val(d) < pow256(d.len()),
                s.last() < 256,
        ;
    }
}

pub proof fn lemma_be_val_concat(a: Seq<u8>, b: Seq<u8>)
    ensures
        be_val(a + b) == be_val(a) * pow256(b.len()) + be_val(b),
    decreases b.len(),
{
    if b.len() == 0 {
        assert(a + b =~= a);
        lemma_pow256_zero();
    } else {
        let d: Seq<u8> = b.drop_last();
        assert((a + b).drop_last() =~= a + d);
        assert((a + b).last() == b.last());
        lemma_be_val_concat(a, d);
        lemma_pow256_unfold(b.len());
        assert((be_val(a) * pow256(d.len()) + be_val(d)) * 256 + (b.last() as nat) == be_val(a)
            * (256 * pow256(d.len())) + (be_val(d) * 256 + (b.last() as nat))) by (nonlinear_arith);
    }
}

pub proof fn lemma_le_digits_len(v: nat, n: nat)
    ensures
        le_digits(v, n).len() == n,
    decreases n,
{
    if n > 0 {
        lemma_le_digits_len(v / 256, (n - 1) as nat);
    }
}

/// Reading the digit image back as a big-endian value recovers the value
/// modulo the covered range.
pub proof fn lemma_be_val_le_digits(v: nat, n: nat)
    ensures
        be_val(le_digits(v, n)) == v % pow256(n),
    decreases n,
{
    lemma_le_digits_len(v, n);
    lemma_pow256_pos(n);
    if n == 0 {
        lemma_pow256_zero();
    } else {
        let q: nat = v / 256;
        let m: nat = (n - 1) as nat;
        lemma_be_val_le_digits(q, m);
        lemma_le_digits_len(q, m);
        lemma_pow256_pos(m);
        lemma_pow256_unfold(n);
        assert(le_digits(v, n).drop_last() =~= le_digits(q, m));
        assert(be_val(le_digits(v, n)) == (q % pow256(m)) * 256 + v % 256);
        lemma_fundamental_div_mod(q as int, pow256(m) as int);
        // q == pow256(m) * (q / pow256(m)) + q % pow256(m)
        lemma_fundamental_div_mod(v as int, 256);
        // v == 256 * q + v % 256
        let hq: int = q as int / pow256(m) as int;
        assert(v == (q % pow256(m)) * 256 + v % 256 + hq * (pow256(m) * 256)) by (nonlinear_arith)
            requires
                q == pow256(m) * hq + q % pow256(m),
                v == 256 * q + v % 256,
        ;
        assert(pow256(m) * 256 == pow256(n)) by (nonlinear_arith)
            requires
                pow256(n) == 256 * pow256(m),
        ;
        assert((q % pow256(m)) * 256 + v % 256 < pow256(n)) by (nonlinear_arith)
            requires
                q % pow256(m) < pow256(m),
                v % 256 < 256,
                pow256(n) == 256 * pow256(m),
                pow256(m) > 0,
        ;
        lemma_fundamental_div_mod_converse(v as int, pow256(n) as int, hq, ((q % pow256(m)) * 256
            + v % 256) as int);
    }
}

/// The values of 256^n for n up to 8.
pub proof fn lemma_pow256_values()
    ensures
        pow256(0) == 1,
        pow256(1) == 0x100,
        pow256(2) == 0x1_0000,
        pow256(3) == 0x100_0000,
        pow256(4) == 0x1_0000_0000,
        pow256(5) == 0x100_0000_0000,
        pow256(6) == 0x1_0000_0000_0000,
        pow256(7) == 0x100_0000_0000_0000,
        pow256(8) == p64(),
{
    lemma_pow256_zero();
    lemma_pow256_unfold(1);
    lemma_pow256_unfold(2);
    lemma_pow256_unfold(3);
    lemma_pow256_unfold(4);
    lemma_pow256_unfold(5);
    lemma_pow256_unfold(6);
    lemma_pow256_unfold(7);
    lemma_pow256_unfold(8);
}

/// 256^32 is the word modulus.
pub proof fn lemma_pow256_32()
    ensures
        pow256(32) == p256(),
{
    lemma_pow256_values();
    lemma_pow_adds(256, 8, 8);
    lemma_pow_positive(256, 8);
    lemma_pow_positive(256, 16);
    assert(pow256(16) == pow256(8) * pow256(8)) by (nonlinear_arith)
        requires
            pow(256, 16) == pow(256, 8) * pow(256, 8),
            pow(256, 8) >= 0,
    ;
    lemma_pow_adds(256, 16, 16);
    lemma_pow_positive(256, 32);
    assert(pow256(32) == pow256(16) * pow256(16)) by (nonlinear_arith)
        requires
            pow(256, 32) == pow(256, 16) * pow(256, 16),
            pow(256, 16) >= 0,
    ;
    assert(p64() * p64() == 0x1_0000_0000_0000_0000_0000_0000_0000_0000nat) by (nonlinear_arith);
    assert(0x1_0000_0000_0000_0000_0000_0000_0000_0000nat
        * 0x1_0000_0000_0000_0000_0000_0000_0000_0000nat == p256()) by (nonlinear_arith);
}

/// Each digit of the image is the corresponding base-256 digit of the value.
pub proof fn lemma_le_digits_index(v: nat, n: nat, i: int)
    requires
        0 <= i < n,
    ensures
        le_digits(v, n)[i] == ((v / pow256((n - 1 - i) as nat)) % 256) as u8,
    decreases n,
{
    lemma_le_digits_len(v, n);
    lemma_le_digits_len(v / 256, (n - 1) as nat);
    if i == n - 1 {
        lemma_pow256_zero();
        assert(v / 1 == v) by (nonlinear_arith);
    } else {
        lemma_le_digits_index(v / 256, (n - 1) as nat, i);
        let k: nat = (n - 2 - i) as nat;
        lemma_pow256_pos(k);
        lemma_pow256_unfold((n - 1 - i) as nat);
        lemma_div_denominator(v as int, 256, pow256(k) as int);
        assert((v / 256) / pow256(k) == v / (256 * pow256(k)));
    }
}

/// The big-endian value of a run of zero bytes is zero.
pub proof fn lemma_be_val_zeros(s: Seq<u8>)
    requires
        forall|i: int| 0 <= i < s.len() ==> s[i] == 0,
    ensures
        be_val(s) == 0,
    decreases s.len(),
{
    if s.len() > 0 {
        lemma_be_val_zeros(s.drop_last());
    }
}

/// Equal-length byte strings with the same big-endian value are equal.
pub proof fn lemma_be_val_injective(a: Seq<u8>, b: Seq<u8>)
    requires
        a.len() == b.len(),
        be_val(a) == be_val(b),
    ensures
        a =~= b,
    decreases a.len(),
{
    if a.len() > 0 {
        lemma_be_val_bound(a.drop_last());
        lemma_be_val_bound(b.drop_last());
        lemma_digit_eq(be_val(a.drop_last()), a.last() as nat, be_val(b.drop_last()), b.last() as nat, 256);
        lemma_be_val_injective(a.drop_last(), b.drop_last());
        assert(a =~= a.drop_last().push(a.last()));
        assert(b =~= b.drop_last().push(b.last()));
    }
}

/// Reads the eight bytes at `start` as a big-endian 64-bit limb.
fn u64_from_be_at(bytes: &[u8], start: usize) -> (r: u64)
    requires
        start + 8 <= bytes@.len(),
    ensures
        r as nat == be_val(bytes@.subrange(start as int, start as int + 8)),
{
    let blen: usize = bytes.len();
    let mut acc: u64 = 0;
    let mut j: usize = 0;
    while j < 8
        invariant
            start + 8 <= blen,
            blen == bytes@.len(),
            j <= 8,
            acc as nat == be_val(bytes@.subrange(start as int, start as int + j)),
        decreases 8 - j,
    {
        proof {
            let cur: Seq<u8> = bytes@.subrange(start as int, start as int + j);
            let next: Seq<u8> = bytes@.subrange(start as int, start as int + j + 1);
            assert(next.drop_last() =~= cur);
            assert(next.last() == bytes@[start as int + j]);
            lemma_be_val_bound(cur);
            lemma_pow256_values();
            lemma_pow_increases(256, j as nat, 7);
            lemma_pow_positive(256, j as nat);
            assert(pow256(j as nat) <= pow256(7));
        }
        acc = acc * 256 + (bytes[start + j] as u64);
        j = j + 1;
    }
    proof {
        assert(bytes@.subrange(start as int, start as int + 8) =~= bytes@.subrange(
            start as int,
            start as int + j,
        ));
    }
    acc
}

/// Appends the eight big-endian bytes of a 64-bit limb.
fn push_be_limb(out: &mut Vec<u8>, x: u64)
    ensures
        final(out)@ == old(out)@ + le_digits(x as nat, 8),
{
    let b0: u64 = (x / 0x100_0000_0000_0000) % 256;
    let b1: u64 = (x / 0x1_0000_0000_0000) % 256;
    let b2: u64 = (x / 0x100_0000_0000) % 256;
    let b3: u64 = (x / 0x1_0000_0000) % 256;
    let b4: u64 = (x / 0x100_0000) % 256;
    let b5: u64 = (x / 0x1_0000) % 256;
    let b6: u64 = (x / 0x100) % 256;
    let b7: u64 = x % 256;
    out.push(b0 as u8);
    out.push(b1 as u8);
    out.push(b2 as u8);
    out.push(b3 as u8);
    out.push(b4 as u8);
    out.push(b5 as u8);
    out.push(b6 as u8);
    out.push(b7 as u8);
    proof {
        lemma_pow256_values();
        lemma_le_digits_len(x as nat, 8);
        lemma_le_digits_index(x as nat, 8, 0);
        lemma_le_digits_index(x as nat, 8, 1);
        lemma_le_digits_index(x as nat, 8, 2);
        lemma_le_digits_index(x as nat, 8, 3);
        lemma_le_digits_index(x as nat, 8, 4);
        lemma_le_digits_index(x as nat, 8, 5);
        lemma_le_digits_index(x as nat, 8, 6);
        lemma_le_digits_index(x as nat, 8, 7);
        assert(x as nat / 1 == x as nat) by (nonlinear_arith);
        assert(out@ =~= old(out)@ + le_digits(x as nat, 8));
    }
}

impl Word {
    /// Builds the word whose big-endian image is the given 32 bytes.
    pub fn from_be_bytes(bytes: &[u8]) -> (r: Word)
        requires
            bytes@.len() == 32,
        ensures
            r@ == be_val(bytes@),
    {
        let h3: u64 = u64_from_be_at(bytes, 0);
        let h2: u64 = u64_from_be_at(bytes, 8);
        let h1: u64 = u64_from_be_at(bytes, 16);
        let h0: u64 = u64_from_be_at(bytes, 24);
        let r: Word = Word { l0: h0, l1: h1, l2: h2, l3: h3 };
        proof {
            let s3: Seq<u8> = bytes@.subrange(0, 8);
            let s2: Seq<u8> = bytes@.subrange(8, 16);
            let s1: Seq<u8> = bytes@.subrange(16, 24);
            let s0: Seq<u8> = bytes@.subrange(24, 32);
            assert(s3 + s2 =~= bytes@.subrange(0, 16));
            assert((s3 + s2) + s1 =~= bytes@.subrange(0, 24));
            assert(((s3 + s2) + s1) + s0 =~= bytes@);
            lemma_be_val_concat(s3, s2);
            lemma_be_val_concat(s3 + s2, s1);
            lemma_be_val_concat((s3 + s2) + s1, s0);
            lemma_pow256_values();
        }
        r
    }

    /// The 32-byte big-endian image of the word.
    pub fn to_be_bytes(&self) -> (r: Vec<u8>)
        ensures
            r@ == word_be_bytes(self@),
            r@.len() == 32,
    {
        let mut out: Vec<u8> = Vec::new();
        push_be_limb(&mut out, self.l3);
        push_be_limb(&mut out, self.l2);
        push_be_limb(&mut out, self.l1);
        push_be_limb(&mut out, self.l0);
        proof {
            let s3: Seq<u8> = le_digits(self.l3 as nat, 8);
            let s2: Seq<u8> = le_digits(self.l2 as nat, 8);
            let s1: Seq<u8> = le_digits(self.l1 as nat, 8);
            let s0: Seq<u8> = le_digits(self.l0 as nat, 8);
            assert(out@ =~= ((s3 + s2) + s1) + s0);
            lemma_le_digits_len(self.l3 as nat, 8);
            lemma_le_digits_len(self.l2 as nat, 8);
            lemma_le_digits_len(self.l1 as nat, 8);
            lemma_le_digits_len(self.l0 as nat, 8);
            lemma_be_val_concat(s3, s2);
            lemma_be_val_concat(s3 + s2, s1);
            lemma_be_val_concat((s3 + s2) + s1, s0);
            lemma_pow256_values();
            lemma_be_val_le_digits(self.l3 as nat, 8);
            lemma_be_val_le_digits(self.l2 as nat, 8);
            lemma_be_val_le_digits(self.l1 as nat, 8);
            lemma_be_val_le_digits(self.l0 as nat, 8);
            lemma_small_mod(self.l3 as nat, pow256(8));
            lemma_small_mod(self.l2 as nat, pow256(8));
            lemma_small_mod(self.l1 as nat, pow256(8));
            lemma_small_mod(self.l0 as nat, pow256(8));
            assert(be_val(out@) == self@);
            lemma_be_val_le_digits(self@, 32);
            lemma_pow256_32();
            lemma_view_bound(*self);
            lemma_small_mod(self@, pow256(32));
            lemma_le_digits_len(self@, 32);
            lemma_be_val_injective(out@, word_be_bytes(self@));
        }
        out
    }
}

/// Wrapping 256-bit addition.
pub open spec fn add_wrap(a: nat, b: nat) -> nat {
    (a + b) % p256()
}

/// Wrapping 256-bit subtraction.
pub open spec fn sub_wrap(a: nat, b: nat) -> nat {
    (((a + p256()) - b) % (p256() as int)) as nat
}

/// Wrapping 256-bit multiplication.
pub open spec fn mul_wrap(a: nat, b: nat) -> nat {
    (a * b) % p256()
}

/// Wrapping 256-bit exponentiation.
pub open spec fn pow_wrap(b: nat, e: nat) -> nat {
    (pow(b as int, e) % (p256() as int)) as nat
}

/// The two's-complement reading of a word value: values with the top bit
/// set stand for their value minus 2^256.
pub open spec fn sint(v: nat) -> int {
    if v >= p255() {
        v - p256()
    } else {
        v as int
    }
}

/// Each limb is the matching base-2^64 digit of the word's value.
pub proof fn lemma_limbs(w: Word)
    ensures
        w@ % p64() == w.l0,
        (w@ / p64()) % p64() == w.l1,
        ((w@ / p64()) / p64()) % p64() == w.l2,
        ((w@ / p64()) / p64()) / p64() == w.l3,
{
    let v2: nat = (w.l3 * p64() + w.l2) as nat;
    let v1: nat = (v2 * p64() + w.l1) as nat;
    lemma_fundamental_div_mod_converse(w@ as int, p64() as int, v1 as int, w.l0 as int);
    lemma_fundamental_div_mod_converse(v1 as int, p64() as int, v2 as int, w.l1 as int);
    lemma_fundamental_div_mod_converse(v2 as int, p64() as int, w.l3 as int, w.l2 as int);
}

/// A word whose three upper limbs are zero holds exactly its low limb.
pub proof fn lemma_low_word(w: Word)
    requires
        w.l1 == 0,
        w.l2 == 0,
        w.l3 == 0,
    ensures
        w@ == w.l0,
{
}

impl Word {
    /// The word's value as a memory offset or size, where it fits; `None`
    /// exactly on values beyond the native address width.
    pub fn to_usize_checked(&self) -> (r: Option<usize>)
        ensures
            match r {
                Some(u) => u as nat == self@,
                None => self@ > usize::MAX as nat,
            },
    {
        proof {
            lemma_limbs(*self);
            if self@ <= usize::MAX as nat {
                lemma_basic_div(self@ as int, p64() as int);
                lemma_small_mod(self@, p64());
            }
        }
        if self.l1 == 0 && self.l2 == 0 && self.l3 == 0 && self.l0 <= (usize::MAX as u64) {
            Some(self.l0 as usize)
        } else {
            None
        }
    }

    /// Limbwise bitwise conjunction.
    pub fn bitand(&self, other: &Word) -> (r: Word)
        ensures
            r@ == and_nat(self@, other@),
    {
        proof {
            lemma_limbs(*self);
            lemma_limbs(*other);
        }
        Word {
            l0: self.l0 & other.l0,
            l1: self.l1 & other.l1,
            l2: self.l2 & other.l2,
            l3: self.l3 & other.l3,
        }
    }

    /// Limbwise bitwise disjunction.
    pub fn bitor(&self, other: &Word) -> (r: Word)
        ensures
            r@ == or_nat(self@, other@),
    {
        proof {
            lemma_limbs(*self);
            lemma_limbs(*other);
        }
        Word {
            l0: self.l0 | other.l0,
            l1: self.l1 | other.l1,
            l2: self.l2 | other.l2,
            l3: self.l3 | other.l3,
        }
    }

    /// Limbwise bitwise exclusive or.
    pub fn bitxor(&self, other: &Word) -> (r: Word)
        ensures
            r@ == xor_nat(self@, other@),
    {
        proof {
            lemma_limbs(*self);
            lemma_limbs(*other);
        }
        Word {
            l0: self.l0 ^ other.l0,
            l1: self.l1 ^ other.l1,
            l2: self.l2 ^ other.l2,
            l3: self.l3 ^ other.l3,
        }
    }

    /// Bitwise complement: the value 2^256 - 1 - v.
    pub fn bitnot(&self) -> (r: Word)
        ensures
            r@ == p256() - 1 - self@,
    {
        let r: Word = Word { l0: !self.l0, l1: !self.l1, l2: !self.l2, l3: !self.l3 };
        proof {
            let x0: u64 = self.l0;
            let x1: u64 = self.l1;
            let x2: u64 = self.l2;
            let x3: u64 = self.l3;
            assert(!x0 == u64::MAX - x0) by (bit_vector);
            assert(!x1 == u64::MAX - x1) by (bit_vector);
            assert(!x2 == u64::MAX - x2) by (bit_vector);
            assert(!x3 == u64::MAX - x3) by (bit_vector);
            assert((((u64::MAX - self.l3) * p64() + (u64::MAX - self.l2)) * p64() + (u64::MAX
                - self.l1)) * p64() + (u64::MAX - self.l0) == p256() - 1 - ((((self.l3 * p64()
                + self.l2) * p64() + self.l1) * p64() + self.l0))) by (nonlinear_arith)
                requires
                    p64() == 0x1_0000_0000_0000_0000nat,
                    p256()
                        == 0x1_0000_0000_0000_0000_0000_0000_0000_0000_0000_0000_0000_0000_0000_0000_0000_0000nat,
                    self.l0 <= u64::MAX,
                    self.l1 <= u64::MAX,
                    self.l2 <= u64::MAX,
                    self.l3 <= u64::MAX,
            ;
        }
        r
    }

    /// Whether the word is negative under the two's-complement reading.
    pub fn is_negative(&self) -> (r: bool)
        ensures
            r == (sint(self@) < 0),
    {
        proof {
            lemma_sign(*self);
        }
        self.l3 >= 0x8000_0000_0000_0000
    }
}

/// The k-th base-2^64 digit of a value.
pub open spec fn nat_limb(v: nat, k: nat) -> u64 {
    if k == 0 {
        (v % p64()) as u64
    } else if k == 1 {
        ((v / p64()) % p64()) as u64
    } else if k == 2 {
        (((v / p64()) / p64()) % p64()) as u64
    } else {
        (((v / p64()) / p64()) / p64()) as u64
    }
}

/// Limbwise bitwise conjunction of two word values.
pub open spec fn and_nat(a: nat, b: nat) -> nat {
    ((((nat_limb(a, 3) & nat_limb(b, 3)) * p64() + (nat_limb(a, 2) & nat_limb(b, 2))) * p64() + (
    nat_limb(a, 1) & nat_limb(b, 1))) * p64() + (nat_limb(a, 0) & nat_limb(b, 0))) as nat
}

/// Limbwise bitwise disjunction of two word values.
pub open spec fn or_nat(a: nat, b: nat) -> nat {
    ((((nat_limb(a, 3) | nat_limb(b, 3)) * p64() + (nat_limb(a, 2) | nat_limb(b, 2))) * p64() + (
    nat_limb(a, 1) | nat_limb(b, 1))) * p64() + (nat_limb(a, 0) | nat_limb(b, 0))) as nat
}

/// Limbwise bitwise exclusive or of two word values.
pub open spec fn xor_nat(a: nat, b: nat) -> nat {
    ((((nat_limb(a, 3) ^ nat_limb(b, 3)) * p64() + (nat_limb(a, 2) ^ nat_limb(b, 2))) * p64() + (
    nat_limb(a, 1) ^ nat_limb(b, 1))) * p64() + (nat_limb(a, 0) ^ nat_limb(b, 0))) as nat
}

/// The sign bit of a word sits in its top limb.
pub proof fn lemma_sign(w: Word)
    ensures
        (sint(w@) < 0) <==> (w.l3 >= 0x8000_0000_0000_0000),
        (w@ >= p255()) <==> (w.l3 >= 0x8000_0000_0000_0000),
{
    lemma_view_bound(w);
    let q: int = p64() as int;
    let l0: int = w.l0 as int;
    let l1: int = w.l1 as int;
    let l2: int = w.l2 as int;
    let l3: int = w.l3 as int;
    let t0: int = ((l3 * q + l2) * q + l1) * q + l0;
    assert(t0 >= 0) by (nonlinear_arith)
        requires
            t0 == ((l3 * q + l2) * q + l1) * q + l0,
            l0 >= 0,
            l1 >= 0,
            l2 >= 0,
            l3 >= 0,
            q > 0,
    ;
    assert(w@ == t0);
    let b3: int = q * q * q;
    let low: int = (l2 * q + l1) * q + l0;
    assert(t0 == l3 * b3 + low) by (nonlinear_arith)
        requires
            t0 == ((l3 * q + l2) * q + l1) * q + l0,
            low == (l2 * q + l1) * q + l0,
            b3 == q * q * q,
    ;
    assert(low >= 0 && low < b3) by (nonlinear_arith)
        requires
            low == (l2 * q + l1) * q + l0,
            b3 == q * q * q,
            0 <= l0 < q,
            0 <= l1 < q,
            0 <= l2 < q,
            q > 0,
    ;
    assert(0x8000_0000_0000_0000 * b3 == p255() as int) by (nonlinear_arith)
        requires
            b3 == q * q * q,
            q == 0x1_0000_0000_0000_0000,
    ;
    if l3 >= 0x8000_0000_0000_0000 {
        assert(l3 * b3 >= 0x8000_0000_0000_0000 * b3) by (nonlinear_arith)
            requires
                l3 >= 0x8000_0000_0000_0000,
                b3 > 0,
        ;
    } else {
        assert(l3 * b3 + low < (l3 + 1) * b3) by (nonlinear_arith)
            requires
                low < b3,
        ;
        assert((l3 + 1) * b3 <= 0x8000_0000_0000_0000 * b3) by (nonlinear_arith)
            requires
                l3 + 1 <= 0x8000_0000_0000_0000,
                b3 > 0,
        ;
    }
}

/// Words compare under the signed reading by sign first, then unsigned
/// order.
pub fn word_slt(a: &Word, b: &Word) -> (r: bool)
    ensures
        r == (sint(a@) < sint(b@)),
{
    let na: bool = a.is_negative();
    let nb: bool = b.is_negative();
    if na != nb {
        na
    } else {
        word_lt(a, b)
    }
}

/// A word lies below a small bound exactly when its upper limbs are zero
/// and its low limb lies below it.
pub proof fn lemma_word_below(w: Word, c: nat)
    requires
        c <= p64(),
    ensures
        (w@ < c) <==> (w.l1 == 0 && w.l2 == 0 && w.l3 == 0 && (w.l0 as nat) < c),
{
    lemma_limbs(w);
    if w@ < c {
        lemma_small_mod(w@, p64());
        lemma_basic_div(w@ as int, p64() as int);
        lemma_basic_div(0, p64() as int);
        lemma_small_mod(0, p64());
    }
    if w.l1 == 0 && w.l2 == 0 && w.l3 == 0 {
        lemma_low_word(w);
    }
}

/// The low byte of a word is the low byte of its low limb.
pub proof fn lemma_low_byte(w: Word)
    ensures
        w@ % 256 == w.l0 % 256,
{
    let hi: int = (w.l3 * p64() + w.l2) * p64() + w.l1;
    assert(w@ == hi * p64() + w.l0) by (nonlinear_arith)
        requires
            w@ == ((((w.l3 * p64() + w.l2) * p64() + w.l1) * p64() + w.l0) as nat),
            hi == (w.l3 * p64() + w.l2) * p64() + w.l1,
            w.l0 >= 0,
            w.l1 >= 0,
            w.l2 >= 0,
            w.l3 >= 0,
            p64() > 0,
    ;
    let k: int = 0x100_0000_0000_0000;
    assert(hi * p64() == 256 * (hi * k)) by (nonlinear_arith)
        requires
            p64() == 0x1_0000_0000_0000_0000nat,
            k == 0x100_0000_0000_0000,
    ;
    lemma_mod_multiples_vanish(hi * k, w.l0 as int, 256);
}

/// 2^256 is the word modulus.
pub proof fn lemma_pow2_p256()
    ensures
        pow2(256) == p256(),
{
    vstd::arithmetic::power2::lemma2_to64();
    assert(pow2(8) == 256);
    lemma_pow_multiplies(2, 8, 32);
    assert(pow(2, 256) == pow(pow(2, 8), 32));
    assert(pow(2, 8) == 256) by {
        lemma_pow_positive(2, 8);
    };
    lemma_pow256_32();
    lemma_pow_positive(2, 256);
}

/// A shift by 256 or more clears the word: the shifted value is a
/// multiple of the modulus.
pub proof fn lemma_shl_large(v: nat, s: nat)
    requires
        s >= 256,
        v < p256(),
    ensures
        (v * pow2(s)) % p256() == 0,
{
    lemma_pow2_p256();
    vstd::arithmetic::power2::lemma_pow2_adds(256, (s - 256) as nat);
    vstd::arithmetic::power2::lemma_pow2_pos((s - 256) as nat);
    let rest: nat = pow2((s - 256) as nat);
    assert(v * (pow2(256) * rest) == (v * rest) * p256()) by (nonlinear_arith)
        requires
            pow2(256) == p256(),
            rest >= 0,
    ;
    lemma_mod_multiples_basic((v * rest) as int, p256() as int);
}

/// A right shift by 256 or more clears the word: the divisor exceeds any
/// word value.
pub proof fn lemma_shr_large(v: nat, s: nat)
    requires
        s >= 256,
        v < p256(),
    ensures
        v / pow2(s) == 0,
{
    lemma_pow2_p256();
    if s > 256 {
        vstd::arithmetic::power2::lemma_pow2_strictly_increases(256, s);
    }
    lemma_basic_div(v as int, pow2(s) as int);
}

/// Relies on primitive_types::U256::overflowing_add: addition of two 256-bit
/// integers over little-endian 64-bit limbs, discarding the carry out of the
/// top limb, i.e. addition modulo 2^256.
#[verifier::external_body]
pub fn u256_add(a: &Word, b: &Word) -> (r: Word)
    ensures
        r@ == add_wrap(a@, b@),
{
    let x = primitive_types::U256([a.l0, a.l1, a.l2, a.l3]);
    let y = primitive_types::U256([b.l0, b.l1, b.l2, b.l3]);
    let z = x.overflowing_add(y).0;
    Word { l0: z.0[0], l1: z.0[1], l2: z.0[2], l3: z.0[3] }
}

/// Relies on primitive_types::U256::overflowing_sub: subtraction modulo
/// 2^256, borrowing from the modulus when the subtrahend is larger.
#[verifier::external_body]
pub fn u256_sub(a: &Word, b: &Word) -> (r: Word)
    ensures
        r@ == sub_wrap(a@, b@),
{
    let x = primitive_types::U256([a.l0, a.l1, a.l2, a.l3]);
    let y = primitive_types::U256([b.l0, b.l1, b.l2, b.l3]);
    let z = x.overflowing_sub(y).0;
    Word { l0: z.0[0], l1: z.0[1], l2: z.0[2], l3: z.0[3] }
}

/// Relies on primitive_types::U256::overflowing_mul: schoolbook limb
/// multiplication keeping the low 256 bits, i.e. multiplication modulo
/// 2^256.
#[verifier::external_body]
pub fn u256_mul(a: &Word, b: &Word) -> (r: Word)
    ensures
        r@ == mul_wrap(a@, b@),
{
    let x = primitive_types::U256([a.l0, a.l1, a.l2, a.l3]);
    let y = primitive_types::U256([b.l0, b.l1, b.l2, b.l3]);
    let z = x.overflowing_mul(y).0;
    Word { l0: z.0[0], l1: z.0[1], l2: z.0[2], l3: z.0[3] }
}

/// Relies on primitive_types::U256::div_mod: Euclidean quotient and
/// remainder of 256-bit integers; it panics on a zero divisor, which the
/// precondition rules out.
#[verifier::external_body]
pub fn u256_div_mod(a: &Word, b: &Word) -> (r: (Word, Word))
    requires
        b@ != 0,
    ensures
        r.0@ == a@ / b@,
        r.1@ == a@ % b@,
{
    let x = primitive_types::U256([a.l0, a.l1, a.l2, a.l3]);
    let y = primitive_types::U256([b.l0, b.l1, b.l2, b.l3]);
    let (q, m) = x.div_mod(y);
    (
        Word { l0: q.0[0], l1: q.0[1], l2: q.0[2], l3: q.0[3] },
        Word { l0: m.0[0], l1: m.0[1], l2: m.0[2], l3: m.0[3] },
    )
}

/// Relies on primitive_types::U256::overflowing_pow: exponentiation by
/// squaring built on multiplication modulo 2^256, i.e. the power modulo
/// 2^256.
#[verifier::external_body]
pub fn u256_pow(a: &Word, e: &Word) -> (r: Word)
    ensures
        r@ == pow_wrap(a@, e@),
{
    let x = primitive_types::U256([a.l0, a.l1, a.l2, a.l3]);
    let y = primitive_types::U256([e.l0, e.l1, e.l2, e.l3]);
    let z = x.overflowing_pow(y).0;
    Word { l0: z.0[0], l1: z.0[1], l2: z.0[2], l3: z.0[3] }
}

/// Relies on primitive_types::U256's Shl impl: a left shift by fewer than
/// 256 bits moves limb contents upward, discarding bits shifted past the
/// top, i.e. multiplication by 2^s modulo 2^256.
#[verifier::external_body]
pub fn u256_shl(a: &Word, s: u64) -> (r: Word)
    requires
        s < 256,
    ensures
        r@ == (a@ * pow2(s as nat)) % p256(),
{
    let x = primitive_types::U256([a.l0, a.l1, a.l2, a.l3]);
    let z = x << (s as usize);
    Word { l0: z.0[0], l1: z.0[1], l2: z.0[2], l3: z.0[3] }
}

/// Relies on primitive_types::U256's Shr impl: a logical right shift by
/// fewer than 256 bits, i.e. division by 2^s.
#[verifier::external_body]
pub fn u256_shr(a: &Word, s: u64) -> (r: Word)
    requires
        s < 256,
    ensures
        r@ == a@ / pow2(s as nat),
{
    let x = primitive_types::U256([a.l0, a.l1, a.l2, a.l3]);
    let z = x >> (s as usize);
    Word { l0: z.0[0], l1: z.0[1], l2: z.0[2], l3: z.0[3] }
}

/// Relies on primitive_types::U256::full_mul, which produces the exact
/// 512-bit product, and on the U512 Rem impl (via div_mod), which reduces
/// it by a nonzero modulus; together the remainder of the exact product.
#[verifier::external_body]
pub fn u256_mulmod(a: &Word, b: &Word, n: &Word) -> (r: Word)
    requires
        n@ != 0,
    ensures
        r@ == (a@ * b@) % n@,
{
    let x = primitive_types::U256([a.l0, a.l1, a.l2, a.l3]);
    let y = primitive_types::U256([b.l0, b.l1, b.l2, b.l3]);
    let m = primitive_types::U512::from(primitive_types::U256([n.l0, n.l1, n.l2, n.l3]));
    let z = x.full_mul(y) % m;
    Word { l0: z.0[0], l1: z.0[1], l2: z.0[2], l3: z.0[3] }
}

} // verus!
