//! The scalar field of the Bandersnatch curve.
//!
//! A [`Scalar`] holds four little-endian 64-bit limbs; its value is the
//! integer they spell, reduced modulo the group order `r`.

use ark_ed_on_bls12_381_bandersnatch::Fr;
use ark_ff::{BigInt, BigInteger, Field, PrimeField};
use ark_serialize::CanonicalSerialize;
use vstd::arithmetic::div_mod::{
    lemma_add_mod_noop, lemma_add_mod_noop_right, lemma_fundamental_div_mod,
    lemma_fundamental_div_mod_converse, lemma_mul_mod_noop_general, lemma_small_mod,
};
use vstd::arithmetic::mul::{
    lemma_mul_is_associative, lemma_mul_is_commutative, lemma_mul_is_distributive_add_other_way,
};
use vstd::arithmetic::power::pow;
use vstd::prelude::*;

verus! {

/// The order `r` of the prime-order subgroup, which is the size of the scalar field.
pub open spec fn modulus() -> nat {
    13108968793781547619861935127046491459309155893440570251786403306729687672801nat
}

/// 2^64.
pub open spec fn limb_base() -> nat {
    0x1_0000_0000_0000_0000nat
}

/// The integer spelled by four little-endian 64-bit limbs.
pub open spec fn limbs_value(limbs: [u64; 4]) -> nat {
    limbs@[0] as nat + limb_base() * (limbs@[1] as nat + limb_base() * (limbs@[2] as nat
        + limb_base() * limbs@[3] as nat))
}

/// The integer that a byte string spells in little-endian order.
pub open spec fn le_value(bytes: Seq<u8>) -> nat
    decreases bytes.len(),
{
    if bytes.len() == 0 {
        0
    } else {
        bytes[0] as nat + 256 * le_value(bytes.drop_first())
    }
}

/// The integer that a byte string spells in big-endian order.
pub open spec fn be_value(bytes: Seq<u8>) -> nat
    decreases bytes.len(),
{
    if bytes.len() == 0 {
        0
    } else {
        be_value(bytes.drop_last()) * 256 + bytes.last() as nat
    }
}

/// The `len` low-order bytes of `v`, least significant first.
pub open spec fn le_bytes(v: nat, len: nat) -> Seq<u8>
    decreases len,
{
    if len == 0 {
        Seq::empty()
    } else {
        seq![(v % 256) as u8] + le_bytes(v / 256, (len - 1) as nat)
    }
}

/// A serialization of `len` bytes has `len` bytes.
pub proof fn lemma_le_bytes_len(v: nat, len: nat)
    ensures
        le_bytes(v, len).len() == len,
    decreases len,
{
    if len > 0 {
        lemma_le_bytes_len(v / 256, (len - 1) as nat);
    }
}

/// 256 to the power `n`.
pub open spec fn pow256(n: nat) -> nat
    decreases n,
{
    if n == 0 {
        1
    } else {
        256 * pow256((n - 1) as nat)
    }
}

/// Reading back `n` bytes written from `v` gives `v`, when `v` fits.
pub proof fn lemma_le_value_of_bytes(v: nat, n: nat)
    requires
        v < pow256(n),
    ensures
        le_value(le_bytes(v, n)) == v,
    decreases n,
{
    if n > 0 {
        let rest = le_bytes(v / 256, (n - 1) as nat);
        assert(le_bytes(v, n).drop_first() =~= rest);
        lemma_fundamental_div_mod(v as int, 256);
        assert(v / 256 < pow256((n - 1) as nat));
        lemma_le_value_of_bytes(v / 256, (n - 1) as nat);
        assert(((v % 256) as u8) as nat == v % 256);
    }
}

/// Writing back the value of a byte string gives the byte string.
pub proof fn lemma_bytes_of_le_value(b: Seq<u8>)
    ensures
        le_bytes(le_value(b), b.len()) == b,
    decreases b.len(),
{
    if b.len() > 0 {
        let rest = b.drop_first();
        lemma_bytes_of_le_value(rest);
        let v = le_value(b);
        lemma_fundamental_div_mod_converse(v as int, 256, le_value(rest) as int, b[0] as int);
        assert(le_bytes(v, b.len()) =~= b);
    }
}

/// Replacing byte `i` of a little-endian string by `b` changes its value by
/// `256^i` times the difference of the two bytes.
pub proof fn lemma_le_value_update(s: Seq<u8>, i: int, b: u8)
    requires
        0 <= i < s.len(),
    ensures
        le_value(s.update(i, b)) + pow256(i as nat) * s[i] as nat == le_value(s) + pow256(
            i as nat,
        ) * b as nat,
    decreases i,
{
    let u = s.update(i, b);
    if i == 0 {
        assert(u.drop_first() =~= s.drop_first());
        assert(pow256(0) == 1);
        assert(le_value(u) == b as nat + 256 * le_value(s.drop_first()));
        assert(le_value(s) == s[0] as nat + 256 * le_value(s.drop_first()));
        let (pi, si, bi) = (pow256(0), s[0] as nat, b as nat);
        assert(pi * si == si && pi * bi == bi) by (nonlinear_arith)
            requires
                pi == 1,
        ;
    } else {
        lemma_le_value_update(s.drop_first(), i - 1, b);
        assert(u.drop_first() =~= s.drop_first().update(i - 1, b));
        let (lu, ls, p) = (le_value(u.drop_first()), le_value(s.drop_first()), pow256(
            (i - 1) as nat,
        ));
        let (si, bi) = (s[i] as nat, b as nat);
        assert(s.drop_first()[i - 1] == s[i]);
        assert(u[0] == s[0]);
        assert(pow256(i as nat) == 256 * p);
        let pi = pow256(i as nat);
        assert(256 * lu + pi * si == 256 * ls + pi * bi) by (nonlinear_arith)
            requires
                lu + p * si == ls + p * bi,
                pi == 256 * p,
        ;
        assert(le_value(u) == u[0] as nat + 256 * lu);
        assert(le_value(s) == s[0] as nat + 256 * ls);
    }
}

/// Field addition.
pub open spec fn fadd(a: nat, b: nat) -> nat {
    (a + b) % modulus()
}

/// Field multiplication.
pub open spec fn fmul(a: nat, b: nat) -> nat {
    (a * b) % modulus()
}

/// Field subtraction.
pub open spec fn fsub(a: nat, b: nat) -> nat {
    ((a - b) % (modulus() as int)) as nat
}

/// `b` raised to the power `e` in the field.
pub open spec fn fpow(b: nat, e: nat) -> nat {
    (pow(b as int, e) % (modulus() as int)) as nat
}

/// `y` is a reduced field element whose product with `a` is one.
pub open spec fn is_inverse_of(a: nat, y: nat) -> bool {
    y < modulus() && (a * y) % modulus() == 1
}

/// The multiplicative inverse of `a`: the field element `y` with `a * y == 1`.
pub open spec fn finv(a: nat) -> nat {
    choose|y: nat| #[trigger] is_inverse_of(a, y)
}

/// An element of the scalar field of the Bandersnatch curve.
#[derive(Clone, Copy, Debug, PartialEq, Eq)]
pub struct Scalar {
    pub limbs: [u64; 4],
}

impl View for Scalar {
    type V = nat;

    open spec fn view(&self) -> nat {
        limbs_value(self.limbs) % modulus()
    }
}

impl Scalar {
    /// The limbs spell a number below the modulus, so equal limbs mean equal scalars.
    pub open spec fn is_canonical(&self) -> bool {
        limbs_value(self.limbs) < modulus()
    }

    /// The scalar with the value `v`.
    pub fn from_u64(v: u64) -> (s: Scalar)
        ensures
            s@ == v,
            s.is_canonical(),
    {
        proof {
            lemma_small_mod(v as nat, modulus());
        }
        Scalar { limbs: [v, 0, 0, 0] }
    }
}

/// The field laws used by the folding proofs: commutativity and
/// associativity of addition and multiplication, distributivity, and the
/// neutral elements.
pub proof fn lemma_field_laws(a: nat, b: nat, c: nat)
    ensures
        fadd(a, b) == fadd(b, a),
        fmul(a, b) == fmul(b, a),
        fadd(fadd(a, b), c) == fadd(a, fadd(b, c)),
        fmul(fmul(a, b), c) == fmul(a, fmul(b, c)),
        fmul(fadd(a, b), c) == fadd(fmul(a, c), fmul(b, c)),
        fadd(a, 0) == a % modulus(),
        fmul(a, 1) == a % modulus(),
        fadd(a, b) < modulus(),
        fmul(a, b) < modulus(),
{
    let m = modulus() as int;
    lemma_mul_is_commutative(a as int, b as int);
    lemma_add_mod_noop_right(c as int, (a + b) as int, m);
    lemma_add_mod_noop_right(a as int, (b + c) as int, m);
    lemma_mul_mod_noop_general((a * b) as int, c as int, m);
    lemma_mul_mod_noop_general(a as int, (b * c) as int, m);
    lemma_mul_is_associative(a as int, b as int, c as int);
    lemma_mul_mod_noop_general((a + b) as int, c as int, m);
    lemma_mul_is_distributive_add_other_way(c as int, a as int, b as int);
    lemma_add_mod_noop((a * c) as int, (b * c) as int, m);
}

/// A field inverse is unique.
pub proof fn lemma_inverse_unique(a: nat, y1: nat, y2: nat)
    requires
        is_inverse_of(a, y1),
        is_inverse_of(a, y2),
    ensures
        y1 == y2,
{
    let m = modulus() as int;
    lemma_mul_mod_noop_general(y1 as int, (a * y2) as int, m);
    lemma_mul_mod_noop_general((a * y1) as int, y2 as int, m);
    assert(y1 * (a * y2) == (a * y1) * y2) by (nonlinear_arith);
    lemma_small_mod(y1, modulus());
    lemma_small_mod(y2, modulus());
}

/// Only nonzero elements have inverses.
pub proof fn lemma_inverse_nonzero(a: nat, y: nat)
    requires
        is_inverse_of(a, y),
    ensures
        a != 0,
{
    if a == 0 {
        assert(a * y == 0) by (nonlinear_arith)
            requires
                a == 0,
        ;
    }
}

/// Any inverse of `a` is the one that `finv` names.
pub proof fn lemma_inverse_is_finv(a: nat, y: nat)
    requires
        is_inverse_of(a, y),
    ensures
        finv(a) == y,
        is_inverse_of(a, finv(a)),
{
    lemma_inverse_unique(a, y, finv(a));
}

/// Inverting twice gives back a reduced nonzero element.
pub proof fn lemma_finv_involutive(a: nat, y: nat)
    requires
        a < modulus(),
        is_inverse_of(a, y),
    ensures
        finv(a) == y,
        is_inverse_of(y, a),
        finv(y) == a,
        y != 0,
{
    lemma_inverse_is_finv(a, y);
    if y == 0 {
        assert(a * y == 0) by (nonlinear_arith)
            requires
                y == 0,
        ;
    }
    assert(y * a == a * y) by (nonlinear_arith);
    lemma_inverse_is_finv(y, a);
}

/// One more factor of `b` in a field power.
pub proof fn lemma_fpow_step(b: nat, e: nat)
    ensures
        fpow(b, e + 1) == fmul(fpow(b, e), b),
        fpow(b, 0) == 1,
{
    let m = modulus() as int;
    reveal(pow);
    assert(pow(b as int, e + 1) == b * pow(b as int, e));
    assert(b * pow(b as int, e) == pow(b as int, e) * b) by (nonlinear_arith);
    lemma_mul_mod_noop_general(pow(b as int, e), b as int, m);
    lemma_small_mod(1, modulus());
}

/// Addition in `Fr` (`Add` of ark-ff's `Fp`): the sum reduced modulo `r`.
#[verifier::external_body]
pub(crate) fn fr_add(a: &Scalar, b: &Scalar) -> (c: Scalar)
    ensures
        c@ == fadd(a@, b@),
        c.is_canonical(),
{
    let x = Fr::from_le_bytes_mod_order(&BigInt::new(a.limbs).to_bytes_le());
    let y = Fr::from_le_bytes_mod_order(&BigInt::new(b.limbs).to_bytes_le());
    Scalar { limbs: (x + y).into_bigint().0 }
}

/// Subtraction in `Fr` (`Sub` of ark-ff's `Fp`): the difference reduced modulo `r`.
#[verifier::external_body]
pub(crate) fn fr_sub(a: &Scalar, b: &Scalar) -> (c: Scalar)
    ensures
        c@ == fsub(a@, b@),
        c.is_canonical(),
{
    let x = Fr::from_le_bytes_mod_order(&BigInt::new(a.limbs).to_bytes_le());
    let y = Fr::from_le_bytes_mod_order(&BigInt::new(b.limbs).to_bytes_le());
    Scalar { limbs: (x - y).into_bigint().0 }
}

/// Multiplication in `Fr` (`Mul` of ark-ff's `Fp`): the product reduced modulo `r`.
#[verifier::external_body]
pub(crate) fn fr_mul(a: &Scalar, b: &Scalar) -> (c: Scalar)
    ensures
        c@ == fmul(a@, b@),
        c.is_canonical(),
{
    let x = Fr::from_le_bytes_mod_order(&BigInt::new(a.limbs).to_bytes_le());
    let y = Fr::from_le_bytes_mod_order(&BigInt::new(b.limbs).to_bytes_le());
    Scalar { limbs: (x * y).into_bigint().0 }
}

/// `Field::square` in `Fr`: the square reduced modulo `r`.
#[verifier::external_body]
pub(crate) fn fr_square(a: &Scalar) -> (c: Scalar)
    ensures
        c@ == fmul(a@, a@),
        c.is_canonical(),
{
    let x = Fr::from_le_bytes_mod_order(&BigInt::new(a.limbs).to_bytes_le());
    Scalar { limbs: x.square().into_bigint().0 }
}

/// `Field::inverse` in `Fr`: `None` for zero, otherwise the element whose
/// product with `a` is one.
#[verifier::external_body]
pub(crate) fn fr_inverse(a: &Scalar) -> (r: Option<Scalar>)
    ensures
        r is Some <==> a@ != 0,
        r matches Some(y) ==> is_inverse_of(a@, y@) && y.is_canonical(),
{
    let x = Fr::from_le_bytes_mod_order(&BigInt::new(a.limbs).to_bytes_le());
    x.inverse().map(|y| Scalar { limbs: y.into_bigint().0 })
}

/// `PrimeField::from_be_bytes_mod_order` for `Fr`: the big-endian integer of
/// `bytes`, reduced modulo `r`.
#[verifier::external_body]
pub(crate) fn fr_from_be_bytes_mod_order(bytes: &[u8]) -> (c: Scalar)
    ensures
        c@ == be_value(bytes@) % modulus(),
        c.is_canonical(),
{
    Scalar { limbs: Fr::from_be_bytes_mod_order(bytes).into_bigint().0 }
}

/// `CanonicalSerialize::serialize_compressed` for `Fr`: the 32 little-endian
/// bytes of the reduced value.
#[verifier::external_body]
pub(crate) fn fr_serialize(a: &Scalar) -> (bytes: Vec<u8>)
    ensures
        bytes@ == le_bytes(a@, 32),
{
    let x = Fr::from_le_bytes_mod_order(&BigInt::new(a.limbs).to_bytes_le());
    let mut out = Vec::new();
    x.serialize_compressed(&mut out).unwrap();
    out
}

/// The field sum of `f(0), ..., f(n - 1)`.
pub open spec fn field_sum(f: spec_fn(nat) -> nat, n: nat) -> nat
    decreases n,
{
    if n == 0 {
        0
    } else {
        fadd(field_sum(f, (n - 1) as nat), f((n - 1) as nat))
    }
}

/// A field sum is reduced.
pub proof fn lemma_field_sum_reduced(f: spec_fn(nat) -> nat, n: nat)
    ensures
        field_sum(f, n) < modulus(),
{
    if n > 0 {
        lemma_field_laws(field_sum(f, (n - 1) as nat), f((n - 1) as nat), 0);
    }
}

/// Sums of equal terms are equal.
pub proof fn lemma_field_sum_ext(f: spec_fn(nat) -> nat, g: spec_fn(nat) -> nat, n: nat)
    requires
        forall|j: nat| j < n ==> #[trigger] f(j) == g(j),
    ensures
        field_sum(f, n) == field_sum(g, n),
    decreases n,
{
    if n > 0 {
        lemma_field_sum_ext(f, g, (n - 1) as nat);
    }
}

/// The pointwise field sum of two sequences of terms.
pub open spec fn pointwise_sum(f: spec_fn(nat) -> nat, g: spec_fn(nat) -> nat) -> spec_fn(nat) -> nat {
    |j: nat| fadd(f(j), g(j))
}

/// The sum of pointwise sums is the sum of the two sums.
pub proof fn lemma_field_sum_add(f: spec_fn(nat) -> nat, g: spec_fn(nat) -> nat, n: nat)
    ensures
        field_sum(pointwise_sum(f, g), n) == fadd(field_sum(f, n), field_sum(g, n)),
    decreases n,
{
    if n > 0 {
        let k = (n - 1) as nat;
        lemma_field_sum_add(f, g, k);
        let (sf, sg, a, b) = (field_sum(f, k), field_sum(g, k), f(k), g(k));
        // (sf + sg) + (a + b) == (sf + a) + (sg + b)
        lemma_field_laws(sf, sg, fadd(a, b));
        lemma_field_laws(sg, a, b);
        lemma_field_laws(a, sg, b);
        lemma_field_laws(sg, a, 0);
        lemma_field_laws(sf, a, fadd(sg, b));
        lemma_field_laws(sf, fadd(a, sg), b);
        lemma_field_laws(sf, a, sg);
        lemma_field_laws(fadd(sf, a), sg, b);
        let h = pointwise_sum(f, g);
        assert(fadd(fadd(sf, sg), fadd(a, b)) == fadd(sf, fadd(sg, fadd(a, b))));
        assert(fadd(sg, fadd(a, b)) == fadd(a, fadd(sg, b)));
        assert(field_sum(f, n) == fadd(sf, a));
        assert(field_sum(g, n) == fadd(sg, b));
        assert(fadd(sf, fadd(a, fadd(sg, b))) == fadd(fadd(sf, a), fadd(sg, b)));
        assert(field_sum(h, n) == fadd(field_sum(f, n), field_sum(g, n)));
    } else {
        lemma_field_laws(0, 0, 0);
        lemma_small_mod(0, modulus());
    }
}

/// A sum splits at `a` into the first `a` terms and the `b` terms after them.
pub proof fn lemma_field_sum_split(f: spec_fn(nat) -> nat, a: nat, b: nat)
    ensures
        field_sum(f, a + b) == fadd(field_sum(f, a), field_sum(|j: nat| f(a + j), b)),
    decreases b,
{
    let shifted = |j: nat| f(a + j);
    if b == 0 {
        lemma_field_sum_reduced(f, a);
        lemma_field_laws(field_sum(f, a), 0, 0);
        lemma_small_mod(field_sum(f, a), modulus());
    } else {
        lemma_field_sum_split(f, a, (b - 1) as nat);
        assert(shifted((b - 1) as nat) == f((a + b - 1) as nat));
        lemma_field_laws(field_sum(f, a), field_sum(shifted, (b - 1) as nat), f((a + b - 1) as nat));
    }
}

} // verus!
