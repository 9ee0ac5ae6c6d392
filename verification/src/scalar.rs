//! Elements of the Ristretto scalar field and their 32-byte encoding.

use vstd::prelude::*;
use vstd::arithmetic::power2::pow2;
use crate::error::Error;

verus! {

/// The prime order of the field, 2^252 + 27742317777372353535851937790883648493.
pub open spec fn group_order() -> nat {
    pow2(252) + 27742317777372353535851937790883648493nat
}

/// The number that a little-endian byte string writes.
pub open spec fn le_value(bytes: Seq<u8>) -> nat
    decreases bytes.len(),
{
    if bytes.len() == 0 {
        0
    } else {
        bytes[0] as nat + 256 * le_value(bytes.drop_first())
    }
}

/// The `len` low-order bytes of `value`, least significant first.
pub open spec fn le_bytes(value: nat, len: nat) -> Seq<u8>
    decreases len,
{
    if len == 0 {
        Seq::empty()
    } else {
        seq![(value % 256) as u8] + le_bytes(value / 256, (len - 1) as nat)
    }
}

/// What decoding a buffer yields: the number it writes, if that number is a
/// field element. Buffers of any length are read; high-order zero bytes do
/// not count.
pub open spec fn decode_spec(bytes: Seq<u8>) -> Option<nat> {
    if le_value(bytes) < group_order() {
        Some(le_value(bytes))
    } else {
        None
    }
}

/// The canonical encoding of a field element: 32 bytes, least significant first.
pub open spec fn encode_spec(value: nat) -> Seq<u8> {
    le_bytes(value, 32)
}

/// Addition in the field.
pub open spec fn field_add(a: nat, b: nat) -> nat {
    (a + b) % group_order()
}

/// Multiplication in the field.
pub open spec fn field_mul(a: nat, b: nat) -> nat {
    (a * b) % group_order()
}

/// The additive inverse in the field.
pub open spec fn field_neg(a: nat) -> nat {
    ((group_order() - a % group_order()) % (group_order() as int)) as nat
}

/// A field element, held as its canonical little-endian encoding.
#[derive(Clone, Copy, Debug, PartialEq, Eq)]
pub struct Scalar {
    bytes: [u8; 32],
}

impl View for Scalar {
    type V = nat;

    /// The field element that the stored bytes write.
    closed spec fn view(&self) -> nat {
        le_value(self.bytes@) % group_order()
    }
}

impl Scalar {
    #[verifier::type_invariant]
    spec fn canonical(self) -> bool {
        le_value(self.bytes@) < group_order()
    }

    /// Every scalar denotes a number below the group order.
    pub proof fn lemma_in_field(self)
        ensures
            self@ < group_order(),
    {
        lemma_order_bounds();
        vstd::arithmetic::div_mod::lemma_mod_bound(
            le_value(self.bytes@) as int,
            group_order() as int,
        );
    }

    /// The additive identity.
    pub fn zero() -> (r: Scalar)
        ensures
            r@ == 0,
    {
        let bytes = [0u8; 32];
        proof {
            lemma_zeros(bytes@);
            lemma_order_bounds();
            lemma_canonical_view(bytes@);
        }
        Scalar { bytes }
    }

    /// The multiplicative identity.
    pub fn one() -> (r: Scalar)
        ensures
            r@ == 1,
    {
        let mut bytes = [0u8; 32];
        bytes[0] = 1;
        proof {
            lemma_zeros(bytes@.drop_first());
            lemma_order_bounds();
            lemma_canonical_view(bytes@);
        }
        Scalar { bytes }
    }

    /// The field element `value`.
    pub fn from_u64(value: u64) -> (r: Scalar)
        ensures
            r@ == value,
    {
        let mut bytes = [0u8; 32];
        let mut rest = value;
        let mut i: usize = 0;
        proof {
            vstd::arithmetic::power2::lemma2_to64();
            assert(bytes@.take(0) =~= Seq::<u8>::empty());
            assert(le_value(bytes@.take(0)) == 0);
            assert(pow2(0) * rest == rest);
        }
        while i < 8
            invariant
                i <= 8,
                value == le_value(bytes@.take(i as int)) + pow2((8 * i) as nat) * rest,
                forall|k: int| i <= k < 32 ==> bytes@[k] == 0,
            decreases 8 - i,
        {
            let ghost before = bytes@.take(i as int);
            bytes[i] = (rest % 256) as u8;
            proof {
                let low = (rest % 256) as u8;
                assert(bytes@.take(i as int + 1) =~= before.push(low));
                lemma_push(before, low);
                vstd::arithmetic::power2::lemma2_to64();
                vstd::arithmetic::power2::lemma_pow2_adds((8 * i) as nat, 8);
                let p = pow2((8 * i) as nat) as int;
                let q = (rest / 256) as int;
                assert(rest == 256 * q + low);
                assert(p * rest == p * low + (p * 256) * q) by (nonlinear_arith)
                    requires
                        rest == 256 * q + low,
                ;
            }
            rest = rest / 256;
            i += 1;
        }
        proof {
            vstd::arithmetic::power2::lemma2_to64();
            assert(rest == 0) by (nonlinear_arith)
                requires
                    value >= 0x10000000000000000 * rest,
                    value < 0x10000000000000000,
                    rest >= 0,
            ;
            let low = bytes@.take(8);
            let high = Seq::new(24, |k: int| 0u8);
            assert(bytes@ =~= low + high);
            lemma_padding(low, high);
            lemma_order_bounds();
            vstd::arithmetic::power2::lemma_pow2_strictly_increases(64, 252);
            lemma_canonical_view(bytes@);
        }
        Scalar { bytes }
    }

    /// The canonical encoding: always 32 bytes, and the inverse of decoding.
    pub fn to_bytes(&self) -> (r: [u8; 32])
        ensures
            r@ == encode_spec(self@),
    {
        proof {
            use_type_invariant(self);
            lemma_canonical_view(self.bytes@);
            lemma_bytes_of_value(self.bytes@);
        }
        self.bytes
    }

    /// The sum of two field elements.
    pub fn add(&self, other: &Scalar) -> (r: Scalar)
        ensures
            r@ == field_add(self@, other@),
    {
        proof {
            use_type_invariant(self);
            use_type_invariant(other);
            lemma_order_bounds();
            lemma_canonical_view(self.bytes@);
            lemma_canonical_view(other.bytes@);
        }
        let bytes = dalek_sum(&self.bytes, &other.bytes);
        proof {
            vstd::arithmetic::div_mod::lemma_mod_bound(
                le_value(self.bytes@) as int + le_value(other.bytes@) as int,
                group_order() as int,
            );
            lemma_canonical_view(bytes@);
        }
        Scalar { bytes }
    }

    /// The product of two field elements.
    pub fn mul(&self, other: &Scalar) -> (r: Scalar)
        ensures
            r@ == field_mul(self@, other@),
    {
        proof {
            use_type_invariant(self);
            use_type_invariant(other);
            lemma_order_bounds();
            lemma_canonical_view(self.bytes@);
            lemma_canonical_view(other.bytes@);
        }
        let bytes = dalek_product(&self.bytes, &other.bytes);
        proof {
            vstd::arithmetic::div_mod::lemma_mod_bound(
                le_value(self.bytes@) as int * le_value(other.bytes@) as int,
                group_order() as int,
            );
            lemma_canonical_view(bytes@);
        }
        Scalar { bytes }
    }

    /// The additive inverse of a field element.
    pub fn neg(&self) -> (r: Scalar)
        ensures
            r@ == field_neg(self@),
    {
        proof {
            use_type_invariant(self);
            lemma_order_bounds();
            lemma_canonical_view(self.bytes@);
        }
        let bytes = dalek_negation(&self.bytes);
        proof {
            vstd::arithmetic::div_mod::lemma_mod_bound(
                group_order() as int - le_value(self.bytes@) as int,
                group_order() as int,
            );
            lemma_canonical_view(bytes@);
        }
        Scalar { bytes }
    }
}

/// Decodes a little-endian value buffer into a field element.
///
/// Short buffers are padded with high-order zeros. The buffer is accepted
/// exactly when the number it writes lies below the group order; in
/// particular any non-zero byte past the 32nd makes it invalid.
pub fn scalar_from_zkif(le_bytes: &[u8]) -> (r: Result<Scalar, Error>)
    ensures
        match r {
            Ok(s) => decode_spec(le_bytes@) == Some(s@),
            Err(e) => decode_spec(le_bytes@).is_none() && e == Error::InvalidScalarEncoding,
        },
{
    let n = le_bytes.len();
    let l = if n < 32 { n } else { 32 };
    let mut bytes32 = [0u8; 32];
    let mut i: usize = 0;
    while i < l
        invariant
            l <= 32,
            l <= n,
            n == le_bytes@.len(),
            i <= l,
            forall|k: int| 0 <= k < i ==> bytes32@[k] == le_bytes@[k],
            forall|k: int| i <= k < 32 ==> bytes32@[k] == 0,
        decreases l - i,
    {
        bytes32[i] = le_bytes[i];
        i += 1;
    }
    let mut j: usize = l;
    while j < n
        invariant
            l <= j <= n,
            n == le_bytes@.len(),
            l == if n < 32 { n } else { 32 },
            forall|k: int| l <= k < j ==> le_bytes@[k] == 0,
        decreases n - j,
    {
        if le_bytes[j] != 0 {
            proof {
                lemma_order_bounds();
                lemma_high_byte(le_bytes@, j as int);
                vstd::arithmetic::power2::lemma_pow2_strictly_increases(253, 256);
                if 8 * j > 256 {
                    vstd::arithmetic::power2::lemma_pow2_strictly_increases(256, (8 * j) as nat);
                }
            }
            return Err(Error::InvalidScalarEncoding);
        }
        j += 1;
    }
    proof {
        let head = le_bytes@.take(l as int);
        let low = Seq::new((n - l) as nat, |k: int| 0u8);
        let high = Seq::new((32 - l) as nat, |k: int| 0u8);
        assert(le_bytes@ =~= head + low);
        assert(bytes32@ =~= head + high);
        lemma_padding(head, low);
        lemma_padding(head, high);
    }
    match dalek_canonical(bytes32) {
        Some(bytes) => {
            proof {
                lemma_order_bounds();
                vstd::arithmetic::div_mod::lemma_small_mod(le_value(bytes@), group_order());
            }
            Ok(Scalar { bytes })
        },
        None => Err(Error::InvalidScalarEncoding),
    }
}

/// Encoding a decoded canonical buffer gives the buffer back, byte for byte.
pub proof fn law_encode_decode(bytes: Seq<u8>)
    requires
        bytes.len() == 32,
        le_value(bytes) < group_order(),
    ensures
        decode_spec(bytes) matches Some(value) && encode_spec(value) == bytes,
{
    lemma_bytes_of_value(bytes);
}

/// Decoding the encoding of a field element gives the element back.
pub proof fn law_decode_encode(value: nat)
    requires
        value < group_order(),
    ensures
        encode_spec(value).len() == 32,
        decode_spec(encode_spec(value)) == Some(value),
{
    lemma_order_bounds();
    vstd::arithmetic::power2::lemma_pow2_strictly_increases(253, 256);
    lemma_value_of_bytes(value, 32);
    vstd::arithmetic::div_mod::lemma_small_mod(value, pow2(256));
}

/// The group order is positive and fits in 253 bits.
pub proof fn lemma_order_bounds()
    ensures
        0 < group_order() < pow2(253),
{
    vstd::arithmetic::power2::lemma_pow2_pos(252);
    vstd::arithmetic::power2::lemma_pow2_unfold(253);
    vstd::arithmetic::power2::lemma2_to64();
    vstd::arithmetic::power2::lemma_pow2_adds(64, 64);
    vstd::arithmetic::power2::lemma_pow2_strictly_increases(128, 252);
    assert(pow2(128) == 0x1_0000_0000_0000_0000nat * 0x1_0000_0000_0000_0000nat);
}

proof fn lemma_canonical_view(bytes: Seq<u8>)
    requires
        le_value(bytes) < group_order(),
    ensures
        le_value(bytes) % group_order() == le_value(bytes),
{
    vstd::arithmetic::div_mod::lemma_small_mod(le_value(bytes), group_order());
}

proof fn lemma_zeros(s: Seq<u8>)
    requires
        forall|i: int| 0 <= i < s.len() ==> s[i] == 0,
    ensures
        le_value(s) == 0,
    decreases s.len(),
{
    if s.len() > 0 {
        lemma_zeros(s.drop_first());
    }
}

proof fn lemma_padding(s: Seq<u8>, zeros: Seq<u8>)
    requires
        forall|i: int| 0 <= i < zeros.len() ==> zeros[i] == 0,
    ensures
        le_value(s + zeros) == le_value(s),
    decreases s.len(),
{
    if s.len() == 0 {
        assert(s + zeros =~= zeros);
        lemma_zeros(zeros);
    } else {
        assert((s + zeros).drop_first() =~= s.drop_first() + zeros);
        lemma_padding(s.drop_first(), zeros);
    }
}

proof fn lemma_push(s: Seq<u8>, byte: u8)
    ensures
        le_value(s.push(byte)) == le_value(s) + pow2((8 * s.len()) as nat) * byte,
    decreases s.len(),
{
    vstd::arithmetic::power2::lemma2_to64();
    let pushed = s.push(byte);
    if s.len() == 0 {
        assert(pushed.drop_first() =~= Seq::<u8>::empty());
        assert(le_value(pushed.drop_first()) == 0);
        assert(pushed[0] == byte);
        assert(le_value(s) == 0);
        assert(pow2(0) * byte == byte);
    } else {
        assert(pushed.drop_first() =~= s.drop_first().push(byte));
        assert(pushed[0] == s[0]);
        lemma_push(s.drop_first(), byte);
        vstd::arithmetic::power2::lemma_pow2_adds(8, (8 * (s.len() - 1)) as nat);
        let p = pow2((8 * (s.len() - 1)) as nat) as int;
        assert(pow2((8 * s.len()) as nat) == 256 * p);
        assert(256 * (p * byte) == (256 * p) * byte) by (nonlinear_arith);
        assert(le_value(pushed) == s[0] + 256 * (le_value(s.drop_first()) + p * byte));
    }
}

proof fn lemma_high_byte(s: Seq<u8>, j: int)
    requires
        0 <= j < s.len(),
        s[j] != 0,
    ensures
        le_value(s) >= pow2((8 * j) as nat),
    decreases j,
{
    vstd::arithmetic::power2::lemma2_to64();
    if j > 0 {
        lemma_high_byte(s.drop_first(), j - 1);
        vstd::arithmetic::power2::lemma_pow2_adds(8, (8 * (j - 1)) as nat);
    }
}

proof fn lemma_bytes_of_value(s: Seq<u8>)
    ensures
        le_bytes(le_value(s), s.len()) == s,
    decreases s.len(),
{
    if s.len() > 0 {
        let rest = s.drop_first();
        lemma_bytes_of_value(rest);
        let v = le_value(s);
        assert(v % 256 == s[0] as nat && v / 256 == le_value(rest)) by {
            vstd::arithmetic::div_mod::lemma_fundamental_div_mod_converse(
                v as int,
                256,
                le_value(rest) as int,
                s[0] as int,
            );
        }
        assert(seq![s[0]] + rest =~= s);
    } else {
        assert(s =~= Seq::<u8>::empty());
    }
}

proof fn lemma_value_of_bytes(value: nat, len: nat)
    ensures
        le_bytes(value, len).len() == len,
        le_value(le_bytes(value, len)) == value % pow2(8 * len),
    decreases len,
{
    vstd::arithmetic::power2::lemma2_to64();
    if len == 0 {
        assert(value % 1 == 0);
    } else {
        let rest = le_bytes(value / 256, (len - 1) as nat);
        lemma_value_of_bytes(value / 256, (len - 1) as nat);
        let s = le_bytes(value, len);
        assert(s.drop_first() =~= rest);
        let p = pow2((8 * (len - 1)) as nat);
        vstd::arithmetic::power2::lemma_pow2_adds(8, (8 * (len - 1)) as nat);
        vstd::arithmetic::power2::lemma_pow2_pos((8 * (len - 1)) as nat);
        vstd::arithmetic::div_mod::lemma_mod_breakdown(value as int, 256, p as int);
    }
}

/// Trusted: `curve25519_dalek::scalar::Scalar::from_canonical_bytes` accepts
/// a 32-byte string exactly when the number it writes lies below the group
/// order, and the accepted scalar's `to_bytes` is that same string.
#[verifier::external_body]
fn dalek_canonical(bytes: [u8; 32]) -> (r: Option<[u8; 32]>)
    ensures
        r == if le_value(bytes@) < group_order() { Some(bytes) } else { None },
{
    let checked = curve25519_dalek::scalar::Scalar::from_canonical_bytes(bytes);
    Option::<curve25519_dalek::scalar::Scalar>::from(checked).map(|s| s.to_bytes())
}

/// Trusted: `Scalar::from_bytes_mod_order` reduces modulo the group order,
/// `+` on `curve25519_dalek::scalar::Scalar` adds modulo that order, and
/// `to_bytes` writes the reduced sum.
#[verifier::external_body]
fn dalek_sum(a: &[u8; 32], b: &[u8; 32]) -> (r: [u8; 32])
    ensures
        le_value(r@) == (le_value(a@) + le_value(b@)) % group_order(),
{
    let x = curve25519_dalek::scalar::Scalar::from_bytes_mod_order(*a);
    let y = curve25519_dalek::scalar::Scalar::from_bytes_mod_order(*b);
    (x + y).to_bytes()
}

/// Trusted: `Scalar::from_bytes_mod_order` reduces modulo the group order,
/// `*` on `curve25519_dalek::scalar::Scalar` multiplies modulo that order,
/// and `to_bytes` writes the reduced product.
#[verifier::external_body]
fn dalek_product(a: &[u8; 32], b: &[u8; 32]) -> (r: [u8; 32])
    ensures
        le_value(r@) == (le_value(a@) * le_value(b@)) % group_order(),
{
    let x = curve25519_dalek::scalar::Scalar::from_bytes_mod_order(*a);
    let y = curve25519_dalek::scalar::Scalar::from_bytes_mod_order(*b);
    (x * y).to_bytes()
}

/// Trusted: unary `-` on `curve25519_dalek::scalar::Scalar` is the additive
/// inverse modulo the group order, written in reduced form by `to_bytes`.
#[verifier::external_body]
fn dalek_negation(a: &[u8; 32]) -> (r: [u8; 32])
    ensures
        le_value(r@) == (group_order() - le_value(a@) % group_order()) % (group_order() as int),
{
    let x = curve25519_dalek::scalar::Scalar::from_bytes_mod_order(*a);
    (-x).to_bytes()
}

} // verus!
