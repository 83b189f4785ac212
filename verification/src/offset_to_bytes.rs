//! Fixed-width little-endian encodings of the primitive column domains.
//!
//! Every domain encodes a value to exactly its byte width, little-endian.
//! Signed domains go through a sign-bias transform first: the value is
//! shifted by the domain minimum, so the minimum encodes to zero, the
//! maximum to the width's unsigned maximum, and the order of signed values
//! carries over to the order of the encoded unsigned values.  Unsigned
//! domains (booleans, 64-bit words and 4x64-bit wide values) pass through
//! unchanged.

use vstd::arithmetic::div_mod::{
    lemma_div_denominator, lemma_fundamental_div_mod, lemma_hoist_over_denominator,
    lemma_mod_multiples_vanish, lemma_multiply_divide_lt,
};
use vstd::prelude::*;

verus! {

/// 256 to the power `n`: the number of distinct `n`-byte sequences.
pub open spec fn pow256(n: nat) -> nat
    decreases n,
{
    if n == 0 {
        1
    } else {
        256 * pow256((n - 1) as nat)
    }
}

pub proof fn lemma_pow256_pos(n: nat)
    ensures
        pow256(n) >= 1,
    decreases n,
{
    if n > 0 {
        lemma_pow256_pos((n - 1) as nat);
    }
}

pub proof fn lemma_pow256_adds(a: nat, b: nat)
    ensures
        pow256(a + b) == pow256(a) * pow256(b),
    decreases a,
{
    if a == 0 {
    } else {
        lemma_pow256_adds((a - 1) as nat, b);
        assert((a + b - 1) as nat == (a - 1) as nat + b);
        assert(pow256(a + b) == 256 * pow256((a - 1) as nat + b));
        assert(256 * (pow256((a - 1) as nat) * pow256(b)) == (256 * pow256((a - 1) as nat))
            * pow256(b)) by (nonlinear_arith);
    }
}

/// The widths of the primitive domains, as powers of 256.
pub proof fn lemma_pow256_widths()
    ensures
        pow256(1) == 0x100,
        pow256(2) == 0x1_0000,
        pow256(4) == 0x1_0000_0000,
        pow256(8) == 0x1_0000_0000_0000_0000,
        pow256(16) == 0x1_0000_0000_0000_0000_0000_0000_0000_0000,
        pow256(32) == pow256(16) * pow256(16),
{
    reveal_with_fuel(pow256, 17);
    lemma_pow256_adds(16, 16);
}

/// The `n` little-endian bytes of `v` (of `v` modulo `pow256(n)`, when `v`
/// does not fit).
pub open spec fn le_bytes(v: nat, n: nat) -> Seq<u8>
    decreases n,
{
    if n == 0 {
        Seq::empty()
    } else {
        seq![(v % 256) as u8] + le_bytes(v / 256, (n - 1) as nat)
    }
}

/// The value that a little-endian byte sequence denotes.
pub open spec fn le_value(bytes: Seq<u8>) -> nat
    decreases bytes.len(),
{
    if bytes.len() == 0 {
        0
    } else {
        (bytes[0] as nat) + 256 * le_value(bytes.drop_first())
    }
}

pub proof fn lemma_le_bytes_len(v: nat, n: nat)
    ensures
        le_bytes(v, n).len() == n,
    decreases n,
{
    if n > 0 {
        lemma_le_bytes_len(v / 256, (n - 1) as nat);
    }
}

/// Decoding inverts encoding: a value below `pow256(n)` is recovered exactly
/// from its `n` little-endian bytes.
pub proof fn lemma_le_value_of_le_bytes(v: nat, n: nat)
    requires
        v < pow256(n),
    ensures
        le_value(le_bytes(v, n)) == v,
    decreases n,
{
    if n == 0 {
    } else {
        let rest = le_bytes(v / 256, (n - 1) as nat);
        lemma_le_bytes_len(v / 256, (n - 1) as nat);
        assert((seq![(v % 256) as u8] + rest).drop_first() =~= rest);
        lemma_pow256_pos((n - 1) as nat);
        lemma_multiply_divide_lt(v as int, 256, pow256((n - 1) as nat) as int);
        lemma_le_value_of_le_bytes(v / 256, (n - 1) as nat);
        lemma_fundamental_div_mod(v as int, 256);
    }
}

/// Encoding splits at any byte boundary: the low `n1` bytes encode the low
/// part, the remaining `n2` bytes encode the high part.
pub proof fn lemma_le_bytes_split(v1: nat, n1: nat, v2: nat, n2: nat)
    requires
        v1 < pow256(n1),
    ensures
        le_bytes(v1 + pow256(n1) * v2, n1 + n2) == le_bytes(v1, n1) + le_bytes(v2, n2),
    decreases n1,
{
    if n1 == 0 {
        assert(le_bytes(v2, n2) =~= le_bytes(0 + 1 * v2, 0 + n2));
        assert(le_bytes(v1, 0) + le_bytes(v2, n2) =~= le_bytes(v2, n2));
    } else {
        let w = v1 + pow256(n1) * v2;
        let p1 = pow256((n1 - 1) as nat);
        assert(pow256(n1) * v2 == 256 * (p1 * v2)) by (nonlinear_arith)
            requires
                pow256(n1) == 256 * p1,
        ;
        lemma_mod_multiples_vanish(p1 * v2 as int, v1 as int, 256);
        assert(w % 256 == v1 % 256);
        lemma_hoist_over_denominator(v1 as int, (p1 * v2) as int, 256);
        assert(w / 256 == v1 / 256 + p1 * v2);
        lemma_pow256_pos((n1 - 1) as nat);
        lemma_multiply_divide_lt(v1 as int, 256, p1 as int);
        lemma_le_bytes_split(v1 / 256, (n1 - 1) as nat, v2, n2);
        assert(le_bytes(w, n1 + n2) =~= le_bytes(v1, n1) + le_bytes(v2, n2));
    }
}

/// Emits the `n` little-endian bytes of `v`.
fn u128_to_le_bytes(v: u128, n: usize) -> (r: Vec<u8>)
    ensures
        r@ == le_bytes(v as nat, n as nat),
        r@.len() == n,
{
    let mut r: Vec<u8> = Vec::new();
    let mut acc: u128 = v;
    let mut i: usize = 0;
    proof {
        assert(v as nat / pow256(0) == v as nat) by (nonlinear_arith)
            requires
                pow256(0) == 1,
        ;
    }
    while i < n
        invariant
            i <= n,
            r@.len() == i,
            acc as nat == (v as nat) / pow256(i as nat),
            r@ + le_bytes(acc as nat, (n - i) as nat) == le_bytes(v as nat, n as nat),
        decreases n - i,
    {
        let b: u8 = (acc % 256) as u8;
        let ghost prev = r@;
        let ghost prev_acc = acc as nat;
        r.push(b);
        acc = acc / 256;
        proof {
            lemma_pow256_pos(i as nat);
            lemma_div_denominator(v as int, pow256(i as nat) as int, 256);
            assert(256 * pow256(i as nat) == pow256((i + 1) as nat)) by {
                lemma_pow256_adds(i as nat, 1);
                assert(pow256(0) == 1);
                assert(pow256(1) == 256);
                assert(pow256(i as nat) * 256 == 256 * pow256(i as nat)) by (nonlinear_arith);
            }
            assert(le_bytes(prev_acc, (n - i) as nat) == seq![(prev_acc % 256) as u8]
                + le_bytes(prev_acc / 256, (n - i - 1) as nat));
            assert(r@ + le_bytes(acc as nat, (n - i - 1) as nat) =~= prev + le_bytes(
                prev_acc,
                (n - i) as nat,
            ));
        }
        i = i + 1;
    }
    proof {
        assert(r@ + le_bytes(acc as nat, 0) =~= r@);
        lemma_le_bytes_len(v as nat, n as nat);
    }
    r
}

/// The 16-bit signed encoding is faithful: the encoded unsigned value is
/// exactly `v - MIN`, decoding the encoded bytes recovers it (so `v`
/// itself), and the bias preserves the order of the signed values.
pub proof fn lemma_i16_encoding_faithful(v1: i16, v2: i16)
    ensures
        v1.spec_shifted() == v1 - i16::MIN,
        le_value(le_bytes(v1.spec_shifted(), 2)) == v1.spec_shifted(),
        v1 < v2 ==> v1.spec_shifted() < v2.spec_shifted(),
{
    v1.lemma_shifted_in_width();
    lemma_le_value_of_le_bytes(v1.spec_shifted(), 2);
}

/// The 32-bit signed encoding is faithful.
pub proof fn lemma_i32_encoding_faithful(v1: i32, v2: i32)
    ensures
        v1.spec_shifted() == v1 - i32::MIN,
        le_value(le_bytes(v1.spec_shifted(), 4)) == v1.spec_shifted(),
        v1 < v2 ==> v1.spec_shifted() < v2.spec_shifted(),
{
    v1.lemma_shifted_in_width();
    lemma_le_value_of_le_bytes(v1.spec_shifted(), 4);
}

/// The 64-bit signed encoding is faithful.
pub proof fn lemma_i64_encoding_faithful(v1: i64, v2: i64)
    ensures
        v1.spec_shifted() == v1 - i64::MIN,
        le_value(le_bytes(v1.spec_shifted(), 8)) == v1.spec_shifted(),
        v1 < v2 ==> v1.spec_shifted() < v2.spec_shifted(),
{
    v1.lemma_shifted_in_width();
    lemma_le_value_of_le_bytes(v1.spec_shifted(), 8);
}

/// The 128-bit signed encoding is faithful.
pub proof fn lemma_i128_encoding_faithful(v1: i128, v2: i128)
    ensures
        v1.spec_shifted() == v1 - i128::MIN,
        le_value(le_bytes(v1.spec_shifted(), 16)) == v1.spec_shifted(),
        v1 < v2 ==> v1.spec_shifted() < v2.spec_shifted(),
{
    v1.lemma_shifted_in_width();
    lemma_le_value_of_le_bytes(v1.spec_shifted(), 16);
}

/// The unsigned byte encoding is the identity: no bias, and decoding
/// recovers the value.
pub proof fn lemma_u8_encoding_faithful(v1: u8, v2: u8)
    ensures
        v1.spec_shifted() == v1,
        le_value(le_bytes(v1.spec_shifted(), 1)) == v1,
        v1 < v2 ==> v1.spec_shifted() < v2.spec_shifted(),
{
    v1.lemma_shifted_in_width();
    lemma_le_value_of_le_bytes(v1.spec_shifted(), 1);
}

/// The unsigned 64-bit encoding is the identity.
pub proof fn lemma_u64_encoding_faithful(v1: u64, v2: u64)
    ensures
        v1.spec_shifted() == v1,
        le_value(le_bytes(v1.spec_shifted(), 8)) == v1,
        v1 < v2 ==> v1.spec_shifted() < v2.spec_shifted(),
{
    v1.lemma_shifted_in_width();
    lemma_le_value_of_le_bytes(v1.spec_shifted(), 8);
}

/// The boolean encoding is one byte, `0` or `1`, and decoding recovers the
/// truth value.
pub proof fn lemma_bool_encoding_faithful(v: bool)
    ensures
        v.spec_shifted() == if v {
            1nat
        } else {
            0nat
        },
        le_value(le_bytes(v.spec_shifted(), 1)) == v.spec_shifted(),
{
    v.lemma_shifted_in_width();
    lemma_le_value_of_le_bytes(v.spec_shifted(), 1);
}

/// The wide 4x64-bit encoding passes the limbs through unbiased, and
/// decoding its 32 bytes recovers the limbs' combined value.
pub proof fn lemma_limbs_encoding_faithful(v: [u64; 4])
    ensures
        v.spec_shifted() == limbs_value(v@),
        le_value(le_bytes(v.spec_shifted(), 32)) == limbs_value(v@),
{
    v.lemma_shifted_in_width();
    lemma_le_value_of_le_bytes(v.spec_shifted(), 32);
}

/// The value of a little-endian sequence of 64-bit limbs.
pub open spec fn limbs_value(limbs: Seq<u64>) -> nat
    decreases limbs.len(),
{
    if limbs.len() == 0 {
        0
    } else {
        (limbs[0] as nat) + 0x1_0000_0000_0000_0000 * limbs_value(limbs.drop_first())
    }
}

/// A fixed-width primitive domain: a byte width, a signedness, a minimum
/// value, and a total, panic-free little-endian encoding.
pub trait OffsetToBytes: Sized {
    /// The number of bytes every encoded value occupies.
    spec fn spec_byte_width() -> nat;

    /// Whether the sign-bias transform applies to this domain.
    spec fn spec_is_signed() -> bool;

    /// The domain minimum: the value that encodes to zero.
    spec fn spec_min() -> int;

    /// The encoded unsigned value: the value shifted so that the domain
    /// minimum maps to zero.
    spec fn spec_shifted(&self) -> nat;

    /// Every shifted value fits in the domain's byte width.
    proof fn lemma_shifted_in_width(&self)
        ensures
            self.spec_shifted() < pow256(Self::spec_byte_width()),
    ;

    fn is_signed() -> (r: bool)
        ensures
            r == Self::spec_is_signed(),
    ;

    /// The domain minimum, as the signed integer that the commitment backend
    /// embeds into its scalar field.
    fn min_as_fr() -> (r: i128)
        ensures
            r as int == Self::spec_min(),
    ;

    /// The little-endian encoding of the sign-biased value, exactly
    /// `spec_byte_width` bytes long.
    fn offset_to_bytes(&self) -> (r: Vec<u8>)
        ensures
            r@ == le_bytes(self.spec_shifted(), Self::spec_byte_width()),
            r@.len() == Self::spec_byte_width(),
    ;
}

impl OffsetToBytes for u8 {
    open spec fn spec_byte_width() -> nat {
        1
    }

    open spec fn spec_is_signed() -> bool {
        false
    }

    open spec fn spec_min() -> int {
        0
    }

    open spec fn spec_shifted(&self) -> nat {
        *self as nat
    }

    proof fn lemma_shifted_in_width(&self) {
        lemma_pow256_widths();
    }

    fn is_signed() -> (r: bool) {
        false
    }

    fn min_as_fr() -> (r: i128) {
        0
    }

    fn offset_to_bytes(&self) -> (r: Vec<u8>) {
        u128_to_le_bytes(*self as u128, 1)
    }
}

impl OffsetToBytes for i16 {
    open spec fn spec_byte_width() -> nat {
        2
    }

    open spec fn spec_is_signed() -> bool {
        true
    }

    open spec fn spec_min() -> int {
        i16::MIN as int
    }

    open spec fn spec_shifted(&self) -> nat {
        (*self - i16::MIN) as nat
    }

    proof fn lemma_shifted_in_width(&self) {
        lemma_pow256_widths();
    }

    fn is_signed() -> (r: bool) {
        true
    }

    fn min_as_fr() -> (r: i128) {
        i16::MIN as i128
    }

    fn offset_to_bytes(&self) -> (r: Vec<u8>) {
        let shifted: u16 = ((*self as i32) - (i16::MIN as i32)) as u16;
        u128_to_le_bytes(shifted as u128, 2)
    }
}

impl OffsetToBytes for i32 {
    open spec fn spec_byte_width() -> nat {
        4
    }

    open spec fn spec_is_signed() -> bool {
        true
    }

    open spec fn spec_min() -> int {
        i32::MIN as int
    }

    open spec fn spec_shifted(&self) -> nat {
        (*self - i32::MIN) as nat
    }

    proof fn lemma_shifted_in_width(&self) {
        lemma_pow256_widths();
    }

    fn is_signed() -> (r: bool) {
        true
    }

    fn min_as_fr() -> (r: i128) {
        i32::MIN as i128
    }

    fn offset_to_bytes(&self) -> (r: Vec<u8>) {
        let shifted: u32 = ((*self as i64) - (i32::MIN as i64)) as u32;
        u128_to_le_bytes(shifted as u128, 4)
    }
}

impl OffsetToBytes for i64 {
    open spec fn spec_byte_width() -> nat {
        8
    }

    open spec fn spec_is_signed() -> bool {
        true
    }

    open spec fn spec_min() -> int {
        i64::MIN as int
    }

    open spec fn spec_shifted(&self) -> nat {
        (*self - i64::MIN) as nat
    }

    proof fn lemma_shifted_in_width(&self) {
        lemma_pow256_widths();
    }

    fn is_signed() -> (r: bool) {
        true
    }

    fn min_as_fr() -> (r: i128) {
        i64::MIN as i128
    }

    fn offset_to_bytes(&self) -> (r: Vec<u8>) {
        let shifted: u64 = ((*self as i128) - (i64::MIN as i128)) as u64;
        u128_to_le_bytes(shifted as u128, 8)
    }
}

impl OffsetToBytes for i128 {
    open spec fn spec_byte_width() -> nat {
        16
    }

    open spec fn spec_is_signed() -> bool {
        true
    }

    open spec fn spec_min() -> int {
        i128::MIN as int
    }

    open spec fn spec_shifted(&self) -> nat {
        (*self - i128::MIN) as nat
    }

    proof fn lemma_shifted_in_width(&self) {
        lemma_pow256_widths();
    }

    fn is_signed() -> (r: bool) {
        true
    }

    fn min_as_fr() -> (r: i128) {
        i128::MIN
    }

    fn offset_to_bytes(&self) -> (r: Vec<u8>) {
        let shifted: u128 = if *self >= 0 {
            (*self as u128) + 0x8000_0000_0000_0000_0000_0000_0000_0000u128
        } else if *self == i128::MIN {
            0
        } else {
            0x8000_0000_0000_0000_0000_0000_0000_0000u128 - ((-*self) as u128)
        };
        u128_to_le_bytes(shifted, 16)
    }
}

impl OffsetToBytes for bool {
    open spec fn spec_byte_width() -> nat {
        1
    }

    open spec fn spec_is_signed() -> bool {
        false
    }

    open spec fn spec_min() -> int {
        0
    }

    open spec fn spec_shifted(&self) -> nat {
        if *self {
            1
        } else {
            0
        }
    }

    proof fn lemma_shifted_in_width(&self) {
        lemma_pow256_widths();
    }

    fn is_signed() -> (r: bool) {
        false
    }

    fn min_as_fr() -> (r: i128) {
        0
    }

    fn offset_to_bytes(&self) -> (r: Vec<u8>) {
        let v: u128 = if *self {
            1
        } else {
            0
        };
        u128_to_le_bytes(v, 1)
    }
}

impl OffsetToBytes for u64 {
    open spec fn spec_byte_width() -> nat {
        8
    }

    open spec fn spec_is_signed() -> bool {
        false
    }

    open spec fn spec_min() -> int {
        0
    }

    open spec fn spec_shifted(&self) -> nat {
        *self as nat
    }

    proof fn lemma_shifted_in_width(&self) {
        lemma_pow256_widths();
    }

    fn is_signed() -> (r: bool) {
        false
    }

    fn min_as_fr() -> (r: i128) {
        0
    }

    fn offset_to_bytes(&self) -> (r: Vec<u8>) {
        u128_to_le_bytes(*self as u128, 8)
    }
}

/// Relies on `zerocopy::AsBytes::as_bytes` for `[u64; 4]`: the in-memory
/// image of the four limbs in order, each limb as its little-endian bytes on
/// this little-endian target.
#[verifier::external_body]
fn limbs_as_le_bytes(limbs: &[u64; 4]) -> (r: Vec<u8>)
    ensures
        r@.len() == 32,
        forall|j: int| 0 <= j < 32 ==> #[trigger] r@[j] == le_bytes(limbs@[j / 8] as nat, 8)[j % 8],
{
    zerocopy::AsBytes::as_bytes(limbs).to_vec()
}

/// The value of four little-endian limbs fits in 32 bytes.
pub proof fn lemma_limbs_value_bound(limbs: Seq<u64>)
    requires
        limbs.len() == 4,
    ensures
        limbs_value(limbs) < pow256(32),
{
    lemma_pow256_widths();
    lemma_limbs_value_bound_rec(limbs);
}

proof fn lemma_limbs_value_bound_rec(limbs: Seq<u64>)
    ensures
        limbs_value(limbs) < pow256(8 * limbs.len()),
    decreases limbs.len(),
{
    if limbs.len() == 0 {
    } else {
        let rest = limbs.drop_first();
        lemma_limbs_value_bound_rec(rest);
        lemma_pow256_adds(8, 8 * rest.len());
        lemma_pow256_widths();
        let b = 0x1_0000_0000_0000_0000int;
        assert(limbs_value(limbs) < b * pow256(8 * rest.len())) by (nonlinear_arith)
            requires
                limbs_value(limbs) == (limbs[0] as nat) + b * limbs_value(rest),
                limbs_value(rest) < pow256(8 * rest.len()),
                limbs[0] < b,
                pow256(8 * rest.len()) >= 1,
        ;
    }
}

/// The 32-byte encoding of four limbs is the four 8-byte limb encodings in
/// order.
proof fn lemma_le_bytes_of_limbs(limbs: Seq<u64>)
    requires
        limbs.len() == 4,
    ensures
        le_bytes(limbs_value(limbs), 32) == le_bytes(limbs[0] as nat, 8) + le_bytes(
            limbs[1] as nat,
            8,
        ) + le_bytes(limbs[2] as nat, 8) + le_bytes(limbs[3] as nat, 8),
{
    lemma_pow256_widths();
    lemma_le_bytes_of_limbs_rec(limbs);
    let rest1 = limbs.drop_first();
    let rest2 = rest1.drop_first();
    let rest3 = rest2.drop_first();
    lemma_le_bytes_of_limbs_rec(rest1);
    lemma_le_bytes_of_limbs_rec(rest2);
    lemma_le_bytes_of_limbs_rec(rest3);
    assert(rest3.drop_first().len() == 0);
    assert(le_bytes(limbs_value(rest3.drop_first()), 0) =~= Seq::<u8>::empty());
    assert(le_bytes(limbs_value(limbs), 32) =~= le_bytes(limbs[0] as nat, 8) + le_bytes(
        limbs[1] as nat,
        8,
    ) + le_bytes(limbs[2] as nat, 8) + le_bytes(limbs[3] as nat, 8));
}

/// One step: the encoding of a limb sequence starts with its first limb's
/// eight bytes.
proof fn lemma_le_bytes_of_limbs_rec(limbs: Seq<u64>)
    requires
        limbs.len() >= 1,
    ensures
        le_bytes(limbs_value(limbs), 8 * limbs.len()) == le_bytes(limbs[0] as nat, 8) + le_bytes(
            limbs_value(limbs.drop_first()),
            (8 * limbs.len() - 8) as nat,
        ),
{
    lemma_pow256_widths();
    lemma_le_bytes_split(
        limbs[0] as nat,
        8,
        limbs_value(limbs.drop_first()),
        (8 * limbs.len() - 8) as nat,
    );
}

impl OffsetToBytes for [u64; 4] {
    open spec fn spec_byte_width() -> nat {
        32
    }

    open spec fn spec_is_signed() -> bool {
        false
    }

    open spec fn spec_min() -> int {
        0
    }

    open spec fn spec_shifted(&self) -> nat {
        limbs_value(self@)
    }

    proof fn lemma_shifted_in_width(&self) {
        lemma_limbs_value_bound(self@);
    }

    fn is_signed() -> (r: bool) {
        false
    }

    fn min_as_fr() -> (r: i128) {
        0
    }

    fn offset_to_bytes(&self) -> (r: Vec<u8>) {
        let r = limbs_as_le_bytes(self);
        proof {
            lemma_le_bytes_of_limbs(self@);
            lemma_le_bytes_len(self@[0] as nat, 8);
            lemma_le_bytes_len(self@[1] as nat, 8);
            lemma_le_bytes_len(self@[2] as nat, 8);
            lemma_le_bytes_len(self@[3] as nat, 8);
            lemma_le_bytes_len(limbs_value(self@), 32);
            assert forall|j: int| 0 <= j < 32 implies r@[j] == le_bytes(limbs_value(self@), 32)[j]
            by {
                let cat = le_bytes(self@[0] as nat, 8) + le_bytes(self@[1] as nat, 8) + le_bytes(
                    self@[2] as nat,
                    8,
                ) + le_bytes(self@[3] as nat, 8);
                if j < 8 {
                    assert(j / 8 == 0 && j % 8 == j);
                    assert(cat[j] == le_bytes(self@[0] as nat, 8)[j]);
                } else if j < 16 {
                    assert(j / 8 == 1 && j % 8 == j - 8);
                    assert(cat[j] == le_bytes(self@[1] as nat, 8)[j - 8]);
                } else if j < 24 {
                    assert(j / 8 == 2 && j % 8 == j - 16);
                    assert(cat[j] == le_bytes(self@[2] as nat, 8)[j - 16]);
                } else {
                    assert(j / 8 == 3 && j % 8 == j - 24);
                    assert(cat[j] == le_bytes(self@[3] as nat, 8)[j - 24]);
                }
            }
            assert(r@ =~= le_bytes(limbs_value(self@), 32));
        }
        r
    }
}

} // verus!
