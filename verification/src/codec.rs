//! Radix validation and the positional codec.
//!
//! A radix is valid when it is a power of two strictly greater than one;
//! `get_length` derives the bit width (the exponent) of such a radix.
//! `encode` packs a digit sequence into one arbitrary-precision integer,
//! `sum(digit_i * radix^i)` with position 0 least significant, and `decode`
//! unpacks such an integer back into its digits.

use crate::bignum::big_add_u32;
use crate::bignum::big_clone;
use crate::bignum::big_is_zero;
use crate::bignum::big_mod_digit;
use crate::bignum::big_shl;
use crate::bignum::big_shr;
use crate::bignum::big_val;
use crate::bignum::big_zero;
use vstd::prelude::*;

verus! {

use vstd::arithmetic::power2::pow2;
use vstd::arithmetic::power2::lemma_pow2_unfold;
use vstd::arithmetic::power2::lemma_pow2_pos;
use vstd::arithmetic::power2::lemma_pow2_strictly_increases;
use vstd::arithmetic::power2::lemma2_to64;
use vstd::arithmetic::div_mod::lemma_fundamental_div_mod;
use vstd::arithmetic::div_mod::lemma_fundamental_div_mod_converse;
use vstd::arithmetic::div_mod::lemma_mod_multiples_basic;
use vstd::arithmetic::div_mod::lemma_div_decreases;

/// Everything that can go wrong in this library.
#[derive(Clone, Copy, Debug, PartialEq, Eq, Structural)]
pub enum CodecError {
    /// The radix is not a power of two strictly greater than one.
    InvalidRadix,
    /// A digit is not strictly below the radix; carries the position and the
    /// value of the offending digit.
    DigitOutOfRange { index: usize, digit: u32 },
    /// Text could not be parsed into a digit list.
    MalformedInput,
}

/// `w` is the bit width that validates `limit`: `limit == 2^w` with `w >= 1`.
pub open spec fn valid_bit_width(limit: nat, w: nat) -> bool {
    1 <= w && limit == pow2(w)
}

/// What `get_length` returns for a given `limit`: the unique valid bit width,
/// or `InvalidRadix` when none exists.
pub open spec fn bit_width_result(limit: nat, r: Result<usize, CodecError>) -> bool {
    match r {
        Ok(w) => valid_bit_width(limit, w as nat),
        Err(e) => e == CodecError::InvalidRadix && (forall|k: nat|
            !#[trigger] valid_bit_width(limit, k)),
    }
}

/// A power of two exceeds its exponent.
proof fn lemma_pow2_above_exponent(e: nat)
    ensures
        pow2(e) > e,
    decreases e,
{
    if e == 0 {
        lemma2_to64();
    } else {
        lemma_pow2_above_exponent((e - 1) as nat);
        lemma_pow2_unfold(e);
    }
}

/// An odd factor greater than one keeps a product from being a power of two.
proof fn lemma_odd_times_pow2_not_pow2(c: nat, e: nat, k: nat)
    requires
        c % 2 == 1,
        c > 1,
    ensures
        c * pow2(e) != pow2(k),
    decreases e,
{
    lemma_pow2_pos(e);
    lemma_pow2_pos(k);
    lemma2_to64();
    if e == 0 {
        assert(c * pow2(0) == c);
        if k > 0 {
            lemma_pow2_unfold(k);
            lemma_mod_multiples_basic(pow2((k - 1) as nat) as int, 2);
            assert(pow2(k) % 2 == 0);
        }
    } else {
        if k == 0 {
            assert(c * pow2(e) >= 2) by (nonlinear_arith)
                requires
                    c > 1,
                    pow2(e) >= 1,
            ;
        } else {
            lemma_pow2_unfold(e);
            lemma_pow2_unfold(k);
            if c * pow2(e) == pow2(k) {
                assert(c * pow2((e - 1) as nat) == pow2((k - 1) as nat)) by (nonlinear_arith)
                    requires
                        c * pow2(e) == pow2(k),
                        pow2(e) == 2 * pow2((e - 1) as nat),
                        pow2(k) == 2 * pow2((k - 1) as nat),
                ;
                lemma_odd_times_pow2_not_pow2(c, (e - 1) as nat, (k - 1) as nat);
                assert(false);
            }
        }
    }
}

/// Derives the bit width of a valid radix: succeeds with `w` exactly when
/// `limit == 2^w` for some `w >= 1`, and fails with `InvalidRadix` otherwise.
pub fn get_length(limit: usize) -> (r: Result<usize, CodecError>)
    ensures
        bit_width_result(limit as nat, r),
{
    if limit <= 1 {
        proof {
            assert forall|k: nat| !#[trigger] valid_bit_width(limit as nat, k) by {
                if 1 <= k {
                    lemma2_to64();
                    lemma_pow2_strictly_increases(0, k);
                }
            }
        }
        return Err(CodecError::InvalidRadix);
    }
    let mut cur: usize = limit;
    let mut length: usize = 0;
    proof {
        lemma2_to64();
    }
    while cur > 1
        invariant
            1 <= cur,
            limit as nat == cur as nat * pow2(length as nat),
            pow2(length as nat) <= limit as nat,
        decreases cur,
    {
        if cur % 2 != 0 {
            proof {
                assert forall|k: nat| !#[trigger] valid_bit_width(limit as nat, k) by {
                    lemma_odd_times_pow2_not_pow2(cur as nat, length as nat, k);
                }
            }
            return Err(CodecError::InvalidRadix);
        }
        proof {
            lemma_pow2_above_exponent(length as nat);
            lemma_fundamental_div_mod(cur as int, 2);
            lemma_pow2_unfold((length + 1) as nat);
            lemma_div_decreases(cur as int, 2);
            assert(cur as nat * pow2(length as nat) == (cur as nat / 2) * pow2(
                (length + 1) as nat,
            )) by (nonlinear_arith)
                requires
                    cur as nat % 2 == 0,
                    cur as nat == 2 * (cur as nat / 2) + cur as nat % 2,
                    pow2((length + 1) as nat) == 2 * pow2(length as nat),
            ;
            assert((cur as nat / 2) >= 1) by {
                assert(cur as nat >= 2);
            }
            assert((cur as nat / 2) * pow2((length + 1) as nat) >= pow2((length + 1) as nat))
                by (nonlinear_arith)
                requires
                    (cur as nat / 2) >= 1,
                    pow2((length + 1) as nat) >= 0,
            ;
        }
        cur = cur / 2;
        length = length + 1;
    }
    proof {
        assert(cur == 1);
        assert(limit as nat == pow2(length as nat));
        if length == 0 {
            assert(pow2(0) == 1);
            assert(false);
        }
    }
    Ok(length)
}

/// Every digit of `ds` is strictly below the radix.
pub open spec fn all_digits_below(ds: Seq<u32>, radix: nat) -> bool {
    forall|i: int| 0 <= i < ds.len() ==> ds[i] < radix
}

/// The integer that a digit sequence denotes under `radix`:
/// `sum(ds[i] * radix^i)`, position 0 least significant.
pub open spec fn encoded(ds: Seq<u32>, radix: nat) -> nat
    decreases ds.len(),
{
    if ds.len() == 0 {
        0
    } else {
        ds[0] as nat + radix * encoded(ds.subrange(1, ds.len() as int), radix)
    }
}

/// The digit sequence that an integer denotes under `radix`: repeatedly the
/// remainder below `radix`, least significant first, until the value is zero.
pub open spec fn decoded(v: nat, radix: nat) -> Seq<u32>
    decreases v,
    when radix >= 2
    via decoded_decreases
{
    if v == 0 {
        Seq::empty()
    } else {
        seq![(v % radix) as u32] + decoded(v / radix, radix)
    }
}

#[via_fn]
proof fn decoded_decreases(v: nat, radix: nat) {
    if v > 0 {
        lemma_div_decreases(v as int, radix as int);
    }
}

/// Peeling one digit off the front of a suffix of `ds`.
proof fn lemma_encoded_step(ds: Seq<u32>, i: int, radix: nat)
    requires
        0 <= i < ds.len(),
    ensures
        encoded(ds.subrange(i, ds.len() as int), radix) == ds[i] as nat + radix * encoded(
            ds.subrange(i + 1, ds.len() as int),
            radix,
        ),
{
    let s = ds.subrange(i, ds.len() as int);
    assert(s.subrange(1, s.len() as int) =~= ds.subrange(i + 1, ds.len() as int));
}

/// A valid bit width between 1 and 32 puts the radix between 2 and `2^32`.
proof fn lemma_radix_bounds(w: nat)
    requires
        1 <= w <= 32,
    ensures
        2 <= pow2(w),
        pow2(w) <= 0x1_0000_0000,
{
    lemma2_to64();
    if w < 32 {
        lemma_pow2_strictly_increases(w, 32);
    }
    if 1 < w {
        lemma_pow2_strictly_increases(1, w);
    }
}

/// `ds` with its trailing (most-significant) zero digits removed.
pub open spec fn strip_trailing_zeros(ds: Seq<u32>) -> Seq<u32>
    decreases ds.len(),
{
    if ds.len() == 0 {
        Seq::empty()
    } else {
        let tail = strip_trailing_zeros(ds.subrange(1, ds.len() as int));
        if ds[0] == 0 && tail.len() == 0 {
            Seq::empty()
        } else {
            seq![ds[0]] + tail
        }
    }
}

/// A sequence encodes to zero exactly when stripping its trailing zeros
/// leaves nothing: only zero digits contribute nothing.
proof fn lemma_encoded_zero_iff_stripped_empty(ds: Seq<u32>, radix: nat)
    requires
        1 <= radix,
    ensures
        encoded(ds, radix) == 0 <==> strip_trailing_zeros(ds).len() == 0,
    decreases ds.len(),
{
    if ds.len() > 0 {
        let tail = ds.subrange(1, ds.len() as int);
        lemma_encoded_zero_iff_stripped_empty(tail, radix);
        if encoded(tail, radix) != 0 {
            assert(radix * encoded(tail, radix) >= 1) by (nonlinear_arith)
                requires
                    radix >= 1,
                    encoded(tail, radix) >= 1,
            ;
        }
    }
}

/// Round trip: decoding what a digit sequence encodes yields the sequence
/// back with its trailing (most-significant) zero digits removed — the
/// minimal representation of the same integer.
pub proof fn lemma_round_trip(ds: Seq<u32>, radix: nat)
    requires
        2 <= radix,
        all_digits_below(ds, radix),
    ensures
        decoded(encoded(ds, radix), radix) == strip_trailing_zeros(ds),
    decreases ds.len(),
{
    lemma_encoded_zero_iff_stripped_empty(ds, radix);
    if ds.len() > 0 && encoded(ds, radix) != 0 {
        let tail = ds.subrange(1, ds.len() as int);
        let d0 = ds[0];
        let e = encoded(ds, radix);
        let et = encoded(tail, radix);
        assert(all_digits_below(tail, radix));
        lemma_round_trip(tail, radix);
        assert(d0 < radix);
        assert(e == d0 as nat + radix * et);
        assert((et as int) * (radix as int) == (radix as int) * (et as int)) by (nonlinear_arith);
        lemma_fundamental_div_mod_converse(e as int, radix as int, et as int, d0 as int);
        assert(decoded(e, radix) == seq![(e % radix) as u32] + decoded(e / radix, radix));
        assert((e % radix) as u32 == d0);
        if d0 == 0 && strip_trailing_zeros(tail).len() == 0 {
            lemma_encoded_zero_iff_stripped_empty(tail, radix);
            assert(false);
        }
        assert(strip_trailing_zeros(ds) == seq![d0] + strip_trailing_zeros(tail));
    }
}

/// Encoding what an integer decodes to yields the integer back.
pub proof fn lemma_decode_then_encode(v: nat, radix: nat)
    requires
        2 <= radix,
        radix <= 0x1_0000_0000,
    ensures
        encoded(decoded(v, radix), radix) == v,
    decreases v,
{
    if v > 0 {
        lemma_div_decreases(v as int, radix as int);
        lemma_decode_then_encode(v / radix, radix);
        let s = seq![(v % radix) as u32] + decoded(v / radix, radix);
        assert(s.subrange(1, s.len() as int) =~= decoded(v / radix, radix));
        lemma_fundamental_div_mod(v as int, radix as int);
    }
}

/// The decoded form is a well-formed minimal representation: every digit is
/// strictly below the radix, and a nonempty result never ends in a zero
/// (most-significant) digit.
pub proof fn lemma_decoded_digits(v: nat, radix: nat)
    requires
        2 <= radix,
        radix <= 0x1_0000_0000,
    ensures
        all_digits_below(decoded(v, radix), radix),
        decoded(v, radix).len() > 0 ==> decoded(v, radix).last() != 0,
    decreases v,
{
    if v > 0 {
        lemma_div_decreases(v as int, radix as int);
        lemma_decoded_digits(v / radix, radix);
        lemma_fundamental_div_mod(v as int, radix as int);
        let tail = decoded(v / radix, radix);
        let s = seq![(v % radix) as u32] + tail;
        assert(decoded(v, radix) == s);
        assert forall|i: int| 0 <= i < s.len() implies s[i] < radix by {
            if i > 0 {
                assert(s[i] == tail[i - 1]);
            }
        }
        if tail.len() == 0 {
            assert(v / radix == 0);
            assert(v == radix * (v / radix) + v % radix);
            assert(radix * 0 == 0);
            assert(s.last() == (v % radix) as u32);
        }
    }
}

/// Deriving the bit width is a pure function of the radix: any two results
/// that `bit_width_result` admits for the same `limit` are equal, so repeated
/// validations of one radix always agree.
pub proof fn lemma_bit_width_unique(
    limit: nat,
    r1: Result<usize, CodecError>,
    r2: Result<usize, CodecError>,
)
    requires
        bit_width_result(limit, r1),
        bit_width_result(limit, r2),
    ensures
        r1 == r2,
{
    match (r1, r2) {
        (Ok(w1), Ok(w2)) => {
            if w1 < w2 {
                lemma_pow2_strictly_increases(w1 as nat, w2 as nat);
            }
            if w2 < w1 {
                lemma_pow2_strictly_increases(w2 as nat, w1 as nat);
            }
        },
        (Ok(w1), Err(_)) => {
            assert(valid_bit_width(limit, w1 as nat));
        },
        (Err(_), Ok(w2)) => {
            assert(valid_bit_width(limit, w2 as nat));
        },
        (Err(_), Err(_)) => {},
    }
}

/// The zero case: an empty sequence encodes to zero, and zero decodes to the
/// empty sequence, under every radix.
pub proof fn lemma_zero_case(radix: nat)
    requires
        2 <= radix,
    ensures
        encoded(Seq::<u32>::empty(), radix) == 0,
        decoded(0, radix) == Seq::<u32>::empty(),
{
}

/// Packs `digits` into one arbitrary-precision integer under a radix equal to
/// `2^length`: starting from zero, for each digit taken from the last toward
/// the first, shift the accumulator left by `length` bits and add the digit.
/// Succeeds exactly when every digit is strictly below the radix, and returns
/// the integer the sequence denotes; otherwise fails with `DigitOutOfRange`
/// naming the offending digit — the one at the highest out-of-range position,
/// where the traversal stops.
pub fn encode(digits: &Vec<u32>, radix: usize, length: usize) -> (r: Result<
    num::bigint::BigUint,
    CodecError,
>)
    requires
        1 <= length,
        radix as nat == pow2(length as nat),
    ensures
        (match r {
            Ok(v) => all_digits_below(digits@, radix as nat) && big_val(v) == encoded(
                digits@,
                radix as nat,
            ),
            Err(e) => !all_digits_below(digits@, radix as nat) && (exists|i: int|
                #![auto]
                0 <= i < digits@.len() && digits@[i] >= radix && (forall|j: int|
                    i < j < digits@.len() ==> digits@[j] < radix) && e == (
                CodecError::DigitOutOfRange { index: i as usize, digit: digits@[i] })),
        }),
{
    let ghost ds = digits@;
    let mut result = big_zero();
    let mut i: usize = digits.len();
    proof {
        assert(ds.subrange(i as int, ds.len() as int) =~= Seq::<u32>::empty());
    }
    while i > 0
        invariant
            i <= ds.len(),
            digits@ == ds,
            1 <= length,
            radix as nat == pow2(length as nat),
            big_val(result) == encoded(ds.subrange(i as int, ds.len() as int), radix as nat),
            forall|j: int| i <= j < ds.len() ==> ds[j] < radix,
        decreases i,
    {
        i = i - 1;
        let d = digits[i];
        if !((d as u64) < (radix as u64)) {
            proof {
                assert(0 <= i < ds.len() && ds[i as int] >= radix && (forall|j: int|
                    i < j < ds.len() ==> ds[j] < radix));
            }
            return Err(CodecError::DigitOutOfRange { index: i, digit: d });
        }
        proof {
            lemma_encoded_step(ds, i as int, radix as nat);
        }
        let ghost tail = encoded(ds.subrange(i as int + 1, ds.len() as int), radix as nat);
        result = big_shl(result, length);
        result = big_add_u32(result, d);
        proof {
            assert(big_val(result) == tail * pow2(length as nat) + d);
            assert(tail * pow2(length as nat) == (radix as nat) * tail);
            assert(encoded(ds.subrange(i as int, ds.len() as int), radix as nat) == ds[i as int]
                as nat + (radix as nat) * tail);
        }
    }
    proof {
        assert(ds.subrange(0, ds.len() as int) =~= ds);
    }
    Ok(result)
}

/// Unpacks an arbitrary-precision integer into the digit sequence it denotes
/// under a radix equal to `2^length`: while the value is nonzero, take the
/// remainder below the radix as the next digit and shift the value right by
/// `length` bits.  Never fails; zero decodes to the empty sequence, and the
/// last digit of a nonempty result is nonzero.
pub fn decode(number: num::bigint::BigUint, radix: usize, length: usize) -> (r: Vec<u32>)
    requires
        1 <= length <= 32,
        radix as nat == pow2(length as nat),
    ensures
        r@ == decoded(big_val(number), radix as nat),
        encoded(r@, radix as nat) == big_val(number),
        all_digits_below(r@, radix as nat),
{
    let ghost orig = big_val(number);
    proof {
        lemma_radix_bounds(length as nat);
    }
    let mut num = number;
    let mut result: Vec<u32> = Vec::new();
    loop
        invariant
            1 <= length <= 32,
            radix as nat == pow2(length as nat),
            2 <= radix as nat <= 0x1_0000_0000,
            decoded(orig, radix as nat) == result@ + decoded(big_val(num), radix as nat),
        ensures
            big_val(num) == 0,
            decoded(orig, radix as nat) == result@ + decoded(big_val(num), radix as nat),
        decreases big_val(num),
    {
        if big_is_zero(&num) {
            break ;
        }
        let ghost v = big_val(num);
        let d = big_mod_digit(&num, radix as u64);
        proof {
            lemma_div_decreases(v as int, radix as int);
        }
        num = big_shr(num, length);
        let ghost prev = result@;
        result.push(d);
        proof {
            assert(big_val(num) == v / radix as nat);
            assert(decoded(v, radix as nat) == seq![(v % radix as nat) as u32] + decoded(
                v / radix as nat,
                radix as nat,
            ));
            assert(d == (v % radix as nat) as u32);
            assert(result@ + decoded(big_val(num), radix as nat) =~= prev + decoded(
                v,
                radix as nat,
            ));
        }
    }
    proof {
        assert(decoded(big_val(num), radix as nat) =~= Seq::<u32>::empty());
        assert(result@ + Seq::<u32>::empty() =~= result@);
        lemma_decode_then_encode(orig, radix as nat);
        lemma_decoded_digits(orig, radix as nat);
    }
    result
}

/// One step of a traced encoding: the accumulator before and after the shift
/// by the bit width, the digit then added, and the accumulator after the
/// addition.
pub struct EncodeStep {
    pub before_shift: num::bigint::BigUint,
    pub after_shift: num::bigint::BigUint,
    pub digit: u32,
    pub after_add: num::bigint::BigUint,
}

/// One step of a traced decoding: the value before the step, the digit taken
/// as its remainder below the radix, and the value after the shift by the bit
/// width.
pub struct DecodeStep {
    pub value: num::bigint::BigUint,
    pub digit: u32,
    pub shifted: num::bigint::BigUint,
}

/// `encode` with its intermediate values recorded: step `t` shows the
/// accumulator around the shift and the addition for the digit at position
/// `len - 1 - t`, the traversal running from the last digit toward the first.
/// The returned integer and the error policy are exactly those of `encode`;
/// the trace changes nothing.
pub fn encode_trace(digits: &Vec<u32>, radix: usize, length: usize) -> (r: Result<
    (num::bigint::BigUint, Vec<EncodeStep>),
    CodecError,
>)
    requires
        1 <= length,
        radix as nat == pow2(length as nat),
    ensures
        (match r {
            Ok(p) => all_digits_below(digits@, radix as nat) && big_val(p.0) == encoded(
                digits@,
                radix as nat,
            ) && p.1@.len() == digits@.len() && (forall|t: int|
                #![trigger p.1@[t]]
                0 <= t < p.1@.len() ==> {
                    let j = digits@.len() - 1 - t;
                    &&& big_val(p.1@[t].before_shift) == encoded(
                        digits@.subrange(j + 1, digits@.len() as int),
                        radix as nat,
                    )
                    &&& big_val(p.1@[t].after_shift) == (radix as nat) * encoded(
                        digits@.subrange(j + 1, digits@.len() as int),
                        radix as nat,
                    )
                    &&& p.1@[t].digit == digits@[j]
                    &&& big_val(p.1@[t].after_add) == encoded(
                        digits@.subrange(j, digits@.len() as int),
                        radix as nat,
                    )
                }),
            Err(e) => !all_digits_below(digits@, radix as nat) && (exists|i: int|
                #![auto]
                0 <= i < digits@.len() && digits@[i] >= radix && (forall|j: int|
                    i < j < digits@.len() ==> digits@[j] < radix) && e == (
                CodecError::DigitOutOfRange { index: i as usize, digit: digits@[i] })),
        }),
{
    let ghost ds = digits@;
    let mut result = big_zero();
    let mut steps: Vec<EncodeStep> = Vec::new();
    let mut i: usize = digits.len();
    proof {
        assert(ds.subrange(i as int, ds.len() as int) =~= Seq::<u32>::empty());
    }
    while i > 0
        invariant
            i <= ds.len(),
            digits@ == ds,
            1 <= length,
            radix as nat == pow2(length as nat),
            big_val(result) == encoded(ds.subrange(i as int, ds.len() as int), radix as nat),
            forall|j: int| i <= j < ds.len() ==> ds[j] < radix,
            steps@.len() == ds.len() - i,
            forall|t: int|
                #![trigger steps@[t]]
                0 <= t < steps@.len() ==> {
                    let j = ds.len() - 1 - t;
                    &&& big_val(steps@[t].before_shift) == encoded(
                        ds.subrange(j + 1, ds.len() as int),
                        radix as nat,
                    )
                    &&& big_val(steps@[t].after_shift) == (radix as nat) * encoded(
                        ds.subrange(j + 1, ds.len() as int),
                        radix as nat,
                    )
                    &&& steps@[t].digit == ds[j]
                    &&& big_val(steps@[t].after_add) == encoded(
                        ds.subrange(j, ds.len() as int),
                        radix as nat,
                    )
                },
        decreases i,
    {
        i = i - 1;
        let d = digits[i];
        if !((d as u64) < (radix as u64)) {
            proof {
                assert(0 <= i < ds.len() && ds[i as int] >= radix && (forall|j: int|
                    i < j < ds.len() ==> ds[j] < radix));
            }
            return Err(CodecError::DigitOutOfRange { index: i, digit: d });
        }
        proof {
            lemma_encoded_step(ds, i as int, radix as nat);
        }
        let ghost tail = encoded(ds.subrange(i as int + 1, ds.len() as int), radix as nat);
        let before_shift = big_clone(&result);
        result = big_shl(result, length);
        let after_shift = big_clone(&result);
        result = big_add_u32(result, d);
        let after_add = big_clone(&result);
        proof {
            assert(big_val(result) == tail * pow2(length as nat) + d);
            assert(tail * pow2(length as nat) == (radix as nat) * tail);
            assert(encoded(ds.subrange(i as int, ds.len() as int), radix as nat) == ds[i as int]
                as nat + (radix as nat) * tail);
        }
        steps.push(
            EncodeStep { before_shift, after_shift, digit: d, after_add },
        );
    }
    proof {
        assert(ds.subrange(0, ds.len() as int) =~= ds);
    }
    Ok((result, steps))
}

/// `decode` with its intermediate values recorded: step `t` starts from the
/// value still to be unpacked (the input at step 0, thereafter the previous
/// step's shifted value), takes its remainder below the radix as digit `t` of
/// the result, and shifts it right by the bit width.  The returned digits are
/// exactly those of `decode`; the trace changes nothing.
pub fn decode_trace(number: num::bigint::BigUint, radix: usize, length: usize) -> (r: (
    Vec<u32>,
    Vec<DecodeStep>,
))
    requires
        1 <= length <= 32,
        radix as nat == pow2(length as nat),
    ensures
        r.0@ == decoded(big_val(number), radix as nat),
        r.1@.len() == r.0@.len(),
        forall|t: int|
            #![trigger r.1@[t]]
            0 <= t < r.1@.len() ==> {
                &&& r.1@[t].digit == r.0@[t]
                &&& r.1@[t].digit as nat == big_val(r.1@[t].value) % (radix as nat)
                &&& big_val(r.1@[t].shifted) == big_val(r.1@[t].value) / (radix as nat)
                &&& big_val(r.1@[t].value) == (if t == 0 {
                    big_val(number)
                } else {
                    big_val(r.1@[t - 1].shifted)
                })
            },
{
    let ghost orig = big_val(number);
    proof {
        lemma_radix_bounds(length as nat);
    }
    let mut num = number;
    let mut result: Vec<u32> = Vec::new();
    let mut steps: Vec<DecodeStep> = Vec::new();
    loop
        invariant
            1 <= length <= 32,
            radix as nat == pow2(length as nat),
            2 <= radix as nat <= 0x1_0000_0000,
            decoded(orig, radix as nat) == result@ + decoded(big_val(num), radix as nat),
            steps@.len() == result@.len(),
            big_val(num) == (if steps@.len() == 0 {
                orig
            } else {
                big_val(steps@.last().shifted)
            }),
            forall|t: int|
                #![trigger steps@[t]]
                0 <= t < steps@.len() ==> {
                    &&& steps@[t].digit == result@[t]
                    &&& steps@[t].digit as nat == big_val(steps@[t].value) % (radix as nat)
                    &&& big_val(steps@[t].shifted) == big_val(steps@[t].value) / (radix as nat)
                    &&& big_val(steps@[t].value) == (if t == 0 {
                        orig
                    } else {
                        big_val(steps@[t - 1].shifted)
                    })
                },
        ensures
            big_val(num) == 0,
            decoded(orig, radix as nat) == result@ + decoded(big_val(num), radix as nat),
            steps@.len() == result@.len(),
            forall|t: int|
                #![trigger steps@[t]]
                0 <= t < steps@.len() ==> {
                    &&& steps@[t].digit == result@[t]
                    &&& steps@[t].digit as nat == big_val(steps@[t].value) % (radix as nat)
                    &&& big_val(steps@[t].shifted) == big_val(steps@[t].value) / (radix as nat)
                    &&& big_val(steps@[t].value) == (if t == 0 {
                        orig
                    } else {
                        big_val(steps@[t - 1].shifted)
                    })
                },
        decreases big_val(num),
    {
        if big_is_zero(&num) {
            break ;
        }
        let ghost v = big_val(num);
        let value = big_clone(&num);
        let d = big_mod_digit(&num, radix as u64);
        proof {
            lemma_div_decreases(v as int, radix as int);
        }
        num = big_shr(num, length);
        let shifted = big_clone(&num);
        let ghost prev = result@;
        result.push(d);
        steps.push(DecodeStep { value, digit: d, shifted });
        proof {
            assert(big_val(num) == v / radix as nat);
            assert(decoded(v, radix as nat) == seq![(v % radix as nat) as u32] + decoded(
                v / radix as nat,
                radix as nat,
            ));
            assert(d == (v % radix as nat) as u32);
            assert(result@ + decoded(big_val(num), radix as nat) =~= prev + decoded(
                v,
                radix as nat,
            ));
        }
    }
    proof {
        assert(decoded(big_val(num), radix as nat) =~= Seq::<u32>::empty());
        assert(result@ + Seq::<u32>::empty() =~= result@);
    }
    (result, steps)
}

} // verus!
