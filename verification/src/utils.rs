//! Fixed point arithmetic, price rounding and the checks made on accounts.
use crate::error::AoError;
use crate::state::Side;
use vstd::prelude::*;

verus! {

/// The FP32 quotient `floor(a * 2^32 / b)`: `a` is an integer and `b` a
/// fixed point number with 32 fractional bits.
pub open spec fn spec_fp32_div(a: u64, b_fp32: u64) -> Option<u64> {
    if b_fp32 == 0 {
        None
    } else if (a as int) * 0x1_0000_0000 / (b_fp32 as int) <= u64::MAX {
        Some(((a as int) * 0x1_0000_0000 / (b_fp32 as int)) as u64)
    } else {
        None
    }
}

/// The FP32 product `floor(a * b / 2^32)`: `a` is an integer and `b` a
/// fixed point number with 32 fractional bits.
pub open spec fn spec_fp32_mul(a: u64, b_fp32: u64) -> Option<u64> {
    if (a as int) * (b_fp32 as int) / 0x1_0000_0000 <= u64::MAX {
        Some(((a as int) * (b_fp32 as int) / 0x1_0000_0000) as u64)
    } else {
        None
    }
}

/// Calls `bonfida_utils::fp_math::fp32_div`, which shifts `a` left by 32
/// bits in `u128`, divides with `checked_div` (`None` for a zero divisor)
/// and narrows the quotient to `u64` (`None` where it does not fit).
#[verifier::external_body]
pub(crate) fn fp32_div(a: u64, b_fp32: u64) -> (r: Option<u64>)
    ensures
        r == spec_fp32_div(a, b_fp32),
{
    bonfida_utils::fp_math::fp32_div(a, b_fp32)
}

/// Calls `bonfida_utils::fp_math::fp32_mul_floor`, which multiplies in
/// `u128` with `checked_mul` (it cannot overflow for two `u64` factors),
/// shifts right by 32 bits and narrows to `u64` (`None` where the result
/// does not fit).
#[verifier::external_body]
pub(crate) fn fp32_mul(a: u64, b_fp32: u64) -> (r: Option<u64>)
    ensures
        r == spec_fp32_mul(a, b_fp32),
{
    bonfida_utils::fp_math::fp32_mul_floor(a, b_fp32)
}

/// The price that `round_price` gives: bids are rounded down to a multiple
/// of the tick size, asks up.
pub open spec fn spec_round_price(tick_size: u64, limit_price: u64, side: Side) -> int {
    match side {
        Side::Bid => (tick_size as int) * ((limit_price as int) / (tick_size as int)),
        Side::Ask => (tick_size as int) * (((limit_price as int) + (tick_size as int) - 1) / (
        tick_size as int)),
    }
}

/// Rounds a given price the nearest tick size according to the rules of the AOB
pub fn round_price(tick_size: u64, limit_price: u64, side: Side) -> (r: u64)
    requires
        tick_size > 0,
        side == Side::Ask ==> limit_price + tick_size <= u64::MAX,
    ensures
        r == spec_round_price(tick_size, limit_price, side),
        r % tick_size == 0,
        side == Side::Bid ==> r <= limit_price < r + tick_size,
        side == Side::Ask ==> limit_price <= r < limit_price + tick_size,
{
    match side {
        Side::Bid => {
            let q = limit_price / tick_size;
            proof {
                lemma_round_down(tick_size as int, limit_price as int);
            }
            tick_size * q
        },
        Side::Ask => {
            let q = (limit_price + tick_size - 1) / tick_size;
            proof {
                lemma_round_up(tick_size as int, limit_price as int);
            }
            tick_size * q
        },
    }
}

proof fn lemma_round_down(t: int, l: int)
    requires
        t > 0,
        l >= 0,
    ensures
        0 <= t * (l / t) <= l < t * (l / t) + t,
        (t * (l / t)) % t == 0,
{
    vstd::arithmetic::div_mod::lemma_fundamental_div_mod(l, t);
    vstd::arithmetic::div_mod::lemma_mod_multiples_basic(l / t, t);
    vstd::arithmetic::mul::lemma_mul_is_commutative(t, l / t);
    vstd::arithmetic::div_mod::lemma_div_pos_is_pos(l, t);
    vstd::arithmetic::mul::lemma_mul_nonnegative(t, l / t);
}

proof fn lemma_round_up(t: int, l: int)
    requires
        t > 0,
        l >= 0,
    ensures
        0 <= l <= t * ((l + t - 1) / t) < l + t,
        (t * ((l + t - 1) / t)) % t == 0,
{
    let m = l + t - 1;
    vstd::arithmetic::div_mod::lemma_fundamental_div_mod(m, t);
    vstd::arithmetic::div_mod::lemma_mod_multiples_basic(m / t, t);
    vstd::arithmetic::mul::lemma_mul_is_commutative(t, m / t);
}

/// Whether `a` and `b` hold the same bytes.
fn same_bytes(a: &[u8], b: &[u8]) -> (r: bool)
    ensures
        r == (a@ == b@),
{
    if a.len() != b.len() {
        return false;
    }
    let mut i: usize = 0;
    while i < a.len()
        invariant
            0 <= i <= a.len(),
            a.len() == b.len(),
            forall|j: int| 0 <= j < i ==> a@[j] == b@[j],
        decreases a.len() - i,
    {
        if a[i] != b[i] {
            return false;
        }
        i = i + 1;
    }
    assert(a@ =~= b@);
    true
}

/// Checks that an account's key is `key`, failing with `error` where not.
pub fn check_account_key(account_key: &[u8; 32], key: &[u8; 32], error: AoError) -> (r: Result<
    (),
    AoError,
>)
    ensures
        r == if account_key@ == key@ {
            Ok::<(), AoError>(())
        } else {
            Err::<(), AoError>(error)
        },
{
    if !same_bytes(account_key.as_slice(), key.as_slice()) {
        return Err(error);
    }
    Ok(())
}

/// Checks that an account's owner is `owner`, failing with `error` where
/// not.
pub fn check_account_owner(account_owner: &[u8; 32], owner: &[u8], error: AoError) -> (r: Result<
    (),
    AoError,
>)
    ensures
        r == if account_owner@ == owner@ {
            Ok::<(), AoError>(())
        } else {
            Err::<(), AoError>(error)
        },
{
    if !same_bytes(account_owner.as_slice(), owner) {
        return Err(error);
    }
    Ok(())
}

/// Checks that an account's data is not yet initialized: its first byte is
/// zero.
pub fn check_unitialized(account_data: &[u8]) -> (r: Result<(), AoError>)
    requires
        account_data.len() > 0,
    ensures
        r == if account_data@[0] != 0 {
            Err::<(), AoError>(AoError::AlreadyInitialized)
        } else {
            Ok::<(), AoError>(())
        },
{
    if account_data[0] != 0 {
        return Err(AoError::AlreadyInitialized);
    }
    Ok(())
}

} // verus!
