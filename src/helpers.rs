use vstd::arithmetic::div_mod::{lemma_fundamental_div_mod, lemma_fundamental_div_mod_converse};
use vstd::prelude::*;

use crate::errors::OracleError;
use crate::types::AccountId;

verus! {

proof fn lemma_quotient_bound(x: int, q: int, d: int)
    requires
        d > 0,
        q >= 0,
        x >= 0,
        q * d <= x,
    ensures
        q <= x / d,
{
    lemma_fundamental_div_mod(x, d);
    assert(q <= x / d) by (nonlinear_arith)
        requires
            d > 0,
            q * d <= x,
            x == d * (x / d) + (x % d),
            x % d < d,
    ;
}

proof fn lemma_prefix_step(b: u128, k: u128)
    requires
        k < 127,
    ensures
        (b >> k) == 2 * (b >> ((k + 1) as u128)) + ((b >> k) & 1),
        (b >> k) <= b,
{
    assert((b >> k) == 2 * (b >> ((k + 1) as u128)) + ((b >> k) & 1)) by (bit_vector)
        requires
            k < 127,
    ;
    assert((b >> k) <= b) by (bit_vector);
}

proof fn lemma_prefix_top(b: u128)
    ensures
        (b >> 127u128) == (b >> 127u128) & 1,
        (b >> 127u128) <= b,
        (b >> 0u128) == b,
        (b >> 127u128) & 1 <= 1,
{
    assert((b >> 127u128) == (b >> 127u128) & 1) by (bit_vector);
    assert((b >> 127u128) <= b) by (bit_vector);
    assert((b >> 0u128) == b) by (bit_vector);
    assert((b >> 127u128) & 1 <= 1) by (bit_vector);
}

proof fn lemma_bit(b: u128, k: u128)
    ensures
        (b >> k) & 1 <= 1,
{
    assert((b >> k) & 1 <= 1) by (bit_vector);
}

/// `a * b / divisor`, rounded down. The product is never formed, so only the quotient has to
/// fit in 128 bits.
pub fn calc_product(a: u128, b: u128, divisor: u128) -> (r: u128)
    requires
        divisor > 0,
        (a as int) * (b as int) / (divisor as int) <= u128::MAX,
    ensures
        r == (a as int) * (b as int) / (divisor as int),
{
    let qa = a / divisor;
    let ra = a % divisor;
    proof {
        lemma_fundamental_div_mod(a as int, divisor as int);
    }
    let mut q: u128 = 0;
    let mut rem: u128 = 0;
    let mut k: u128 = 128;
    let ghost mut p: int = 0;
    while k > 0
        invariant
            k <= 128,
            a == divisor * qa + ra,
            ra < divisor,
            k == 128 ==> p == 0,
            k < 128 ==> p == (b >> k) as int,
            0 <= p <= b,
            a * p == q * divisor + rem,
            rem < divisor,
            (a as int) * (b as int) / (divisor as int) <= u128::MAX,
        decreases k,
    {
        k = k - 1;
        let bit: u128 = (b >> k) & 1;
        let ghost next_prefix: int = (b >> k) as int;
        proof {
            lemma_bit(b, k);
            if k < 127 {
                lemma_prefix_step(b, k);
            } else {
                lemma_prefix_top(b);
            }
            assert(next_prefix == 2 * p + bit);
            assert(bit == 0 || bit == 1);
        }
        let mut carry: u128 = 0;
        let mut r2: u128;
        if rem >= divisor - rem {
            r2 = rem - (divisor - rem);
            carry = 1;
        } else {
            r2 = rem + rem;
        }
        let ghost r1: int = r2 as int;
        assert(2 * rem == carry * divisor + r1);
        let mut extra: u128 = 0;
        if bit == 1 {
            if r2 >= divisor - ra {
                r2 = r2 - (divisor - ra);
                extra = 1;
            } else {
                r2 = r2 + ra;
            }
        }
        assert(r1 + bit * ra == extra * divisor + r2) by {
            if bit == 1 {
                assert(bit * ra == ra);
                if extra == 1 {
                    assert(extra * divisor == divisor);
                } else {
                    assert(extra * divisor == 0);
                }
            } else {
                assert(bit == 0);
                assert(bit * ra == 0) by (nonlinear_arith)
                    requires
                        bit == 0,
                ;
                assert(extra * divisor == 0);
            }
        }
        let ghost next_q: int = 2 * q + carry + bit * (qa + extra);
        proof {
            assert(a * next_prefix == next_q * divisor + r2) by (nonlinear_arith)
                requires
                    next_prefix == 2 * p + bit,
                    a * p == q * divisor + rem,
                    a == divisor * qa + ra,
                    2 * rem == carry * divisor + r1,
                    r1 + bit * ra == extra * divisor + r2,
                    bit == 0 || bit == 1,
                    bit == 0 ==> extra == 0,
                    next_q == 2 * q + carry + bit * (qa + extra),
            ;
            assert(a * next_prefix <= a * b) by (nonlinear_arith)
                requires
                    0 <= next_prefix <= b,
                    a >= 0,
            ;
            lemma_quotient_bound(a * b, next_q, divisor as int);
            assert(next_q * divisor >= 0) by (nonlinear_arith)
                requires
                    next_q >= 0,
                    divisor > 0,
            ;
            assert(a * b >= 0) by (nonlinear_arith);
        }
        let twice = q + q + carry;
        if bit == 1 {
            assert(twice + qa + extra == next_q) by (nonlinear_arith)
                requires
                    bit == 1,
                    twice == 2 * q + carry,
                    next_q == 2 * q + carry + bit * (qa + extra),
            ;
            q = twice + qa + extra;
        } else {
            assert(twice == next_q) by (nonlinear_arith)
                requires
                    bit == 0,
                    twice == 2 * q + carry,
                    next_q == 2 * q + carry + bit * (qa + extra),
            ;
            q = twice;
        }
        rem = r2;
        proof {
            p = next_prefix;
        }
    }
    proof {
        lemma_prefix_top(b);
        lemma_fundamental_div_mod_converse(a * b, divisor as int, q as int, rem as int);
    }
    q
}

/// Nanoseconds to milliseconds, rounding down.
pub fn ns_to_ms(ns_timestamp: u64) -> (r: u64)
    ensures
        r == ns_timestamp / 1_000_000,
{
    ns_timestamp / 1_000_000
}


/// The sum of a sequence of amounts.
pub open spec fn seq_sum(s: Seq<nat>) -> nat
    decreases s.len(),
{
    if s.len() == 0 {
        0
    } else {
        seq_sum(s.drop_last()) + s.last()
    }
}

pub proof fn lemma_sum_push(s: Seq<nat>, x: nat)
    ensures
        seq_sum(s.push(x)) == seq_sum(s) + x,
{
    assert(s.push(x).drop_last() =~= s);
}

pub proof fn lemma_sum_update(s: Seq<nat>, i: int, x: nat)
    requires
        0 <= i < s.len(),
    ensures
        seq_sum(s.update(i, x)) + s[i] == seq_sum(s) + x,
    decreases s.len(),
{
    let t = s.update(i, x);
    if i == s.len() - 1 {
        assert(t.drop_last() =~= s.drop_last());
    } else {
        assert(t.drop_last() =~= s.drop_last().update(i, x));
        lemma_sum_update(s.drop_last(), i, x);
    }
}

pub proof fn lemma_sum_zero(s: Seq<nat>)
    requires
        forall|j: int| 0 <= j < s.len() ==> s[j] == 0,
    ensures
        seq_sum(s) == 0,
    decreases s.len(),
{
    if s.len() > 0 {
        lemma_sum_zero(s.drop_last());
    }
}

/// A sum in which at most the entry at `i` is non-zero is that entry.
pub proof fn lemma_sum_single(s: Seq<nat>, i: int)
    requires
        0 <= i < s.len(),
        forall|j: int| 0 <= j < s.len() && j != i ==> s[j] == 0,
    ensures
        seq_sum(s) == s[i],
{
    lemma_sum_update(s, i, 0);
    lemma_sum_zero(s.update(i, 0));
}

/// A prefix sums to no more than the whole, and one more entry adds that entry.
pub proof fn lemma_sum_prefix(s: Seq<nat>, i: int)
    requires
        0 <= i < s.len(),
    ensures
        seq_sum(s.take(i + 1)) == seq_sum(s.take(i)) + s[i],
        seq_sum(s.take(i + 1)) <= seq_sum(s),
    decreases s.len(),
{
    assert(s.take(i + 1).drop_last() =~= s.take(i));
    if i + 1 == s.len() {
        assert(s.take(i + 1) =~= s);
    } else {
        assert(s.drop_last().take(i + 1) =~= s.take(i + 1));
        lemma_sum_prefix(s.drop_last(), i);
    }
}

/// Two sequences that agree entry by entry up to a bound have sums in the same order.
pub proof fn lemma_sum_le(s: Seq<nat>, t: Seq<nat>)
    requires
        s.len() == t.len(),
        forall|j: int| 0 <= j < s.len() ==> s[j] <= t[j],
    ensures
        seq_sum(s) <= seq_sum(t),
    decreases s.len(),
{
    if s.len() > 0 {
        lemma_sum_le(s.drop_last(), t.drop_last());
    }
}

/// Whether the one call a callback waits on succeeded. A callback sees exactly one result;
/// any other count is refused.
pub fn is_promise_success(results_count: u64, first_succeeded: bool) -> (r: Result<bool, OracleError>)
    ensures
        results_count != 1 ==> r == Err::<bool, OracleError>(OracleError::UpstreamFailure),
        results_count == 1 ==> r == Ok::<bool, OracleError>(first_succeeded),
{
    if results_count != 1 {
        return Err(OracleError::UpstreamFailure);
    }
    Ok(first_succeeded)
}

/// Refuses to go on unless the one call a callback waits on succeeded.
pub fn assert_prev_promise_successful(results_count: u64, first_succeeded: bool) -> (r: Result<
    (),
    OracleError,
>)
    ensures
        r is Ok <==> results_count == 1 && first_succeeded,
        r is Err ==> r == Err::<(), OracleError>(OracleError::UpstreamFailure),
{
    match is_promise_success(results_count, first_succeeded) {
        Ok(true) => Ok(()),
        _ => Err(OracleError::UpstreamFailure),
    }
}

/// The price of one byte of storage.
pub const STORAGE_PRICE_PER_BYTE: u128 = 100_000_000_000_000_000_000;

/// What goes back to the caller of a call that moved storage from `initial_storage` to
/// `current_storage` bytes and came with `attached_deposit`: the deposit less the price of
/// the bytes it added, or the deposit plus the price of the bytes it freed. Refused where the
/// deposit does not pay for the added bytes.
pub fn refund_storage(initial_storage: u64, current_storage: u64, attached_deposit: u128) -> (r:
    Result<u128, OracleError>)
    ensures
        current_storage > initial_storage ==> {
            let required = (current_storage - initial_storage) * STORAGE_PRICE_PER_BYTE;
            &&& required > attached_deposit ==> r == Err::<u128, OracleError>(
                OracleError::InsufficientDeposit,
            )
            &&& required <= attached_deposit ==> r == Ok::<u128, OracleError>(
                (attached_deposit - required) as u128,
            )
        },
        current_storage <= initial_storage ==> {
            let refund = attached_deposit + (initial_storage - current_storage)
                * STORAGE_PRICE_PER_BYTE;
            &&& refund > u128::MAX ==> r == Err::<u128, OracleError>(
                OracleError::ArithmeticOverflow,
            )
            &&& refund <= u128::MAX ==> r == Ok::<u128, OracleError>(refund as u128)
        },
{
    if current_storage > initial_storage {
        let bytes = (current_storage - initial_storage) as u128;
        if bytes > u128::MAX / STORAGE_PRICE_PER_BYTE {
            proof {
                assert(bytes * STORAGE_PRICE_PER_BYTE > u128::MAX) by (nonlinear_arith)
                    requires
                        bytes > u128::MAX / STORAGE_PRICE_PER_BYTE,
                ;
            }
            return Err(OracleError::InsufficientDeposit);
        }
        proof {
            assert(bytes * STORAGE_PRICE_PER_BYTE <= u128::MAX) by (nonlinear_arith)
                requires
                    bytes <= u128::MAX / STORAGE_PRICE_PER_BYTE,
            ;
        }
        let required = bytes * STORAGE_PRICE_PER_BYTE;
        if required > attached_deposit {
            return Err(OracleError::InsufficientDeposit);
        }
        Ok(attached_deposit - required)
    } else {
        let bytes = (initial_storage - current_storage) as u128;
        if bytes > u128::MAX / STORAGE_PRICE_PER_BYTE {
            proof {
                assert(bytes * STORAGE_PRICE_PER_BYTE > u128::MAX) by (nonlinear_arith)
                    requires
                        bytes > u128::MAX / STORAGE_PRICE_PER_BYTE,
                ;
            }
            return Err(OracleError::ArithmeticOverflow);
        }
        proof {
            assert(bytes * STORAGE_PRICE_PER_BYTE <= u128::MAX) by (nonlinear_arith)
                requires
                    bytes <= u128::MAX / STORAGE_PRICE_PER_BYTE,
            ;
        }
        let freed = bytes * STORAGE_PRICE_PER_BYTE;
        if freed > u128::MAX - attached_deposit {
            return Err(OracleError::ArithmeticOverflow);
        }
        Ok(attached_deposit + freed)
    }
}

/// Refuses a call that does not come from the contract itself.
pub fn assert_self(predecessor: &AccountId, current: &AccountId) -> (r: Result<(), OracleError>)
    ensures
        r is Ok <==> predecessor@ == current@,
        r is Err ==> r == Err::<(), OracleError>(OracleError::Unauthorized),
{
    if predecessor.eq(current) {
        Ok(())
    } else {
        Err(OracleError::Unauthorized)
    }
}

} // verus!
