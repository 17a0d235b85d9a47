//! The digit-by-digit integer square root, implemented for every primitive
//! integer type.
//!
//! Each unsigned implementation works the same way, within its own width. The
//! highest useful even shift is found first; shifting by the full width would
//! wrap to a shift by zero, so that amount is detected by comparing the
//! shifted value with the original instead of trusting it to reach zero. The
//! root is then built one bit per iteration, walking the shift back down to
//! zero: the candidate with a one in the next bit is kept exactly when its
//! square, which must not overflow, stays within the prefix of the input seen
//! so far.
//!
//! A negative input of a signed type has no integer square root and is
//! rejected up front. A non-negative value of a signed type fits the unsigned
//! type of the same width, so the construction runs there, still within the
//! input's own width; the root is no larger than the input, so it fits back
//! into the signed type.

use crate::floor_sqrt::{
    is_floor_sqrt, lemma_candidate_fits, lemma_digit_step, lemma_div_pow2_step, lemma_root_le,
};
use crate::IntegerSquareRoot;
use vstd::arithmetic::div_mod::{
    lemma_basic_div, lemma_div_is_ordered, lemma_div_is_ordered_by_denominator,
    lemma_div_is_strictly_smaller, lemma_div_nonincreasing, lemma_fundamental_div_mod,
};
use vstd::arithmetic::power2::{
    lemma2_to64, lemma_pow2_pos, lemma_pow2_strictly_increases, pow2,
};
use vstd::bits::{
    lemma_u16_shl_is_mul, lemma_u16_shr_is_div, lemma_u32_shl_is_mul, lemma_u32_shr_is_div,
    lemma_u64_shl_is_mul, lemma_u64_shr_is_div, lemma_u8_shl_is_mul, lemma_u8_shr_is_div,
    lemma_u128_shr_is_div, lemma_usize_shl_is_mul, lemma_usize_shr_is_div,
};
use vstd::layout::unsigned_int_max_values;
use vstd::prelude::*;

verus! {

impl IntegerSquareRoot for u8 {
    open spec fn as_int(&self) -> int {
        *self as int
    }

    fn integer_sqrt_checked(&self) -> (root: Option<u8>)
        ensures
            root is Some,
            root matches Some(r) ==> is_floor_sqrt(*self as int, r as int),
    {
        let n: u8 = *self;
        // Find greatest shift.
        let mut shift: u8 = 2;
        let mut n_shifted: u8 = n >> shift;
        proof {
            lemma_u8_shr_is_div(n, 2);
        }
        while n_shifted != 0 && n_shifted != n
            invariant
                2 <= shift <= 8,
                shift % 2 == 0,
                shift < 8 ==> n_shifted == n as int / pow2(shift as nat) as int,
                shift == 8 ==> n_shifted == n,
            decreases 8 - shift,
        {
            shift = shift + 2;
            if shift < 8 {
                n_shifted = n >> shift;
                proof {
                    lemma_u8_shr_is_div(n, shift);
                }
            } else {
                // Shifting by the full width would wrap to a shift by zero.
                n_shifted = n;
            }
        }
        proof {
            // However the loop exited, the prefix n / pow2(shift) is zero.
            lemma_pow2_pos(shift as nat);
            if shift == 8 {
                unsigned_int_max_values();
                lemma_basic_div(n as int, pow2(8) as int);
            } else if n_shifted == n && n > 0 {
                lemma2_to64();
                lemma_pow2_strictly_increases(0, shift as nat);
                lemma_div_is_strictly_smaller(n as int, pow2(shift as nat) as int);
            }
            assert(n as int / pow2(shift as nat) as int == 0);
        }
        shift = shift - 2;
        let ghost s0 = shift as nat;

        // Find digits of result.
        let mut result: u8 = 0;
        loop
            invariant_except_break
                n == *self,
                shift as nat <= s0,
                s0 + 2 <= 8,
                shift % 2 == 0,
                is_floor_sqrt(n as int / pow2((shift + 2) as nat) as int, result as int),
            ensures
                is_floor_sqrt(n as int, result as int),
            decreases shift,
        {
            let ghost r0 = result as int;
            let ghost x = n as int / pow2(shift as nat) as int;
            let ghost q = n as int / pow2((shift + 2) as nat) as int;
            proof {
                lemma_pow2_pos(shift as nat);
                lemma_pow2_pos((shift + 2) as nat);
                lemma_div_pow2_step(n as int, shift as nat);
                lemma_fundamental_div_mod(x, 4);
                // The doubled result and the candidate above it fit the width.
                if shift + 2 > 2 {
                    lemma_pow2_strictly_increases(2, (shift + 2) as nat);
                }
                lemma2_to64();
                lemma_div_is_ordered_by_denominator(n as int, 4, pow2((shift + 2) as nat) as int);
                lemma_div_is_ordered(n as int, u8::MAX as int, 4);
                lemma_candidate_fits(r0, q, u8::MAX as int);
                lemma_u8_shl_is_mul(result, 1);
            }
            result = result << 1u8;
            let candidate_result: u8 = result + 1;
            proof {
                lemma_u8_shr_is_div(n, shift);
                lemma_digit_step(x, q, r0);
                lemma_div_nonincreasing(n as int, pow2(shift as nat) as int);
            }
            if let Some(cr_square) = candidate_result.checked_mul(candidate_result) {
                if cr_square <= n >> shift {
                    result = candidate_result;
                }
            }
            proof {
                assert(is_floor_sqrt(x, result as int));
            }
            if shift == 0 {
                proof {
                    lemma2_to64();
                    assert(pow2(0) == 1);
                    assert(x == n as int);
                }
                break;
            }
            shift = shift - 2;
        }

        Some(result)
    }
}

impl IntegerSquareRoot for u16 {
    open spec fn as_int(&self) -> int {
        *self as int
    }

    fn integer_sqrt_checked(&self) -> (root: Option<u16>)
        ensures
            root is Some,
            root matches Some(r) ==> is_floor_sqrt(*self as int, r as int),
    {
        let n: u16 = *self;
        // Find greatest shift.
        let mut shift: u16 = 2;
        let mut n_shifted: u16 = n >> shift;
        proof {
            lemma_u16_shr_is_div(n, 2);
        }
        while n_shifted != 0 && n_shifted != n
            invariant
                2 <= shift <= 16,
                shift % 2 == 0,
                shift < 16 ==> n_shifted == n as int / pow2(shift as nat) as int,
                shift == 16 ==> n_shifted == n,
            decreases 16 - shift,
        {
            shift = shift + 2;
            if shift < 16 {
                n_shifted = n >> shift;
                proof {
                    lemma_u16_shr_is_div(n, shift);
                }
            } else {
                // Shifting by the full width would wrap to a shift by zero.
                n_shifted = n;
            }
        }
        proof {
            // However the loop exited, the prefix n / pow2(shift) is zero.
            lemma_pow2_pos(shift as nat);
            if shift == 16 {
                unsigned_int_max_values();
                lemma_basic_div(n as int, pow2(16) as int);
            } else if n_shifted == n && n > 0 {
                lemma2_to64();
                lemma_pow2_strictly_increases(0, shift as nat);
                lemma_div_is_strictly_smaller(n as int, pow2(shift as nat) as int);
            }
            assert(n as int / pow2(shift as nat) as int == 0);
        }
        shift = shift - 2;
        let ghost s0 = shift as nat;

        // Find digits of result.
        let mut result: u16 = 0;
        loop
            invariant_except_break
                n == *self,
                shift as nat <= s0,
                s0 + 2 <= 16,
                shift % 2 == 0,
                is_floor_sqrt(n as int / pow2((shift + 2) as nat) as int, result as int),
            ensures
                is_floor_sqrt(n as int, result as int),
            decreases shift,
        {
            let ghost r0 = result as int;
            let ghost x = n as int / pow2(shift as nat) as int;
            let ghost q = n as int / pow2((shift + 2) as nat) as int;
            proof {
                lemma_pow2_pos(shift as nat);
                lemma_pow2_pos((shift + 2) as nat);
                lemma_div_pow2_step(n as int, shift as nat);
                lemma_fundamental_div_mod(x, 4);
                // The doubled result and the candidate above it fit the width.
                if shift + 2 > 2 {
                    lemma_pow2_strictly_increases(2, (shift + 2) as nat);
                }
                lemma2_to64();
                lemma_div_is_ordered_by_denominator(n as int, 4, pow2((shift + 2) as nat) as int);
                lemma_div_is_ordered(n as int, u16::MAX as int, 4);
                lemma_candidate_fits(r0, q, u16::MAX as int);
                lemma_u16_shl_is_mul(result, 1);
            }
            result = result << 1u16;
            let candidate_result: u16 = result + 1;
            proof {
                lemma_u16_shr_is_div(n, shift);
                lemma_digit_step(x, q, r0);
                lemma_div_nonincreasing(n as int, pow2(shift as nat) as int);
            }
            if let Some(cr_square) = candidate_result.checked_mul(candidate_result) {
                if cr_square <= n >> shift {
                    result = candidate_result;
                }
            }
            proof {
                assert(is_floor_sqrt(x, result as int));
            }
            if shift == 0 {
                proof {
                    lemma2_to64();
                    assert(pow2(0) == 1);
                    assert(x == n as int);
                }
                break;
            }
            shift = shift - 2;
        }

        Some(result)
    }
}

impl IntegerSquareRoot for u32 {
    open spec fn as_int(&self) -> int {
        *self as int
    }

    fn integer_sqrt_checked(&self) -> (root: Option<u32>)
        ensures
            root is Some,
            root matches Some(r) ==> is_floor_sqrt(*self as int, r as int),
    {
        let n: u32 = *self;
        // Find greatest shift.
        let mut shift: u32 = 2;
        let mut n_shifted: u32 = n >> shift;
        proof {
            lemma_u32_shr_is_div(n, 2);
        }
        while n_shifted != 0 && n_shifted != n
            invariant
                2 <= shift <= 32,
                shift % 2 == 0,
                shift < 32 ==> n_shifted == n as int / pow2(shift as nat) as int,
                shift == 32 ==> n_shifted == n,
            decreases 32 - shift,
        {
            shift = shift + 2;
            if shift < 32 {
                n_shifted = n >> shift;
                proof {
                    lemma_u32_shr_is_div(n, shift);
                }
            } else {
                // Shifting by the full width would wrap to a shift by zero.
                n_shifted = n;
            }
        }
        proof {
            // However the loop exited, the prefix n / pow2(shift) is zero.
            lemma_pow2_pos(shift as nat);
            if shift == 32 {
                unsigned_int_max_values();
                lemma_basic_div(n as int, pow2(32) as int);
            } else if n_shifted == n && n > 0 {
                lemma2_to64();
                lemma_pow2_strictly_increases(0, shift as nat);
                lemma_div_is_strictly_smaller(n as int, pow2(shift as nat) as int);
            }
            assert(n as int / pow2(shift as nat) as int == 0);
        }
        shift = shift - 2;
        let ghost s0 = shift as nat;

        // Find digits of result.
        let mut result: u32 = 0;
        loop
            invariant_except_break
                n == *self,
                shift as nat <= s0,
                s0 + 2 <= 32,
                shift % 2 == 0,
                is_floor_sqrt(n as int / pow2((shift + 2) as nat) as int, result as int),
            ensures
                is_floor_sqrt(n as int, result as int),
            decreases shift,
        {
            let ghost r0 = result as int;
            let ghost x = n as int / pow2(shift as nat) as int;
            let ghost q = n as int / pow2((shift + 2) as nat) as int;
            proof {
                lemma_pow2_pos(shift as nat);
                lemma_pow2_pos((shift + 2) as nat);
                lemma_div_pow2_step(n as int, shift as nat);
                lemma_fundamental_div_mod(x, 4);
                // The doubled result and the candidate above it fit the width.
                if shift + 2 > 2 {
                    lemma_pow2_strictly_increases(2, (shift + 2) as nat);
                }
                lemma2_to64();
                lemma_div_is_ordered_by_denominator(n as int, 4, pow2((shift + 2) as nat) as int);
                lemma_div_is_ordered(n as int, u32::MAX as int, 4);
                lemma_candidate_fits(r0, q, u32::MAX as int);
                lemma_u32_shl_is_mul(result, 1);
            }
            result = result << 1u32;
            let candidate_result: u32 = result + 1;
            proof {
                lemma_u32_shr_is_div(n, shift);
                lemma_digit_step(x, q, r0);
                lemma_div_nonincreasing(n as int, pow2(shift as nat) as int);
            }
            if let Some(cr_square) = candidate_result.checked_mul(candidate_result) {
                if cr_square <= n >> shift {
                    result = candidate_result;
                }
            }
            proof {
                assert(is_floor_sqrt(x, result as int));
            }
            if shift == 0 {
                proof {
                    lemma2_to64();
                    assert(pow2(0) == 1);
                    assert(x == n as int);
                }
                break;
            }
            shift = shift - 2;
        }

        Some(result)
    }
}

impl IntegerSquareRoot for u64 {
    open spec fn as_int(&self) -> int {
        *self as int
    }

    fn integer_sqrt_checked(&self) -> (root: Option<u64>)
        ensures
            root is Some,
            root matches Some(r) ==> is_floor_sqrt(*self as int, r as int),
    {
        let n: u64 = *self;
        // Find greatest shift.
        let mut shift: u64 = 2;
        let mut n_shifted: u64 = n >> shift;
        proof {
            lemma_u64_shr_is_div(n, 2);
        }
        while n_shifted != 0 && n_shifted != n
            invariant
                2 <= shift <= 64,
                shift % 2 == 0,
                shift < 64 ==> n_shifted == n as int / pow2(shift as nat) as int,
                shift == 64 ==> n_shifted == n,
            decreases 64 - shift,
        {
            shift = shift + 2;
            if shift < 64 {
                n_shifted = n >> shift;
                proof {
                    lemma_u64_shr_is_div(n, shift);
                }
            } else {
                // Shifting by the full width would wrap to a shift by zero.
                n_shifted = n;
            }
        }
        proof {
            // However the loop exited, the prefix n / pow2(shift) is zero.
            lemma_pow2_pos(shift as nat);
            if shift == 64 {
                unsigned_int_max_values();
                lemma_basic_div(n as int, pow2(64) as int);
            } else if n_shifted == n && n > 0 {
                lemma2_to64();
                lemma_pow2_strictly_increases(0, shift as nat);
                lemma_div_is_strictly_smaller(n as int, pow2(shift as nat) as int);
            }
            assert(n as int / pow2(shift as nat) as int == 0);
        }
        shift = shift - 2;
        let ghost s0 = shift as nat;

        // Find digits of result.
        let mut result: u64 = 0;
        loop
            invariant_except_break
                n == *self,
                shift as nat <= s0,
                s0 + 2 <= 64,
                shift % 2 == 0,
                is_floor_sqrt(n as int / pow2((shift + 2) as nat) as int, result as int),
            ensures
                is_floor_sqrt(n as int, result as int),
            decreases shift,
        {
            let ghost r0 = result as int;
            let ghost x = n as int / pow2(shift as nat) as int;
            let ghost q = n as int / pow2((shift + 2) as nat) as int;
            proof {
                lemma_pow2_pos(shift as nat);
                lemma_pow2_pos((shift + 2) as nat);
                lemma_div_pow2_step(n as int, shift as nat);
                lemma_fundamental_div_mod(x, 4);
                // The doubled result and the candidate above it fit the width.
                if shift + 2 > 2 {
                    lemma_pow2_strictly_increases(2, (shift + 2) as nat);
                }
                lemma2_to64();
                lemma_div_is_ordered_by_denominator(n as int, 4, pow2((shift + 2) as nat) as int);
                lemma_div_is_ordered(n as int, u64::MAX as int, 4);
                lemma_candidate_fits(r0, q, u64::MAX as int);
                lemma_u64_shl_is_mul(result, 1);
            }
            result = result << 1u64;
            let candidate_result: u64 = result + 1;
            proof {
                lemma_u64_shr_is_div(n, shift);
                lemma_digit_step(x, q, r0);
                lemma_div_nonincreasing(n as int, pow2(shift as nat) as int);
            }
            if let Some(cr_square) = candidate_result.checked_mul(candidate_result) {
                if cr_square <= n >> shift {
                    result = candidate_result;
                }
            }
            proof {
                assert(is_floor_sqrt(x, result as int));
            }
            if shift == 0 {
                proof {
                    lemma2_to64();
                    assert(pow2(0) == 1);
                    assert(x == n as int);
                }
                break;
            }
            shift = shift - 2;
        }

        Some(result)
    }
}

impl IntegerSquareRoot for u128 {
    open spec fn as_int(&self) -> int {
        *self as int
    }

    fn integer_sqrt_checked(&self) -> (root: Option<u128>)
        ensures
            root is Some,
            root matches Some(r) ==> is_floor_sqrt(*self as int, r as int),
    {
        let n: u128 = *self;
        // Find greatest shift.
        let mut shift: u128 = 2;
        let mut n_shifted: u128 = n >> shift;
        proof {
            lemma_u128_shr_is_div(n, 2);
        }
        while n_shifted != 0 && n_shifted != n
            invariant
                2 <= shift <= 128,
                shift % 2 == 0,
                shift < 128 ==> n_shifted == n as int / pow2(shift as nat) as int,
                shift == 128 ==> n_shifted == n,
            decreases 128 - shift,
        {
            shift = shift + 2;
            if shift < 128 {
                n_shifted = n >> shift;
                proof {
                    lemma_u128_shr_is_div(n, shift);
                }
            } else {
                // Shifting by the full width would wrap to a shift by zero.
                n_shifted = n;
            }
        }
        proof {
            // However the loop exited, the prefix n / pow2(shift) is zero.
            lemma_pow2_pos(shift as nat);
            if shift == 128 {
                unsigned_int_max_values();
                lemma_basic_div(n as int, pow2(128) as int);
            } else if n_shifted == n && n > 0 {
                lemma2_to64();
                lemma_pow2_strictly_increases(0, shift as nat);
                lemma_div_is_strictly_smaller(n as int, pow2(shift as nat) as int);
            }
            assert(n as int / pow2(shift as nat) as int == 0);
        }
        shift = shift - 2;
        let ghost s0 = shift as nat;

        // Find digits of result.
        let mut result: u128 = 0;
        loop
            invariant_except_break
                n == *self,
                shift as nat <= s0,
                s0 + 2 <= 128,
                shift % 2 == 0,
                is_floor_sqrt(n as int / pow2((shift + 2) as nat) as int, result as int),
            ensures
                is_floor_sqrt(n as int, result as int),
            decreases shift,
        {
            let ghost r0 = result as int;
            let ghost x = n as int / pow2(shift as nat) as int;
            let ghost q = n as int / pow2((shift + 2) as nat) as int;
            proof {
                lemma_pow2_pos(shift as nat);
                lemma_pow2_pos((shift + 2) as nat);
                lemma_div_pow2_step(n as int, shift as nat);
                lemma_fundamental_div_mod(x, 4);
                // The doubled result and the candidate above it fit the width.
                if shift + 2 > 2 {
                    lemma_pow2_strictly_increases(2, (shift + 2) as nat);
                }
                lemma2_to64();
                lemma_div_is_ordered_by_denominator(n as int, 4, pow2((shift + 2) as nat) as int);
                lemma_div_is_ordered(n as int, u128::MAX as int, 4);
                lemma_candidate_fits(r0, q, u128::MAX as int);
                assert(result << 1u128 == result * 2) by (bit_vector)
                    requires
                        result <= u128::MAX / 2,
                ;
            }
            result = result << 1u128;
            let candidate_result: u128 = result + 1;
            proof {
                lemma_u128_shr_is_div(n, shift);
                lemma_digit_step(x, q, r0);
                lemma_div_nonincreasing(n as int, pow2(shift as nat) as int);
            }
            if let Some(cr_square) = candidate_result.checked_mul(candidate_result) {
                if cr_square <= n >> shift {
                    result = candidate_result;
                }
            }
            proof {
                assert(is_floor_sqrt(x, result as int));
            }
            if shift == 0 {
                proof {
                    lemma2_to64();
                    assert(pow2(0) == 1);
                    assert(x == n as int);
                }
                break;
            }
            shift = shift - 2;
        }

        Some(result)
    }
}

impl IntegerSquareRoot for usize {
    open spec fn as_int(&self) -> int {
        *self as int
    }

    fn integer_sqrt_checked(&self) -> (root: Option<usize>)
        ensures
            root is Some,
            root matches Some(r) ==> is_floor_sqrt(*self as int, r as int),
    {
        let width: usize = usize::BITS as usize;
        let n: usize = *self;
        // Find greatest shift.
        let mut shift: usize = 2;
        let mut n_shifted: usize = n >> shift;
        proof {
            lemma_usize_shr_is_div(n, 2);
        }
        while n_shifted != 0 && n_shifted != n
            invariant
                width == usize::BITS,
                2 <= shift <= width,
                shift % 2 == 0,
                shift < width ==> n_shifted == n as int / pow2(shift as nat) as int,
                shift == width ==> n_shifted == n,
            decreases width - shift,
        {
            shift = shift + 2;
            if shift < width {
                n_shifted = n >> shift;
                proof {
                    lemma_usize_shr_is_div(n, shift);
                }
            } else {
                // Shifting by the full width would wrap to a shift by zero.
                n_shifted = n;
            }
        }
        proof {
            // However the loop exited, the prefix n / pow2(shift) is zero.
            lemma_pow2_pos(shift as nat);
            if shift == width {
                unsigned_int_max_values();
                lemma_basic_div(n as int, pow2(usize::BITS as nat) as int);
            } else if n_shifted == n && n > 0 {
                lemma2_to64();
                lemma_pow2_strictly_increases(0, shift as nat);
                lemma_div_is_strictly_smaller(n as int, pow2(shift as nat) as int);
            }
            assert(n as int / pow2(shift as nat) as int == 0);
        }
        shift = shift - 2;
        let ghost s0 = shift as nat;

        // Find digits of result.
        let mut result: usize = 0;
        loop
            invariant_except_break
                n == *self,
                shift as nat <= s0,
                s0 + 2 <= usize::BITS,
                shift % 2 == 0,
                is_floor_sqrt(n as int / pow2((shift + 2) as nat) as int, result as int),
            ensures
                is_floor_sqrt(n as int, result as int),
            decreases shift,
        {
            let ghost r0 = result as int;
            let ghost x = n as int / pow2(shift as nat) as int;
            let ghost q = n as int / pow2((shift + 2) as nat) as int;
            proof {
                lemma_pow2_pos(shift as nat);
                lemma_pow2_pos((shift + 2) as nat);
                lemma_div_pow2_step(n as int, shift as nat);
                lemma_fundamental_div_mod(x, 4);
                // The doubled result and the candidate above it fit the width.
                if shift + 2 > 2 {
                    lemma_pow2_strictly_increases(2, (shift + 2) as nat);
                }
                lemma2_to64();
                lemma_div_is_ordered_by_denominator(n as int, 4, pow2((shift + 2) as nat) as int);
                lemma_div_is_ordered(n as int, usize::MAX as int, 4);
                lemma_candidate_fits(r0, q, usize::MAX as int);
                lemma_usize_shl_is_mul(result, 1);
            }
            result = result << 1usize;
            let candidate_result: usize = result + 1;
            proof {
                lemma_usize_shr_is_div(n, shift);
                lemma_digit_step(x, q, r0);
                lemma_div_nonincreasing(n as int, pow2(shift as nat) as int);
            }
            if let Some(cr_square) = candidate_result.checked_mul(candidate_result) {
                if cr_square <= n >> shift {
                    result = candidate_result;
                }
            }
            proof {
                assert(is_floor_sqrt(x, result as int));
            }
            if shift == 0 {
                proof {
                    lemma2_to64();
                    assert(pow2(0) == 1);
                    assert(x == n as int);
                }
                break;
            }
            shift = shift - 2;
        }

        Some(result)
    }
}

impl IntegerSquareRoot for i8 {
    open spec fn as_int(&self) -> int {
        *self as int
    }

    fn integer_sqrt_checked(&self) -> (root: Option<i8>)
        ensures
            root is None <==> *self < 0,
            root matches Some(r) ==> is_floor_sqrt(*self as int, r as int),
    {
        if *self < 0 {
            return None;
        }
        let n: u8 = *self as u8;
        match n.integer_sqrt_checked() {
            Some(r) => {
                proof {
                    lemma_root_le(r as int, n as int);
                }
                Some(r as i8)
            },
            None => None,
        }
    }
}

impl IntegerSquareRoot for i16 {
    open spec fn as_int(&self) -> int {
        *self as int
    }

    fn integer_sqrt_checked(&self) -> (root: Option<i16>)
        ensures
            root is None <==> *self < 0,
            root matches Some(r) ==> is_floor_sqrt(*self as int, r as int),
    {
        if *self < 0 {
            return None;
        }
        let n: u16 = *self as u16;
        match n.integer_sqrt_checked() {
            Some(r) => {
                proof {
                    lemma_root_le(r as int, n as int);
                }
                Some(r as i16)
            },
            None => None,
        }
    }
}

impl IntegerSquareRoot for i32 {
    open spec fn as_int(&self) -> int {
        *self as int
    }

    fn integer_sqrt_checked(&self) -> (root: Option<i32>)
        ensures
            root is None <==> *self < 0,
            root matches Some(r) ==> is_floor_sqrt(*self as int, r as int),
    {
        if *self < 0 {
            return None;
        }
        let n: u32 = *self as u32;
        match n.integer_sqrt_checked() {
            Some(r) => {
                proof {
                    lemma_root_le(r as int, n as int);
                }
                Some(r as i32)
            },
            None => None,
        }
    }
}

impl IntegerSquareRoot for i64 {
    open spec fn as_int(&self) -> int {
        *self as int
    }

    fn integer_sqrt_checked(&self) -> (root: Option<i64>)
        ensures
            root is None <==> *self < 0,
            root matches Some(r) ==> is_floor_sqrt(*self as int, r as int),
    {
        if *self < 0 {
            return None;
        }
        let n: u64 = *self as u64;
        match n.integer_sqrt_checked() {
            Some(r) => {
                proof {
                    lemma_root_le(r as int, n as int);
                }
                Some(r as i64)
            },
            None => None,
        }
    }
}

impl IntegerSquareRoot for i128 {
    open spec fn as_int(&self) -> int {
        *self as int
    }

    fn integer_sqrt_checked(&self) -> (root: Option<i128>)
        ensures
            root is None <==> *self < 0,
            root matches Some(r) ==> is_floor_sqrt(*self as int, r as int),
    {
        if *self < 0 {
            return None;
        }
        let n: u128 = *self as u128;
        match n.integer_sqrt_checked() {
            Some(r) => {
                proof {
                    lemma_root_le(r as int, n as int);
                }
                Some(r as i128)
            },
            None => None,
        }
    }
}

impl IntegerSquareRoot for isize {
    open spec fn as_int(&self) -> int {
        *self as int
    }

    fn integer_sqrt_checked(&self) -> (root: Option<isize>)
        ensures
            root is None <==> *self < 0,
            root matches Some(r) ==> is_floor_sqrt(*self as int, r as int),
    {
        if *self < 0 {
            return None;
        }
        let n: usize = *self as usize;
        match n.integer_sqrt_checked() {
            Some(r) => {
                proof {
                    lemma_root_le(r as int, n as int);
                }
                Some(r as isize)
            },
            None => None,
        }
    }
}


} // verus!
