//! [`Bounded`] and [`Stepped`] for the primitive integer types.
//!
//! A value's position is its own integer value, and a step is one, taken
//! with saturating arithmetic so that it never leaves the type's range.
use crate::traits::{Bounded, Stepped};
use vstd::prelude::*;

verus! {

impl Bounded for u8 {
    open spec fn rank(&self) -> int {
        *self as int
    }

    open spec fn min_rank() -> int {
        u8::MIN as int
    }

    open spec fn max_rank() -> int {
        u8::MAX as int
    }

    open spec fn at_rank(k: int) -> Self {
        k as u8
    }

    proof fn lemma_at_rank(k: int) {
    }

    proof fn lemma_rank_bounds(v: Self) {
    }

    proof fn lemma_rank_injective(a: Self, b: Self) {
    }

    fn min_val() -> (r: Self) {
        u8::MIN
    }

    fn max_val() -> (r: Self) {
        u8::MAX
    }

    fn not_after(&self, other: &Self) -> (r: bool) {
        *self <= *other
    }
}

impl Stepped for u8 {
    fn step() -> Self {
        1
    }

    fn increment(&self) -> (r: Self) {
        if *self < u8::MAX {
            *self + 1
        } else {
            *self
        }
    }

    fn decrement(&self) -> (r: Self) {
        if *self > u8::MIN {
            *self - 1
        } else {
            *self
        }
    }
}

impl Bounded for u16 {
    open spec fn rank(&self) -> int {
        *self as int
    }

    open spec fn min_rank() -> int {
        u16::MIN as int
    }

    open spec fn max_rank() -> int {
        u16::MAX as int
    }

    open spec fn at_rank(k: int) -> Self {
        k as u16
    }

    proof fn lemma_at_rank(k: int) {
    }

    proof fn lemma_rank_bounds(v: Self) {
    }

    proof fn lemma_rank_injective(a: Self, b: Self) {
    }

    fn min_val() -> (r: Self) {
        u16::MIN
    }

    fn max_val() -> (r: Self) {
        u16::MAX
    }

    fn not_after(&self, other: &Self) -> (r: bool) {
        *self <= *other
    }
}

impl Stepped for u16 {
    fn step() -> Self {
        1
    }

    fn increment(&self) -> (r: Self) {
        if *self < u16::MAX {
            *self + 1
        } else {
            *self
        }
    }

    fn decrement(&self) -> (r: Self) {
        if *self > u16::MIN {
            *self - 1
        } else {
            *self
        }
    }
}

impl Bounded for u32 {
    open spec fn rank(&self) -> int {
        *self as int
    }

    open spec fn min_rank() -> int {
        u32::MIN as int
    }

    open spec fn max_rank() -> int {
        u32::MAX as int
    }

    open spec fn at_rank(k: int) -> Self {
        k as u32
    }

    proof fn lemma_at_rank(k: int) {
    }

    proof fn lemma_rank_bounds(v: Self) {
    }

    proof fn lemma_rank_injective(a: Self, b: Self) {
    }

    fn min_val() -> (r: Self) {
        u32::MIN
    }

    fn max_val() -> (r: Self) {
        u32::MAX
    }

    fn not_after(&self, other: &Self) -> (r: bool) {
        *self <= *other
    }
}

impl Stepped for u32 {
    fn step() -> Self {
        1
    }

    fn increment(&self) -> (r: Self) {
        if *self < u32::MAX {
            *self + 1
        } else {
            *self
        }
    }

    fn decrement(&self) -> (r: Self) {
        if *self > u32::MIN {
            *self - 1
        } else {
            *self
        }
    }
}

impl Bounded for u64 {
    open spec fn rank(&self) -> int {
        *self as int
    }

    open spec fn min_rank() -> int {
        u64::MIN as int
    }

    open spec fn max_rank() -> int {
        u64::MAX as int
    }

    open spec fn at_rank(k: int) -> Self {
        k as u64
    }

    proof fn lemma_at_rank(k: int) {
    }

    proof fn lemma_rank_bounds(v: Self) {
    }

    proof fn lemma_rank_injective(a: Self, b: Self) {
    }

    fn min_val() -> (r: Self) {
        u64::MIN
    }

    fn max_val() -> (r: Self) {
        u64::MAX
    }

    fn not_after(&self, other: &Self) -> (r: bool) {
        *self <= *other
    }
}

impl Stepped for u64 {
    fn step() -> Self {
        1
    }

    fn increment(&self) -> (r: Self) {
        if *self < u64::MAX {
            *self + 1
        } else {
            *self
        }
    }

    fn decrement(&self) -> (r: Self) {
        if *self > u64::MIN {
            *self - 1
        } else {
            *self
        }
    }
}

impl Bounded for u128 {
    open spec fn rank(&self) -> int {
        *self as int
    }

    open spec fn min_rank() -> int {
        u128::MIN as int
    }

    open spec fn max_rank() -> int {
        u128::MAX as int
    }

    open spec fn at_rank(k: int) -> Self {
        k as u128
    }

    proof fn lemma_at_rank(k: int) {
    }

    proof fn lemma_rank_bounds(v: Self) {
    }

    proof fn lemma_rank_injective(a: Self, b: Self) {
    }

    fn min_val() -> (r: Self) {
        u128::MIN
    }

    fn max_val() -> (r: Self) {
        u128::MAX
    }

    fn not_after(&self, other: &Self) -> (r: bool) {
        *self <= *other
    }
}

impl Stepped for u128 {
    fn step() -> Self {
        1
    }

    fn increment(&self) -> (r: Self) {
        if *self < u128::MAX {
            *self + 1
        } else {
            *self
        }
    }

    fn decrement(&self) -> (r: Self) {
        if *self > u128::MIN {
            *self - 1
        } else {
            *self
        }
    }
}

impl Bounded for usize {
    open spec fn rank(&self) -> int {
        *self as int
    }

    open spec fn min_rank() -> int {
        usize::MIN as int
    }

    open spec fn max_rank() -> int {
        usize::MAX as int
    }

    open spec fn at_rank(k: int) -> Self {
        k as usize
    }

    proof fn lemma_at_rank(k: int) {
    }

    proof fn lemma_rank_bounds(v: Self) {
    }

    proof fn lemma_rank_injective(a: Self, b: Self) {
    }

    fn min_val() -> (r: Self) {
        usize::MIN
    }

    fn max_val() -> (r: Self) {
        usize::MAX
    }

    fn not_after(&self, other: &Self) -> (r: bool) {
        *self <= *other
    }
}

impl Stepped for usize {
    fn step() -> Self {
        1
    }

    fn increment(&self) -> (r: Self) {
        if *self < usize::MAX {
            *self + 1
        } else {
            *self
        }
    }

    fn decrement(&self) -> (r: Self) {
        if *self > usize::MIN {
            *self - 1
        } else {
            *self
        }
    }
}

impl Bounded for i8 {
    open spec fn rank(&self) -> int {
        *self as int
    }

    open spec fn min_rank() -> int {
        i8::MIN as int
    }

    open spec fn max_rank() -> int {
        i8::MAX as int
    }

    open spec fn at_rank(k: int) -> Self {
        k as i8
    }

    proof fn lemma_at_rank(k: int) {
    }

    proof fn lemma_rank_bounds(v: Self) {
    }

    proof fn lemma_rank_injective(a: Self, b: Self) {
    }

    fn min_val() -> (r: Self) {
        i8::MIN
    }

    fn max_val() -> (r: Self) {
        i8::MAX
    }

    fn not_after(&self, other: &Self) -> (r: bool) {
        *self <= *other
    }
}

impl Stepped for i8 {
    fn step() -> Self {
        1
    }

    fn increment(&self) -> (r: Self) {
        if *self < i8::MAX {
            *self + 1
        } else {
            *self
        }
    }

    fn decrement(&self) -> (r: Self) {
        if *self > i8::MIN {
            *self - 1
        } else {
            *self
        }
    }
}

impl Bounded for i16 {
    open spec fn rank(&self) -> int {
        *self as int
    }

    open spec fn min_rank() -> int {
        i16::MIN as int
    }

    open spec fn max_rank() -> int {
        i16::MAX as int
    }

    open spec fn at_rank(k: int) -> Self {
        k as i16
    }

    proof fn lemma_at_rank(k: int) {
    }

    proof fn lemma_rank_bounds(v: Self) {
    }

    proof fn lemma_rank_injective(a: Self, b: Self) {
    }

    fn min_val() -> (r: Self) {
        i16::MIN
    }

    fn max_val() -> (r: Self) {
        i16::MAX
    }

    fn not_after(&self, other: &Self) -> (r: bool) {
        *self <= *other
    }
}

impl Stepped for i16 {
    fn step() -> Self {
        1
    }

    fn increment(&self) -> (r: Self) {
        if *self < i16::MAX {
            *self + 1
        } else {
            *self
        }
    }

    fn decrement(&self) -> (r: Self) {
        if *self > i16::MIN {
            *self - 1
        } else {
            *self
        }
    }
}

impl Bounded for i32 {
    open spec fn rank(&self) -> int {
        *self as int
    }

    open spec fn min_rank() -> int {
        i32::MIN as int
    }

    open spec fn max_rank() -> int {
        i32::MAX as int
    }

    open spec fn at_rank(k: int) -> Self {
        k as i32
    }

    proof fn lemma_at_rank(k: int) {
    }

    proof fn lemma_rank_bounds(v: Self) {
    }

    proof fn lemma_rank_injective(a: Self, b: Self) {
    }

    fn min_val() -> (r: Self) {
        i32::MIN
    }

    fn max_val() -> (r: Self) {
        i32::MAX
    }

    fn not_after(&self, other: &Self) -> (r: bool) {
        *self <= *other
    }
}

impl Stepped for i32 {
    fn step() -> Self {
        1
    }

    fn increment(&self) -> (r: Self) {
        if *self < i32::MAX {
            *self + 1
        } else {
            *self
        }
    }

    fn decrement(&self) -> (r: Self) {
        if *self > i32::MIN {
            *self - 1
        } else {
            *self
        }
    }
}

impl Bounded for i64 {
    open spec fn rank(&self) -> int {
        *self as int
    }

    open spec fn min_rank() -> int {
        i64::MIN as int
    }

    open spec fn max_rank() -> int {
        i64::MAX as int
    }

    open spec fn at_rank(k: int) -> Self {
        k as i64
    }

    proof fn lemma_at_rank(k: int) {
    }

    proof fn lemma_rank_bounds(v: Self) {
    }

    proof fn lemma_rank_injective(a: Self, b: Self) {
    }

    fn min_val() -> (r: Self) {
        i64::MIN
    }

    fn max_val() -> (r: Self) {
        i64::MAX
    }

    fn not_after(&self, other: &Self) -> (r: bool) {
        *self <= *other
    }
}

impl Stepped for i64 {
    fn step() -> Self {
        1
    }

    fn increment(&self) -> (r: Self) {
        if *self < i64::MAX {
            *self + 1
        } else {
            *self
        }
    }

    fn decrement(&self) -> (r: Self) {
        if *self > i64::MIN {
            *self - 1
        } else {
            *self
        }
    }
}

impl Bounded for i128 {
    open spec fn rank(&self) -> int {
        *self as int
    }

    open spec fn min_rank() -> int {
        i128::MIN as int
    }

    open spec fn max_rank() -> int {
        i128::MAX as int
    }

    open spec fn at_rank(k: int) -> Self {
        k as i128
    }

    proof fn lemma_at_rank(k: int) {
    }

    proof fn lemma_rank_bounds(v: Self) {
    }

    proof fn lemma_rank_injective(a: Self, b: Self) {
    }

    fn min_val() -> (r: Self) {
        i128::MIN
    }

    fn max_val() -> (r: Self) {
        i128::MAX
    }

    fn not_after(&self, other: &Self) -> (r: bool) {
        *self <= *other
    }
}

impl Stepped for i128 {
    fn step() -> Self {
        1
    }

    fn increment(&self) -> (r: Self) {
        if *self < i128::MAX {
            *self + 1
        } else {
            *self
        }
    }

    fn decrement(&self) -> (r: Self) {
        if *self > i128::MIN {
            *self - 1
        } else {
            *self
        }
    }
}

impl Bounded for isize {
    open spec fn rank(&self) -> int {
        *self as int
    }

    open spec fn min_rank() -> int {
        isize::MIN as int
    }

    open spec fn max_rank() -> int {
        isize::MAX as int
    }

    open spec fn at_rank(k: int) -> Self {
        k as isize
    }

    proof fn lemma_at_rank(k: int) {
    }

    proof fn lemma_rank_bounds(v: Self) {
    }

    proof fn lemma_rank_injective(a: Self, b: Self) {
    }

    fn min_val() -> (r: Self) {
        isize::MIN
    }

    fn max_val() -> (r: Self) {
        isize::MAX
    }

    fn not_after(&self, other: &Self) -> (r: bool) {
        *self <= *other
    }
}

impl Stepped for isize {
    fn step() -> Self {
        1
    }

    fn increment(&self) -> (r: Self) {
        if *self < isize::MAX {
            *self + 1
        } else {
            *self
        }
    }

    fn decrement(&self) -> (r: Self) {
        if *self > isize::MIN {
            *self - 1
        } else {
            *self
        }
    }
}

} // verus!
