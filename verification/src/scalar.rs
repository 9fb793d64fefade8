use vstd::prelude::*;

verus! {

/// A totally ordered type with a least and a greatest value.
///
/// `rank` places the values on the integer line; the order of the type is
/// the order of the ranks.
pub trait Bounded: Sized + Copy {
    /// The place of the value on the integer line.
    spec fn rank(self) -> int;

    /// The least value of the type.
    spec fn lowest() -> Self;

    /// The greatest value of the type.
    spec fn highest() -> Self;

    /// Values at the same place are the same value.
    proof fn lemma_rank_injective(a: Self, b: Self)
        requires
            a.rank() == b.rank(),
        ensures
            a == b,
    ;

    /// Every value lies between the least and the greatest one.
    proof fn lemma_rank_bounds(a: Self)
        ensures
            Self::lowest().rank() <= a.rank() <= Self::highest().rank(),
    ;

    /// The least value of the type.
    fn min_value() -> (r: Self)
        ensures
            r == Self::lowest(),
    ;

    /// The greatest value of the type.
    fn max_value() -> (r: Self)
        ensures
            r == Self::highest(),
    ;

    /// Whether the value is `other` or comes before it.
    fn at_most(&self, other: &Self) -> (r: bool)
        ensures
            r == (self.rank() <= other.rank()),
    ;
}

/// `num_traits::Bounded::min_value` at `i32`: the least value of the type.
#[verifier::external_body]
fn i32_min_value() -> (r: i32)
    ensures
        r == i32::MIN,
{
    num_traits::Bounded::min_value()
}

/// `num_traits::Bounded::max_value` at `i32`: the greatest value of the type.
#[verifier::external_body]
fn i32_max_value() -> (r: i32)
    ensures
        r == i32::MAX,
{
    num_traits::Bounded::max_value()
}

/// `num_traits::Bounded::min_value` at `i64`: the least value of the type.
#[verifier::external_body]
fn i64_min_value() -> (r: i64)
    ensures
        r == i64::MIN,
{
    num_traits::Bounded::min_value()
}

/// `num_traits::Bounded::max_value` at `i64`: the greatest value of the type.
#[verifier::external_body]
fn i64_max_value() -> (r: i64)
    ensures
        r == i64::MAX,
{
    num_traits::Bounded::max_value()
}

/// `num_traits::Bounded::min_value` at `u32`: the least value of the type.
#[verifier::external_body]
fn u32_min_value() -> (r: u32)
    ensures
        r == u32::MIN,
{
    num_traits::Bounded::min_value()
}

/// `num_traits::Bounded::max_value` at `u32`: the greatest value of the type.
#[verifier::external_body]
fn u32_max_value() -> (r: u32)
    ensures
        r == u32::MAX,
{
    num_traits::Bounded::max_value()
}

/// `num_traits::Bounded::min_value` at `u64`: the least value of the type.
#[verifier::external_body]
fn u64_min_value() -> (r: u64)
    ensures
        r == u64::MIN,
{
    num_traits::Bounded::min_value()
}

/// `num_traits::Bounded::max_value` at `u64`: the greatest value of the type.
#[verifier::external_body]
fn u64_max_value() -> (r: u64)
    ensures
        r == u64::MAX,
{
    num_traits::Bounded::max_value()
}

impl Bounded for i32 {
    open spec fn rank(self) -> int {
        self as int
    }

    open spec fn lowest() -> Self {
        i32::MIN
    }

    open spec fn highest() -> Self {
        i32::MAX
    }

    proof fn lemma_rank_injective(a: Self, b: Self) {
    }

    proof fn lemma_rank_bounds(a: Self) {
    }

    fn min_value() -> (r: Self) {
        i32_min_value()
    }

    fn max_value() -> (r: Self) {
        i32_max_value()
    }

    fn at_most(&self, other: &Self) -> (r: bool) {
        *self <= *other
    }
}

impl Bounded for i64 {
    open spec fn rank(self) -> int {
        self as int
    }

    open spec fn lowest() -> Self {
        i64::MIN
    }

    open spec fn highest() -> Self {
        i64::MAX
    }

    proof fn lemma_rank_injective(a: Self, b: Self) {
    }

    proof fn lemma_rank_bounds(a: Self) {
    }

    fn min_value() -> (r: Self) {
        i64_min_value()
    }

    fn max_value() -> (r: Self) {
        i64_max_value()
    }

    fn at_most(&self, other: &Self) -> (r: bool) {
        *self <= *other
    }
}

impl Bounded for u32 {
    open spec fn rank(self) -> int {
        self as int
    }

    open spec fn lowest() -> Self {
        u32::MIN
    }

    open spec fn highest() -> Self {
        u32::MAX
    }

    proof fn lemma_rank_injective(a: Self, b: Self) {
    }

    proof fn lemma_rank_bounds(a: Self) {
    }

    fn min_value() -> (r: Self) {
        u32_min_value()
    }

    fn max_value() -> (r: Self) {
        u32_max_value()
    }

    fn at_most(&self, other: &Self) -> (r: bool) {
        *self <= *other
    }
}

impl Bounded for u64 {
    open spec fn rank(self) -> int {
        self as int
    }

    open spec fn lowest() -> Self {
        u64::MIN
    }

    open spec fn highest() -> Self {
        u64::MAX
    }

    proof fn lemma_rank_injective(a: Self, b: Self) {
    }

    proof fn lemma_rank_bounds(a: Self) {
    }

    fn min_value() -> (r: Self) {
        u64_min_value()
    }

    fn max_value() -> (r: Self) {
        u64_max_value()
    }

    fn at_most(&self, other: &Self) -> (r: bool) {
        *self <= *other
    }
}

} // verus!
