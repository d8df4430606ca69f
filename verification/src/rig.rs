//! Rigs (semirings): a commutative additive monoid `(R, +, 0)`, a
//! multiplicative monoid `(R, *, 1)`, distributivity on both sides, and an
//! absorbing zero.
//!
//! [`BoolRig`] is the Boolean rig `(∨, ∧)`; [`Checked`] wraps a primitive
//! integer rig and turns an overflow into the absorbing sentinel
//! [`Checked::Poison`] instead of a profile-dependent panic or wrap.
//! Saturating arithmetic is not offered: clamping breaks distributivity.
use vstd::prelude::*;
use core::ops::{Add, Mul};
use vstd::std_specs::ops::{AddSpecImpl, MulSpecImpl};
use vstd::std_specs::convert::FromSpecImpl;

verus! {

/// The additive identity `0` of a rig.
///
/// A scalar that wants to be a [`Rig`] implements this and [`One`]; its
/// `zero` must return the value named by `spec_zero`, and `is_zero` must
/// answer `spec_is_zero`.
pub trait Zero: Sized + Add<Self, Output = Self> {
    /// The value `zero` returns.
    spec fn spec_zero() -> Self;

    /// Whether `self` counts as the additive identity.
    spec fn spec_is_zero(&self) -> bool;

    /// The additive identity; the same value on every call.
    fn zero() -> (r: Self)
        ensures
            r == Self::spec_zero(),
    ;

    /// `true` exactly when `self` is the additive identity.
    fn is_zero(&self) -> (r: bool)
        ensures
            r == self.spec_is_zero(),
    ;
}

/// The multiplicative identity `1` of a rig; the counterpart of [`Zero`].
pub trait One: Sized + Mul<Self, Output = Self> {
    /// The value `one` returns.
    spec fn spec_one() -> Self;

    /// Whether `self` counts as the multiplicative identity.
    spec fn spec_is_one(&self) -> bool;

    /// The multiplicative identity; the same value on every call.
    fn one() -> (r: Self)
        ensures
            r == Self::spec_one(),
    ;

    /// `true` exactly when `self` is the multiplicative identity.
    fn is_one(&self) -> (r: bool)
        ensures
            r == self.spec_is_one(),
    ;
}

/// A rig (semiring): every type with `Clone`, `PartialEq`, [`Zero`], [`One`],
/// `Add` and `Mul` is one.
pub trait Rig: Clone + PartialEq + Zero + One + Add<Output = Self> + Mul<Output = Self> {

}

impl<T> Rig for T where T: Clone + PartialEq + Zero + One + Add<Output = T> + Mul<Output = T> {

}

/// Checked integer arithmetic: `None` means the exact result is not
/// representable in `Self`, never anything else.
pub trait CheckedOps: Sized {
    /// The result `checked_add` returns.
    spec fn spec_checked_add(&self, rhs: &Self) -> Option<Self>;

    /// The result `checked_mul` returns.
    spec fn spec_checked_mul(&self, rhs: &Self) -> Option<Self>;

    /// Add, returning `None` when the exact sum is not representable.
    fn checked_add(&self, rhs: &Self) -> (r: Option<Self>)
        ensures
            r == self.spec_checked_add(rhs),
    ;

    /// Multiply, returning `None` when the exact product is not representable.
    fn checked_mul(&self, rhs: &Self) -> (r: Option<Self>)
        ensures
            r == self.spec_checked_mul(rhs),
    ;
}

impl Zero for i8 {
    open spec fn spec_zero() -> Self {
        0
    }

    open spec fn spec_is_zero(&self) -> bool {
        *self == 0
    }

    fn zero() -> (r: Self) {
        0
    }

    fn is_zero(&self) -> (r: bool) {
        *self == 0
    }
}

impl One for i8 {
    open spec fn spec_one() -> Self {
        1
    }

    open spec fn spec_is_one(&self) -> bool {
        *self == 1
    }

    fn one() -> (r: Self) {
        1
    }

    fn is_one(&self) -> (r: bool) {
        *self == 1
    }
}

impl CheckedOps for i8 {
    open spec fn spec_checked_add(&self, rhs: &Self) -> Option<Self> {
        if i8::MIN <= *self + *rhs <= i8::MAX {
            Some((*self + *rhs) as i8)
        } else {
            None
        }
    }

    open spec fn spec_checked_mul(&self, rhs: &Self) -> Option<Self> {
        if i8::MIN <= *self * *rhs <= i8::MAX {
            Some((*self * *rhs) as i8)
        } else {
            None
        }
    }

    fn checked_add(&self, rhs: &Self) -> (r: Option<Self>) {
        i8::checked_add(*self, *rhs)
    }

    fn checked_mul(&self, rhs: &Self) -> (r: Option<Self>) {
        i8::checked_mul(*self, *rhs)
    }
}

impl Zero for i16 {
    open spec fn spec_zero() -> Self {
        0
    }

    open spec fn spec_is_zero(&self) -> bool {
        *self == 0
    }

    fn zero() -> (r: Self) {
        0
    }

    fn is_zero(&self) -> (r: bool) {
        *self == 0
    }
}

impl One for i16 {
    open spec fn spec_one() -> Self {
        1
    }

    open spec fn spec_is_one(&self) -> bool {
        *self == 1
    }

    fn one() -> (r: Self) {
        1
    }

    fn is_one(&self) -> (r: bool) {
        *self == 1
    }
}

impl CheckedOps for i16 {
    open spec fn spec_checked_add(&self, rhs: &Self) -> Option<Self> {
        if i16::MIN <= *self + *rhs <= i16::MAX {
            Some((*self + *rhs) as i16)
        } else {
            None
        }
    }

    open spec fn spec_checked_mul(&self, rhs: &Self) -> Option<Self> {
        if i16::MIN <= *self * *rhs <= i16::MAX {
            Some((*self * *rhs) as i16)
        } else {
            None
        }
    }

    fn checked_add(&self, rhs: &Self) -> (r: Option<Self>) {
        i16::checked_add(*self, *rhs)
    }

    fn checked_mul(&self, rhs: &Self) -> (r: Option<Self>) {
        i16::checked_mul(*self, *rhs)
    }
}

impl Zero for i32 {
    open spec fn spec_zero() -> Self {
        0
    }

    open spec fn spec_is_zero(&self) -> bool {
        *self == 0
    }

    fn zero() -> (r: Self) {
        0
    }

    fn is_zero(&self) -> (r: bool) {
        *self == 0
    }
}

impl One for i32 {
    open spec fn spec_one() -> Self {
        1
    }

    open spec fn spec_is_one(&self) -> bool {
        *self == 1
    }

    fn one() -> (r: Self) {
        1
    }

    fn is_one(&self) -> (r: bool) {
        *self == 1
    }
}

impl CheckedOps for i32 {
    open spec fn spec_checked_add(&self, rhs: &Self) -> Option<Self> {
        if i32::MIN <= *self + *rhs <= i32::MAX {
            Some((*self + *rhs) as i32)
        } else {
            None
        }
    }

    open spec fn spec_checked_mul(&self, rhs: &Self) -> Option<Self> {
        if i32::MIN <= *self * *rhs <= i32::MAX {
            Some((*self * *rhs) as i32)
        } else {
            None
        }
    }

    fn checked_add(&self, rhs: &Self) -> (r: Option<Self>) {
        i32::checked_add(*self, *rhs)
    }

    fn checked_mul(&self, rhs: &Self) -> (r: Option<Self>) {
        i32::checked_mul(*self, *rhs)
    }
}

impl Zero for i64 {
    open spec fn spec_zero() -> Self {
        0
    }

    open spec fn spec_is_zero(&self) -> bool {
        *self == 0
    }

    fn zero() -> (r: Self) {
        0
    }

    fn is_zero(&self) -> (r: bool) {
        *self == 0
    }
}

impl One for i64 {
    open spec fn spec_one() -> Self {
        1
    }

    open spec fn spec_is_one(&self) -> bool {
        *self == 1
    }

    fn one() -> (r: Self) {
        1
    }

    fn is_one(&self) -> (r: bool) {
        *self == 1
    }
}

impl CheckedOps for i64 {
    open spec fn spec_checked_add(&self, rhs: &Self) -> Option<Self> {
        if i64::MIN <= *self + *rhs <= i64::MAX {
            Some((*self + *rhs) as i64)
        } else {
            None
        }
    }

    open spec fn spec_checked_mul(&self, rhs: &Self) -> Option<Self> {
        if i64::MIN <= *self * *rhs <= i64::MAX {
            Some((*self * *rhs) as i64)
        } else {
            None
        }
    }

    fn checked_add(&self, rhs: &Self) -> (r: Option<Self>) {
        i64::checked_add(*self, *rhs)
    }

    fn checked_mul(&self, rhs: &Self) -> (r: Option<Self>) {
        i64::checked_mul(*self, *rhs)
    }
}

impl Zero for i128 {
    open spec fn spec_zero() -> Self {
        0
    }

    open spec fn spec_is_zero(&self) -> bool {
        *self == 0
    }

    fn zero() -> (r: Self) {
        0
    }

    fn is_zero(&self) -> (r: bool) {
        *self == 0
    }
}

impl One for i128 {
    open spec fn spec_one() -> Self {
        1
    }

    open spec fn spec_is_one(&self) -> bool {
        *self == 1
    }

    fn one() -> (r: Self) {
        1
    }

    fn is_one(&self) -> (r: bool) {
        *self == 1
    }
}

impl CheckedOps for i128 {
    open spec fn spec_checked_add(&self, rhs: &Self) -> Option<Self> {
        if i128::MIN <= *self + *rhs <= i128::MAX {
            Some((*self + *rhs) as i128)
        } else {
            None
        }
    }

    open spec fn spec_checked_mul(&self, rhs: &Self) -> Option<Self> {
        if i128::MIN <= *self * *rhs <= i128::MAX {
            Some((*self * *rhs) as i128)
        } else {
            None
        }
    }

    fn checked_add(&self, rhs: &Self) -> (r: Option<Self>) {
        i128::checked_add(*self, *rhs)
    }

    fn checked_mul(&self, rhs: &Self) -> (r: Option<Self>) {
        i128::checked_mul(*self, *rhs)
    }
}

impl Zero for isize {
    open spec fn spec_zero() -> Self {
        0
    }

    open spec fn spec_is_zero(&self) -> bool {
        *self == 0
    }

    fn zero() -> (r: Self) {
        0
    }

    fn is_zero(&self) -> (r: bool) {
        *self == 0
    }
}

impl One for isize {
    open spec fn spec_one() -> Self {
        1
    }

    open spec fn spec_is_one(&self) -> bool {
        *self == 1
    }

    fn one() -> (r: Self) {
        1
    }

    fn is_one(&self) -> (r: bool) {
        *self == 1
    }
}

impl CheckedOps for isize {
    open spec fn spec_checked_add(&self, rhs: &Self) -> Option<Self> {
        if isize::MIN <= *self + *rhs <= isize::MAX {
            Some((*self + *rhs) as isize)
        } else {
            None
        }
    }

    open spec fn spec_checked_mul(&self, rhs: &Self) -> Option<Self> {
        if isize::MIN <= *self * *rhs <= isize::MAX {
            Some((*self * *rhs) as isize)
        } else {
            None
        }
    }

    fn checked_add(&self, rhs: &Self) -> (r: Option<Self>) {
        isize::checked_add(*self, *rhs)
    }

    fn checked_mul(&self, rhs: &Self) -> (r: Option<Self>) {
        isize::checked_mul(*self, *rhs)
    }
}

impl Zero for u8 {
    open spec fn spec_zero() -> Self {
        0
    }

    open spec fn spec_is_zero(&self) -> bool {
        *self == 0
    }

    fn zero() -> (r: Self) {
        0
    }

    fn is_zero(&self) -> (r: bool) {
        *self == 0
    }
}

impl One for u8 {
    open spec fn spec_one() -> Self {
        1
    }

    open spec fn spec_is_one(&self) -> bool {
        *self == 1
    }

    fn one() -> (r: Self) {
        1
    }

    fn is_one(&self) -> (r: bool) {
        *self == 1
    }
}

impl CheckedOps for u8 {
    open spec fn spec_checked_add(&self, rhs: &Self) -> Option<Self> {
        if u8::MIN <= *self + *rhs <= u8::MAX {
            Some((*self + *rhs) as u8)
        } else {
            None
        }
    }

    open spec fn spec_checked_mul(&self, rhs: &Self) -> Option<Self> {
        if u8::MIN <= *self * *rhs <= u8::MAX {
            Some((*self * *rhs) as u8)
        } else {
            None
        }
    }

    fn checked_add(&self, rhs: &Self) -> (r: Option<Self>) {
        u8::checked_add(*self, *rhs)
    }

    fn checked_mul(&self, rhs: &Self) -> (r: Option<Self>) {
        u8::checked_mul(*self, *rhs)
    }
}

impl Zero for u16 {
    open spec fn spec_zero() -> Self {
        0
    }

    open spec fn spec_is_zero(&self) -> bool {
        *self == 0
    }

    fn zero() -> (r: Self) {
        0
    }

    fn is_zero(&self) -> (r: bool) {
        *self == 0
    }
}

impl One for u16 {
    open spec fn spec_one() -> Self {
        1
    }

    open spec fn spec_is_one(&self) -> bool {
        *self == 1
    }

    fn one() -> (r: Self) {
        1
    }

    fn is_one(&self) -> (r: bool) {
        *self == 1
    }
}

impl CheckedOps for u16 {
    open spec fn spec_checked_add(&self, rhs: &Self) -> Option<Self> {
        if u16::MIN <= *self + *rhs <= u16::MAX {
            Some((*self + *rhs) as u16)
        } else {
            None
        }
    }

    open spec fn spec_checked_mul(&self, rhs: &Self) -> Option<Self> {
        if u16::MIN <= *self * *rhs <= u16::MAX {
            Some((*self * *rhs) as u16)
        } else {
            None
        }
    }

    fn checked_add(&self, rhs: &Self) -> (r: Option<Self>) {
        u16::checked_add(*self, *rhs)
    }

    fn checked_mul(&self, rhs: &Self) -> (r: Option<Self>) {
        u16::checked_mul(*self, *rhs)
    }
}

impl Zero for u32 {
    open spec fn spec_zero() -> Self {
        0
    }

    open spec fn spec_is_zero(&self) -> bool {
        *self == 0
    }

    fn zero() -> (r: Self) {
        0
    }

    fn is_zero(&self) -> (r: bool) {
        *self == 0
    }
}

impl One for u32 {
    open spec fn spec_one() -> Self {
        1
    }

    open spec fn spec_is_one(&self) -> bool {
        *self == 1
    }

    fn one() -> (r: Self) {
        1
    }

    fn is_one(&self) -> (r: bool) {
        *self == 1
    }
}

impl CheckedOps for u32 {
    open spec fn spec_checked_add(&self, rhs: &Self) -> Option<Self> {
        if u32::MIN <= *self + *rhs <= u32::MAX {
            Some((*self + *rhs) as u32)
        } else {
            None
        }
    }

    open spec fn spec_checked_mul(&self, rhs: &Self) -> Option<Self> {
        if u32::MIN <= *self * *rhs <= u32::MAX {
            Some((*self * *rhs) as u32)
        } else {
            None
        }
    }

    fn checked_add(&self, rhs: &Self) -> (r: Option<Self>) {
        u32::checked_add(*self, *rhs)
    }

    fn checked_mul(&self, rhs: &Self) -> (r: Option<Self>) {
        u32::checked_mul(*self, *rhs)
    }
}

impl Zero for u64 {
    open spec fn spec_zero() -> Self {
        0
    }

    open spec fn spec_is_zero(&self) -> bool {
        *self == 0
    }

    fn zero() -> (r: Self) {
        0
    }

    fn is_zero(&self) -> (r: bool) {
        *self == 0
    }
}

impl One for u64 {
    open spec fn spec_one() -> Self {
        1
    }

    open spec fn spec_is_one(&self) -> bool {
        *self == 1
    }

    fn one() -> (r: Self) {
        1
    }

    fn is_one(&self) -> (r: bool) {
        *self == 1
    }
}

impl CheckedOps for u64 {
    open spec fn spec_checked_add(&self, rhs: &Self) -> Option<Self> {
        if u64::MIN <= *self + *rhs <= u64::MAX {
            Some((*self + *rhs) as u64)
        } else {
            None
        }
    }

    open spec fn spec_checked_mul(&self, rhs: &Self) -> Option<Self> {
        if u64::MIN <= *self * *rhs <= u64::MAX {
            Some((*self * *rhs) as u64)
        } else {
            None
        }
    }

    fn checked_add(&self, rhs: &Self) -> (r: Option<Self>) {
        u64::checked_add(*self, *rhs)
    }

    fn checked_mul(&self, rhs: &Self) -> (r: Option<Self>) {
        u64::checked_mul(*self, *rhs)
    }
}

impl Zero for u128 {
    open spec fn spec_zero() -> Self {
        0
    }

    open spec fn spec_is_zero(&self) -> bool {
        *self == 0
    }

    fn zero() -> (r: Self) {
        0
    }

    fn is_zero(&self) -> (r: bool) {
        *self == 0
    }
}

impl One for u128 {
    open spec fn spec_one() -> Self {
        1
    }

    open spec fn spec_is_one(&self) -> bool {
        *self == 1
    }

    fn one() -> (r: Self) {
        1
    }

    fn is_one(&self) -> (r: bool) {
        *self == 1
    }
}

impl CheckedOps for u128 {
    open spec fn spec_checked_add(&self, rhs: &Self) -> Option<Self> {
        if u128::MIN <= *self + *rhs <= u128::MAX {
            Some((*self + *rhs) as u128)
        } else {
            None
        }
    }

    open spec fn spec_checked_mul(&self, rhs: &Self) -> Option<Self> {
        if u128::MIN <= *self * *rhs <= u128::MAX {
            Some((*self * *rhs) as u128)
        } else {
            None
        }
    }

    fn checked_add(&self, rhs: &Self) -> (r: Option<Self>) {
        u128::checked_add(*self, *rhs)
    }

    fn checked_mul(&self, rhs: &Self) -> (r: Option<Self>) {
        u128::checked_mul(*self, *rhs)
    }
}

impl Zero for usize {
    open spec fn spec_zero() -> Self {
        0
    }

    open spec fn spec_is_zero(&self) -> bool {
        *self == 0
    }

    fn zero() -> (r: Self) {
        0
    }

    fn is_zero(&self) -> (r: bool) {
        *self == 0
    }
}

impl One for usize {
    open spec fn spec_one() -> Self {
        1
    }

    open spec fn spec_is_one(&self) -> bool {
        *self == 1
    }

    fn one() -> (r: Self) {
        1
    }

    fn is_one(&self) -> (r: bool) {
        *self == 1
    }
}

impl CheckedOps for usize {
    open spec fn spec_checked_add(&self, rhs: &Self) -> Option<Self> {
        if usize::MIN <= *self + *rhs <= usize::MAX {
            Some((*self + *rhs) as usize)
        } else {
            None
        }
    }

    open spec fn spec_checked_mul(&self, rhs: &Self) -> Option<Self> {
        if usize::MIN <= *self * *rhs <= usize::MAX {
            Some((*self * *rhs) as usize)
        } else {
            None
        }
    }

    fn checked_add(&self, rhs: &Self) -> (r: Option<Self>) {
        usize::checked_add(*self, *rhs)
    }

    fn checked_mul(&self, rhs: &Self) -> (r: Option<Self>) {
        usize::checked_mul(*self, *rhs)
    }
}

/// `a + b` in [`BoolRig`]: disjunction.
pub open spec fn bool_sum(a: BoolRig, b: BoolRig) -> BoolRig {
    BoolRig(a.0 || b.0)
}

/// `a * b` in [`BoolRig`]: conjunction.
pub open spec fn bool_product(a: BoolRig, b: BoolRig) -> BoolRig {
    BoolRig(a.0 && b.0)
}

/// The Boolean rig `({false, true}, false, true, ∨, ∧)`.
#[derive(Clone, Copy, Debug, PartialEq, Eq, PartialOrd, Ord, Hash, Structural)]
pub struct BoolRig(pub bool);

impl Zero for BoolRig {
    open spec fn spec_zero() -> Self {
        BoolRig(false)
    }

    open spec fn spec_is_zero(&self) -> bool {
        !self.0
    }

    fn zero() -> (r: Self) {
        BoolRig(false)
    }

    fn is_zero(&self) -> (r: bool) {
        !self.0
    }
}

impl One for BoolRig {
    open spec fn spec_one() -> Self {
        BoolRig(true)
    }

    open spec fn spec_is_one(&self) -> bool {
        self.0
    }

    fn one() -> (r: Self) {
        BoolRig(true)
    }

    fn is_one(&self) -> (r: bool) {
        self.0
    }
}

impl Add for BoolRig {
    type Output = Self;

    /// Disjunction.
    fn add(self, other: Self) -> (r: Self)
        ensures
            r == bool_sum(self, other),
    {
        BoolRig(self.0 || other.0)
    }
}

impl AddSpecImpl for BoolRig {
    open spec fn obeys_add_spec() -> bool {
        true
    }

    open spec fn add_req(self, rhs: Self) -> bool {
        true
    }

    open spec fn add_spec(self, rhs: Self) -> Self {
        bool_sum(self, rhs)
    }
}

impl Mul for BoolRig {
    type Output = Self;

    /// Conjunction.
    fn mul(self, other: Self) -> (r: Self)
        ensures
            r == bool_product(self, other),
    {
        BoolRig(self.0 && other.0)
    }
}

impl MulSpecImpl for BoolRig {
    open spec fn obeys_mul_spec() -> bool {
        true
    }

    open spec fn mul_req(self, rhs: Self) -> bool {
        true
    }

    open spec fn mul_spec(self, rhs: Self) -> Self {
        bool_product(self, rhs)
    }
}

/// All eight rig laws hold in [`BoolRig`]: `+` is commutative and associative
/// with unit `0`, `*` is associative with unit `1`, `*` distributes over `+`
/// on both sides, and `0` is absorbing.
pub proof fn lemma_bool_rig_laws(a: BoolRig, b: BoolRig, c: BoolRig)
    ensures
        bool_sum(a, b) == bool_sum(b, a),
        bool_sum(bool_sum(a, b), c) == bool_sum(a, bool_sum(b, c)),
        bool_sum(a, BoolRig::spec_zero()) == a,
        bool_product(bool_product(a, b), c) == bool_product(a, bool_product(b, c)),
        bool_product(a, BoolRig::spec_one()) == a && bool_product(BoolRig::spec_one(), a) == a,
        bool_product(a, bool_sum(b, c)) == bool_sum(bool_product(a, b), bool_product(a, c)),
        bool_product(bool_sum(a, b), c) == bool_sum(bool_product(a, c), bool_product(b, c)),
        bool_product(a, BoolRig::spec_zero()) == BoolRig::spec_zero() && bool_product(
            BoolRig::spec_zero(),
            a,
        ) == BoolRig::spec_zero(),
{
}

/// A rig element that remembers whether an overflow has happened: a
/// [`Value`](Checked::Value) or the absorbing poison `⊥`.
///
/// `⊥` is fully absorbing: if either operand is `⊥` the result is `⊥`, and
/// `Value(a) ⊕ Value(b)` is `⊥` exactly when the checked primitive operation
/// reports that the exact result is not representable — including `⊥ × 0 = ⊥`.
#[derive(Clone, Copy, Debug, PartialEq, Eq, Hash, PartialOrd, Ord)]
pub enum Checked<T> {
    /// A representable value; no overflow happened on any path into it.
    Value(T),
    /// `⊥`: an overflow was detected upstream.
    Poison,
}

/// `a ⊕ b` on [`Checked`].
pub open spec fn checked_sum<T: CheckedOps>(a: Checked<T>, b: Checked<T>) -> Checked<T> {
    match (a, b) {
        (Checked::Value(x), Checked::Value(y)) => match x.spec_checked_add(&y) {
            Some(s) => Checked::Value(s),
            None => Checked::Poison,
        },
        _ => Checked::Poison,
    }
}

/// `a ⊗ b` on [`Checked`].
pub open spec fn checked_product<T: CheckedOps>(a: Checked<T>, b: Checked<T>) -> Checked<T> {
    match (a, b) {
        (Checked::Value(x), Checked::Value(y)) => match x.spec_checked_mul(&y) {
            Some(p) => Checked::Value(p),
            None => Checked::Poison,
        },
        _ => Checked::Poison,
    }
}

impl<T> Checked<T> {
    /// Wrap a value; never poisoned.
    pub fn new(value: T) -> (r: Self)
        ensures
            r == Checked::Value(value),
    {
        Checked::Value(value)
    }

    /// `true` if this is `⊥`.
    pub fn is_poisoned(&self) -> (r: bool)
        ensures
            r == (*self is Poison),
    {
        match self {
            Checked::Poison => true,
            Checked::Value(_) => false,
        }
    }

    /// Borrow the wrapped value, or `None` if poisoned.
    pub fn value(&self) -> (r: Option<&T>)
        ensures
            match *self {
                Checked::Value(v) => r == Some(&v),
                Checked::Poison => r is None,
            },
    {
        match self {
            Checked::Value(v) => Some(v),
            Checked::Poison => None,
        }
    }

    /// Unwrap to the value, or `None` if poisoned.
    pub fn into_value(self) -> (r: Option<T>)
        ensures
            match self {
                Checked::Value(v) => r == Some(v),
                Checked::Poison => r is None,
            },
    {
        match self {
            Checked::Value(v) => Some(v),
            Checked::Poison => None,
        }
    }
}

impl<T> From<T> for Checked<T> {
    fn from(value: T) -> (r: Self)
        ensures
            r == Checked::Value(value),
    {
        Checked::Value(value)
    }
}

impl<T> FromSpecImpl<T> for Checked<T> {
    open spec fn obeys_from_spec() -> bool {
        true
    }

    open spec fn from_spec(v: T) -> Self {
        Checked::Value(v)
    }
}

impl<T: CheckedOps> Add for Checked<T> {
    type Output = Self;

    /// `⊕`: checked addition, absorbing `⊥`.
    fn add(self, other: Self) -> (r: Self)
        ensures
            r == checked_sum(self, other),
    {
        match (self, other) {
            (Checked::Value(a), Checked::Value(b)) => match a.checked_add(&b) {
                Some(s) => Checked::Value(s),
                None => Checked::Poison,
            },
            _ => Checked::Poison,
        }
    }
}

impl<T: CheckedOps> AddSpecImpl for Checked<T> {
    open spec fn obeys_add_spec() -> bool {
        true
    }

    open spec fn add_req(self, rhs: Self) -> bool {
        true
    }

    open spec fn add_spec(self, rhs: Self) -> Self {
        checked_sum(self, rhs)
    }
}

impl<T: CheckedOps> Mul for Checked<T> {
    type Output = Self;

    /// `⊗`: checked multiplication, absorbing `⊥` (so `⊥ × 0 = ⊥`).
    fn mul(self, other: Self) -> (r: Self)
        ensures
            r == checked_product(self, other),
    {
        match (self, other) {
            (Checked::Value(a), Checked::Value(b)) => match a.checked_mul(&b) {
                Some(p) => Checked::Value(p),
                None => Checked::Poison,
            },
            _ => Checked::Poison,
        }
    }
}

impl<T: CheckedOps> MulSpecImpl for Checked<T> {
    open spec fn obeys_mul_spec() -> bool {
        true
    }

    open spec fn mul_req(self, rhs: Self) -> bool {
        true
    }

    open spec fn mul_spec(self, rhs: Self) -> Self {
        checked_product(self, rhs)
    }
}

impl<T: CheckedOps + Zero> Zero for Checked<T> {
    open spec fn spec_zero() -> Self {
        Checked::Value(T::spec_zero())
    }

    open spec fn spec_is_zero(&self) -> bool {
        match *self {
            Checked::Value(v) => v.spec_is_zero(),
            Checked::Poison => false,
        }
    }

    fn zero() -> (r: Self) {
        Checked::Value(T::zero())
    }

    /// `false` for `⊥`.
    fn is_zero(&self) -> (r: bool) {
        match self {
            Checked::Value(v) => v.is_zero(),
            Checked::Poison => false,
        }
    }
}

impl<T: CheckedOps + One> One for Checked<T> {
    open spec fn spec_one() -> Self {
        Checked::Value(T::spec_one())
    }

    open spec fn spec_is_one(&self) -> bool {
        match *self {
            Checked::Value(v) => v.spec_is_one(),
            Checked::Poison => false,
        }
    }

    fn one() -> (r: Self) {
        Checked::Value(T::one())
    }

    /// `false` for `⊥`.
    fn is_one(&self) -> (r: bool) {
        match self {
            Checked::Value(v) => v.is_one(),
            Checked::Poison => false,
        }
    }
}

/// `⊥` absorbs on both sides of both operations.
pub proof fn lemma_poison_absorbs<T: CheckedOps>(x: Checked<T>)
    ensures
        checked_sum(Checked::Poison, x) is Poison,
        checked_sum(x, Checked::Poison) is Poison,
        checked_product(Checked::Poison, x) is Poison,
        checked_product(x, Checked::Poison) is Poison,
{
}

/// On `Checked<i64>`, `⊕` and `⊗` are commutative, `0` is an additive and `1`
/// a multiplicative identity (for `⊥` as well), and `a ⊗ 0 = 0` holds exactly
/// when `a` is not `⊥`: the one rig law lost to the sentinel.
pub proof fn lemma_checked_i64_laws(a: Checked<i64>, b: Checked<i64>)
    ensures
        checked_sum(a, b) == checked_sum(b, a),
        checked_product(a, b) == checked_product(b, a),
        checked_sum(a, Checked::Value(0i64)) == a,
        checked_product(a, Checked::Value(1i64)) == a,
        checked_product(Checked::Value(1i64), a) == a,
        (checked_product(a, Checked::Value(0i64)) == Checked::Value(0i64)) <==> (a is Value),
{
    if let (Checked::Value(x), Checked::Value(y)) = (a, b) {
        assert(x * y == y * x) by (nonlinear_arith);
    }
}

/// On `Checked<i64>`, `⊕` is associative whenever neither inner partial sum
/// overflows on its own.
pub proof fn lemma_checked_i64_add_associative(a: i64, b: i64, c: i64)
    requires
        i64::MIN <= a + b <= i64::MAX,
        i64::MIN <= b + c <= i64::MAX,
    ensures
        checked_sum(checked_sum(Checked::Value(a), Checked::Value(b)), Checked::Value(c))
            == checked_sum(Checked::Value(a), checked_sum(Checked::Value(b), Checked::Value(c))),
{
}

/// On `Checked<i64>`, `⊗` distributes over `⊕` from the left whenever no
/// intermediate result overflows.
pub proof fn lemma_checked_i64_distributive(a: i64, b: i64, c: i64)
    requires
        i64::MIN <= b + c <= i64::MAX,
        i64::MIN <= a * b <= i64::MAX,
        i64::MIN <= a * c <= i64::MAX,
    ensures
        checked_product(Checked::Value(a), checked_sum(Checked::Value(b), Checked::Value(c)))
            == checked_sum(
            checked_product(Checked::Value(a), Checked::Value(b)),
            checked_product(Checked::Value(a), Checked::Value(c)),
        ),
{
    assert(a * (b + c) == a * b + a * c) by (nonlinear_arith);
}

/// On `Checked<u64>`, `⊕` is associative without exception, `⊗` is
/// associative when no operand is zero, and `⊗` distributes over `⊕` from the
/// left whenever the inner sum does not overflow.
pub proof fn lemma_checked_u64_laws(a: u64, b: u64, c: u64)
    ensures
        checked_sum(checked_sum(Checked::Value(a), Checked::Value(b)), Checked::Value(c))
            == checked_sum(Checked::Value(a), checked_sum(Checked::Value(b), Checked::Value(c))),
        a != 0 && b != 0 && c != 0 ==> checked_product(
            checked_product(Checked::Value(a), Checked::Value(b)),
            Checked::Value(c),
        ) == checked_product(
            Checked::Value(a),
            checked_product(Checked::Value(b), Checked::Value(c)),
        ),
        b + c <= u64::MAX ==> checked_product(
            Checked::Value(a),
            checked_sum(Checked::Value(b), Checked::Value(c)),
        ) == checked_sum(
            checked_product(Checked::Value(a), Checked::Value(b)),
            checked_product(Checked::Value(a), Checked::Value(c)),
        ),
{
    let (x, y, z) = (a as int, b as int, c as int);
    assert(x * y * z == x * (y * z)) by (nonlinear_arith);
    assert(x * (y + z) == x * y + x * z) by (nonlinear_arith);
    if x != 0 && y != 0 && z != 0 {
        assert(x * y <= x * y * z) by (nonlinear_arith)
            requires
                x >= 1,
                y >= 1,
                z >= 1,
        ;
        assert(y * z <= x * (y * z)) by (nonlinear_arith)
            requires
                x >= 1,
                y >= 1,
                z >= 1,
        ;
    }
    assert(x * y <= x * (y + z) && x * z <= x * (y + z)) by (nonlinear_arith)
        requires
            x >= 0,
            y >= 0,
            z >= 0,
    ;
    assert(x * y >= 0 && x * z >= 0) by (nonlinear_arith)
        requires
            x >= 0,
            y >= 0,
            z >= 0,
    ;
}


/// Base change between rigs: a conversion `From → Self`. Implementations
/// document whether it preserves the rig structure or merely embeds the set.
pub trait BaseChange<From: Rig>: Rig {
    /// Convert one element.
    fn base_change(from: From) -> Self;
}

/// The text of [`Checked::Poison`].
pub const POISON_TOKEN: &'static str = "⊥";

/// `v` written with its `Display` text, as `format!` produces it.
#[verifier::external_body]
fn display_text<T: core::fmt::Display>(v: &T) -> (r: String) {
    format!("{v}")
}

/// Whether two strings are equal (std's `==` on `str`).
#[verifier::external_body]
fn same_text(a: &str, b: &str) -> (r: bool)
    ensures
        r == (a@ == b@),
{
    a == b
}

impl<T: core::fmt::Display> Checked<T> {
    /// The text form: the value's own text, or `⊥` for poison.
    pub fn to_string(&self) -> (r: String)
        ensures
            self is Poison ==> r@ == POISON_TOKEN@,
    {
        match self {
            Checked::Value(v) => display_text(v),
            Checked::Poison => POISON_TOKEN.to_owned(),
        }
    }
}

/// The integer error of std's integer parsing.
#[verifier::external_type_specification]
#[verifier::external_body]
pub struct ExParseIntError(core::num::ParseIntError);

/// The first law that fails, given whether each law held on the samples, in
/// the order they are checked; `None` when every one held.
pub fn first_violated_law(held: &[bool]) -> (r: Option<usize>)
    ensures
        match r {
            Some(i) => i < held@.len() && !held@[i as int] && forall|j: int| 0 <= j < i ==> held@[j],
            None => forall|j: int| 0 <= j < held@.len() ==> held@[j],
        },
{
    let mut i: usize = 0;
    while i < held.len()
        invariant
            i <= held@.len(),
            forall|j: int| 0 <= j < i ==> held@[j],
        decreases held@.len() - i,
    {
        if !held[i] {
            return Some(i);
        }
        i = i + 1;
    }
    None
}

/// Every character of `s` is an ASCII decimal digit.
pub open spec fn all_digits(s: Seq<char>) -> bool {
    forall|i: int| 0 <= i < s.len() ==> 48 <= #[trigger] (s[i] as u32) <= 57
}

/// The value of the decimal digits `s`, most significant first.
pub open spec fn digits_value(s: Seq<char>) -> int
    decreases s.len(),
{
    if s.len() == 0 {
        0
    } else {
        digits_value(s.drop_last()) * 10 + (s.last() as u32 - 48)
    }
}

/// The integer std's decimal parsing reads from `s`: an optional sign (`+`,
/// or also `-` where `signed`) followed by a non-empty run of ASCII digits;
/// `None` for any other text. Whether the value fits the type is checked
/// apart.
pub open spec fn decimal_value(s: Seq<char>, signed: bool) -> Option<int> {
    let negative = signed && s.len() > 0 && s[0] == '-';
    let body = if s.len() > 0 && (s[0] == '+' || negative) {
        s.drop_first()
    } else {
        s
    };
    if body.len() > 0 && all_digits(body) {
        Some(if negative { -digits_value(body) } else { digits_value(body) })
    } else {
        None
    }
}

/// std's `str::parse::<i8>` on `s`: `Ok` exactly when `s` is an optional
/// sign and ASCII digits whose value fits `i8`, and then that value.
#[verifier::external_body]
fn parse_i8(s: &str) -> (r: Result<i8, core::num::ParseIntError>)
    ensures
        r is Ok <==> (decimal_value(s@, true) matches Some(v) && i8::MIN <= v <= i8::MAX),
        r matches Ok(x) ==> decimal_value(s@, true) == Some(x as int),
{
    s.parse::<i8>()
}

impl core::str::FromStr for Checked<i8> {
    type Err = core::num::ParseIntError;

    /// Exactly `⊥` parses to poison; any other text is parsed as `i8`.
    fn from_str(s: &str) -> (r: Result<Self, Self::Err>)
        ensures
            s@ == POISON_TOKEN@ ==> r == Ok::<Self, Self::Err>(Checked::Poison),
            s@ != POISON_TOKEN@ ==> !(r matches Ok(Checked::Poison)),
            s@ != POISON_TOKEN@ ==> (r is Ok <==> (decimal_value(s@, true) matches Some(v) && i8::MIN <= v
                <= i8::MAX)),
            s@ != POISON_TOKEN@ ==> (r matches Ok(Checked::Value(x)) ==> decimal_value(s@, true) == Some(
                x as int,
            )),
    {
        if same_text(s, POISON_TOKEN) {
            return Ok(Checked::Poison);
        }
        match parse_i8(s) {
            Ok(v) => Ok(Checked::Value(v)),
            Err(e) => Err(e),
        }
    }
}

/// std's `str::parse::<i16>` on `s`: `Ok` exactly when `s` is an optional
/// sign and ASCII digits whose value fits `i16`, and then that value.
#[verifier::external_body]
fn parse_i16(s: &str) -> (r: Result<i16, core::num::ParseIntError>)
    ensures
        r is Ok <==> (decimal_value(s@, true) matches Some(v) && i16::MIN <= v <= i16::MAX),
        r matches Ok(x) ==> decimal_value(s@, true) == Some(x as int),
{
    s.parse::<i16>()
}

impl core::str::FromStr for Checked<i16> {
    type Err = core::num::ParseIntError;

    /// Exactly `⊥` parses to poison; any other text is parsed as `i16`.
    fn from_str(s: &str) -> (r: Result<Self, Self::Err>)
        ensures
            s@ == POISON_TOKEN@ ==> r == Ok::<Self, Self::Err>(Checked::Poison),
            s@ != POISON_TOKEN@ ==> !(r matches Ok(Checked::Poison)),
            s@ != POISON_TOKEN@ ==> (r is Ok <==> (decimal_value(s@, true) matches Some(v) && i16::MIN <= v
                <= i16::MAX)),
            s@ != POISON_TOKEN@ ==> (r matches Ok(Checked::Value(x)) ==> decimal_value(s@, true) == Some(
                x as int,
            )),
    {
        if same_text(s, POISON_TOKEN) {
            return Ok(Checked::Poison);
        }
        match parse_i16(s) {
            Ok(v) => Ok(Checked::Value(v)),
            Err(e) => Err(e),
        }
    }
}

/// std's `str::parse::<i32>` on `s`: `Ok` exactly when `s` is an optional
/// sign and ASCII digits whose value fits `i32`, and then that value.
#[verifier::external_body]
fn parse_i32(s: &str) -> (r: Result<i32, core::num::ParseIntError>)
    ensures
        r is Ok <==> (decimal_value(s@, true) matches Some(v) && i32::MIN <= v <= i32::MAX),
        r matches Ok(x) ==> decimal_value(s@, true) == Some(x as int),
{
    s.parse::<i32>()
}

impl core::str::FromStr for Checked<i32> {
    type Err = core::num::ParseIntError;

    /// Exactly `⊥` parses to poison; any other text is parsed as `i32`.
    fn from_str(s: &str) -> (r: Result<Self, Self::Err>)
        ensures
            s@ == POISON_TOKEN@ ==> r == Ok::<Self, Self::Err>(Checked::Poison),
            s@ != POISON_TOKEN@ ==> !(r matches Ok(Checked::Poison)),
            s@ != POISON_TOKEN@ ==> (r is Ok <==> (decimal_value(s@, true) matches Some(v) && i32::MIN <= v
                <= i32::MAX)),
            s@ != POISON_TOKEN@ ==> (r matches Ok(Checked::Value(x)) ==> decimal_value(s@, true) == Some(
                x as int,
            )),
    {
        if same_text(s, POISON_TOKEN) {
            return Ok(Checked::Poison);
        }
        match parse_i32(s) {
            Ok(v) => Ok(Checked::Value(v)),
            Err(e) => Err(e),
        }
    }
}

/// std's `str::parse::<i64>` on `s`: `Ok` exactly when `s` is an optional
/// sign and ASCII digits whose value fits `i64`, and then that value.
#[verifier::external_body]
fn parse_i64(s: &str) -> (r: Result<i64, core::num::ParseIntError>)
    ensures
        r is Ok <==> (decimal_value(s@, true) matches Some(v) && i64::MIN <= v <= i64::MAX),
        r matches Ok(x) ==> decimal_value(s@, true) == Some(x as int),
{
    s.parse::<i64>()
}

impl core::str::FromStr for Checked<i64> {
    type Err = core::num::ParseIntError;

    /// Exactly `⊥` parses to poison; any other text is parsed as `i64`.
    fn from_str(s: &str) -> (r: Result<Self, Self::Err>)
        ensures
            s@ == POISON_TOKEN@ ==> r == Ok::<Self, Self::Err>(Checked::Poison),
            s@ != POISON_TOKEN@ ==> !(r matches Ok(Checked::Poison)),
            s@ != POISON_TOKEN@ ==> (r is Ok <==> (decimal_value(s@, true) matches Some(v) && i64::MIN <= v
                <= i64::MAX)),
            s@ != POISON_TOKEN@ ==> (r matches Ok(Checked::Value(x)) ==> decimal_value(s@, true) == Some(
                x as int,
            )),
    {
        if same_text(s, POISON_TOKEN) {
            return Ok(Checked::Poison);
        }
        match parse_i64(s) {
            Ok(v) => Ok(Checked::Value(v)),
            Err(e) => Err(e),
        }
    }
}

/// std's `str::parse::<i128>` on `s`: `Ok` exactly when `s` is an optional
/// sign and ASCII digits whose value fits `i128`, and then that value.
#[verifier::external_body]
fn parse_i128(s: &str) -> (r: Result<i128, core::num::ParseIntError>)
    ensures
        r is Ok <==> (decimal_value(s@, true) matches Some(v) && i128::MIN <= v <= i128::MAX),
        r matches Ok(x) ==> decimal_value(s@, true) == Some(x as int),
{
    s.parse::<i128>()
}

impl core::str::FromStr for Checked<i128> {
    type Err = core::num::ParseIntError;

    /// Exactly `⊥` parses to poison; any other text is parsed as `i128`.
    fn from_str(s: &str) -> (r: Result<Self, Self::Err>)
        ensures
            s@ == POISON_TOKEN@ ==> r == Ok::<Self, Self::Err>(Checked::Poison),
            s@ != POISON_TOKEN@ ==> !(r matches Ok(Checked::Poison)),
            s@ != POISON_TOKEN@ ==> (r is Ok <==> (decimal_value(s@, true) matches Some(v) && i128::MIN <= v
                <= i128::MAX)),
            s@ != POISON_TOKEN@ ==> (r matches Ok(Checked::Value(x)) ==> decimal_value(s@, true) == Some(
                x as int,
            )),
    {
        if same_text(s, POISON_TOKEN) {
            return Ok(Checked::Poison);
        }
        match parse_i128(s) {
            Ok(v) => Ok(Checked::Value(v)),
            Err(e) => Err(e),
        }
    }
}

/// std's `str::parse::<isize>` on `s`: `Ok` exactly when `s` is an optional
/// sign and ASCII digits whose value fits `isize`, and then that value.
#[verifier::external_body]
fn parse_isize(s: &str) -> (r: Result<isize, core::num::ParseIntError>)
    ensures
        r is Ok <==> (decimal_value(s@, true) matches Some(v) && isize::MIN <= v <= isize::MAX),
        r matches Ok(x) ==> decimal_value(s@, true) == Some(x as int),
{
    s.parse::<isize>()
}

impl core::str::FromStr for Checked<isize> {
    type Err = core::num::ParseIntError;

    /// Exactly `⊥` parses to poison; any other text is parsed as `isize`.
    fn from_str(s: &str) -> (r: Result<Self, Self::Err>)
        ensures
            s@ == POISON_TOKEN@ ==> r == Ok::<Self, Self::Err>(Checked::Poison),
            s@ != POISON_TOKEN@ ==> !(r matches Ok(Checked::Poison)),
            s@ != POISON_TOKEN@ ==> (r is Ok <==> (decimal_value(s@, true) matches Some(v) && isize::MIN <= v
                <= isize::MAX)),
            s@ != POISON_TOKEN@ ==> (r matches Ok(Checked::Value(x)) ==> decimal_value(s@, true) == Some(
                x as int,
            )),
    {
        if same_text(s, POISON_TOKEN) {
            return Ok(Checked::Poison);
        }
        match parse_isize(s) {
            Ok(v) => Ok(Checked::Value(v)),
            Err(e) => Err(e),
        }
    }
}

/// std's `str::parse::<u8>` on `s`: `Ok` exactly when `s` is an optional
/// sign and ASCII digits whose value fits `u8`, and then that value.
#[verifier::external_body]
fn parse_u8(s: &str) -> (r: Result<u8, core::num::ParseIntError>)
    ensures
        r is Ok <==> (decimal_value(s@, false) matches Some(v) && u8::MIN <= v <= u8::MAX),
        r matches Ok(x) ==> decimal_value(s@, false) == Some(x as int),
{
    s.parse::<u8>()
}

impl core::str::FromStr for Checked<u8> {
    type Err = core::num::ParseIntError;

    /// Exactly `⊥` parses to poison; any other text is parsed as `u8`.
    fn from_str(s: &str) -> (r: Result<Self, Self::Err>)
        ensures
            s@ == POISON_TOKEN@ ==> r == Ok::<Self, Self::Err>(Checked::Poison),
            s@ != POISON_TOKEN@ ==> !(r matches Ok(Checked::Poison)),
            s@ != POISON_TOKEN@ ==> (r is Ok <==> (decimal_value(s@, false) matches Some(v) && u8::MIN <= v
                <= u8::MAX)),
            s@ != POISON_TOKEN@ ==> (r matches Ok(Checked::Value(x)) ==> decimal_value(s@, false) == Some(
                x as int,
            )),
    {
        if same_text(s, POISON_TOKEN) {
            return Ok(Checked::Poison);
        }
        match parse_u8(s) {
            Ok(v) => Ok(Checked::Value(v)),
            Err(e) => Err(e),
        }
    }
}

/// std's `str::parse::<u16>` on `s`: `Ok` exactly when `s` is an optional
/// sign and ASCII digits whose value fits `u16`, and then that value.
#[verifier::external_body]
fn parse_u16(s: &str) -> (r: Result<u16, core::num::ParseIntError>)
    ensures
        r is Ok <==> (decimal_value(s@, false) matches Some(v) && u16::MIN <= v <= u16::MAX),
        r matches Ok(x) ==> decimal_value(s@, false) == Some(x as int),
{
    s.parse::<u16>()
}

impl core::str::FromStr for Checked<u16> {
    type Err = core::num::ParseIntError;

    /// Exactly `⊥` parses to poison; any other text is parsed as `u16`.
    fn from_str(s: &str) -> (r: Result<Self, Self::Err>)
        ensures
            s@ == POISON_TOKEN@ ==> r == Ok::<Self, Self::Err>(Checked::Poison),
            s@ != POISON_TOKEN@ ==> !(r matches Ok(Checked::Poison)),
            s@ != POISON_TOKEN@ ==> (r is Ok <==> (decimal_value(s@, false) matches Some(v) && u16::MIN <= v
                <= u16::MAX)),
            s@ != POISON_TOKEN@ ==> (r matches Ok(Checked::Value(x)) ==> decimal_value(s@, false) == Some(
                x as int,
            )),
    {
        if same_text(s, POISON_TOKEN) {
            return Ok(Checked::Poison);
        }
        match parse_u16(s) {
            Ok(v) => Ok(Checked::Value(v)),
            Err(e) => Err(e),
        }
    }
}

/// std's `str::parse::<u32>` on `s`: `Ok` exactly when `s` is an optional
/// sign and ASCII digits whose value fits `u32`, and then that value.
#[verifier::external_body]
fn parse_u32(s: &str) -> (r: Result<u32, core::num::ParseIntError>)
    ensures
        r is Ok <==> (decimal_value(s@, false) matches Some(v) && u32::MIN <= v <= u32::MAX),
        r matches Ok(x) ==> decimal_value(s@, false) == Some(x as int),
{
    s.parse::<u32>()
}

impl core::str::FromStr for Checked<u32> {
    type Err = core::num::ParseIntError;

    /// Exactly `⊥` parses to poison; any other text is parsed as `u32`.
    fn from_str(s: &str) -> (r: Result<Self, Self::Err>)
        ensures
            s@ == POISON_TOKEN@ ==> r == Ok::<Self, Self::Err>(Checked::Poison),
            s@ != POISON_TOKEN@ ==> !(r matches Ok(Checked::Poison)),
            s@ != POISON_TOKEN@ ==> (r is Ok <==> (decimal_value(s@, false) matches Some(v) && u32::MIN <= v
                <= u32::MAX)),
            s@ != POISON_TOKEN@ ==> (r matches Ok(Checked::Value(x)) ==> decimal_value(s@, false) == Some(
                x as int,
            )),
    {
        if same_text(s, POISON_TOKEN) {
            return Ok(Checked::Poison);
        }
        match parse_u32(s) {
            Ok(v) => Ok(Checked::Value(v)),
            Err(e) => Err(e),
        }
    }
}

/// std's `str::parse::<u64>` on `s`: `Ok` exactly when `s` is an optional
/// sign and ASCII digits whose value fits `u64`, and then that value.
#[verifier::external_body]
fn parse_u64(s: &str) -> (r: Result<u64, core::num::ParseIntError>)
    ensures
        r is Ok <==> (decimal_value(s@, false) matches Some(v) && u64::MIN <= v <= u64::MAX),
        r matches Ok(x) ==> decimal_value(s@, false) == Some(x as int),
{
    s.parse::<u64>()
}

impl core::str::FromStr for Checked<u64> {
    type Err = core::num::ParseIntError;

    /// Exactly `⊥` parses to poison; any other text is parsed as `u64`.
    fn from_str(s: &str) -> (r: Result<Self, Self::Err>)
        ensures
            s@ == POISON_TOKEN@ ==> r == Ok::<Self, Self::Err>(Checked::Poison),
            s@ != POISON_TOKEN@ ==> !(r matches Ok(Checked::Poison)),
            s@ != POISON_TOKEN@ ==> (r is Ok <==> (decimal_value(s@, false) matches Some(v) && u64::MIN <= v
                <= u64::MAX)),
            s@ != POISON_TOKEN@ ==> (r matches Ok(Checked::Value(x)) ==> decimal_value(s@, false) == Some(
                x as int,
            )),
    {
        if same_text(s, POISON_TOKEN) {
            return Ok(Checked::Poison);
        }
        match parse_u64(s) {
            Ok(v) => Ok(Checked::Value(v)),
            Err(e) => Err(e),
        }
    }
}

/// std's `str::parse::<u128>` on `s`: `Ok` exactly when `s` is an optional
/// sign and ASCII digits whose value fits `u128`, and then that value.
#[verifier::external_body]
fn parse_u128(s: &str) -> (r: Result<u128, core::num::ParseIntError>)
    ensures
        r is Ok <==> (decimal_value(s@, false) matches Some(v) && u128::MIN <= v <= u128::MAX),
        r matches Ok(x) ==> decimal_value(s@, false) == Some(x as int),
{
    s.parse::<u128>()
}

impl core::str::FromStr for Checked<u128> {
    type Err = core::num::ParseIntError;

    /// Exactly `⊥` parses to poison; any other text is parsed as `u128`.
    fn from_str(s: &str) -> (r: Result<Self, Self::Err>)
        ensures
            s@ == POISON_TOKEN@ ==> r == Ok::<Self, Self::Err>(Checked::Poison),
            s@ != POISON_TOKEN@ ==> !(r matches Ok(Checked::Poison)),
            s@ != POISON_TOKEN@ ==> (r is Ok <==> (decimal_value(s@, false) matches Some(v) && u128::MIN <= v
                <= u128::MAX)),
            s@ != POISON_TOKEN@ ==> (r matches Ok(Checked::Value(x)) ==> decimal_value(s@, false) == Some(
                x as int,
            )),
    {
        if same_text(s, POISON_TOKEN) {
            return Ok(Checked::Poison);
        }
        match parse_u128(s) {
            Ok(v) => Ok(Checked::Value(v)),
            Err(e) => Err(e),
        }
    }
}

/// std's `str::parse::<usize>` on `s`: `Ok` exactly when `s` is an optional
/// sign and ASCII digits whose value fits `usize`, and then that value.
#[verifier::external_body]
fn parse_usize(s: &str) -> (r: Result<usize, core::num::ParseIntError>)
    ensures
        r is Ok <==> (decimal_value(s@, false) matches Some(v) && usize::MIN <= v <= usize::MAX),
        r matches Ok(x) ==> decimal_value(s@, false) == Some(x as int),
{
    s.parse::<usize>()
}

impl core::str::FromStr for Checked<usize> {
    type Err = core::num::ParseIntError;

    /// Exactly `⊥` parses to poison; any other text is parsed as `usize`.
    fn from_str(s: &str) -> (r: Result<Self, Self::Err>)
        ensures
            s@ == POISON_TOKEN@ ==> r == Ok::<Self, Self::Err>(Checked::Poison),
            s@ != POISON_TOKEN@ ==> !(r matches Ok(Checked::Poison)),
            s@ != POISON_TOKEN@ ==> (r is Ok <==> (decimal_value(s@, false) matches Some(v) && usize::MIN <= v
                <= usize::MAX)),
            s@ != POISON_TOKEN@ ==> (r matches Ok(Checked::Value(x)) ==> decimal_value(s@, false) == Some(
                x as int,
            )),
    {
        if same_text(s, POISON_TOKEN) {
            return Ok(Checked::Poison);
        }
        match parse_usize(s) {
            Ok(v) => Ok(Checked::Value(v)),
            Err(e) => Err(e),
        }
    }
}

} // verus!
