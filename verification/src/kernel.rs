//! The arithmetic kernel: the primitive operations on scalars.
//!
//! A scalar is an IEEE 754 binary64 number, held as its 64-bit pattern. The
//! engine never computes on a scalar itself. It hands a [`Prim`] to the
//! kernel of the tape, a function from `Prim` to the bit pattern of the
//! result, and stores what comes back. Contracts therefore speak of a result
//! as "a value that the kernel may return for this primitive": nothing is
//! assumed of the kernel but that it accepts every primitive.

use vstd::prelude::*;

verus! {

/// The bit pattern of `0.0`.
pub const ZERO: u64 = 0;

/// The bit pattern of `1.0`.
pub const ONE: u64 = 0x3FF0_0000_0000_0000;

/// The bit pattern of `-1.0`.
pub const NEG_ONE: u64 = 0xBFF0_0000_0000_0000;

/// One primitive operation together with its operands.
#[derive(Clone, Copy, Debug)]
pub enum Prim {
    /// `x + y`
    Add(u64, u64),
    /// `x - y`
    Sub(u64, u64),
    /// `x * y`
    Mul(u64, u64),
    /// `-x`
    Neg(u64),
    /// `1 / x`
    Recip(u64),
    /// `x` raised to the power `y`
    Powf(u64, u64),
    /// `e` raised to the power `x`
    Exp(u64),
    /// The hyperbolic tangent of `x`
    Tanh(u64),
}

/// The kernel accepts every primitive.
pub open spec fn total<K: Fn(Prim) -> u64>(k: K) -> bool {
    forall|p: Prim| call_requires(k, (p,))
}

/// `r` is a value that the kernel may return for `p`.
pub open spec fn gives<K: Fn(Prim) -> u64>(k: K, p: Prim, r: u64) -> bool {
    call_ensures(k, (p,), r)
}

/// The kernel is a function: a primitive has at most one result.
pub open spec fn functional<K: Fn(Prim) -> u64>(k: K) -> bool {
    forall|p: Prim, r1: u64, r2: u64| gives(k, p, r1) && gives(k, p, r2) ==> r1 == r2
}

} // verus!
