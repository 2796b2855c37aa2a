use vstd::prelude::*;

verus! {

/// The ways in which an operation of the engine can fail.
///
/// Every failure aborts the whole operation: the state handed in is left as
/// it was and exactly one of these kinds is returned.
#[derive(Clone, Copy, Debug, PartialEq, Eq, Structural)]
pub enum CLMMError {
    /// Token A and token B must be different.
    SameTokenMint,
    /// An asset identifier does not match the one recorded in the pool.
    InvalidTokenMint,
    /// Deposit amounts are not proportional to the pool reserves.
    InvalidLiquidity,
    /// A checked arithmetic operation overflowed or divided by zero.
    ArithmeticOverflow,
    /// The pool has no reserves to price against.
    PoolEmpty,
    /// The caller holds fewer LP shares than the operation burns.
    InsufficientLPTokens,
    /// A positive quantity was required and zero was given.
    ZeroAmount,
    /// The pool lacks the balance that the operation needs.
    InsufficientFundsInPool,
    /// The pool has no active liquidity to trade against.
    InsufficientLiquidity,
    /// The trade's output is below the caller's minimum.
    SlippageExceeded,
    /// A vault does not belong to the pool.
    InvalidVault,
    /// A maximum quantity is below the matching minimum.
    QuantityMismatch,
    /// The upper tick of a range is not above its lower tick.
    TickMismatch,
    /// A tick index is not a multiple of the tick spacing.
    UnalignedTick,
    /// A tick record does not carry the index that was asked for.
    InvalidTickIndex,
    /// A swap was given no tick boundary to walk.
    MissingTickData,
    /// A total does not fit the asset's 64-bit width.
    AmountTooLarge,
    /// The trade produced no output.
    ZeroSwapOutput,
    /// A tick index lies outside `[MIN_TICK, MAX_TICK]`.
    TickOutOfRange,
    /// A square-root price lies outside `[MIN_SQRT_PRICE_X64, MAX_SQRT_PRICE_X64)`.
    SqrtPriceOutOfRange,
}

} // verus!
