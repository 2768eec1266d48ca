//! A prediction-market automated market maker: fixed-product pool math, the
//! per-market share ledger, trading and liquidity operations, market creation,
//! and the resolution and settlement protocol driven by an outside oracle.
pub mod pool_math;
pub mod wide;
pub mod pool;
pub mod liquidity;
pub mod market;
pub mod trading;
pub mod settlement;
pub mod oracle;
pub mod receiver;
pub mod payload_structs;
pub mod laws;
