//! Single-side zap router for constant-product pools.
//!
//! One token in, liquidity out, and back. The pool mathematics stand in
//! `amm_logic`, the operations in `zap`, `zap_in` and `zap_out`, and what holds of
//! the whole in `amm_laws`, `closeness`, `round_trip`, `conservation`, `runs` and
//! `honest_pool`. What each formula, each encoding and each operation is, in terms of
//! what goes in and comes out alone, stands in `arithmetic_laws`, `value_laws`,
//! `promises` and `deliveries`.

pub mod amm_laws;
pub mod amm_logic;
pub mod arithmetic_laws;
pub mod bytes;
pub mod closeness;
pub mod conservation;
pub mod deliveries;
pub mod honest_pool;
pub mod pool;
pub mod promises;
pub mod protocol;
pub mod round_trip;
pub mod runs;
pub mod transfers;
pub mod types;
pub mod value_laws;
pub mod wide;
pub mod zap;
pub mod zap_in;
pub mod zap_out;
