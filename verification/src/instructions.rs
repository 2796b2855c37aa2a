//! The operations of the engine, each on a snapshot of the records that it
//! touches.

pub mod add_liquidity;
pub mod init_pool;
pub mod init_tick;
pub mod swap;
pub mod withdraw;
