//! Matching engine of a market simulation: order books with price-time
//! priority, an exchange that settles trades into a balance book, and the
//! length-prefixed framing of command buffers.

pub mod util;
pub mod errors;
pub mod asset;
pub mod order;
pub mod market;
pub mod orderbook;
pub mod balance_book;
pub mod balance_manager;
pub mod exchange;
pub mod exchange_client;
pub mod mp_command_decoder;
pub mod market_handler;
pub mod session;

pub use util::types;
pub use util::exchange_configs;
