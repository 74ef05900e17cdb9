//! A single-instrument limit order book with an embedded matching engine.
//!
//! The book accepts resting limit orders, aggressive market orders and
//! cancellations, and maintains price-ordered collections of resting orders
//! with exact volume accounting and price-time matching semantics. All
//! quantities (sizes, prices, volumes) are exact fixed-point decimals,
//! represented as unsigned integers in a caller-chosen minor unit.

pub mod limit;
pub mod order;
pub mod order_book;
pub mod server_config;
pub mod server_env;
pub mod time;

pub use crate::limit::Limit;
pub use crate::order::Order;
pub use crate::order::OrderByTimestamp;
pub use crate::order::Side;
pub use crate::order_book::Match;
pub use crate::order_book::OrderBook;
pub use crate::order_book::OrderBookError;
pub use crate::order_book::OrderLocation;
pub use crate::server_config::ServerConfig;
pub use crate::server_env::ServerEnv;
