//! In-memory limit order book indexes.
//!
//! Two layouts of the same bookkeeping primitive:
//! - [`stackbook`]: a flat, fixed-capacity array per side kept in strict
//!   priority order (price, then size, then timestamp);
//! - [`treebook`]: a price-ordered map per side whose values are bounded
//!   price levels sorted by size.
pub mod stackbook;
pub mod treebook;

pub use stackbook::{Order, OrderBook, MAX_ORDERS};
