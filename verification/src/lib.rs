//! An in-memory order store together with a "bought together"
//! recommendation query: given a product id, rank the products that
//! co-occur with it across stored orders.

pub mod order;
pub mod recommend;
pub mod store;

pub use order::Order;
pub use recommend::bought_together;
pub use recommend::total_lines;
pub use order::OrderItem;
pub use order::Product;
pub use store::OrderStore;
pub use store::RejectReason;
