pub mod num;
pub mod order;
pub mod context;
pub mod window;
pub mod group;
pub mod error;
pub mod rank;

pub use context::Context;
pub use error::Error;
pub use num::Num;
pub use order::OrderedFloat;
pub use rank::{ta_rank, ta_ts_rank};
