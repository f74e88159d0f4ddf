pub mod message;
pub mod model;
pub mod pool;
pub mod request;
pub mod worker;

pub use message::Message;
pub use pool::{PoolCore, PoolError};
pub use worker::{JobOutcome, WorkerAction, WorkerState};
