mod context;
mod error;
mod keyed;
pub mod laws;
mod message;
pub mod state;
mod service;

pub use context::{PubsubContext, PullStep, Puller, Subscription, QUEUE_BOUND};
pub use error::Error;
pub use message::PubsubMessage;
pub use service::{is_hex_digit, is_message_id, Server};
