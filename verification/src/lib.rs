//! A runtime core for nodes speaking a line-delimited JSON messaging
//! protocol: validated node identifiers, message envelopes with monotonic
//! correlation identifiers, a verified wire codec, a coalescing outbox, a
//! capped-backoff retry queue, and the single-timer wake-up discipline that
//! drives them.

pub mod broadcast;
pub mod decode;
pub mod init;
pub mod json;
pub mod message;
pub mod node;
pub mod node_id;
pub mod outbox;
pub mod payload;
pub mod retry_queue;
pub mod roundtrip;
pub mod scheduler;
pub mod wire;
