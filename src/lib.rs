//! A resumable RESP (REdis Serialization Protocol) decoder and encoder, and the
//! decision logic of a publish/subscribe client built on top of them.
pub mod pubsub;
pub mod resp;
