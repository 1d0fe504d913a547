//! A slot-addressed in-memory key-value store with a hot zone and a cold zone,
//! the RESP wire format it speaks, and the command logic of its server.

pub mod decimal;
pub mod protocol;
pub mod value;
pub mod store;
pub mod server;
