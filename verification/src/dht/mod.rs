//! The pure logic of a mainline DHT node: transaction ids, KRPC messages, the routing
//! table, node id security checks, announce storage and tokens.
pub mod error;
pub mod random;
pub mod text;
pub mod transaction;
pub mod routing;
pub mod message;
pub mod security;
pub mod storage;
pub mod token;
pub mod worker;
pub mod router;
