pub mod cursor;
pub mod vlq;
pub mod frame;
pub mod handshake;
