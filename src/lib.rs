pub mod varint;
pub mod packet;
pub mod builder;
pub mod laws;
