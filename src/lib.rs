//! A sans-I/O protocol session for a RIGOL DS1054Z oscilloscope.
//!
//! The library formats commands into bytes, decodes replies from the bytes
//! received so far, and turns a screen capture into an RGB bitmap. The caller
//! owns the socket: it sends what [`scope::Scope::take_output`] hands out and
//! feeds back what arrives with [`scope::Scope::receive`].
pub mod bitmap;
pub mod block;
pub mod command;
pub mod error;
pub mod scope;
