//! The logic of a QUIC proxy for Encrypted ClientHello (RFC 9849) in split mode.
//!
//! A client-facing frontend holds the ECH keys. It decrypts the inner
//! ClientHello and sends it on to a backend server, which completes the
//! handshake without those keys. Everything else passes unchanged.
//!
//! - [`wire`], [`varint`], [`extensions`]: integers, strings and extension lists
//! - [`hello`], [`inner_hello`], [`outer_aad`]: ClientHello messages, the way from
//!   an encoded inner ClientHello back to the ClientHello, and the data that the
//!   sealed one is authenticated with
//! - [`hpke`], [`ech_config`], [`ech_key`]: HPKE as a server needs it, ECH configs
//!   and server keys
//! - [`ech`], [`message`], [`key_schedule`]: decryption of ECH offers and the
//!   state that a handshake keeps
//! - [`frontend`], [`ech_proxy`]: the proxies for records and handshake messages
//! - [`deframer`]: TLS records in a stream
//! - [`initial_keys`], [`crypto_frames`], [`quic_packet`]: QUIC Initial packets
//! - [`session`]: what is done with the packets of one client

pub mod crypto_frames;
pub mod deframer;
pub mod ech;
pub mod ech_config;
pub mod ech_key;
pub mod ech_proxy;
pub mod error;
pub mod extensions;
pub mod frontend;
pub mod hello;
pub mod hpke;
pub mod initial_keys;
pub mod inner_hello;
pub mod key_schedule;
pub mod message;
pub mod outer_aad;
pub mod quic_packet;
pub mod session;
pub mod varint;
pub mod wire;
