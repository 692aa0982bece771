//! The logic of a DNS proxy that blocks advertising.
//!
//! A query of a client takes its way through [`server`]: local records ([`custom_dns`]) come
//! first, then the blocklists ([`blocking`]) of the groups that the client is in ([`client`]),
//! then the cache ([`cache`]) and the upstreams ([`upstream`]). What was done is counted
//! ([`metrics`], [`query_log`]). The modules [`config`], [`startup`], [`api`] and [`cli`] hold the
//! decisions around it: what a configuration says, what a server starts with, what its HTTP
//! interface replies and what its control commands do;
//! [`tls`] reads certificates and keys.
//!
//! The library performs no I/O and reads no clock. Where the network, the disk or the time is
//! needed, a function says what is to be done next, and another goes on with the outcome.
//! Messages are those of `hickory_proto`, by their values ([`message`]); [`transport`] frames them
//! on a stream. The remaining modules are what all of this stands on: [`text`], [`strmap`],
//! [`order`], [`net`] and [`time`].

pub mod api;
pub mod blocking;
pub mod cache;
pub mod cli;
pub mod client;
pub mod config;
pub mod custom_dns;
pub mod message;
pub mod metrics;
pub mod net;
pub mod order;
pub mod query_log;
pub mod server;
pub mod startup;
pub mod strmap;
pub mod text;
pub mod time;
pub mod tls;
pub mod transport;
pub mod upstream;
