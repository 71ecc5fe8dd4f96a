//! A verified core for an HTTP/2 tunnel with SNI routing.
pub mod acme;
pub mod buf_pool;
pub mod buffers;
pub mod client;
pub mod config;
pub mod crypto;
pub mod fragment;
pub mod frame;
pub mod ip;
pub mod net_utils;
pub mod random;
pub mod routing;
pub mod server;
pub mod sessions;
pub mod sni;
pub mod startup;
pub mod string_map;
pub mod text;
pub mod udp_proxy;
