//! Policy and address-translation core of a zero-trust network gateway.
pub mod client;
pub mod domain;
pub mod driver;
pub mod filter;
pub mod filter_table;
pub mod gateway;
pub mod grouping;
pub mod nat_table;
pub mod net;
pub mod packet;
pub mod peer_store;
pub mod resource;
