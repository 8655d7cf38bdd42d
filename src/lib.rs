//! Reads the kernel's neighbour table, as the `ip neigh` command lists it,
//! into typed records: address, interface, link-layer address and state.
pub mod ip;
pub mod ip_text;
pub mod neighbor;
pub mod nud;
pub mod text;
