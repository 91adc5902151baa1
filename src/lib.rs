//! A SOCKS5 endpoint that carries many client connections ("virtual ports")
//! over one physical link to a relay.
//!
//! - `frame`: the frames on the link and their bytes.
//! - `tunnel`: the port table, the two handles of each port, and what each
//!   operation does to the table.
//! - `laws`: what holds over whole runs of those operations.
//! - `socks`: the client's connect request, the address text, the replies.
//! - `pump`: the decisions of the two workers of each client connection.
//! - `setup`: the checks made before serving.
pub mod frame;
pub mod laws;
pub mod pump;
pub mod setup;
pub mod socks;
pub mod tunnel;
