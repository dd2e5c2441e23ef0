pub mod handshake;
pub mod mc;
pub mod sniff;
pub mod util;
