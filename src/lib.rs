//! A parser for single lines of the IRC wire protocol: the optional prefix
//! (a server, or a nick with user and host), the command, and up to fifteen
//! parameters, the last of which may hold spaces.

pub mod laws;
pub mod parser;
pub mod render;
