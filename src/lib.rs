pub mod bytes;
pub mod cli;
pub mod codec;
pub mod coordinator;
pub mod decimal;
pub mod irc;
pub mod resolver;
pub mod session;
pub mod transfer;
