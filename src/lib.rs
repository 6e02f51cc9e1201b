//! A request dispatcher for a stand-in HTTP backend: requests are routed by
//! an exact (method, path) match to registered handlers, with a default
//! handler for everything else.

pub mod route;
pub mod table;
pub mod reply;
