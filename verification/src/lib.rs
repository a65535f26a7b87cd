//! A small web server's logic: request routing, response bodies, a
//! request priority queue, a file cache, server-side includes, and the
//! command-line parsing of its shell.
pub mod text;
pub mod queue;
pub mod cache;
pub mod dynamic;
pub mod argv;
pub mod server;
