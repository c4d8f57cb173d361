//! The NORMAN remote-command protocol: the wire packet codec and the
//! decisions of the worker pool and of the two endpoints.

pub mod client;
pub mod frame;
pub mod packet;
pub mod pool;
pub mod server;
pub mod text;
