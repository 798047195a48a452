//! The HTTP/3 echo server: what each worker decides about the connections that
//! arrive on its sockets. A connection never moves between workers, and workers
//! share nothing.

pub mod exchange;
pub mod ids;
pub mod setup;
pub mod worker;
