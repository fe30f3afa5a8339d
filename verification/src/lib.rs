//! A minimal HTTP/1.1 server core: a request parser over one buffered read,
//! a response model with its wire serializer, the route handlers' decisions,
//! and the job queue of a fixed-capacity worker pool.

pub mod handlers;
pub mod http;
pub mod thread_pool;
