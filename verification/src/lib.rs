//! A small HTTP/1.x server library: header fields, requests and their
//! parser, responses and their form on the wire, and the discipline of the
//! worker pool that serves connections. Beside it stand a few smaller
//! pieces: linked stacks and lists, a line search, and exercises on
//! vectors, maps and strings.

pub mod collections;
pub mod fibonacci;
pub mod http;
pub mod minigrep;
pub mod rectangle;
pub mod smart_pointers;
pub mod text;
pub mod thread_pool;
pub mod too_many_linked_lists;
