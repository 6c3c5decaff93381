//! An HTTP server's library: request parsing, responses, the static file
//! router's answers, and the bookkeeping of its reactor, task runner and
//! file-system queue.
pub mod fs;
pub mod headers;
pub mod http;
pub mod reactor;
pub mod router;
pub mod runner;
pub mod text;
pub mod url_text;
