//! Readiness-multiplexing core of a single-threaded TCP server.
//!
//! The crate holds the verified heart of the server: the registry of watched
//! descriptors, the handler dispatch table, the per-round decision logic and
//! the deferred reconciliation of the watch set. The surrounding process
//! (socket setup, the blocking poll syscall, reads and writes) drives this
//! core from outside and feeds it plain events.

pub mod conn;
pub mod handlers;
pub mod server;
pub mod watch;

pub use conn::Connection;
pub use conn::DispatchOutcome;
pub use conn::ReadEvent;
pub use conn::SinkEvent;
pub use handlers::Handler;
pub use handlers::HandlerTable;
pub use server::EventLoop;
pub use server::WaitDecision;
pub use server::WaitOutcome;
pub use watch::EventFlags;
pub use watch::Interest;
pub use watch::WatchEntry;
pub use watch::WatchSet;
