//! Transparent proxy core for a language-server wire protocol.
//!
//! The library holds the logic of the proxy: the incremental frame parser
//! that cuts a byte stream into length-prefixed messages, the log-line
//! renderer, the per-chunk channel step that logs and forwards, and the
//! supervisor state machine that decides the program's exit code. The
//! surrounding process (I/O, spawning, the async loops) lives outside and
//! hands the library plain values.

pub mod channel;
pub mod format;
pub mod frame;
pub mod parser;
pub mod sink;
pub mod supervisor;
pub mod text;
