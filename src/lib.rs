//! Bookkeeping for pseudo-terminal sessions: unique session ids, the session
//! registry, incremental UTF-8 decoding of terminal output and the decisions
//! of the per-session reader loop.
pub mod decoder;
pub mod ids;
pub mod reader;
pub mod registry;

pub use decoder::Utf8Decoder;
pub use reader::{ReadEvent, ReaderLoop, ReaderStep};
pub use registry::{resolve_shell, PtyError, PtyManager, PtyProcess};
