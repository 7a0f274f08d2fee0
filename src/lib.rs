//! Supervision of external video-capture processes: the progress-line
//! grammar, the carriage-return framing of the progress stream, the fixed
//! launch template and the registry state machine that drives start-up and
//! shutdown.

pub mod framing;
pub mod launch;
pub mod status;
pub mod supervisor;
