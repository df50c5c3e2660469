//! The command line and the network side of the viewer.
pub use crate::backoff::next_backoff;
pub use crate::backoff::Delay;
pub use crate::cli::Cli;
pub use crate::cli::Refusal;
pub use crate::session::Action;
pub use crate::session::Event;
pub use crate::session::Link;
pub use crate::session::LinkAction;
pub use crate::session::LinkEvent;
pub use crate::session::LoopExit;
pub use crate::session::Session;
pub use crate::session::Target;
pub use crate::transport::validate_transport;
pub use crate::transport::TransportError;
