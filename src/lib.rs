//! Verified core of a blocking client facade for a remote function platform:
//! the value converter between host values and the tagged wire model, the
//! mapping of function outcomes to caller-facing errors, and the decisions
//! that drive blocking calls and live subscriptions.
pub mod client;
pub mod conversion_laws;
pub mod order;
pub mod subscription;
pub mod value;
