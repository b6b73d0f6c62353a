//! A minimal publish/subscribe relay core.
//!
//! The crate holds the verified heart of the relay: the wire-message
//! codec and the registry of connected clients, their permissions, their
//! subscriptions and their outbound queues. Listener plumbing (sockets,
//! tasks, logging sinks) lives outside and reaches the registry only
//! through the operations defined here.

pub mod codec;
pub mod laws;
pub mod messages;
pub mod model;
pub mod registry;
pub mod settings;

pub use codec::decode;
pub use codec::encode;
pub use messages::DecodeError;
pub use messages::MsgModel;
pub use messages::WireMsg;
pub use model::ClientModel;
pub use model::RegistryModel;
pub use registry::Registry;
pub use settings::LogChoice;
pub use settings::choose_logging;
pub use settings::effective_ports;
