//! Transport layer of a peer-to-peer network hypervisor: the socket table,
//! binding reconciliation, socket references and outbound path selection,
//! with every rule stated as a contract and proved.
//!
//! The library decides and its caller carries out. It holds no socket and
//! performs no I/O: sockets are known by their identities, and whatever has
//! to be bound, started, cancelled or sent is handed to the caller as a
//! plain value, whose outcome the caller reports back.
//!
//! - [`service`] is the entry point: the state of the transport and what
//!   the overlay core may ask of it.
//! - [`table`] and [`binding`] hold the sockets of every port and keep them
//!   in step with the interfaces of the system.
//! - [`socket`] has the bound socket and the reference to it that the
//!   overlay core keeps; [`workers`] the readers of a socket.
//! - [`paths`] and [`send`] choose the sockets that a datagram leaves from.
//! - [`background`] paces the two loops of the service, [`config`] answers
//!   what the configuration says about paths.
//! - [`address`], [`interface`] and [`text`] are the values all of this
//!   speaks of; [`secure`] compares secrets; [`sequences`] holds the facts
//!   about sequences that the proofs share.

pub mod address;
pub mod background;
pub mod binding;
pub mod config;
pub mod interface;
pub mod paths;
pub mod secure;
pub mod send;
pub mod sequences;
pub mod service;
pub mod socket;
pub mod table;
pub mod text;
pub mod workers;

pub use crate::secure::secure_eq;
pub use crate::service::Service;
pub use crate::socket::LocalSocket;
