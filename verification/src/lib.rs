//! Core logic of a dynamic-DNS reconciler: public-address discovery by
//! consensus among independent lookup endpoints, bounded retries, record
//! identity caching, and the per-cycle decisions that keep a DNS provider's
//! records pointed at the host's current addresses.
//!
//! Everything here works on plain values — address text, addresses, lists
//! of modeled zones and records, per-endpoint fetch outcomes; the
//! surrounding binary performs the HTTP calls and hands their results in.

pub mod consensus;
pub mod ip;
pub mod reconcile;
pub mod records;
pub mod text;

pub use text::split_subdomain;
