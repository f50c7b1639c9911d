//! Reconciles a running SSH daemon's configuration with a declared desired
//! state: a keyword model with shape-aware values, snapshots that track which
//! keywords are explicit and which are daemon defaults, a deterministic diff,
//! codecs for the daemon's directive syntax and a structured document form,
//! a content-fingerprint integrity guard, and a crash-safe apply protocol.
#![verifier::loop_isolation(false)]

pub mod error;
pub mod keyword;
pub mod strorder;
pub mod snapshot;
pub mod reconcile;
pub mod fingerprint;
pub mod codec;
pub mod json;
pub mod pipeline;
