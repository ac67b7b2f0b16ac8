pub mod engine;
pub mod entry;
pub mod fingerprint;
pub mod flatten;
pub mod names;
pub mod reconcile;
