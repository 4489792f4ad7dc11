//! The session and registry engine of a small security operations centre's
//! management server: the wire and file formats, the rule store, the log
//! store, the sensor registry, the per-connection protocol and the control loop.
pub mod codec;
pub mod digest;
pub mod rules;
pub mod logstore;
pub mod registry;
pub mod protocol;
pub mod control;
pub mod auth;
pub mod matching;
