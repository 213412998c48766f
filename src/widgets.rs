//! Plain descriptions of widget settings that travel inside view artifacts.
pub mod button;
pub mod container;
pub mod serde_types;
