//! Container settings.
use vstd::prelude::*;

verus! {

/// The identifier of a container.
#[derive(Debug, Clone, PartialEq, Eq)]
pub enum Id {
    /// A fresh identifier, made when the widget is built.
    Unique,
    /// An identifier chosen by name.
    Custom(String),
}

} // verus!
