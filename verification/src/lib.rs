//! Reusable building blocks for three design patterns: a conditional
//! setter for builders, a collection of factories keyed by identifier with
//! fallback strategies, and a registry of observers held by weak
//! references.
pub mod builder;
pub mod factory;
pub mod key_order;
pub mod observer;

pub use builder::{Builder, BuilderMut};
pub use factory::{Factory, FactoryError, FactoryFallback, FactoryRegistry, SimpleFactory};
pub use observer::{Observable, Observer, ObserverRegistry, Subject};
