//! The Prism runtime: a functional reactive programming runtime modelled on
//! Reflex. Events push values through a graph during an *occurrence*,
//! behaviors are pulled lazily, and dynamics pair the two.

pub mod value;
pub mod function;
pub mod subscriber_list;
pub mod runtime;
pub mod propagation;
pub mod event;
pub mod behavior;
pub mod dynamic;
pub mod slots;
pub mod any;
pub mod script;
pub mod backend;
