//! A fine-grained reactive graph with scoped ownership, lazily recomputed
//! memos and eagerly re-run effects, together with the class flags and the
//! active-link state that are derived from it.
//!
//! - [`model`] is the mathematical model of the graph; [`laws`] holds what
//!   is proved of it across several operations.
//! - [`runtime`] is the graph itself: scopes, signals, memos and effects.
//!   [`tracking`] is the context through which a running computation reads,
//!   and the trait of a body, which says what a run of it yields.
//! - The runtime keeps, for every live node that has run, that its value is
//!   one that its body yields on a graph that held what the node saw; with
//!   the invariant that a clean node saw what its sources hold now, this
//!   ties the value of a memo or an effect to the present.
//! - [`class`] and [`link`] are the consumers: a class that is toggled by a
//!   computation, and a link that knows whether it is the active one, each
//!   with the laws that say what they show. [`text`] compares paths.

pub mod value;
pub mod model;
pub mod graph;
pub mod tracking;
pub mod table;
pub mod runtime;
pub mod laws;
pub mod text;
pub mod class;
pub mod link;

pub use crate::class::{Class, ClassBinding, IntoClass};
pub use crate::link::{AProps, Anchor, Route, TextProp, TextValue, A};
pub use crate::runtime::{Effect, Memo, Notify, Runtime, Scope, Signal};
pub use crate::tracking::{Computation, Held, ReactiveError, Tracker};
pub use crate::value::Value;
