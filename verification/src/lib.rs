//! A component-tree reconciliation engine.
//!
//! A component type describes its output as a keyed collection of nodes. An
//! instance keeps the nodes it rendered last, computes the changes that lead
//! from them to a new collection, applies those changes to its cache and
//! reports, as plain values, what a rendering backend has to do. Messages
//! raised by rendered primitives are routed back to the instance whose
//! registry owns their identifier.
//!
//! # Design
//!
//! * Nodes are reconciled by key. A list of nodes without keys is
//!   reconciled by position: [`cache::positional`] gives each node its
//!   position as key.
//! * A tree of instances is a tree over one [`Component`] type. An embedded
//!   component says which concrete component it is by the discriminant
//!   `type_id`: the same discriminant under the same key updates the
//!   instance in place, another one replaces it.
//! * A handler is a token that the component interprets. Two handlers are
//!   the same handler exactly when their tokens are equal.
//! * Identifiers come from an [`IdSource`] that is handed to every operation
//!   that may register a handler. They are never reclaimed.
//! * The cache keeps its entries in the order in which their keys first
//!   appeared, so that a message is forwarded to the nested instances in
//!   an order that a contract can name.
//! * The engine calls no backend. A render returns [`Effect`]s. An
//!   embedded component is mounted where its node is: by the render that
//!   puts it in the cache, or by the row of a list that holds it. The
//!   effects of its first render are reported with it.
//! * An instance has room for a number of levels of nesting below it, and
//!   gives an instance that it mounts one level less. A new instance has
//!   room for as many levels as the machine can count.
//! * What would be a fatal condition is a [`Fault`]: a render returns it
//!   in place of effects. A render only ever returns the fault of an output
//!   that holds a key twice, or of an instance without room that is to
//!   mount a nested one, its own or that of a nested instance.

pub mod cache;
pub mod component;
pub mod diff;
pub mod dispatch;
pub mod effect;
pub mod ids;
pub mod laws;
pub mod layout;
pub mod list_view;
pub mod macros;
pub mod message;
pub mod node;
pub mod render;
mod text;

pub use component::{Component, ComponentWrapper, InstanceView};
pub use diff::{DiffView, VDomDiff};
pub use dispatch::Dispatch;
pub use effect::{Effect, Fault, Primitive};
pub use ids::{gen_id, IdSource};
pub use layout::top_to_bottom;
pub use list_view::{MyListView, Row, RowView};
pub use message::{Message, Payload};
pub use node::{NodeView, VButton, VComponent, VLabel, VList, VNode, VSelect, VTextInput};
