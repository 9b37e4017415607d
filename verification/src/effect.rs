use vstd::prelude::*;

verus! {

/// What a backend has to create for a node. The texts, options and row count
/// are those of the node. `action` is the identifier under which a click or
/// a selection is reported, `id` the one under which a text field reports its
/// changes.
#[derive(Clone, Copy, Debug, PartialEq, Eq)]
pub enum Primitive {
    Label,
    Button { action: Option<usize> },
    View,
    TextField { id: usize },
    List,
    Select { action: Option<usize> },
}

/// One thing that a backend has to do to the primitives of an instance
/// after a render. Every effect names the key of the node it is about; the
/// node itself is in the instance's cache.
#[derive(Debug, PartialEq, Eq)]
pub enum Effect {
    /// Create the primitive for the node under `key` and mount it.
    Create { key: usize, primitive: Primitive },
    /// Unmount the primitive under `key`, then create and mount this one.
    Replace { key: usize, primitive: Primitive },
    /// Show the text that the node under `key` has now.
    SetText { key: usize },
    /// Report clicks on the button under `key`, or choices in the selector
    /// under `key`, under `action`, or no longer at all.
    SetAction { key: usize, action: Option<usize> },
    /// Report changes of the text field under `key` under `id`.
    SetInputId { key: usize, id: usize },
    /// Create a view for the instance nested under `key` and mount it. The
    /// instance was mounted: these are the effects on its own primitives.
    Mount { key: usize, effects: Vec<Effect> },
    /// Unmount the primitive under `key`, then create a view for the
    /// instance nested under `key` and mount it. The instance was mounted:
    /// these are the effects on its own primitives.
    Remount { key: usize, effects: Vec<Effect> },
    /// The instance nested under `key` took new props and rendered again:
    /// these are the effects on its own primitives.
    Child { key: usize, effects: Vec<Effect> },
    /// Unmount the primitive under `key`.
    Remove { key: usize },
    /// Arrange the primitives under these keys from top to bottom, in this order.
    Layout { order: Vec<usize> },
}

/// A render or a change could not be carried out: a component's output is
/// malformed, or the instance's cache is not what a change was computed for.
#[derive(Debug, PartialEq, Eq)]
pub enum Fault {
    /// A component's output holds `key` twice.
    Duplicate { key: usize },
    /// The change expects a node under `key`, and the cache has none.
    Missing { key: usize },
    /// The change expects a node of another kind, or an embedded component of
    /// another concrete type, than the cache has under `key`.
    Mismatch { key: usize },
    /// The instance nested under `key` met this fault.
    Child { key: usize, fault: Box<Fault> },
    /// The node under `key` embeds a component, and the instance has no
    /// room left to mount an instance below it.
    TooDeep { key: usize },
}

} // verus!
