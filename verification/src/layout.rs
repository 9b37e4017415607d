use vstd::prelude::*;

verus! {

/// An edge or a dimension of a primitive.
#[derive(Clone, Copy, Debug, PartialEq, Eq)]
pub enum Anchor {
    Top,
    Bottom,
    Leading,
    Trailing,
    Width,
    Height,
}

/// What an edge is tied to: the primitive at an index of the list that is
/// laid out, or the parent that contains them all.
#[derive(Clone, Copy, Debug, PartialEq, Eq)]
pub enum Target {
    View(usize),
    Parent,
}

/// One constraint of a layout. `view` is the index of the primitive that it
/// constrains.
#[derive(Clone, Copy, Debug, PartialEq, Eq)]
pub enum Constraint {
    /// The edge `anchor` of the primitive lies where the same edge of `to`
    /// lies or, between neighbours, where the opposite edge of the next
    /// primitive lies; it is moved by the padding where `padded` holds.
    Equal { view: usize, anchor: Anchor, to: Target, to_anchor: Anchor, padded: bool },
    /// The dimension `anchor` of the primitive is at least `least` points.
    AtLeast { view: usize, anchor: Anchor, least: usize },
}

/// The constraint that ties the bottom of the primitive at `i` to the top
/// of the next one.
pub open spec fn adjoining(i: int) -> Constraint {
    Constraint::Equal {
        view: i as usize,
        anchor: Anchor::Bottom,
        to: Target::View((i + 1) as usize),
        to_anchor: Anchor::Top,
        padded: false,
    }
}

/// The constraint that ties the edge `anchor` of the primitive at `i` to
/// the same edge of the parent, moved by the padding.
pub open spec fn to_parent(i: int, anchor: Anchor) -> Constraint {
    Constraint::Equal {
        view: i as usize,
        anchor,
        to: Target::Parent,
        to_anchor: anchor,
        padded: true,
    }
}

/// The constraint that keeps the dimension `anchor` of the primitive at
/// `i` at one point or more.
pub open spec fn at_least_one(i: int, anchor: Anchor) -> Constraint {
    Constraint::AtLeast { view: i as usize, anchor, least: 1 }
}

/// The constraints that arrange `count` primitives from top to bottom in
/// their parent: the top of the first and the bottom of the last at those
/// of the parent; the bottom of each at the top of the next; the leading
/// and the trailing edge of each at those of the parent; the width and the
/// height of each at one point or more. The edges tied to the parent are
/// moved by the padding. No primitives, no constraints.
pub open spec fn layout_plan(count: nat) -> Seq<Constraint> {
    if count == 0 {
        Seq::empty()
    } else {
        seq![to_parent(0, Anchor::Top), to_parent(count - 1, Anchor::Bottom)] + Seq::new(
            (count - 1) as nat,
            |i: int| adjoining(i),
        ) + Seq::new(
            2 * count,
            |j: int|
                if j % 2 == 0 {
                    to_parent(j / 2, Anchor::Leading)
                } else {
                    to_parent(j / 2, Anchor::Trailing)
                },
        ) + Seq::new(
            2 * count,
            |j: int|
                if j % 2 == 0 {
                    at_least_one(j / 2, Anchor::Width)
                } else {
                    at_least_one(j / 2, Anchor::Height)
                },
        )
    }
}

/// The constraints that arrange `count` primitives from top to bottom in
/// their parent, with the padding on all sides.
pub fn top_to_bottom(count: usize) -> (constraints: Vec<Constraint>)
    ensures
        constraints@ == layout_plan(count as nat),
{
    let mut constraints: Vec<Constraint> = Vec::new();
    if count == 0 {
        return constraints;
    }
    constraints.push(
        Constraint::Equal {
            view: 0,
            anchor: Anchor::Top,
            to: Target::Parent,
            to_anchor: Anchor::Top,
            padded: true,
        },
    );
    constraints.push(
        Constraint::Equal {
            view: count - 1,
            anchor: Anchor::Bottom,
            to: Target::Parent,
            to_anchor: Anchor::Bottom,
            padded: true,
        },
    );
    let ghost ends = constraints@;
    let mut i: usize = 0;
    while i + 1 < count
        invariant
            0 < count,
            i + 1 <= count,
            constraints@ == ends + Seq::new(i as nat, |k: int| adjoining(k)),
        decreases count - i,
    {
        constraints.push(
            Constraint::Equal {
                view: i,
                anchor: Anchor::Bottom,
                to: Target::View(i + 1),
                to_anchor: Anchor::Top,
                padded: false,
            },
        );
        i += 1;
        assert(constraints@ =~= ends + Seq::new(i as nat, |k: int| adjoining(k)));
    }
    let ghost joined = constraints@;
    let mut j: usize = 0;
    while j < count
        invariant
            j <= count,
            constraints@ == joined + Seq::new(
                2 * j as nat,
                |k: int|
                    if k % 2 == 0 {
                        to_parent(k / 2, Anchor::Leading)
                    } else {
                        to_parent(k / 2, Anchor::Trailing)
                    },
            ),
        decreases count - j,
    {
        constraints.push(
            Constraint::Equal {
                view: j,
                anchor: Anchor::Leading,
                to: Target::Parent,
                to_anchor: Anchor::Leading,
                padded: true,
            },
        );
        constraints.push(
            Constraint::Equal {
                view: j,
                anchor: Anchor::Trailing,
                to: Target::Parent,
                to_anchor: Anchor::Trailing,
                padded: true,
            },
        );
        j += 1;
        assert(constraints@ =~= joined + Seq::new(
            2 * j as nat,
            |k: int|
                if k % 2 == 0 {
                    to_parent(k / 2, Anchor::Leading)
                } else {
                    to_parent(k / 2, Anchor::Trailing)
                },
        ));
    }
    let ghost sided = constraints@;
    let mut j: usize = 0;
    while j < count
        invariant
            j <= count,
            constraints@ == sided + Seq::new(
                2 * j as nat,
                |k: int|
                    if k % 2 == 0 {
                        at_least_one(k / 2, Anchor::Width)
                    } else {
                        at_least_one(k / 2, Anchor::Height)
                    },
            ),
        decreases count - j,
    {
        constraints.push(Constraint::AtLeast { view: j, anchor: Anchor::Width, least: 1 });
        constraints.push(Constraint::AtLeast { view: j, anchor: Anchor::Height, least: 1 });
        j += 1;
        assert(constraints@ =~= sided + Seq::new(
            2 * j as nat,
            |k: int|
                if k % 2 == 0 {
                    at_least_one(k / 2, Anchor::Width)
                } else {
                    at_least_one(k / 2, Anchor::Height)
                },
        ));
    }
    assert(constraints@ =~= layout_plan(count as nat));
    constraints
}

} // verus!
