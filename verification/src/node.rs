//! The node tree: the declarative description of one frame, built fresh for
//! every render pass by the front end and consumed by the compiler.

use vstd::prelude::*;

use crate::constraint::{Constraint, SplitOptions};
use crate::identity::is_digit_seq;

verus! {

/// What a leaf carries: which widget kind to construct, an opaque handle to
/// its validated property bag, an optional opaque handle to external state,
/// and what the identity allocator needs — the call-site counter the front
/// end stamped on this position, and an optional explicit key.
pub struct LeafData {
    /// Index into the host's widget-kind registry.
    pub kind: u32,
    /// Opaque handle to the property bag the host will construct from.
    pub props: u64,
    /// Opaque handle to external widget state, if the leaf is stateful.
    pub state: Option<u64>,
    /// Call-site counter, unique within the declaration being compiled and
    /// stable across render passes.
    pub site: u32,
    /// Explicit key distinguishing code-identical sites inside a loop.
    pub key: Option<Vec<u8>>,
}

/// The shape of a node.
pub enum NodeKind {
    /// Children side by side, splitting the region horizontally.
    Row(Vec<Node>),
    /// Children stacked, splitting the region vertically.
    Column(Vec<Node>),
    /// Children on top of one another: each gets the full region, painted in
    /// declaration order, later on top.
    Overlay(Vec<Node>),
    /// A widget to paint.
    Leaf(LeafData),
    /// A leaf produced by a deferred block, evaluated by the time the tree
    /// is built; compiled exactly as a leaf.
    InlineBlock(LeafData),
}

/// One node of the tree: its shape, the constraint it presents to its
/// parent's split, and the options it applies to its own split.
pub struct Node {
    pub kind: NodeKind,
    pub constraint: Constraint,
    pub options: SplitOptions,
}

/// A leaf the registry can construct and the identity alphabet can name.
pub open spec fn leaf_ok(leaf: LeafData, n_kinds: int) -> bool {
    &&& (leaf.kind as int) < n_kinds
    &&& match leaf.key {
        Option::Some(k) => is_digit_seq(k@),
        Option::None => true,
    }
}

/// A tree every leaf of which is well formed: exactly the trees the
/// compiler accepts.
pub open spec fn tree_ok(t: Node, n_kinds: int) -> bool
    decreases t,
{
    match t.kind {
        NodeKind::Row(children) => forest_ok(children@, 0, n_kinds),
        NodeKind::Column(children) => forest_ok(children@, 0, n_kinds),
        NodeKind::Overlay(children) => forest_ok(children@, 0, n_kinds),
        NodeKind::Leaf(leaf) => leaf_ok(leaf, n_kinds),
        NodeKind::InlineBlock(leaf) => leaf_ok(leaf, n_kinds),
    }
}

/// Every tree of `children[i..]` is well formed.
pub open spec fn forest_ok(children: Seq<Node>, i: int, n_kinds: int) -> bool
    decreases children, children.len() - i,
{
    if i < 0 || i >= children.len() {
        true
    } else {
        tree_ok(children[i], n_kinds) && forest_ok(children, i + 1, n_kinds)
    }
}

impl Node {
    /// A leaf with no explicit key and no external state, carrying the
    /// default constraint.
    pub fn leaf(kind: u32, props: u64, site: u32) -> (n: Node)
        ensures
            n.kind matches NodeKind::Leaf(l) && l == (LeafData {
                kind,
                props,
                state: Option::<u64>::None,
                site,
                key: Option::<Vec<u8>>::None,
            }),
            n.constraint == Constraint::Min(0u16),
            n.options.margin == 0,
    {
        Node {
            kind: NodeKind::Leaf(
                LeafData { kind, props, state: Option::None, site, key: Option::None },
            ),
            constraint: Constraint::unspecified(),
            options: SplitOptions::default(),
        }
    }

    /// A row of children, split horizontally.
    pub fn row(children: Vec<Node>) -> (n: Node)
        ensures
            n.kind matches NodeKind::Row(cs) && cs@ == children@,
            n.constraint == Constraint::Min(0u16),
            n.options.margin == 0,
    {
        Node {
            kind: NodeKind::Row(children),
            constraint: Constraint::unspecified(),
            options: SplitOptions::default(),
        }
    }

    /// A column of children, split vertically.
    pub fn column(children: Vec<Node>) -> (n: Node)
        ensures
            n.kind matches NodeKind::Column(cs) && cs@ == children@,
            n.constraint == Constraint::Min(0u16),
            n.options.margin == 0,
    {
        Node {
            kind: NodeKind::Column(children),
            constraint: Constraint::unspecified(),
            options: SplitOptions::default(),
        }
    }

    /// Children stacked over the same region, painted in order.
    pub fn overlay(children: Vec<Node>) -> (n: Node)
        ensures
            n.kind matches NodeKind::Overlay(cs) && cs@ == children@,
            n.constraint == Constraint::Min(0u16),
            n.options.margin == 0,
    {
        Node {
            kind: NodeKind::Overlay(children),
            constraint: Constraint::unspecified(),
            options: SplitOptions::default(),
        }
    }

    /// The same node with the given constraint towards its parent.
    pub fn with_constraint(self, constraint: Constraint) -> (n: Node)
        ensures
            n.kind == self.kind,
            n.constraint == constraint,
            n.options == self.options,
    {
        Node { constraint, ..self }
    }

    /// The same node with the given split options.
    pub fn with_options(self, options: SplitOptions) -> (n: Node)
        ensures
            n.kind == self.kind,
            n.constraint == self.constraint,
            n.options == options,
    {
        Node { options, ..self }
    }

    /// The same leaf with an explicit key; other nodes are untouched.
    pub fn with_key(self, key: Vec<u8>) -> (n: Node)
        ensures
            self.kind matches NodeKind::Leaf(l) ==> n.kind matches NodeKind::Leaf(l2) && l2
                == (LeafData { key: Option::Some(key), ..l }),
            !(self.kind matches NodeKind::Leaf(_)) ==> n == self,
            n.constraint == self.constraint,
            n.options == self.options,
    {
        match self.kind {
            NodeKind::Leaf(l) => Node {
                kind: NodeKind::Leaf(LeafData { key: Option::Some(key), ..l }),
                constraint: self.constraint,
                options: self.options,
            },
            kind => Node { kind, constraint: self.constraint, options: self.options },
        }
    }

    /// The same leaf bound to external state; other nodes are untouched.
    pub fn with_state(self, state: u64) -> (n: Node)
        ensures
            self.kind matches NodeKind::Leaf(l) ==> n.kind matches NodeKind::Leaf(l2) && l2
                == (LeafData { state: Option::Some(state), ..l }),
            !(self.kind matches NodeKind::Leaf(_)) ==> n == self,
            n.constraint == self.constraint,
            n.options == self.options,
    {
        match self.kind {
            NodeKind::Leaf(l) => Node {
                kind: NodeKind::Leaf(LeafData { state: Option::Some(state), ..l }),
                constraint: self.constraint,
                options: self.options,
            },
            kind => Node { kind, constraint: self.constraint, options: self.options },
        }
    }

    /// A leaf wrapped as the result of a deferred inline block.
    pub fn inline_block(leaf: LeafData) -> (n: Node)
        ensures
            n.kind matches NodeKind::InlineBlock(l) && l == leaf,
            n.constraint == Constraint::Min(0u16),
            n.options.margin == 0,
    {
        Node {
            kind: NodeKind::InlineBlock(leaf),
            constraint: Constraint::unspecified(),
            options: SplitOptions::default(),
        }
    }
}

} // verus!
