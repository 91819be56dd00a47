//! Reusable tree shapes: components that build a node sub-tree from plain
//! inputs, ready for the compiler.

use vstd::prelude::*;

use crate::constraint::Constraint;
use crate::node::{LeafData, Node, NodeKind};

verus! {

/// A centred popup: `content` over a clearing backdrop, sized to the given
/// percentages of the region, framed by empty spacer rows and columns that
/// absorb the rest.
///
/// The frame is a column of three rows — spacer, body, spacer — whose body
/// is a row of three columns — spacer, content column, spacer. The content
/// column overlays the `clear` leaf (the host's clearing widget) under
/// `content`, so the popup paints over whatever was below it.
pub fn popup(percent_x: u16, percent_y: u16, clear: LeafData, content: Node) -> (n: Node)
    requires
        percent_x <= 100,
        percent_y <= 100,
    ensures
        n.constraint == Constraint::Min(0u16),
        n.kind matches NodeKind::Column(rows) && {
            &&& rows@.len() == 3
            &&& rows@[0].kind matches NodeKind::Row(top) && top@.len() == 0
            &&& rows@[0].constraint == Constraint::Percentage((((100 - percent_y) / 2)) as u16)
            &&& rows@[2].kind matches NodeKind::Row(bottom) && bottom@.len() == 0
            &&& rows@[2].constraint == Constraint::Percentage((((100 - percent_y) / 2)) as u16)
            &&& rows@[1].constraint == Constraint::Percentage(percent_y)
            &&& rows@[1].kind matches NodeKind::Row(cols) && {
                &&& cols@.len() == 3
                &&& cols@[0].kind matches NodeKind::Column(left) && left@.len() == 0
                &&& cols@[0].constraint == Constraint::Percentage(
                    (((100 - percent_x) / 2)) as u16,
                )
                &&& cols@[2].kind matches NodeKind::Column(right) && right@.len() == 0
                &&& cols@[2].constraint == Constraint::Percentage(
                    (((100 - percent_x) / 2)) as u16,
                )
                &&& cols@[1].constraint == Constraint::Percentage(percent_x)
                &&& cols@[1].kind matches NodeKind::Column(body) && {
                    &&& body@.len() == 1
                    &&& body@[0].kind matches NodeKind::Overlay(layers) && {
                        &&& layers@.len() == 2
                        &&& layers@[0].kind matches NodeKind::Leaf(l) && l == clear
                        &&& layers@[1] == content
                    }
                }
            }
        },
{
    let side_x = (100 - percent_x) / 2;
    let side_y = (100 - percent_y) / 2;
    let backdrop = Node {
        kind: NodeKind::Leaf(clear),
        constraint: Constraint::unspecified(),
        options: crate::constraint::SplitOptions::default(),
    };
    let stack = Node::overlay(vec![backdrop, content]);
    let middle_column = Node::column(vec![stack]).with_constraint(
        Constraint::Percentage(percent_x),
    );
    let body_row = Node::row(
        vec![
            Node::column(Vec::new()).with_constraint(Constraint::Percentage(side_x)),
            middle_column,
            Node::column(Vec::new()).with_constraint(Constraint::Percentage(side_x)),
        ],
    ).with_constraint(Constraint::Percentage(percent_y));
    Node::column(
        vec![
            Node::row(Vec::new()).with_constraint(Constraint::Percentage(side_y)),
            body_row,
            Node::row(Vec::new()).with_constraint(Constraint::Percentage(side_y)),
        ],
    )
}

} // verus!
