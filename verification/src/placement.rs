//! The placement heuristic: assign a default position to every controller
//! node that lacks one.
//!
//! The bottommost position among the already-positioned nodes is the starting
//! point (falling back to the default node position when none exists); the
//! unplaced nodes stack downward from it, each offset from the previous one
//! by the configured gap plus the node height.  Nodes are processed in
//! snapshot order, the canonical deterministic order of this engine; when
//! several positioned nodes share the bottommost y, the first in snapshot
//! order wins.

use vstd::prelude::*;

use crate::DEFAULT_NODE_X_POSITION;
use crate::DEFAULT_NODE_Y_POSITION;
use crate::ids::AstNodeId;
use crate::ids::Position;
use crate::snapshot::NodeSnapshot;
use crate::snapshot::NodeSnapshotModel;

verus! {

/// Largest magnitude a node coordinate may have.
pub const COORD_LIMIT: i64 = 0x4000_0000_0000;

/// Largest value the vertical gap and the node height may have.
pub const SPACING_LIMIT: i64 = 0x100_0000;

/// Largest number of nodes one placement run accepts.
pub const PLACEMENT_NODE_LIMIT: usize = 0x1000_0000;

/// Whether a position lies within the coordinate range the heuristic
/// accepts.
pub open spec fn position_in_range(p: Position) -> bool {
    -COORD_LIMIT <= p.x <= COORD_LIMIT && -COORD_LIMIT <= p.y <= COORD_LIMIT
}

/// The position of the bottommost (minimal-y) positioned node, the first in
/// snapshot order among equals; `None` when no node has a position.
pub open spec fn bottommost_position(snap: Seq<NodeSnapshotModel>) -> Option<Position>
    decreases snap.len(),
{
    if snap.len() == 0 {
        None
    } else {
        let rest = bottommost_position(snap.drop_last());
        match (rest, snap.last().position) {
            (None, p) => p,
            (Some(b), None) => Some(b),
            (Some(b), Some(p)) => if p.y < b.y {
                Some(p)
            } else {
                Some(b)
            },
        }
    }
}

/// The positions the heuristic assigns: the k-th unplaced node, in snapshot
/// order, sits at the base x, `(k + 1)` offsets below the base y.
pub open spec fn placement_model(
    snap: Seq<NodeSnapshotModel>,
    base: Position,
    offset: int,
) -> Seq<(AstNodeId, Position)>
    decreases snap.len(),
{
    if snap.len() == 0 {
        Seq::empty()
    } else {
        let rest = placement_model(snap.drop_last(), base, offset);
        if snap.last().position is None {
            rest.push(
                (
                    snap.last().id,
                    Position { x: base.x, y: (base.y - offset * (rest.len() + 1)) as i64 },
                ),
            )
        } else {
            rest
        }
    }
}

/// The starting point of a placement run: the bottommost stored position, or
/// the default node position when no node has one.
pub open spec fn placement_base(snap: Seq<NodeSnapshotModel>) -> Position {
    match bottommost_position(snap) {
        Some(p) => p,
        None => Position { x: DEFAULT_NODE_X_POSITION, y: DEFAULT_NODE_Y_POSITION },
    }
}

/// Assign a default position to every snapshot node that lacks one: stack
/// them downward from the bottommost positioned node (or the default
/// position), each a gap plus a node height below the previous one.  The
/// caller applies the returned assignments through the controller's
/// repositioning call, within one edit transaction.
#[verifier::loop_isolation(false)]
pub fn plan_default_positions(
    nodes: &Vec<NodeSnapshot>,
    default_gap: i64,
    node_height: i64,
) -> (r: Vec<(AstNodeId, Position)>)
    requires
        0 <= default_gap <= SPACING_LIMIT,
        0 <= node_height <= SPACING_LIMIT,
        nodes@.len() <= PLACEMENT_NODE_LIMIT,
        forall|t: int|
            0 <= t < nodes@.len() && (#[trigger] nodes@[t]@.position) is Some
                ==> position_in_range(nodes@[t]@.position.unwrap()),
    ensures
        r@ =~= placement_model(
            Seq::new(nodes@.len(), |i: int| nodes@[i]@),
            placement_base(Seq::new(nodes@.len(), |i: int| nodes@[i]@)),
            default_gap + node_height,
        ),
{
    let ghost snapm = Seq::new(nodes@.len(), |i: int| nodes@[i]@);
    let offset: i64 = default_gap + node_height;
    let mut best: Option<Position> = None;
    let mut i: usize = 0;
    while i < nodes.len()
        invariant
            i <= nodes@.len(),
            best == bottommost_position(snapm.take(i as int)),
            (match best {
                Some(b) => position_in_range(b),
                None => true,
            }),
        decreases nodes@.len() - i,
    {
        proof {
            let t1 = snapm.take(i as int + 1);
            assert(t1.drop_last() =~= snapm.take(i as int));
            assert(t1.last() == snapm[i as int]);
            assert(bottommost_position(t1.drop_last()) == bottommost_position(
                snapm.take(i as int),
            ));
            if snapm[i as int].position is Some {
                assert(position_in_range(snapm[i as int].position.unwrap()));
            }
        }
        match nodes[i].position {
            Some(p) => {
                best = match best {
                    None => Some(p),
                    Some(b) => if p.y < b.y {
                        Some(p)
                    } else {
                        Some(b)
                    },
                };
            },
            None => {},
        }
        i += 1;
    }
    proof {
        assert(snapm.take(nodes@.len() as int) =~= snapm);
    }
    let base = match best {
        Some(b) => b,
        None => crate::default_node_position(),
    };
    let mut r: Vec<(AstNodeId, Position)> = Vec::new();
    let mut next_y: i64 = base.y - offset;
    proof {
        assert(r@.len() == 0);
        assert(offset * (r@.len() + 1) == offset) by (nonlinear_arith)
            requires
                r@.len() == 0,
        ;
    }
    let mut i: usize = 0;
    while i < nodes.len()
        invariant
            i <= nodes@.len(),
            base == placement_base(snapm),
            position_in_range(base),
            0 <= offset <= 2 * SPACING_LIMIT,
            r@ =~= placement_model(snapm.take(i as int), base, offset as int),
            r@.len() <= i,
            next_y == base.y - offset * (r@.len() + 1),
        decreases nodes@.len() - i,
    {
        proof {
            let t1 = snapm.take(i as int + 1);
            assert(t1.drop_last() =~= snapm.take(i as int));
            assert(t1.last() == snapm[i as int]);
            assert(placement_model(t1.drop_last(), base, offset as int) == placement_model(
                snapm.take(i as int),
                base,
                offset as int,
            ));
            assert(offset * (r@.len() + 1) <= (2 * SPACING_LIMIT) * (PLACEMENT_NODE_LIMIT + 1))
                by (nonlinear_arith)
                requires
                    0 <= offset <= 2 * SPACING_LIMIT,
                    0 <= r@.len() <= PLACEMENT_NODE_LIMIT,
            ;
            assert(offset * (r@.len() + 1) >= 0) by (nonlinear_arith)
                requires
                    0 <= offset,
                    0 <= r@.len(),
            ;
        }
        if nodes[i].position.is_none() {
            r.push((nodes[i].id, Position { x: base.x, y: next_y }));
            proof {
                assert(offset * (r@.len() + 1) == offset * (r@.len() - 1 + 1) + offset)
                    by (nonlinear_arith);
                assert(offset * (r@.len() - 1 + 1) <= (2 * SPACING_LIMIT) * (PLACEMENT_NODE_LIMIT
                    + 1)) by (nonlinear_arith)
                    requires
                        0 <= offset <= 2 * SPACING_LIMIT,
                        0 <= r@.len() - 1 <= PLACEMENT_NODE_LIMIT,
                ;
            }
            next_y = next_y - offset;
        }
        i += 1;
    }
    proof {
        assert(snapm.take(nodes@.len() as int) =~= snapm);
    }
    r
}

} // verus!
