//! The update planner: computes, from a freshly fetched controller snapshot
//! and the correlation store, the minimal set of view-mutation commands
//! needed to reconcile the view with the controller.
//!
//! The commands are emitted in a fixed order to preserve the engine's
//! invariants: (1) remove nodes, (2) update expressions, (3) update
//! positions, (4) update visualizations, (5) add new nodes, (6) remove
//! connections, (7) add connections.  Node additions are deliberately
//! sequenced before connection changes so that no connection ever references
//! a not-yet-created node.

use vstd::prelude::*;

use crate::ids::AstNodeId;
use crate::ids::ConnectionModel;
use crate::ids::Position;
use crate::ids::ViewConnectionId;
use crate::ids::ViewEndpoint;
use crate::ids::ViewEndpointModel;
use crate::ids::ViewNodeId;
use crate::ids::contains_connection;
use crate::snapshot::NodeSnapshotModel;
use crate::snapshot::snap_has;
use crate::snapshot::find_index;
use crate::snapshot::lemma_find_index;
use crate::snapshot::lemma_find_index_push;
use crate::snapshot::lemma_find_index_same;
use crate::state::lemma_kept_nodes_wf;
use crate::state::NodeEntryModel;
use crate::state::State;
use crate::state::kept_nodes;
use crate::state::entry_after_expr;
use crate::state::entry_after_position;
use crate::state::entry_after_visualization;
use crate::snapshot::NodeSnapshot;
use crate::ids::Connection;
use crate::ids::clone_ports;
use crate::state::ConnectionEntryModel;
use crate::state::kept_connections;
use crate::state::dropped_node_views;
use crate::state::dropped_connection_views;
use crate::state::lemma_kept_connections_wf;
use crate::snapshot::Snapshot;
use crate::state::opt_str_view;

verus! {

/// An outbound command directed at the view.
#[derive(Clone, Debug)]
pub enum ViewCommand {
    /// Remove the view node.
    RemoveNode(ViewNodeId),
    /// Set the displayed expression text of the view node.
    SetNodeExpression(ViewNodeId, String),
    /// Set the position of the view node.
    SetNodePosition(ViewNodeId, Position),
    /// Set the visualization path of the view node.
    SetNodeVisualization(ViewNodeId, Option<String>),
    /// Turn the view node's visualization on.
    EnableVisualization(ViewNodeId),
    /// Turn the view node's visualization off.
    DisableVisualization(ViewNodeId),
    /// Create one new view node; the view reports the assigned id back.
    AddNode,
    /// Remove the view edge.
    RemoveConnection(ViewConnectionId),
    /// Create a view edge between the two endpoints.
    AddConnection(ViewEndpoint, ViewEndpoint),
}

impl ViewCommand {
    /// The stage a command belongs to in the fixed emission order.
    pub open spec fn stage(self) -> int {
        match self {
            ViewCommand::RemoveNode(_) => 0,
            ViewCommand::SetNodeExpression(_, _) => 1,
            ViewCommand::SetNodePosition(_, _) => 2,
            ViewCommand::SetNodeVisualization(_, _) => 3,
            ViewCommand::EnableVisualization(_) => 3,
            ViewCommand::DisableVisualization(_) => 3,
            ViewCommand::AddNode => 4,
            ViewCommand::RemoveConnection(_) => 5,
            ViewCommand::AddConnection(_, _) => 6,
        }
    }
}

/// Whether the commands of `s` appear in the fixed stage order.
pub open spec fn stage_ordered(s: Seq<ViewCommand>) -> bool {
    forall|i: int, j: int| 0 <= i < j < s.len() ==> s[i].stage() <= s[j].stage()
}

/// The outcome of planning one refresh cycle, stage by stage.
#[derive(Clone, Debug)]
pub struct UpdatePlan {
    /// View nodes to remove: shown by the store, absent from the snapshot.
    pub removed_nodes: Vec<ViewNodeId>,
    /// Expression deltas for view nodes whose expression text changed.
    pub expression_updates: Vec<(ViewNodeId, String)>,
    /// Position deltas for view nodes whose stored position changed.
    pub position_updates: Vec<(ViewNodeId, Position)>,
    /// Visualization deltas for view nodes whose visualization path changed.
    pub visualization_updates: Vec<(ViewNodeId, Option<String>)>,
    /// How many nodes the view has to create.
    pub nodes_to_add: usize,
    /// View edges to remove: known to the store, absent from the snapshot.
    pub removed_connections: Vec<ViewConnectionId>,
    /// View edges to create, by their resolved view endpoints.
    pub added_connections: Vec<(ViewEndpoint, ViewEndpoint)>,
}

/// Mathematical value of the expression delta list.
pub open spec fn expr_pairs_model(v: Seq<(ViewNodeId, String)>) -> Seq<(ViewNodeId, Seq<char>)> {
    Seq::new(v.len(), |i: int| (v[i].0, v[i].1@))
}

/// Mathematical value of the visualization delta list.
pub open spec fn vis_pairs_model(v: Seq<(ViewNodeId, Option<String>)>) -> Seq<
    (ViewNodeId, Option<Seq<char>>),
> {
    Seq::new(v.len(), |i: int| (v[i].0, opt_str_view(v[i].1)))
}

/// Mathematical value of the added connection list.
pub open spec fn conn_pairs_model(v: Seq<(ViewEndpoint, ViewEndpoint)>) -> Seq<
    (ViewEndpointModel, ViewEndpointModel),
> {
    Seq::new(v.len(), |i: int| (v[i].0@, v[i].1@))
}

/// The controller ids listed by a snapshot, in snapshot order.
pub open spec fn snap_ids(snap: Seq<NodeSnapshotModel>) -> Seq<AstNodeId> {
    Seq::new(snap.len(), |i: int| snap[i].id)
}

/// Whether a refresh against snapshot node `ns` emits an expression delta:
/// the store shows the node and caches a different expression text.
pub open spec fn emits_expression(s: State, ns: NodeSnapshotModel) -> bool {
    s.has_ast(ns.id) && s.entry_model(ns.id).view_id is Some && s.entry_model(ns.id).expression
        != Some(ns.expression)
}

/// Whether a refresh against snapshot node `ns` emits a position delta: the
/// snapshot carries a position, the store shows the node, and the cached
/// position differs.
pub open spec fn emits_position(s: State, ns: NodeSnapshotModel) -> bool {
    ns.position is Some && s.has_ast(ns.id) && s.entry_model(ns.id).view_id is Some
        && s.entry_model(ns.id).position != ns.position
}

/// Whether a refresh against snapshot node `ns` emits a visualization delta.
pub open spec fn emits_visualization(s: State, ns: NodeSnapshotModel) -> bool {
    s.has_ast(ns.id) && s.entry_model(ns.id).view_id is Some && s.entry_model(ns.id).visualization
        != ns.visualization
}

/// The expression deltas a refresh emits, in snapshot order.
pub open spec fn expression_updates_model(s: State, snap: Seq<NodeSnapshotModel>) -> Seq<
    (ViewNodeId, Seq<char>),
>
    decreases snap.len(),
{
    if snap.len() == 0 {
        Seq::empty()
    } else {
        let rest = expression_updates_model(s, snap.drop_last());
        let ns = snap.last();
        if emits_expression(s, ns) {
            match s.entry_model(ns.id).view_id {
                Some(v) => rest.push((v, ns.expression)),
                None => rest,
            }
        } else {
            rest
        }
    }
}

/// The position deltas a refresh emits, in snapshot order.
pub open spec fn position_updates_model(s: State, snap: Seq<NodeSnapshotModel>) -> Seq<
    (ViewNodeId, Position),
>
    decreases snap.len(),
{
    if snap.len() == 0 {
        Seq::empty()
    } else {
        let rest = position_updates_model(s, snap.drop_last());
        let ns = snap.last();
        if emits_position(s, ns) {
            match s.entry_model(ns.id).view_id {
                Some(v) => match ns.position {
                    Some(p) => rest.push((v, p)),
                    None => rest,
                },
                None => rest,
            }
        } else {
            rest
        }
    }
}

/// The visualization deltas a refresh emits, in snapshot order.
pub open spec fn visualization_updates_model(s: State, snap: Seq<NodeSnapshotModel>) -> Seq<
    (ViewNodeId, Option<Seq<char>>),
>
    decreases snap.len(),
{
    if snap.len() == 0 {
        Seq::empty()
    } else {
        let rest = visualization_updates_model(s, snap.drop_last());
        let ns = snap.last();
        if emits_visualization(s, ns) {
            match s.entry_model(ns.id).view_id {
                Some(v) => rest.push((v, ns.visualization)),
                None => rest,
            }
        } else {
            rest
        }
    }
}

/// How many snapshot nodes are absent from the store: the number of view
/// nodes to create.
pub open spec fn added_count_model(s: State, snap: Seq<NodeSnapshotModel>) -> int
    decreases snap.len(),
{
    if snap.len() == 0 {
        0
    } else {
        added_count_model(s, snap.drop_last()) + (if s.has_ast(snap.last().id) {
            0int
        } else {
            1int
        })
    }
}

/// Whether the endpoints of connection `c` resolve to view nodes after the
/// node stages of a refresh against `snap`: each endpoint node survives the
/// snapshot and already had a view before the refresh.
pub open spec fn connection_resolvable(s: State, snap: Seq<NodeSnapshotModel>, c: ConnectionModel)
    -> bool {
    &&& snap_has(snap, c.source.node)
    &&& snap_has(snap, c.target.node)
    &&& s.has_ast(c.source.node)
    &&& s.has_ast(c.target.node)
    &&& s.entry_model(c.source.node).view_id is Some
    &&& s.entry_model(c.target.node).view_id is Some
}

/// The view endpoints of the connection `c`; meaningful only when
/// `connection_resolvable` holds.
pub open spec fn resolved_endpoints(s: State, c: ConnectionModel) -> (
    ViewEndpointModel,
    ViewEndpointModel,
) {
    (
        ViewEndpointModel {
            node: match s.entry_model(c.source.node).view_id {
                Some(v) => v,
                None => 0,
            },
            port: c.source.port,
        },
        ViewEndpointModel {
            node: match s.entry_model(c.target.node).view_id {
                Some(v) => v,
                None => 0,
            },
            port: c.target.port,
        },
    )
}

/// The view edges a refresh creates, in snapshot order: connections new to
/// the store whose endpoints resolve to existing view nodes.
pub open spec fn added_connections_model(
    s: State,
    snap: Seq<NodeSnapshotModel>,
    conns: Seq<ConnectionModel>,
) -> Seq<(ViewEndpointModel, ViewEndpointModel)>
    decreases conns.len(),
{
    if conns.len() == 0 {
        Seq::empty()
    } else {
        let rest = added_connections_model(s, snap, conns.drop_last());
        let c = conns.last();
        if !s.has_connection(c) && connection_resolvable(s, snap, c) {
            rest.push(resolved_endpoints(s, c))
        } else {
            rest
        }
    }
}


/// In a well-formed table the entry of a controller id sits at one index.
pub proof fn lemma_unique_entry(s: State, a: AstNodeId)
    requires
        s.wf(),
    ensures
        forall|i: int|
            0 <= i < s.nodes_model().len() && s.nodes_model()[i].ast_id == a ==> i == s.ast_index(
                a,
            ),
{
    let m = s.nodes_model();
    let p = |e: NodeEntryModel| e.ast_id == a;
    lemma_find_index(m, p);
    assert forall|i: int| 0 <= i < m.len() && m[i].ast_id == a implies i == s.ast_index(a) by {
        assert(p(m[i]));
        let f = find_index(m, p);
        assert(f != -1);
        assert(p(m[f]));
        assert(m[i].ast_id == m[f].ast_id);
    }
}

/// Node and view lookups agree on two tables with the same id columns.
pub proof fn lemma_lookup_stable(pre: State, post: State)
    requires
        post.nodes_model().len() == pre.nodes_model().len(),
        forall|k: int|
            0 <= k < pre.nodes_model().len() ==> post.nodes_model()[k].ast_id
                == pre.nodes_model()[k].ast_id && post.nodes_model()[k].view_id
                == pre.nodes_model()[k].view_id,
    ensures
        forall|a: AstNodeId| #[trigger] post.has_ast(a) == pre.has_ast(a),
        forall|a: AstNodeId| #[trigger] post.ast_index(a) == pre.ast_index(a),
        forall|v: ViewNodeId| #[trigger] post.has_view(v) == pre.has_view(v),
        forall|v: ViewNodeId| #[trigger] post.view_index(v) == pre.view_index(v),
{
    let m1 = pre.nodes_model();
    let m2 = post.nodes_model();
    assert forall|a: AstNodeId| #[trigger] post.ast_index(a) == pre.ast_index(a) by {
        lemma_find_index_same(
            m1,
            m2,
            |e: NodeEntryModel| e.ast_id == a,
            |e: NodeEntryModel| e.ast_id == a,
        );
    }
    assert forall|v: ViewNodeId| #[trigger] post.view_index(v) == pre.view_index(v) by {
        lemma_find_index_same(
            m1,
            m2,
            |e: NodeEntryModel| e.view_id == Some(v),
            |e: NodeEntryModel| e.view_id == Some(v),
        );
    }
    assert forall|a: AstNodeId| #[trigger] post.has_ast(a) == pre.has_ast(a) by {
        if pre.has_ast(a) {
            let i = choose|i: int| 0 <= i < m1.len() && m1[i].ast_id == a;
            assert(m2[i].ast_id == a);
        }
        if post.has_ast(a) {
            let i = choose|i: int| 0 <= i < m2.len() && m2[i].ast_id == a;
            assert(m1[i].ast_id == a);
        }
    }
    assert forall|v: ViewNodeId| #[trigger] post.has_view(v) == pre.has_view(v) by {
        if pre.has_view(v) {
            let i = choose|i: int| 0 <= i < m1.len() && m1[i].view_id == Some(v);
            assert(m2[i].view_id == Some(v));
        }
        if post.has_view(v) {
            let i = choose|i: int| 0 <= i < m2.len() && m2[i].view_id == Some(v);
            assert(m1[i].view_id == Some(v));
        }
    }
}

/// How node lookups move when an entry for a fresh controller id is pushed.
pub proof fn lemma_push_lookup(pre: State, post: State, e: NodeEntryModel)
    requires
        post.nodes_model() == pre.nodes_model().push(e),
        !pre.has_ast(e.ast_id),
    ensures
        forall|a: AstNodeId|
            a != e.ast_id ==> #[trigger] post.has_ast(a) == pre.has_ast(a) && post.ast_index(a)
                == pre.ast_index(a),
        forall|a: AstNodeId|
            a != e.ast_id && pre.has_ast(a) && pre.ast_index(a) >= 0 ==> #[trigger]
                post.entry_model(a) == pre.entry_model(a),
        post.has_ast(e.ast_id),
        post.entry_model(e.ast_id) == e,
        e.view_id is None ==> forall|v: ViewNodeId| #[trigger] post.has_view(v) == pre.has_view(v),
{
    let m1 = pre.nodes_model();
    let m2 = post.nodes_model();
    assert forall|a: AstNodeId|
        a != e.ast_id implies #[trigger] post.has_ast(a) == pre.has_ast(a) && post.ast_index(a)
        == pre.ast_index(a) by {
        let p = |x: NodeEntryModel| x.ast_id == a;
        lemma_find_index_push(m1, p, e);
        lemma_find_index(m1, p);
        lemma_find_index(m2, p);
        if pre.has_ast(a) {
            let i = choose|i: int| 0 <= i < m1.len() && m1[i].ast_id == a;
            assert(p(m1[i]));
        }
        if post.has_ast(a) {
            let i = choose|i: int| 0 <= i < m2.len() && m2[i].ast_id == a;
            assert(p(m2[i]));
            assert(i < m1.len());
        }
    }
    assert forall|a: AstNodeId|
        a != e.ast_id && pre.has_ast(a) && pre.ast_index(a) >= 0 implies #[trigger]
        post.entry_model(a) == pre.entry_model(a) by {
        let p = |x: NodeEntryModel| x.ast_id == a;
        let i = choose|i: int| 0 <= i < m1.len() && m1[i].ast_id == a;
        assert(p(m1[i]));
        lemma_find_index(m1, p);
        assert(find_index(m1, p) >= 0);
        lemma_find_index_push(m1, p, e);
        assert(find_index(m2, p) == find_index(m1, p));
        assert(m2[find_index(m2, p)] == m1[find_index(m1, p)]);
    }
    let pe = |x: NodeEntryModel| x.ast_id == e.ast_id;
    lemma_find_index_push(m1, pe, e);
    lemma_find_index(m1, pe);
    if find_index(m1, pe) >= 0 {
        assert(pre.has_ast(e.ast_id));
    }
    assert(post.entry_model(e.ast_id) == e);
    if e.view_id is None {
        assert forall|v: ViewNodeId| #[trigger] post.has_view(v) == pre.has_view(v) by {
            if pre.has_view(v) {
                let i = choose|i: int| 0 <= i < m1.len() && m1[i].view_id == Some(v);
                assert(m2[i].view_id == Some(v));
            }
            if post.has_view(v) {
                let i = choose|i: int| 0 <= i < m2.len() && m2[i].view_id == Some(v);
                assert(i < m1.len());
                assert(m1[i].view_id == Some(v));
            }
        }
    }
}

/// How node lookups move when one entry is updated in place, ids unchanged.
pub proof fn lemma_update_lookup(pre: State, post: State, i: int, e: NodeEntryModel)
    requires
        pre.wf(),
        0 <= i < pre.nodes_model().len(),
        post.nodes_model() == pre.nodes_model().update(i, e),
        e.ast_id == pre.nodes_model()[i].ast_id,
        e.view_id == pre.nodes_model()[i].view_id,
    ensures
        forall|a: AstNodeId| #[trigger] post.has_ast(a) == pre.has_ast(a),
        forall|a: AstNodeId| #[trigger] post.ast_index(a) == pre.ast_index(a),
        forall|v: ViewNodeId| #[trigger] post.has_view(v) == pre.has_view(v),
        post.entry_model(e.ast_id) == e,
        forall|a: AstNodeId|
            a != e.ast_id && pre.has_ast(a) ==> #[trigger] post.entry_model(a) == pre.entry_model(
                a,
            ),
{
    lemma_lookup_stable(pre, post);
    lemma_unique_entry(pre, e.ast_id);
    assert(pre.nodes_model()[i].ast_id == e.ast_id);
    assert(pre.has_ast(e.ast_id));
    assert(pre.ast_index(e.ast_id) == i);
    assert(post.entry_model(e.ast_id) == e);
    assert forall|a: AstNodeId|
        a != e.ast_id && pre.has_ast(a) implies #[trigger] post.entry_model(a) == pre.entry_model(
        a,
    ) by {
        pre.lemma_lookup(a);
        assert(pre.entry_model(a).ast_id == a);
        assert(pre.ast_index(a) != i);
    }
}

/// How node lookups move through a retain over the id set `ids`.
pub proof fn lemma_retain_lookup(pre: State, post: State, ids: Seq<AstNodeId>)
    requires
        pre.wf(),
        post.nodes_model() == kept_nodes(pre.nodes_model(), ids),
    ensures
        forall|a: AstNodeId| #[trigger] post.has_ast(a) <==> pre.has_ast(a) && ids.contains(a),
        forall|a: AstNodeId|
            pre.has_ast(a) && ids.contains(a) ==> #[trigger] post.entry_model(a)
                == pre.entry_model(a),
        forall|v: ViewNodeId| #[trigger] post.has_view(v) ==> pre.has_view(v),
{
    let m1 = pre.nodes_model();
    let m2 = post.nodes_model();
    lemma_kept_nodes_wf(m1, ids);
    assert forall|a: AstNodeId| #[trigger] post.has_ast(a) <==> pre.has_ast(a) && ids.contains(
        a,
    ) by {
        if post.has_ast(a) {
            let i = choose|i: int| 0 <= i < m2.len() && m2[i].ast_id == a;
            assert(m2.contains(m2[i]));
            assert(m1.contains(m2[i]) && ids.contains(a));
            let j = choose|j: int| 0 <= j < m1.len() && m1[j] == m2[i];
        }
        if pre.has_ast(a) && ids.contains(a) {
            let i = choose|i: int| 0 <= i < m1.len() && m1[i].ast_id == a;
            assert(m1.contains(m1[i]));
            assert(m2.contains(m1[i]));
            let j = choose|j: int| 0 <= j < m2.len() && m2[j] == m1[i];
        }
    }
    assert forall|a: AstNodeId| pre.has_ast(a) && ids.contains(a) implies #[trigger]
        post.entry_model(a) == pre.entry_model(a) by {
        pre.lemma_lookup(a);
        post.lemma_lookup(a);
        let x = post.entry_model(a);
        assert(m2[post.ast_index(a)] == x);
        assert(m2.contains(x));
        assert(m1.contains(x));
        let j = choose|j: int| 0 <= j < m1.len() && m1[j] == x;
        lemma_unique_entry(pre, a);
        assert(j == pre.ast_index(a));
    }
    assert forall|v: ViewNodeId| #[trigger] post.has_view(v) implies pre.has_view(v) by {
        let i = choose|i: int| 0 <= i < m2.len() && m2[i].view_id == Some(v);
        assert(m2.contains(m2[i]));
        assert(m1.contains(m2[i]));
        let j = choose|j: int| 0 <= j < m1.len() && m1[j] == m2[i];
    }
}



/// The snapshot node ids, in snapshot order.
#[verifier::loop_isolation(false)]
pub fn snapshot_node_ids(nodes: &Vec<NodeSnapshot>) -> (r: Vec<AstNodeId>)
    ensures
        r@ =~= snap_ids(Seq::new(nodes@.len(), |i: int| nodes@[i]@)),
{
    let mut r: Vec<AstNodeId> = Vec::new();
    let mut i: usize = 0;
    while i < nodes.len()
        invariant
            i <= nodes@.len(),
            r@.len() == i,
            forall|k: int| 0 <= k < i ==> r@[k] == nodes@[k]@.id,
        decreases nodes@.len() - i,
    {
        r.push(nodes[i].id);
        i += 1;
    }
    r
}

/// Update the cached expressions from the snapshot node listing, inserting
/// entries for nodes observed for the first time, and collect the deltas for
/// view nodes whose expression text changed.
#[verifier::loop_isolation(false)]
fn phase_expressions(
    state: &mut State,
    nodes: &Vec<NodeSnapshot>,
    Ghost(s0): Ghost<State>,
) -> (r: Vec<(ViewNodeId, String)>)
    requires
        old(state).wf(),
        forall|i: int, j: int|
            0 <= i < j < nodes@.len() ==> nodes@[i]@.id != nodes@[j]@.id,
        forall|a: AstNodeId| #[trigger] old(state).has_ast(a) <==> s0.has_ast(a) && snap_has(
            Seq::new(nodes@.len(), |i: int| nodes@[i]@),
            a,
        ),
        forall|a: AstNodeId|
            #[trigger] old(state).has_ast(a) ==> old(state).entry_model(a) == s0.entry_model(a),
        forall|v: ViewNodeId| #[trigger] old(state).has_view(v) ==> s0.has_view(v),
    ensures
        final(state).wf(),
        final(state).connections_model() == old(state).connections_model(),
        expr_pairs_model(r@) =~= expression_updates_model(
            s0,
            Seq::new(nodes@.len(), |i: int| nodes@[i]@),
        ),
        forall|a: AstNodeId| #[trigger] final(state).has_ast(a) <==> snap_has(
            Seq::new(nodes@.len(), |i: int| nodes@[i]@),
            a,
        ),
        forall|t: int|
            0 <= t < nodes@.len() ==> #[trigger] final(state).entry_model(nodes@[t]@.id)
                == entry_after_expr(s0, nodes@[t]@),
        forall|v: ViewNodeId| #[trigger] final(state).has_view(v) ==> s0.has_view(v),
{
    let ghost snapm = Seq::new(nodes@.len(), |i: int| nodes@[i]@);
    let mut r: Vec<(ViewNodeId, String)> = Vec::new();
    let mut j: usize = 0;
    while j < nodes.len()
        invariant
            j <= nodes@.len(),
            state.wf(),
            state.connections_model() == old(state).connections_model(),
            forall|a: AstNodeId| #[trigger] state.has_ast(a) <==> (s0.has_ast(a) && snap_has(
                snapm,
                a,
            )) || snap_has(snapm.take(j as int), a),
            forall|t: int|
                0 <= t < j ==> #[trigger] state.entry_model(snapm[t].id) == entry_after_expr(
                    s0,
                    snapm[t],
                ),
            forall|a: AstNodeId|
                #[trigger] state.has_ast(a) && !snap_has(snapm.take(j as int), a) ==>
                    state.entry_model(a) == s0.entry_model(a),
            forall|v: ViewNodeId| #[trigger] state.has_view(v) ==> s0.has_view(v),
            expr_pairs_model(r@) =~= expression_updates_model(s0, snapm.take(j as int)),
        decreases nodes@.len() - j,
    {
        let n = &nodes[j];
        let ghost ns = snapm[j as int];
        let ghost sc = *state;
        proof {
            assert(forall|t: int| 0 <= t < j ==> snapm[t].id != ns.id);
            assert(!snap_has(snapm.take(j as int), ns.id));
            assert(snap_has(snapm, ns.id)) by {
                assert(snapm[j as int].id == ns.id);
            }
            assert(sc.has_ast(ns.id) <==> s0.has_ast(ns.id));
            if sc.has_ast(ns.id) {
                assert(sc.entry_model(ns.id) == s0.entry_model(ns.id));
            }
        }
        let delta = state.set_node_expression(n);
        proof {
            let t1 = snapm.take(j as int + 1);
            assert(t1.drop_last() =~= snapm.take(j as int));
            assert(t1.last() == ns);
            assert(expression_updates_model(s0, t1.drop_last()) == expression_updates_model(
                s0,
                snapm.take(j as int),
            ));
            if !sc.has_ast(ns.id) {
                lemma_push_lookup(
                    sc,
                    *state,
                    crate::state::new_entry_model(n@),
                );
                assert(!emits_expression(s0, ns));
                assert(state.entry_model(ns.id) == entry_after_expr(s0, ns));
            } else {
                if sc.entry_model(ns.id).expression == Some(ns.expression) {
                    assert(*state == sc);
                    assert(!emits_expression(s0, ns));
                    assert(state.entry_model(ns.id) == entry_after_expr(s0, ns));
                } else {
                    sc.lemma_lookup(ns.id);
                    lemma_update_lookup(
                        sc,
                        *state,
                        sc.ast_index(ns.id),
                        (NodeEntryModel {
                            expression: Some(ns.expression),
                            subexpressions: crate::state::fresh_subexprs(ns.subexpressions),
                            ..sc.entry_model(ns.id)
                        }),
                    );
                    assert(state.entry_model(ns.id) == entry_after_expr(s0, ns));
                }
            }
            assert forall|t: int| 0 <= t < j + 1 implies #[trigger] state.entry_model(snapm[t].id)
                == entry_after_expr(s0, snapm[t]) by {
                if t < j {
                    assert(snapm[t].id != ns.id);
                    assert(snap_has(snapm.take(j as int), snapm[t].id)) by {
                        assert(snapm.take(j as int)[t] == snapm[t]);
                    }
                    assert(sc.has_ast(snapm[t].id));
                    assert(sc.entry_model(snapm[t].id) == entry_after_expr(s0, snapm[t]));
                    sc.lemma_lookup(snapm[t].id);
                    assert(state.entry_model(snapm[t].id) == sc.entry_model(snapm[t].id));
                }
            }
            assert forall|a: AstNodeId| #[trigger]
                state.has_ast(a) && !snap_has(snapm.take(j as int + 1), a) implies
                state.entry_model(a) == s0.entry_model(a) by {
                assert(a != ns.id) by {
                    assert(t1[j as int].id == ns.id);
                }
                assert(!snap_has(snapm.take(j as int), a)) by {
                    if snap_has(snapm.take(j as int), a) {
                        let w = choose|w: int|
                            0 <= w < j && snapm.take(j as int)[w].id == a;
                        assert(t1[w].id == a);
                    }
                }
                assert(sc.has_ast(a));
                assert(sc.entry_model(a) == s0.entry_model(a));
                sc.lemma_lookup(a);
                assert(state.entry_model(a) == sc.entry_model(a));
            }
            assert forall|a: AstNodeId| #[trigger] state.has_ast(a) <==> (s0.has_ast(a)
                && snap_has(snapm, a)) || snap_has(snapm.take(j as int + 1), a) by {
                if snap_has(snapm.take(j as int), a) {
                    let w = choose|w: int| 0 <= w < j && snapm.take(j as int)[w].id == a;
                    assert(t1[w].id == a);
                }
                if a == ns.id {
                    assert(t1[j as int].id == a);
                }
                if snap_has(t1, a) && a != ns.id {
                    let w = choose|w: int| 0 <= w < t1.len() && t1[w].id == a;
                    assert(w < j);
                    assert(snapm.take(j as int)[w].id == a);
                }
            }
        }
        match delta {
            Some(d) => {
                r.push(d);
                proof {
                    let t1 = snapm.take(j as int + 1);
                    assert(emits_expression(s0, ns));
                    assert(expr_pairs_model(r@) =~= expression_updates_model(s0, t1));
                }
            },
            None => {
                proof {
                    let t1 = snapm.take(j as int + 1);
                    if emits_expression(s0, ns) {
                        assert(s0.entry_model(ns.id).view_id is None || !emits_expression(s0, ns));
                    }
                    assert(expr_pairs_model(r@) =~= expression_updates_model(s0, t1));
                }
            },
        }
        j += 1;
    }
    proof {
        assert(snapm.take(nodes@.len() as int) =~= snapm);
        assert forall|t: int| 0 <= t < nodes@.len() implies #[trigger] state.entry_model(
            nodes@[t]@.id,
        ) == entry_after_expr(s0, nodes@[t]@) by {
            assert(snapm[t] == nodes@[t]@);
            assert(state.entry_model(snapm[t].id) == entry_after_expr(s0, snapm[t]));
        }
    }
    r
}



/// Update the cached positions from the snapshot node listing and collect
/// the deltas for view nodes whose stored position changed.
#[verifier::loop_isolation(false)]
fn phase_positions(
    state: &mut State,
    nodes: &Vec<NodeSnapshot>,
    Ghost(s0): Ghost<State>,
) -> (r: Vec<(ViewNodeId, Position)>)
    requires
        old(state).wf(),
        forall|i: int, j: int| 0 <= i < j < nodes@.len() ==> nodes@[i]@.id != nodes@[j]@.id,
        forall|a: AstNodeId| #[trigger] old(state).has_ast(a) <==> snap_has(
            Seq::new(nodes@.len(), |i: int| nodes@[i]@),
            a,
        ),
        forall|t: int|
            0 <= t < nodes@.len() ==> #[trigger] old(state).entry_model(nodes@[t]@.id)
                == entry_after_expr(s0, nodes@[t]@),
        forall|v: ViewNodeId| #[trigger] old(state).has_view(v) ==> s0.has_view(v),
    ensures
        final(state).wf(),
        final(state).connections_model() == old(state).connections_model(),
        r@ =~= position_updates_model(s0, Seq::new(nodes@.len(), |i: int| nodes@[i]@)),
        forall|a: AstNodeId| #[trigger] final(state).has_ast(a) <==> snap_has(
            Seq::new(nodes@.len(), |i: int| nodes@[i]@),
            a,
        ),
        forall|t: int|
            0 <= t < nodes@.len() ==> #[trigger] final(state).entry_model(nodes@[t]@.id)
                == entry_after_position(s0, nodes@[t]@),
        forall|v: ViewNodeId| #[trigger] final(state).has_view(v) ==> s0.has_view(v),
{
    let ghost snapm = Seq::new(nodes@.len(), |i: int| nodes@[i]@);
    let mut r: Vec<(ViewNodeId, Position)> = Vec::new();
    let mut j: usize = 0;
    while j < nodes.len()
        invariant
            j <= nodes@.len(),
            state.wf(),
            state.connections_model() == old(state).connections_model(),
            forall|a: AstNodeId| #[trigger] state.has_ast(a) <==> snap_has(snapm, a),
            forall|t: int|
                0 <= t < j ==> #[trigger] state.entry_model(snapm[t].id) == entry_after_position(
                    s0,
                    snapm[t],
                ),
            forall|t: int|
                j <= t < nodes@.len() ==> #[trigger] state.entry_model(snapm[t].id)
                    == entry_after_expr(s0, snapm[t]),
            forall|v: ViewNodeId| #[trigger] state.has_view(v) ==> s0.has_view(v),
            r@ =~= position_updates_model(s0, snapm.take(j as int)),
        decreases nodes@.len() - j,
    {
        let n = &nodes[j];
        let ghost ns = snapm[j as int];
        let ghost sc = *state;
        proof {
            assert(snap_has(snapm, ns.id)) by {
                assert(snapm[j as int].id == ns.id);
            }
            assert(sc.entry_model(ns.id) == entry_after_expr(s0, ns));
            assert(sc.has_ast(ns.id));
        }
        match n.position {
            Some(p) => {
                let delta = state.set_node_position(n.id, p);
                proof {
                    if sc.entry_model(ns.id).position != Some(p) {
                        sc.lemma_lookup(ns.id);
                        lemma_update_lookup(
                            sc,
                            *state,
                            sc.ast_index(ns.id),
                            (NodeEntryModel { position: Some(p), ..sc.entry_model(ns.id) }),
                        );
                    } else {
                        assert(*state == sc);
                    }
                    assert(state.entry_model(ns.id) == entry_after_position(s0, ns));
                }
                match delta {
                    Some(v) => {
                        r.push((v, p));
                    },
                    None => {},
                }
            },
            None => {
                proof {
                    assert(*state == sc);
                    assert(entry_after_position(s0, ns) == entry_after_expr(s0, ns));
                }
            },
        }
        proof {
            let t1 = snapm.take(j as int + 1);
            assert(t1.drop_last() =~= snapm.take(j as int));
            assert(t1.last() == ns);
            assert(position_updates_model(s0, t1.drop_last()) == position_updates_model(
                s0,
                snapm.take(j as int),
            ));
            assert forall|t: int| 0 <= t < j + 1 implies #[trigger] state.entry_model(snapm[t].id)
                == entry_after_position(s0, snapm[t]) by {
                if t < j {
                    assert(snapm[t].id != ns.id);
                    assert(sc.entry_model(snapm[t].id) == entry_after_position(s0, snapm[t]));
                    assert(snap_has(snapm, snapm[t].id)) by {
                        assert(snapm[t].id == snapm[t].id);
                    }
                    assert(sc.has_ast(snapm[t].id));
                    sc.lemma_lookup(snapm[t].id);
                    assert(state.entry_model(snapm[t].id) == sc.entry_model(snapm[t].id));
                }
            }
            assert forall|t: int| j + 1 <= t < nodes@.len() implies #[trigger] state.entry_model(
                snapm[t].id,
            ) == entry_after_expr(s0, snapm[t]) by {
                assert(snapm[t].id != ns.id);
                assert(sc.entry_model(snapm[t].id) == entry_after_expr(s0, snapm[t]));
                assert(sc.has_ast(snapm[t].id));
                sc.lemma_lookup(snapm[t].id);
                assert(state.entry_model(snapm[t].id) == sc.entry_model(snapm[t].id));
            }
            assert(r@ =~= position_updates_model(s0, t1));
        }
        j += 1;
    }
    proof {
        assert(snapm.take(nodes@.len() as int) =~= snapm);
        assert forall|t: int| 0 <= t < nodes@.len() implies #[trigger] state.entry_model(
            nodes@[t]@.id,
        ) == entry_after_position(s0, nodes@[t]@) by {
            assert(snapm[t] == nodes@[t]@);
            assert(state.entry_model(snapm[t].id) == entry_after_position(s0, snapm[t]));
        }
    }
    r
}



/// Update the cached visualization paths from the snapshot node listing and
/// collect the deltas for view nodes whose visualization changed.
#[verifier::loop_isolation(false)]
fn phase_visualizations(
    state: &mut State,
    nodes: &Vec<NodeSnapshot>,
    Ghost(s0): Ghost<State>,
) -> (r: Vec<(ViewNodeId, Option<String>)>)
    requires
        old(state).wf(),
        forall|i: int, j: int| 0 <= i < j < nodes@.len() ==> nodes@[i]@.id != nodes@[j]@.id,
        forall|a: AstNodeId| #[trigger] old(state).has_ast(a) <==> snap_has(
            Seq::new(nodes@.len(), |i: int| nodes@[i]@),
            a,
        ),
        forall|t: int|
            0 <= t < nodes@.len() ==> #[trigger] old(state).entry_model(nodes@[t]@.id)
                == entry_after_position(s0, nodes@[t]@),
        forall|v: ViewNodeId| #[trigger] old(state).has_view(v) ==> s0.has_view(v),
    ensures
        final(state).wf(),
        final(state).connections_model() == old(state).connections_model(),
        vis_pairs_model(r@) =~= visualization_updates_model(
            s0,
            Seq::new(nodes@.len(), |i: int| nodes@[i]@),
        ),
        forall|a: AstNodeId| #[trigger] final(state).has_ast(a) <==> snap_has(
            Seq::new(nodes@.len(), |i: int| nodes@[i]@),
            a,
        ),
        forall|t: int|
            0 <= t < nodes@.len() ==> #[trigger] final(state).entry_model(nodes@[t]@.id)
                == entry_after_visualization(s0, nodes@[t]@),
        forall|v: ViewNodeId| #[trigger] final(state).has_view(v) ==> s0.has_view(v),
{
    let ghost snapm = Seq::new(nodes@.len(), |i: int| nodes@[i]@);
    let mut r: Vec<(ViewNodeId, Option<String>)> = Vec::new();
    let mut j: usize = 0;
    while j < nodes.len()
        invariant
            j <= nodes@.len(),
            state.wf(),
            state.connections_model() == old(state).connections_model(),
            forall|a: AstNodeId| #[trigger] state.has_ast(a) <==> snap_has(snapm, a),
            forall|t: int|
                0 <= t < j ==> #[trigger] state.entry_model(snapm[t].id)
                    == entry_after_visualization(s0, snapm[t]),
            forall|t: int|
                j <= t < nodes@.len() ==> #[trigger] state.entry_model(snapm[t].id)
                    == entry_after_position(s0, snapm[t]),
            forall|v: ViewNodeId| #[trigger] state.has_view(v) ==> s0.has_view(v),
            vis_pairs_model(r@) =~= visualization_updates_model(s0, snapm.take(j as int)),
        decreases nodes@.len() - j,
    {
        let n = &nodes[j];
        let ghost ns = snapm[j as int];
        let ghost sc = *state;
        proof {
            assert(snap_has(snapm, ns.id)) by {
                assert(snapm[j as int].id == ns.id);
            }
            assert(sc.entry_model(ns.id) == entry_after_position(s0, ns));
            assert(sc.has_ast(ns.id));
        }
        let delta = state.set_node_visualization(n.id, &n.visualization);
        proof {
            if sc.entry_model(ns.id).visualization != ns.visualization {
                sc.lemma_lookup(ns.id);
                lemma_update_lookup(
                    sc,
                    *state,
                    sc.ast_index(ns.id),
                    (NodeEntryModel { visualization: ns.visualization, ..sc.entry_model(ns.id) }),
                );
            } else {
                assert(*state == sc);
            }
            assert(state.entry_model(ns.id) == entry_after_visualization(s0, ns));
        }
        match delta {
            Some(d) => {
                r.push(d);
            },
            None => {},
        }
        proof {
            let t1 = snapm.take(j as int + 1);
            assert(t1.drop_last() =~= snapm.take(j as int));
            assert(t1.last() == ns);
            assert(visualization_updates_model(s0, t1.drop_last())
                == visualization_updates_model(s0, snapm.take(j as int)));
            assert forall|t: int| 0 <= t < j + 1 implies #[trigger] state.entry_model(snapm[t].id)
                == entry_after_visualization(s0, snapm[t]) by {
                if t < j {
                    assert(snapm[t].id != ns.id);
                    assert(sc.entry_model(snapm[t].id) == entry_after_visualization(
                        s0,
                        snapm[t],
                    ));
                    assert(sc.has_ast(snapm[t].id));
                    sc.lemma_lookup(snapm[t].id);
                    assert(state.entry_model(snapm[t].id) == sc.entry_model(snapm[t].id));
                }
            }
            assert forall|t: int| j + 1 <= t < nodes@.len() implies #[trigger] state.entry_model(
                snapm[t].id,
            ) == entry_after_position(s0, snapm[t]) by {
                assert(snapm[t].id != ns.id);
                assert(sc.entry_model(snapm[t].id) == entry_after_position(s0, snapm[t]));
                assert(sc.has_ast(snapm[t].id));
                sc.lemma_lookup(snapm[t].id);
                assert(state.entry_model(snapm[t].id) == sc.entry_model(snapm[t].id));
            }
            assert(vis_pairs_model(r@) =~= visualization_updates_model(s0, t1));
        }
        j += 1;
    }
    proof {
        assert(snapm.take(nodes@.len() as int) =~= snapm);
        assert forall|t: int| 0 <= t < nodes@.len() implies #[trigger] state.entry_model(
            nodes@[t]@.id,
        ) == entry_after_visualization(s0, nodes@[t]@) by {
            assert(snapm[t] == nodes@[t]@);
            assert(state.entry_model(snapm[t].id) == entry_after_visualization(s0, snapm[t]));
        }
    }
    r
}

/// How many snapshot nodes the store does not know yet.
#[verifier::loop_isolation(false)]
fn count_nodes_to_add(state: &State, nodes: &Vec<NodeSnapshot>, Ghost(s0): Ghost<State>) -> (r:
    usize)
    requires
        forall|a: AstNodeId|
            snap_has(Seq::new(nodes@.len(), |i: int| nodes@[i]@), a) ==> (#[trigger] state.has_ast(
                a,
            ) == s0.has_ast(a)),
    ensures
        r == added_count_model(s0, Seq::new(nodes@.len(), |i: int| nodes@[i]@)),
{
    let ghost snapm = Seq::new(nodes@.len(), |i: int| nodes@[i]@);
    let mut r: usize = 0;
    let mut j: usize = 0;
    while j < nodes.len()
        invariant
            j <= nodes@.len(),
            r <= j,
            r == added_count_model(s0, snapm.take(j as int)),
        decreases nodes@.len() - j,
    {
        proof {
            assert(snap_has(snapm, snapm[j as int].id)) by {
                assert(snapm[j as int].id == snapm[j as int].id);
            }
        }
        if !state.has_node(nodes[j].id) {
            r += 1;
        }
        proof {
            let t1 = snapm.take(j as int + 1);
            assert(t1.drop_last() =~= snapm.take(j as int));
            assert(t1.last() == snapm[j as int]);
            assert(added_count_model(s0, t1.drop_last()) == added_count_model(
                s0,
                snapm.take(j as int),
            ));
        }
        j += 1;
    }
    proof {
        assert(snapm.take(nodes@.len() as int) =~= snapm);
    }
    r
}



/// Record the snapshot connections in the store and collect the view edges
/// to create: connections new to the store whose endpoints already resolve
/// to view nodes.
#[verifier::loop_isolation(false)]
fn phase_connections(
    state: &mut State,
    conns: &Vec<Connection>,
    Ghost(s0): Ghost<State>,
    Ghost(snapm): Ghost<Seq<NodeSnapshotModel>>,
) -> (r: Vec<(ViewEndpoint, ViewEndpoint)>)
    requires
        old(state).wf(),
        forall|i: int, j: int|
            0 <= i < j < conns@.len() ==> !(conns@[i]@ =~= conns@[j]@),
        forall|t: int|
            0 <= t < conns@.len() ==> (#[trigger] old(state).has_connection(conns@[t]@)
                == s0.has_connection(conns@[t]@)),
        forall|a: AstNodeId|
            #[trigger] old(state).has_ast(a) <==> snap_has(snapm, a),
        forall|a: AstNodeId|
            snap_has(snapm, a) ==> #[trigger] old(state).entry_model(a).view_id == (
            if s0.has_ast(a) {
                s0.entry_model(a).view_id
            } else {
                None
            }),
    ensures
        final(state).wf(),
        final(state).nodes_model() == old(state).nodes_model(),
        conn_pairs_model(r@) =~= added_connections_model(
            s0,
            snapm,
            Seq::new(conns@.len(), |i: int| conns@[i]@),
        ),
        forall|c: ConnectionModel| #[trigger] final(state).has_connection(c) <==> old(
            state,
        ).has_connection(c) || contains_connection(Seq::new(conns@.len(), |i: int| conns@[i]@), c),
        final(state).connections_model().len() <= old(state).connections_model().len()
            + conns@.len(),
{
    let ghost connsm = Seq::new(conns@.len(), |i: int| conns@[i]@);
    let mut r: Vec<(ViewEndpoint, ViewEndpoint)> = Vec::new();
    let mut j: usize = 0;
    while j < conns.len()
        invariant
            j <= conns@.len(),
            state.wf(),
            state.nodes_model() == old(state).nodes_model(),
            forall|c: ConnectionModel| #[trigger] state.has_connection(c) <==> old(
                state,
            ).has_connection(c) || contains_connection(connsm.take(j as int), c),
            state.connections_model().len() <= old(state).connections_model().len() + j,
            conn_pairs_model(r@) =~= added_connections_model(s0, snapm, connsm.take(j as int)),
        decreases conns@.len() - j,
    {
        let c = &conns[j];
        let ghost cm = connsm[j as int];
        let ghost sc = *state;
        proof {
            assert(cm == c@);
            assert(cm.source.node == c.source.node && cm.target.node == c.target.node);
            lemma_lookup_stable(*old(state), sc);
            assert(forall|a: AstNodeId| #[trigger] sc.has_ast(a) <==> snap_has(snapm, a));
            assert forall|a: AstNodeId| snap_has(snapm, a) implies #[trigger] sc.entry_model(a)
                == old(state).entry_model(a) by {
                assert(sc.ast_index(a) == old(state).ast_index(a));
            }
            assert(forall|t: int| 0 <= t < j ==> !(connsm[t] =~= cm));
            assert(!contains_connection(connsm.take(j as int), cm)) by {
                if contains_connection(connsm.take(j as int), cm) {
                    let w = choose|w: int|
                        0 <= w < j && connsm.take(j as int)[w] =~= cm;
                    assert(connsm[w] =~= cm);
                }
            }
            assert(sc.has_connection(cm) == s0.has_connection(cm)) by {
                assert(old(state).has_connection(connsm[j as int]) == s0.has_connection(
                    connsm[j as int],
                ));
            }
        }
        let delta = state.set_connection(c);
        proof {
            let t1 = connsm.take(j as int + 1);
            assert(t1.drop_last() =~= connsm.take(j as int));
            assert(t1.last() == cm);
            assert(added_connections_model(s0, snapm, t1.drop_last()) == added_connections_model(
                s0,
                snapm,
                connsm.take(j as int),
            ));
            if sc.has_connection(cm) {
                assert(*state == sc);
                assert(s0.has_connection(cm));
                assert(conn_pairs_model(r@) =~= added_connections_model(s0, snapm, t1));
            } else {
                let cm1 = sc.connections_model();
                let cm2 = state.connections_model();
                assert(cm2 =~= cm1.push((ConnectionEntryModel { ast: cm, view: None })));
                assert forall|x: ConnectionModel| #[trigger] state.has_connection(x) <==>
                    sc.has_connection(x) || (x =~= cm) by {
                    if state.has_connection(x) {
                        let w = choose|w: int| 0 <= w < cm2.len() && cm2[w].ast =~= x;
                        if w < cm1.len() {
                            assert(cm1[w].ast =~= x);
                        } else {
                            assert(cm2[w].ast =~= cm);
                        }
                    }
                    if sc.has_connection(x) {
                        let w = choose|w: int| 0 <= w < cm1.len() && cm1[w].ast =~= x;
                        assert(cm2[w].ast =~= x);
                    }
                    if x =~= cm {
                        assert(cm2[cm1.len() as int].ast =~= x);
                    }
                }
                assert(!s0.has_connection(cm));
                match delta {
                    Some(_) => {
                        assert(connection_resolvable(s0, snapm, cm)) by {
                            assert(sc.has_ast(c.source.node));
                            assert(sc.has_ast(c.target.node));
                            assert(snap_has(snapm, cm.source.node));
                            assert(snap_has(snapm, cm.target.node));
                            assert(sc.entry_model(cm.source.node) == old(state).entry_model(
                                cm.source.node,
                            ));
                            assert(sc.entry_model(cm.target.node) == old(state).entry_model(
                                cm.target.node,
                            ));
                            assert(s0.has_ast(cm.source.node) && s0.has_ast(cm.target.node));
                        }
                    },
                    None => {
                        assert(!connection_resolvable(s0, snapm, cm)) by {
                            if connection_resolvable(s0, snapm, cm) {
                                assert(sc.has_ast(cm.source.node));
                                assert(sc.has_ast(cm.target.node));
                                assert(sc.entry_model(cm.source.node) == old(state).entry_model(
                                    cm.source.node,
                                ));
                                assert(sc.entry_model(cm.target.node) == old(state).entry_model(
                                    cm.target.node,
                                ));
                                assert(sc.entry_model(cm.source.node).view_id is Some);
                                assert(sc.entry_model(cm.target.node).view_id is Some);
                            }
                        }
                    },
                }
            }
        }
        match delta {
            Some(d) => {
                r.push(d);
                proof {
                    let t1 = connsm.take(j as int + 1);
                    assert(sc.entry_model(cm.source.node) == old(state).entry_model(
                        cm.source.node,
                    ));
                    assert(sc.entry_model(cm.target.node) == old(state).entry_model(
                        cm.target.node,
                    ));
                    assert(r@[r@.len() - 1].0@.node == resolved_endpoints(s0, cm).0.node);
                    assert(r@[r@.len() - 1].0@.port =~= resolved_endpoints(s0, cm).0.port);
                    assert(r@[r@.len() - 1].1@.node == resolved_endpoints(s0, cm).1.node);
                    assert(r@[r@.len() - 1].1@.port =~= resolved_endpoints(s0, cm).1.port);
                    assert(r@[r@.len() - 1].0@ =~= resolved_endpoints(s0, cm).0);
                    assert(r@[r@.len() - 1].1@ =~= resolved_endpoints(s0, cm).1);
                    assert(conn_pairs_model(r@)[r@.len() - 1] == resolved_endpoints(s0, cm));
                    assert(conn_pairs_model(r@) =~= added_connections_model(s0, snapm, t1));
                }
            },
            None => {
                proof {
                    let t1 = connsm.take(j as int + 1);
                    assert(conn_pairs_model(r@) =~= added_connections_model(s0, snapm, t1));
                }
            },
        }
        j += 1;
    }
    proof {
        assert(connsm.take(conns@.len() as int) =~= connsm);
    }
    r
}



/// How connection lookups move through a retain over the snapshot set.
pub proof fn lemma_retain_conn_lookup(pre: State, post: State, snap: Seq<ConnectionModel>)
    requires
        pre.wf(),
        post.connections_model() == kept_connections(pre.connections_model(), snap),
    ensures
        forall|c: ConnectionModel| #[trigger] post.has_connection(c) <==> pre.has_connection(c)
            && contains_connection(snap, c),
{
    let m1 = pre.connections_model();
    let m2 = post.connections_model();
    lemma_kept_connections_wf(m1, snap);
    assert forall|c: ConnectionModel| #[trigger] post.has_connection(c) <==> pre.has_connection(c)
        && contains_connection(snap, c) by {
        if post.has_connection(c) {
            let i = choose|i: int| 0 <= i < m2.len() && m2[i].ast =~= c;
            assert(m2.contains(m2[i]));
            assert(m1.contains(m2[i]) && contains_connection(snap, m2[i].ast));
            let j = choose|j: int| 0 <= j < m1.len() && m1[j] == m2[i];
            assert(m1[j].ast =~= c);
            assert(m2[i].ast == c);
        }
        if pre.has_connection(c) && contains_connection(snap, c) {
            let i = choose|i: int| 0 <= i < m1.len() && m1[i].ast =~= c;
            assert(m1[i].ast == c);
            assert(m1.contains(m1[i]));
            assert(contains_connection(snap, m1[i].ast));
            assert(m2.contains(m1[i]));
            let j = choose|j: int| 0 <= j < m2.len() && m2[j] == m1[i];
        }
    }
}

/// Plan one refresh cycle: reconcile the store with the snapshot and return
/// the stage-by-stage view-mutation plan.
#[verifier::rlimit(60)]
pub fn plan_refresh(state: &mut State, snapshot: &Snapshot) -> (r: UpdatePlan)
    requires
        old(state).wf(),
        snapshot.wf(),
    ensures
        final(state).wf(),
        forall|a: AstNodeId| #[trigger] final(state).has_ast(a) <==> snapshot.has_id(a),
        forall|t: int|
            0 <= t < snapshot.nodes_model().len() ==> #[trigger] final(state).entry_model(
                snapshot.nodes_model()[t].id,
            ) == entry_after_visualization(*old(state), snapshot.nodes_model()[t]),
        forall|c: ConnectionModel| #[trigger] final(state).has_connection(c)
            <==> snapshot.has_connection(c),
        r.removed_nodes@ =~= dropped_node_views(
            old(state).nodes_model(),
            snap_ids(snapshot.nodes_model()),
        ),
        expr_pairs_model(r.expression_updates@) =~= expression_updates_model(
            *old(state),
            snapshot.nodes_model(),
        ),
        r.position_updates@ =~= position_updates_model(*old(state), snapshot.nodes_model()),
        vis_pairs_model(r.visualization_updates@) =~= visualization_updates_model(
            *old(state),
            snapshot.nodes_model(),
        ),
        r.nodes_to_add == added_count_model(*old(state), snapshot.nodes_model()),
        r.removed_connections@ =~= dropped_connection_views(
            old(state).connections_model(),
            snapshot.connections_model(),
        ),
        conn_pairs_model(r.added_connections@) =~= added_connections_model(
            *old(state),
            snapshot.nodes_model(),
            snapshot.connections_model(),
        ),
{
    let ghost s0 = *old(state);
    let ghost snapm = snapshot.nodes_model();
    let ghost connsm = snapshot.connections_model();
    proof {
        assert(snapm == Seq::new(snapshot.nodes@.len(), |i: int| snapshot.nodes@[i]@));
        assert(connsm == Seq::new(snapshot.connections@.len(), |i: int| snapshot.connections@[i]@));
    }
    let ids = snapshot_node_ids(&snapshot.nodes);
    let removed_nodes = state.retain_nodes(&ids);
    proof {
        lemma_retain_lookup(s0, *state, ids@);
        assert(ids@ =~= snap_ids(snapm));
        assert forall|a: AstNodeId| #[trigger] ids@.contains(a) == snap_has(snapm, a) by {
            if ids@.contains(a) {
                let w = choose|w: int| 0 <= w < ids@.len() && ids@[w] == a;
                assert(snapm[w].id == a);
            }
            if snap_has(snapm, a) {
                let w = choose|w: int| 0 <= w < snapm.len() && snapm[w].id == a;
                assert(ids@[w] == a);
            }
        }
        assert(forall|a: AstNodeId| #[trigger] state.has_ast(a) <==> s0.has_ast(a) && snap_has(
            snapm,
            a,
        ));
    }
    proof {
        assert forall|i: int, j: int| 0 <= i < j < snapshot.nodes@.len() implies snapshot.nodes@[i]@.id
            != snapshot.nodes@[j]@.id by {
            assert(snapm[i] == snapshot.nodes@[i]@ && snapm[j] == snapshot.nodes@[j]@);
        }
        assert forall|i: int, j: int| 0 <= i < j < snapshot.connections@.len() implies !(
        snapshot.connections@[i]@ =~= snapshot.connections@[j]@) by {
            assert(connsm[i] == snapshot.connections@[i]@ && connsm[j]
                == snapshot.connections@[j]@);
        }
    }
    let nodes_to_add = count_nodes_to_add(state, &snapshot.nodes, Ghost(s0));
    let ghost s1 = *state;
    let expression_updates = phase_expressions(state, &snapshot.nodes, Ghost(s0));
    let position_updates = phase_positions(state, &snapshot.nodes, Ghost(s0));
    let visualization_updates = phase_visualizations(state, &snapshot.nodes, Ghost(s0));
    let ghost s4 = *state;
    let removed_connections = state.retain_connections(&snapshot.connections);
    proof {
        assert(s4.connections_model() == s0.connections_model());
        assert(s4.wf());
        lemma_retain_conn_lookup(s4, *state, connsm);
        lemma_lookup_stable(s4, *state);
        assert forall|t: int| 0 <= t < connsm.len() implies (#[trigger] state.has_connection(
            connsm[t],
        ) == s0.has_connection(connsm[t])) by {
            assert(contains_connection(connsm, connsm[t])) by {
                assert(connsm[t] =~= connsm[t]);
            }
            assert(s4.has_connection(connsm[t]) == s0.has_connection(connsm[t])) by {
                if s4.has_connection(connsm[t]) {
                    let w = choose|w: int|
                        0 <= w < s4.connections_model().len() && s4.connections_model()[w].ast
                            =~= connsm[t];
                    assert(s0.connections_model()[w].ast =~= connsm[t]);
                }
                if s0.has_connection(connsm[t]) {
                    let w = choose|w: int|
                        0 <= w < s0.connections_model().len() && s0.connections_model()[w].ast
                            =~= connsm[t];
                    assert(s4.connections_model()[w].ast =~= connsm[t]);
                }
            }
        }
        assert forall|a: AstNodeId| snap_has(snapm, a) implies #[trigger] state.entry_model(
            a,
        ).view_id == (if s0.has_ast(a) {
            s0.entry_model(a).view_id
        } else {
            None
        }) by {
            let w = choose|w: int| 0 <= w < snapm.len() && snapm[w].id == a;
            assert(s4.entry_model(snapm[w].id) == entry_after_visualization(s0, snapm[w]));
            assert(state.ast_index(a) == s4.ast_index(a));
        }
    }
    proof {
        assert forall|t: int| 0 <= t < snapshot.connections@.len() implies (#[trigger]
        state.has_connection(snapshot.connections@[t]@) == s0.has_connection(
            snapshot.connections@[t]@,
        )) by {
            assert(connsm[t] == snapshot.connections@[t]@);
            assert(state.has_connection(connsm[t]) == s0.has_connection(connsm[t]));
        }
    }
    let added_connections = phase_connections(
        state,
        &snapshot.connections,
        Ghost(s0),
        Ghost(snapm),
    );
    proof {
        let s5 = *state;
        assert forall|c: ConnectionModel| #[trigger] s5.has_connection(c)
            <==> snapshot.has_connection(c) by {
            if contains_connection(connsm, c) {
                assert(s5.has_connection(c));
            }
        }
        assert forall|t: int| 0 <= t < snapm.len() implies #[trigger] state.entry_model(
            snapm[t].id,
        ) == entry_after_visualization(s0, snapm[t]) by {
            assert(s4.entry_model(snapm[t].id) == entry_after_visualization(s0, snapm[t]));
            lemma_lookup_stable(s4, *state);
            assert(state.ast_index(snapm[t].id) == s4.ast_index(snapm[t].id));
            assert(state.nodes_model() == s4.nodes_model());
        }
        assert forall|a: AstNodeId| #[trigger] state.has_ast(a) <==> snapshot.has_id(a) by {
            lemma_lookup_stable(s4, *state);
        }
    }
    UpdatePlan {
        removed_nodes,
        expression_updates,
        position_updates,
        visualization_updates,
        nodes_to_add,
        removed_connections,
        added_connections,
    }
}




/// Extending the taken prefix of `b` by one appends that element to `a + b`.
pub proof fn lemma_concat_take_push<T>(a: Seq<T>, b: Seq<T>, i: int)
    requires
        0 <= i < b.len(),
    ensures
        a + b.take(i + 1) =~= (a + b.take(i)).push(b[i]),
{
}

/// Mathematical value of a [`ViewCommand`].
#[verifier::ext_equal]
pub enum ViewCommandModel {
    RemoveNode(ViewNodeId),
    SetNodeExpression(ViewNodeId, Seq<char>),
    SetNodePosition(ViewNodeId, Position),
    SetNodeVisualization(ViewNodeId, Option<Seq<char>>),
    EnableVisualization(ViewNodeId),
    DisableVisualization(ViewNodeId),
    AddNode,
    RemoveConnection(ViewConnectionId),
    AddConnection(ViewEndpointModel, ViewEndpointModel),
}

impl View for ViewCommand {
    type V = ViewCommandModel;

    open spec fn view(&self) -> ViewCommandModel {
        match self {
            ViewCommand::RemoveNode(v) => ViewCommandModel::RemoveNode(*v),
            ViewCommand::SetNodeExpression(v, e) => ViewCommandModel::SetNodeExpression(*v, e@),
            ViewCommand::SetNodePosition(v, p) => ViewCommandModel::SetNodePosition(*v, *p),
            ViewCommand::SetNodeVisualization(v, x) => ViewCommandModel::SetNodeVisualization(
                *v,
                opt_str_view(*x),
            ),
            ViewCommand::EnableVisualization(v) => ViewCommandModel::EnableVisualization(*v),
            ViewCommand::DisableVisualization(v) => ViewCommandModel::DisableVisualization(*v),
            ViewCommand::AddNode => ViewCommandModel::AddNode,
            ViewCommand::RemoveConnection(v) => ViewCommandModel::RemoveConnection(*v),
            ViewCommand::AddConnection(a, b) => ViewCommandModel::AddConnection(a@, b@),
        }
    }
}

/// Mathematical value of a command list.
pub open spec fn cmds_model(s: Seq<ViewCommand>) -> Seq<ViewCommandModel> {
    Seq::new(s.len(), |i: int| s[i]@)
}

/// The node-removal segment of a linearized plan.
pub open spec fn remove_node_cmds(v: Seq<ViewNodeId>) -> Seq<ViewCommandModel> {
    Seq::new(v.len(), |i: int| ViewCommandModel::RemoveNode(v[i]))
}

/// The expression segment of a linearized plan.
pub open spec fn expr_cmds(p: Seq<(ViewNodeId, Seq<char>)>) -> Seq<ViewCommandModel> {
    Seq::new(p.len(), |i: int| ViewCommandModel::SetNodeExpression(p[i].0, p[i].1))
}

/// The position segment of a linearized plan.
pub open spec fn pos_cmds(p: Seq<(ViewNodeId, Position)>) -> Seq<ViewCommandModel> {
    Seq::new(p.len(), |i: int| ViewCommandModel::SetNodePosition(p[i].0, p[i].1))
}

/// The visualization-path segment of a linearized plan.
pub open spec fn vis_set_cmds(p: Seq<(ViewNodeId, Option<Seq<char>>)>) -> Seq<ViewCommandModel> {
    Seq::new(p.len(), |i: int| ViewCommandModel::SetNodeVisualization(p[i].0, p[i].1))
}

/// The visualization on/off segment of a linearized plan.
pub open spec fn vis_toggle_cmds(p: Seq<(ViewNodeId, Option<Seq<char>>)>) -> Seq<
    ViewCommandModel,
> {
    Seq::new(
        p.len(),
        |i: int|
            if p[i].1 is Some {
                ViewCommandModel::EnableVisualization(p[i].0)
            } else {
                ViewCommandModel::DisableVisualization(p[i].0)
            },
    )
}

/// The node-creation segment of a linearized plan.
pub open spec fn add_node_cmds(n: int) -> Seq<ViewCommandModel> {
    Seq::new((if n >= 0 { n } else { 0 }) as nat, |i: int| ViewCommandModel::AddNode)
}

/// The connection-removal segment of a linearized plan.
pub open spec fn remove_conn_cmds(v: Seq<ViewConnectionId>) -> Seq<ViewCommandModel> {
    Seq::new(v.len(), |i: int| ViewCommandModel::RemoveConnection(v[i]))
}

/// The connection-creation segment of a linearized plan.
pub open spec fn add_conn_cmds(p: Seq<(ViewEndpointModel, ViewEndpointModel)>) -> Seq<
    ViewCommandModel,
> {
    Seq::new(p.len(), |i: int| ViewCommandModel::AddConnection(p[i].0, p[i].1))
}

/// The full linearization of a plan, in the fixed stage order.
pub open spec fn plan_cmds_model(p: UpdatePlan) -> Seq<ViewCommandModel> {
    remove_node_cmds(p.removed_nodes@) + expr_cmds(expr_pairs_model(p.expression_updates@))
        + pos_cmds(p.position_updates@) + vis_set_cmds(vis_pairs_model(p.visualization_updates@))
        + vis_toggle_cmds(vis_pairs_model(p.visualization_updates@)) + add_node_cmds(
        p.nodes_to_add as int,
    ) + remove_conn_cmds(p.removed_connections@) + add_conn_cmds(
        conn_pairs_model(p.added_connections@),
    )
}

impl UpdatePlan {
    /// Whether the plan asks the view for nothing at all.
    pub open spec fn is_empty_model(self) -> bool {
        self.removed_nodes@.len() == 0 && self.expression_updates@.len() == 0
            && self.position_updates@.len() == 0 && self.visualization_updates@.len() == 0
            && self.nodes_to_add == 0 && self.removed_connections@.len() == 0
            && self.added_connections@.len() == 0
    }

    /// Linearize the plan into the fixed stage order: remove nodes, update
    /// expressions, update positions, update visualizations, add new nodes,
    /// remove connections, add connections.
    #[verifier::loop_isolation(false)]
    #[verifier::rlimit(60)]
    pub fn commands(&self) -> (r: Vec<ViewCommand>)
        ensures
            stage_ordered(r@),
            cmds_model(r@) =~= plan_cmds_model(*self),
            self.is_empty_model() ==> r@.len() == 0,
    {
        let mut r: Vec<ViewCommand> = Vec::new();
        let ghost seg0 = remove_node_cmds(self.removed_nodes@);
        let ghost seg1 = expr_cmds(expr_pairs_model(self.expression_updates@));
        let ghost seg2 = pos_cmds(self.position_updates@);
        let ghost seg3 = vis_set_cmds(vis_pairs_model(self.visualization_updates@));
        let ghost seg4 = vis_toggle_cmds(vis_pairs_model(self.visualization_updates@));
        let ghost seg5 = add_node_cmds(self.nodes_to_add as int);
        let ghost seg6 = remove_conn_cmds(self.removed_connections@);
        let ghost seg7 = add_conn_cmds(conn_pairs_model(self.added_connections@));
        let mut i: usize = 0;
        while i < self.removed_nodes.len()
            invariant
                i <= self.removed_nodes@.len(),
                cmds_model(r@) =~= seg0.take(i as int),
                forall|k: int| 0 <= k < r@.len() ==> r@[k].stage() == 0,
                stage_ordered(r@),
            decreases self.removed_nodes@.len() - i,
        {
            r.push(ViewCommand::RemoveNode(self.removed_nodes[i]));
            i += 1;
        }
        proof {
            assert(seg0.take(seg0.len() as int) =~= seg0);
        }
        let mut i: usize = 0;
        while i < self.expression_updates.len()
            invariant
                i <= self.expression_updates@.len(),
                cmds_model(r@) =~= seg0 + seg1.take(i as int),
                forall|k: int| 0 <= k < r@.len() ==> r@[k].stage() <= 1,
                stage_ordered(r@),
            decreases self.expression_updates@.len() - i,
        {
            let (v, e) = (self.expression_updates[i].0, self.expression_updates[i].1.clone());
            r.push(ViewCommand::SetNodeExpression(v, e));
            proof {
                assert(cmds_model(r@) =~= cmds_model(r@.drop_last()).push(r@.last()@));
                assert(r@.last()@ == seg1[i as int]) by {
                    assert(expr_pairs_model(self.expression_updates@)[i as int]
                        == (self.expression_updates@[i as int].0,
                        self.expression_updates@[i as int].1@));
                }
                lemma_concat_take_push(seg0, seg1, i as int);
            }
            i += 1;
        }
        proof {
            assert(seg1.take(seg1.len() as int) =~= seg1);
        }
        let mut i: usize = 0;
        while i < self.position_updates.len()
            invariant
                i <= self.position_updates@.len(),
                cmds_model(r@) =~= seg0 + seg1 + seg2.take(i as int),
                forall|k: int| 0 <= k < r@.len() ==> r@[k].stage() <= 2,
                stage_ordered(r@),
            decreases self.position_updates@.len() - i,
        {
            r.push(
                ViewCommand::SetNodePosition(
                    self.position_updates[i].0,
                    self.position_updates[i].1,
                ),
            );
            proof {
                let ghost pre = cmds_model(r@.drop_last());
                assert(cmds_model(r@) =~= cmds_model(r@.drop_last()).push(r@.last()@));
                assert(r@.last()@ == seg2[i as int]);
                lemma_concat_take_push(seg0 + seg1, seg2, i as int);
            }
            i += 1;
        }
        proof {
            assert(seg2.take(seg2.len() as int) =~= seg2);
        }
        let mut i: usize = 0;
        while i < self.visualization_updates.len()
            invariant
                i <= self.visualization_updates@.len(),
                cmds_model(r@) =~= seg0 + seg1 + seg2 + seg3.take(i as int),
                forall|k: int| 0 <= k < r@.len() ==> r@[k].stage() <= 3,
                stage_ordered(r@),
            decreases self.visualization_updates@.len() - i,
        {
            let v = self.visualization_updates[i].0;
            let x = crate::state::clone_opt_string(&self.visualization_updates[i].1);
            r.push(ViewCommand::SetNodeVisualization(v, x));
            proof {
                assert(cmds_model(r@) =~= cmds_model(r@.drop_last()).push(r@.last()@));
                assert(r@.last()@ == seg3[i as int]) by {
                    assert(vis_pairs_model(self.visualization_updates@)[i as int]
                        == (self.visualization_updates@[i as int].0, opt_str_view(
                        self.visualization_updates@[i as int].1,
                    )));
                }
                lemma_concat_take_push(seg0 + seg1 + seg2, seg3, i as int);
            }
            i += 1;
        }
        proof {
            assert(seg3.take(seg3.len() as int) =~= seg3);
        }
        let mut i: usize = 0;
        while i < self.visualization_updates.len()
            invariant
                i <= self.visualization_updates@.len(),
                cmds_model(r@) =~= seg0 + seg1 + seg2 + seg3 + seg4.take(i as int),
                forall|k: int| 0 <= k < r@.len() ==> r@[k].stage() <= 3,
                stage_ordered(r@),
            decreases self.visualization_updates@.len() - i,
        {
            let v = self.visualization_updates[i].0;
            if self.visualization_updates[i].1.is_some() {
                r.push(ViewCommand::EnableVisualization(v));
            } else {
                r.push(ViewCommand::DisableVisualization(v));
            }
            proof {
                assert(cmds_model(r@) =~= cmds_model(r@.drop_last()).push(r@.last()@));
                assert(r@.last()@ == seg4[i as int]) by {
                    assert(vis_pairs_model(self.visualization_updates@)[i as int]
                        == (self.visualization_updates@[i as int].0, opt_str_view(
                        self.visualization_updates@[i as int].1,
                    )));
                }
                lemma_concat_take_push(seg0 + seg1 + seg2 + seg3, seg4, i as int);
            }
            i += 1;
        }
        proof {
            assert(seg4.take(seg4.len() as int) =~= seg4);
        }
        let mut i: usize = 0;
        while i < self.nodes_to_add
            invariant
                i <= self.nodes_to_add,
                cmds_model(r@) =~= seg0 + seg1 + seg2 + seg3 + seg4 + seg5.take(i as int),
                forall|k: int| 0 <= k < r@.len() ==> r@[k].stage() <= 4,
                stage_ordered(r@),
            decreases self.nodes_to_add - i,
        {
            r.push(ViewCommand::AddNode);
            proof {
                assert(cmds_model(r@) =~= cmds_model(r@.drop_last()).push(r@.last()@));
                assert(r@.last()@ == seg5[i as int]);
                lemma_concat_take_push(seg0 + seg1 + seg2 + seg3 + seg4, seg5, i as int);
            }
            i += 1;
        }
        proof {
            assert(seg5.take(seg5.len() as int) =~= seg5);
        }
        let mut i: usize = 0;
        while i < self.removed_connections.len()
            invariant
                i <= self.removed_connections@.len(),
                cmds_model(r@) =~= seg0 + seg1 + seg2 + seg3 + seg4 + seg5 + seg6.take(i as int),
                forall|k: int| 0 <= k < r@.len() ==> r@[k].stage() <= 5,
                stage_ordered(r@),
            decreases self.removed_connections@.len() - i,
        {
            r.push(ViewCommand::RemoveConnection(self.removed_connections[i]));
            proof {
                assert(cmds_model(r@) =~= cmds_model(r@.drop_last()).push(r@.last()@));
                assert(r@.last()@ == seg6[i as int]);
                lemma_concat_take_push(seg0 + seg1 + seg2 + seg3 + seg4 + seg5, seg6, i as int);
            }
            i += 1;
        }
        proof {
            assert(seg6.take(seg6.len() as int) =~= seg6);
        }
        let mut i: usize = 0;
        while i < self.added_connections.len()
            invariant
                i <= self.added_connections@.len(),
                cmds_model(r@) =~= seg0 + seg1 + seg2 + seg3 + seg4 + seg5 + seg6 + seg7.take(
                    i as int,
                ),
                forall|k: int| 0 <= k < r@.len() ==> r@[k].stage() <= 6,
                stage_ordered(r@),
            decreases self.added_connections@.len() - i,
        {
            let src = &self.added_connections[i].0;
            let tgt = &self.added_connections[i].1;
            r.push(
                ViewCommand::AddConnection(
                    ViewEndpoint { node: src.node, port: clone_ports(&src.port) },
                    ViewEndpoint { node: tgt.node, port: clone_ports(&tgt.port) },
                ),
            );
            proof {
                assert(cmds_model(r@) =~= cmds_model(r@.drop_last()).push(r@.last()@));
                assert(r@.last()@ =~= seg7[i as int]) by {
                    assert(conn_pairs_model(self.added_connections@)[i as int]
                        == (self.added_connections@[i as int].0@,
                        self.added_connections@[i as int].1@));
                    assert(r@.last()@ is AddConnection);
                }
                assert(r@.last()@ == seg7[i as int]);
                lemma_concat_take_push(
                    seg0 + seg1 + seg2 + seg3 + seg4 + seg5 + seg6,
                    seg7,
                    i as int,
                );
            }
            i += 1;
        }
        proof {
            assert(seg7.take(seg7.len() as int) =~= seg7);
            assert(cmds_model(r@) =~= plan_cmds_model(*self));
        }
        r
    }
}



/// Whether a stored connection entry is pending (no view edge yet), touches
/// node `a`, and now resolves at both endpoints.
pub open spec fn incident_pending(s: State, e: ConnectionEntryModel, a: AstNodeId) -> bool {
    &&& e.view is None
    &&& (e.ast.source.node == a || e.ast.target.node == a)
    &&& s.has_ast(e.ast.source.node)
    &&& s.entry_model(e.ast.source.node).view_id is Some
    &&& s.has_ast(e.ast.target.node)
    &&& s.entry_model(e.ast.target.node).view_id is Some
}

/// The view edges that become creatable once node `a` has a view: the
/// pending stored connections touching `a` whose endpoints both resolve, in
/// store order, over the first `k` entries.
pub open spec fn pending_connections_model(s: State, a: AstNodeId, k: int) -> Seq<
    (ViewEndpointModel, ViewEndpointModel),
>
    decreases k,
{
    if k <= 0 {
        Seq::empty()
    } else {
        let rest = pending_connections_model(s, a, k - 1);
        let e = s.connections_model()[k - 1];
        if incident_pending(s, e, a) {
            rest.push(resolved_endpoints(s, e.ast))
        } else {
            rest
        }
    }
}


} // verus!
