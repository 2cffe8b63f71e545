//! The engine's cross-cutting guarantees, stated and proved once: a
//! successful refresh leaves the store showing exactly the snapshot, a second
//! refresh against an unchanged controller plans nothing, a view-originated
//! position edit that round-trips through the controller produces no further
//! position command, and a planned view edge only ever references view nodes
//! the store already shows.

use vstd::prelude::*;
use vstd::seq_lib::*;

use crate::ids::AstNodeId;
use crate::ids::ConnectionModel;
use crate::ids::Position;
use crate::ids::ViewConnectionId;
use crate::ids::ViewEndpointModel;
use crate::ids::ViewNodeId;
use crate::ids::contains_connection;
use crate::plan::added_connections_model;
use crate::plan::added_count_model;
use crate::plan::connection_resolvable;
use crate::plan::emits_expression;
use crate::plan::emits_position;
use crate::plan::emits_visualization;
use crate::plan::expression_updates_model;
use crate::plan::position_updates_model;
use crate::plan::resolved_endpoints;
use crate::plan::snap_ids;
use crate::plan::visualization_updates_model;
use crate::snapshot::NodeSnapshotModel;
use crate::snapshot::Snapshot;
use crate::state::State;
use crate::state::dropped_connection_views;
use crate::state::dropped_node_views;
use crate::state::entry_after_visualization;

verus! {

/// The store shows exactly the snapshot: the node id sets agree, every
/// snapshot attribute is cached, and the connection sets agree.
pub open spec fn synced(s: State, snapshot: Snapshot) -> bool {
    &&& (forall|a: AstNodeId| #[trigger] s.has_ast(a) <==> snapshot.has_id(a))
    &&& (forall|t: int|
        0 <= t < snapshot.nodes_model().len() ==> {
            let ns = #[trigger] snapshot.nodes_model()[t];
            &&& s.entry_model(ns.id).expression == Some(ns.expression)
            &&& (ns.position is Some ==> s.entry_model(ns.id).position == ns.position)
            &&& s.entry_model(ns.id).visualization == ns.visualization
        })
    &&& (forall|c: ConnectionModel| #[trigger] s.has_connection(c) <==> snapshot.has_connection(c))
}

/// After a successful refresh the store shows exactly the snapshot.  The
/// premises are the postconditions of planning a refresh of `s0` against the
/// snapshot, with `s` the store it leaves behind.
pub proof fn lemma_refresh_synced(s0: State, s: State, snapshot: Snapshot)
    requires
        snapshot.wf(),
        forall|a: AstNodeId| #[trigger] s.has_ast(a) <==> snapshot.has_id(a),
        forall|t: int|
            0 <= t < snapshot.nodes_model().len() ==> #[trigger] s.entry_model(
                snapshot.nodes_model()[t].id,
            ) == entry_after_visualization(s0, snapshot.nodes_model()[t]),
        forall|c: ConnectionModel| #[trigger] s.has_connection(c) <==> snapshot.has_connection(c),
    ensures
        synced(s, snapshot),
{
    assert forall|t: int| 0 <= t < snapshot.nodes_model().len() implies {
        let ns = #[trigger] snapshot.nodes_model()[t];
        &&& s.entry_model(ns.id).expression == Some(ns.expression)
        &&& (ns.position is Some ==> s.entry_model(ns.id).position == ns.position)
        &&& s.entry_model(ns.id).visualization == ns.visualization
    } by {
        let ns = snapshot.nodes_model()[t];
        assert(s.entry_model(ns.id) == entry_after_visualization(s0, ns));
    }
}

/// No node entry is dropped when every entry's id survives.
proof fn lemma_dropped_node_views_empty(
    m: Seq<crate::state::NodeEntryModel>,
    ids: Seq<AstNodeId>,
)
    requires
        forall|i: int| 0 <= i < m.len() ==> ids.contains(#[trigger] m[i].ast_id),
    ensures
        dropped_node_views(m, ids) =~= Seq::<ViewNodeId>::empty(),
    decreases m.len(),
{
    if m.len() > 0 {
        assert(forall|i: int|
            0 <= i < m.drop_last().len() ==> ids.contains(#[trigger] m.drop_last()[i].ast_id));
        lemma_dropped_node_views_empty(m.drop_last(), ids);
        assert(ids.contains(m.last().ast_id)) by {
            assert(m[m.len() - 1] == m.last());
        }
    }
}

/// No expression delta is planned when nothing emits one.
proof fn lemma_expression_updates_empty(s: State, snap: Seq<NodeSnapshotModel>)
    requires
        forall|t: int| 0 <= t < snap.len() ==> !emits_expression(s, #[trigger] snap[t]),
    ensures
        expression_updates_model(s, snap) =~= Seq::<(ViewNodeId, Seq<char>)>::empty(),
    decreases snap.len(),
{
    if snap.len() > 0 {
        assert(forall|t: int|
            0 <= t < snap.drop_last().len() ==> !emits_expression(
                s,
                #[trigger] snap.drop_last()[t],
            ));
        lemma_expression_updates_empty(s, snap.drop_last());
        assert(!emits_expression(s, snap.last())) by {
            assert(snap[snap.len() - 1] == snap.last());
        }
    }
}

/// No position delta is planned when nothing emits one.
proof fn lemma_position_updates_empty(s: State, snap: Seq<NodeSnapshotModel>)
    requires
        forall|t: int| 0 <= t < snap.len() ==> !emits_position(s, #[trigger] snap[t]),
    ensures
        position_updates_model(s, snap) =~= Seq::<(ViewNodeId, Position)>::empty(),
    decreases snap.len(),
{
    if snap.len() > 0 {
        assert(forall|t: int|
            0 <= t < snap.drop_last().len() ==> !emits_position(s, #[trigger] snap.drop_last()[t]));
        lemma_position_updates_empty(s, snap.drop_last());
        assert(!emits_position(s, snap.last())) by {
            assert(snap[snap.len() - 1] == snap.last());
        }
    }
}

/// No visualization delta is planned when nothing emits one.
proof fn lemma_visualization_updates_empty(s: State, snap: Seq<NodeSnapshotModel>)
    requires
        forall|t: int| 0 <= t < snap.len() ==> !emits_visualization(s, #[trigger] snap[t]),
    ensures
        visualization_updates_model(s, snap) =~= Seq::<(ViewNodeId, Option<Seq<char>>)>::empty(),
    decreases snap.len(),
{
    if snap.len() > 0 {
        assert(forall|t: int|
            0 <= t < snap.drop_last().len() ==> !emits_visualization(
                s,
                #[trigger] snap.drop_last()[t],
            ));
        lemma_visualization_updates_empty(s, snap.drop_last());
        assert(!emits_visualization(s, snap.last())) by {
            assert(snap[snap.len() - 1] == snap.last());
        }
    }
}

/// No node is created when the store knows every snapshot node.
proof fn lemma_added_count_zero(s: State, snap: Seq<NodeSnapshotModel>)
    requires
        forall|t: int| 0 <= t < snap.len() ==> s.has_ast(#[trigger] snap[t].id),
    ensures
        added_count_model(s, snap) == 0,
    decreases snap.len(),
{
    if snap.len() > 0 {
        assert(forall|t: int|
            0 <= t < snap.drop_last().len() ==> s.has_ast(#[trigger] snap.drop_last()[t].id));
        lemma_added_count_zero(s, snap.drop_last());
        assert(s.has_ast(snap.last().id)) by {
            assert(snap[snap.len() - 1] == snap.last());
        }
    }
}

/// No connection entry is dropped when every entry's connection survives.
proof fn lemma_dropped_connection_views_empty(
    cm: Seq<crate::state::ConnectionEntryModel>,
    snap: Seq<ConnectionModel>,
)
    requires
        forall|i: int| 0 <= i < cm.len() ==> contains_connection(snap, #[trigger] cm[i].ast),
    ensures
        dropped_connection_views(cm, snap) =~= Seq::<ViewConnectionId>::empty(),
    decreases cm.len(),
{
    if cm.len() > 0 {
        assert(forall|i: int|
            0 <= i < cm.drop_last().len() ==> contains_connection(
                snap,
                #[trigger] cm.drop_last()[i].ast,
            ));
        lemma_dropped_connection_views_empty(cm.drop_last(), snap);
        assert(contains_connection(snap, cm.last().ast)) by {
            assert(cm[cm.len() - 1] == cm.last());
        }
    }
}

/// No view edge is created when the store knows every snapshot connection.
proof fn lemma_added_connections_empty(
    s: State,
    snap: Seq<NodeSnapshotModel>,
    conns: Seq<ConnectionModel>,
)
    requires
        forall|t: int| 0 <= t < conns.len() ==> s.has_connection(#[trigger] conns[t]),
    ensures
        added_connections_model(s, snap, conns) =~= Seq::<
            (ViewEndpointModel, ViewEndpointModel),
        >::empty(),
    decreases conns.len(),
{
    if conns.len() > 0 {
        assert(forall|t: int|
            0 <= t < conns.drop_last().len() ==> s.has_connection(
                #[trigger] conns.drop_last()[t],
            ));
        lemma_added_connections_empty(s, snap, conns.drop_last());
        assert(s.has_connection(conns.last())) by {
            assert(conns[conns.len() - 1] == conns.last());
        }
    }
}

/// Idempotence: a refresh planned against a store already showing exactly
/// the snapshot plans nothing at all: every delta list is empty, no node or
/// connection is created or removed.
pub proof fn lemma_synced_plan_empty(s: State, snapshot: Snapshot)
    requires
        s.wf(),
        snapshot.wf(),
        synced(s, snapshot),
    ensures
        dropped_node_views(s.nodes_model(), snap_ids(snapshot.nodes_model())) =~= Seq::<
            ViewNodeId,
        >::empty(),
        expression_updates_model(s, snapshot.nodes_model()) =~= Seq::<
            (ViewNodeId, Seq<char>),
        >::empty(),
        position_updates_model(s, snapshot.nodes_model()) =~= Seq::<
            (ViewNodeId, Position),
        >::empty(),
        visualization_updates_model(s, snapshot.nodes_model()) =~= Seq::<
            (ViewNodeId, Option<Seq<char>>),
        >::empty(),
        added_count_model(s, snapshot.nodes_model()) == 0,
        dropped_connection_views(s.connections_model(), snapshot.connections_model()) =~= Seq::<
            ViewConnectionId,
        >::empty(),
        added_connections_model(s, snapshot.nodes_model(), snapshot.connections_model()) =~= Seq::<
            (ViewEndpointModel, ViewEndpointModel),
        >::empty(),
{
    let snapm = snapshot.nodes_model();
    let ids = snap_ids(snapm);
    let m = s.nodes_model();
    assert forall|i: int| 0 <= i < m.len() implies ids.contains(#[trigger] m[i].ast_id) by {
        assert(s.has_ast(m[i].ast_id));
        assert(snapshot.has_id(m[i].ast_id));
        let w = choose|w: int| 0 <= w < snapm.len() && snapm[w].id == m[i].ast_id;
        assert(ids[w] == m[i].ast_id);
    }
    lemma_dropped_node_views_empty(m, ids);
    assert forall|t: int| 0 <= t < snapm.len() implies !emits_expression(
        s,
        #[trigger] snapm[t],
    ) by {
        assert(s.entry_model(snapm[t].id).expression == Some(snapm[t].expression));
    }
    lemma_expression_updates_empty(s, snapm);
    assert forall|t: int| 0 <= t < snapm.len() implies !emits_position(s, #[trigger] snapm[t]) by {
        if snapm[t].position is Some {
            assert(s.entry_model(snapm[t].id).position == snapm[t].position);
        }
    }
    lemma_position_updates_empty(s, snapm);
    assert forall|t: int| 0 <= t < snapm.len() implies !emits_visualization(
        s,
        #[trigger] snapm[t],
    ) by {
        assert(s.entry_model(snapm[t].id).visualization == snapm[t].visualization);
    }
    lemma_visualization_updates_empty(s, snapm);
    assert forall|t: int| 0 <= t < snapm.len() implies s.has_ast(#[trigger] snapm[t].id) by {
        assert(snapshot.has_id(snapm[t].id));
    }
    lemma_added_count_zero(s, snapm);
    let cm = s.connections_model();
    let connsm = snapshot.connections_model();
    assert forall|i: int| 0 <= i < cm.len() implies contains_connection(
        connsm,
        #[trigger] cm[i].ast,
    ) by {
        assert(cm[i].ast =~= cm[i].ast);
        assert(s.has_connection(cm[i].ast));
        assert(snapshot.has_connection(cm[i].ast));
    }
    lemma_dropped_connection_views_empty(cm, connsm);
    assert forall|t: int| 0 <= t < connsm.len() implies s.has_connection(#[trigger] connsm[t]) by {
        assert(connsm[t] =~= connsm[t]);
        assert(snapshot.has_connection(connsm[t]));
    }
    lemma_added_connections_empty(s, snapm, connsm);
}

/// At most one controller node is shown as a given view node.
pub proof fn lemma_view_owner_unique(s: State, a1: AstNodeId, a2: AstNodeId, v: ViewNodeId)
    requires
        s.wf(),
        s.has_ast(a1),
        s.has_ast(a2),
        s.entry_model(a1).view_id == Some(v),
        s.entry_model(a2).view_id == Some(v),
    ensures
        a1 == a2,
{
    s.lemma_lookup(a1);
    s.lemma_lookup(a2);
    let i1 = s.ast_index(a1);
    let i2 = s.ast_index(a2);
    if i1 != i2 {
        assert(s.nodes_model()[i1].view_id == Some(v));
        assert(s.nodes_model()[i2].view_id == Some(v));
    }
}

/// Every planned position delta originates from some snapshot node whose
/// stored position differs from the cache of the node's store entry.
pub proof fn lemma_position_updates_sources(s: State, snap: Seq<NodeSnapshotModel>)
    ensures
        forall|x: (ViewNodeId, Position)| #[trigger] position_updates_model(s, snap).contains(x)
            ==> exists|t: int|
            0 <= t < snap.len() && emits_position(s, #[trigger] snap[t]) && s.entry_model(
                snap[t].id,
            ).view_id == Some(x.0) && snap[t].position == Some(x.1),
    decreases snap.len(),
{
    let model = position_updates_model(s, snap);
    if snap.len() > 0 {
        lemma_position_updates_sources(s, snap.drop_last());
        let rest = position_updates_model(s, snap.drop_last());
        assert forall|x: (ViewNodeId, Position)| #[trigger] model.contains(x) implies exists|
            t: int,
        |
            0 <= t < snap.len() && emits_position(s, #[trigger] snap[t]) && s.entry_model(
                snap[t].id,
            ).view_id == Some(x.0) && snap[t].position == Some(x.1) by {
            let j = choose|j: int| 0 <= j < model.len() && model[j] == x;
            if j < rest.len() {
                assert(rest.contains(x));
                let t = choose|t: int|
                    0 <= t < snap.drop_last().len() && emits_position(
                        s,
                        #[trigger] snap.drop_last()[t],
                    ) && s.entry_model(snap.drop_last()[t].id).view_id == Some(x.0)
                        && snap.drop_last()[t].position == Some(x.1);
                assert(snap[t] == snap.drop_last()[t]);
                assert(emits_position(s, snap[t]));
            } else {
                assert(snap[snap.len() - 1] == snap.last());
                assert(emits_position(s, snap[snap.len() - 1]));
            }
        }
    }
}

/// Every planned expression delta originates from some snapshot node whose
/// expression text differs from the cache of the node's store entry; in
/// particular its view id is one the store shows.
pub proof fn lemma_expression_updates_sources(s: State, snap: Seq<NodeSnapshotModel>)
    ensures
        forall|x: (ViewNodeId, Seq<char>)| #[trigger] expression_updates_model(s, snap).contains(
            x,
        ) ==> exists|t: int|
            0 <= t < snap.len() && emits_expression(s, #[trigger] snap[t]) && s.entry_model(
                snap[t].id,
            ).view_id == Some(x.0) && snap[t].expression == x.1,
    decreases snap.len(),
{
    let model = expression_updates_model(s, snap);
    if snap.len() > 0 {
        lemma_expression_updates_sources(s, snap.drop_last());
        let rest = expression_updates_model(s, snap.drop_last());
        assert forall|x: (ViewNodeId, Seq<char>)| #[trigger] model.contains(x) implies exists|
            t: int,
        |
            0 <= t < snap.len() && emits_expression(s, #[trigger] snap[t]) && s.entry_model(
                snap[t].id,
            ).view_id == Some(x.0) && snap[t].expression == x.1 by {
            let j = choose|j: int| 0 <= j < model.len() && model[j] == x;
            if j < rest.len() {
                assert(rest.contains(x));
                let t = choose|t: int|
                    0 <= t < snap.drop_last().len() && emits_expression(
                        s,
                        #[trigger] snap.drop_last()[t],
                    ) && s.entry_model(snap.drop_last()[t].id).view_id == Some(x.0)
                        && snap.drop_last()[t].expression == x.1;
                assert(snap[t] == snap.drop_last()[t]);
                assert(emits_expression(s, snap[t]));
            } else {
                assert(snap[snap.len() - 1] == snap.last());
                assert(emits_expression(s, snap[snap.len() - 1]));
            }
        }
    }
}

/// Every planned visualization delta originates from some snapshot node
/// whose visualization path differs from the cache of the node's store
/// entry; in particular its view id is one the store shows.
pub proof fn lemma_visualization_updates_sources(s: State, snap: Seq<NodeSnapshotModel>)
    ensures
        forall|x: (ViewNodeId, Option<Seq<char>>)| #[trigger] visualization_updates_model(
            s,
            snap,
        ).contains(x) ==> exists|t: int|
            0 <= t < snap.len() && emits_visualization(s, #[trigger] snap[t]) && s.entry_model(
                snap[t].id,
            ).view_id == Some(x.0) && snap[t].visualization == x.1,
    decreases snap.len(),
{
    let model = visualization_updates_model(s, snap);
    if snap.len() > 0 {
        lemma_visualization_updates_sources(s, snap.drop_last());
        let rest = visualization_updates_model(s, snap.drop_last());
        assert forall|x: (ViewNodeId, Option<Seq<char>>)| #[trigger] model.contains(x) implies
            exists|t: int|
                0 <= t < snap.len() && emits_visualization(s, #[trigger] snap[t])
                    && s.entry_model(snap[t].id).view_id == Some(x.0) && snap[t].visualization
                    == x.1 by {
            let j = choose|j: int| 0 <= j < model.len() && model[j] == x;
            if j < rest.len() {
                assert(rest.contains(x));
                let t = choose|t: int|
                    0 <= t < snap.drop_last().len() && emits_visualization(
                        s,
                        #[trigger] snap.drop_last()[t],
                    ) && s.entry_model(snap.drop_last()[t].id).view_id == Some(x.0)
                        && snap.drop_last()[t].visualization == x.1;
                assert(snap[t] == snap.drop_last()[t]);
                assert(emits_visualization(s, snap[t]));
            } else {
                assert(snap[snap.len() - 1] == snap.last());
                assert(emits_visualization(s, snap[snap.len() - 1]));
            }
        }
    }
}

/// Echo suppression: after a view-originated move of node `a` to position
/// `p` has been cached, a refresh against a snapshot that reports that same
/// position plans no position command at all for the node's view.
pub proof fn lemma_echo_suppression(
    s: State,
    snap: Seq<NodeSnapshotModel>,
    a: AstNodeId,
    v: ViewNodeId,
    p: Position,
)
    requires
        s.wf(),
        s.has_ast(a),
        s.entry_model(a).view_id == Some(v),
        s.entry_model(a).position == Some(p),
        forall|t: int| 0 <= t < snap.len() && (#[trigger] snap[t].id) == a ==> snap[t].position
            == Some(p),
    ensures
        forall|q: Position| !position_updates_model(s, snap).contains((v, q)),
{
    lemma_position_updates_sources(s, snap);
    assert forall|q: Position| !position_updates_model(s, snap).contains((v, q)) by {
        if position_updates_model(s, snap).contains((v, q)) {
            let t = choose|t: int|
                0 <= t < snap.len() && emits_position(s, #[trigger] snap[t]) && s.entry_model(
                    snap[t].id,
                ).view_id == Some(v) && snap[t].position == Some(q);
            let b = snap[t].id;
            lemma_view_owner_unique(s, a, b, v);
            assert(snap[t].position == Some(p));
            assert(s.entry_model(a).position != snap[t].position);
        }
    }
}

/// Every planned view edge resolves both endpoints to view nodes the store
/// already shows; node creation is sequenced before connection changes, so
/// no connection ever references a not-yet-created node.
pub proof fn lemma_added_connections_sources(
    s: State,
    snap: Seq<NodeSnapshotModel>,
    conns: Seq<ConnectionModel>,
)
    ensures
        forall|x: (ViewEndpointModel, ViewEndpointModel)| #[trigger] added_connections_model(
            s,
            snap,
            conns,
        ).contains(x) ==> exists|t: int|
            0 <= t < conns.len() && !s.has_connection(#[trigger] conns[t])
                && connection_resolvable(s, snap, conns[t]) && x == resolved_endpoints(
                s,
                conns[t],
            ),
    decreases conns.len(),
{
    let model = added_connections_model(s, snap, conns);
    if conns.len() > 0 {
        lemma_added_connections_sources(s, snap, conns.drop_last());
        let rest = added_connections_model(s, snap, conns.drop_last());
        assert forall|x: (ViewEndpointModel, ViewEndpointModel)| #[trigger] model.contains(
            x,
        ) implies exists|t: int|
            0 <= t < conns.len() && !s.has_connection(#[trigger] conns[t])
                && connection_resolvable(s, snap, conns[t]) && x == resolved_endpoints(
                s,
                conns[t],
            ) by {
            let j = choose|j: int| 0 <= j < model.len() && model[j] == x;
            if j < rest.len() {
                assert(rest.contains(x));
                let t = choose|t: int|
                    0 <= t < conns.drop_last().len() && !s.has_connection(
                        #[trigger] conns.drop_last()[t],
                    ) && connection_resolvable(s, snap, conns.drop_last()[t]) && x
                        == resolved_endpoints(s, conns.drop_last()[t]);
                assert(conns[t] == conns.drop_last()[t]);
                assert(!s.has_connection(conns[t]));
            } else {
                assert(conns[conns.len() - 1] == conns.last());
                assert(!s.has_connection(conns[conns.len() - 1]));
            }
        }
    }
}

/// After a successful refresh the node and connection counts of the store
/// match the snapshot's exactly.
pub proof fn lemma_counts_match(s: State, snapshot: Snapshot)
    requires
        s.wf(),
        snapshot.wf(),
        forall|a: AstNodeId| #[trigger] s.has_ast(a) <==> snapshot.has_id(a),
        forall|c: ConnectionModel| #[trigger] s.has_connection(c) <==> snapshot.has_connection(c),
    ensures
        s.nodes_model().len() == snapshot.nodes_model().len(),
        s.connections_model().len() == snapshot.connections_model().len(),
{
    let m = s.nodes_model();
    let snapm = snapshot.nodes_model();
    let f = Seq::new(m.len(), |i: int| m[i].ast_id);
    let g = snap_ids(snapm);
    assert(f.no_duplicates());
    assert(g.no_duplicates());
    assert forall|x: AstNodeId| f.to_set().contains(x) == g.to_set().contains(x) by {
        if f.to_set().contains(x) {
            let i = choose|i: int| 0 <= i < f.len() && f[i] == x;
            assert(s.has_ast(x));
            assert(snapshot.has_id(x));
            let w = choose|w: int| 0 <= w < snapm.len() && snapm[w].id == x;
            assert(g[w] == x);
        }
        if g.to_set().contains(x) {
            let i = choose|i: int| 0 <= i < g.len() && g[i] == x;
            assert(snapm[i].id == x);
            assert(snapshot.has_id(x));
            assert(s.has_ast(x));
            let w = choose|w: int| 0 <= w < m.len() && m[w].ast_id == x;
            assert(f[w] == x);
        }
    }
    assert(f.to_set() =~= g.to_set());
    f.unique_seq_to_set();
    g.unique_seq_to_set();
    let cm = s.connections_model();
    let connsm = snapshot.connections_model();
    let h = Seq::new(cm.len(), |i: int| cm[i].ast);
    assert(h.no_duplicates()) by {
        assert forall|i: int, j: int| 0 <= i < j < h.len() implies h[i] != h[j] by {
            assert(!(cm[i].ast =~= cm[j].ast));
        }
    }
    assert(connsm.no_duplicates()) by {
        assert forall|i: int, j: int| 0 <= i < j < connsm.len() implies connsm[i] != connsm[j] by {
            assert(!(connsm[i] =~= connsm[j]));
        }
    }
    assert forall|x: ConnectionModel| h.to_set().contains(x) == connsm.to_set().contains(x) by {
        if h.to_set().contains(x) {
            let i = choose|i: int| 0 <= i < h.len() && h[i] == x;
            assert(cm[i].ast =~= x);
            assert(s.has_connection(x));
            assert(snapshot.has_connection(x));
            let w = choose|w: int| 0 <= w < connsm.len() && connsm[w] =~= x;
            assert(connsm[w] == x);
        }
        if connsm.to_set().contains(x) {
            let i = choose|i: int| 0 <= i < connsm.len() && connsm[i] == x;
            assert(connsm[i] =~= x);
            assert(snapshot.has_connection(x));
            assert(s.has_connection(x));
            let w = choose|w: int| 0 <= w < cm.len() && cm[w].ast =~= x;
            assert(h[w] == x);
        }
    }
    assert(h.to_set() =~= connsm.to_set());
    h.unique_seq_to_set();
    connsm.unique_seq_to_set();
}


/// Idempotence, end to end: planning a refresh right after a successful one,
/// against an unchanged controller snapshot, plans nothing at all.  The
/// premises about `s1` are the postconditions of the first refresh, run on
/// `s0`.
pub proof fn lemma_refresh_idempotent(s0: State, s1: State, snapshot: Snapshot)
    requires
        s1.wf(),
        snapshot.wf(),
        forall|a: AstNodeId| #[trigger] s1.has_ast(a) <==> snapshot.has_id(a),
        forall|t: int|
            0 <= t < snapshot.nodes_model().len() ==> #[trigger] s1.entry_model(
                snapshot.nodes_model()[t].id,
            ) == entry_after_visualization(s0, snapshot.nodes_model()[t]),
        forall|c: ConnectionModel| #[trigger] s1.has_connection(c) <==> snapshot.has_connection(c),
    ensures
        dropped_node_views(s1.nodes_model(), snap_ids(snapshot.nodes_model())) =~= Seq::<
            ViewNodeId,
        >::empty(),
        expression_updates_model(s1, snapshot.nodes_model()) =~= Seq::<
            (ViewNodeId, Seq<char>),
        >::empty(),
        position_updates_model(s1, snapshot.nodes_model()) =~= Seq::<
            (ViewNodeId, Position),
        >::empty(),
        visualization_updates_model(s1, snapshot.nodes_model()) =~= Seq::<
            (ViewNodeId, Option<Seq<char>>),
        >::empty(),
        added_count_model(s1, snapshot.nodes_model()) == 0,
        dropped_connection_views(s1.connections_model(), snapshot.connections_model()) =~= Seq::<
            ViewConnectionId,
        >::empty(),
        added_connections_model(s1, snapshot.nodes_model(), snapshot.connections_model())
            =~= Seq::<(ViewEndpointModel, ViewEndpointModel)>::empty(),
{
    lemma_refresh_synced(s0, s1, snapshot);
    lemma_synced_plan_empty(s1, snapshot);
}


} // verus!
