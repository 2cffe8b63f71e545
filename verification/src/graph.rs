//! The graph presenter: synchronizes graph state between the graph
//! controller and the on-screen node graph.
//!
//! The presenter owns the correlation store exclusively.  Controller
//! snapshots drive refresh cycles through the update planner; view-originated
//! events call into the store and yield the controller calls to forward.  A
//! view-originated edit is not reflected in the view immediately: the loop
//! closes only when the controller's own notification for that change later
//! triggers a refresh, at which point the store's echo suppression prevents
//! any redundant view mutation.

use vstd::prelude::*;

use crate::ids::AstNodeId;
use crate::ids::Connection;
use crate::ids::ConnectionModel;
use crate::ids::Position;
use crate::ids::ViewConnectionId;
use crate::ids::ViewNodeId;
use crate::plan::UpdatePlan;
use crate::plan::plan_refresh;
use crate::snapshot::FetchError;
use crate::snapshot::NodeSnapshot;
use crate::snapshot::Snapshot;
use crate::state::NodeUpdateInfo;
use crate::state::State;
use crate::state::clone_opt_string;
use crate::state::opt_str_view;

verus! {

/// The identifier base used to name the methods introduced by the "collapse
/// nodes" refactoring; the controller appends integers until the name is
/// free.
pub const COLLAPSED_FUNCTION_NAME: &'static str = "func";

/// A mutating call to forward to the controller, produced by a
/// view-originated event.  Such calls are best-effort: the caller logs and
/// swallows any failure.
#[derive(Clone, Debug)]
pub enum ControllerCommand {
    /// Store a new position for the node.
    SetNodePosition(AstNodeId, Position),
    /// Remove the node from the program.
    RemoveNode(AstNodeId),
    /// Create the connection in the program.
    Connect(Connection),
    /// Remove the connection from the program.
    Disconnect(Connection),
    /// Collapse the nodes into a new function under a generated name.
    Collapse(Vec<AstNodeId>),
    /// Store new visualization metadata for the node.
    SetVisualizationMetadata(AstNodeId, Option<String>),
}


/// A request to create a node from a file dropped onto the canvas: what the
/// upload subsystem needs to start, as plain values.  Reading the file's
/// bytes and driving the upload stay with the caller.
#[derive(Clone, Debug)]
pub struct FileUploadRequest {
    pub name: String,
    pub size: u64,
    pub position: Position,
}

/// Why a view-originated mutation was rejected at the presenter boundary.
/// Such failures are caught at the boundary, logged with the attempted
/// action, and otherwise swallowed; failures of the controller calls
/// themselves are the caller's to observe.
#[derive(Clone, Copy, Debug, PartialEq, Eq, Structural)]
pub enum PresenterError {
    /// An id referenced in the mutation is absent from the correlation
    /// store.
    NotFound,
    /// The mutation was attempted against inconsistent state, such as a
    /// connection endpoint with no resolvable node.
    Invalid,
}

/// Whether `a` is the controller node of some view node in `collapsed` that
/// the store knows.
pub open spec fn collapse_source(s: crate::state::State, collapsed: Seq<ViewNodeId>, a: AstNodeId)
    -> bool {
    exists|v: ViewNodeId|
        #[trigger] s.has_view(v) && collapsed.contains(v) && s.nodes_model()[s.view_index(
            v,
        )].ast_id == a
}

/// The controller nodes of the collapsed view nodes, in selection order; a
/// view id the store does not show is skipped.
pub open spec fn collapsed_ids_model(s: crate::state::State, collapsed: Seq<ViewNodeId>) -> Seq<
    AstNodeId,
>
    decreases collapsed.len(),
{
    if collapsed.len() == 0 {
        Seq::empty()
    } else {
        let rest = collapsed_ids_model(s, collapsed.drop_last());
        let v = collapsed.last();
        if s.has_view(v) {
            rest.push(s.nodes_model()[s.view_index(v)].ast_id)
        } else {
            rest
        }
    }
}

/// The graph presenter, synchronizing graph state between the graph
/// controller and the view.
#[derive(Clone, Debug)]
pub struct Graph {
    /// The correlation store: the single source of truth for what the view
    /// currently shows.
    pub state: State,
}

impl Graph {
    /// A presenter with an empty correlation store.  On startup the caller
    /// clears all existing view nodes, runs the placement heuristic once, and
    /// forces an initial refresh cycle.
    pub fn new() -> (r: Graph)
        ensures
            r.state.wf(),
            r.state.nodes_model().len() == 0,
            r.state.connections_model().len() == 0,
    {
        Graph { state: State::new() }
    }

    /// Get the view id of the given controller node.
    pub fn view_id_of_ast_node(&self, id: AstNodeId) -> (r: Option<ViewNodeId>)
        ensures
            r == (if self.state.has_ast(id) {
                self.state.entry_model(id).view_id
            } else {
                None::<ViewNodeId>
            }),
    {
        self.state.view_id_of_ast_node(id)
    }

    /// Get the controller node shown as the given view node.
    pub fn ast_node_of_view(&self, id: ViewNodeId) -> (r: Option<AstNodeId>)
        ensures
            r == (if self.state.has_view(id) {
                Some(self.state.nodes_model()[self.state.view_index(id)].ast_id)
            } else {
                None::<AstNodeId>
            }),
    {
        self.state.ast_node_id_of_view(id)
    }

    /// Assign a node view to the given controller node out of band.  From the
    /// next refresh cycle on, the presenter shares the node content between
    /// the controller and that view node.
    pub fn assign_node_view_explicitly(&mut self, view_id: ViewNodeId, ast_id: AstNodeId)
        requires
            old(self).state.wf(),
        ensures
            final(self).state.wf(),
            final(self).state.has_ast(ast_id),
            final(self).state.nodes_model() =~= (if old(self).state.has_ast(ast_id) {
                crate::state::reassigned_nodes(old(self).state.nodes_model(), view_id, ast_id)
            } else {
                crate::state::reassigned_nodes(
                    old(self).state.nodes_model(),
                    view_id,
                    ast_id,
                ).push(
                    (crate::state::NodeEntryModel {
                        ast_id: ast_id,
                        view_id: Some(view_id),
                        expression: None,
                        subexpressions: Seq::empty(),
                        position: None,
                        visualization: None,
                        error: None,
                    }),
                )
            }),
    {
        self.state.assign_node_view_explicitly(view_id, ast_id);
        proof {
            let m = final(self).state.nodes_model();
            if old(self).state.has_ast(ast_id) {
                let w = choose|w: int|
                    0 <= w < old(self).state.nodes_model().len() && old(
                        self,
                    ).state.nodes_model()[w].ast_id == ast_id;
                assert(m[w].ast_id == ast_id);
            } else {
                assert(m[m.len() - 1].ast_id == ast_id);
            }
        }
    }

    /// Run one refresh cycle against freshly fetched controller listings.
    /// Any fetch failure aborts the entire cycle: no partial plan is computed
    /// or applied, and the store keeps the previously displayed state.
    pub fn refresh_cycle(
        &mut self,
        nodes: Result<Vec<NodeSnapshot>, FetchError>,
        connections: Result<Vec<Connection>, FetchError>,
    ) -> (r: Result<UpdatePlan, FetchError>)
        requires
            old(self).state.wf(),
            (match (nodes, connections) {
                (Ok(ref n), Ok(ref c)) => (Snapshot { nodes: *n, connections: *c }).wf(),
                _ => true,
            }),
        ensures
            final(self).state.wf(),
            r is Err <==> (nodes is Err || connections is Err),
            r is Err ==> *final(self) == *old(self),
            (match (nodes, connections) {
                (Ok(n), Ok(c)) => {
                    let snap = Snapshot { nodes: n, connections: c };
                    &&& (forall|a: AstNodeId| #[trigger]
                        final(self).state.has_ast(a) <==> snap.has_id(a))
                    &&& (forall|t: int|
                        0 <= t < snap.nodes_model().len() ==> #[trigger]
                            final(self).state.entry_model(snap.nodes_model()[t].id)
                                == crate::state::entry_after_visualization(
                                old(self).state,
                                snap.nodes_model()[t],
                            ))
                    &&& (forall|c2: crate::ids::ConnectionModel| #[trigger]
                        final(self).state.has_connection(c2) <==> snap.has_connection(c2))
                    &&& final(self).state.nodes_model().len() == snap.nodes_model().len()
                    &&& final(self).state.connections_model().len()
                        == snap.connections_model().len()
                    &&& (match r {
                        Ok(plan) => {
                            &&& plan.removed_nodes@ =~= crate::state::dropped_node_views(
                                old(self).state.nodes_model(),
                                crate::plan::snap_ids(snap.nodes_model()),
                            )
                            &&& crate::plan::expr_pairs_model(plan.expression_updates@)
                                =~= crate::plan::expression_updates_model(
                                old(self).state,
                                snap.nodes_model(),
                            )
                            &&& plan.position_updates@ =~= crate::plan::position_updates_model(
                                old(self).state,
                                snap.nodes_model(),
                            )
                            &&& crate::plan::vis_pairs_model(plan.visualization_updates@)
                                =~= crate::plan::visualization_updates_model(
                                old(self).state,
                                snap.nodes_model(),
                            )
                            &&& plan.nodes_to_add == crate::plan::added_count_model(
                                old(self).state,
                                snap.nodes_model(),
                            )
                            &&& plan.removed_connections@
                                =~= crate::state::dropped_connection_views(
                                old(self).state.connections_model(),
                                snap.connections_model(),
                            )
                            &&& crate::plan::conn_pairs_model(plan.added_connections@)
                                =~= crate::plan::added_connections_model(
                                old(self).state,
                                snap.nodes_model(),
                                snap.connections_model(),
                            )
                        },
                        Err(_) => false,
                    })
                },
                _ => true,
            }),
    {
        match (nodes, connections) {
            (Ok(n), Ok(c)) => {
                let snapshot = Snapshot { nodes: n, connections: c };
                let plan = plan_refresh(&mut self.state, &snapshot);
                proof {
                    crate::laws::lemma_counts_match(self.state, snapshot);
                }
                Ok(plan)
            },
            (Err(e), _) => Err(e),
            (_, Err(e)) => Err(e),
        }
    }

    /// The view created a node and reports its assigned id: register it with
    /// the first entry still awaiting a view.  Returns the attributes to
    /// initialize the new view node with.
    pub fn node_added_in_view(&mut self, view_id: ViewNodeId) -> (r: Option<NodeUpdateInfo>)
        requires
            old(self).state.wf(),
        ensures
            final(self).state.wf(),
            final(self).state.connections_model() == old(self).state.connections_model(),
            old(self).state.has_view(view_id) ==> *final(self) == *old(self) && r is None,
            (!old(self).state.has_view(view_id) && old(self).state.pending_index() == -1)
                ==> *final(self) == *old(self) && r is None,
            !old(self).state.has_view(view_id) && old(self).state.pending_index() >= 0 ==> {
                let i = old(self).state.pending_index();
                let e = old(self).state.nodes_model()[i];
                &&& final(self).state.nodes_model() =~= old(self).state.nodes_model().update(
                    i,
                    (crate::state::NodeEntryModel { view_id: Some(view_id), ..e }),
                )
                &&& (match r {
                    Some(info) => info.ast_id == e.ast_id && info.view_id == view_id
                        && opt_str_view(info.expression) == e.expression && info.position
                        == e.position && opt_str_view(info.visualization) == e.visualization,
                    None => false,
                })
            },
    {
        self.state.assign_node_view(view_id)
    }

    /// A node was moved in the view: cache the new position and forward it to
    /// the controller.  No view-directed delta is produced, so the eventual
    /// controller notification for this edit finds the cache up to date.
    pub fn node_position_changed(&mut self, id: ViewNodeId, position: Position) -> (r: Result<
        ControllerCommand,
        PresenterError,
    >)
        requires
            old(self).state.wf(),
        ensures
            final(self).state.wf(),
            !old(self).state.has_view(id) ==> *final(self) == *old(self) && r == Err::<
                ControllerCommand,
                PresenterError,
            >(PresenterError::NotFound),
            old(self).state.has_view(id) ==> {
                let i = old(self).state.view_index(id);
                let a = old(self).state.nodes_model()[i].ast_id;
                &&& final(self).state.nodes_model() =~= old(self).state.nodes_model().update(
                    i,
                    (crate::state::NodeEntryModel {
                        position: Some(position),
                        ..old(self).state.nodes_model()[i]
                    }),
                )
                &&& final(self).state.connections_model() == old(self).state.connections_model()
                &&& r == Ok::<ControllerCommand, PresenterError>(
                    ControllerCommand::SetNodePosition(a, position),
                )
            },
    {
        match self.state.set_node_position_from_view(id, position) {
            Some(ast) => Ok(ControllerCommand::SetNodePosition(ast, position)),
            None => Err(PresenterError::NotFound),
        }
    }

    /// A node was removed in the view: drop its entry and forward the
    /// removal to the controller.
    pub fn node_removed(&mut self, id: ViewNodeId) -> (r: Result<
        ControllerCommand,
        PresenterError,
    >)
        requires
            old(self).state.wf(),
        ensures
            final(self).state.wf(),
            !old(self).state.has_view(id) ==> *final(self) == *old(self) && r == Err::<
                ControllerCommand,
                PresenterError,
            >(PresenterError::NotFound),
            old(self).state.has_view(id) ==> {
                let i = old(self).state.view_index(id);
                &&& final(self).state.nodes_model() =~= old(self).state.nodes_model().remove(i)
                &&& final(self).state.connections_model() == old(self).state.connections_model()
                &&& r == Ok::<ControllerCommand, PresenterError>(
                    ControllerCommand::RemoveNode(old(self).state.nodes_model()[i].ast_id),
                )
            },
    {
        match self.state.remove_node_from_view(id) {
            Some(ast) => Ok(ControllerCommand::RemoveNode(ast)),
            None => Err(PresenterError::NotFound),
        }
    }

    /// Edge endpoints were set in the view: resolve them to controller
    /// nodes, register the edge and, when the connection is new (not the
    /// echo of the store's own command), forward its creation to the
    /// controller.  An endpoint naming a view node the store does not show
    /// is inconsistent state and rejected.
    pub fn new_connection_created(
        &mut self,
        id: ViewConnectionId,
        source: &crate::ids::ViewEndpoint,
        target: &crate::ids::ViewEndpoint,
    ) -> (r: Result<Option<ControllerCommand>, PresenterError>)
        requires
            old(self).state.wf(),
        ensures
            final(self).state.wf(),
            !(old(self).state.has_view(source.node) && old(self).state.has_view(target.node))
                ==> *final(self) == *old(self) && r == Err::<
                Option<ControllerCommand>,
                PresenterError,
            >(PresenterError::Invalid),
            old(self).state.has_view(source.node) && old(self).state.has_view(target.node) ==> {
                let c = ConnectionModel {
                    source: crate::ids::EndpointModel {
                        node: old(self).state.nodes_model()[old(self).state.view_index(
                            source.node,
                        )].ast_id,
                        port: source.port@,
                    },
                    target: crate::ids::EndpointModel {
                        node: old(self).state.nodes_model()[old(self).state.view_index(
                            target.node,
                        )].ast_id,
                        port: target.port@,
                    },
                };
                &&& final(self).state.nodes_model() == old(self).state.nodes_model()
                &&& (match r {
                    Ok(Some(cmd)) => cmd matches ControllerCommand::Connect(out) && out@ =~= c
                        && !old(self).state.has_view_connection(id) && !old(
                        self,
                    ).state.has_connection(c),
                    Ok(None) => old(self).state.has_view_connection(id) || old(
                        self,
                    ).state.has_connection(c),
                    Err(_) => false,
                })
                &&& (if old(self).state.has_view_connection(id) {
                    *final(self) == *old(self)
                } else if old(self).state.has_connection(c) {
                    let i = old(self).state.conn_index(c);
                    let entry = old(self).state.connections_model()[i];
                    if entry.view is None {
                        final(self).state.connections_model() =~= old(
                            self,
                        ).state.connections_model().update(
                            i,
                            (crate::state::ConnectionEntryModel { view: Some(id), ..entry }),
                        )
                    } else {
                        *final(self) == *old(self)
                    }
                } else {
                    final(self).state.connections_model() =~= old(
                        self,
                    ).state.connections_model().push(
                        (crate::state::ConnectionEntryModel { ast: c, view: Some(id) }),
                    )
                })
            },
    {
        let ghost pre = self.state;
        let source_ast = match self.state.ast_node_id_of_view(source.node) {
            Some(a) => a,
            None => {
                return Err(PresenterError::Invalid);
            },
        };
        let target_ast = match self.state.ast_node_id_of_view(target.node) {
            Some(a) => a,
            None => {
                return Err(PresenterError::Invalid);
            },
        };
        let connection = Connection {
            source: crate::ids::Endpoint {
                node: source_ast,
                port: crate::ids::clone_ports(&source.port),
            },
            target: crate::ids::Endpoint {
                node: target_ast,
                port: crate::ids::clone_ports(&target.port),
            },
        };
        let ghost c = ConnectionModel {
            source: crate::ids::EndpointModel {
                node: pre.nodes_model()[pre.view_index(source.node)].ast_id,
                port: source.port@,
            },
            target: crate::ids::EndpointModel {
                node: pre.nodes_model()[pre.view_index(target.node)].ast_id,
                port: target.port@,
            },
        };
        proof {
            assert(connection@ =~= c);
            assert(connection@ == c);
        }
        match self.state.create_connection_from_view(id, &connection) {
            Some(out) => Ok(Some(ControllerCommand::Connect(out))),
            None => Ok(None),
        }
    }

    /// An edge endpoint was unset in the view: drop the connection entry and
    /// forward the disconnect to the controller.
    pub fn connection_removed(&mut self, id: ViewConnectionId) -> (r: Result<
        ControllerCommand,
        PresenterError,
    >)
        requires
            old(self).state.wf(),
        ensures
            final(self).state.wf(),
            !old(self).state.has_view_connection(id) ==> *final(self) == *old(self) && r == Err::<
                ControllerCommand,
                PresenterError,
            >(PresenterError::NotFound),
            old(self).state.has_view_connection(id) ==> {
                let i = old(self).state.view_conn_index(id);
                &&& final(self).state.connections_model() =~= old(
                    self,
                ).state.connections_model().remove(i)
                &&& (match r {
                    Ok(cmd) => cmd matches ControllerCommand::Disconnect(c) && c@ =~= old(
                        self,
                    ).state.connections_model()[i].ast,
                    Err(_) => false,
                })
            },
    {
        match self.state.remove_connection_from_view(id) {
            Some(c) => Ok(ControllerCommand::Disconnect(c)),
            None => Err(PresenterError::NotFound),
        }
    }

    /// Nodes were collapsed in the view: resolve the view ids that the store
    /// knows and forward the collapse to the controller, which introduces a
    /// new function named after [`COLLAPSED_FUNCTION_NAME`].
    #[verifier::loop_isolation(false)]
    pub fn nodes_collapsed(&self, collapsed: &Vec<ViewNodeId>) -> (r: ControllerCommand)
        ensures
            (match r {
                ControllerCommand::Collapse(ids) => ids@ =~= collapsed_ids_model(
                    self.state,
                    collapsed@,
                ) && (forall|k: int|
                    0 <= k < ids@.len() ==> collapse_source(
                        self.state,
                        collapsed@,
                        #[trigger] ids@[k],
                    )),
                _ => false,
            }),
    {
        let mut ids: Vec<AstNodeId> = Vec::new();
        let mut i: usize = 0;
        while i < collapsed.len()
            invariant
                i <= collapsed@.len(),
                ids@.len() <= i,
                ids@ =~= collapsed_ids_model(self.state, collapsed@.take(i as int)),
                forall|k: int|
                    0 <= k < ids@.len() ==> collapse_source(
                        self.state,
                        collapsed@,
                        #[trigger] ids@[k],
                    ),
            decreases collapsed@.len() - i,
        {
            let v = collapsed[i];
            proof {
                let t1 = collapsed@.take(i as int + 1);
                assert(t1.drop_last() =~= collapsed@.take(i as int));
                assert(t1.last() == v);
                assert(collapsed_ids_model(self.state, t1.drop_last()) == collapsed_ids_model(
                    self.state,
                    collapsed@.take(i as int),
                ));
            }
            match self.state.ast_node_id_of_view(v) {
                Some(a) => {
                    let ghost pre_ids = ids@;
                    ids.push(a);
                    proof {
                        assert(self.state.has_view(v));
                        assert(collapsed@.contains(v)) by {
                            assert(collapsed@[i as int] == v);
                        }
                        assert(self.state.nodes_model()[self.state.view_index(v)].ast_id == a);
                        assert forall|k: int| 0 <= k < ids@.len() implies collapse_source(
                            self.state,
                            collapsed@,
                            ids@[k],
                        ) by {
                            if k < pre_ids.len() {
                                assert(ids@[k] == pre_ids[k]);
                                assert(collapse_source(self.state, collapsed@, pre_ids[k]));
                            } else {
                                assert(ids@[k] == a);
                                assert(self.state.has_view(v) && collapsed@.contains(v)
                                    && self.state.nodes_model()[self.state.view_index(v)].ast_id
                                    == ids@[k]);
                            }
                        }
                    }
                },
                None => {},
            }
            i += 1;
        }
        proof {
            assert(collapsed@.take(collapsed@.len() as int) =~= collapsed@);
        }
        ControllerCommand::Collapse(ids)
    }

    /// The visualization of a node was toggled or switched in the view:
    /// cache the new path and forward the metadata change to the controller.
    pub fn node_visualization_changed(&mut self, id: ViewNodeId, path: &Option<String>) -> (r:
        Result<ControllerCommand, PresenterError>)
        requires
            old(self).state.wf(),
        ensures
            final(self).state.wf(),
            !old(self).state.has_view(id) ==> *final(self) == *old(self) && r == Err::<
                ControllerCommand,
                PresenterError,
            >(PresenterError::NotFound),
            old(self).state.has_view(id) ==> {
                let i = old(self).state.view_index(id);
                let a = old(self).state.nodes_model()[i].ast_id;
                &&& final(self).state.nodes_model() =~= old(self).state.nodes_model().update(
                    i,
                    (crate::state::NodeEntryModel {
                        visualization: opt_str_view(*path),
                        ..old(self).state.nodes_model()[i]
                    }),
                )
                &&& final(self).state.connections_model() == old(self).state.connections_model()
                &&& (match r {
                    Ok(cmd) => cmd matches ControllerCommand::SetVisualizationMetadata(b, v) && b
                        == a && opt_str_view(v) == opt_str_view(*path),
                    Err(_) => false,
                })
            },
    {
        match self.state.set_node_visualization_from_view(id, path) {
            Some(ast) => Ok(
                ControllerCommand::SetVisualizationMetadata(ast, clone_opt_string(path)),
            ),
            None => Err(PresenterError::NotFound),
        }
    }

    /// A file was dropped onto the canvas: when dropping files is enabled,
    /// turn the event into the upload request to hand to the upload
    /// subsystem, placed where the file landed; a drop while the feature is
    /// disabled is ignored.
    pub fn file_dropped(
        &self,
        name: &str,
        size: u64,
        position: Position,
        drop_enabled: bool,
    ) -> (r: Option<FileUploadRequest>)
        ensures
            r is Some <==> drop_enabled,
            (match r {
                Some(q) => q.name@ == name@ && q.size == size && q.position == position,
                None => true,
            }),
    {
        if drop_enabled {
            Some(FileUploadRequest { name: name.to_owned(), size, position })
        } else {
            None
        }
    }

    /// The cached subexpression ids of the node shown as the given view node.
    pub fn expressions_of_node(&self, id: ViewNodeId) -> (r: Vec<AstNodeId>)
        ensures
            !self.state.has_view(id) ==> r@ =~= Seq::<AstNodeId>::empty(),
            self.state.has_view(id) ==> r@ =~= Seq::new(
                self.state.nodes_model()[self.state.view_index(id)].subexpressions.len(),
                |k: int| self.state.nodes_model()[self.state.view_index(id)].subexpressions[k].id,
            ),
    {
        self.state.expressions_of_node(id)
    }

    /// Refresh the computed type of one expression, as read from the
    /// controller's computed-value registry.  Returns the view event to emit
    /// exactly when the value differs from the cache and the owning node has
    /// a view; the cache is updated either way.
    pub fn refresh_expression_type(&mut self, id: AstNodeId, typename: &Option<String>) -> (r:
        Option<(ViewNodeId, AstNodeId, Option<String>)>)
        requires
            old(self).state.wf(),
        ensures
            final(self).state.wf(),
            old(self).state.sub_owner_index(id) == -1 ==> *final(self) == *old(self) && r is None,
            old(self).state.sub_owner_index(id) >= 0 ==> {
                let i = old(self).state.sub_owner_index(id);
                let entry = old(self).state.nodes_model()[i];
                let k = old(self).state.sub_index(i, id);
                if entry.subexpressions[k].typename == opt_str_view(*typename) {
                    *final(self) == *old(self) && r is None
                } else {
                    &&& final(self).state.nodes_model() =~= old(self).state.nodes_model().update(
                        i,
                        (crate::state::NodeEntryModel {
                            subexpressions: entry.subexpressions.update(
                                k,
                                (crate::state::SubexpressionModel {
                                    typename: opt_str_view(*typename),
                                    ..entry.subexpressions[k]
                                }),
                            ),
                            ..entry
                        }),
                    )
                    &&& final(self).state.connections_model() == old(
                        self,
                    ).state.connections_model()
                    &&& (match r {
                        Some(t) => entry.view_id == Some(t.0) && t.1 == id && opt_str_view(t.2)
                            == opt_str_view(*typename),
                        None => entry.view_id is None,
                    })
                }
            },
    {
        match self.state.set_expression_type(id, typename) {
            Some(v) => Some((v, id, clone_opt_string(typename))),
            None => None,
        }
    }

    /// Refresh the method pointer of one expression.  Returns the view event
    /// to emit exactly when the value differs from the cache; the cache is
    /// updated either way.
    pub fn refresh_expression_method_pointer(
        &mut self,
        id: AstNodeId,
        method_pointer: &Option<String>,
    ) -> (r: Option<(AstNodeId, Option<String>)>)
        requires
            old(self).state.wf(),
        ensures
            final(self).state.wf(),
            old(self).state.sub_owner_index(id) == -1 ==> *final(self) == *old(self) && r is None,
            old(self).state.sub_owner_index(id) >= 0 ==> {
                let i = old(self).state.sub_owner_index(id);
                let entry = old(self).state.nodes_model()[i];
                let k = old(self).state.sub_index(i, id);
                if entry.subexpressions[k].method_pointer == opt_str_view(*method_pointer) {
                    *final(self) == *old(self) && r is None
                } else {
                    &&& final(self).state.nodes_model() =~= old(self).state.nodes_model().update(
                        i,
                        (crate::state::NodeEntryModel {
                            subexpressions: entry.subexpressions.update(
                                k,
                                (crate::state::SubexpressionModel {
                                    method_pointer: opt_str_view(*method_pointer),
                                    ..entry.subexpressions[k]
                                }),
                            ),
                            ..entry
                        }),
                    )
                    &&& final(self).state.connections_model() == old(
                        self,
                    ).state.connections_model()
                    &&& (match r {
                        Some(t) => t.0 == id && opt_str_view(t.1) == opt_str_view(
                            *method_pointer,
                        ),
                        None => false,
                    })
                }
            },
    {
        if self.state.set_expression_method_pointer(id, method_pointer) {
            Some((id, clone_opt_string(method_pointer)))
        } else {
            None
        }
    }

    /// Refresh the error status of the node owning one expression, as read
    /// from the controller's computed-value registry.  Returns the view event
    /// to emit exactly when the payload differs from the cache.
    pub fn refresh_node_error(&mut self, expression: AstNodeId, payload: &Option<String>) -> (r:
        Option<(ViewNodeId, Option<String>)>)
        requires
            old(self).state.wf(),
        ensures
            final(self).state.wf(),
            old(self).state.expression_owner_index(expression) == -1
                ==> *final(self) == *old(self) && r is None,
            old(self).state.expression_owner_index(expression) >= 0 ==> {
                let i = old(self).state.expression_owner_index(expression);
                let entry = old(self).state.nodes_model()[i];
                if entry.error == opt_str_view(*payload) {
                    *final(self) == *old(self) && r is None
                } else {
                    &&& final(self).state.nodes_model() =~= old(self).state.nodes_model().update(
                        i,
                        (crate::state::NodeEntryModel {
                            error: opt_str_view(*payload),
                            ..entry
                        }),
                    )
                    &&& final(self).state.connections_model() == old(
                        self,
                    ).state.connections_model()
                    &&& (match r {
                        Some(t) => entry.view_id == Some(t.0) && opt_str_view(t.1) == opt_str_view(
                            *payload,
                        ),
                        None => entry.view_id is None,
                    })
                }
            },
    {
        self.state.set_node_error_from_payload(expression, payload)
    }
}

/// One call of the type cache write matches one step of the fold model.
proof fn lemma_cache_write_step(pre: State, post: State, id: AstNodeId, t: Option<Seq<char>>)
    requires
        pre.wf(),
        pre.sub_owner_index(id) == -1 ==> post == pre,
        pre.sub_owner_index(id) >= 0 ==> {
            let i = pre.sub_owner_index(id);
            let entry = pre.nodes_model()[i];
            let k = pre.sub_index(i, id);
            if entry.subexpressions[k].typename == t {
                post == pre
            } else {
                post.nodes_model() =~= pre.nodes_model().update(
                    i,
                    (crate::state::NodeEntryModel {
                        subexpressions: entry.subexpressions.update(
                            k,
                            (crate::state::SubexpressionModel {
                                typename: t,
                                ..entry.subexpressions[k]
                            }),
                        ),
                        ..entry
                    }),
                )
            }
        },
    ensures
        post.nodes_model() =~= crate::state::type_set_once(pre.nodes_model(), id, t),
{
    let m = pre.nodes_model();
    let i: int = pre.sub_owner_index(id);
    if i >= 0 {
        crate::state::lemma_cache_write_indices(pre, id);
        let entry = m[i];
        let k: int = pre.sub_index(i, id);
        if entry.subexpressions[k].typename == t {
            let sub2 = crate::state::SubexpressionModel { typename: t, ..entry.subexpressions[k] };
            assert(sub2 =~= entry.subexpressions[k]);
            assert(entry.subexpressions.update(k, sub2) =~= entry.subexpressions);
            let e2 = crate::state::NodeEntryModel {
                subexpressions: entry.subexpressions.update(k, sub2),
                ..entry
            };
            assert(e2 =~= entry);
            assert(m.update(i, e2) =~= m);
            assert(crate::state::type_set_once(m, id, t) =~= m);
        }
    }
}

/// One call of the method-pointer cache write matches one step of the fold
/// model, and its change report matches the emission predicate.
proof fn lemma_method_pointer_write_step(
    pre: State,
    post: State,
    id: AstNodeId,
    t: Option<Seq<char>>,
    changed: bool,
)
    requires
        pre.wf(),
        pre.sub_owner_index(id) == -1 ==> post == pre && !changed,
        pre.sub_owner_index(id) >= 0 ==> {
            let i = pre.sub_owner_index(id);
            let entry = pre.nodes_model()[i];
            let k = pre.sub_index(i, id);
            if entry.subexpressions[k].method_pointer == t {
                post == pre && !changed
            } else {
                changed && post.nodes_model() =~= pre.nodes_model().update(
                    i,
                    (crate::state::NodeEntryModel {
                        subexpressions: entry.subexpressions.update(
                            k,
                            (crate::state::SubexpressionModel {
                                method_pointer: t,
                                ..entry.subexpressions[k]
                            }),
                        ),
                        ..entry
                    }),
                )
            }
        },
    ensures
        post.nodes_model() =~= crate::state::method_pointer_set_once(pre.nodes_model(), id, t),
        changed == crate::state::emits_method_pointer(pre.nodes_model(), id, t),
{
    let m = pre.nodes_model();
    let i: int = pre.sub_owner_index(id);
    if i >= 0 {
        crate::state::lemma_cache_write_indices(pre, id);
        let entry = m[i];
        let k: int = pre.sub_index(i, id);
        if entry.subexpressions[k].method_pointer == t {
            let sub2 = crate::state::SubexpressionModel {
                method_pointer: t,
                ..entry.subexpressions[k]
            };
            assert(sub2 =~= entry.subexpressions[k]);
            assert(entry.subexpressions.update(k, sub2) =~= entry.subexpressions);
            let e2 = crate::state::NodeEntryModel {
                subexpressions: entry.subexpressions.update(k, sub2),
                ..entry
            };
            assert(e2 =~= entry);
            assert(m.update(i, e2) =~= m);
            assert(crate::state::method_pointer_set_once(m, id, t) =~= m);
        }
    }
}

/// The expression part of a new view node's initial attribute wave.
pub open spec fn initial_expression_cmds(info: NodeUpdateInfo) -> Seq<
    crate::plan::ViewCommandModel,
> {
    match opt_str_view(info.expression) {
        Some(e) => seq![crate::plan::ViewCommandModel::SetNodeExpression(info.view_id, e)],
        None => Seq::empty(),
    }
}

/// The position part of a new view node's initial attribute wave.
pub open spec fn initial_position_cmds(info: NodeUpdateInfo) -> Seq<
    crate::plan::ViewCommandModel,
> {
    match info.position {
        Some(p) => seq![crate::plan::ViewCommandModel::SetNodePosition(info.view_id, p)],
        None => Seq::empty(),
    }
}

/// The visualization part of a new view node's initial attribute wave: the
/// path, then its activation.
pub open spec fn initial_visualization_cmds(info: NodeUpdateInfo) -> Seq<
    crate::plan::ViewCommandModel,
> {
    match opt_str_view(info.visualization) {
        Some(x) => seq![
            crate::plan::ViewCommandModel::SetNodeVisualization(info.view_id, Some(x)),
            crate::plan::ViewCommandModel::EnableVisualization(info.view_id),
        ],
        None => Seq::empty(),
    }
}

/// The full initial attribute wave for a freshly created view node, in
/// order: expression, position, visualization path and activation; each part
/// present exactly when the corresponding attribute is cached.
pub open spec fn initial_commands_model(info: NodeUpdateInfo) -> Seq<
    crate::plan::ViewCommandModel,
> {
    initial_expression_cmds(info) + initial_position_cmds(info) + initial_visualization_cmds(info)
}

impl NodeUpdateInfo {
    /// The commands initializing a freshly created view node with the cached
    /// attributes of its controller node: expression, position, and, when a
    /// visualization is attached, its path and activation: exactly one
    /// command per cached attribute, in that order.
    pub fn initial_commands(&self) -> (r: Vec<crate::plan::ViewCommand>)
        ensures
            crate::plan::cmds_model(r@) =~= initial_commands_model(*self),
    {
        let ghost seg_e = initial_expression_cmds(*self);
        let ghost seg_p = initial_position_cmds(*self);
        let ghost seg_v = initial_visualization_cmds(*self);
        let mut r: Vec<crate::plan::ViewCommand> = Vec::new();
        match &self.expression {
            Some(e) => {
                r.push(crate::plan::ViewCommand::SetNodeExpression(self.view_id, e.clone()));
            },
            None => {},
        }
        proof {
            assert(crate::plan::cmds_model(r@) =~= seg_e);
        }
        match self.position {
            Some(p) => {
                r.push(crate::plan::ViewCommand::SetNodePosition(self.view_id, p));
            },
            None => {},
        }
        proof {
            assert(crate::plan::cmds_model(r@) =~= seg_e + seg_p);
        }
        match &self.visualization {
            Some(x) => {
                r.push(
                    crate::plan::ViewCommand::SetNodeVisualization(
                        self.view_id,
                        Some(x.clone()),
                    ),
                );
                r.push(crate::plan::ViewCommand::EnableVisualization(self.view_id));
            },
            None => {},
        }
        proof {
            assert(crate::plan::cmds_model(r@) =~= seg_e + seg_p + seg_v);
        }
        r
    }
}


impl Graph {
    /// The view edges to create now that node `a` has just been given a view
    /// id: the pending stored connections touching `a` whose endpoints both
    /// resolve.  A connection touching `a` cannot have been commanded before
    /// `a`'s view existed, so emitting these here, after the node-creation
    /// command that produced the view id, keeps every connection command
    /// behind the creation of the nodes it references.
    #[verifier::loop_isolation(false)]
    pub fn connections_for_new_node(&self, a: AstNodeId) -> (r: Vec<
        (crate::ids::ViewEndpoint, crate::ids::ViewEndpoint),
    >)
        ensures
            crate::plan::conn_pairs_model(r@) =~= crate::plan::pending_connections_model(
                self.state,
                a,
                self.state.connections_model().len() as int,
            ),
    {
        let mut r: Vec<(crate::ids::ViewEndpoint, crate::ids::ViewEndpoint)> = Vec::new();
        let mut i: usize = 0;
        while i < self.state.connections.len()
            invariant
                i <= self.state.connections_model().len(),
                crate::plan::conn_pairs_model(r@) =~= crate::plan::pending_connections_model(
                    self.state,
                    a,
                    i as int,
                ),
            decreases self.state.connections_model().len() - i,
        {
            let ghost e = self.state.connections_model()[i as int];
            let entry = &self.state.connections[i];
            let touches = entry.view.is_none() && (entry.ast.source.node == a
                || entry.ast.target.node == a);
            if touches {
                let sv = self.state.view_id_of_ast_node(entry.ast.source.node);
                let tv = self.state.view_id_of_ast_node(entry.ast.target.node);
                match (sv, tv) {
                    (Some(s_view), Some(t_view)) => {
                        r.push(
                            (
                                crate::ids::ViewEndpoint {
                                    node: s_view,
                                    port: crate::ids::clone_ports(&entry.ast.source.port),
                                },
                                crate::ids::ViewEndpoint {
                                    node: t_view,
                                    port: crate::ids::clone_ports(&entry.ast.target.port),
                                },
                            ),
                        );
                        proof {
                            assert(crate::plan::incident_pending(self.state, e, a));
                            let pair = crate::plan::resolved_endpoints(self.state, e.ast);
                            assert(r@[r@.len() - 1].0@.node == pair.0.node);
                            assert(r@[r@.len() - 1].0@.port =~= pair.0.port);
                            assert(r@[r@.len() - 1].1@.node == pair.1.node);
                            assert(r@[r@.len() - 1].1@.port =~= pair.1.port);
                            assert(r@[r@.len() - 1].0@ =~= pair.0);
                            assert(r@[r@.len() - 1].1@ =~= pair.1);
                            assert(crate::plan::conn_pairs_model(r@)[r@.len() - 1] == pair);
                            assert(crate::plan::conn_pairs_model(r@)
                                =~= crate::plan::pending_connections_model(
                                self.state,
                                a,
                                i as int + 1,
                            ));
                        }
                    },
                    _ => {
                        proof {
                            assert(!crate::plan::incident_pending(self.state, e, a));
                        }
                    },
                }
            } else {
                proof {
                    assert(!crate::plan::incident_pending(self.state, e, a));
                }
            }
            i += 1;
        }
        r
    }
}



impl Graph {
    /// After a node's expression changed, reset every subexpression type in
    /// the view: write each reported type into the store cache, in list
    /// order, and emit one view event per subexpression, the unchanged ones
    /// included, since the view rebuilt the expression and lost them.
    #[verifier::loop_isolation(false)]
    pub fn reset_types_of_node(
        &mut self,
        view_id: ViewNodeId,
        types: &Vec<(AstNodeId, Option<String>)>,
    ) -> (r: Vec<(ViewNodeId, AstNodeId, Option<String>)>)
        requires
            old(self).state.wf(),
        ensures
            final(self).state.wf(),
            final(self).state.nodes_model() =~= crate::state::types_reset_model(
                old(self).state.nodes_model(),
                crate::state::id_value_pairs_model(types@),
            ),
            final(self).state.connections_model() == old(self).state.connections_model(),
            r@.len() == types@.len(),
            forall|k: int|
                0 <= k < r@.len() ==> (#[trigger] r@[k]).0 == view_id && r@[k].1 == types@[k].0
                    && opt_str_view(r@[k].2) == opt_str_view(types@[k].1),
    {
        let ghost m0 = old(self).state.nodes_model();
        let ghost pm = crate::state::id_value_pairs_model(types@);
        let mut r: Vec<(ViewNodeId, AstNodeId, Option<String>)> = Vec::new();
        let mut i: usize = 0;
        while i < types.len()
            invariant
                i <= types@.len(),
                self.state.wf(),
                self.state.nodes_model() =~= crate::state::types_reset_model(
                    m0,
                    pm.take(i as int),
                ),
                self.state.connections_model() == old(self).state.connections_model(),
                r@.len() == i,
                forall|k: int|
                    0 <= k < i ==> (#[trigger] r@[k]).0 == view_id && r@[k].1 == types@[k].0
                        && opt_str_view(r@[k].2) == opt_str_view(types@[k].1),
            decreases types@.len() - i,
        {
            let (id, t) = (types[i].0, &types[i].1);
            let ghost sc = self.state;
            let ghost mc = sc.nodes_model();
            let ghost tv = opt_str_view(*t);
            let _ = self.state.set_expression_type(id, t);
            proof {
                lemma_cache_write_step(sc, self.state, id, tv);
                let t1 = pm.take(i as int + 1);
                assert(t1.drop_last() =~= pm.take(i as int));
                assert(t1.last() == pm[i as int]);
                assert(pm[i as int] == (id, tv));
                assert(crate::state::types_reset_model(m0, t1.drop_last())
                    == crate::state::types_reset_model(m0, pm.take(i as int)));
                assert(crate::state::types_reset_model(m0, t1) == crate::state::type_set_once(
                    crate::state::types_reset_model(m0, pm.take(i as int)),
                    id,
                    tv,
                ));
                assert(self.state.nodes_model() =~= crate::state::type_set_once(mc, id, tv));
            }
            r.push((view_id, id, clone_opt_string(t)));
            i += 1;
        }
        proof {
            assert(pm.take(types@.len() as int) =~= pm);
        }
        r
    }

    /// After a node's expression changed, refresh every subexpression method
    /// pointer: write each reported pointer into the store cache, in list
    /// order, and emit a view event exactly for those whose written value
    /// differed from the cache.
    #[verifier::loop_isolation(false)]
    pub fn method_pointers_of_node(&mut self, pointers: &Vec<(AstNodeId, Option<String>)>) -> (r:
        Vec<(AstNodeId, Option<String>)>)
        requires
            old(self).state.wf(),
        ensures
            final(self).state.wf(),
            final(self).state.nodes_model() =~= crate::state::method_pointers_after(
                old(self).state.nodes_model(),
                crate::state::id_value_pairs_model(pointers@),
            ),
            final(self).state.connections_model() == old(self).state.connections_model(),
            crate::state::id_value_pairs_model(r@) =~= crate::state::method_pointer_updates(
                old(self).state.nodes_model(),
                crate::state::id_value_pairs_model(pointers@),
            ),
    {
        let ghost m0 = old(self).state.nodes_model();
        let ghost pm = crate::state::id_value_pairs_model(pointers@);
        let mut r: Vec<(AstNodeId, Option<String>)> = Vec::new();
        let mut i: usize = 0;
        while i < pointers.len()
            invariant
                i <= pointers@.len(),
                self.state.wf(),
                self.state.nodes_model() =~= crate::state::method_pointers_after(
                    m0,
                    pm.take(i as int),
                ),
                self.state.connections_model() == old(self).state.connections_model(),
                crate::state::id_value_pairs_model(r@) =~= crate::state::method_pointer_updates(
                    m0,
                    pm.take(i as int),
                ),
            decreases pointers@.len() - i,
        {
            let (id, mp) = (pointers[i].0, &pointers[i].1);
            let ghost sc = self.state;
            let ghost mc = sc.nodes_model();
            let ghost tv = opt_str_view(*mp);
            let ghost pre_out = crate::state::id_value_pairs_model(r@);
            let changed = self.state.set_expression_method_pointer(id, mp);
            proof {
                lemma_method_pointer_write_step(sc, self.state, id, tv, changed);
                let t1 = pm.take(i as int + 1);
                assert(t1.drop_last() =~= pm.take(i as int));
                assert(t1.last() == pm[i as int]);
                assert(pm[i as int] == (id, tv));
                assert(crate::state::method_pointers_after(m0, t1.drop_last())
                    == crate::state::method_pointers_after(m0, pm.take(i as int)));
                assert(crate::state::method_pointer_updates(m0, t1.drop_last())
                    == crate::state::method_pointer_updates(m0, pm.take(i as int)));
                assert(crate::state::method_pointers_after(m0, t1)
                    == crate::state::method_pointer_set_once(
                    crate::state::method_pointers_after(m0, pm.take(i as int)),
                    id,
                    tv,
                ));
                assert(self.state.nodes_model() =~= crate::state::method_pointer_set_once(
                    mc,
                    id,
                    tv,
                ));
                assert(crate::state::emits_method_pointer(mc, id, tv) == changed);
            }
            if changed {
                r.push((id, clone_opt_string(mp)));
                proof {
                    let out = crate::state::id_value_pairs_model(r@);
                    assert(out[out.len() - 1] == (id, tv));
                    assert(out =~= pre_out.push((id, tv)));
                    assert(out =~= crate::state::method_pointer_updates(
                        m0,
                        pm.take(i as int + 1),
                    ));
                }
            } else {
                proof {
                    assert(crate::state::id_value_pairs_model(r@)
                        =~= crate::state::method_pointer_updates(m0, pm.take(i as int + 1)));
                }
            }
            i += 1;
        }
        proof {
            assert(pm.take(pointers@.len() as int) =~= pm);
        }
        r
    }
}


} // verus!
