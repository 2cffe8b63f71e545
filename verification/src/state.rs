//! The correlation store: the bidirectional mapping between controller node
//! identities and view node identities, plus the cached display attributes of
//! every entity the view currently shows.
//!
//! The store is the single source of truth for "what the view currently
//! shows".  Writes coming from the controller side and writes coming from the
//! view side use the same cache slot but different entry points; only the
//! controller-side entry points emit a view-directed delta.  When a
//! view-initiated edit round-trips back through the controller's
//! notification, the cached value already matches and no redundant view
//! command is produced.

use vstd::prelude::*;

use crate::ids::AstNodeId;
use crate::ids::Connection;
use crate::ids::ConnectionModel;
use crate::ids::Position;
use crate::ids::ViewEndpoint;
use crate::ids::clone_connection;
use crate::ids::clone_ports;
use crate::ids::connection_eq;
use crate::ids::contains_connection;
use crate::ids::ViewConnectionId;
use crate::ids::ViewNodeId;
use crate::snapshot::find_index;
use crate::snapshot::lemma_find_index;
use crate::snapshot::lemma_find_index_at;
use crate::snapshot::lemma_find_index_none;
use crate::snapshot::NodeSnapshot;
use crate::snapshot::NodeSnapshotModel;

verus! {

/// Mathematical value of an optional owned string.
pub open spec fn opt_str_view(o: Option<String>) -> Option<Seq<char>> {
    match o {
        Some(s) => Some(s@),
        None => None,
    }
}

/// Whether two optional strings hold the same text.
pub fn opt_string_eq(a: &Option<String>, b: &Option<String>) -> (r: bool)
    ensures
        r == (opt_str_view(*a) == opt_str_view(*b)),
{
    match a {
        None => match b {
            None => true,
            Some(_) => false,
        },
        Some(x) => match b {
            None => false,
            Some(y) => {
                let eq = x.eq(y);
                proof {
                    if eq {
                        assert(opt_str_view(*a) == opt_str_view(*b));
                    } else {
                        assert(opt_str_view(*a) != opt_str_view(*b));
                    }
                }
                eq
            },
        },
    }
}

/// Whether two optional positions are equal.
pub fn opt_position_eq(a: &Option<Position>, b: &Option<Position>) -> (r: bool)
    ensures
        r == (*a == *b),
{
    match (a, b) {
        (None, None) => true,
        (Some(x), Some(y)) => x == y,
        _ => false,
    }
}

/// Cached type and method pointer of one subexpression of a node.
#[derive(Clone, Debug)]
pub struct SubexpressionEntry {
    pub id: AstNodeId,
    pub typename: Option<String>,
    pub method_pointer: Option<String>,
}

/// Mathematical value of a [`SubexpressionEntry`].
#[verifier::ext_equal]
pub struct SubexpressionModel {
    pub id: AstNodeId,
    pub typename: Option<Seq<char>>,
    pub method_pointer: Option<Seq<char>>,
}

impl View for SubexpressionEntry {
    type V = SubexpressionModel;

    open spec fn view(&self) -> SubexpressionModel {
        SubexpressionModel {
            id: self.id,
            typename: opt_str_view(self.typename),
            method_pointer: opt_str_view(self.method_pointer),
        }
    }
}

/// One node the store knows about: the controller identity, the view identity
/// once the view has reported one, and the cached display attributes.
#[derive(Clone, Debug)]
pub struct NodeEntry {
    pub ast_id: AstNodeId,
    pub view_id: Option<ViewNodeId>,
    pub expression: Option<String>,
    pub subexpressions: Vec<SubexpressionEntry>,
    pub position: Option<Position>,
    pub visualization: Option<String>,
    pub error: Option<String>,
}

/// Mathematical value of a [`NodeEntry`].
#[verifier::ext_equal]
pub struct NodeEntryModel {
    pub ast_id: AstNodeId,
    pub view_id: Option<ViewNodeId>,
    pub expression: Option<Seq<char>>,
    pub subexpressions: Seq<SubexpressionModel>,
    pub position: Option<Position>,
    pub visualization: Option<Seq<char>>,
    pub error: Option<Seq<char>>,
}

impl View for NodeEntry {
    type V = NodeEntryModel;

    open spec fn view(&self) -> NodeEntryModel {
        NodeEntryModel {
            ast_id: self.ast_id,
            view_id: self.view_id,
            expression: opt_str_view(self.expression),
            subexpressions: Seq::new(
                self.subexpressions@.len(),
                |i: int| self.subexpressions@[i]@,
            ),
            position: self.position,
            visualization: opt_str_view(self.visualization),
            error: opt_str_view(self.error),
        }
    }
}

/// One connection the store knows about: the controller-side connection and
/// the view identity once the view has reported one.
#[derive(Clone, Debug)]
pub struct ConnectionEntry {
    pub ast: Connection,
    pub view: Option<ViewConnectionId>,
}

/// Mathematical value of a [`ConnectionEntry`].
#[verifier::ext_equal]
pub struct ConnectionEntryModel {
    pub ast: ConnectionModel,
    pub view: Option<ViewConnectionId>,
}

impl View for ConnectionEntry {
    type V = ConnectionEntryModel;

    open spec fn view(&self) -> ConnectionEntryModel {
        ConnectionEntryModel { ast: self.ast@, view: self.view }
    }
}

/// Pairwise distinctness of controller ids and of assigned view ids.
pub open spec fn nodes_wf_seq(m: Seq<NodeEntryModel>) -> bool {
    &&& (forall|i: int, j: int| 0 <= i < j < m.len() ==> m[i].ast_id != m[j].ast_id)
    &&& (forall|i: int, j: int|
        0 <= i < j < m.len() ==> !(m[i].view_id is Some && m[i].view_id == m[j].view_id))
}

/// Pairwise distinctness of connections and of assigned view connection ids.
pub open spec fn conns_wf_seq(c: Seq<ConnectionEntryModel>) -> bool {
    &&& (forall|i: int, j: int| 0 <= i < j < c.len() ==> !(c[i].ast =~= c[j].ast))
    &&& (forall|i: int, j: int|
        0 <= i < j < c.len() ==> !(c[i].view is Some && c[i].view == c[j].view))
}

/// Distinctness is kept by any change that leaves both id columns alone.
pub proof fn lemma_nodes_wf_same_ids(m1: Seq<NodeEntryModel>, m2: Seq<NodeEntryModel>)
    requires
        nodes_wf_seq(m1),
        m2.len() == m1.len(),
        forall|k: int|
            0 <= k < m1.len() ==> m2[k].ast_id == m1[k].ast_id && m2[k].view_id == m1[k].view_id,
    ensures
        nodes_wf_seq(m2),
{
}

/// The correlation store.
#[derive(Clone, Debug)]
pub struct State {
    pub nodes: Vec<NodeEntry>,
    pub connections: Vec<ConnectionEntry>,
}

impl State {
    /// Mathematical value of the node table.
    pub open spec fn nodes_model(self) -> Seq<NodeEntryModel> {
        Seq::new(self.nodes@.len(), |i: int| self.nodes@[i]@)
    }

    /// Mathematical value of the connection table.
    pub open spec fn connections_model(self) -> Seq<ConnectionEntryModel> {
        Seq::new(self.connections@.len(), |i: int| self.connections@[i]@)
    }

    /// Index of the entry for controller node `a`, or `-1`.
    pub open spec fn ast_index(self, a: AstNodeId) -> int {
        find_index(self.nodes_model(), |e: NodeEntryModel| e.ast_id == a)
    }

    /// Whether the store has an entry for controller node `a`.
    pub open spec fn has_ast(self, a: AstNodeId) -> bool {
        exists|i: int| 0 <= i < self.nodes_model().len() && self.nodes_model()[i].ast_id == a
    }

    /// The entry for controller node `a`; meaningful only when `has_ast(a)`.
    pub open spec fn entry_model(self, a: AstNodeId) -> NodeEntryModel {
        self.nodes_model()[self.ast_index(a)]
    }

    /// Index of the entry showing view node `v`, or `-1`.
    pub open spec fn view_index(self, v: ViewNodeId) -> int {
        find_index(self.nodes_model(), |e: NodeEntryModel| e.view_id == Some(v))
    }

    /// Whether some entry shows view node `v`.
    pub open spec fn has_view(self, v: ViewNodeId) -> bool {
        exists|i: int| 0 <= i < self.nodes_model().len() && self.nodes_model()[i].view_id == Some(
            v,
        )
    }

    /// Whether the store has an entry for the connection `c`.
    pub open spec fn has_connection(self, c: ConnectionModel) -> bool {
        exists|i: int| 0 <= i < self.connections_model().len() && self.connections_model()[i].ast
            =~= c
    }

    /// Whether some connection entry shows view connection `v`.
    pub open spec fn has_view_connection(self, v: ViewConnectionId) -> bool {
        exists|i: int| 0 <= i < self.connections_model().len() && self.connections_model()[i].view
            == Some(v)
    }

    /// The id mapping is bijective at any instant: each controller node has
    /// at most one entry, each view node is shown by at most one entry, and
    /// the same holds of connections.
    pub open spec fn wf(self) -> bool {
        nodes_wf_seq(self.nodes_model()) && conns_wf_seq(self.connections_model())
    }

    /// An empty store.
    pub fn new() -> (r: State)
        ensures
            r.wf(),
            r.nodes_model() =~= Seq::<NodeEntryModel>::empty(),
            r.connections_model() =~= Seq::<ConnectionEntryModel>::empty(),
    {
        State { nodes: Vec::new(), connections: Vec::new() }
    }

    /// Relates the `exists`-style lookup predicates to the first-match
    /// indices used in the contracts.
    pub proof fn lemma_lookup(self, a: AstNodeId)
        ensures
            self.has_ast(a) <==> self.ast_index(a) >= 0,
            self.has_ast(a) ==> 0 <= self.ast_index(a) < self.nodes_model().len()
                && self.entry_model(a).ast_id == a,
    {
        let m = self.nodes_model();
        let p = |e: NodeEntryModel| e.ast_id == a;
        lemma_find_index(m, p);
        if self.has_ast(a) {
            let w = choose|i: int| 0 <= i < m.len() && m[i].ast_id == a;
            assert(p(m[w]));
        }
    }

    /// Same, for the view-id lookup.
    pub proof fn lemma_view_lookup(self, v: ViewNodeId)
        ensures
            self.has_view(v) <==> self.view_index(v) >= 0,
            self.has_view(v) ==> 0 <= self.view_index(v) < self.nodes_model().len()
                && self.nodes_model()[self.view_index(v)].view_id == Some(v),
    {
        let m = self.nodes_model();
        let p = |e: NodeEntryModel| e.view_id == Some(v);
        lemma_find_index(m, p);
        if self.has_view(v) {
            let w = choose|i: int| 0 <= i < m.len() && m[i].view_id == Some(v);
            assert(p(m[w]));
        }
    }

    /// Resolve the view id the store shows for controller node `a`.
    #[verifier::loop_isolation(false)]
    pub fn view_id_of_ast_node(&self, a: AstNodeId) -> (r: Option<ViewNodeId>)
        ensures
            r == (if self.has_ast(a) {
                self.entry_model(a).view_id
            } else {
                None::<ViewNodeId>
            }),
    {
        proof {
            self.lemma_lookup(a);
        }
        let ghost p = |e: NodeEntryModel| e.ast_id == a;
        let mut i: usize = 0;
        while i < self.nodes.len()
            invariant
                i <= self.nodes@.len(),
                forall|j: int| 0 <= j < i ==> self.nodes_model()[j].ast_id != a,
            decreases self.nodes@.len() - i,
        {
            if self.nodes[i].ast_id == a {
                proof {
                    assert(self.nodes_model()[i as int].ast_id == a);
                    lemma_find_index_at(self.nodes_model(), p, i as int);
                    assert(self.has_ast(a));
                }
                return self.nodes[i].view_id;
            }
            i += 1;
        }
        proof {
            lemma_find_index_none(self.nodes_model(), p);
        }
        None
    }

    /// Resolve the controller node shown as view node `v`.
    #[verifier::loop_isolation(false)]
    pub fn ast_node_id_of_view(&self, v: ViewNodeId) -> (r: Option<AstNodeId>)
        ensures
            r == (if self.has_view(v) {
                Some(self.nodes_model()[self.view_index(v)].ast_id)
            } else {
                None::<AstNodeId>
            }),
    {
        proof {
            self.lemma_view_lookup(v);
        }
        let ghost p = |e: NodeEntryModel| e.view_id == Some(v);
        let mut i: usize = 0;
        while i < self.nodes.len()
            invariant
                i <= self.nodes@.len(),
                forall|j: int| 0 <= j < i ==> self.nodes_model()[j].view_id != Some(v),
            decreases self.nodes@.len() - i,
        {
            let eq = match self.nodes[i].view_id {
                Some(w) => w == v,
                None => false,
            };
            if eq {
                proof {
                    assert(self.nodes_model()[i as int].view_id == Some(v));
                    lemma_find_index_at(self.nodes_model(), p, i as int);
                    assert(self.has_view(v));
                }
                return Some(self.nodes[i].ast_id);
            }
            i += 1;
        }
        proof {
            lemma_find_index_none(self.nodes_model(), p);
        }
        None
    }
}


impl State {
    /// First index of the entry for controller node `a`.
    #[verifier::loop_isolation(false)]
    fn find_ast(&self, a: AstNodeId) -> (r: Option<usize>)
        ensures
            match r {
                Some(i) => self.has_ast(a) && self.ast_index(a) == i as int && (i as int)
                    < self.nodes_model().len() && self.nodes_model()[i as int].ast_id == a,
                None => !self.has_ast(a) && self.ast_index(a) == -1,
            },
    {
        proof {
            self.lemma_lookup(a);
        }
        let ghost p = |e: NodeEntryModel| e.ast_id == a;
        let mut i: usize = 0;
        while i < self.nodes.len()
            invariant
                i <= self.nodes@.len(),
                forall|j: int| 0 <= j < i ==> self.nodes_model()[j].ast_id != a,
            decreases self.nodes@.len() - i,
        {
            if self.nodes[i].ast_id == a {
                proof {
                    assert(self.nodes_model()[i as int].ast_id == a);
                    lemma_find_index_at(self.nodes_model(), p, i as int);
                    assert(self.has_ast(a));
                }
                return Some(i);
            }
            i += 1;
        }
        proof {
            lemma_find_index_none(self.nodes_model(), p);
        }
        None
    }

    /// First index of the entry showing view node `v`.
    #[verifier::loop_isolation(false)]
    fn find_view(&self, v: ViewNodeId) -> (r: Option<usize>)
        ensures
            match r {
                Some(i) => self.has_view(v) && self.view_index(v) == i as int && (i as int)
                    < self.nodes_model().len() && self.nodes_model()[i as int].view_id == Some(v),
                None => !self.has_view(v) && self.view_index(v) == -1,
            },
    {
        proof {
            self.lemma_view_lookup(v);
        }
        let ghost p = |e: NodeEntryModel| e.view_id == Some(v);
        let mut i: usize = 0;
        while i < self.nodes.len()
            invariant
                i <= self.nodes@.len(),
                forall|j: int| 0 <= j < i ==> self.nodes_model()[j].view_id != Some(v),
            decreases self.nodes@.len() - i,
        {
            let hit = match self.nodes[i].view_id {
                Some(w) => w == v,
                None => false,
            };
            if hit {
                proof {
                    assert(self.nodes_model()[i as int].view_id == Some(v));
                    lemma_find_index_at(self.nodes_model(), p, i as int);
                    assert(self.has_view(v));
                }
                return Some(i);
            }
            i += 1;
        }
        proof {
            lemma_find_index_none(self.nodes_model(), p);
        }
        None
    }

    /// Set the cached position of node `a` as observed on the controller
    /// side.  Emits the view id to direct the delta at exactly when the new
    /// value differs from the cache and the node has a view.
    pub fn set_node_position(&mut self, a: AstNodeId, p: Position) -> (r: Option<ViewNodeId>)
        requires
            old(self).wf(),
        ensures
            final(self).wf(),
            !old(self).has_ast(a) ==> *final(self) == *old(self) && r is None,
            old(self).has_ast(a) && old(self).entry_model(a).position == Some(p) ==> *final(self)
                == *old(self) && r is None,
            old(self).has_ast(a) && old(self).entry_model(a).position != Some(p) ==> {
                &&& final(self).nodes_model() =~= old(self).nodes_model().update(
                    old(self).ast_index(a),
                    (NodeEntryModel { position: Some(p), ..old(self).entry_model(a) }),
                )
                &&& final(self).connections_model() == old(self).connections_model()
                &&& r == old(self).entry_model(a).view_id
            },
    {
        match self.find_ast(a) {
            None => None,
            Some(i) => {
                if opt_position_eq(&self.nodes[i].position, &Some(p)) {
                    None
                } else {
                    self.nodes[i].position = Some(p);
                    proof {
                        assert(final(self).nodes_model() =~= old(self).nodes_model().update(
                            i as int,
                            (NodeEntryModel { position: Some(p), ..old(self).entry_model(a) }),
                        ));
                        lemma_nodes_wf_same_ids(old(self).nodes_model(), final(self).nodes_model());
                    }
                    self.nodes[i].view_id
                }
            },
        }
    }

    /// Set the cached position of the node shown as view node `v`, as edited
    /// in the view.  Returns the controller node to forward the edit to, and
    /// emits no view-directed delta.
    pub fn set_node_position_from_view(&mut self, v: ViewNodeId, p: Position) -> (r: Option<
        AstNodeId,
    >)
        requires
            old(self).wf(),
        ensures
            final(self).wf(),
            !old(self).has_view(v) ==> *final(self) == *old(self) && r is None,
            old(self).has_view(v) ==> {
                &&& final(self).nodes_model() =~= old(self).nodes_model().update(
                    old(self).view_index(v),
                    (NodeEntryModel {
                        position: Some(p),
                        ..old(self).nodes_model()[old(self).view_index(v)]
                    }),
                )
                &&& final(self).connections_model() == old(self).connections_model()
                &&& r == Some(old(self).nodes_model()[old(self).view_index(v)].ast_id)
            },
    {
        match self.find_view(v) {
            None => None,
            Some(i) => {
                self.nodes[i].position = Some(p);
                proof {
                    assert(final(self).nodes_model() =~= old(self).nodes_model().update(
                        i as int,
                        (NodeEntryModel {
                            position: Some(p),
                            ..old(self).nodes_model()[i as int]
                        }),
                    ));
                    lemma_nodes_wf_same_ids(old(self).nodes_model(), final(self).nodes_model());
                }
                Some(self.nodes[i].ast_id)
            },
        }
    }
}



/// Distinctness is kept by removing an entry.
pub proof fn lemma_nodes_wf_remove(m: Seq<NodeEntryModel>, i: int)
    requires
        nodes_wf_seq(m),
        0 <= i < m.len(),
    ensures
        nodes_wf_seq(m.remove(i)),
{
    let r = m.remove(i);
    assert forall|x: int, y: int| 0 <= x < y < r.len() implies r[x].ast_id != r[y].ast_id && !(
    r[x].view_id is Some && r[x].view_id == r[y].view_id) by {
        let x0 = if x < i { x } else { x + 1 };
        let y0 = if y < i { y } else { y + 1 };
        assert(r[x] == m[x0]);
        assert(r[y] == m[y0]);
    }
}

impl State {
    /// Set the cached visualization path of node `a` as observed on the
    /// controller side.  Emits a view-directed delta exactly when the new
    /// value differs from the cache and the node has a view.
    pub fn set_node_visualization(&mut self, a: AstNodeId, vis: &Option<String>) -> (r: Option<
        (ViewNodeId, Option<String>),
    >)
        requires
            old(self).wf(),
        ensures
            final(self).wf(),
            !old(self).has_ast(a) ==> *final(self) == *old(self) && r is None,
            old(self).has_ast(a) && old(self).entry_model(a).visualization == opt_str_view(*vis)
                ==> *final(self) == *old(self) && r is None,
            old(self).has_ast(a) && old(self).entry_model(a).visualization != opt_str_view(*vis)
                ==> {
                &&& final(self).nodes_model() =~= old(self).nodes_model().update(
                    old(self).ast_index(a),
                    (NodeEntryModel {
                        visualization: opt_str_view(*vis),
                        ..old(self).entry_model(a)
                    }),
                )
                &&& final(self).connections_model() == old(self).connections_model()
                &&& (match r {
                    Some(t) => old(self).entry_model(a).view_id == Some(t.0) && opt_str_view(t.1)
                        == opt_str_view(*vis),
                    None => old(self).entry_model(a).view_id is None,
                })
            },
    {
        match self.find_ast(a) {
            None => None,
            Some(i) => {
                if opt_string_eq(&self.nodes[i].visualization, vis) {
                    proof {
                        assert(old(self).entry_model(a).visualization == opt_str_view(*vis));
                    }
                    None
                } else {
                    self.nodes[i].visualization = clone_opt_string(vis);
                    proof {
                        assert(final(self).nodes_model() =~= old(self).nodes_model().update(
                            i as int,
                            (NodeEntryModel {
                                visualization: opt_str_view(*vis),
                                ..old(self).entry_model(a)
                            }),
                        ));
                        lemma_nodes_wf_same_ids(old(self).nodes_model(), final(self).nodes_model());
                    }
                    match self.nodes[i].view_id {
                        Some(v) => Some((v, clone_opt_string(vis))),
                        None => None,
                    }
                }
            },
        }
    }

    /// Set the cached visualization path of the node shown as view node `v`,
    /// as toggled in the view.  Returns the controller node to forward the
    /// change to, and emits no view-directed delta.
    pub fn set_node_visualization_from_view(&mut self, v: ViewNodeId, vis: &Option<String>) -> (r:
        Option<AstNodeId>)
        requires
            old(self).wf(),
        ensures
            final(self).wf(),
            !old(self).has_view(v) ==> *final(self) == *old(self) && r is None,
            old(self).has_view(v) ==> {
                &&& final(self).nodes_model() =~= old(self).nodes_model().update(
                    old(self).view_index(v),
                    (NodeEntryModel {
                        visualization: opt_str_view(*vis),
                        ..old(self).nodes_model()[old(self).view_index(v)]
                    }),
                )
                &&& final(self).connections_model() == old(self).connections_model()
                &&& r == Some(old(self).nodes_model()[old(self).view_index(v)].ast_id)
            },
    {
        match self.find_view(v) {
            None => None,
            Some(i) => {
                self.nodes[i].visualization = clone_opt_string(vis);
                proof {
                    assert(final(self).nodes_model() =~= old(self).nodes_model().update(
                        i as int,
                        (NodeEntryModel {
                            visualization: opt_str_view(*vis),
                            ..old(self).nodes_model()[i as int]
                        }),
                    ));
                    lemma_nodes_wf_same_ids(old(self).nodes_model(), final(self).nodes_model());
                }
                Some(self.nodes[i].ast_id)
            },
        }
    }

    /// Remove the entry of the node deleted in the view.  Returns the
    /// controller node to forward the removal to.
    pub fn remove_node_from_view(&mut self, v: ViewNodeId) -> (r: Option<AstNodeId>)
        requires
            old(self).wf(),
        ensures
            final(self).wf(),
            !old(self).has_view(v) ==> *final(self) == *old(self) && r is None,
            old(self).has_view(v) ==> {
                &&& final(self).nodes_model() =~= old(self).nodes_model().remove(
                    old(self).view_index(v),
                )
                &&& final(self).connections_model() == old(self).connections_model()
                &&& r == Some(old(self).nodes_model()[old(self).view_index(v)].ast_id)
            },
    {
        match self.find_view(v) {
            None => None,
            Some(i) => {
                let entry = self.nodes.remove(i);
                proof {
                    assert(final(self).nodes_model() =~= old(self).nodes_model().remove(i as int));
                    lemma_nodes_wf_remove(old(self).nodes_model(), i as int);
                }
                Some(entry.ast_id)
            },
        }
    }
}

/// An exact copy of an optional string.
pub fn clone_opt_string(o: &Option<String>) -> (r: Option<String>)
    ensures
        opt_str_view(r) == opt_str_view(*o),
{
    match o {
        None => None,
        Some(s) => Some(s.clone()),
    }
}



/// The attributes the view must be told about right after it has assigned a
/// view id to a freshly created node.
#[derive(Clone, Debug)]
pub struct NodeUpdateInfo {
    pub ast_id: AstNodeId,
    pub view_id: ViewNodeId,
    pub expression: Option<String>,
    pub position: Option<Position>,
    pub visualization: Option<String>,
}

/// Subexpression cache entries for freshly observed subexpression ids.
pub open spec fn fresh_subexprs(ids: Seq<AstNodeId>) -> Seq<SubexpressionModel> {
    Seq::new(
        ids.len(),
        |i: int| SubexpressionModel { id: ids[i], typename: None, method_pointer: None },
    )
}

/// The store entry created when a node is first observed in a controller
/// snapshot.  Position and visualization caches fill in later in the same
/// refresh cycle; the view id arrives once the view reports the node.
pub open spec fn new_entry_model(n: NodeSnapshotModel) -> NodeEntryModel {
    NodeEntryModel {
        ast_id: n.id,
        view_id: None,
        expression: Some(n.expression),
        subexpressions: fresh_subexprs(n.subexpressions),
        position: None,
        visualization: None,
        error: None,
    }
}

impl State {
    /// Register the view id the view has assigned to a freshly created node:
    /// it goes to the first entry still lacking one.  Returns the attributes
    /// to initialize the new view node with.
    #[verifier::loop_isolation(false)]
    pub fn assign_node_view(&mut self, v: ViewNodeId) -> (r: Option<NodeUpdateInfo>)
        requires
            old(self).wf(),
        ensures
            final(self).wf(),
            final(self).connections_model() == old(self).connections_model(),
            old(self).has_view(v) ==> *final(self) == *old(self) && r is None,
            !old(self).has_view(v) && old(self).pending_index() == -1 ==> *final(self) == *old(
                self,
            ) && r is None,
            !old(self).has_view(v) && old(self).pending_index() >= 0 ==> {
                let i = old(self).pending_index();
                let e = old(self).nodes_model()[i];
                &&& final(self).nodes_model() =~= old(self).nodes_model().update(
                    i,
                    (NodeEntryModel { view_id: Some(v), ..e }),
                )
                &&& (match r {
                    Some(info) => info.ast_id == e.ast_id && info.view_id == v && opt_str_view(
                        info.expression,
                    ) == e.expression && info.position == e.position && opt_str_view(
                        info.visualization,
                    ) == e.visualization,
                    None => false,
                })
            },
    {
        proof {
            self.lemma_view_lookup(v);
        }
        if self.find_view(v).is_some() {
            return None;
        }
        let ghost p = |e: NodeEntryModel| e.view_id is None;
        let mut i: usize = 0;
        while i < self.nodes.len()
            invariant
                i <= self.nodes@.len(),
                *self == *old(self),
                forall|j: int| 0 <= j < i ==> self.nodes_model()[j].view_id is Some,
            decreases self.nodes@.len() - i,
        {
            if self.nodes[i].view_id.is_none() {
                proof {
                    assert(p(self.nodes_model()[i as int]));
                    lemma_find_index_at(self.nodes_model(), p, i as int);
                }
                self.nodes[i].view_id = Some(v);
                let entry = &self.nodes[i];
                let info = NodeUpdateInfo {
                    ast_id: entry.ast_id,
                    view_id: v,
                    expression: clone_opt_string(&entry.expression),
                    position: entry.position,
                    visualization: clone_opt_string(&entry.visualization),
                };
                proof {
                    let m0 = old(self).nodes_model();
                    let m1 = final(self).nodes_model();
                    assert(m1 =~= m0.update(
                        i as int,
                        (NodeEntryModel { view_id: Some(v), ..m0[i as int] }),
                    ));
                    assert forall|x: int, y: int| 0 <= x < y < m1.len() implies m1[x].ast_id
                        != m1[y].ast_id && !(m1[x].view_id is Some && m1[x].view_id
                        == m1[y].view_id) by {
                        assert(!(m0[x].view_id is Some && m0[x].view_id == m0[y].view_id));
                        if x != i && y != i {
                            assert(m1[x] == m0[x] && m1[y] == m0[y]);
                        }
                    }
                }
                return Some(info);
            }
            i += 1;
        }
        proof {
            lemma_find_index_none(self.nodes_model(), p);
        }
        None
    }

    /// Index of the first entry awaiting a view id, or `-1`.
    pub open spec fn pending_index(self) -> int {
        find_index(self.nodes_model(), |e: NodeEntryModel| e.view_id is None)
    }

    /// Manually correlate view node `v` with controller node `a`, the
    /// out-of-band id-assignment entry point.  Any entry previously showing
    /// `v` is detached from it; the entry of `a` is created if missing.
    #[verifier::loop_isolation(false)]
    pub fn assign_node_view_explicitly(&mut self, v: ViewNodeId, a: AstNodeId)
        requires
            old(self).wf(),
        ensures
            final(self).wf(),
            final(self).connections_model() == old(self).connections_model(),
            final(self).nodes_model() =~= (if old(self).has_ast(a) {
                reassigned_nodes(old(self).nodes_model(), v, a)
            } else {
                reassigned_nodes(old(self).nodes_model(), v, a).push(
                    (NodeEntryModel {
                        ast_id: a,
                        view_id: Some(v),
                        expression: None,
                        subexpressions: Seq::empty(),
                        position: None,
                        visualization: None,
                        error: None,
                    }),
                )
            }),
    {
        let ghost m0 = old(self).nodes_model();
        let mut i: usize = 0;
        let mut found = false;
        while i < self.nodes.len()
            invariant
                i <= self.nodes@.len(),
                self.nodes@.len() == m0.len(),
                self.connections@ == old(self).connections@,
                forall|j: int|
                    i <= j < m0.len() ==> self.nodes_model()[j] == m0[j],
                forall|j: int|
                    0 <= j < i ==> self.nodes_model()[j] == reassigned_nodes(m0, v, a)[j],
                found == (exists|j: int| 0 <= j < i && m0[j].ast_id == a),
            decreases self.nodes@.len() - i,
        {
            if self.nodes[i].ast_id == a {
                let ghost old_nodes_snap = self.nodes@;
                let ghost old_model_snap = self.nodes_model();
                self.nodes[i].view_id = Some(v);
                found = true;
                proof {
                    assert(self.nodes_model()[i as int] =~= reassigned_nodes(m0, v, a)[i as int]);
                    assert(self.nodes_model()[i as int] == reassigned_nodes(m0, v, a)[i as int]);
                }
                proof {
                    assert forall|j: int| 0 <= j < i + 1 implies self.nodes_model()[j]
                        == reassigned_nodes(m0, v, a)[j] by {
                        if j == i as int {
                            assert(self.nodes_model()[j] =~= reassigned_nodes(m0, v, a)[j]);
                        } else {
                            assert(0 <= j < i as int);
                            assert(self.nodes@ == old_nodes_snap.update(i as int, self.nodes@[i as int]));
                            assert(self.nodes_model()[j] == old_model_snap[j]);
                            assert(old_model_snap[j] == reassigned_nodes(m0, v, a)[j]);
                        }
                    }
                }
            } else {
                let clear = match self.nodes[i].view_id {
                    Some(w) => w == v,
                    None => false,
                };
                if clear {
                    let ghost before = self.nodes_model();
                    self.nodes[i].view_id = None;
                    proof {
                        assert forall|j: int| 0 <= j < i + 1 implies self.nodes_model()[j]
                            == reassigned_nodes(m0, v, a)[j] by {
                            if j == i as int {
                                assert(self.nodes_model()[j] =~= reassigned_nodes(m0, v, a)[j]);
                            } else {
                                assert(self.nodes_model()[j] == before[j]);
                                assert(before[j] == reassigned_nodes(m0, v, a)[j]);
                            }
                        }
                    }
                } else {
                    proof {
                        assert forall|j: int| 0 <= j < i + 1 implies self.nodes_model()[j]
                            == reassigned_nodes(m0, v, a)[j] by {
                            if j == i as int {
                                assert(self.nodes_model()[j] =~= reassigned_nodes(m0, v, a)[j]);
                            }
                        }
                    }
                }
            }
            i += 1;
        }
        let ghost m_end = self.nodes_model();
        if !found {
            self.nodes.push(
                NodeEntry {
                    ast_id: a,
                    view_id: Some(v),
                    expression: None,
                    subexpressions: Vec::new(),
                    position: None,
                    visualization: None,
                    error: None,
                },
            );
        }
        proof {
            let m1 = final(self).nodes_model();
            if old(self).has_ast(a) {
                assert(m1 =~= reassigned_nodes(m0, v, a));
            } else {
                assert(m1[m0.len() as int].subexpressions =~= Seq::<SubexpressionModel>::empty());
                assert(m1[m0.len() as int] =~= (NodeEntryModel {
                    ast_id: a,
                    view_id: Some(v),
                    expression: None,
                    subexpressions: Seq::empty(),
                    position: None,
                    visualization: None,
                    error: None,
                }));
                assert(m1[m0.len() as int] == (NodeEntryModel {
                    ast_id: a,
                    view_id: Some(v),
                    expression: None,
                    subexpressions: Seq::empty(),
                    position: None,
                    visualization: None,
                    error: None,
                }));
                assert(forall|j: int| 0 <= j < m0.len() ==> m1[j] == m_end[j]);
                assert(m1 =~= reassigned_nodes(m0, v, a).push(
                    (NodeEntryModel {
                        ast_id: a,
                        view_id: Some(v),
                        expression: None,
                        subexpressions: Seq::empty(),
                        position: None,
                        visualization: None,
                        error: None,
                    }),
                ));
            }
            lemma_reassigned_wf(m0, v, a);
            if !old(self).has_ast(a) {
                let rm = reassigned_nodes(m0, v, a);
                assert forall|x: int, y: int| 0 <= x < y < m1.len() implies m1[x].ast_id
                    != m1[y].ast_id && !(m1[x].view_id is Some && m1[x].view_id == m1[y].view_id)
                    by {
                    if y == m1.len() - 1 {
                        assert(m1[x] == rm[x]);
                        if rm[x].ast_id == a {
                            assert(m0[x].ast_id == a);
                        }
                        if rm[x].view_id == Some(v) {
                            assert(m0[x].ast_id == a);
                        }
                    }
                }
            }
        }
    }
}

/// The node table after view node `v` has been manually correlated with
/// controller node `a`: the entry of `a` shows `v`; an entry previously
/// showing `v` is detached; every other entry is untouched.
pub open spec fn reassigned_nodes(m: Seq<NodeEntryModel>, v: ViewNodeId, a: AstNodeId) -> Seq<
    NodeEntryModel,
> {
    Seq::new(
        m.len(),
        |k: int|
            if m[k].ast_id == a {
                NodeEntryModel { view_id: Some(v), ..m[k] }
            } else if m[k].view_id == Some(v) {
                NodeEntryModel { view_id: None, ..m[k] }
            } else {
                m[k]
            },
    )
}

/// Manual correlation keeps the id mapping bijective.
pub proof fn lemma_reassigned_wf(m: Seq<NodeEntryModel>, v: ViewNodeId, a: AstNodeId)
    requires
        nodes_wf_seq(m),
    ensures
        nodes_wf_seq(reassigned_nodes(m, v, a)),
{
    let r = reassigned_nodes(m, v, a);
    assert forall|x: int, y: int| 0 <= x < y < r.len() implies r[x].ast_id != r[y].ast_id && !(
    r[x].view_id is Some && r[x].view_id == r[y].view_id) by {
        assert(m[x].ast_id != m[y].ast_id);
        assert(!(m[x].view_id is Some && m[x].view_id == m[y].view_id));
    }
}





/// Build fresh cache entries for the given subexpression ids.
#[verifier::loop_isolation(false)]
fn fresh_subexpr_entries(ids: &Vec<AstNodeId>) -> (r: Vec<SubexpressionEntry>)
    ensures
        Seq::new(r@.len(), |i: int| r@[i]@) =~= fresh_subexprs(ids@),
{
    let mut r: Vec<SubexpressionEntry> = Vec::new();
    let mut i: usize = 0;
    while i < ids.len()
        invariant
            i <= ids@.len(),
            r@.len() == i,
            forall|k: int|
                0 <= k < i ==> r@[k]@ == (SubexpressionModel {
                    id: ids@[k],
                    typename: None,
                    method_pointer: None,
                }),
        decreases ids@.len() - i,
    {
        r.push(SubexpressionEntry { id: ids[i], typename: None, method_pointer: None });
        i += 1;
    }
    r
}

impl State {
    /// Set the cached expression of the snapshot node `n`, creating the entry
    /// when the node is first observed.  On an expression change the
    /// subexpression caches are rebuilt for the new subexpression ids.  Emits
    /// a view-directed delta exactly when the expression text differs from
    /// the cache and the node has a view.
    pub fn set_node_expression(&mut self, n: &NodeSnapshot) -> (r: Option<(ViewNodeId, String)>)
        requires
            old(self).wf(),
        ensures
            final(self).wf(),
            final(self).connections_model() == old(self).connections_model(),
            !old(self).has_ast(n.id) ==> final(self).nodes_model() =~= old(
                self,
            ).nodes_model().push(new_entry_model(n@)) && r is None,
            old(self).has_ast(n.id) && old(self).entry_model(n.id).expression == Some(
                n.expression@,
            ) ==> *final(self) == *old(self) && r is None,
            old(self).has_ast(n.id) && old(self).entry_model(n.id).expression != Some(
                n.expression@,
            ) ==> {
                &&& final(self).nodes_model() =~= old(self).nodes_model().update(
                    old(self).ast_index(n.id),
                    (NodeEntryModel {
                        expression: Some(n.expression@),
                        subexpressions: fresh_subexprs(n.subexpressions@),
                        ..old(self).entry_model(n.id)
                    }),
                )
                &&& (match r {
                    Some(t) => old(self).entry_model(n.id).view_id == Some(t.0) && t.1@
                        == n.expression@,
                    None => old(self).entry_model(n.id).view_id is None,
                })
            },
    {
        let fresh = fresh_subexpr_entries(&n.subexpressions);
        match self.find_ast(n.id) {
            None => {
                let ghost m_end = self.nodes_model();
                self.nodes.push(
                    NodeEntry {
                        ast_id: n.id,
                        view_id: None,
                        expression: Some(n.expression.clone()),
                        subexpressions: fresh,
                        position: None,
                        visualization: None,
                        error: None,
                    },
                );
                proof {
                    let m1 = final(self).nodes_model();
                    assert(forall|j: int| 0 <= j < m_end.len() ==> m1[j] == m_end[j]);
                    assert(m1[m_end.len() as int] =~= new_entry_model(n@));
                    assert(m1[m_end.len() as int] == new_entry_model(n@));
                    assert(m1 =~= m_end.push(new_entry_model(n@)));
                    assert forall|x: int, y: int| 0 <= x < y < m1.len() implies m1[x].ast_id
                        != m1[y].ast_id && !(m1[x].view_id is Some && m1[x].view_id
                        == m1[y].view_id) by {
                        if y == m1.len() - 1 {
                            assert(m1[x] == m_end[x]);
                            assert(!old(self).has_ast(n.id));
                        }
                    }
                }
                None
            },
            Some(i) => {
                let same = match &self.nodes[i].expression {
                    Some(e) => e.eq(&n.expression),
                    None => false,
                };
                if same {
                    proof {
                        assert(old(self).entry_model(n.id).expression == Some(n.expression@));
                    }
                    None
                } else {
                    let ghost before = self.nodes_model();
                    self.nodes[i].expression = Some(n.expression.clone());
                    let ghost mid = self.nodes_model();
                    self.nodes[i].subexpressions = fresh;
                    proof {
                        let m1 = self.nodes_model();
                        assert(forall|j: int| 0 <= j < before.len() && j != i as int ==> mid[j]
                            == before[j]);
                        assert(forall|j: int| 0 <= j < before.len() && j != i as int ==> m1[j]
                            == mid[j]);
                        assert(m1[i as int].subexpressions =~= fresh_subexprs(n.subexpressions@));
                        assert(m1[i as int] =~= (NodeEntryModel {
                            expression: Some(n.expression@),
                            subexpressions: fresh_subexprs(n.subexpressions@),
                            ..old(self).entry_model(n.id)
                        }));
                        assert(m1[i as int] == (NodeEntryModel {
                            expression: Some(n.expression@),
                            subexpressions: fresh_subexprs(n.subexpressions@),
                            ..old(self).entry_model(n.id)
                        }));
                        assert(m1 =~= old(self).nodes_model().update(
                            i as int,
                            (NodeEntryModel {
                                expression: Some(n.expression@),
                                subexpressions: fresh_subexprs(n.subexpressions@),
                                ..old(self).entry_model(n.id)
                            }),
                        ));
                        lemma_nodes_wf_same_ids(old(self).nodes_model(), m1);
                    }
                    match self.nodes[i].view_id {
                        Some(v) => Some((v, n.expression.clone())),
                        None => None,
                    }
                }
            },
        }
    }

    /// The subexpression ids cached for the node shown as view node `v`, in
    /// cache order.
    #[verifier::loop_isolation(false)]
    pub fn expressions_of_node(&self, v: ViewNodeId) -> (r: Vec<AstNodeId>)
        ensures
            !self.has_view(v) ==> r@ =~= Seq::<AstNodeId>::empty(),
            self.has_view(v) ==> r@ =~= Seq::new(
                self.nodes_model()[self.view_index(v)].subexpressions.len(),
                |k: int| self.nodes_model()[self.view_index(v)].subexpressions[k].id,
            ),
    {
        match self.find_view(v) {
            None => Vec::new(),
            Some(i) => {
                let subs = &self.nodes[i].subexpressions;
                let mut r: Vec<AstNodeId> = Vec::new();
                let mut k: usize = 0;
                while k < subs.len()
                    invariant
                        k <= subs@.len(),
                        r@.len() == k,
                        forall|j: int| 0 <= j < k ==> r@[j] == subs@[j]@.id,
                    decreases subs@.len() - k,
                {
                    r.push(subs[k].id);
                    k += 1;
                }
                r
            },
        }
    }
}



/// Whether the entry caches subexpression `e`.
pub open spec fn has_sub(entry: NodeEntryModel, e: AstNodeId) -> bool {
    exists|k: int| 0 <= k < entry.subexpressions.len() && entry.subexpressions[k].id == e
}

/// Whether an entry caches subexpression `e`, as a first-class predicate.
pub open spec fn has_sub_pred(e: AstNodeId) -> spec_fn(NodeEntryModel) -> bool {
    |entry: NodeEntryModel| has_sub(entry, e)
}

/// Whether a subexpression cache entry is the one for `e`, as a first-class
/// predicate.
pub open spec fn sub_id_pred(e: AstNodeId) -> spec_fn(SubexpressionModel) -> bool {
    |x: SubexpressionModel| x.id == e
}

/// Whether subexpression `e` belongs to the entry: it is the node's own id
/// or one of its cached subexpression ids.
pub open spec fn owns_expression(entry: NodeEntryModel, e: AstNodeId) -> bool {
    entry.ast_id == e || has_sub(entry, e)
}

impl State {
    /// Index of the first entry caching subexpression `e`, or `-1`.
    pub open spec fn sub_owner_index(self, e: AstNodeId) -> int {
        find_index(self.nodes_model(), has_sub_pred(e))
    }

    /// Index of subexpression `e` within the entry at `i`.
    pub open spec fn sub_index(self, i: int, e: AstNodeId) -> int {
        find_index(self.nodes_model()[i].subexpressions, sub_id_pred(e))
    }

    /// Index of the first entry that subexpression `e` belongs to, or `-1`.
    pub open spec fn expression_owner_index(self, e: AstNodeId) -> int {
        find_index(self.nodes_model(), |entry: NodeEntryModel| owns_expression(entry, e))
    }

    /// Set the cached computed type of subexpression `e` as observed on the
    /// controller side.  Returns the view id of the owning node exactly when
    /// the value differs from the cache; the cache is updated either way.
    #[verifier::loop_isolation(false)]
    pub fn set_expression_type(&mut self, e: AstNodeId, t: &Option<String>) -> (r: Option<
        ViewNodeId,
    >)
        requires
            old(self).wf(),
        ensures
            final(self).wf(),
            final(self).connections_model() == old(self).connections_model(),
            old(self).sub_owner_index(e) == -1 ==> *final(self) == *old(self) && r is None,
            old(self).sub_owner_index(e) >= 0 ==> {
                let i = old(self).sub_owner_index(e);
                let entry = old(self).nodes_model()[i];
                let k = old(self).sub_index(i, e);
                if entry.subexpressions[k].typename == opt_str_view(*t) {
                    *final(self) == *old(self) && r is None
                } else {
                    &&& final(self).nodes_model() =~= old(self).nodes_model().update(
                        i,
                        (NodeEntryModel {
                            subexpressions: entry.subexpressions.update(
                                k,
                                (SubexpressionModel {
                                    typename: opt_str_view(*t),
                                    ..entry.subexpressions[k]
                                }),
                            ),
                            ..entry
                        }),
                    )
                    &&& r == entry.view_id
                }
            },
    {
        let ghost m0 = self.nodes_model();
        let ghost powner = has_sub_pred(e);
        let mut i: usize = 0;
        while i < self.nodes.len()
            invariant
                i <= self.nodes@.len(),
                *self == *old(self),
                forall|j: int| 0 <= j < i ==> !has_sub(m0[j], e),
            decreases self.nodes@.len() - i,
        {
            let ghost psub = sub_id_pred(e);
            let mut k: usize = 0;
            while k < self.nodes[i].subexpressions.len()
                invariant
                    i < self.nodes@.len(),
                    k <= m0[i as int].subexpressions.len(),
                    *self == *old(self),
                    forall|l: int| 0 <= l < k ==> m0[i as int].subexpressions[l].id != e,
                decreases m0[i as int].subexpressions.len() - k,
            {
                if self.nodes[i].subexpressions[k].id == e {
                    proof {
                        assert(m0[i as int].subexpressions[k as int].id == e);
                        lemma_find_index_at(m0[i as int].subexpressions, psub, k as int);
                        assert(has_sub(m0[i as int], e));
                        lemma_find_index_at(m0, powner, i as int);
                    }
                    if opt_string_eq(&self.nodes[i].subexpressions[k].typename, t) {
                        return None;
                    }
                    let ghost before = self.nodes_model();
                    self.nodes[i].subexpressions[k].typename = clone_opt_string(t);
                    proof {
                        let m1 = self.nodes_model();
                        let entry = m0[i as int];
                        assert(forall|j: int| 0 <= j < m0.len() && j != i as int ==> m1[j]
                            == before[j]);
                        assert(m1[i as int].subexpressions =~= entry.subexpressions.update(
                            k as int,
                            (SubexpressionModel {
                                typename: opt_str_view(*t),
                                ..entry.subexpressions[k as int]
                            }),
                        ));
                        assert(m1[i as int] =~= (NodeEntryModel {
                            subexpressions: entry.subexpressions.update(
                                k as int,
                                (SubexpressionModel {
                                    typename: opt_str_view(*t),
                                    ..entry.subexpressions[k as int]
                                }),
                            ),
                            ..entry
                        }));
                        assert(m1[i as int] == (NodeEntryModel {
                            subexpressions: entry.subexpressions.update(
                                k as int,
                                (SubexpressionModel {
                                    typename: opt_str_view(*t),
                                    ..entry.subexpressions[k as int]
                                }),
                            ),
                            ..entry
                        }));
                        assert(m1 =~= m0.update(
                            i as int,
                            (NodeEntryModel {
                                subexpressions: entry.subexpressions.update(
                                    k as int,
                                    (SubexpressionModel {
                                        typename: opt_str_view(*t),
                                        ..entry.subexpressions[k as int]
                                    }),
                                ),
                                ..entry
                            }),
                        ));
                        lemma_nodes_wf_same_ids(m0, m1);
                    }
                    return self.nodes[i].view_id;
                }
                k += 1;
            }
            proof {
                assert(!has_sub(m0[i as int], e));
            }
            i += 1;
        }
        proof {
            lemma_find_index_none(m0, powner);
        }
        None
    }
}


impl State {
    /// Set the cached method pointer of subexpression `e` as observed on the
    /// controller side.  Returns whether the value differed from the cache; the
    /// cache is updated either way.
    #[verifier::loop_isolation(false)]
    pub fn set_expression_method_pointer(&mut self, e: AstNodeId, t: &Option<String>) -> (r:
        bool)
        requires
            old(self).wf(),
        ensures
            final(self).wf(),
            final(self).connections_model() == old(self).connections_model(),
            old(self).sub_owner_index(e) == -1 ==> *final(self) == *old(self) && !r,
            old(self).sub_owner_index(e) >= 0 ==> {
                let i = old(self).sub_owner_index(e);
                let entry = old(self).nodes_model()[i];
                let k = old(self).sub_index(i, e);
                if entry.subexpressions[k].method_pointer == opt_str_view(*t) {
                    *final(self) == *old(self) && !r
                } else {
                    &&& final(self).nodes_model() =~= old(self).nodes_model().update(
                        i,
                        (NodeEntryModel {
                            subexpressions: entry.subexpressions.update(
                                k,
                                (SubexpressionModel {
                                    method_pointer: opt_str_view(*t),
                                    ..entry.subexpressions[k]
                                }),
                            ),
                            ..entry
                        }),
                    )
                    &&& r
                }
            },
    {
        let ghost m0 = self.nodes_model();
        let ghost powner = has_sub_pred(e);
        let mut i: usize = 0;
        while i < self.nodes.len()
            invariant
                i <= self.nodes@.len(),
                *self == *old(self),
                forall|j: int| 0 <= j < i ==> !has_sub(m0[j], e),
            decreases self.nodes@.len() - i,
        {
            let ghost psub = sub_id_pred(e);
            let mut k: usize = 0;
            while k < self.nodes[i].subexpressions.len()
                invariant
                    i < self.nodes@.len(),
                    k <= m0[i as int].subexpressions.len(),
                    *self == *old(self),
                    forall|l: int| 0 <= l < k ==> m0[i as int].subexpressions[l].id != e,
                decreases m0[i as int].subexpressions.len() - k,
            {
                if self.nodes[i].subexpressions[k].id == e {
                    proof {
                        assert(m0[i as int].subexpressions[k as int].id == e);
                        lemma_find_index_at(m0[i as int].subexpressions, psub, k as int);
                        assert(has_sub(m0[i as int], e));
                        lemma_find_index_at(m0, powner, i as int);
                    }
                    if opt_string_eq(&self.nodes[i].subexpressions[k].method_pointer, t) {
                        return false;
                    }
                    let ghost before = self.nodes_model();
                    self.nodes[i].subexpressions[k].method_pointer = clone_opt_string(t);
                    proof {
                        let m1 = self.nodes_model();
                        let entry = m0[i as int];
                        assert(forall|j: int| 0 <= j < m0.len() && j != i as int ==> m1[j]
                            == before[j]);
                        assert(m1[i as int].subexpressions =~= entry.subexpressions.update(
                            k as int,
                            (SubexpressionModel {
                                method_pointer: opt_str_view(*t),
                                ..entry.subexpressions[k as int]
                            }),
                        ));
                        assert(m1[i as int] =~= (NodeEntryModel {
                            subexpressions: entry.subexpressions.update(
                                k as int,
                                (SubexpressionModel {
                                    method_pointer: opt_str_view(*t),
                                    ..entry.subexpressions[k as int]
                                }),
                            ),
                            ..entry
                        }));
                        assert(m1[i as int] == (NodeEntryModel {
                            subexpressions: entry.subexpressions.update(
                                k as int,
                                (SubexpressionModel {
                                    method_pointer: opt_str_view(*t),
                                    ..entry.subexpressions[k as int]
                                }),
                            ),
                            ..entry
                        }));
                        assert(m1 =~= m0.update(
                            i as int,
                            (NodeEntryModel {
                                subexpressions: entry.subexpressions.update(
                                    k as int,
                                    (SubexpressionModel {
                                        method_pointer: opt_str_view(*t),
                                        ..entry.subexpressions[k as int]
                                    }),
                                ),
                                ..entry
                            }),
                        ));
                        lemma_nodes_wf_same_ids(m0, m1);
                    }
                    return true;
                }
                k += 1;
            }
            proof {
                assert(!has_sub(m0[i as int], e));
            }
            i += 1;
        }
        proof {
            lemma_find_index_none(m0, powner);
        }
        false
    }
}



impl State {
    /// Set the cached error payload of the node that expression `e` belongs
    /// to, as observed in the controller's computed-value registry.  Emits a
    /// view-directed delta exactly when the payload differs from the cache
    /// and the node has a view.
    #[verifier::loop_isolation(false)]
    pub fn set_node_error_from_payload(&mut self, e: AstNodeId, payload: &Option<String>) -> (r:
        Option<(ViewNodeId, Option<String>)>)
        requires
            old(self).wf(),
        ensures
            final(self).wf(),
            final(self).connections_model() == old(self).connections_model(),
            old(self).expression_owner_index(e) == -1 ==> *final(self) == *old(self) && r is None,
            old(self).expression_owner_index(e) >= 0 ==> {
                let i = old(self).expression_owner_index(e);
                let entry = old(self).nodes_model()[i];
                if entry.error == opt_str_view(*payload) {
                    *final(self) == *old(self) && r is None
                } else {
                    &&& final(self).nodes_model() =~= old(self).nodes_model().update(
                        i,
                        (NodeEntryModel { error: opt_str_view(*payload), ..entry }),
                    )
                    &&& (match r {
                        Some(t) => entry.view_id == Some(t.0) && opt_str_view(t.1) == opt_str_view(
                            *payload,
                        ),
                        None => entry.view_id is None,
                    })
                }
            },
    {
        let ghost m0 = self.nodes_model();
        let ghost powner = |entry: NodeEntryModel| owns_expression(entry, e);
        let mut i: usize = 0;
        while i < self.nodes.len()
            invariant
                i <= self.nodes@.len(),
                *self == *old(self),
                forall|j: int| 0 <= j < i ==> !owns_expression(m0[j], e),
            decreases self.nodes@.len() - i,
        {
            let mut owner = self.nodes[i].ast_id == e;
            if !owner {
                let ghost psub = sub_id_pred(e);
                let mut k: usize = 0;
                let mut found_sub = false;
                while k < self.nodes[i].subexpressions.len() && !found_sub
                    invariant
                        i < self.nodes@.len(),
                        k <= m0[i as int].subexpressions.len(),
                        *self == *old(self),
                        found_sub ==> has_sub(m0[i as int], e),
                        !found_sub ==> forall|l: int|
                            0 <= l < k ==> m0[i as int].subexpressions[l].id != e,
                    decreases m0[i as int].subexpressions.len() - k, (if found_sub { 0int } else { 1int }),
                {
                    if self.nodes[i].subexpressions[k].id == e {
                        found_sub = true;
                        proof {
                            assert(m0[i as int].subexpressions[k as int].id == e);
                        }
                    } else {
                        k += 1;
                    }
                }
                owner = found_sub;
            }
            if owner {
                proof {
                    assert(owns_expression(m0[i as int], e));
                    lemma_find_index_at(m0, powner, i as int);
                }
                if opt_string_eq(&self.nodes[i].error, payload) {
                    return None;
                }
                let ghost before = self.nodes_model();
                self.nodes[i].error = clone_opt_string(payload);
                proof {
                    let m1 = self.nodes_model();
                    let entry = m0[i as int];
                    assert(forall|j: int| 0 <= j < m0.len() && j != i as int ==> m1[j]
                        == before[j]);
                    assert(m1[i as int] =~= (NodeEntryModel {
                        error: opt_str_view(*payload),
                        ..entry
                    }));
                    assert(m1[i as int] == (NodeEntryModel {
                        error: opt_str_view(*payload),
                        ..entry
                    }));
                    assert(m1 =~= m0.update(
                        i as int,
                        (NodeEntryModel { error: opt_str_view(*payload), ..entry }),
                    ));
                    lemma_nodes_wf_same_ids(m0, m1);
                }
                let out = match self.nodes[i].view_id {
                    Some(v) => Some((v, clone_opt_string(payload))),
                    None => None,
                };
                return out;
            }
            proof {
                assert(!owns_expression(m0[i as int], e));
            }
            i += 1;
        }
        proof {
            lemma_find_index_none(m0, powner);
        }
        None
    }
}



/// The node entries kept by a retain over the controller id set `ids`, in
/// store order.
pub open spec fn kept_nodes(m: Seq<NodeEntryModel>, ids: Seq<AstNodeId>) -> Seq<NodeEntryModel>
    decreases m.len(),
{
    if m.len() == 0 {
        Seq::empty()
    } else {
        let rest = kept_nodes(m.drop_last(), ids);
        if ids.contains(m.last().ast_id) {
            rest.push(m.last())
        } else {
            rest
        }
    }
}

/// The view ids of the entries a retain over `ids` removes, in store order.
pub open spec fn dropped_node_views(m: Seq<NodeEntryModel>, ids: Seq<AstNodeId>) -> Seq<
    ViewNodeId,
>
    decreases m.len(),
{
    if m.len() == 0 {
        Seq::empty()
    } else {
        let rest = dropped_node_views(m.drop_last(), ids);
        if !ids.contains(m.last().ast_id) {
            match m.last().view_id {
                Some(v) => rest.push(v),
                None => rest,
            }
        } else {
            rest
        }
    }
}

/// A retain keeps exactly the entries whose controller id survives, keeps
/// the table well formed, and invents no entry.
pub proof fn lemma_kept_nodes_wf(m: Seq<NodeEntryModel>, ids: Seq<AstNodeId>)
    requires
        nodes_wf_seq(m),
    ensures
        nodes_wf_seq(kept_nodes(m, ids)),
        forall|x: NodeEntryModel| #[trigger] kept_nodes(m, ids).contains(x) <==> m.contains(x)
            && ids.contains(x.ast_id),
    decreases m.len(),
{
    let k = kept_nodes(m, ids);
    if m.len() == 0 {
        assert(forall|x: NodeEntryModel| !k.contains(x) && !m.contains(x));
    } else {
        let m2 = m.drop_last();
        let l = m.last();
        assert(forall|i: int| 0 <= i < m2.len() ==> m2[i] == m[i]);
        assert(nodes_wf_seq(m2));
        lemma_kept_nodes_wf(m2, ids);
        let kr = kept_nodes(m2, ids);
        assert forall|x: NodeEntryModel| #[trigger] m2.contains(x) implies m.contains(x) by {
            let i = choose|i: int| 0 <= i < m2.len() && m2[i] == x;
            assert(m[i] == x);
        }
        if ids.contains(l.ast_id) {
            assert(k == kr.push(l));
            assert forall|x: NodeEntryModel| #[trigger] k.contains(x) implies m.contains(x)
                && ids.contains(x.ast_id) by {
                let i = choose|i: int| 0 <= i < k.len() && k[i] == x;
                if i < kr.len() {
                    assert(kr[i] == x);
                    assert(kr.contains(x));
                } else {
                    assert(x == l);
                    assert(m[m.len() - 1] == l);
                }
            }
            assert forall|x: NodeEntryModel| m.contains(x) && ids.contains(x.ast_id) implies
                #[trigger] k.contains(x) by {
                let i = choose|i: int| 0 <= i < m.len() && m[i] == x;
                if i < m.len() - 1 {
                    assert(m2[i] == x);
                    assert(m2.contains(x));
                    assert(kr.contains(x));
                    let j = choose|j: int| 0 <= j < kr.len() && kr[j] == x;
                    assert(k[j] == x);
                } else {
                    assert(k[k.len() - 1] == x);
                }
            }
            assert forall|x: int, y: int| 0 <= x < y < k.len() implies k[x].ast_id != k[y].ast_id
                && !(k[x].view_id is Some && k[x].view_id == k[y].view_id) by {
                if y == k.len() - 1 {
                    assert(kr.contains(k[x]));
                    assert(m2.contains(k[x]));
                    let i = choose|i: int| 0 <= i < m2.len() && m2[i] == k[x];
                    assert(m[i] == k[x]);
                    assert(m[m.len() - 1] == l);
                } else {
                    assert(kr[x] == k[x] && kr[y] == k[y]);
                }
            }
        } else {
            assert(k == kr);
            assert forall|x: NodeEntryModel| m.contains(x) && ids.contains(x.ast_id) implies
                #[trigger] k.contains(x) by {
                let i = choose|i: int| 0 <= i < m.len() && m[i] == x;
                assert(i < m.len() - 1);
                assert(m2[i] == x);
                assert(m2.contains(x));
            }
        }
    }
}

/// A retain reports exactly the view ids of the entries it removes.
pub proof fn lemma_dropped_views(m: Seq<NodeEntryModel>, ids: Seq<AstNodeId>)
    ensures
        forall|v: ViewNodeId| #[trigger] dropped_node_views(m, ids).contains(v) <==> exists|i: int|
            0 <= i < m.len() && m[i].view_id == Some(v) && !ids.contains(m[i].ast_id),
    decreases m.len(),
{
    let d = dropped_node_views(m, ids);
    if m.len() == 0 {
        assert(forall|v: ViewNodeId| !d.contains(v));
    } else {
        let m2 = m.drop_last();
        let l = m.last();
        lemma_dropped_views(m2, ids);
        let dr = dropped_node_views(m2, ids);
        assert forall|v: ViewNodeId| #[trigger] d.contains(v) implies exists|i: int|
            0 <= i < m.len() && m[i].view_id == Some(v) && !ids.contains(m[i].ast_id) by {
            let j = choose|j: int| 0 <= j < d.len() && d[j] == v;
            if j < dr.len() {
                assert(dr.contains(v));
                let i = choose|i: int|
                    0 <= i < m2.len() && m2[i].view_id == Some(v) && !ids.contains(m2[i].ast_id);
                assert(m[i] == m2[i]);
            } else {
                assert(m[m.len() - 1] == l);
            }
        }
        assert forall|v: ViewNodeId|
            exists|i: int| 0 <= i < m.len() && m[i].view_id == Some(v) && !ids.contains(
                m[i].ast_id,
            ) implies #[trigger] d.contains(v) by {
            let i = choose|i: int|
                0 <= i < m.len() && m[i].view_id == Some(v) && !ids.contains(m[i].ast_id);
            if i < m.len() - 1 {
                assert(m2[i] == m[i]);
                assert(dr.contains(v));
                let j = choose|j: int| 0 <= j < dr.len() && dr[j] == v;
                if ids.contains(l.ast_id) {
                    assert(d[j] == v);
                } else {
                    assert(d[j] == v);
                }
            } else {
                assert(d[d.len() - 1] == v);
            }
        }
    }
}

/// Whether `ids` lists the id `a`.
#[verifier::loop_isolation(false)]
pub fn contains_id(ids: &Vec<AstNodeId>, a: AstNodeId) -> (r: bool)
    ensures
        r == ids@.contains(a),
{
    let mut i: usize = 0;
    while i < ids.len()
        invariant
            i <= ids@.len(),
            forall|j: int| 0 <= j < i ==> ids@[j] != a,
        decreases ids@.len() - i,
    {
        if ids[i] == a {
            return true;
        }
        i += 1;
    }
    false
}

impl State {
    /// Given the full current controller id set, retain only matching node
    /// entries and return the view ids of everything removed.
    #[verifier::loop_isolation(false)]
    pub fn retain_nodes(&mut self, ids: &Vec<AstNodeId>) -> (r: Vec<ViewNodeId>)
        requires
            old(self).wf(),
        ensures
            final(self).wf(),
            final(self).connections_model() == old(self).connections_model(),
            final(self).nodes_model() =~= kept_nodes(old(self).nodes_model(), ids@),
            r@ =~= dropped_node_views(old(self).nodes_model(), ids@),
    {
        let ghost m0 = self.nodes_model();
        let total: usize = self.nodes.len();
        let mut kept: Vec<NodeEntry> = Vec::new();
        let mut dropped: Vec<ViewNodeId> = Vec::new();
        let mut processed: usize = 0;
        while self.nodes.len() > 0
            invariant
                m0.len() == total,
                processed + self.nodes@.len() == m0.len(),
                self.connections@ == old(self).connections@,
                forall|j: int|
                    0 <= j < self.nodes@.len() ==> self.nodes_model()[j] == m0[processed + j],
                Seq::new(kept@.len(), |i: int| kept@[i]@) =~= kept_nodes(
                    m0.take(processed as int),
                    ids@,
                ),
                dropped@ =~= dropped_node_views(m0.take(processed as int), ids@),
            decreases self.nodes@.len(),
        {
            let ghost pre = self.nodes_model();
            proof {
                assert(pre.len() == m0.len() - processed);
                assert(forall|j: int| 0 <= j < pre.len() ==> pre[j] == m0[processed + j]);
            }
            let e = self.nodes.remove(0);
            proof {
                assert(e@ == pre[0]);
                assert(e@ == m0[processed as int]);
                assert(forall|j: int|
                    0 <= j < self.nodes@.len() ==> self.nodes_model()[j] == pre[j + 1]);
                assert(processed < m0.len());
            }
            let keep = contains_id(ids, e.ast_id);
            if keep {
                kept.push(e);
            } else {
                match e.view_id {
                    Some(v) => dropped.push(v),
                    None => {},
                }
            }
            processed += 1;
            proof {
                let t = m0.take(processed as int);
                assert(t.drop_last() =~= m0.take(processed as int - 1));
                assert(t.last() == m0[processed as int - 1]);
                assert(kept_nodes(t.drop_last(), ids@) == kept_nodes(
                    m0.take(processed as int - 1),
                    ids@,
                ));
                assert(dropped_node_views(t.drop_last(), ids@) == dropped_node_views(
                    m0.take(processed as int - 1),
                    ids@,
                ));
                assert(Seq::new(kept@.len(), |i: int| kept@[i]@) =~= kept_nodes(t, ids@));
                assert(dropped@ =~= dropped_node_views(t, ids@));
            }
        }
        self.nodes = kept;
        proof {
            assert(m0.take(m0.len() as int) =~= m0);
            assert(final(self).nodes_model() =~= kept_nodes(m0, ids@));
            lemma_kept_nodes_wf(m0, ids@);
            assert(nodes_wf_seq(final(self).nodes_model())) by {
                assert(final(self).nodes_model() == kept_nodes(m0, ids@));
            }
        }
        dropped
    }
}



/// The connection entries kept by a retain over the snapshot connection set,
/// in store order.
pub open spec fn kept_connections(
    cm: Seq<ConnectionEntryModel>,
    snap: Seq<ConnectionModel>,
) -> Seq<ConnectionEntryModel>
    decreases cm.len(),
{
    if cm.len() == 0 {
        Seq::empty()
    } else {
        let rest = kept_connections(cm.drop_last(), snap);
        if contains_connection(snap, cm.last().ast) {
            rest.push(cm.last())
        } else {
            rest
        }
    }
}

/// The view connection ids of the entries a retain removes, in store order.
pub open spec fn dropped_connection_views(
    cm: Seq<ConnectionEntryModel>,
    snap: Seq<ConnectionModel>,
) -> Seq<ViewConnectionId>
    decreases cm.len(),
{
    if cm.len() == 0 {
        Seq::empty()
    } else {
        let rest = dropped_connection_views(cm.drop_last(), snap);
        if !contains_connection(snap, cm.last().ast) {
            match cm.last().view {
                Some(v) => rest.push(v),
                None => rest,
            }
        } else {
            rest
        }
    }
}

/// A retain keeps exactly the connection entries whose connection survives,
/// keeps the table well formed, and invents no entry.
pub proof fn lemma_kept_connections_wf(cm: Seq<ConnectionEntryModel>, snap: Seq<ConnectionModel>)
    requires
        conns_wf_seq(cm),
    ensures
        conns_wf_seq(kept_connections(cm, snap)),
        forall|x: ConnectionEntryModel| #[trigger] kept_connections(cm, snap).contains(x) <==>
            cm.contains(x) && contains_connection(snap, x.ast),
    decreases cm.len(),
{
    let k = kept_connections(cm, snap);
    if cm.len() == 0 {
        assert(forall|x: ConnectionEntryModel| !k.contains(x) && !cm.contains(x));
    } else {
        let m2 = cm.drop_last();
        let l = cm.last();
        assert(forall|i: int| 0 <= i < m2.len() ==> m2[i] == cm[i]);
        assert(conns_wf_seq(m2));
        lemma_kept_connections_wf(m2, snap);
        let kr = kept_connections(m2, snap);
        assert forall|x: ConnectionEntryModel| #[trigger] m2.contains(x) implies cm.contains(x) by {
            let i = choose|i: int| 0 <= i < m2.len() && m2[i] == x;
            assert(cm[i] == x);
        }
        if contains_connection(snap, l.ast) {
            assert(k == kr.push(l));
            assert forall|x: ConnectionEntryModel| #[trigger] k.contains(x) implies cm.contains(x)
                && contains_connection(snap, x.ast) by {
                let i = choose|i: int| 0 <= i < k.len() && k[i] == x;
                if i < kr.len() {
                    assert(kr[i] == x);
                    assert(kr.contains(x));
                } else {
                    assert(x == l);
                    assert(cm[cm.len() - 1] == l);
                }
            }
            assert forall|x: ConnectionEntryModel|
                cm.contains(x) && contains_connection(snap, x.ast) implies #[trigger] k.contains(
                x,
            ) by {
                let i = choose|i: int| 0 <= i < cm.len() && cm[i] == x;
                if i < cm.len() - 1 {
                    assert(m2[i] == x);
                    assert(m2.contains(x));
                    assert(kr.contains(x));
                    let j = choose|j: int| 0 <= j < kr.len() && kr[j] == x;
                    assert(k[j] == x);
                } else {
                    assert(k[k.len() - 1] == x);
                }
            }
            assert forall|x: int, y: int| 0 <= x < y < k.len() implies !(k[x].ast =~= k[y].ast)
                && !(k[x].view is Some && k[x].view == k[y].view) by {
                if y == k.len() - 1 {
                    assert(kr.contains(k[x]));
                    assert(m2.contains(k[x]));
                    let i = choose|i: int| 0 <= i < m2.len() && m2[i] == k[x];
                    assert(cm[i] == k[x]);
                    assert(cm[cm.len() - 1] == l);
                } else {
                    assert(kr[x] == k[x] && kr[y] == k[y]);
                }
            }
        } else {
            assert(k == kr);
            assert forall|x: ConnectionEntryModel|
                cm.contains(x) && contains_connection(snap, x.ast) implies #[trigger] k.contains(
                x,
            ) by {
                let i = choose|i: int| 0 <= i < cm.len() && cm[i] == x;
                if i == cm.len() - 1 {
                    assert(x == l);
                    assert(false);
                } else {
                    assert(m2[i] == x);
                    assert(m2.contains(x));
                }
            }
        }
    }
}

/// A retain reports exactly the view ids of the connections it removes.
pub proof fn lemma_dropped_connection_views(
    cm: Seq<ConnectionEntryModel>,
    snap: Seq<ConnectionModel>,
)
    ensures
        forall|v: ViewConnectionId| #[trigger] dropped_connection_views(cm, snap).contains(v) <==>
            exists|i: int|
                0 <= i < cm.len() && cm[i].view == Some(v) && !contains_connection(
                    snap,
                    cm[i].ast,
                ),
    decreases cm.len(),
{
    let d = dropped_connection_views(cm, snap);
    if cm.len() == 0 {
        assert(forall|v: ViewConnectionId| !d.contains(v));
    } else {
        let m2 = cm.drop_last();
        let l = cm.last();
        lemma_dropped_connection_views(m2, snap);
        let dr = dropped_connection_views(m2, snap);
        assert forall|v: ViewConnectionId| #[trigger] d.contains(v) implies exists|i: int|
            0 <= i < cm.len() && cm[i].view == Some(v) && !contains_connection(snap, cm[i].ast) by {
            let j = choose|j: int| 0 <= j < d.len() && d[j] == v;
            if j < dr.len() {
                assert(dr.contains(v));
                let i = choose|i: int|
                    0 <= i < m2.len() && m2[i].view == Some(v) && !contains_connection(
                        snap,
                        m2[i].ast,
                    );
                assert(cm[i] == m2[i]);
            } else {
                assert(cm[cm.len() - 1] == l);
            }
        }
        assert forall|v: ViewConnectionId|
            exists|i: int|
                0 <= i < cm.len() && cm[i].view == Some(v) && !contains_connection(
                    snap,
                    cm[i].ast,
                ) implies #[trigger] d.contains(v) by {
            let i = choose|i: int|
                0 <= i < cm.len() && cm[i].view == Some(v) && !contains_connection(
                    snap,
                    cm[i].ast,
                );
            if i < cm.len() - 1 {
                assert(m2[i] == cm[i]);
                assert(dr.contains(v));
                let j = choose|j: int| 0 <= j < dr.len() && dr[j] == v;
                assert(d[j] == v);
            } else {
                assert(d[d.len() - 1] == v);
            }
        }
    }
}

/// Whether the connection listing holds the connection of `c`.
#[verifier::loop_isolation(false)]
pub fn listing_contains_connection(conns: &Vec<Connection>, c: &Connection) -> (r: bool)
    ensures
        r == contains_connection(
            Seq::new(conns@.len(), |i: int| conns@[i]@),
            c@,
        ),
{
    let ghost sm = Seq::new(conns@.len(), |i: int| conns@[i]@);
    let mut i: usize = 0;
    while i < conns.len()
        invariant
            i <= conns@.len(),
            forall|j: int| 0 <= j < i ==> !(sm[j] =~= c@),
        decreases conns@.len() - i,
    {
        if connection_eq(&conns[i], c) {
            proof {
                assert(sm[i as int] =~= c@);
            }
            return true;
        }
        i += 1;
    }
    false
}

impl State {
    /// Index of the entry for the connection `c`, or `-1`.
    pub open spec fn conn_index(self, c: ConnectionModel) -> int {
        find_index(self.connections_model(), |ce: ConnectionEntryModel| ce.ast =~= c)
    }

    /// Index of the entry showing view connection `v`, or `-1`.
    pub open spec fn view_conn_index(self, v: ViewConnectionId) -> int {
        find_index(self.connections_model(), |ce: ConnectionEntryModel| ce.view == Some(v))
    }

    /// First index of the entry for the connection of `c`.
    #[verifier::loop_isolation(false)]
    fn find_connection(&self, c: &Connection) -> (r: Option<usize>)
        ensures
            match r {
                Some(i) => self.has_connection(c@) && self.conn_index(c@) == i as int && (i as int)
                    < self.connections_model().len() && (self.connections_model()[i as int].ast
                    =~= c@),
                None => !self.has_connection(c@) && self.conn_index(c@) == -1,
            },
    {
        let ghost p = |ce: ConnectionEntryModel| ce.ast =~= c@;
        let mut i: usize = 0;
        while i < self.connections.len()
            invariant
                i <= self.connections@.len(),
                forall|j: int| 0 <= j < i ==> !(self.connections_model()[j].ast =~= c@),
            decreases self.connections@.len() - i,
        {
            if connection_eq(&self.connections[i].ast, c) {
                proof {
                    assert(p(self.connections_model()[i as int]));
                    lemma_find_index_at(self.connections_model(), p, i as int);
                    assert(self.has_connection(c@));
                }
                return Some(i);
            }
            i += 1;
        }
        proof {
            lemma_find_index_none(self.connections_model(), p);
            if self.has_connection(c@) {
                let w = choose|w: int|
                    0 <= w < self.connections_model().len() && self.connections_model()[w].ast
                        =~= c@;
                assert(p(self.connections_model()[w]));
                lemma_find_index(self.connections_model(), p);
            }
        }
        None
    }

    /// First index of the entry showing view connection `v`.
    #[verifier::loop_isolation(false)]
    fn find_view_connection(&self, v: ViewConnectionId) -> (r: Option<usize>)
        ensures
            match r {
                Some(i) => self.has_view_connection(v) && self.view_conn_index(v) == i as int && (
                i as int) < self.connections_model().len()
                    && self.connections_model()[i as int].view == Some(v),
                None => !self.has_view_connection(v) && self.view_conn_index(v) == -1,
            },
    {
        let ghost p = |ce: ConnectionEntryModel| ce.view == Some(v);
        let mut i: usize = 0;
        while i < self.connections.len()
            invariant
                i <= self.connections@.len(),
                forall|j: int| 0 <= j < i ==> self.connections_model()[j].view != Some(v),
            decreases self.connections@.len() - i,
        {
            let hit = match self.connections[i].view {
                Some(w) => w == v,
                None => false,
            };
            if hit {
                proof {
                    assert(p(self.connections_model()[i as int]));
                    lemma_find_index_at(self.connections_model(), p, i as int);
                    assert(self.has_view_connection(v));
                }
                return Some(i);
            }
            i += 1;
        }
        proof {
            lemma_find_index_none(self.connections_model(), p);
            if self.has_view_connection(v) {
                let w = choose|w: int|
                    0 <= w < self.connections_model().len() && self.connections_model()[w].view
                        == Some(v);
                assert(p(self.connections_model()[w]));
            }
        }
        None
    }
}



/// Distinctness is kept by removing a connection entry.
pub proof fn lemma_conns_wf_remove(cm: Seq<ConnectionEntryModel>, i: int)
    requires
        conns_wf_seq(cm),
        0 <= i < cm.len(),
    ensures
        conns_wf_seq(cm.remove(i)),
{
    let r = cm.remove(i);
    assert forall|x: int, y: int| 0 <= x < y < r.len() implies !(r[x].ast =~= r[y].ast) && !(
    r[x].view is Some && r[x].view == r[y].view) by {
        let x0 = if x < i { x } else { x + 1 };
        let y0 = if y < i { y } else { y + 1 };
        assert(r[x] == cm[x0]);
        assert(r[y] == cm[y0]);
    }
}

impl State {
    /// Record the connection `c` as observed in a controller snapshot.
    /// Returns the view endpoints to create an edge between, exactly when the
    /// connection is new to the store and both endpoint nodes already have
    /// views.
    pub fn set_connection(&mut self, c: &Connection) -> (r: Option<(ViewEndpoint, ViewEndpoint)>)
        requires
            old(self).wf(),
        ensures
            final(self).wf(),
            final(self).nodes_model() == old(self).nodes_model(),
            old(self).has_connection(c@) ==> *final(self) == *old(self) && r is None,
            !old(self).has_connection(c@) ==> {
                &&& final(self).connections_model() =~= old(self).connections_model().push(
                    (ConnectionEntryModel { ast: c@, view: None }),
                )
                &&& (match r {
                    Some(t) => {
                        &&& old(self).has_ast(c.source.node)
                        &&& old(self).has_ast(c.target.node)
                        &&& old(self).entry_model(c.source.node).view_id == Some(t.0@.node)
                        &&& old(self).entry_model(c.target.node).view_id == Some(t.1@.node)
                        &&& t.0@.port =~= c.source.port@
                        &&& t.1@.port =~= c.target.port@
                    },
                    None => !(old(self).has_ast(c.source.node) && old(self).entry_model(
                        c.source.node,
                    ).view_id is Some && old(self).has_ast(c.target.node) && old(self).entry_model(
                        c.target.node,
                    ).view_id is Some),
                })
            },
    {
        match self.find_connection(c) {
            Some(_) => None,
            None => {
                let source_view = self.view_id_of_ast_node(c.source.node);
                let target_view = self.view_id_of_ast_node(c.target.node);
                let ghost cm0 = self.connections_model();
                self.connections.push(ConnectionEntry { ast: clone_connection(c), view: None });
                proof {
                    let cm1 = final(self).connections_model();
                    assert(forall|j: int| 0 <= j < cm0.len() ==> cm1[j] == cm0[j]);
                    assert(cm1[cm0.len() as int].ast =~= c@);
                    assert(cm1 =~= cm0.push((ConnectionEntryModel { ast: c@, view: None })));
                    assert forall|x: int, y: int| 0 <= x < y < cm1.len() implies !(cm1[x].ast
                        =~= cm1[y].ast) && !(cm1[x].view is Some && cm1[x].view == cm1[y].view) by {
                        if y == cm1.len() - 1 {
                            assert(cm1[x] == cm0[x]);
                            assert(!old(self).has_connection(c@));
                        }
                    }
                }
                match (source_view, target_view) {
                    (Some(sv), Some(tv)) => Some(
                        (
                            ViewEndpoint { node: sv, port: clone_ports(&c.source.port) },
                            ViewEndpoint { node: tv, port: clone_ports(&c.target.port) },
                        ),
                    ),
                    _ => None,
                }
            },
        }
    }

    /// Given the full current snapshot connection set, retain only matching
    /// connection entries and return the view ids of everything removed.
    #[verifier::loop_isolation(false)]
    pub fn retain_connections(&mut self, conns: &Vec<Connection>) -> (r: Vec<ViewConnectionId>)
        requires
            old(self).wf(),
        ensures
            final(self).wf(),
            final(self).nodes_model() == old(self).nodes_model(),
            final(self).connections_model() =~= kept_connections(
                old(self).connections_model(),
                Seq::new(conns@.len(), |i: int| conns@[i]@),
            ),
            r@ =~= dropped_connection_views(
                old(self).connections_model(),
                Seq::new(conns@.len(), |i: int| conns@[i]@),
            ),
    {
        let ghost snap = Seq::new(conns@.len(), |i: int| conns@[i]@);
        let ghost cm0 = self.connections_model();
        let total: usize = self.connections.len();
        let mut kept: Vec<ConnectionEntry> = Vec::new();
        let mut dropped: Vec<ViewConnectionId> = Vec::new();
        let mut processed: usize = 0;
        while self.connections.len() > 0
            invariant
                cm0.len() == total,
                processed + self.connections@.len() == cm0.len(),
                self.nodes@ == old(self).nodes@,
                forall|j: int|
                    0 <= j < self.connections@.len() ==> self.connections_model()[j] == cm0[
                        processed + j],
                Seq::new(kept@.len(), |i: int| kept@[i]@) =~= kept_connections(
                    cm0.take(processed as int),
                    snap,
                ),
                dropped@ =~= dropped_connection_views(cm0.take(processed as int), snap),
            decreases self.connections@.len(),
        {
            let ghost pre = self.connections_model();
            proof {
                assert(pre.len() == cm0.len() - processed);
                assert(forall|j: int| 0 <= j < pre.len() ==> pre[j] == cm0[processed + j]);
            }
            let e = self.connections.remove(0);
            proof {
                assert(e@ == pre[0]);
                assert(e@ == cm0[processed as int]);
                assert(forall|j: int|
                    0 <= j < self.connections@.len() ==> self.connections_model()[j] == pre[j + 1]);
                assert(processed < cm0.len());
            }
            let keep = listing_contains_connection(conns, &e.ast);
            if keep {
                kept.push(e);
            } else {
                match e.view {
                    Some(v) => dropped.push(v),
                    None => {},
                }
            }
            processed += 1;
            proof {
                let t = cm0.take(processed as int);
                assert(t.drop_last() =~= cm0.take(processed as int - 1));
                assert(t.last() == cm0[processed as int - 1]);
                assert(kept_connections(t.drop_last(), snap) == kept_connections(
                    cm0.take(processed as int - 1),
                    snap,
                ));
                assert(dropped_connection_views(t.drop_last(), snap) == dropped_connection_views(
                    cm0.take(processed as int - 1),
                    snap,
                ));
                assert(Seq::new(kept@.len(), |i: int| kept@[i]@) =~= kept_connections(t, snap));
                assert(dropped@ =~= dropped_connection_views(t, snap));
            }
        }
        self.connections = kept;
        proof {
            assert(cm0.take(cm0.len() as int) =~= cm0);
            assert(final(self).connections_model() =~= kept_connections(cm0, snap));
            lemma_kept_connections_wf(cm0, snap);
            assert(conns_wf_seq(final(self).connections_model())) by {
                assert(final(self).connections_model() == kept_connections(cm0, snap));
            }
        }
        dropped
    }

    /// Register the connection the view has created as edge `v`.  When the
    /// connection is already known to the store the edge is the echo of the
    /// store's own command and nothing is returned; when it is new, the
    /// connection to create on the controller side is returned.
    pub fn create_connection_from_view(&mut self, v: ViewConnectionId, c: &Connection) -> (r:
        Option<Connection>)
        requires
            old(self).wf(),
        ensures
            final(self).wf(),
            final(self).nodes_model() == old(self).nodes_model(),
            old(self).has_view_connection(v) ==> *final(self) == *old(self) && r is None,
            !old(self).has_view_connection(v) && old(self).has_connection(c@) ==> {
                let i = old(self).conn_index(c@);
                let entry = old(self).connections_model()[i];
                &&& r is None
                &&& (if entry.view is None {
                    final(self).connections_model() =~= old(self).connections_model().update(
                        i,
                        (ConnectionEntryModel { view: Some(v), ..entry }),
                    )
                } else {
                    *final(self) == *old(self)
                })
            },
            !old(self).has_view_connection(v) && !old(self).has_connection(c@) ==> {
                &&& final(self).connections_model() =~= old(self).connections_model().push(
                    (ConnectionEntryModel { ast: c@, view: Some(v) }),
                )
                &&& (match r {
                    Some(out) => out@ =~= c@,
                    None => false,
                })
            },
    {
        if self.find_view_connection(v).is_some() {
            return None;
        }
        match self.find_connection(c) {
            Some(i) => {
                if self.connections[i].view.is_none() {
                    let ghost cm0 = self.connections_model();
                    self.connections[i].view = Some(v);
                    proof {
                        let cm1 = self.connections_model();
                        assert(forall|j: int| 0 <= j < cm0.len() && j != i as int ==> cm1[j]
                            == cm0[j]);
                        assert(cm1[i as int] =~= (ConnectionEntryModel {
                            view: Some(v),
                            ..cm0[i as int]
                        }));
                        assert(cm1[i as int] == (ConnectionEntryModel {
                            view: Some(v),
                            ..cm0[i as int]
                        }));
                        assert(cm1 =~= cm0.update(
                            i as int,
                            (ConnectionEntryModel { view: Some(v), ..cm0[i as int] }),
                        ));
                        assert forall|x: int, y: int| 0 <= x < y < cm1.len() implies !(cm1[x].ast
                            =~= cm1[y].ast) && !(cm1[x].view is Some && cm1[x].view
                            == cm1[y].view) by {
                            assert(!(cm0[x].ast =~= cm0[y].ast));
                            assert(!(cm0[x].view is Some && cm0[x].view == cm0[y].view));
                            if x != i && y != i {
                                assert(cm1[x] == cm0[x] && cm1[y] == cm0[y]);
                            }
                        }
                    }
                }
                None
            },
            None => {
                let ghost cm0 = self.connections_model();
                self.connections.push(
                    ConnectionEntry { ast: clone_connection(c), view: Some(v) },
                );
                proof {
                    let cm1 = final(self).connections_model();
                    assert(forall|j: int| 0 <= j < cm0.len() ==> cm1[j] == cm0[j]);
                    assert(cm1[cm0.len() as int].ast =~= c@);
                    assert(cm1 =~= cm0.push((ConnectionEntryModel { ast: c@, view: Some(v) })));
                    assert forall|x: int, y: int| 0 <= x < y < cm1.len() implies !(cm1[x].ast
                        =~= cm1[y].ast) && !(cm1[x].view is Some && cm1[x].view == cm1[y].view) by {
                        if y == cm1.len() - 1 {
                            assert(cm1[x] == cm0[x]);
                            assert(!old(self).has_connection(c@));
                            assert(!old(self).has_view_connection(v));
                        }
                    }
                }
                Some(clone_connection(c))
            },
        }
    }

    /// Remove the entry of the connection deleted in the view.  Returns the
    /// connection to disconnect on the controller side.
    pub fn remove_connection_from_view(&mut self, v: ViewConnectionId) -> (r: Option<Connection>)
        requires
            old(self).wf(),
        ensures
            final(self).wf(),
            final(self).nodes_model() == old(self).nodes_model(),
            !old(self).has_view_connection(v) ==> *final(self) == *old(self) && r is None,
            old(self).has_view_connection(v) ==> {
                &&& final(self).connections_model() =~= old(self).connections_model().remove(
                    old(self).view_conn_index(v),
                )
                &&& (match r {
                    Some(c) => c@ =~= old(self).connections_model()[old(self).view_conn_index(
                        v,
                    )].ast,
                    None => false,
                })
            },
    {
        match self.find_view_connection(v) {
            None => None,
            Some(i) => {
                let entry = self.connections.remove(i);
                proof {
                    assert(final(self).connections_model() =~= old(
                        self,
                    ).connections_model().remove(i as int));
                    lemma_conns_wf_remove(old(self).connections_model(), i as int);
                }
                Some(entry.ast)
            },
        }
    }
}



impl State {
    /// Whether the store has an entry for controller node `a`.
    pub fn has_node(&self, a: AstNodeId) -> (r: bool)
        ensures
            r == self.has_ast(a),
    {
        self.find_ast(a).is_some()
    }
}



/// The entry of snapshot node `ns` after the expression stage of a refresh
/// against the store value `s`.
pub open spec fn entry_after_expr(s: State, ns: NodeSnapshotModel) -> NodeEntryModel {
    if s.has_ast(ns.id) {
        let e = s.entry_model(ns.id);
        if e.expression == Some(ns.expression) {
            e
        } else {
            NodeEntryModel {
                expression: Some(ns.expression),
                subexpressions: fresh_subexprs(ns.subexpressions),
                ..e
            }
        }
    } else {
        new_entry_model(ns)
    }
}

/// The entry of snapshot node `ns` after the position stage of a refresh.
pub open spec fn entry_after_position(s: State, ns: NodeSnapshotModel) -> NodeEntryModel {
    if ns.position is Some {
        NodeEntryModel { position: ns.position, ..entry_after_expr(s, ns) }
    } else {
        entry_after_expr(s, ns)
    }
}

/// The entry of snapshot node `ns` after the visualization stage of a
/// refresh.
pub open spec fn entry_after_visualization(s: State, ns: NodeSnapshotModel) -> NodeEntryModel {
    NodeEntryModel { visualization: ns.visualization, ..entry_after_position(s, ns) }
}



/// Mathematical value of a list of per-subexpression values, as handed to
/// the batch refresh entry points.
pub open spec fn id_value_pairs_model(v: Seq<(AstNodeId, Option<String>)>) -> Seq<
    (AstNodeId, Option<Seq<char>>),
> {
    Seq::new(v.len(), |i: int| (v[i].0, opt_str_view(v[i].1)))
}

/// The node table after the cached type of subexpression `id` is set to
/// `t`: the first entry caching `id` has that subexpression's type cache
/// overwritten; a table not caching `id` is unchanged.
pub open spec fn type_set_once(
    m: Seq<NodeEntryModel>,
    id: AstNodeId,
    t: Option<Seq<char>>,
) -> Seq<NodeEntryModel> {
    let i = find_index(m, has_sub_pred(id));
    if i < 0 {
        m
    } else {
        let e = m[i];
        let k = find_index(e.subexpressions, sub_id_pred(id));
        if k < 0 {
            m
        } else {
            m.update(
                i,
                NodeEntryModel {
                    subexpressions: e.subexpressions.update(
                        k,
                        SubexpressionModel { typename: t, ..e.subexpressions[k] },
                    ),
                    ..e
                },
            )
        }
    }
}

/// The node table after a whole list of subexpression types is written, in
/// list order.
pub open spec fn types_reset_model(
    m: Seq<NodeEntryModel>,
    pairs: Seq<(AstNodeId, Option<Seq<char>>)>,
) -> Seq<NodeEntryModel>
    decreases pairs.len(),
{
    if pairs.len() == 0 {
        m
    } else {
        type_set_once(
            types_reset_model(m, pairs.drop_last()),
            pairs.last().0,
            pairs.last().1,
        )
    }
}

/// The node table after the cached method pointer of subexpression `id` is
/// set to `t`, in the same shape as [`type_set_once`].
pub open spec fn method_pointer_set_once(
    m: Seq<NodeEntryModel>,
    id: AstNodeId,
    t: Option<Seq<char>>,
) -> Seq<NodeEntryModel> {
    let i = find_index(m, has_sub_pred(id));
    if i < 0 {
        m
    } else {
        let e = m[i];
        let k = find_index(e.subexpressions, sub_id_pred(id));
        if k < 0 {
            m
        } else {
            m.update(
                i,
                NodeEntryModel {
                    subexpressions: e.subexpressions.update(
                        k,
                        SubexpressionModel { method_pointer: t, ..e.subexpressions[k] },
                    ),
                    ..e
                },
            )
        }
    }
}

/// Whether writing method pointer `t` for subexpression `id` into the table
/// `m` changes a cache: some entry caches `id` and holds a different value.
pub open spec fn emits_method_pointer(
    m: Seq<NodeEntryModel>,
    id: AstNodeId,
    t: Option<Seq<char>>,
) -> bool {
    let i = find_index(m, has_sub_pred(id));
    i >= 0 && {
        let e = m[i];
        let k = find_index(e.subexpressions, sub_id_pred(id));
        k >= 0 && e.subexpressions[k].method_pointer != t
    }
}

/// The node table after a whole list of method pointers is written, in list
/// order.
pub open spec fn method_pointers_after(
    m: Seq<NodeEntryModel>,
    pairs: Seq<(AstNodeId, Option<Seq<char>>)>,
) -> Seq<NodeEntryModel>
    decreases pairs.len(),
{
    if pairs.len() == 0 {
        m
    } else {
        method_pointer_set_once(
            method_pointers_after(m, pairs.drop_last()),
            pairs.last().0,
            pairs.last().1,
        )
    }
}

/// The view events a batch method-pointer refresh emits: one per listed
/// pair that changes a cache at the moment it is written, in list order.
pub open spec fn method_pointer_updates(
    m: Seq<NodeEntryModel>,
    pairs: Seq<(AstNodeId, Option<Seq<char>>)>,
) -> Seq<(AstNodeId, Option<Seq<char>>)>
    decreases pairs.len(),
{
    if pairs.len() == 0 {
        Seq::empty()
    } else {
        let rest = method_pointer_updates(m, pairs.drop_last());
        let before = method_pointers_after(m, pairs.drop_last());
        if emits_method_pointer(before, pairs.last().0, pairs.last().1) {
            rest.push(pairs.last())
        } else {
            rest
        }
    }
}



/// When some entry caches subexpression `id`, both cache-write indices are
/// in range.
pub proof fn lemma_cache_write_indices(s: State, id: AstNodeId)
    requires
        s.sub_owner_index(id) >= 0,
    ensures
        0 <= s.sub_owner_index(id) < s.nodes_model().len(),
        has_sub(s.nodes_model()[s.sub_owner_index(id)], id),
        0 <= s.sub_index(s.sub_owner_index(id), id) < s.nodes_model()[s.sub_owner_index(
            id,
        )].subexpressions.len(),
        s.nodes_model()[s.sub_owner_index(id)].subexpressions[s.sub_index(
            s.sub_owner_index(id),
            id,
        )].id == id,
{
    let m = s.nodes_model();
    lemma_find_index(m, has_sub_pred(id));
    let i: int = s.sub_owner_index(id);
    assert(has_sub(m[i], id));
    let subs = m[i].subexpressions;
    lemma_find_index(subs, sub_id_pred(id));
    if s.sub_index(i, id) == -1 {
        let w = choose|w: int| 0 <= w < subs.len() && subs[w].id == id;
        assert(sub_id_pred(id)(subs[w]));
    }
}


} // verus!
