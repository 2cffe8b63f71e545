//! Controller snapshots: the full node and connection listing fetched from
//! the controller at the start of a refresh cycle.

use vstd::prelude::*;

use crate::ids::AstNodeId;
use crate::ids::Connection;
use crate::ids::ConnectionModel;
use crate::ids::Position;
use crate::ids::contains_connection;

verus! {

/// First index of `s` satisfying `p`, or `-1` when no element does.
pub open spec fn find_index<T>(s: Seq<T>, p: spec_fn(T) -> bool) -> int
    decreases s.len(),
{
    if s.len() == 0 {
        -1
    } else if p(s[0]) {
        0
    } else {
        let r = find_index(s.drop_first(), p);
        if r < 0 {
            -1
        } else {
            r + 1
        }
    }
}

/// The defining properties of [`find_index`].
pub proof fn lemma_find_index<T>(s: Seq<T>, p: spec_fn(T) -> bool)
    ensures
        find_index(s, p) == -1 ==> (forall|i: int| 0 <= i < s.len() ==> !p(s[i])),
        find_index(s, p) != -1 ==> 0 <= find_index(s, p) < s.len() && p(s[find_index(s, p)])
            && (forall|i: int| 0 <= i < find_index(s, p) ==> !p(s[i])),
    decreases s.len(),
{
    if s.len() > 0 && !p(s[0]) {
        let rest = s.drop_first();
        lemma_find_index(rest, p);
        assert(forall|i: int| 0 <= i < rest.len() ==> rest[i] == s[i + 1]);
        let r = find_index(rest, p);
        if r == -1 {
            assert(forall|i: int| 0 <= i < s.len() ==> !p(s[i])) by {
                assert(forall|i: int| 1 <= i < s.len() ==> s[i] == rest[i - 1]);
            }
        } else {
            assert(p(s[r + 1]));
            assert(forall|i: int| 1 <= i < r + 1 ==> s[i] == rest[i - 1]);
        }
    }
}

/// If `i` is the first index satisfying `p`, then [`find_index`] returns `i`.
pub proof fn lemma_find_index_at<T>(s: Seq<T>, p: spec_fn(T) -> bool, i: int)
    requires
        0 <= i < s.len(),
        p(s[i]),
        forall|j: int| 0 <= j < i ==> !p(s[j]),
    ensures
        find_index(s, p) == i,
    decreases s.len(),
{
    if i > 0 {
        assert(forall|j: int| 0 <= j < s.drop_first().len() ==> s.drop_first()[j] == s[j + 1]);
        lemma_find_index_at(s.drop_first(), p, i - 1);
    }
}

/// If no index satisfies `p`, then [`find_index`] returns `-1`.
pub proof fn lemma_find_index_none<T>(s: Seq<T>, p: spec_fn(T) -> bool)
    requires
        forall|j: int| 0 <= j < s.len() ==> !p(s[j]),
    ensures
        find_index(s, p) == -1,
    decreases s.len(),
{
    if s.len() > 0 {
        assert(forall|j: int| 0 <= j < s.drop_first().len() ==> s.drop_first()[j] == s[j + 1]);
        lemma_find_index_none(s.drop_first(), p);
    }
}

/// One node as listed by the controller: identity, expression text, the ids
/// of the subexpressions of the expression, and the optional metadata
/// attributes (position, visualization path).
#[derive(Clone, Debug)]
pub struct NodeSnapshot {
    pub id: AstNodeId,
    pub expression: String,
    pub subexpressions: Vec<AstNodeId>,
    pub position: Option<Position>,
    pub visualization: Option<String>,
}

/// Mathematical value of a [`NodeSnapshot`].
#[verifier::ext_equal]
pub struct NodeSnapshotModel {
    pub id: AstNodeId,
    pub expression: Seq<char>,
    pub subexpressions: Seq<AstNodeId>,
    pub position: Option<Position>,
    pub visualization: Option<Seq<char>>,
}

impl View for NodeSnapshot {
    type V = NodeSnapshotModel;

    open spec fn view(&self) -> NodeSnapshotModel {
        NodeSnapshotModel {
            id: self.id,
            expression: self.expression@,
            subexpressions: self.subexpressions@,
            position: self.position,
            visualization: match self.visualization {
                Some(ref s) => Some(s@),
                None => None,
            },
        }
    }
}

/// A fetch of the controller state failed; the refresh cycle that requested
/// it is aborted entirely.
#[derive(Clone, Copy, Debug, PartialEq, Eq, Structural)]
pub enum FetchError {
    /// The node listing could not be fetched.
    Nodes,
    /// The connection listing could not be fetched.
    Connections,
}

/// The full node and connection listing fetched from the controller at the
/// start of a refresh cycle.
#[derive(Clone, Debug)]
pub struct Snapshot {
    pub nodes: Vec<NodeSnapshot>,
    pub connections: Vec<Connection>,
}

/// First index of the snapshot node with id `a`, or `-1`.
pub open spec fn snap_find(s: Seq<NodeSnapshotModel>, a: AstNodeId) -> int {
    find_index(s, |n: NodeSnapshotModel| n.id == a)
}

/// Whether the snapshot lists a node with id `a`.
pub open spec fn snap_has(s: Seq<NodeSnapshotModel>, a: AstNodeId) -> bool {
    exists|i: int| 0 <= i < s.len() && s[i].id == a
}

impl Snapshot {
    /// Mathematical value of the node listing.
    pub open spec fn nodes_model(self) -> Seq<NodeSnapshotModel> {
        Seq::new(self.nodes@.len(), |i: int| self.nodes@[i]@)
    }

    /// Mathematical value of the connection listing.
    pub open spec fn connections_model(self) -> Seq<ConnectionModel> {
        Seq::new(self.connections@.len(), |i: int| self.connections@[i]@)
    }

    /// Whether the snapshot lists a node with id `a`.
    pub open spec fn has_id(self, a: AstNodeId) -> bool {
        snap_has(self.nodes_model(), a)
    }

    /// Whether the snapshot lists the connection `c`.
    pub open spec fn has_connection(self, c: ConnectionModel) -> bool {
        contains_connection(self.connections_model(), c)
    }

    /// A well-formed snapshot lists each node and each connection once.
    pub open spec fn wf(self) -> bool {
        &&& (forall|i: int, j: int|
            0 <= i < j < self.nodes_model().len() ==> self.nodes_model()[i].id
                != self.nodes_model()[j].id)
        &&& (forall|i: int, j: int|
            0 <= i < j < self.connections_model().len() ==> !(self.connections_model()[i]
                =~= self.connections_model()[j]))
    }
}


/// Two sequences on which `p1` and `p2` agree pointwise have the same first
/// match.
pub proof fn lemma_find_index_same<T>(
    m1: Seq<T>,
    m2: Seq<T>,
    p1: spec_fn(T) -> bool,
    p2: spec_fn(T) -> bool,
)
    requires
        m1.len() == m2.len(),
        forall|k: int| 0 <= k < m1.len() ==> p1(m1[k]) == p2(m2[k]),
    ensures
        find_index(m1, p1) == find_index(m2, p2),
    decreases m1.len(),
{
    if m1.len() > 0 {
        assert(forall|k: int| 0 <= k < m1.drop_first().len() ==> m1.drop_first()[k] == m1[k + 1]);
        assert(forall|k: int| 0 <= k < m2.drop_first().len() ==> m2.drop_first()[k] == m2[k + 1]);
        lemma_find_index_same(m1.drop_first(), m2.drop_first(), p1, p2);
    }
}

/// How the first match moves under a push at the end.
pub proof fn lemma_find_index_push<T>(m: Seq<T>, p: spec_fn(T) -> bool, x: T)
    ensures
        find_index(m, p) >= 0 ==> find_index(m.push(x), p) == find_index(m, p),
        find_index(m, p) == -1 && p(x) ==> find_index(m.push(x), p) == m.len(),
        find_index(m, p) == -1 && !p(x) ==> find_index(m.push(x), p) == -1,
{
    lemma_find_index(m, p);
    let e = m.push(x);
    assert(forall|k: int| 0 <= k < m.len() ==> e[k] == m[k]);
    assert(e[m.len() as int] == x);
    if find_index(m, p) >= 0 {
        lemma_find_index_at(e, p, find_index(m, p));
    } else if p(x) {
        lemma_find_index_at(e, p, m.len() as int);
    } else {
        lemma_find_index_none(e, p);
    }
}


} // verus!
