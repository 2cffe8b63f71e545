//! Identities and plain value types shared by the engine's components.

use vstd::prelude::*;

verus! {

/// Stable identity of a node in the backend program representation.
pub type AstNodeId = u64;

/// Identity assigned by the presentation layer when a node is rendered.
pub type ViewNodeId = u64;

/// Identity assigned by the presentation layer when a connection is rendered.
pub type ViewConnectionId = u64;

/// A 2D position of a node on the canvas, in integral canvas units.
#[derive(Clone, Copy, Debug, PartialEq, Eq, Structural)]
pub struct Position {
    pub x: i64,
    pub y: i64,
}

/// One endpoint of a connection: a node plus the path of the port within the
/// node's expression tree.
#[derive(Clone, Debug)]
pub struct Endpoint {
    pub node: AstNodeId,
    pub port: Vec<u64>,
}

/// A connection between two node ports, in controller identities.
#[derive(Clone, Debug)]
pub struct Connection {
    pub source: Endpoint,
    pub target: Endpoint,
}

/// Mathematical value of an [`Endpoint`].
#[verifier::ext_equal]
pub struct EndpointModel {
    pub node: AstNodeId,
    pub port: Seq<u64>,
}

/// Mathematical value of a [`Connection`].
#[verifier::ext_equal]
pub struct ConnectionModel {
    pub source: EndpointModel,
    pub target: EndpointModel,
}

impl View for Endpoint {
    type V = EndpointModel;

    open spec fn view(&self) -> EndpointModel {
        EndpointModel { node: self.node, port: self.port@ }
    }
}

impl View for Connection {
    type V = ConnectionModel;

    open spec fn view(&self) -> ConnectionModel {
        ConnectionModel { source: self.source@, target: self.target@ }
    }
}

/// Whether two `u64` vectors hold the same elements in the same order.
pub fn u64_vec_eq(a: &Vec<u64>, b: &Vec<u64>) -> (r: bool)
    ensures
        r == (a@ =~= b@),
{
    if a.len() != b.len() {
        return false;
    }
    let mut i: usize = 0;
    while i < a.len()
        invariant
            i <= a.len(),
            a.len() == b.len(),
            forall|j: int| 0 <= j < i ==> a@[j] == b@[j],
        decreases a.len() - i,
    {
        if a[i] != b[i] {
            return false;
        }
        i += 1;
    }
    true
}

/// Whether two endpoints denote the same port of the same node.
pub fn endpoint_eq(a: &Endpoint, b: &Endpoint) -> (r: bool)
    ensures
        r == (a@ =~= b@),
{
    a.node == b.node && u64_vec_eq(&a.port, &b.port)
}

/// Whether two connections join the same ports.
pub fn connection_eq(a: &Connection, b: &Connection) -> (r: bool)
    ensures
        r == (a@ =~= b@),
{
    let r = endpoint_eq(&a.source, &b.source) && endpoint_eq(&a.target, &b.target);
    proof {
        if r {
            assert(a@ =~= b@);
        } else {
            assert(!(a@ =~= b@));
        }
    }
    r
}

/// Whether the connection sequence `s` holds a connection with value `c`.
pub open spec fn contains_connection(s: Seq<ConnectionModel>, c: ConnectionModel) -> bool {
    exists|i: int| 0 <= i < s.len() && s[i] =~= c
}


/// One endpoint of a connection in view identities.
#[derive(Clone, Debug)]
pub struct ViewEndpoint {
    pub node: ViewNodeId,
    pub port: Vec<u64>,
}

/// Mathematical value of a [`ViewEndpoint`].
#[verifier::ext_equal]
pub struct ViewEndpointModel {
    pub node: ViewNodeId,
    pub port: Seq<u64>,
}

impl View for ViewEndpoint {
    type V = ViewEndpointModel;

    open spec fn view(&self) -> ViewEndpointModel {
        ViewEndpointModel { node: self.node, port: self.port@ }
    }
}

/// An exact copy of a port path.
#[verifier::loop_isolation(false)]
pub fn clone_ports(p: &Vec<u64>) -> (r: Vec<u64>)
    ensures
        r@ =~= p@,
{
    let mut r: Vec<u64> = Vec::new();
    let mut i: usize = 0;
    while i < p.len()
        invariant
            i <= p@.len(),
            r@ =~= p@.take(i as int),
        decreases p@.len() - i,
    {
        r.push(p[i]);
        i += 1;
    }
    r
}

/// An exact copy of an endpoint.
pub fn clone_endpoint(e: &Endpoint) -> (r: Endpoint)
    ensures
        r@ =~= e@,
{
    Endpoint { node: e.node, port: clone_ports(&e.port) }
}

/// An exact copy of a connection.
pub fn clone_connection(c: &Connection) -> (r: Connection)
    ensures
        r@ =~= c@,
{
    Connection { source: clone_endpoint(&c.source), target: clone_endpoint(&c.target) }
}


} // verus!
