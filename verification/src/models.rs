//! The graph model: vertices, edges, and property values as the engine
//! stores them.

use vstd::prelude::*;
use crate::codec::{edge_key, Ident, Uid};

verus! {

/// A vertex: a 16-byte id carrying one typed label.
pub struct Vertex {
    pub id: Uid,
    pub t: Ident,
}

impl Vertex {
    pub open spec fn wf(&self) -> bool {
        self.t.wf()
    }

    pub fn new(id: Uid, t: Ident) -> (r: Vertex)
        ensures
            r.id == id && r.t == t,
    {
        Vertex { id, t }
    }
}

/// A directed typed edge between two vertices.  Existence only: it carries
/// no further attributes.
pub struct Edge {
    pub outbound_id: Uid,
    pub t: Ident,
    pub inbound_id: Uid,
}

impl Edge {
    pub open spec fn wf(&self) -> bool {
        self.t.wf()
    }

    /// Key of this edge in the edges tree and the forward range tree.
    pub open spec fn key(&self) -> Seq<u8> {
        edge_key(self.outbound_id@, self.t@, self.inbound_id@)
    }

    /// Key of this edge in the reversed range tree.
    pub open spec fn reversed_key(&self) -> Seq<u8> {
        edge_key(self.inbound_id@, self.t@, self.outbound_id@)
    }

    pub fn new(outbound_id: Uid, t: Ident, inbound_id: Uid) -> (r: Edge)
        ensures
            r.outbound_id == outbound_id && r.t == t && r.inbound_id == inbound_id,
    {
        Edge { outbound_id, t, inbound_id }
    }

    /// An owned copy.
    pub fn dup(&self) -> (r: Edge)
        ensures
            r.outbound_id == self.outbound_id && r.t@ == self.t@ && r.inbound_id
                == self.inbound_id,
    {
        Edge { outbound_id: self.outbound_id, t: self.t.dup(), inbound_id: self.inbound_id }
    }
}

/// The same edge seen from its inbound endpoint: what the reversed range
/// tree stores.
pub fn reverse_edge(edge: &Edge) -> (r: Edge)
    ensures
        r.outbound_id == edge.inbound_id,
        r.t@ == edge.t@,
        r.inbound_id == edge.outbound_id,
{
    Edge { outbound_id: edge.inbound_id, t: edge.t.dup(), inbound_id: edge.outbound_id }
}

/// A property value: the serialized byte form of a JSON value.  The engine
/// treats it as opaque bytes; only its canonical hash enters index keys.
pub struct PropValue {
    pub bytes: Vec<u8>,
}

impl View for PropValue {
    type V = Seq<u8>;

    open spec fn view(&self) -> Seq<u8> {
        self.bytes@
    }
}

impl PropValue {
    pub fn new(bytes: Vec<u8>) -> (r: PropValue)
        ensures
            r@ == bytes@,
    {
        PropValue { bytes }
    }

    pub fn as_bytes(&self) -> (r: &Vec<u8>)
        ensures
            r@ == self@,
    {
        &self.bytes
    }

    /// An owned copy.
    pub fn dup(&self) -> (r: PropValue)
        ensures
            r@ == self@,
    {
        PropValue { bytes: crate::codec::copy_bytes(&self.bytes) }
    }
}

/// One item of a bulk insert.
pub enum BulkInsertItem {
    Vertex(Vertex),
    Edge(Edge),
    VertexProperty(Uid, Ident, PropValue),
    EdgeProperty(Edge, Ident, PropValue),
}

} // verus!
