//! The cross-tree invariants of the store: every key parses under its
//! tree's schema, the edges tree and the forward range tree agree, the
//! reversed range tree mirrors the forward one, every property row has its
//! value-index entry and the value indices hold nothing else, and every
//! edge property belongs to a present edge.

use vstd::prelude::*;
use crate::bytes::is_prefix_of;
use crate::codec::{edge_key, ep_key, json_hash, prop_key, value_index_key};
use crate::datastore::SledHolder;
use crate::edge_property_manager::{ep_wf, epv_wf};
use crate::edge_range_manager::edges_wf;
use crate::kv::tree_view;
use crate::vertex_manager::vertices_wf;
use crate::vertex_property_manager::{vp_wf, vpv_wf};

verus! {

/// The vertex value index lists exactly the stored vertex properties.
pub open spec fn vpv_exact(vp: Map<Seq<u8>, Seq<u8>>, vpv: Map<Seq<u8>, Seq<u8>>) -> bool {
    &&& forall|id: Seq<u8>, n: Seq<u8>|
        #![trigger prop_key(id, n)]
        id.len() == 16 && n.len() <= 255 && vp.contains_key(prop_key(id, n))
            ==> vpv.contains_key(value_index_key(n, json_hash(vp[prop_key(id, n)]), id))
    &&& forall|n: Seq<u8>, h: u64, id: Seq<u8>|
        #![trigger value_index_key(n, h, id)]
        vpv.contains_key(value_index_key(n, h, id)) && id.len() == 16 && n.len() <= 255
            ==> vp.contains_key(prop_key(id, n)) && json_hash(vp[prop_key(id, n)]) == h
}

/// The edge value index lists exactly the stored edge properties.
pub open spec fn epv_exact(ep: Map<Seq<u8>, Seq<u8>>, epv: Map<Seq<u8>, Seq<u8>>) -> bool {
    &&& forall|o: Seq<u8>, t: Seq<u8>, i: Seq<u8>, n: Seq<u8>|
        #![trigger ep_key(o, t, i, n)]
        o.len() == 16 && t.len() <= 255 && i.len() == 16 && n.len() <= 255 && ep.contains_key(
            ep_key(o, t, i, n),
        ) ==> epv.contains_key(
            value_index_key(n, json_hash(ep[ep_key(o, t, i, n)]), edge_key(o, t, i)),
        )
    &&& forall|n: Seq<u8>, h: u64, o: Seq<u8>, t: Seq<u8>, i: Seq<u8>|
        #![trigger value_index_key(n, h, edge_key(o, t, i))]
        epv.contains_key(value_index_key(n, h, edge_key(o, t, i))) && o.len() == 16 && t.len()
            <= 255 && i.len() == 16 && n.len() <= 255 ==> ep.contains_key(ep_key(o, t, i, n))
            && json_hash(ep[ep_key(o, t, i, n)]) == h
}

/// Every edge property belongs to an edge the forward range tree lists.
pub open spec fn ep_backed(ep: Map<Seq<u8>, Seq<u8>>, f: Map<Seq<u8>, Seq<u8>>) -> bool {
    forall|o: Seq<u8>, t: Seq<u8>, i: Seq<u8>, n: Seq<u8>|
        #![trigger ep_key(o, t, i, n)]
        o.len() == 16 && t.len() <= 255 && i.len() == 16 && n.len() <= 255 && ep.contains_key(
            ep_key(o, t, i, n),
        ) ==> f.contains_key(edge_key(o, t, i))
}

/// The edges tree and the forward range tree hold the same keys, and the
/// reversed range tree mirrors the forward one.
pub open spec fn ranges_consistent(
    e: Map<Seq<u8>, Seq<u8>>,
    f: Map<Seq<u8>, Seq<u8>>,
    r: Map<Seq<u8>, Seq<u8>>,
) -> bool {
    &&& forall|k: Seq<u8>|
        #![trigger e.contains_key(k)]
        #![trigger f.contains_key(k)]
        e.contains_key(k) <==> f.contains_key(k)
    &&& forall|o: Seq<u8>, t: Seq<u8>, i: Seq<u8>|
        #![trigger edge_key(o, t, i)]
        o.len() == 16 && t.len() <= 255 && i.len() == 16 ==> (f.contains_key(edge_key(o, t, i))
            <==> r.contains_key(edge_key(i, t, o)))
}

/// The whole-store invariant.
pub open spec fn holder_wf(h: SledHolder) -> bool {
    &&& vertices_wf(tree_view(h.vertices))
    &&& edges_wf(tree_view(h.edges))
    &&& edges_wf(tree_view(h.edge_ranges))
    &&& edges_wf(tree_view(h.reversed_edge_ranges))
    &&& ranges_consistent(
        tree_view(h.edges),
        tree_view(h.edge_ranges),
        tree_view(h.reversed_edge_ranges),
    )
    &&& vp_wf(tree_view(h.vertex_properties))
    &&& vpv_wf(tree_view(h.vertex_property_values))
    &&& vpv_exact(tree_view(h.vertex_properties), tree_view(h.vertex_property_values))
    &&& ep_wf(tree_view(h.edge_properties))
    &&& epv_wf(tree_view(h.edge_property_values))
    &&& epv_exact(tree_view(h.edge_properties), tree_view(h.edge_property_values))
    &&& ep_backed(tree_view(h.edge_properties), tree_view(h.edge_ranges))
}

/// No key of `m` begins with `p`.
pub open spec fn no_key_with_prefix(m: Map<Seq<u8>, Seq<u8>>, p: Seq<u8>) -> bool {
    forall|k: Seq<u8>| #[trigger] m.contains_key(k) ==> !is_prefix_of(p, k)
}

/// `m` holds no edge key with `id` as either endpoint.
pub open spec fn no_edge_with_endpoint(m: Map<Seq<u8>, Seq<u8>>, id: Seq<u8>) -> bool {
    forall|o: Seq<u8>, t: Seq<u8>, i: Seq<u8>|
        #![trigger edge_key(o, t, i)]
        o.len() == 16 && t.len() <= 255 && i.len() == 16 && (o == id || i == id)
            ==> !m.contains_key(edge_key(o, t, i))
}

/// `m` holds no edge property key whose edge has `id` as an endpoint.
pub open spec fn no_ep_with_endpoint(m: Map<Seq<u8>, Seq<u8>>, id: Seq<u8>) -> bool {
    forall|o: Seq<u8>, t: Seq<u8>, i: Seq<u8>, n: Seq<u8>|
        #![trigger ep_key(o, t, i, n)]
        o.len() == 16 && t.len() <= 255 && i.len() == 16 && n.len() <= 255 && (o == id || i
            == id) ==> !m.contains_key(ep_key(o, t, i, n))
}

/// `m` holds no edge value-index key whose edge has `id` as an endpoint.
pub open spec fn no_epv_with_endpoint(m: Map<Seq<u8>, Seq<u8>>, id: Seq<u8>) -> bool {
    forall|n: Seq<u8>, h: u64, o: Seq<u8>, t: Seq<u8>, i: Seq<u8>|
        #![trigger value_index_key(n, h, edge_key(o, t, i))]
        o.len() == 16 && t.len() <= 255 && i.len() == 16 && n.len() <= 255 && (o == id || i
            == id) ==> !m.contains_key(value_index_key(n, h, edge_key(o, t, i)))
}

/// `m` holds no vertex value-index key owned by `id`.
pub open spec fn no_vpv_with_owner(m: Map<Seq<u8>, Seq<u8>>, id: Seq<u8>) -> bool {
    forall|n: Seq<u8>, h: u64|
        #![trigger value_index_key(n, h, id)]
        n.len() <= 255 ==> !m.contains_key(value_index_key(n, h, id))
}

/// `m1` holds a subset of `m0`'s rows, values unchanged.
pub open spec fn shrunk(m0: Map<Seq<u8>, Seq<u8>>, m1: Map<Seq<u8>, Seq<u8>>) -> bool {
    forall|k: Seq<u8>| #[trigger] m1.contains_key(k) ==> m0.contains_key(k) && m1[k] == m0[k]
}

/// Every edge key of `m0` with both endpoints different from `id` is still
/// in `m1`.
pub open spec fn edges_kept(
    m0: Map<Seq<u8>, Seq<u8>>,
    m1: Map<Seq<u8>, Seq<u8>>,
    id: Seq<u8>,
) -> bool {
    forall|o: Seq<u8>, t: Seq<u8>, i: Seq<u8>|
        #![trigger edge_key(o, t, i)]
        o.len() == 16 && t.len() <= 255 && i.len() == 16 && o != id && i != id
            && m0.contains_key(edge_key(o, t, i)) ==> m1.contains_key(edge_key(o, t, i))
}

/// Every edge property of `m0` whose edge avoids `id` is still in `m1`.
pub open spec fn eps_kept(
    m0: Map<Seq<u8>, Seq<u8>>,
    m1: Map<Seq<u8>, Seq<u8>>,
    id: Seq<u8>,
) -> bool {
    forall|o: Seq<u8>, t: Seq<u8>, i: Seq<u8>, n: Seq<u8>|
        #![trigger ep_key(o, t, i, n)]
        o.len() == 16 && t.len() <= 255 && i.len() == 16 && n.len() <= 255 && o != id && i != id
            && m0.contains_key(ep_key(o, t, i, n)) ==> m1.contains_key(ep_key(o, t, i, n))
}

/// Every edge value-index entry of `m0` whose edge avoids `id` is still in
/// `m1`.
pub open spec fn epvs_kept(
    m0: Map<Seq<u8>, Seq<u8>>,
    m1: Map<Seq<u8>, Seq<u8>>,
    id: Seq<u8>,
) -> bool {
    forall|n: Seq<u8>, h: u64, o: Seq<u8>, t: Seq<u8>, i: Seq<u8>|
        #![trigger value_index_key(n, h, edge_key(o, t, i))]
        o.len() == 16 && t.len() <= 255 && i.len() == 16 && n.len() <= 255 && o != id && i != id
            && m0.contains_key(value_index_key(n, h, edge_key(o, t, i))) ==> m1.contains_key(
            value_index_key(n, h, edge_key(o, t, i)),
        )
}

/// Every vertex value-index entry of `m0` owned by another id is still in
/// `m1`.
pub open spec fn vpvs_kept(
    m0: Map<Seq<u8>, Seq<u8>>,
    m1: Map<Seq<u8>, Seq<u8>>,
    id: Seq<u8>,
) -> bool {
    forall|n: Seq<u8>, h: u64, ow: Seq<u8>|
        #![trigger value_index_key(n, h, ow)]
        n.len() <= 255 && ow != id && m0.contains_key(value_index_key(n, h, ow))
            ==> m1.contains_key(value_index_key(n, h, ow))
}

} // verus!

verus! {

/// Some of the first `upto` keys is a prefix of `k`.
pub open spec fn prefixed_by_any(keys: Seq<Seq<u8>>, upto: int, k: Seq<u8>) -> bool {
    exists|a: int| 0 <= a < upto && is_prefix_of(#[trigger] keys[a], k)
}

/// `ik` derives from a property one of the first `upto` owners holds in
/// `pm`.
pub open spec fn derived_of_any(
    keys: Seq<Seq<u8>>,
    upto: int,
    pm: Map<Seq<u8>, Seq<u8>>,
    ik: Seq<u8>,
) -> bool {
    exists|a: int| 0 <= a < upto && crate::codec::derived_index_entry(pm, #[trigger] keys[a], ik)
}

/// Every index key derived from a property of the first `upto` owners is
/// absent from `cur`.
pub open spec fn all_derived_gone(
    keys: Seq<Seq<u8>>,
    upto: int,
    pm: Map<Seq<u8>, Seq<u8>>,
    cur: Map<Seq<u8>, Seq<u8>>,
) -> bool {
    forall|a: int, n: Seq<u8>|
        #![trigger prop_key(keys[a], n)]
        0 <= a < upto && pm.contains_key(prop_key(keys[a], n)) && n.len() <= 255
            ==> !cur.contains_key(
            value_index_key(n, json_hash(pm[prop_key(keys[a], n)]), keys[a]),
        )
}

/// One of the first `upto` keys equals `k`.
pub open spec fn among(keys: Seq<Seq<u8>>, upto: int, k: Seq<u8>) -> bool {
    exists|a: int| 0 <= a < upto && #[trigger] keys[a] == k
}

} // verus!

verus! {

use crate::codec::{index_stripped, props_stripped};

/// What deleting a vertex does, stated tree by tree: the vertex row is
/// gone, its properties and their index entries are gone, the edge trees
/// only shrank, both range trees hold nothing under the vertex's prefix,
/// and every row whose key avoids the vertex survives unchanged.
pub open spec fn vertex_delete_post(h0: SledHolder, h1: SledHolder, id: Seq<u8>) -> bool {
    &&& tree_view(h1.vertices) == tree_view(h0.vertices).remove(id)
    &&& props_stripped(
        tree_view(h0.vertex_properties),
        id,
        tree_view(h1.vertex_properties),
    )
    &&& index_stripped(
        tree_view(h0.vertex_properties),
        id,
        tree_view(h0.vertex_property_values),
        tree_view(h1.vertex_property_values),
    )
    &&& shrunk(tree_view(h0.edges), tree_view(h1.edges))
    &&& shrunk(tree_view(h0.edge_ranges), tree_view(h1.edge_ranges))
    &&& shrunk(tree_view(h0.reversed_edge_ranges), tree_view(h1.reversed_edge_ranges))
    &&& shrunk(tree_view(h0.edge_properties), tree_view(h1.edge_properties))
    &&& shrunk(tree_view(h0.edge_property_values), tree_view(h1.edge_property_values))
    &&& no_key_with_prefix(tree_view(h1.edge_ranges), id)
    &&& no_key_with_prefix(tree_view(h1.reversed_edge_ranges), id)
    &&& edges_kept(tree_view(h0.edges), tree_view(h1.edges), id)
    &&& edges_kept(tree_view(h0.edge_ranges), tree_view(h1.edge_ranges), id)
    &&& edges_kept(
        tree_view(h0.reversed_edge_ranges),
        tree_view(h1.reversed_edge_ranges),
        id,
    )
    &&& eps_kept(tree_view(h0.edge_properties), tree_view(h1.edge_properties), id)
    &&& epvs_kept(tree_view(h0.edge_property_values), tree_view(h1.edge_property_values), id)
    &&& vpvs_kept(
        tree_view(h0.vertex_property_values),
        tree_view(h1.vertex_property_values),
        id,
    )
    &&& h1.db == h0.db && h1.metadata == h0.metadata
}

/// After a cascade under the store invariant, no surviving row anywhere
/// references the vertex.
pub open spec fn vertex_delete_absent(h1: SledHolder, id: Seq<u8>) -> bool {
    &&& no_edge_with_endpoint(tree_view(h1.edges), id)
    &&& no_edge_with_endpoint(tree_view(h1.edge_ranges), id)
    &&& no_edge_with_endpoint(tree_view(h1.reversed_edge_ranges), id)
    &&& no_ep_with_endpoint(tree_view(h1.edge_properties), id)
    &&& no_epv_with_endpoint(tree_view(h1.edge_property_values), id)
    &&& no_vpv_with_owner(tree_view(h1.vertex_property_values), id)
}

} // verus!

verus! {

/// A freshly created store satisfies the whole-store invariant: every
/// clause quantifies over rows, and there are none.
pub proof fn lemma_empty_store_wf(h: SledHolder)
    requires
        h.all_empty(),
    ensures
        holder_wf(h),
{
}

} // verus!
