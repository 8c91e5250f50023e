//! The store's laws, stated over the tree views that the operation
//! contracts speak of.  Each law is proved from the map transforms that the
//! operations' `ensures` clauses give, so together with those contracts it
//! holds of every run of the engine.

use vstd::prelude::*;
use crate::bytes::is_prefix_of;
use crate::codec::{
    edge_key, enc_ident, json_hash, lemma_prefix16, lemma_prop_key_facts, prop_key,
    value_index_key, Ident, Uid,
};
use crate::datastore::SledHolder;
use crate::invariants::{
    holder_wf, no_edge_with_endpoint, no_key_with_prefix, no_vpv_with_owner,
    vertex_delete_absent, vertex_delete_post,
};
use crate::kv::tree_view;
use crate::models::{Edge, PropValue};
use crate::vertex_property_manager::index_after_set;

verus! {

/// A created edge has its row in the edges tree, the forward range tree,
/// and the reversed range tree, and a later deletion of an unrelated
/// vertex leaves all three rows in place.
pub proof fn lemma_edge_rows_survive_unrelated_delete(
    h0: SledHolder,
    h1: SledHolder,
    id: Seq<u8>,
    o: Seq<u8>,
    t: Seq<u8>,
    i: Seq<u8>,
)
    requires
        vertex_delete_post(h0, h1, id),
        o.len() == 16 && t.len() <= 255 && i.len() == 16,
        o != id && i != id,
        tree_view(h0.edges).contains_key(edge_key(o, t, i)),
        tree_view(h0.edge_ranges).contains_key(edge_key(o, t, i)),
        tree_view(h0.reversed_edge_ranges).contains_key(edge_key(i, t, o)),
    ensures
        tree_view(h1.edges).contains_key(edge_key(o, t, i)),
        tree_view(h1.edge_ranges).contains_key(edge_key(o, t, i)),
        tree_view(h1.reversed_edge_ranges).contains_key(edge_key(i, t, o)),
{
}

/// After a vertex is deleted under the store invariant, no surviving row
/// in any of the seven graph trees references it: not its own row, none of
/// its properties or their index entries, no edge with it as an endpoint
/// in any orientation, and none of those edges' properties or index
/// entries.
pub proof fn lemma_deleted_vertex_unreferenced(h0: SledHolder, h1: SledHolder, id: Seq<u8>)
    requires
        holder_wf(h0),
        vertex_delete_post(h0, h1, id),
        vertex_delete_absent(h1, id),
    ensures
        !tree_view(h1.vertices).contains_key(id),
        no_key_with_prefix(tree_view(h1.vertex_properties), id),
        no_vpv_with_owner(tree_view(h1.vertex_property_values), id),
        no_key_with_prefix(tree_view(h1.edge_ranges), id),
        no_key_with_prefix(tree_view(h1.reversed_edge_ranges), id),
        no_edge_with_endpoint(tree_view(h1.edges), id),
        no_edge_with_endpoint(tree_view(h1.edge_ranges), id),
        no_edge_with_endpoint(tree_view(h1.reversed_edge_ranges), id),
{
    assert forall|k: Seq<u8>| #[trigger]
        tree_view(h1.vertex_properties).contains_key(k) implies !is_prefix_of(id, k) by {
    }
}

/// A property just set is stored at its value, and its value-index entry
/// is present; a query for the name, or for the name at that value, finds
/// the owner in the index.
pub proof fn lemma_property_visible_after_set(
    pm: Map<Seq<u8>, Seq<u8>>,
    im: Map<Seq<u8>, Seq<u8>>,
    owner: Seq<u8>,
    n: Seq<u8>,
    x: Seq<u8>,
)
    ensures
        pm.insert(prop_key(owner, n), x).contains_key(prop_key(owner, n)),
        pm.insert(prop_key(owner, n), x)[prop_key(owner, n)] == x,
        index_after_set(pm, im, owner, n, x).contains_key(
            value_index_key(n, json_hash(x), owner),
        ),
{
}

/// Overwriting a property from `x` to `y` removes the old index entry and
/// writes the new one, whenever the two values differ under the canonical
/// hash.
pub proof fn lemma_overwrite_reindexes(
    pm: Map<Seq<u8>, Seq<u8>>,
    im: Map<Seq<u8>, Seq<u8>>,
    owner: Seq<u8>,
    n: Seq<u8>,
    x: Seq<u8>,
    y: Seq<u8>,
)
    requires
        json_hash(x) != json_hash(y),
    ensures
        ({
            let pm1 = pm.insert(prop_key(owner, n), x);
            let im1 = index_after_set(pm, im, owner, n, x);
            let pm2 = pm1.insert(prop_key(owner, n), y);
            let im2 = index_after_set(pm1, im1, owner, n, y);
            &&& pm2[prop_key(owner, n)] == y
            &&& !im2.contains_key(value_index_key(n, json_hash(x), owner))
            &&& im2.contains_key(value_index_key(n, json_hash(y), owner))
        }),
{
    let pm1 = pm.insert(prop_key(owner, n), x);
    let im1 = index_after_set(pm, im, owner, n, x);
    let im2 = index_after_set(pm1, im1, owner, n, y);
    assert(pm1[prop_key(owner, n)] == x);
    if value_index_key(n, json_hash(x), owner) == value_index_key(n, json_hash(y), owner) {
        crate::codec::lemma_vik_facts(n, json_hash(x), owner);
        crate::codec::lemma_vik_facts(n, json_hash(y), owner);
        crate::codec::lemma_enc_u64_injective(json_hash(x), json_hash(y));
    }
    assert(!im2.contains_key(value_index_key(n, json_hash(x), owner)));
}

/// Creating a vertex makes its row present, so a second creation of the
/// same id takes the conditional branch that returns false and leaves the
/// tree exactly as the first creation left it.
pub proof fn lemma_create_vertex_idempotent(m: Map<Seq<u8>, Seq<u8>>, id: Seq<u8>, l: Seq<u8>)
    ensures
        m.insert(id, enc_ident(l)).contains_key(id),
        m.insert(id, enc_ident(l))[id] == enc_ident(l),
{
}

/// When no edge with the vertex as an endpoint survives, an edge
/// enumeration over that tree lists no such edge.
pub proof fn lemma_no_incident_edge_listed(
    m: Map<Seq<u8>, Seq<u8>>,
    id: Seq<u8>,
    v: Seq<Edge>,
)
    requires
        no_edge_with_endpoint(m, id),
        id.len() == 16,
        forall|a: int|
            #![trigger v[a]]
            0 <= a < v.len() ==> m.contains_key(v[a].key()) && v[a].wf(),
    ensures
        forall|a: int|
            #![trigger v[a]]
            0 <= a < v.len() ==> v[a].outbound_id@ != id && v[a].inbound_id@ != id,
{
    assert forall|a: int| 0 <= a < v.len() implies #[trigger] v[a].outbound_id@ != id
        && v[a].inbound_id@ != id by {
        if v[a].outbound_id@ == id || v[a].inbound_id@ == id {
            assert(!m.contains_key(edge_key(v[a].outbound_id@, v[a].t@, v[a].inbound_id@)));
        }
    }
}

/// When no key under the owner's prefix survives, a property enumeration
/// for that owner lists nothing.
pub proof fn lemma_no_props_listed(
    m: Map<Seq<u8>, Seq<u8>>,
    owner: Seq<u8>,
    v: Seq<((Uid, Ident), PropValue)>,
)
    requires
        no_key_with_prefix(m, owner),
        owner.len() == 16,
        forall|a: int|
            #![trigger v[a]]
            0 <= a < v.len() ==> m.contains_key(prop_key(owner, v[a].0.1@)),
    ensures
        v.len() == 0,
{
    if v.len() > 0 {
        lemma_prop_key_facts(owner, v[0].0.1@);
        assert(prop_key(owner, v[0].0.1@).subrange(0, 16) == owner);
        lemma_prefix16(owner, prop_key(owner, v[0].0.1@));
        assert(m.contains_key(prop_key(owner, v[0].0.1@)));
    }
}

} // verus!

verus! {

use crate::bytes::empty_bytes;
use crate::codec::{
    ep_key, lemma_edge_key_injective, lemma_prop_key_injective, lemma_value_index_key_injective,
};
use crate::invariants::{ep_backed, epv_exact, ranges_consistent, vpv_exact};

/// Creating a vertex preserves the whole-store invariant.
pub proof fn lemma_create_vertex_preserves_wf(
    h0: SledHolder,
    h1: SledHolder,
    id: Seq<u8>,
    l: Seq<u8>,
)
    requires
        holder_wf(h0),
        id.len() == 16,
        l.len() <= 255,
        tree_view(h1.vertices) == tree_view(h0.vertices).insert(id, enc_ident(l)),
        h1.edges == h0.edges && h1.edge_ranges == h0.edge_ranges && h1.reversed_edge_ranges
            == h0.reversed_edge_ranges && h1.vertex_properties == h0.vertex_properties
            && h1.vertex_property_values == h0.vertex_property_values && h1.edge_properties
            == h0.edge_properties && h1.edge_property_values == h0.edge_property_values,
    ensures
        holder_wf(h1),
{
    let m0 = tree_view(h0.vertices);
    let m1 = tree_view(h1.vertices);
    assert forall|k: Seq<u8>| #[trigger] m1.contains_key(k) implies
        crate::vertex_manager::vertex_entry_wf(m1, k) by {
        if k == id {
            assert(m1[k] == enc_ident(l));
        } else {
            assert(m0.contains_key(k));
            assert(m1[k] == m0[k]);
        }
    }
}

/// Creating an edge preserves the whole-store invariant: the edge key goes
/// into the edges tree, the forward range tree, and (mirrored) the
/// reversed range tree together.
pub proof fn lemma_create_edge_preserves_wf(
    h0: SledHolder,
    h1: SledHolder,
    o: Seq<u8>,
    t: Seq<u8>,
    i: Seq<u8>,
)
    requires
        holder_wf(h0),
        o.len() == 16 && t.len() <= 255 && i.len() == 16,
        tree_view(h1.edges) == tree_view(h0.edges).insert(edge_key(o, t, i), empty_bytes()),
        tree_view(h1.edge_ranges) == tree_view(h0.edge_ranges).insert(
            edge_key(o, t, i),
            empty_bytes(),
        ),
        tree_view(h1.reversed_edge_ranges) == tree_view(h0.reversed_edge_ranges).insert(
            edge_key(i, t, o),
            empty_bytes(),
        ),
        h1.vertices == h0.vertices && h1.vertex_properties == h0.vertex_properties
            && h1.vertex_property_values == h0.vertex_property_values && h1.edge_properties
            == h0.edge_properties && h1.edge_property_values == h0.edge_property_values,
    ensures
        holder_wf(h1),
{
    let e1 = tree_view(h1.edges);
    let f1 = tree_view(h1.edge_ranges);
    let r1 = tree_view(h1.reversed_edge_ranges);
    let ek = edge_key(o, t, i);
    let rk = edge_key(i, t, o);
    assert forall|k: Seq<u8>| #[trigger] e1.contains_key(k) implies crate::codec::is_edge_key(
        k,
    ) by {
        if k != ek {
            assert(tree_view(h0.edges).contains_key(k));
        }
    }
    assert forall|k: Seq<u8>| #[trigger] f1.contains_key(k) implies crate::codec::is_edge_key(
        k,
    ) by {
        if k != ek {
            assert(tree_view(h0.edge_ranges).contains_key(k));
        }
    }
    assert forall|k: Seq<u8>| #[trigger] r1.contains_key(k) implies crate::codec::is_edge_key(
        k,
    ) by {
        if k != rk {
            assert(tree_view(h0.reversed_edge_ranges).contains_key(k));
        }
    }
    assert forall|o2: Seq<u8>, t2: Seq<u8>, i2: Seq<u8>|
        o2.len() == 16 && t2.len() <= 255 && i2.len() == 16 implies (f1.contains_key(
        #[trigger] edge_key(o2, t2, i2),
    ) <==> r1.contains_key(edge_key(i2, t2, o2))) by {
        if edge_key(o2, t2, i2) == ek {
            lemma_edge_key_injective(o2, t2, i2, o, t, i);
            assert(edge_key(i2, t2, o2) == rk);
        } else if edge_key(i2, t2, o2) == rk {
            lemma_edge_key_injective(i2, t2, o2, i, t, o);
            assert(edge_key(o2, t2, i2) == ek);
        }
    }
    assert forall|o2: Seq<u8>, t2: Seq<u8>, i2: Seq<u8>, n2: Seq<u8>|
        o2.len() == 16 && t2.len() <= 255 && i2.len() == 16 && n2.len() <= 255 && tree_view(
            h1.edge_properties,
        ).contains_key(#[trigger] ep_key(o2, t2, i2, n2)) implies f1.contains_key(
        edge_key(o2, t2, i2),
    ) by {
        assert(tree_view(h0.edge_ranges).contains_key(edge_key(o2, t2, i2)));
    }
}

/// Setting a vertex property preserves the whole-store invariant: the
/// primary row and its index entry move together.
pub proof fn lemma_set_vertex_property_preserves_wf(
    h0: SledHolder,
    h1: SledHolder,
    id: Seq<u8>,
    n: Seq<u8>,
    x: Seq<u8>,
)
    requires
        holder_wf(h0),
        id.len() == 16,
        n.len() <= 255,
        tree_view(h1.vertex_properties) == tree_view(h0.vertex_properties).insert(
            prop_key(id, n),
            x,
        ),
        tree_view(h1.vertex_property_values) == index_after_set(
            tree_view(h0.vertex_properties),
            tree_view(h0.vertex_property_values),
            id,
            n,
            x,
        ),
        h1.vertices == h0.vertices && h1.edges == h0.edges && h1.edge_ranges == h0.edge_ranges
            && h1.reversed_edge_ranges == h0.reversed_edge_ranges && h1.edge_properties
            == h0.edge_properties && h1.edge_property_values == h0.edge_property_values,
    ensures
        holder_wf(h1),
{
    let vp0 = tree_view(h0.vertex_properties);
    let vp1 = tree_view(h1.vertex_properties);
    let iv0 = tree_view(h0.vertex_property_values);
    let iv1 = tree_view(h1.vertex_property_values);
    let pk = prop_key(id, n);
    let new_ik = value_index_key(n, json_hash(x), id);
    assert forall|k: Seq<u8>| #[trigger] vp1.contains_key(k) implies crate::codec::is_vp_key(
        k,
    ) by {
        if k != pk {
            assert(vp0.contains_key(k));
        }
    }
    assert forall|k: Seq<u8>| #[trigger] iv1.contains_key(k) implies crate::codec::is_vpv_key(
        k,
    ) by {
        if k != new_ik {
            assert(iv0.contains_key(k));
        }
    }
    // Every stored property still has its index entry.
    assert forall|id2: Seq<u8>, n2: Seq<u8>|
        id2.len() == 16 && n2.len() <= 255 && vp1.contains_key(
            #[trigger] prop_key(id2, n2),
        ) implies iv1.contains_key(
        value_index_key(n2, json_hash(vp1[prop_key(id2, n2)]), id2),
    ) by {
        if prop_key(id2, n2) == pk {
            lemma_prop_key_injective(id2, n2, id, n);
            assert(vp1[pk] == x);
        } else {
            assert(vp0.contains_key(prop_key(id2, n2)));
            assert(vp1[prop_key(id2, n2)] == vp0[prop_key(id2, n2)]);
            let ik2 = value_index_key(n2, json_hash(vp0[prop_key(id2, n2)]), id2);
            assert(iv0.contains_key(ik2));
            if vp0.contains_key(pk) {
                let rk = value_index_key(n, json_hash(vp0[pk]), id);
                if ik2 == rk {
                    lemma_value_index_key_injective(
                        n2,
                        json_hash(vp0[prop_key(id2, n2)]),
                        id2,
                        n,
                        json_hash(vp0[pk]),
                        id,
                    );
                    lemma_prop_key_injective(id2, n2, id, n);
                }
            }
        }
    }
    // Every index entry still matches a stored property.
    assert forall|n2: Seq<u8>, h2: u64, id2: Seq<u8>|
        iv1.contains_key(#[trigger] value_index_key(n2, h2, id2)) && id2.len() == 16
            && n2.len() <= 255 implies vp1.contains_key(prop_key(id2, n2)) && json_hash(
        vp1[prop_key(id2, n2)],
    ) == h2 by {
        let ik2 = value_index_key(n2, h2, id2);
        if ik2 == new_ik {
            lemma_value_index_key_injective(n2, h2, id2, n, json_hash(x), id);
            assert(vp1[pk] == x);
        } else {
            assert(iv0.contains_key(ik2));
            assert(vp0.contains_key(prop_key(id2, n2)) && json_hash(
                vp0[prop_key(id2, n2)],
            ) == h2);
            if prop_key(id2, n2) == pk {
                lemma_prop_key_injective(id2, n2, id, n);
                // The old entry of this property was removed, so this
                // surviving entry can only be the new one.
                assert(ik2 == value_index_key(n, json_hash(vp0[pk]), id));
                assert(false);
            }
            assert(vp1[prop_key(id2, n2)] == vp0[prop_key(id2, n2)]);
        }
    }
}

} // verus!

verus! {

/// Setting a property on a present edge preserves the whole-store
/// invariant.  Setting one on an absent edge is accepted by the engine
/// (bulk insert relies on it) but leaves a dangling property that only the
/// value-index gate and the edges-tree authority make safe; the invariant
/// does not cover that state.
#[verifier::rlimit(100)]
pub proof fn lemma_set_edge_property_preserves_wf(
    h0: SledHolder,
    h1: SledHolder,
    o: Seq<u8>,
    t: Seq<u8>,
    i: Seq<u8>,
    n: Seq<u8>,
    x: Seq<u8>,
)
    requires
        holder_wf(h0),
        o.len() == 16 && t.len() <= 255 && i.len() == 16 && n.len() <= 255,
        tree_view(h0.edge_ranges).contains_key(edge_key(o, t, i)),
        tree_view(h1.edge_properties) == tree_view(h0.edge_properties).insert(
            prop_key(edge_key(o, t, i), n),
            x,
        ),
        tree_view(h1.edge_property_values) == crate::edge_property_manager::index_after_set(
            tree_view(h0.edge_properties),
            tree_view(h0.edge_property_values),
            edge_key(o, t, i),
            n,
            x,
        ),
        h1.vertices == h0.vertices && h1.edges == h0.edges && h1.edge_ranges == h0.edge_ranges
            && h1.reversed_edge_ranges == h0.reversed_edge_ranges && h1.vertex_properties
            == h0.vertex_properties && h1.vertex_property_values
            == h0.vertex_property_values,
    ensures
        holder_wf(h1),
{
    let ep0 = tree_view(h0.edge_properties);
    let ep1 = tree_view(h1.edge_properties);
    let iv0 = tree_view(h0.edge_property_values);
    let iv1 = tree_view(h1.edge_property_values);
    let ek = edge_key(o, t, i);
    let pk = prop_key(ek, n);
    let new_ik = value_index_key(n, json_hash(x), ek);
    assert(pk == ep_key(o, t, i, n));
    assert forall|k: Seq<u8>| #[trigger] ep1.contains_key(k) implies crate::codec::is_ep_key(
        k,
    ) by {
        if k != pk {
            assert(ep0.contains_key(k));
        }
    }
    assert forall|k: Seq<u8>| #[trigger] iv1.contains_key(k) implies crate::codec::is_epv_key(
        k,
    ) by {
        if k != new_ik {
            assert(iv0.contains_key(k));
        } else {
            assert(k == value_index_key(n, json_hash(x), edge_key(o, t, i)));
        }
    }
    assert forall|o2: Seq<u8>, t2: Seq<u8>, i2: Seq<u8>, n2: Seq<u8>|
        o2.len() == 16 && t2.len() <= 255 && i2.len() == 16 && n2.len() <= 255
            && ep1.contains_key(#[trigger] ep_key(o2, t2, i2, n2)) implies tree_view(
        h1.edge_ranges,
    ).contains_key(edge_key(o2, t2, i2)) by {
        if ep_key(o2, t2, i2, n2) == pk {
            crate::bytes::lemma_prefix_concat(edge_key(o2, t2, i2), enc_ident(n2));
            crate::bytes::lemma_prefix_concat(ek, enc_ident(n));
            crate::codec::lemma_edge_key_prefix_unique(o2, t2, i2, o, t, i, pk);
        } else {
            assert(ep0.contains_key(ep_key(o2, t2, i2, n2)));
        }
    }
    // Every stored edge property still has its index entry.
    assert forall|o2: Seq<u8>, t2: Seq<u8>, i2: Seq<u8>, n2: Seq<u8>|
        o2.len() == 16 && t2.len() <= 255 && i2.len() == 16 && n2.len() <= 255
            && ep1.contains_key(#[trigger] ep_key(o2, t2, i2, n2)) implies iv1.contains_key(
        value_index_key(n2, json_hash(ep1[ep_key(o2, t2, i2, n2)]), edge_key(o2, t2, i2)),
    ) by {
        let pk2 = ep_key(o2, t2, i2, n2);
        let ek2 = edge_key(o2, t2, i2);
        assert(pk2 == prop_key(ek2, n2));
        if pk2 == pk {
            crate::bytes::lemma_prefix_concat(ek2, enc_ident(n2));
            crate::bytes::lemma_prefix_concat(ek, enc_ident(n));
            crate::codec::lemma_edge_key_prefix_unique(o2, t2, i2, o, t, i, pk);
            crate::codec::lemma_prop_key_facts(ek2, n2);
            crate::codec::lemma_prop_key_facts(ek, n);
            lemma_prop_key_injective(ek2, n2, ek, n);
            assert(ep1[pk] == x);
        } else {
            assert(ep0.contains_key(pk2));
            assert(ep1[pk2] == ep0[pk2]);
            let ik2 = value_index_key(n2, json_hash(ep0[pk2]), ek2);
            assert(iv0.contains_key(ik2));
            if ep0.contains_key(pk) {
                let rk = value_index_key(n, json_hash(ep0[pk]), ek);
                if ik2 == rk {
                    lemma_value_index_key_injective(
                        n2,
                        json_hash(ep0[pk2]),
                        ek2,
                        n,
                        json_hash(ep0[pk]),
                        ek,
                    );
                }
            }
        }
    }
    // Every index entry still matches a stored edge property.
    assert forall|n2: Seq<u8>, h2: u64, o2: Seq<u8>, t2: Seq<u8>, i2: Seq<u8>|
        iv1.contains_key(#[trigger] value_index_key(n2, h2, edge_key(o2, t2, i2))) && o2.len()
            == 16 && t2.len() <= 255 && i2.len() == 16 && n2.len() <= 255 implies
        ep1.contains_key(ep_key(o2, t2, i2, n2)) && json_hash(ep1[ep_key(o2, t2, i2, n2)])
            == h2 by {
        let ek2 = edge_key(o2, t2, i2);
        let ik2 = value_index_key(n2, h2, ek2);
        assert(ep_key(o2, t2, i2, n2) == prop_key(ek2, n2));
        if ik2 == new_ik {
            lemma_value_index_key_injective(n2, h2, ek2, n, json_hash(x), ek);
            lemma_edge_key_injective(o2, t2, i2, o, t, i);
            assert(ep1[pk] == x);
        } else {
            assert(iv0.contains_key(ik2));
            assert(ep0.contains_key(ep_key(o2, t2, i2, n2)) && json_hash(
                ep0[ep_key(o2, t2, i2, n2)],
            ) == h2);
            if prop_key(ek2, n2) == pk {
                crate::bytes::lemma_prefix_concat(ek2, enc_ident(n2));
                crate::bytes::lemma_prefix_concat(ek, enc_ident(n));
                crate::codec::lemma_edge_key_prefix_unique(o2, t2, i2, o, t, i, pk);
                crate::codec::lemma_prop_key_facts(ek2, n2);
                crate::codec::lemma_prop_key_facts(ek, n);
                lemma_prop_key_injective(ek2, n2, ek, n);
                assert(ik2 == value_index_key(n, json_hash(ep0[pk]), ek));
                assert(false);
            }
            assert(ep1[prop_key(ek2, n2)] == ep0[prop_key(ek2, n2)]);
        }
    }
}

} // verus!

verus! {

use crate::codec::{is_edge_key, lemma_edge_key_facts};

/// Deleting a vertex preserves the whole-store invariant: what survives
/// the cascade is exactly as consistent as before.
#[verifier::rlimit(100)]
pub proof fn lemma_delete_vertex_preserves_wf(h0: SledHolder, h1: SledHolder, id: Seq<u8>)
    requires
        holder_wf(h0),
        id.len() == 16,
        vertex_delete_post(h0, h1, id),
        vertex_delete_absent(h1, id),
    ensures
        holder_wf(h1),
{
    let e0 = tree_view(h0.edges);
    let f0 = tree_view(h0.edge_ranges);
    let r0 = tree_view(h0.reversed_edge_ranges);
    let e1 = tree_view(h1.edges);
    let f1 = tree_view(h1.edge_ranges);
    let r1 = tree_view(h1.reversed_edge_ranges);
    let vp0 = tree_view(h0.vertex_properties);
    let vp1 = tree_view(h1.vertex_properties);
    let iv0 = tree_view(h0.vertex_property_values);
    let iv1 = tree_view(h1.vertex_property_values);
    let ep0 = tree_view(h0.edge_properties);
    let ep1 = tree_view(h1.edge_properties);
    let ei0 = tree_view(h0.edge_property_values);
    let ei1 = tree_view(h1.edge_property_values);
    assert forall|k: Seq<u8>|
        #![trigger e1.contains_key(k)]
        #![trigger f1.contains_key(k)]
        e1.contains_key(k) <==> f1.contains_key(k) by {
        if e1.contains_key(k) && !f1.contains_key(k) {
            assert(e0.contains_key(k));
            assert(is_edge_key(k));
            let (o2, t2, i2) = choose|o2: Seq<u8>, t2: Seq<u8>, i2: Seq<u8>|
                k == #[trigger] edge_key(o2, t2, i2) && o2.len() == 16 && t2.len() <= 255
                    && i2.len() == 16;
            assert(o2 != id && i2 != id);
            assert(f0.contains_key(k));
            assert(f1.contains_key(edge_key(o2, t2, i2)));
        }
        if f1.contains_key(k) && !e1.contains_key(k) {
            assert(f0.contains_key(k));
            assert(is_edge_key(k));
            let (o2, t2, i2) = choose|o2: Seq<u8>, t2: Seq<u8>, i2: Seq<u8>|
                k == #[trigger] edge_key(o2, t2, i2) && o2.len() == 16 && t2.len() <= 255
                    && i2.len() == 16;
            assert(o2 != id && i2 != id);
            assert(e0.contains_key(k));
            assert(e1.contains_key(edge_key(o2, t2, i2)));
        }
    }
    assert forall|o2: Seq<u8>, t2: Seq<u8>, i2: Seq<u8>|
        o2.len() == 16 && t2.len() <= 255 && i2.len() == 16 implies (f1.contains_key(
        #[trigger] edge_key(o2, t2, i2),
    ) <==> r1.contains_key(edge_key(i2, t2, o2))) by {
        if f1.contains_key(edge_key(o2, t2, i2)) {
            assert(o2 != id && i2 != id);
            assert(f0.contains_key(edge_key(o2, t2, i2)));
            assert(r0.contains_key(edge_key(i2, t2, o2)));
            assert(r1.contains_key(edge_key(i2, t2, o2)));
        }
        if r1.contains_key(edge_key(i2, t2, o2)) {
            assert(i2 != id && o2 != id);
            assert(r0.contains_key(edge_key(i2, t2, o2)));
            assert(f0.contains_key(edge_key(o2, t2, i2)));
            assert(f1.contains_key(edge_key(o2, t2, i2)));
        }
    }
    assert forall|id2: Seq<u8>, n2: Seq<u8>|
        id2.len() == 16 && n2.len() <= 255 && vp1.contains_key(
            #[trigger] prop_key(id2, n2),
        ) implies iv1.contains_key(
        value_index_key(n2, json_hash(vp1[prop_key(id2, n2)]), id2),
    ) by {
        let pk = prop_key(id2, n2);
        assert(vp0.contains_key(pk) && vp1[pk] == vp0[pk] && !is_prefix_of(id, pk));
        lemma_prop_key_facts(id2, n2);
        assert(pk.subrange(0, 16) == id2);
        lemma_prefix16(id, pk);
        assert(id2 != id);
        assert(iv0.contains_key(value_index_key(n2, json_hash(vp0[pk]), id2)));
    }
    assert forall|n2: Seq<u8>, h2: u64, id2: Seq<u8>|
        iv1.contains_key(#[trigger] value_index_key(n2, h2, id2)) && id2.len() == 16
            && n2.len() <= 255 implies vp1.contains_key(prop_key(id2, n2)) && json_hash(
        vp1[prop_key(id2, n2)],
    ) == h2 by {
        assert(iv0.contains_key(value_index_key(n2, h2, id2)));
        assert(vp0.contains_key(prop_key(id2, n2)) && json_hash(vp0[prop_key(id2, n2)]) == h2);
        assert(id2 != id);
        let pk = prop_key(id2, n2);
        lemma_prop_key_facts(id2, n2);
        assert(pk.subrange(0, 16) == id2);
        lemma_prefix16(id, pk);
        assert(vp1.contains_key(pk));
    }
    assert forall|o2: Seq<u8>, t2: Seq<u8>, i2: Seq<u8>, n2: Seq<u8>|
        o2.len() == 16 && t2.len() <= 255 && i2.len() == 16 && n2.len() <= 255
            && ep1.contains_key(#[trigger] ep_key(o2, t2, i2, n2)) implies f1.contains_key(
        edge_key(o2, t2, i2),
    ) && ei1.contains_key(
        value_index_key(n2, json_hash(ep1[ep_key(o2, t2, i2, n2)]), edge_key(o2, t2, i2)),
    ) by {
        let pk = ep_key(o2, t2, i2, n2);
        assert(o2 != id && i2 != id);
        assert(ep0.contains_key(pk) && ep1[pk] == ep0[pk]);
        assert(f0.contains_key(edge_key(o2, t2, i2)));
        assert(f1.contains_key(edge_key(o2, t2, i2)));
        assert(ei0.contains_key(
            value_index_key(n2, json_hash(ep0[pk]), edge_key(o2, t2, i2)),
        ));
        assert(ei1.contains_key(
            value_index_key(n2, json_hash(ep0[pk]), edge_key(o2, t2, i2)),
        ));
    }
    assert forall|n2: Seq<u8>, h2: u64, o2: Seq<u8>, t2: Seq<u8>, i2: Seq<u8>|
        ei1.contains_key(#[trigger] value_index_key(n2, h2, edge_key(o2, t2, i2))) && o2.len()
            == 16 && t2.len() <= 255 && i2.len() == 16 && n2.len() <= 255 implies
        ep1.contains_key(ep_key(o2, t2, i2, n2)) && json_hash(ep1[ep_key(o2, t2, i2, n2)])
            == h2 by {
        assert(o2 != id && i2 != id);
        assert(ei0.contains_key(value_index_key(n2, h2, edge_key(o2, t2, i2))));
        assert(ep0.contains_key(ep_key(o2, t2, i2, n2)) && json_hash(
            ep0[ep_key(o2, t2, i2, n2)],
        ) == h2);
        assert(ep1.contains_key(ep_key(o2, t2, i2, n2)));
        assert(ep1[ep_key(o2, t2, i2, n2)] == ep0[ep_key(o2, t2, i2, n2)]);
    }
}

} // verus!
