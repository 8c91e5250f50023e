//! The operation surface: binds the holder and the in-memory metadata
//! registry, and sequences the multi-tree writes.

use vstd::prelude::*;
use crate::bytes::{is_prefix_of, lemma_lex_le_zeros, lex_le, lex_lt};
use crate::codec::{enc_ident, json_hash, prop_key, value_index_key, Ident, Uid};
use crate::datastore::SledHolder;
use crate::edge_manager;
use crate::edge_property_manager;
use crate::edge_range_manager;
use crate::errors::{map_err, DSError};
use crate::kv::{sled_flush, tree_view};
use crate::metadata;
use crate::metadata::{contains_name, meta_corresponds};
use crate::kv::{batch_new, batch_view, tree_apply_batch};
use crate::models::{BulkInsertItem, Edge, PropValue, Vertex};
use crate::vertex_manager;
use crate::vertex_property_manager;

verus! {

/// A transaction that is backed by sled.  It owns the holder for its
/// lifetime; reads observe all earlier writes of the same transaction.
pub struct SledTransaction {
    pub holder: SledHolder,
    pub indexed: Vec<Ident>,
}

/// The list holds a vertex with this id.
pub open spec fn lists_id(v: Seq<Vertex>, k: Seq<u8>) -> bool {
    exists|a: int| 0 <= a < v.len() && #[trigger] v[a].id@ == k
}

/// The positions, in order, of the keys that the tree holds: what a
/// point-lookup filter keeps of its input.
pub open spec fn present_index_seq(m: Map<Seq<u8>, Seq<u8>>, keys: Seq<Seq<u8>>) -> Seq<int>
    decreases keys.len(),
{
    if keys.len() == 0 {
        Seq::empty()
    } else {
        let rest = present_index_seq(m, keys.drop_last());
        if m.contains_key(keys.last()) {
            rest.push(keys.len() - 1)
        } else {
            rest
        }
    }
}

/// The list holds an edge with this key.
pub open spec fn lists_edge_key(v: Seq<Edge>, k: Seq<u8>) -> bool {
    exists|a: int| 0 <= a < v.len() && #[trigger] v[a].key() == k
}

impl SledTransaction {
    /// The in-memory registry mirrors the metadata tree.
    pub open spec fn meta_loaded(&self) -> bool {
        meta_corresponds(self.indexed@, tree_view(self.holder.metadata))
    }

    /// Whether `n` is an indexed property name.
    pub open spec fn spec_is_indexed(&self, n: Seq<u8>) -> bool {
        contains_name(self.indexed@, n)
    }

    /// Binds a holder; loads the registry from its tree.
    pub fn new(holder: SledHolder) -> (r: Result<SledTransaction, DSError>)
        ensures
            r matches Ok(t) ==> t.holder == holder && t.meta_loaded(),
    {
        let indexed = metadata::load(&holder.metadata)?;
        Ok(SledTransaction { holder, indexed })
    }

    /// Enables value-index queries for a property name, persisted.  The
    /// registry claims hold whenever the in-memory registry mirrored its
    /// tree beforehand, which `new` establishes and every success here
    /// maintains.
    pub fn index_property(&mut self, name: &Ident) -> (r: Result<(), DSError>)
        ensures
            r is Ok && old(self).meta_loaded() ==> final(self).meta_loaded() && final(self).spec_is_indexed(name@) && (forall|n: Seq<u8>|
                final(self).spec_is_indexed(n) == (old(self).spec_is_indexed(n) || n
                    == name@)),
            r is Ok ==> final(self).holder.vertices == old(self).holder.vertices && final(self).holder.edges == old(self).holder.edges && final(self).holder.edge_ranges == old(
                self,
            ).holder.edge_ranges && final(self).holder.reversed_edge_ranges == old(
                self,
            ).holder.reversed_edge_ranges && final(self).holder.vertex_properties == old(
                self,
            ).holder.vertex_properties && final(self).holder.vertex_property_values == old(
                self,
            ).holder.vertex_property_values && final(self).holder.edge_properties == old(
                self,
            ).holder.edge_properties && final(self).holder.edge_property_values == old(
                self,
            ).holder.edge_property_values,
            crate::invariants::holder_wf(old(self).holder) && r is Ok
                ==> crate::invariants::holder_wf(final(self).holder),
    {
        metadata::add_index(&mut self.indexed, &mut self.holder.metadata, name)
    }

    /// Flushes buffered state durably.  The metadata registry is already
    /// persisted by every mutation, so only the store flush remains.
    pub fn sync(&self) -> (r: Result<(), DSError>)
    {
        map_err(sled_flush(&self.holder.db))
    }

    /// How many vertices the store holds.
    pub fn vertex_count(&self) -> (r: Result<u64, DSError>)
        ensures
            r matches Ok(n) ==> n as nat == tree_view(self.holder.vertices).dom().len(),
            r matches Err(e) ==> e.is_storage(),
    {
        vertex_manager::count(&self.holder.vertices)
    }

    /// How many edges the store holds.
    pub fn edge_count(&self) -> (r: Result<u64, DSError>)
        ensures
            r matches Ok(n) ==> n as nat == tree_view(self.holder.edges).dom().len(),
            r matches Err(e) ==> e.is_storage(),
    {
        edge_manager::count(&self.holder.edges)
    }

    /// All vertices, in ascending id order.
    pub fn all_vertices(&self) -> (r: Result<Vec<Vertex>, DSError>)
        ensures
            r matches Ok(v) ==> forall|a: int, b: int|
                0 <= a < b < v@.len() ==> lex_lt(v@[a].id@, v@[b].id@),
            r matches Ok(v) ==> forall|a: int|
                #![trigger v@[a]]
                0 <= a < v@.len() ==> tree_view(self.holder.vertices).contains_key(v@[a].id@)
                    && tree_view(self.holder.vertices)[v@[a].id@] == enc_ident(v@[a].t@)
                    && v@[a].t.wf(),
            r matches Ok(v) ==> forall|k: Seq<u8>|
                #![trigger tree_view(self.holder.vertices).contains_key(k)]
                tree_view(self.holder.vertices).contains_key(k) && k.len() == 16 ==> lists_id(
                    v@,
                    k,
                ),
            r matches Err(e) ==> e.is_storage() || (e.is_decode() && !vertex_manager::vertices_wf(
                tree_view(self.holder.vertices),
            )),
    {
        let zero: Uid = [0u8; 16];
        let items = vertex_manager::iterate_for_range(&self.holder.vertices, &zero)?;
        let mut out: Vec<Vertex> = Vec::new();
        let mut i: usize = 0;
        while i < items.len()
            invariant
                i <= items@.len(),
                out@.len() == i,
                forall|a: int, b: int|
                    0 <= a < b < items@.len() ==> lex_lt(items@[a].0@, items@[b].0@),
                forall|a: int|
                    #![trigger items@[a]]
                    0 <= a < items@.len() ==> tree_view(self.holder.vertices).contains_key(
                        items@[a].0@,
                    ) && tree_view(self.holder.vertices)[items@[a].0@] == enc_ident(
                        items@[a].1@,
                    ) && items@[a].1.wf(),
                forall|j: int|
                    #![trigger out@[j]]
                    0 <= j < i ==> out@[j].id == items@[j].0 && out@[j].t@ == items@[j].1@
                        && out@[j].t.wf(),
            decreases items@.len() - i,
        {
            let id: Uid = items[i].0;
            let t = items[i].1.dup();
            out.push(Vertex { id, t });
            i += 1;
        }
        proof {
            assert forall|k: Seq<u8>|
                tree_view(self.holder.vertices).contains_key(k) && k.len() == 16 implies
                lists_id(out@, k) by {
                lemma_lex_le_zeros(zero@, k);
                assert(lex_le(zero@, k));
                let j = choose|j: int|
                    0 <= j < items@.len() && #[trigger] items@[j].0@ == k;
                assert(out@[j].id@ == k);
            }
        }
        Ok(out)
    }

    /// All vertices from `offset` inclusive, in ascending id order.
    pub fn range_vertices(&self, offset: &Uid) -> (r: Result<Vec<(Uid, Ident)>, DSError>)
        ensures
            r matches Ok(v) ==> forall|a: int, b: int|
                0 <= a < b < v@.len() ==> lex_lt(v@[a].0@, v@[b].0@),
            r matches Ok(v) ==> forall|a: int|
                #![trigger v@[a]]
                0 <= a < v@.len() ==> tree_view(self.holder.vertices).contains_key(v@[a].0@)
                    && lex_le(offset@, v@[a].0@) && tree_view(self.holder.vertices)[v@[a].0@]
                    == enc_ident(v@[a].1@) && v@[a].1.wf(),
            r matches Ok(v) ==> vertex_manager::range_complete(
                tree_view(self.holder.vertices),
                offset@,
                v@,
            ),
            r matches Err(e) ==> e.is_storage() || (e.is_decode() && !vertex_manager::vertices_wf(
                tree_view(self.holder.vertices),
            )),
    {
        vertex_manager::iterate_for_range(&self.holder.vertices, offset)
    }

    /// The listed vertices that exist, in input order with input
    /// multiplicity, absent ids skipped.
    pub fn specific_vertices(&self, ids: &Vec<Uid>) -> (r: Result<Vec<Vertex>, DSError>)
        ensures
            r matches Ok(v) ==> ({
                let psi = present_index_seq(
                    tree_view(self.holder.vertices),
                    ids@.map_values(|u: Uid| u@),
                );
                v@.len() == psi.len() && (forall|a: int|
                    0 <= a < psi.len() ==> 0 <= #[trigger] psi[a] < ids@.len()) && (forall|
                    a: int,
                |
                    #![trigger v@[a]]
                    0 <= a < v@.len() ==> v@[a].id == ids@[psi[a]])
            }),
            r matches Ok(v) ==> forall|a: int|
                #![trigger v@[a]]
                0 <= a < v@.len() ==> tree_view(self.holder.vertices).contains_key(v@[a].id@)
                    && tree_view(self.holder.vertices)[v@[a].id@] == enc_ident(v@[a].t@),
            r matches Ok(v) ==> forall|j: int|
                #![trigger ids@[j]]
                0 <= j < ids@.len() && tree_view(self.holder.vertices).contains_key(ids@[j]@)
                    ==> lists_id(v@, ids@[j]@),
    {
        let ghost m = tree_view(self.holder.vertices);
        let ghost ks = ids@.map_values(|u: Uid| u@);
        let ghost mut psi: Seq<int> = Seq::empty();
        let mut out: Vec<Vertex> = Vec::new();
        let mut i: usize = 0;
        while i < ids.len()
            invariant
                i <= ids@.len(),
                m == tree_view(self.holder.vertices),
                ks == ids@.map_values(|u: Uid| u@),
                psi == present_index_seq(m, ks.take(i as int)),
                out@.len() == psi.len(),
                forall|a: int| 0 <= a < psi.len() ==> 0 <= #[trigger] psi[a] < ids@.len(),
                forall|a: int|
                    #![trigger out@[a]]
                    0 <= a < out@.len() ==> out@[a].id == ids@[psi[a]] && m.contains_key(
                        out@[a].id@,
                    ) && m[out@[a].id@] == enc_ident(out@[a].t@),
                forall|j: int|
                    #![trigger ids@[j]]
                    0 <= j < i && m.contains_key(ids@[j]@) ==> lists_id(out@, ids@[j]@),
            decreases ids@.len() - i,
        {
            let ghost out_snap = out@;
            proof {
                assert(ks.take(i + 1).drop_last() =~= ks.take(i as int));
                assert(ks.take(i + 1).last() == ks[i as int]);
                assert(ks[i as int] == ids@[i as int]@);
            }
            let id: Uid = ids[i];
            match vertex_manager::get(&self.holder.vertices, &id)? {
                Some(t) => {
                    out.push(Vertex { id, t });
                    proof {
                        assert(present_index_seq(m, ks.take(i + 1)) =~= psi.push(i as int));
                        psi = psi.push(i as int);
                        assert(out@[out@.len() - 1].id == ids@[i as int]);
                        assert(lists_id(out@, ids@[i as int]@));
                        assert forall|k: Seq<u8>| lists_id(out_snap, k) implies lists_id(
                            out@,
                            k,
                        ) by {
                            let a = choose|a: int|
                                0 <= a < out_snap.len() && #[trigger] out_snap[a].id@ == k;
                            assert(out@[a].id@ == k);
                        }
                    }
                },
                None => {
                    proof {
                        assert(present_index_seq(m, ks.take(i + 1)) == psi);
                    }
                },
            }
            i += 1;
        }
        proof {
            assert(ks.take(ids@.len() as int) =~= ks);
        }
        Ok(out)
    }

    /// All edges, in ascending key order, from the forward range tree.
    pub fn all_edges(&self) -> (r: Result<Vec<Edge>, DSError>)
        ensures
            r matches Ok(v) ==> forall|a: int, b: int|
                0 <= a < b < v@.len() ==> lex_lt(v@[a].key(), v@[b].key()),
            r matches Ok(v) ==> forall|a: int|
                #![trigger v@[a]]
                0 <= a < v@.len() ==> tree_view(self.holder.edge_ranges).contains_key(
                    v@[a].key(),
                ) && v@[a].wf(),
            r matches Ok(v) ==> edge_range_manager::all_complete(
                tree_view(self.holder.edge_ranges),
                v@,
            ),
            r matches Err(e) ==> e.is_storage() || (e.is_decode()
                && !edge_range_manager::edges_wf(tree_view(self.holder.edge_ranges))),
    {
        edge_range_manager::iterate_for_all(&self.holder.edge_ranges)
    }

    /// All edges from `offset` inclusive, forward tree order.
    pub fn range_edges(&self, offset: &Edge) -> (r: Result<Vec<Edge>, DSError>)
        requires
            offset.wf(),
        ensures
            r matches Ok(v) ==> forall|a: int, b: int|
                0 <= a < b < v@.len() ==> lex_lt(v@[a].key(), v@[b].key()),
            r matches Ok(v) ==> forall|a: int|
                #![trigger v@[a]]
                0 <= a < v@.len() ==> tree_view(self.holder.edge_ranges).contains_key(
                    v@[a].key(),
                ) && lex_le(offset.key(), v@[a].key()) && v@[a].wf(),
            r matches Ok(v) ==> edge_range_manager::range_complete(
                tree_view(self.holder.edge_ranges),
                offset.key(),
                v@,
            ),
            r matches Err(e) ==> e.is_storage() || (e.is_decode()
                && !edge_range_manager::edges_wf(tree_view(self.holder.edge_ranges))),
    {
        edge_range_manager::iterate_for_range(&self.holder.edge_ranges, offset)
    }

    /// All entries of the reversed range tree from `offset` inclusive; the
    /// decoded `outbound_id` field carries the inbound endpoint.
    pub fn range_reversed_edges(&self, offset: &Edge) -> (r: Result<Vec<Edge>, DSError>)
        requires
            offset.wf(),
        ensures
            r matches Ok(v) ==> forall|a: int, b: int|
                0 <= a < b < v@.len() ==> lex_lt(v@[a].key(), v@[b].key()),
            r matches Ok(v) ==> forall|a: int|
                #![trigger v@[a]]
                0 <= a < v@.len() ==> tree_view(self.holder.reversed_edge_ranges).contains_key(
                    v@[a].key(),
                ) && lex_le(offset.key(), v@[a].key()) && v@[a].wf(),
            r matches Ok(v) ==> edge_range_manager::range_complete(
                tree_view(self.holder.reversed_edge_ranges),
                offset.key(),
                v@,
            ),
            r matches Err(e) ==> e.is_storage() || (e.is_decode()
                && !edge_range_manager::edges_wf(
                    tree_view(self.holder.reversed_edge_ranges),
                )),
    {
        edge_range_manager::iterate_for_range(&self.holder.reversed_edge_ranges, offset)
    }

    /// The listed edges that exist, in input order with input multiplicity,
    /// absent ones skipped.
    pub fn specific_edges(&self, edges: Vec<Edge>) -> (r: Result<Vec<Edge>, DSError>)
        requires
            forall|j: int| #![trigger edges@[j]] 0 <= j < edges@.len() ==> edges@[j].wf(),
        ensures
            r matches Ok(v) ==> ({
                let psi = present_index_seq(
                    tree_view(self.holder.edge_ranges),
                    edges@.map_values(|e: Edge| e.key()),
                );
                v@.len() == psi.len() && (forall|a: int|
                    0 <= a < psi.len() ==> 0 <= #[trigger] psi[a] < edges@.len()) && (forall|
                    a: int,
                |
                    #![trigger v@[a]]
                    0 <= a < v@.len() ==> v@[a].outbound_id == edges@[psi[a]].outbound_id
                        && v@[a].t@ == edges@[psi[a]].t@ && v@[a].inbound_id == edges@[
                        psi[a]
                    ].inbound_id)
            }),
            r matches Ok(v) ==> forall|a: int|
                #![trigger v@[a]]
                0 <= a < v@.len() ==> tree_view(self.holder.edge_ranges).contains_key(
                    v@[a].key(),
                ),
            r matches Ok(v) ==> forall|j: int|
                #![trigger edges@[j]]
                0 <= j < edges@.len() && tree_view(self.holder.edge_ranges).contains_key(
                    edges@[j].key(),
                ) ==> lists_edge_key(v@, edges@[j].key()),
    {
        let ghost m = tree_view(self.holder.edge_ranges);
        let ghost ks = edges@.map_values(|e: Edge| e.key());
        let ghost mut psi: Seq<int> = Seq::empty();
        let mut out: Vec<Edge> = Vec::new();
        let mut i: usize = 0;
        let rest = edges;
        while i < rest.len()
            invariant
                i <= rest@.len(),
                rest@ == edges@,
                m == tree_view(self.holder.edge_ranges),
                ks == edges@.map_values(|e: Edge| e.key()),
                forall|j: int| #![trigger rest@[j]] 0 <= j < rest@.len() ==> rest@[j].wf(),
                psi == present_index_seq(m, ks.take(i as int)),
                out@.len() == psi.len(),
                forall|a: int| 0 <= a < psi.len() ==> 0 <= #[trigger] psi[a] < edges@.len(),
                forall|a: int|
                    #![trigger out@[a]]
                    0 <= a < out@.len() ==> out@[a].outbound_id == edges@[
                        psi[a]
                    ].outbound_id && out@[a].t@ == edges@[psi[a]].t@ && out@[a].inbound_id
                        == edges@[psi[a]].inbound_id && m.contains_key(out@[a].key()),
                forall|j: int|
                    #![trigger rest@[j]]
                    0 <= j < i && m.contains_key(rest@[j].key()) ==> lists_edge_key(
                        out@,
                        rest@[j].key(),
                    ),
            decreases rest@.len() - i,
        {
            let ghost out_snap = out@;
            proof {
                assert(ks.take(i + 1).drop_last() =~= ks.take(i as int));
                assert(ks.take(i + 1).last() == ks[i as int]);
                assert(ks[i as int] == edges@[i as int].key());
            }
            let present = edge_range_manager::contains(&self.holder.edge_ranges, &rest[i])?;
            if present {
                let e = rest[i].dup();
                proof {
                    assert(e.key() == rest@[i as int].key());
                }
                out.push(e);
                proof {
                    assert(present_index_seq(m, ks.take(i + 1)) =~= psi.push(i as int));
                    psi = psi.push(i as int);
                    assert(out@[out@.len() - 1].key() == rest@[i as int].key());
                    assert(lists_edge_key(out@, rest@[i as int].key()));
                    assert forall|k: Seq<u8>| lists_edge_key(out_snap, k) implies lists_edge_key(
                        out@,
                        k,
                    ) by {
                        let a = choose|a: int|
                            0 <= a < out_snap.len() && #[trigger] out_snap[a].key() == k;
                        assert(out@[a].key() == k);
                    }
                }
            } else {
                proof {
                    assert(present_index_seq(m, ks.take(i + 1)) == psi);
                }
            }
            i += 1;
        }
        proof {
            assert(ks.take(edges@.len() as int) =~= ks);
        }
        Ok(out)
    }

    /// The value of a vertex property, if set.
    pub fn vertex_property(&self, vertex: &Vertex, name: &Ident) -> (r: Result<
        Option<PropValue>,
        DSError,
    >)
        requires
            name.wf(),
        ensures
            match r {
                Ok(Some(pv)) => tree_view(self.holder.vertex_properties).contains_key(
                    prop_key(vertex.id@, name@),
                ) && tree_view(self.holder.vertex_properties)[prop_key(vertex.id@, name@)]
                    == pv@,
                Ok(None) => !tree_view(self.holder.vertex_properties).contains_key(
                    prop_key(vertex.id@, name@),
                ),
                Err(e) => e.is_storage(),
            },
    {
        vertex_property_manager::get(&self.holder.vertex_properties, &vertex.id, name)
    }

    /// The value of an edge property, if set.
    pub fn edge_property(&self, edge: &Edge, name: &Ident) -> (r: Result<
        Option<PropValue>,
        DSError,
    >)
        requires
            edge.wf(),
            name.wf(),
        ensures
            match r {
                Ok(Some(pv)) => tree_view(self.holder.edge_properties).contains_key(
                    prop_key(edge.key(), name@),
                ) && tree_view(self.holder.edge_properties)[prop_key(edge.key(), name@)] == pv@,
                Ok(None) => !tree_view(self.holder.edge_properties).contains_key(
                    prop_key(edge.key(), name@),
                ),
                Err(e) => e.is_storage(),
            },
    {
        edge_property_manager::get(&self.holder.edge_properties, edge, name)
    }

    /// All properties of one vertex, in ascending name order.
    pub fn all_vertex_properties_for_vertex(&self, vertex: &Vertex) -> (r: Result<
        Vec<(Ident, PropValue)>,
        DSError,
    >)
        ensures
            r matches Ok(v) ==> forall|a: int|
                #![trigger v@[a]]
                0 <= a < v@.len() ==> v@[a].0.wf() && tree_view(
                    self.holder.vertex_properties,
                ).contains_key(prop_key(vertex.id@, v@[a].0@)) && tree_view(
                    self.holder.vertex_properties,
                )[prop_key(vertex.id@, v@[a].0@)] == v@[a].1@,
            r matches Ok(v) ==> props_listed(
                tree_view(self.holder.vertex_properties),
                vertex.id@,
                v@,
            ),
            r matches Err(e) ==> e.is_storage() || (e.is_decode()
                && !vertex_property_manager::vp_wf(tree_view(self.holder.vertex_properties))),
    {
        let items = vertex_property_manager::iterate_for_owner(
            &self.holder.vertex_properties,
            &vertex.id,
        )?;
        let mut out: Vec<(Ident, PropValue)> = Vec::new();
        let mut i: usize = 0;
        while i < items.len()
            invariant
                i <= items@.len(),
                out@.len() == i,
                forall|a: int|
                    #![trigger items@[a]]
                    0 <= a < items@.len() ==> items@[a].0.0@ == vertex.id@ && items@[a].0.1.wf()
                        && tree_view(self.holder.vertex_properties).contains_key(
                        prop_key(vertex.id@, items@[a].0.1@),
                    ) && tree_view(self.holder.vertex_properties)[prop_key(
                        vertex.id@,
                        items@[a].0.1@,
                    )] == items@[a].1@,
                forall|j: int|
                    #![trigger out@[j]]
                    0 <= j < i ==> out@[j].0@ == items@[j].0.1@ && out@[j].1@ == items@[j].1@
                        && out@[j].0.wf(),
            decreases items@.len() - i,
        {
            let name = items[i].0.1.dup();
            let value = crate::codec::copy_bytes(items[i].1.as_bytes());
            out.push((name, PropValue::new(value)));
            i += 1;
        }
        proof {
            assert forall|k: Seq<u8>|
                tree_view(self.holder.vertex_properties).contains_key(k) && is_prefix_of(
                    vertex.id@,
                    k,
                ) implies exists|a: int| 0 <= a < out@.len() && k == prop_key(
                vertex.id@,
                #[trigger] out@[a].0@,
            ) by {
                let j = choose|j: int|
                    0 <= j < items@.len() && k == prop_key(
                        vertex.id@,
                        #[trigger] items@[j].0.1@,
                    );
                assert(out@[j].0@ == items@[j].0.1@);
            }
            assert(props_listed(tree_view(self.holder.vertex_properties), vertex.id@, out@));
        }
        Ok(out)
    }

    /// All properties of one edge, in ascending name order.
    pub fn all_edge_properties_for_edge(&self, edge: &Edge) -> (r: Result<
        Vec<(Ident, PropValue)>,
        DSError,
    >)
        requires
            edge.wf(),
        ensures
            r matches Ok(v) ==> forall|a: int|
                #![trigger v@[a]]
                0 <= a < v@.len() ==> v@[a].0.wf() && tree_view(
                    self.holder.edge_properties,
                ).contains_key(prop_key(edge.key(), v@[a].0@)) && tree_view(
                    self.holder.edge_properties,
                )[prop_key(edge.key(), v@[a].0@)] == v@[a].1@,
            r matches Ok(v) ==> props_listed(
                tree_view(self.holder.edge_properties),
                edge.key(),
                v@,
            ),
            r matches Err(e) ==> e.is_storage() || (e.is_decode()
                && !edge_property_manager::ep_wf(tree_view(self.holder.edge_properties))),
    {
        let items = edge_property_manager::iterate_for_owner(
            &self.holder.edge_properties,
            edge,
        )?;
        let mut out: Vec<(Ident, PropValue)> = Vec::new();
        let mut i: usize = 0;
        while i < items.len()
            invariant
                i <= items@.len(),
                out@.len() == i,
                edge.wf(),
                forall|a: int|
                    #![trigger items@[a]]
                    0 <= a < items@.len() ==> items@[a].0.1.wf() && tree_view(
                        self.holder.edge_properties,
                    ).contains_key(prop_key(edge.key(), items@[a].0.1@)) && tree_view(
                        self.holder.edge_properties,
                    )[prop_key(edge.key(), items@[a].0.1@)] == items@[a].1@,
                forall|j: int|
                    #![trigger out@[j]]
                    0 <= j < i ==> out@[j].0@ == items@[j].0.1@ && out@[j].1@ == items@[j].1@
                        && out@[j].0.wf(),
            decreases items@.len() - i,
        {
            let name = items[i].0.1.dup();
            let value = crate::codec::copy_bytes(items[i].1.as_bytes());
            out.push((name, PropValue::new(value)));
            i += 1;
        }
        proof {
            assert forall|k: Seq<u8>|
                tree_view(self.holder.edge_properties).contains_key(k) && is_prefix_of(
                    edge.key(),
                    k,
                ) implies exists|a: int| 0 <= a < out@.len() && k == prop_key(
                edge.key(),
                #[trigger] out@[a].0@,
            ) by {
                let j = choose|j: int|
                    0 <= j < items@.len() && k == prop_key(edge.key(), #[trigger] items@[j].0.1@);
                assert(out@[j].0@ == items@[j].0.1@);
            }
            assert(props_listed(tree_view(self.holder.edge_properties), edge.key(), out@));
        }
        Ok(out)
    }

    /// The ids with a property under this name; `None` iff the name is not
    /// indexed.
    pub fn vertex_ids_with_property(&self, name: &Ident) -> (r: Result<
        Option<Vec<Uid>>,
        DSError,
    >)
        requires
            name.wf(),
        ensures
            r matches Ok(o) ==> (o is None <==> !self.spec_is_indexed(name@)),
            r matches Ok(o) ==> (o matches Some(v)
                ==> vertex_property_manager::ids_all_under_name(
                tree_view(self.holder.vertex_property_values),
                name@,
                v@,
            ) && vertex_property_manager::ids_of_name_complete(
                tree_view(self.holder.vertex_property_values),
                name@,
                v@,
            ) && vertex_property_manager::ids_in_key_order(
                tree_view(self.holder.vertex_property_values),
                name@,
                v@,
            )),
    {
        if !metadata::is_indexed(&self.indexed, name) {
            return Ok(None);
        }
        let v = vertex_property_manager::iterate_for_property_name(
            &self.holder.vertex_property_values,
            name,
        )?;
        Ok(Some(v))
    }

    /// The ids with a property under this name at this value; `None` iff
    /// the name is not indexed.
    pub fn vertex_ids_with_property_value(&self, name: &Ident, value: &PropValue) -> (r: Result<
        Option<Vec<Uid>>,
        DSError,
    >)
        requires
            name.wf(),
        ensures
            r matches Ok(o) ==> (o is None <==> !self.spec_is_indexed(name@)),
            r matches Ok(o) ==> (o matches Some(v) ==> vertex_property_manager::ids_at_value(
                tree_view(self.holder.vertex_property_values),
                name@,
                json_hash(value@),
                v@,
            ) && vertex_property_manager::ids_of_value_complete(
                tree_view(self.holder.vertex_property_values),
                name@,
                json_hash(value@),
                v@,
            ) && (forall|a: int, b: int|
                0 <= a < b < v@.len() ==> lex_lt(v@[a]@, v@[b]@))),
    {
        if !metadata::is_indexed(&self.indexed, name) {
            return Ok(None);
        }
        let v = vertex_property_manager::iterate_for_property_name_and_value(
            &self.holder.vertex_property_values,
            name,
            value,
        )?;
        Ok(Some(v))
    }

    /// The edges with a property under this name; `None` iff the name is
    /// not indexed.
    pub fn edges_with_property(&self, name: &Ident) -> (r: Result<Option<Vec<Edge>>, DSError>)
        requires
            name.wf(),
        ensures
            r matches Ok(o) ==> (o is None <==> !self.spec_is_indexed(name@)),
            r matches Ok(o) ==> (o matches Some(v)
                ==> edge_property_manager::edges_all_under_name(
                tree_view(self.holder.edge_property_values),
                name@,
                v@,
            ) && edge_property_manager::edges_of_name_complete(
                tree_view(self.holder.edge_property_values),
                name@,
                v@,
            ) && edge_property_manager::edges_in_key_order(
                tree_view(self.holder.edge_property_values),
                name@,
                v@,
            )),
    {
        if !metadata::is_indexed(&self.indexed, name) {
            return Ok(None);
        }
        let v = edge_property_manager::iterate_for_property_name(
            &self.holder.edge_property_values,
            name,
        )?;
        Ok(Some(v))
    }

    /// The edges with a property under this name at this value; `None` iff
    /// the name is not indexed.
    pub fn edges_with_property_value(&self, name: &Ident, value: &PropValue) -> (r: Result<
        Option<Vec<Edge>>,
        DSError,
    >)
        requires
            name.wf(),
        ensures
            r matches Ok(o) ==> (o is None <==> !self.spec_is_indexed(name@)),
            r matches Ok(o) ==> (o matches Some(v) ==> edge_property_manager::edges_at_value(
                tree_view(self.holder.edge_property_values),
                name@,
                json_hash(value@),
                v@,
            ) && edge_property_manager::edges_of_value_complete(
                tree_view(self.holder.edge_property_values),
                name@,
                json_hash(value@),
                v@,
            ) && (forall|a: int, b: int|
                0 <= a < b < v@.len() ==> lex_lt(v@[a].key(), v@[b].key()))),
    {
        if !metadata::is_indexed(&self.indexed, name) {
            return Ok(None);
        }
        let v = edge_property_manager::iterate_for_property_name_and_value(
            &self.holder.edge_property_values,
            name,
            value,
        )?;
        Ok(Some(v))
    }

    /// Conditional vertex insert: false and no change if the id exists.
    pub fn create_vertex(&mut self, vertex: &Vertex) -> (r: Result<bool, DSError>)
        requires
            vertex.wf(),
        ensures
            same_meta(*old(self), *final(self)) && same_edge_trees(*old(self), *final(self))
                && same_vprop_trees(*old(self), *final(self)) && same_eprop_trees(
                *old(self),
                *final(self),
            ),
            r matches Ok(b) ==> if b {
                !tree_view(old(self).holder.vertices).contains_key(vertex.id@) && tree_view(
                    final(self).holder.vertices,
                ) == tree_view(old(self).holder.vertices).insert(
                    vertex.id@,
                    enc_ident(vertex.t@),
                )
            } else {
                tree_view(old(self).holder.vertices).contains_key(vertex.id@)
                    && final(self).holder.vertices == old(self).holder.vertices
            },
            r matches Err(e) ==> e.is_storage(),
            crate::invariants::holder_wf(old(self).holder) && r is Ok
                ==> crate::invariants::holder_wf(final(self).holder),
    {
        let r = vertex_manager::create(&mut self.holder.vertices, vertex);
        proof {
            if crate::invariants::holder_wf(old(self).holder) && r is Ok {
                if r == Ok::<bool, DSError>(true) {
                    crate::laws::lemma_create_vertex_preserves_wf(
                        old(self).holder,
                        self.holder,
                        vertex.id@,
                        vertex.t@,
                    );
                }
            }
        }
        r
    }

    /// Creates an edge iff both endpoint vertices exist; returns false and
    /// changes nothing when one is missing.
    pub fn create_edge(&mut self, edge: &Edge) -> (r: Result<bool, DSError>)
        requires
            edge.wf(),
        ensures
            same_meta(*old(self), *final(self)) && same_vertex_tree(*old(self), *final(self))
                && same_vprop_trees(*old(self), *final(self)) && same_eprop_trees(
                *old(self),
                *final(self),
            ),
            r matches Ok(b) ==> if b {
                tree_view(old(self).holder.vertices).contains_key(edge.outbound_id@)
                    && tree_view(old(self).holder.vertices).contains_key(edge.inbound_id@)
                    && tree_view(final(self).holder.edges) == tree_view(
                    old(self).holder.edges,
                ).insert(edge.key(), crate::bytes::empty_bytes()) && tree_view(
                    final(self).holder.edge_ranges,
                ) == tree_view(old(self).holder.edge_ranges).insert(
                    edge.key(),
                    crate::bytes::empty_bytes(),
                ) && tree_view(final(self).holder.reversed_edge_ranges) == tree_view(
                    old(self).holder.reversed_edge_ranges,
                ).insert(edge.reversed_key(), crate::bytes::empty_bytes())
            } else {
                (!tree_view(old(self).holder.vertices).contains_key(edge.outbound_id@)
                    || !tree_view(old(self).holder.vertices).contains_key(edge.inbound_id@))
                    && final(self).holder.edges == old(self).holder.edges
                    && final(self).holder.edge_ranges == old(self).holder.edge_ranges
                    && final(self).holder.reversed_edge_ranges == old(
                    self,
                ).holder.reversed_edge_ranges
            },
            r matches Err(e) ==> e.is_storage(),
            crate::invariants::holder_wf(old(self).holder) && r is Ok
                ==> crate::invariants::holder_wf(final(self).holder),
    {
        let outbound_exists = vertex_manager::exists_vertex(
            &self.holder.vertices,
            &edge.outbound_id,
        )?;
        let inbound_exists = vertex_manager::exists_vertex(
            &self.holder.vertices,
            &edge.inbound_id,
        )?;
        if !outbound_exists || !inbound_exists {
            Ok(false)
        } else {
            edge_manager::set(
                &mut self.holder.edges,
                &mut self.holder.edge_ranges,
                &mut self.holder.reversed_edge_ranges,
                edge,
            )?;
            proof {
                if crate::invariants::holder_wf(old(self).holder) {
                    crate::laws::lemma_create_edge_preserves_wf(
                        old(self).holder,
                        self.holder,
                        edge.outbound_id@,
                        edge.t@,
                        edge.inbound_id@,
                    );
                }
            }
            Ok(true)
        }
    }

    /// Sets one property on each listed vertex, maintaining the value
    /// index.
    pub fn set_vertex_properties(
        &mut self,
        vertices: &Vec<Uid>,
        name: &Ident,
        value: &PropValue,
    ) -> (r: Result<(), DSError>)
        requires
            name.wf(),
        ensures
            same_meta(*old(self), *final(self)) && same_vertex_tree(*old(self), *final(self))
                && same_edge_trees(*old(self), *final(self)) && same_eprop_trees(
                *old(self),
                *final(self),
            ),
            r is Ok ==> forall|j: int|
                #![trigger vertices@[j]]
                0 <= j < vertices@.len() ==> tree_view(
                    final(self).holder.vertex_properties,
                ).contains_key(prop_key(vertices@[j]@, name@)) && tree_view(
                    final(self).holder.vertex_properties,
                )[prop_key(vertices@[j]@, name@)] == value@ && tree_view(
                    final(self).holder.vertex_property_values,
                ).contains_key(value_index_key(name@, json_hash(value@), vertices@[j]@)),
            r is Ok && vertices@.len() == 1 ==> tree_view(final(self).holder.vertex_properties)
                == tree_view(old(self).holder.vertex_properties).insert(
                prop_key(vertices@[0]@, name@),
                value@,
            ) && tree_view(final(self).holder.vertex_property_values)
                == vertex_property_manager::index_after_set(
                tree_view(old(self).holder.vertex_properties),
                tree_view(old(self).holder.vertex_property_values),
                vertices@[0]@,
                name@,
                value@,
            ),
            r matches Err(e) ==> e.is_storage(),
            crate::invariants::holder_wf(old(self).holder) && r is Ok && vertices@.len() == 1
                ==> crate::invariants::holder_wf(final(self).holder),
    {
        let mut i: usize = 0;
        while i < vertices.len()
            invariant
                i <= vertices@.len(),
                name.wf(),
                same_meta(*old(self), *self) && same_vertex_tree(*old(self), *self)
                    && same_edge_trees(*old(self), *self) && same_eprop_trees(
                    *old(self),
                    *self,
                ),
                forall|j: int|
                    #![trigger vertices@[j]]
                    0 <= j < i ==> tree_view(self.holder.vertex_properties).contains_key(
                        prop_key(vertices@[j]@, name@),
                    ) && tree_view(self.holder.vertex_properties)[prop_key(
                        vertices@[j]@,
                        name@,
                    )] == value@ && tree_view(self.holder.vertex_property_values).contains_key(
                        value_index_key(name@, json_hash(value@), vertices@[j]@),
                    ),
                i == 0 ==> self.holder.vertex_properties == old(
                    self,
                ).holder.vertex_properties && self.holder.vertex_property_values == old(
                    self,
                ).holder.vertex_property_values,
                vertices@.len() == 1 && i == 1 ==> tree_view(self.holder.vertex_properties)
                    == tree_view(old(self).holder.vertex_properties).insert(
                    prop_key(vertices@[0]@, name@),
                    value@,
                ) && tree_view(self.holder.vertex_property_values)
                    == vertex_property_manager::index_after_set(
                    tree_view(old(self).holder.vertex_properties),
                    tree_view(old(self).holder.vertex_property_values),
                    vertices@[0]@,
                    name@,
                    value@,
                ),
            decreases vertices@.len() - i,
        {
            let ghost vp_b = tree_view(self.holder.vertex_properties);
            let id: Uid = vertices[i];
            vertex_property_manager::set(
                &mut self.holder.vertex_properties,
                &mut self.holder.vertex_property_values,
                &id,
                name,
                value,
            )?;
            proof {
                let pk_i = prop_key(vertices@[i as int]@, name@);
                assert forall|j: int|
                    0 <= j < i + 1 implies tree_view(
                    self.holder.vertex_properties,
                ).contains_key(prop_key(#[trigger] vertices@[j]@, name@)) && tree_view(
                    self.holder.vertex_properties,
                )[prop_key(vertices@[j]@, name@)] == value@ && tree_view(
                    self.holder.vertex_property_values,
                ).contains_key(value_index_key(name@, json_hash(value@), vertices@[j]@)) by {
                    if j < i && vertices@[j]@ != vertices@[i as int]@ {
                        let pk_j = prop_key(vertices@[j]@, name@);
                        if pk_j == pk_i {
                            crate::codec::lemma_prop_key_injective(
                                vertices@[j]@,
                                name@,
                                vertices@[i as int]@,
                                name@,
                            );
                        }
                        if vp_b.contains_key(pk_i) {
                            let rk = value_index_key(
                                name@,
                                json_hash(vp_b[pk_i]),
                                vertices@[i as int]@,
                            );
                            if value_index_key(name@, json_hash(value@), vertices@[j]@) == rk {
                                crate::codec::lemma_value_index_key_injective(
                                    name@,
                                    json_hash(value@),
                                    vertices@[j]@,
                                    name@,
                                    json_hash(vp_b[pk_i]),
                                    vertices@[i as int]@,
                                );
                            }
                        }
                    }
                }
            }
            i += 1;
        }
        proof {
            if crate::invariants::holder_wf(old(self).holder) && vertices@.len() == 1 {
                crate::laws::lemma_set_vertex_property_preserves_wf(
                    old(self).holder,
                    self.holder,
                    vertices@[0]@,
                    name@,
                    value@,
                );
            }
        }
        Ok(())
    }

    /// Sets one property on each listed edge, maintaining the value index.
    pub fn set_edge_properties(&mut self, edges: &Vec<Edge>, name: &Ident, value: &PropValue)
        -> (r: Result<(), DSError>)
        requires
            name.wf(),
            forall|j: int| #![trigger edges@[j]] 0 <= j < edges@.len() ==> edges@[j].wf(),
        ensures
            same_meta(*old(self), *final(self)) && same_vertex_tree(*old(self), *final(self))
                && same_edge_trees(*old(self), *final(self)) && same_vprop_trees(
                *old(self),
                *final(self),
            ),
            r is Ok ==> forall|j: int|
                #![trigger edges@[j]]
                0 <= j < edges@.len() ==> tree_view(
                    final(self).holder.edge_properties,
                ).contains_key(prop_key(edges@[j].key(), name@)) && tree_view(
                    final(self).holder.edge_properties,
                )[prop_key(edges@[j].key(), name@)] == value@ && tree_view(
                    final(self).holder.edge_property_values,
                ).contains_key(value_index_key(name@, json_hash(value@), edges@[j].key())),
            r is Ok && edges@.len() == 1 ==> tree_view(final(self).holder.edge_properties)
                == tree_view(old(self).holder.edge_properties).insert(
                prop_key(edges@[0].key(), name@),
                value@,
            ) && tree_view(final(self).holder.edge_property_values)
                == edge_property_manager::index_after_set(
                tree_view(old(self).holder.edge_properties),
                tree_view(old(self).holder.edge_property_values),
                edges@[0].key(),
                name@,
                value@,
            ),
            r matches Err(e) ==> e.is_storage(),
            crate::invariants::holder_wf(old(self).holder) && r is Ok && edges@.len() == 1
                && tree_view(old(self).holder.edge_ranges).contains_key(edges@[0].key())
                ==> crate::invariants::holder_wf(final(self).holder),
    {
        let mut i: usize = 0;
        while i < edges.len()
            invariant
                i <= edges@.len(),
                name.wf(),
                forall|j: int| #![trigger edges@[j]] 0 <= j < edges@.len() ==> edges@[j].wf(),
                same_meta(*old(self), *self) && same_vertex_tree(*old(self), *self)
                    && same_edge_trees(*old(self), *self) && same_vprop_trees(
                    *old(self),
                    *self,
                ),
                forall|j: int|
                    #![trigger edges@[j]]
                    0 <= j < i ==> tree_view(self.holder.edge_properties).contains_key(
                        prop_key(edges@[j].key(), name@),
                    ) && tree_view(self.holder.edge_properties)[prop_key(
                        edges@[j].key(),
                        name@,
                    )] == value@ && tree_view(self.holder.edge_property_values).contains_key(
                        value_index_key(name@, json_hash(value@), edges@[j].key()),
                    ),
                i == 0 ==> self.holder.edge_properties == old(self).holder.edge_properties
                    && self.holder.edge_property_values == old(
                    self,
                ).holder.edge_property_values,
                edges@.len() == 1 && i == 1 ==> tree_view(self.holder.edge_properties)
                    == tree_view(old(self).holder.edge_properties).insert(
                    prop_key(edges@[0].key(), name@),
                    value@,
                ) && tree_view(self.holder.edge_property_values)
                    == edge_property_manager::index_after_set(
                    tree_view(old(self).holder.edge_properties),
                    tree_view(old(self).holder.edge_property_values),
                    edges@[0].key(),
                    name@,
                    value@,
                ),
            decreases edges@.len() - i,
        {
            let ghost ep_b = tree_view(self.holder.edge_properties);
            edge_property_manager::set(
                &mut self.holder.edge_properties,
                &mut self.holder.edge_property_values,
                &edges[i],
                name,
                value,
            )?;
            proof {
                let pk_i = prop_key(edges@[i as int].key(), name@);
                assert forall|j: int|
                    0 <= j < i + 1 implies tree_view(self.holder.edge_properties).contains_key(
                    prop_key(#[trigger] edges@[j].key(), name@),
                ) && tree_view(self.holder.edge_properties)[prop_key(edges@[j].key(), name@)]
                    == value@ && tree_view(self.holder.edge_property_values).contains_key(
                    value_index_key(name@, json_hash(value@), edges@[j].key()),
                ) by {
                    if j < i && edges@[j].key() != edges@[i as int].key() {
                        let pk_j = prop_key(edges@[j].key(), name@);
                        if pk_j == pk_i {
                            crate::codec::lemma_prop_key_facts(edges@[j].key(), name@);
                            crate::codec::lemma_prop_key_facts(edges@[i as int].key(), name@);
                            crate::codec::lemma_prop_key_injective(
                                edges@[j].key(),
                                name@,
                                edges@[i as int].key(),
                                name@,
                            );
                        }
                        if ep_b.contains_key(pk_i) {
                            let rk = value_index_key(
                                name@,
                                json_hash(ep_b[pk_i]),
                                edges@[i as int].key(),
                            );
                            if value_index_key(name@, json_hash(value@), edges@[j].key())
                                == rk {
                                crate::codec::lemma_value_index_key_injective(
                                    name@,
                                    json_hash(value@),
                                    edges@[j].key(),
                                    name@,
                                    json_hash(ep_b[pk_i]),
                                    edges@[i as int].key(),
                                );
                            }
                        }
                    }
                }
            }
            i += 1;
        }
        proof {
            if crate::invariants::holder_wf(old(self).holder) && edges@.len() == 1
                && tree_view(old(self).holder.edge_ranges).contains_key(edges@[0].key()) {
                crate::laws::lemma_set_edge_property_preserves_wf(
                    old(self).holder,
                    self.holder,
                    edges@[0].outbound_id@,
                    edges@[0].t@,
                    edges@[0].inbound_id@,
                    name@,
                    value@,
                );
            }
        }
        Ok(())
    }

    /// Deletes a property from each listed vertex, with value-index
    /// cleanup.
    pub fn delete_vertex_properties(&mut self, props: &Vec<(Uid, Ident)>) -> (r: Result<
        (),
        DSError,
    >)
        requires
            forall|j: int| #![trigger props@[j]] 0 <= j < props@.len() ==> props@[j].1.wf(),
        ensures
            same_meta(*old(self), *final(self)) && same_vertex_tree(*old(self), *final(self))
                && same_edge_trees(*old(self), *final(self)) && same_eprop_trees(
                *old(self),
                *final(self),
            ),
            r is Ok ==> forall|j: int|
                #![trigger props@[j]]
                0 <= j < props@.len() ==> !tree_view(
                    final(self).holder.vertex_properties,
                ).contains_key(prop_key(props@[j].0@, props@[j].1@)),
            r is Ok && props@.len() == 1 ==> tree_view(final(self).holder.vertex_properties)
                == tree_view(old(self).holder.vertex_properties).remove(
                prop_key(props@[0].0@, props@[0].1@),
            ) && tree_view(final(self).holder.vertex_property_values)
                == vertex_property_manager::index_after_delete(
                tree_view(old(self).holder.vertex_properties),
                tree_view(old(self).holder.vertex_property_values),
                props@[0].0@,
                props@[0].1@,
            ),
            r matches Err(e) ==> e.is_storage(),
    {
        let mut i: usize = 0;
        while i < props.len()
            invariant
                i <= props@.len(),
                forall|j: int| #![trigger props@[j]] 0 <= j < props@.len() ==> props@[j].1.wf(),
                same_meta(*old(self), *self) && same_vertex_tree(*old(self), *self)
                    && same_edge_trees(*old(self), *self) && same_eprop_trees(
                    *old(self),
                    *self,
                ),
                forall|j: int|
                    #![trigger props@[j]]
                    0 <= j < i ==> !tree_view(self.holder.vertex_properties).contains_key(
                        prop_key(props@[j].0@, props@[j].1@),
                    ),
                i == 0 ==> self.holder.vertex_properties == old(
                    self,
                ).holder.vertex_properties && self.holder.vertex_property_values == old(
                    self,
                ).holder.vertex_property_values,
                props@.len() == 1 && i == 1 ==> tree_view(self.holder.vertex_properties)
                    == tree_view(old(self).holder.vertex_properties).remove(
                    prop_key(props@[0].0@, props@[0].1@),
                ) && tree_view(self.holder.vertex_property_values)
                    == vertex_property_manager::index_after_delete(
                    tree_view(old(self).holder.vertex_properties),
                    tree_view(old(self).holder.vertex_property_values),
                    props@[0].0@,
                    props@[0].1@,
                ),
            decreases props@.len() - i,
        {
            let id: Uid = props[i].0;
            let name = props[i].1.dup();
            vertex_property_manager::delete(
                &mut self.holder.vertex_properties,
                &mut self.holder.vertex_property_values,
                &id,
                &name,
            )?;
            i += 1;
        }
        Ok(())
    }

    /// Deletes a property from each listed edge, with value-index cleanup.
    pub fn delete_edge_properties(&mut self, props: &Vec<(Edge, Ident)>) -> (r: Result<
        (),
        DSError,
    >)
        requires
            forall|j: int|
                #![trigger props@[j]]
                0 <= j < props@.len() ==> props@[j].0.wf() && props@[j].1.wf(),
        ensures
            same_meta(*old(self), *final(self)) && same_vertex_tree(*old(self), *final(self))
                && same_edge_trees(*old(self), *final(self)) && same_vprop_trees(
                *old(self),
                *final(self),
            ),
            r is Ok ==> forall|j: int|
                #![trigger props@[j]]
                0 <= j < props@.len() ==> !tree_view(
                    final(self).holder.edge_properties,
                ).contains_key(prop_key(props@[j].0.key(), props@[j].1@)),
            r is Ok && props@.len() == 1 ==> tree_view(final(self).holder.edge_properties)
                == tree_view(old(self).holder.edge_properties).remove(
                prop_key(props@[0].0.key(), props@[0].1@),
            ) && tree_view(final(self).holder.edge_property_values)
                == edge_property_manager::index_after_delete(
                tree_view(old(self).holder.edge_properties),
                tree_view(old(self).holder.edge_property_values),
                props@[0].0.key(),
                props@[0].1@,
            ),
            r matches Err(e) ==> e.is_storage(),
    {
        let mut i: usize = 0;
        while i < props.len()
            invariant
                i <= props@.len(),
                forall|j: int|
                    #![trigger props@[j]]
                    0 <= j < props@.len() ==> props@[j].0.wf() && props@[j].1.wf(),
                same_meta(*old(self), *self) && same_vertex_tree(*old(self), *self)
                    && same_edge_trees(*old(self), *self) && same_vprop_trees(
                    *old(self),
                    *self,
                ),
                forall|j: int|
                    #![trigger props@[j]]
                    0 <= j < i ==> !tree_view(self.holder.edge_properties).contains_key(
                        prop_key(props@[j].0.key(), props@[j].1@),
                    ),
                i == 0 ==> self.holder.edge_properties == old(self).holder.edge_properties
                    && self.holder.edge_property_values == old(
                    self,
                ).holder.edge_property_values,
                props@.len() == 1 && i == 1 ==> tree_view(self.holder.edge_properties)
                    == tree_view(old(self).holder.edge_properties).remove(
                    prop_key(props@[0].0.key(), props@[0].1@),
                ) && tree_view(self.holder.edge_property_values)
                    == edge_property_manager::index_after_delete(
                    tree_view(old(self).holder.edge_properties),
                    tree_view(old(self).holder.edge_property_values),
                    props@[0].0.key(),
                    props@[0].1@,
                ),
            decreases props@.len() - i,
        {
            let name = props[i].1.dup();
            edge_property_manager::delete(
                &mut self.holder.edge_properties,
                &mut self.holder.edge_property_values,
                &props[i].0,
                &name,
            )?;
            i += 1;
        }
        Ok(())
    }

    /// Deletes each listed edge whose outbound vertex exists, cascading
    /// over its range entries and properties.
    pub fn delete_edges(&mut self, edges: &Vec<Edge>) -> (r: Result<(), DSError>)
        requires
            forall|j: int| #![trigger edges@[j]] 0 <= j < edges@.len() ==> edges@[j].wf(),
        ensures
            same_meta(*old(self), *final(self)) && same_vertex_tree(*old(self), *final(self))
                && same_vprop_trees(*old(self), *final(self)),
            r is Ok ==> crate::invariants::shrunk(
                tree_view(old(self).holder.edges),
                tree_view(final(self).holder.edges),
            ) && crate::invariants::shrunk(
                tree_view(old(self).holder.edge_ranges),
                tree_view(final(self).holder.edge_ranges),
            ) && crate::invariants::shrunk(
                tree_view(old(self).holder.reversed_edge_ranges),
                tree_view(final(self).holder.reversed_edge_ranges),
            ) && crate::invariants::shrunk(
                tree_view(old(self).holder.edge_properties),
                tree_view(final(self).holder.edge_properties),
            ) && crate::invariants::shrunk(
                tree_view(old(self).holder.edge_property_values),
                tree_view(final(self).holder.edge_property_values),
            ),
            r is Ok && edges@.len() == 1 && tree_view(old(self).holder.vertices).contains_key(
                edges@[0].outbound_id@,
            ) ==> tree_view(final(self).holder.edges) == tree_view(
                old(self).holder.edges,
            ).remove(edges@[0].key()) && tree_view(final(self).holder.edge_ranges) == tree_view(
                old(self).holder.edge_ranges,
            ).remove(edges@[0].key()) && tree_view(final(self).holder.reversed_edge_ranges)
                == tree_view(old(self).holder.reversed_edge_ranges).remove(
                edges@[0].reversed_key(),
            ) && crate::codec::props_stripped(
                tree_view(old(self).holder.edge_properties),
                edges@[0].key(),
                tree_view(final(self).holder.edge_properties),
            ) && crate::codec::index_stripped(
                tree_view(old(self).holder.edge_properties),
                edges@[0].key(),
                tree_view(old(self).holder.edge_property_values),
                tree_view(final(self).holder.edge_property_values),
            ),
            r is Ok && edges@.len() == 1 && !tree_view(old(self).holder.vertices).contains_key(
                edges@[0].outbound_id@,
            ) ==> *final(self) == *old(self),
    {
        let mut i: usize = 0;
        while i < edges.len()
            invariant
                i <= edges@.len(),
                forall|j: int| #![trigger edges@[j]] 0 <= j < edges@.len() ==> edges@[j].wf(),
                same_meta(*old(self), *self) && same_vertex_tree(*old(self), *self)
                    && same_vprop_trees(*old(self), *self),
                crate::invariants::shrunk(
                    tree_view(old(self).holder.edges),
                    tree_view(self.holder.edges),
                ),
                crate::invariants::shrunk(
                    tree_view(old(self).holder.edge_ranges),
                    tree_view(self.holder.edge_ranges),
                ),
                crate::invariants::shrunk(
                    tree_view(old(self).holder.reversed_edge_ranges),
                    tree_view(self.holder.reversed_edge_ranges),
                ),
                crate::invariants::shrunk(
                    tree_view(old(self).holder.edge_properties),
                    tree_view(self.holder.edge_properties),
                ),
                crate::invariants::shrunk(
                    tree_view(old(self).holder.edge_property_values),
                    tree_view(self.holder.edge_property_values),
                ),
                i == 0 ==> *self == *old(self),
                edges@.len() == 1 && i == 1 && tree_view(
                    old(self).holder.vertices,
                ).contains_key(edges@[0].outbound_id@) ==> tree_view(self.holder.edges)
                    == tree_view(old(self).holder.edges).remove(edges@[0].key()) && tree_view(
                    self.holder.edge_ranges,
                ) == tree_view(old(self).holder.edge_ranges).remove(edges@[0].key())
                    && tree_view(self.holder.reversed_edge_ranges) == tree_view(
                    old(self).holder.reversed_edge_ranges,
                ).remove(edges@[0].reversed_key()) && crate::codec::props_stripped(
                    tree_view(old(self).holder.edge_properties),
                    edges@[0].key(),
                    tree_view(self.holder.edge_properties),
                ) && crate::codec::index_stripped(
                    tree_view(old(self).holder.edge_properties),
                    edges@[0].key(),
                    tree_view(old(self).holder.edge_property_values),
                    tree_view(self.holder.edge_property_values),
                ),
                edges@.len() == 1 && i == 1 && !tree_view(
                    old(self).holder.vertices,
                ).contains_key(edges@[0].outbound_id@) ==> *self == *old(self),
            decreases edges@.len() - i,
        {
            let present = vertex_manager::get(&self.holder.vertices, &edges[i].outbound_id)?;
            match present {
                Some(_) => {
                    edge_manager::delete(
                        &mut self.holder.edges,
                        &mut self.holder.edge_ranges,
                        &mut self.holder.reversed_edge_ranges,
                        &mut self.holder.edge_properties,
                        &mut self.holder.edge_property_values,
                        &edges[i],
                    )?;
                },
                None => {},
            }
            i += 1;
        }
        Ok(())
    }

    /// Deletes each listed vertex with the full cascade.
    pub fn delete_vertices(&mut self, vertices: &Vec<Vertex>) -> (r: Result<(), DSError>)
        ensures
            same_meta(*old(self), *final(self)),
            r is Ok && vertices@.len() == 1 ==> crate::invariants::vertex_delete_post(
                old(self).holder,
                final(self).holder,
                vertices@[0].id@,
            ),
            r is Ok && vertices@.len() == 1 && crate::invariants::holder_wf(old(self).holder)
                ==> crate::invariants::vertex_delete_absent(
                final(self).holder,
                vertices@[0].id@,
            ) && crate::invariants::holder_wf(final(self).holder),
    {
        let mut i: usize = 0;
        while i < vertices.len()
            invariant
                i <= vertices@.len(),
                same_meta(*old(self), *self),
                i == 0 ==> *self == *old(self),
                vertices@.len() == 1 && i == 1 ==> crate::invariants::vertex_delete_post(
                    old(self).holder,
                    self.holder,
                    vertices@[0].id@,
                ),
                vertices@.len() == 1 && i == 1 && crate::invariants::holder_wf(
                    old(self).holder,
                ) ==> crate::invariants::vertex_delete_absent(
                    self.holder,
                    vertices@[0].id@,
                ),
            decreases vertices@.len() - i,
        {
            let id: Uid = vertices[i].id;
            vertex_manager::delete(&mut self.holder, &id)?;
            i += 1;
        }
        proof {
            if vertices@.len() == 1 && crate::invariants::holder_wf(old(self).holder) {
                crate::laws::lemma_delete_vertex_preserves_wf(
                    old(self).holder,
                    self.holder,
                    vertices@[0].id@,
                );
            }
        }
        Ok(())
    }

    /// Bulk insert: vertex and edge rows are accumulated into per-tree
    /// atomic batches and applied in the order vertices, edges, forward
    /// ranges, reversed ranges; properties are then written one by one
    /// with index maintenance; finally the store is flushed.  Existence of
    /// endpoints is not re-checked.
    #[verifier::rlimit(100)]
    pub fn bulk_insert(&mut self, items: &Vec<BulkInsertItem>) -> (r: Result<(), DSError>)
        requires
            forall|j: int|
                0 <= j < items@.len() ==> match #[trigger] items@[j] {
                    BulkInsertItem::Vertex(v) => v.wf(),
                    BulkInsertItem::Edge(e) => e.wf(),
                    BulkInsertItem::VertexProperty(id, n, val) => n.wf(),
                    BulkInsertItem::EdgeProperty(e, n, val) => e.wf() && n.wf(),
                },
        ensures
            same_meta(*old(self), *final(self)),
            r is Ok ==> forall|j: int|
                0 <= j < items@.len() ==> match #[trigger] items@[j] {
                    BulkInsertItem::Vertex(v) => tree_view(
                        final(self).holder.vertices,
                    ).contains_key(v.id@),
                    BulkInsertItem::Edge(e) => tree_view(final(self).holder.edges).contains_key(
                        e.key(),
                    ) && tree_view(final(self).holder.edge_ranges).contains_key(e.key())
                        && tree_view(final(self).holder.reversed_edge_ranges).contains_key(
                        e.reversed_key(),
                    ),
                    BulkInsertItem::VertexProperty(id, n, val) => tree_view(
                        final(self).holder.vertex_properties,
                    ).contains_key(prop_key(id@, n@)),
                    BulkInsertItem::EdgeProperty(e, n, val) => tree_view(
                        final(self).holder.edge_properties,
                    ).contains_key(prop_key(e.key(), n@)),
                },
            r is Ok ==> forall|k: Seq<u8>|
                match #[trigger] last_vertex_label(items@, k) {
                    Some(val) => tree_view(final(self).holder.vertices).contains_key(k)
                        && tree_view(final(self).holder.vertices)[k] == val,
                    None => tree_view(final(self).holder.vertices).contains_key(k)
                        == tree_view(old(self).holder.vertices).contains_key(k) && (tree_view(
                        final(self).holder.vertices,
                    ).contains_key(k) ==> tree_view(final(self).holder.vertices)[k]
                        == tree_view(old(self).holder.vertices)[k]),
                },
            r is Ok ==> forall|k: Seq<u8>|
                #![trigger edge_item_written(items@, k)]
                (edge_item_written(items@, k) ==> tree_view(
                    final(self).holder.edges,
                ).contains_key(k) && tree_view(final(self).holder.edges)[k]
                    == crate::bytes::empty_bytes() && tree_view(
                    final(self).holder.edge_ranges,
                ).contains_key(k) && tree_view(final(self).holder.edge_ranges)[k]
                    == crate::bytes::empty_bytes()) && (!edge_item_written(items@, k)
                    ==> tree_view(final(self).holder.edges).contains_key(k) == tree_view(
                    old(self).holder.edges,
                ).contains_key(k) && (tree_view(final(self).holder.edges).contains_key(k)
                    ==> tree_view(final(self).holder.edges)[k] == tree_view(
                    old(self).holder.edges,
                )[k]) && tree_view(final(self).holder.edge_ranges).contains_key(k)
                    == tree_view(old(self).holder.edge_ranges).contains_key(k) && (tree_view(
                    final(self).holder.edge_ranges,
                ).contains_key(k) ==> tree_view(final(self).holder.edge_ranges)[k]
                    == tree_view(old(self).holder.edge_ranges)[k])),
            r is Ok ==> forall|k: Seq<u8>|
                #![trigger rev_edge_item_written(items@, k)]
                (rev_edge_item_written(items@, k) ==> tree_view(
                    final(self).holder.reversed_edge_ranges,
                ).contains_key(k) && tree_view(final(self).holder.reversed_edge_ranges)[k]
                    == crate::bytes::empty_bytes()) && (!rev_edge_item_written(items@, k)
                    ==> tree_view(final(self).holder.reversed_edge_ranges).contains_key(k)
                    == tree_view(old(self).holder.reversed_edge_ranges).contains_key(k) && (
                tree_view(final(self).holder.reversed_edge_ranges).contains_key(k)
                    ==> tree_view(final(self).holder.reversed_edge_ranges)[k] == tree_view(
                    old(self).holder.reversed_edge_ranges,
                )[k])),
            r is Ok ==> forall|k: Seq<u8>|
                match #[trigger] last_vertex_prop(items@, k) {
                    Some(val) => tree_view(final(self).holder.vertex_properties).contains_key(
                        k,
                    ) && tree_view(final(self).holder.vertex_properties)[k] == val,
                    None => tree_view(final(self).holder.vertex_properties).contains_key(k)
                        == tree_view(old(self).holder.vertex_properties).contains_key(k) && (
                    tree_view(final(self).holder.vertex_properties).contains_key(k)
                        ==> tree_view(final(self).holder.vertex_properties)[k] == tree_view(
                        old(self).holder.vertex_properties,
                    )[k]),
                },
            r is Ok ==> forall|k: Seq<u8>|
                match #[trigger] last_edge_prop(items@, k) {
                    Some(val) => tree_view(final(self).holder.edge_properties).contains_key(k)
                        && tree_view(final(self).holder.edge_properties)[k] == val,
                    None => tree_view(final(self).holder.edge_properties).contains_key(k)
                        == tree_view(old(self).holder.edge_properties).contains_key(k) && (
                    tree_view(final(self).holder.edge_properties).contains_key(k)
                        ==> tree_view(final(self).holder.edge_properties)[k] == tree_view(
                        old(self).holder.edge_properties,
                    )[k]),
                },
    {
        let mut vertex_creation_batch = batch_new();
        let mut edge_creation_batch = batch_new();
        let mut edge_range_creation_batch = batch_new();
        let mut edge_range_rev_creation_batch = batch_new();
        let mut vertex_props: Vec<(Uid, Ident, PropValue)> = Vec::new();
        let mut edge_props: Vec<(Edge, Ident, PropValue)> = Vec::new();
        let mut j: usize = 0;
        while j < items.len()
            invariant
                j <= items@.len(),
                same_meta(*old(self), *self),
                *self == *old(self),
                forall|x: int|
                    0 <= x < items@.len() ==> match #[trigger] items@[x] {
                        BulkInsertItem::Vertex(v) => v.wf(),
                        BulkInsertItem::Edge(e) => e.wf(),
                        BulkInsertItem::VertexProperty(id, n, val) => n.wf(),
                        BulkInsertItem::EdgeProperty(e, n, val) => e.wf() && n.wf(),
                    },
                forall|x: int|
                    #![trigger vertex_props@[x]]
                    0 <= x < vertex_props@.len() ==> vertex_props@[x].1.wf(),
                forall|x: int|
                    #![trigger edge_props@[x]]
                    0 <= x < edge_props@.len() ==> edge_props@[x].0.wf()
                        && edge_props@[x].1.wf(),
                forall|x: int|
                    0 <= x < j ==> match #[trigger] items@[x] {
                        BulkInsertItem::Vertex(v) => batch_view(
                            vertex_creation_batch,
                        ).contains_key(v.id@) && batch_view(vertex_creation_batch)[v.id@]
                            is Some,
                        BulkInsertItem::Edge(e) => batch_view(edge_creation_batch).contains_key(
                            e.key(),
                        ) && batch_view(edge_creation_batch)[e.key()] is Some && batch_view(
                            edge_range_creation_batch,
                        ).contains_key(e.key()) && batch_view(
                            edge_range_creation_batch,
                        )[e.key()] is Some && batch_view(
                            edge_range_rev_creation_batch,
                        ).contains_key(e.reversed_key()) && batch_view(
                            edge_range_rev_creation_batch,
                        )[e.reversed_key()] is Some,
                        BulkInsertItem::VertexProperty(id, n, val) => lists_vprop(
                            vertex_props@,
                            id@,
                            n@,
                        ),
                        BulkInsertItem::EdgeProperty(e, n, val) => lists_eprop(
                            edge_props@,
                            e.key(),
                            n@,
                        ),
                    },
                vbatch_tracks(items@.take(j as int), batch_view(vertex_creation_batch)),
                forall|k: Seq<u8>|
                    #![trigger batch_view(edge_creation_batch).contains_key(k)]
                    (edge_item_written(items@.take(j as int), k) == batch_view(
                        edge_creation_batch,
                    ).contains_key(k)) && (batch_view(edge_creation_batch).contains_key(k)
                        ==> batch_view(edge_creation_batch)[k] == Some(
                        crate::bytes::empty_bytes(),
                    )),
                forall|k: Seq<u8>|
                    #![trigger batch_view(edge_range_creation_batch).contains_key(k)]
                    (edge_item_written(items@.take(j as int), k) == batch_view(
                        edge_range_creation_batch,
                    ).contains_key(k)) && (batch_view(
                        edge_range_creation_batch,
                    ).contains_key(k) ==> batch_view(edge_range_creation_batch)[k] == Some(
                        crate::bytes::empty_bytes(),
                    )),
                forall|k: Seq<u8>|
                    #![trigger batch_view(edge_range_rev_creation_batch).contains_key(k)]
                    (rev_edge_item_written(items@.take(j as int), k) == batch_view(
                        edge_range_rev_creation_batch,
                    ).contains_key(k)) && (batch_view(
                        edge_range_rev_creation_batch,
                    ).contains_key(k) ==> batch_view(edge_range_rev_creation_batch)[k] == Some(
                        crate::bytes::empty_bytes(),
                    )),
                vviews(vertex_props@) == vprop_items(items@.take(j as int)),
                eviews(edge_props@) == eprop_items(items@.take(j as int)),
            decreases items@.len() - j,
        {
            let ghost vprops_snap = vertex_props@;
            let ghost eprops_snap = edge_props@;
            let ghost bvv_snap = batch_view(vertex_creation_batch);
            let ghost bve_snap = batch_view(edge_creation_batch);
            let ghost bvf_snap = batch_view(edge_range_creation_batch);
            let ghost bvr_snap = batch_view(edge_range_rev_creation_batch);
            proof {
                assert(items@.take(j + 1).drop_last() =~= items@.take(j as int));
                assert(items@.take(j + 1).last() == items@[j as int]);
            }
            match &items[j] {
                BulkInsertItem::Vertex(v) => {
                    vertex_manager::create_batch(v, &mut vertex_creation_batch)?;
                },
                BulkInsertItem::Edge(e) => {
                    edge_manager::set_batch(
                        e,
                        &mut edge_creation_batch,
                        &mut edge_range_creation_batch,
                        &mut edge_range_rev_creation_batch,
                    )?;
                },
                BulkInsertItem::VertexProperty(id, n, val) => {
                    vertex_props.push((*id, n.dup(), val.dup()));
                },
                BulkInsertItem::EdgeProperty(e, n, val) => {
                    edge_props.push((e.dup(), n.dup(), val.dup()));
                },
            }
            proof {
                assert forall|k: Seq<u8>, n2: Seq<u8>|
                    lists_vprop(vprops_snap, k, n2) implies lists_vprop(
                    vertex_props@,
                    k,
                    n2,
                ) by {
                    let x = choose|x: int|
                        0 <= x < vprops_snap.len() && #[trigger] vprops_snap[x].0@ == k
                            && vprops_snap[x].1@ == n2;
                    assert(vertex_props@[x].0@ == k && vertex_props@[x].1@ == n2);
                }
                assert forall|k: Seq<u8>, n2: Seq<u8>|
                    lists_eprop(eprops_snap, k, n2) implies lists_eprop(
                    edge_props@,
                    k,
                    n2,
                ) by {
                    let x = choose|x: int|
                        0 <= x < eprops_snap.len() && #[trigger] eprops_snap[x].0.key() == k
                            && eprops_snap[x].1@ == n2;
                    assert(edge_props@[x].0.key() == k && edge_props@[x].1@ == n2);
                }
                if items@[j as int] is VertexProperty {
                    assert(vertex_props@[vertex_props@.len() - 1].0@
                        == items@[j as int]->VertexProperty_0@);
                    assert(lists_vprop(
                        vertex_props@,
                        items@[j as int]->VertexProperty_0@,
                        items@[j as int]->VertexProperty_1@,
                    ));
                }
                if items@[j as int] is EdgeProperty {
                    assert(edge_props@[edge_props@.len() - 1].0.key()
                        == items@[j as int]->EdgeProperty_0.key());
                    assert(lists_eprop(
                        edge_props@,
                        items@[j as int]->EdgeProperty_0.key(),
                        items@[j as int]->EdgeProperty_1@,
                    ));
                }
                let cur = items@.take(j + 1);
                let pre = items@.take(j as int);
                assert(vbatch_tracks(cur, batch_view(vertex_creation_batch))) by {
                assert forall|k: Seq<u8>|
                    #![trigger batch_view(vertex_creation_batch).contains_key(k)]
                    match last_vertex_label(cur, k) {
                        Some(val) => batch_view(vertex_creation_batch).contains_key(k)
                            && batch_view(vertex_creation_batch)[k] == Some(val),
                        None => !batch_view(vertex_creation_batch).contains_key(k),
                    } by {
                    assert(bvv_snap.contains_key(k) || !bvv_snap.contains_key(k));
                    match items@[j as int] {
                        BulkInsertItem::Vertex(v) => {
                            if k != v.id@ {
                                assert(last_vertex_label(cur, k) == last_vertex_label(pre, k));
                                assert(batch_view(vertex_creation_batch) == bvv_snap.insert(
                                    v.id@,
                                    Some(enc_ident(v.t@)),
                                ));
                            } else {
                                assert(last_vertex_label(cur, k) == Some(enc_ident(v.t@)));
                                assert(batch_view(vertex_creation_batch).contains_key(k)
                                    && batch_view(vertex_creation_batch)[k] == Some(
                                    enc_ident(v.t@),
                                ));
                            }
                        },
                        _ => {
                            assert(last_vertex_label(cur, k) == last_vertex_label(pre, k));
                            assert(batch_view(vertex_creation_batch) == bvv_snap);
                        },
                    }
                }
                }
                assert forall|k: Seq<u8>|
                    #![trigger batch_view(edge_creation_batch).contains_key(k)]
                    (edge_item_written(cur, k) == batch_view(
                        edge_creation_batch,
                    ).contains_key(k)) && (batch_view(edge_creation_batch).contains_key(k)
                        ==> batch_view(edge_creation_batch)[k] == Some(
                        crate::bytes::empty_bytes(),
                    )) by {
                    assert(bve_snap.contains_key(k) || !bve_snap.contains_key(k));
                    assert(edge_item_written(cur, k) == ((match items@[j as int] {
                        BulkInsertItem::Edge(e) => e.key() == k,
                        _ => false,
                    }) || edge_item_written(pre, k)));
                }
                assert forall|k: Seq<u8>|
                    #![trigger batch_view(edge_range_creation_batch).contains_key(k)]
                    (edge_item_written(cur, k) == batch_view(
                        edge_range_creation_batch,
                    ).contains_key(k)) && (batch_view(
                        edge_range_creation_batch,
                    ).contains_key(k) ==> batch_view(edge_range_creation_batch)[k] == Some(
                        crate::bytes::empty_bytes(),
                    )) by {
                    assert(bvf_snap.contains_key(k) || !bvf_snap.contains_key(k));
                    assert(edge_item_written(cur, k) == ((match items@[j as int] {
                        BulkInsertItem::Edge(e) => e.key() == k,
                        _ => false,
                    }) || edge_item_written(pre, k)));
                }
                assert forall|k: Seq<u8>|
                    #![trigger batch_view(edge_range_rev_creation_batch).contains_key(k)]
                    (rev_edge_item_written(cur, k) == batch_view(
                        edge_range_rev_creation_batch,
                    ).contains_key(k)) && (batch_view(
                        edge_range_rev_creation_batch,
                    ).contains_key(k) ==> batch_view(edge_range_rev_creation_batch)[k] == Some(
                        crate::bytes::empty_bytes(),
                    )) by {
                    assert(bvr_snap.contains_key(k) || !bvr_snap.contains_key(k));
                    assert(rev_edge_item_written(cur, k) == ((match items@[j as int] {
                        BulkInsertItem::Edge(e) => e.reversed_key() == k,
                        _ => false,
                    }) || rev_edge_item_written(pre, k)));
                }
                match items@[j as int] {
                    BulkInsertItem::VertexProperty(id, n, val) => {
                        assert(vviews(vertex_props@) =~= vviews(vprops_snap).push(
                            (id@, n@, val@),
                        ));
                        assert(vprop_items(cur) =~= vprop_items(pre).push((id@, n@, val@)));
                        assert(eprop_items(cur) == eprop_items(pre));
                    },
                    BulkInsertItem::EdgeProperty(e, n, val) => {
                        assert(eviews(edge_props@) =~= eviews(eprops_snap).push(
                            (e.key(), n@, val@),
                        ));
                        assert(eprop_items(cur) =~= eprop_items(pre).push((e.key(), n@, val@)));
                        assert(vprop_items(cur) == vprop_items(pre));
                    },
                    _ => {
                        assert(vprop_items(cur) == vprop_items(pre));
                        assert(eprop_items(cur) == eprop_items(pre));
                    },
                }
            }
            j += 1;
        }
        proof {
            assert(items@.take(items@.len() as int) =~= items@);
        }
        let ghost bv = batch_view(vertex_creation_batch);
        let ghost be = batch_view(edge_creation_batch);
        let ghost bf = batch_view(edge_range_creation_batch);
        let ghost br = batch_view(edge_range_rev_creation_batch);
        map_err(tree_apply_batch(&mut self.holder.vertices, vertex_creation_batch))?;
        map_err(tree_apply_batch(&mut self.holder.edges, edge_creation_batch))?;
        map_err(tree_apply_batch(&mut self.holder.edge_ranges, edge_range_creation_batch))?;
        map_err(
            tree_apply_batch(
                &mut self.holder.reversed_edge_ranges,
                edge_range_rev_creation_batch,
            ),
        )?;
        let ghost gv = tree_view(self.holder.vertices);
        let ghost ge = tree_view(self.holder.edges);
        let ghost gf = tree_view(self.holder.edge_ranges);
        let ghost gr = tree_view(self.holder.reversed_edge_ranges);
        let ghost v0 = tree_view(old(self).holder.vertices);
        let ghost e0 = tree_view(old(self).holder.edges);
        let ghost f0 = tree_view(old(self).holder.edge_ranges);
        let ghost r0 = tree_view(old(self).holder.reversed_edge_ranges);
        proof {
            assert forall|j2: int| 0 <= j2 < items@.len() implies match #[trigger] items@[
                j2
            ] {
                BulkInsertItem::Vertex(v) => gv.contains_key(v.id@),
                BulkInsertItem::Edge(e) => ge.contains_key(e.key()) && gf.contains_key(e.key())
                    && gr.contains_key(e.reversed_key()),
                BulkInsertItem::VertexProperty(id, n, val) => true,
                BulkInsertItem::EdgeProperty(e, n, val) => true,
            } by {
                match items@[j2] {
                    BulkInsertItem::Vertex(v) => {
                        assert(bv.contains_key(v.id@) && bv[v.id@] is Some);
                    },
                    BulkInsertItem::Edge(e) => {
                        assert(be.contains_key(e.key()) && be[e.key()] is Some);
                        assert(bf.contains_key(e.key()) && bf[e.key()] is Some);
                        assert(br.contains_key(e.reversed_key()) && br[e.reversed_key()]
                            is Some);
                    },
                    _ => {},
                }
            }
            assert(vbatch_tracks(items@, bv));
            assert forall|k: Seq<u8>|
                match #[trigger] last_vertex_label(items@, k) {
                    Some(val) => gv.contains_key(k) && gv[k] == val,
                    None => gv.contains_key(k) == v0.contains_key(k) && (gv.contains_key(k)
                        ==> gv[k] == v0[k]),
                } by {
                assert(bv.contains_key(k) || !bv.contains_key(k));
            }
            assert forall|k: Seq<u8>|
                #![trigger edge_item_written(items@, k)]
                (edge_item_written(items@, k) ==> ge.contains_key(k) && ge[k]
                    == crate::bytes::empty_bytes() && gf.contains_key(k) && gf[k]
                    == crate::bytes::empty_bytes()) && (!edge_item_written(items@, k)
                    ==> ge.contains_key(k) == e0.contains_key(k) && (ge.contains_key(k)
                    ==> ge[k] == e0[k]) && gf.contains_key(k) == f0.contains_key(k) && (
                gf.contains_key(k) ==> gf[k] == f0[k])) by {
                assert(be.contains_key(k) || !be.contains_key(k));
                assert(bf.contains_key(k) || !bf.contains_key(k));
            }
            assert forall|k: Seq<u8>|
                #![trigger rev_edge_item_written(items@, k)]
                (rev_edge_item_written(items@, k) ==> gr.contains_key(k) && gr[k]
                    == crate::bytes::empty_bytes()) && (!rev_edge_item_written(items@, k)
                    ==> gr.contains_key(k) == r0.contains_key(k) && (gr.contains_key(k)
                    ==> gr[k] == r0[k])) by {
                assert(br.contains_key(k) || !br.contains_key(k));
            }
        }
        let ghost vp0 = tree_view(old(self).holder.vertex_properties);
        let ghost vlist = vviews(vertex_props@);
        let mut x: usize = 0;
        while x < vertex_props.len()
            invariant
                x <= vertex_props@.len(),
                same_meta(*old(self), *self),
                vlist == vviews(vertex_props@),
                vp0 == tree_view(old(self).holder.vertex_properties),
                tree_view(self.holder.vertices) == gv,
                tree_view(self.holder.edges) == ge,
                tree_view(self.holder.edge_ranges) == gf,
                tree_view(self.holder.reversed_edge_ranges) == gr,
                tree_view(self.holder.edge_properties) == tree_view(
                    old(self).holder.edge_properties,
                ),
                forall|y: int|
                    #![trigger vertex_props@[y]]
                    0 <= y < vertex_props@.len() ==> vertex_props@[y].1.wf(),
                forall|y: int|
                    #![trigger vertex_props@[y]]
                    0 <= y < x ==> tree_view(self.holder.vertex_properties).contains_key(
                        prop_key(vertex_props@[y].0@, vertex_props@[y].1@),
                    ),
                forall|k: Seq<u8>|
                    #![trigger tree_view(self.holder.vertex_properties).contains_key(k)]
                    match last_prop_of(vlist.take(x as int), k) {
                        Some(val) => tree_view(
                            self.holder.vertex_properties,
                        ).contains_key(k) && tree_view(self.holder.vertex_properties)[k]
                            == val,
                        None => tree_view(self.holder.vertex_properties).contains_key(k)
                            == vp0.contains_key(k) && (tree_view(
                            self.holder.vertex_properties,
                        ).contains_key(k) ==> tree_view(self.holder.vertex_properties)[k]
                            == vp0[k]),
                    },
            decreases vertex_props@.len() - x,
        {
            let ghost vp_b = tree_view(self.holder.vertex_properties);
            proof {
                assert(vlist.take(x + 1).drop_last() =~= vlist.take(x as int));
                assert(vlist.take(x + 1).last() == vlist[x as int]);
                assert(vlist[x as int] == (
                    vertex_props@[x as int].0@,
                    vertex_props@[x as int].1@,
                    vertex_props@[x as int].2@,
                ));
            }
            let id: Uid = vertex_props[x].0;
            let name = vertex_props[x].1.dup();
            let value = vertex_props[x].2.dup();
            vertex_property_manager::set(
                &mut self.holder.vertex_properties,
                &mut self.holder.vertex_property_values,
                &id,
                &name,
                &value,
            )?;
            proof {
                let pk = prop_key(vertex_props@[x as int].0@, vertex_props@[x as int].1@);
                assert forall|k: Seq<u8>|
                    #![trigger tree_view(self.holder.vertex_properties).contains_key(k)]
                    match last_prop_of(vlist.take(x + 1), k) {
                        Some(val) => tree_view(
                            self.holder.vertex_properties,
                        ).contains_key(k) && tree_view(self.holder.vertex_properties)[k]
                            == val,
                        None => tree_view(self.holder.vertex_properties).contains_key(k)
                            == vp0.contains_key(k) && (tree_view(
                            self.holder.vertex_properties,
                        ).contains_key(k) ==> tree_view(self.holder.vertex_properties)[k]
                            == vp0[k]),
                    } by {
                    assert(vp_b.contains_key(k) || !vp_b.contains_key(k));
                    if k != pk {
                        assert(last_prop_of(vlist.take(x + 1), k) == last_prop_of(
                            vlist.take(x as int),
                            k,
                        ));
                    }
                }
            }
            x += 1;
        }
        let ghost gvp = tree_view(self.holder.vertex_properties);
        proof {
            assert(vlist.take(vertex_props@.len() as int) =~= vlist);
        }
        let ghost ep0 = tree_view(old(self).holder.edge_properties);
        let ghost elist = eviews(edge_props@);
        let mut y: usize = 0;
        while y < edge_props.len()
            invariant
                y <= edge_props@.len(),
                same_meta(*old(self), *self),
                elist == eviews(edge_props@),
                vlist == vviews(vertex_props@),
                vp0 == tree_view(old(self).holder.vertex_properties),
                ep0 == tree_view(old(self).holder.edge_properties),
                tree_view(self.holder.vertex_properties) == gvp,
                forall|k: Seq<u8>|
                    #![trigger gvp.contains_key(k)]
                    match last_prop_of(vlist, k) {
                        Some(val) => gvp.contains_key(k) && gvp[k] == val,
                        None => gvp.contains_key(k) == vp0.contains_key(k) && (
                        gvp.contains_key(k) ==> gvp[k] == vp0[k]),
                    },
                forall|z: int|
                    #![trigger edge_props@[z]]
                    0 <= z < edge_props@.len() ==> edge_props@[z].0.wf()
                        && edge_props@[z].1.wf(),
                forall|z: int|
                    #![trigger vertex_props@[z]]
                    0 <= z < vertex_props@.len() ==> tree_view(
                        self.holder.vertex_properties,
                    ).contains_key(prop_key(vertex_props@[z].0@, vertex_props@[z].1@)),
                forall|z: int|
                    #![trigger vertex_props@[z]]
                    0 <= z < vertex_props@.len() ==> vertex_props@[z].1.wf(),
                forall|z: int|
                    #![trigger edge_props@[z]]
                    0 <= z < y ==> tree_view(self.holder.edge_properties).contains_key(
                        prop_key(edge_props@[z].0.key(), edge_props@[z].1@),
                    ),
                forall|k: Seq<u8>|
                    #![trigger tree_view(self.holder.edge_properties).contains_key(k)]
                    match last_prop_of(elist.take(y as int), k) {
                        Some(val) => tree_view(self.holder.edge_properties).contains_key(k)
                            && tree_view(self.holder.edge_properties)[k] == val,
                        None => tree_view(self.holder.edge_properties).contains_key(k)
                            == ep0.contains_key(k) && (tree_view(
                            self.holder.edge_properties,
                        ).contains_key(k) ==> tree_view(self.holder.edge_properties)[k]
                            == ep0[k]),
                    },
                tree_view(self.holder.vertices) == gv,
                tree_view(self.holder.edges) == ge,
                tree_view(self.holder.edge_ranges) == gf,
                tree_view(self.holder.reversed_edge_ranges) == gr,
            decreases edge_props@.len() - y,
        {
            let ghost ep_b = tree_view(self.holder.edge_properties);
            proof {
                assert(elist.take(y + 1).drop_last() =~= elist.take(y as int));
                assert(elist.take(y + 1).last() == elist[y as int]);
                assert(elist[y as int] == (
                    edge_props@[y as int].0.key(),
                    edge_props@[y as int].1@,
                    edge_props@[y as int].2@,
                ));
            }
            let name = edge_props[y].1.dup();
            let value = edge_props[y].2.dup();
            edge_property_manager::set(
                &mut self.holder.edge_properties,
                &mut self.holder.edge_property_values,
                &edge_props[y].0,
                &name,
                &value,
            )?;
            proof {
                let pk = prop_key(edge_props@[y as int].0.key(), edge_props@[y as int].1@);
                assert forall|k: Seq<u8>|
                    #![trigger tree_view(self.holder.edge_properties).contains_key(k)]
                    match last_prop_of(elist.take(y + 1), k) {
                        Some(val) => tree_view(self.holder.edge_properties).contains_key(k)
                            && tree_view(self.holder.edge_properties)[k] == val,
                        None => tree_view(self.holder.edge_properties).contains_key(k)
                            == ep0.contains_key(k) && (tree_view(
                            self.holder.edge_properties,
                        ).contains_key(k) ==> tree_view(self.holder.edge_properties)[k]
                            == ep0[k]),
                    } by {
                    assert(ep_b.contains_key(k) || !ep_b.contains_key(k));
                    if k != pk {
                        assert(last_prop_of(elist.take(y + 1), k) == last_prop_of(
                            elist.take(y as int),
                            k,
                        ));
                    }
                }
            }
            y += 1;
        }
        proof {
            assert(elist.take(edge_props@.len() as int) =~= elist);
        }
        self.sync()?;
        proof {
            assert forall|k: Seq<u8>|
                match #[trigger] last_vertex_prop(items@, k) {
                    Some(val) => tree_view(self.holder.vertex_properties).contains_key(k)
                        && tree_view(self.holder.vertex_properties)[k] == val,
                    None => tree_view(self.holder.vertex_properties).contains_key(k)
                        == vp0.contains_key(k) && (tree_view(
                        self.holder.vertex_properties,
                    ).contains_key(k) ==> tree_view(self.holder.vertex_properties)[k]
                        == vp0[k]),
                } by {
                lemma_last_vertex_prop_eq(items@, k);
                assert(vlist == vprop_items(items@));
                assert(gvp.contains_key(k) || !gvp.contains_key(k));
            }
            assert forall|k: Seq<u8>|
                match #[trigger] last_edge_prop(items@, k) {
                    Some(val) => tree_view(self.holder.edge_properties).contains_key(k)
                        && tree_view(self.holder.edge_properties)[k] == val,
                    None => tree_view(self.holder.edge_properties).contains_key(k)
                        == ep0.contains_key(k) && (tree_view(
                        self.holder.edge_properties,
                    ).contains_key(k) ==> tree_view(self.holder.edge_properties)[k]
                        == ep0[k]),
                } by {
                lemma_last_edge_prop_eq(items@, k);
                assert(elist == eprop_items(items@));
                assert(tree_view(self.holder.edge_properties).contains_key(k) || !tree_view(
                    self.holder.edge_properties,
                ).contains_key(k));
            }
            assert forall|j2: int| 0 <= j2 < items@.len() implies match #[trigger] items@[
                j2
            ] {
                BulkInsertItem::Vertex(v) => tree_view(self.holder.vertices).contains_key(
                    v.id@,
                ),
                BulkInsertItem::Edge(e) => tree_view(self.holder.edges).contains_key(e.key())
                    && tree_view(self.holder.edge_ranges).contains_key(e.key()) && tree_view(
                    self.holder.reversed_edge_ranges,
                ).contains_key(e.reversed_key()),
                BulkInsertItem::VertexProperty(id, n, val) => tree_view(
                    self.holder.vertex_properties,
                ).contains_key(prop_key(id@, n@)),
                BulkInsertItem::EdgeProperty(e, n, val) => tree_view(
                    self.holder.edge_properties,
                ).contains_key(prop_key(e.key(), n@)),
            } by {
                match items@[j2] {
                    BulkInsertItem::Vertex(v) => {
                        assert(gv.contains_key(v.id@));
                    },
                    BulkInsertItem::Edge(e) => {
                        assert(ge.contains_key(e.key()) && gf.contains_key(e.key())
                            && gr.contains_key(e.reversed_key()));
                    },
                    BulkInsertItem::VertexProperty(id, n, val) => {
                        let x2 = choose|x2: int|
                            0 <= x2 < vertex_props@.len() && #[trigger] vertex_props@[x2].0@
                                == id@ && vertex_props@[x2].1@ == n@;
                        assert(tree_view(self.holder.vertex_properties).contains_key(
                            prop_key(vertex_props@[x2].0@, vertex_props@[x2].1@),
                        ));
                    },
                    BulkInsertItem::EdgeProperty(e, n, val) => {
                        let x2 = choose|x2: int|
                            0 <= x2 < edge_props@.len() && #[trigger] edge_props@[x2].0.key()
                                == e.key() && edge_props@[x2].1@ == n@;
                        assert(tree_view(self.holder.edge_properties).contains_key(
                            prop_key(edge_props@[x2].0.key(), edge_props@[x2].1@),
                        ));
                    },
                }
            }
        }
        Ok(())
    }
}

/// The list holds a vertex property for this owner and name.
pub open spec fn lists_vprop(v: Seq<(Uid, Ident, PropValue)>, id: Seq<u8>, n: Seq<u8>) -> bool {
    exists|x: int| 0 <= x < v.len() && #[trigger] v[x].0@ == id && v[x].1@ == n
}

/// The list holds an edge property for this owner key and name.
pub open spec fn lists_eprop(v: Seq<(Edge, Ident, PropValue)>, k: Seq<u8>, n: Seq<u8>) -> bool {
    exists|x: int| 0 <= x < v.len() && #[trigger] v[x].0.key() == k && v[x].1@ == n
}

/// The vertex batch holds exactly the pending vertex-item writes, each at
/// the last label written for its key.
pub open spec fn vbatch_tracks(
    items: Seq<BulkInsertItem>,
    b: Map<Seq<u8>, Option<Seq<u8>>>,
) -> bool {
    forall|k: Seq<u8>|
        #![trigger b.contains_key(k)]
        match last_vertex_label(items, k) {
            Some(val) => b.contains_key(k) && b[k] == Some(val),
            None => !b.contains_key(k),
        }
}

/// The label bytes the last vertex item writing this key leaves, if any:
/// within a batch, later writes win.
pub open spec fn last_vertex_label(items: Seq<BulkInsertItem>, k: Seq<u8>) -> Option<Seq<u8>>
    decreases items.len(),
{
    if items.len() == 0 {
        None
    } else {
        match items.last() {
            BulkInsertItem::Vertex(v) => if v.id@ == k {
                Some(enc_ident(v.t@))
            } else {
                last_vertex_label(items.drop_last(), k)
            },
            _ => last_vertex_label(items.drop_last(), k),
        }
    }
}

/// Whether some edge item writes this forward key.
pub open spec fn edge_item_written(items: Seq<BulkInsertItem>, k: Seq<u8>) -> bool
    decreases items.len(),
{
    if items.len() == 0 {
        false
    } else {
        (match items.last() {
            BulkInsertItem::Edge(e) => e.key() == k,
            _ => false,
        }) || edge_item_written(items.drop_last(), k)
    }
}

/// Whether some edge item writes this reversed key.
pub open spec fn rev_edge_item_written(items: Seq<BulkInsertItem>, k: Seq<u8>) -> bool
    decreases items.len(),
{
    if items.len() == 0 {
        false
    } else {
        (match items.last() {
            BulkInsertItem::Edge(e) => e.reversed_key() == k,
            _ => false,
        }) || rev_edge_item_written(items.drop_last(), k)
    }
}

/// The value the last vertex property item writing this primary key
/// leaves, if any: property writes are applied in item order.
pub open spec fn last_vertex_prop(items: Seq<BulkInsertItem>, k: Seq<u8>) -> Option<Seq<u8>>
    decreases items.len(),
{
    if items.len() == 0 {
        None
    } else {
        match items.last() {
            BulkInsertItem::VertexProperty(id, n, val) => if prop_key(id@, n@) == k {
                Some(val@)
            } else {
                last_vertex_prop(items.drop_last(), k)
            },
            _ => last_vertex_prop(items.drop_last(), k),
        }
    }
}

/// The value the last edge property item writing this primary key leaves,
/// if any.
pub open spec fn last_edge_prop(items: Seq<BulkInsertItem>, k: Seq<u8>) -> Option<Seq<u8>>
    decreases items.len(),
{
    if items.len() == 0 {
        None
    } else {
        match items.last() {
            BulkInsertItem::EdgeProperty(e, n, val) => if prop_key(e.key(), n@) == k {
                Some(val@)
            } else {
                last_edge_prop(items.drop_last(), k)
            },
            _ => last_edge_prop(items.drop_last(), k),
        }
    }
}

/// The vertex property items of a bulk list, as (owner, name, value) byte
/// views, in order.
pub open spec fn vprop_items(items: Seq<BulkInsertItem>) -> Seq<(Seq<u8>, Seq<u8>, Seq<u8>)>
    decreases items.len(),
{
    if items.len() == 0 {
        Seq::empty()
    } else {
        match items.last() {
            BulkInsertItem::VertexProperty(id, n, val) => vprop_items(items.drop_last()).push(
                (id@, n@, val@),
            ),
            _ => vprop_items(items.drop_last()),
        }
    }
}

/// The edge property items of a bulk list, as (owner key, name, value)
/// byte views, in order.
pub open spec fn eprop_items(items: Seq<BulkInsertItem>) -> Seq<(Seq<u8>, Seq<u8>, Seq<u8>)>
    decreases items.len(),
{
    if items.len() == 0 {
        Seq::empty()
    } else {
        match items.last() {
            BulkInsertItem::EdgeProperty(e, n, val) => eprop_items(items.drop_last()).push(
                (e.key(), n@, val@),
            ),
            _ => eprop_items(items.drop_last()),
        }
    }
}

/// The byte views of a collected vertex property list.
pub open spec fn vviews(s: Seq<(Uid, Ident, PropValue)>) -> Seq<(Seq<u8>, Seq<u8>, Seq<u8>)> {
    s.map_values(|p: (Uid, Ident, PropValue)| (p.0@, p.1@, p.2@))
}

/// The byte views of a collected edge property list.
pub open spec fn eviews(s: Seq<(Edge, Ident, PropValue)>) -> Seq<(Seq<u8>, Seq<u8>, Seq<u8>)> {
    s.map_values(|p: (Edge, Ident, PropValue)| (p.0.key(), p.1@, p.2@))
}

/// The value the last (owner, name, value) triple writing this primary key
/// leaves, if any.
pub open spec fn last_prop_of(list: Seq<(Seq<u8>, Seq<u8>, Seq<u8>)>, k: Seq<u8>) -> Option<
    Seq<u8>,
>
    decreases list.len(),
{
    if list.len() == 0 {
        None
    } else {
        if prop_key(list.last().0, list.last().1) == k {
            Some(list.last().2)
        } else {
            last_prop_of(list.drop_last(), k)
        }
    }
}

/// Collecting the vertex property items and replaying them in order leaves
/// each key at the same value as the last item writing it.
proof fn lemma_last_vertex_prop_eq(items: Seq<BulkInsertItem>, k: Seq<u8>)
    ensures
        last_vertex_prop(items, k) == last_prop_of(vprop_items(items), k),
    decreases items.len(),
{
    if items.len() > 0 {
        lemma_last_vertex_prop_eq(items.drop_last(), k);
        match items.last() {
            BulkInsertItem::VertexProperty(id, n, val) => {
                let l = vprop_items(items);
                assert(l.last() == (id@, n@, val@));
                assert(l.drop_last() =~= vprop_items(items.drop_last()));
            },
            _ => {},
        }
    }
}

/// The edge property counterpart.
proof fn lemma_last_edge_prop_eq(items: Seq<BulkInsertItem>, k: Seq<u8>)
    ensures
        last_edge_prop(items, k) == last_prop_of(eprop_items(items), k),
    decreases items.len(),
{
    if items.len() > 0 {
        lemma_last_edge_prop_eq(items.drop_last(), k);
        match items.last() {
            BulkInsertItem::EdgeProperty(e, n, val) => {
                let l = eprop_items(items);
                assert(l.last() == (e.key(), n@, val@));
                assert(l.drop_last() =~= eprop_items(items.drop_last()));
            },
            _ => {},
        }
    }
}

/// The metadata tree, the registry, and the store handle are untouched.
pub open spec fn same_meta(a: SledTransaction, b: SledTransaction) -> bool {
    a.holder.db == b.holder.db && a.holder.metadata == b.holder.metadata && a.indexed
        == b.indexed
}

/// The vertices tree is untouched.
pub open spec fn same_vertex_tree(a: SledTransaction, b: SledTransaction) -> bool {
    a.holder.vertices == b.holder.vertices
}

/// The edges tree and both range trees are untouched.
pub open spec fn same_edge_trees(a: SledTransaction, b: SledTransaction) -> bool {
    a.holder.edges == b.holder.edges && a.holder.edge_ranges == b.holder.edge_ranges
        && a.holder.reversed_edge_ranges == b.holder.reversed_edge_ranges
}

/// The vertex property trees are untouched.
pub open spec fn same_vprop_trees(a: SledTransaction, b: SledTransaction) -> bool {
    a.holder.vertex_properties == b.holder.vertex_properties
        && a.holder.vertex_property_values == b.holder.vertex_property_values
}

/// The edge property trees are untouched.
pub open spec fn same_eprop_trees(a: SledTransaction, b: SledTransaction) -> bool {
    a.holder.edge_properties == b.holder.edge_properties && a.holder.edge_property_values
        == b.holder.edge_property_values
}

/// Every key under the owner's prefix names a listed property.
pub open spec fn props_listed(
    m: Map<Seq<u8>, Seq<u8>>,
    owner: Seq<u8>,
    v: Seq<(Ident, PropValue)>,
) -> bool {
    forall|k: Seq<u8>|
        #![trigger m.contains_key(k), is_prefix_of(owner, k)]
        m.contains_key(k) && is_prefix_of(owner, k) ==> exists|a: int|
            0 <= a < v.len() && k == prop_key(owner, v[a].0@)
}

} // verus!
