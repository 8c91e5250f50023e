//! The vertex manager: the default keyspace.  Key: `Uuid(id)`.  Value:
//! `Identifier(label)`.

use vstd::prelude::*;
use crate::bytes::{is_prefix_of, lex_le, lex_lt};
use crate::codec::{
    append_ident, append_uuid, enc_ident, is_uuid_key, lemma_ident_value_partial,
    lemma_ident_value_unparseable, read_ident, read_uuid, Ident, Uid,
};
use crate::errors::{map_err, DSError};
use crate::kv::{
    batch_insert, batch_view, tree_contains, tree_count, tree_get, tree_insert, tree_scan_from,
    tree_view,
};
use crate::models::Vertex;

verus! {

/// One well-formed vertex row: a 16-byte key whose value is a label.
pub open spec fn vertex_entry_wf(m: Map<Seq<u8>, Seq<u8>>, k: Seq<u8>) -> bool {
    is_uuid_key(k) && exists|t: Seq<u8>| m[k] == #[trigger] enc_ident(t) && t.len() <= 255
}

/// Every row of the vertices tree is well-formed.
pub open spec fn vertices_wf(m: Map<Seq<u8>, Seq<u8>>) -> bool {
    forall|k: Seq<u8>| #[trigger] m.contains_key(k) ==> vertex_entry_wf(m, k)
}

/// `v` lists an entry for every vertex row at or above `start`.
pub open spec fn range_complete(
    m: Map<Seq<u8>, Seq<u8>>,
    start: Seq<u8>,
    v: Seq<(Uid, Ident)>,
) -> bool {
    forall|k: Seq<u8>|
        #![trigger m.contains_key(k), lex_le(start, k)]
        m.contains_key(k) && lex_le(start, k) ==> exists|a: int|
            0 <= a < v.len() && v[a].0@ == k
}

/// The key of a vertex row: its 16 id bytes.
pub fn key(id: &Uid) -> (r: Vec<u8>)
    ensures
        r@ == id@,
{
    let mut v: Vec<u8> = Vec::new();
    append_uuid(&mut v, id);
    proof {
        assert(v@ =~= id@);
    }
    v
}

/// Whether the vertex exists.
pub fn exists_vertex(tree: &sled::Tree, id: &Uid) -> (r: Result<bool, DSError>)
    ensures
        r matches Ok(b) ==> b == tree_view(*tree).contains_key(id@),
        r matches Err(e) ==> e.is_storage(),
{
    let k = key(id);
    map_err(tree_contains(tree, &k))
}

/// How many vertices the tree holds.
pub fn count(tree: &sled::Tree) -> (r: Result<u64, DSError>)
    ensures
        r matches Ok(n) ==> n as nat == tree_view(*tree).dom().len(),
        r matches Err(e) ==> e.is_storage(),
{
    map_err(tree_count(tree))
}

/// The label of a vertex, if the vertex exists.
pub fn get(tree: &sled::Tree, id: &Uid) -> (r: Result<Option<Ident>, DSError>)
    ensures
        match r {
            Ok(Some(l)) => tree_view(*tree).contains_key(id@) && tree_view(*tree)[id@]
                == enc_ident(l@) && l.wf(),
            Ok(None) => !tree_view(*tree).contains_key(id@),
            Err(e) => e.is_storage() || (e.is_decode() && tree_view(*tree).contains_key(id@)
                && !vertex_entry_wf(tree_view(*tree), id@)),
        },
{
    let k = key(id);
    let got = map_err(tree_get(tree, &k))?;
    match got {
        None => Ok(None),
        Some(bytes) => {
            let mut pos: usize = 0;
            let l = match read_ident(&bytes, &mut pos) {
                Ok(t) => t,
                Err(_) => {
                    proof {
                        lemma_ident_value_unparseable(bytes@);
                    }
                    return Err(DSError::Decode);
                },
            };
            if pos != bytes.len() {
                proof {
                    lemma_ident_value_partial(bytes@, l@);
                }
                return Err(DSError::Decode);
            }
            proof {
                assert(bytes@.subrange(0, pos as int) =~= bytes@);
            }
            Ok(Some(l))
        },
    }
}

/// All vertices from `id` inclusive, in ascending id order.
pub fn iterate_for_range(tree: &sled::Tree, id: &Uid) -> (r: Result<Vec<(Uid, Ident)>, DSError>)
    ensures
        r matches Ok(v) ==> forall|a: int, b: int|
            0 <= a < b < v@.len() ==> lex_lt(v@[a].0@, v@[b].0@),
        r matches Ok(v) ==> forall|a: int|
            #![trigger v@[a]]
            0 <= a < v@.len() ==> tree_view(*tree).contains_key(v@[a].0@) && lex_le(id@, v@[a].0@)
                && tree_view(*tree)[v@[a].0@] == enc_ident(v@[a].1@) && v@[a].1.wf(),
        r matches Ok(v) ==> range_complete(tree_view(*tree), id@, v@),
        r matches Err(e) ==> e.is_storage() || (e.is_decode() && !vertices_wf(tree_view(*tree))),
{
    let start = key(id);
    let entries = map_err(tree_scan_from(tree, &start))?;
    let mut out: Vec<(Uid, Ident)> = Vec::new();
    let mut idx: usize = 0;
    while idx < entries.len()
        invariant
            idx <= entries@.len(),
            out@.len() == idx,
            start@ == id@,
            forall|a: int, b: int|
                0 <= a < b < entries@.len() ==> lex_lt(entries@[a].0@, entries@[b].0@),
            forall|a: int|
                #![trigger entries@[a]]
                0 <= a < entries@.len() ==> lex_le(start@, entries@[a].0@) && tree_view(
                    *tree,
                ).contains_key(entries@[a].0@) && tree_view(*tree)[entries@[a].0@]
                    == entries@[a].1@,
            forall|k: Seq<u8>|
                #![trigger tree_view(*tree).contains_key(k), lex_le(start@, k)]
                tree_view(*tree).contains_key(k) && lex_le(start@, k) ==> exists|a: int|
                    0 <= a < entries@.len() && entries@[a].0@ == k,
            forall|j: int|
                #![trigger out@[j]]
                0 <= j < idx ==> out@[j].0@ == entries@[j].0@ && enc_ident(out@[j].1@)
                    == entries@[j].1@ && out@[j].1.wf(),
        decreases entries@.len() - idx,
    {
        let kbytes: &Vec<u8> = &entries[idx].0;
        let vbytes: &Vec<u8> = &entries[idx].1;
        if kbytes.len() != 16 {
            proof {
                assert(lex_le(start@, entries@[idx as int].0@));
                assert(tree_view(*tree).contains_key(kbytes@));
                assert(!vertex_entry_wf(tree_view(*tree), kbytes@));
                assert(!vertices_wf(tree_view(*tree)));
            }
            return Err(DSError::Decode);
        }
        let mut pos: usize = 0;
        let uid = match read_uuid(kbytes, &mut pos) {
            Ok(u) => u,
            Err(_) => {
                proof {
                    assert(false);
                }
                return Err(DSError::Decode);
            },
        };
        let mut vpos: usize = 0;
        let label = match read_ident(vbytes, &mut vpos) {
            Ok(t) => t,
            Err(_) => {
                proof {
                    assert(lex_le(start@, entries@[idx as int].0@));
                    assert(tree_view(*tree).contains_key(kbytes@));
                    assert(tree_view(*tree)[kbytes@] == vbytes@);
                    lemma_ident_value_unparseable(vbytes@);
                    assert(!vertex_entry_wf(tree_view(*tree), kbytes@));
                    assert(!vertices_wf(tree_view(*tree)));
                }
                return Err(DSError::Decode);
            },
        };
        if vpos != vbytes.len() {
            proof {
                assert(lex_le(start@, entries@[idx as int].0@));
                assert(tree_view(*tree).contains_key(kbytes@));
                assert(tree_view(*tree)[kbytes@] == vbytes@);
                lemma_ident_value_partial(vbytes@, label@);
                assert(!vertex_entry_wf(tree_view(*tree), kbytes@));
                assert(!vertices_wf(tree_view(*tree)));
            }
            return Err(DSError::Decode);
        }
        proof {
            assert(lex_le(start@, entries@[idx as int].0@));
            assert(uid@ =~= kbytes@);
            assert(vbytes@.subrange(0, vpos as int) =~= vbytes@);
            assert(enc_ident(label@) == vbytes@);
        }
        out.push((uid, label));
        idx += 1;
    }
    proof {
        assert forall|a: int, b: int| 0 <= a < b < out@.len() implies lex_lt(
            out@[a].0@,
            out@[b].0@,
        ) by {
            assert(out@[a].0@ == entries@[a].0@);
            assert(out@[b].0@ == entries@[b].0@);
        }
        assert forall|a: int| 0 <= a < out@.len() implies (tree_view(*tree).contains_key(
            #[trigger] out@[a].0@,
        ) && lex_le(id@, out@[a].0@) && tree_view(*tree)[out@[a].0@] == enc_ident(out@[a].1@)
            && out@[a].1.wf()) by {
            assert(out@[a].0@ == entries@[a].0@);
            assert(lex_le(start@, entries@[a].0@));
            assert(tree_view(*tree)[entries@[a].0@] == entries@[a].1@);
            assert(enc_ident(out@[a].1@) == entries@[a].1@);
        }
        assert forall|k: Seq<u8>|
            #![trigger tree_view(*tree).contains_key(k), lex_le(id@, k)]
            tree_view(*tree).contains_key(k) && lex_le(id@, k) implies exists|a: int|
            0 <= a < out@.len() && out@[a].0@ == k by {
            let j = choose|j: int| 0 <= j < entries@.len() && entries@[j].0@ == k;
            assert(out@[j].0@ == k);
        }
        assert(range_complete(tree_view(*tree), id@, out@));
    }
    Ok(out)
}

/// Conditional insert: no overwrite of an existing vertex.
pub fn create(tree: &mut sled::Tree, vertex: &Vertex) -> (r: Result<bool, DSError>)
    requires
        vertex.wf(),
    ensures
        r matches Ok(b) ==> if b {
            !tree_view(*old(tree)).contains_key(vertex.id@) && tree_view(*final(tree))
                == tree_view(*old(tree)).insert(vertex.id@, enc_ident(vertex.t@))
        } else {
            tree_view(*old(tree)).contains_key(vertex.id@) && *final(tree) == *old(tree)
        },
        r matches Err(e) ==> e.is_storage(),
{
    let k = key(&vertex.id);
    if map_err(tree_contains(tree, &k))? {
        return Ok(false);
    }
    let mut val: Vec<u8> = Vec::new();
    append_ident(&mut val, &vertex.t);
    proof {
        assert(val@ =~= enc_ident(vertex.t@));
    }
    map_err(tree_insert(tree, &k, &val))?;
    Ok(true)
}

/// Queues the vertex row into a batch (unconditional write).
pub fn create_batch(vertex: &Vertex, batch: &mut sled::Batch) -> (r: Result<(), DSError>)
    requires
        vertex.wf(),
    ensures
        r is Ok,
        batch_view(*final(batch)) == batch_view(*old(batch)).insert(
            vertex.id@,
            Some(enc_ident(vertex.t@)),
        ),
{
    let k = key(&vertex.id);
    let mut val: Vec<u8> = Vec::new();
    append_ident(&mut val, &vertex.t);
    proof {
        assert(val@ =~= enc_ident(vertex.t@));
    }
    batch_insert(batch, &k, &val);
    Ok(())
}

} // verus!

verus! {

use crate::codec::{
    derived_index_entry, edge_key, index_stripped, json_hash, lemma_edge_key_prefix_unique,
    prop_key, props_stripped, value_index_key,
};
use crate::datastore::SledHolder;
use crate::invariants::{
    all_derived_gone, among, derived_of_any, edges_kept, eps_kept, epvs_kept, holder_wf,
    no_edge_with_endpoint, no_ep_with_endpoint, no_epv_with_endpoint, no_key_with_prefix,
    no_vpv_with_owner, prefixed_by_any, shrunk, vpvs_kept,
};
use crate::models::Edge;

/// The edge keys of a list of edges.
pub open spec fn keys_of(list: Seq<Edge>) -> Seq<Seq<u8>> {
    list.map_values(|e: Edge| e.key())
}

/// The reversed-tree keys of a list of edges.
pub open spec fn rkeys_of(list: Seq<Edge>) -> Seq<Seq<u8>> {
    list.map_values(|e: Edge| e.reversed_key())
}

/// Deletes every edge of the list, each with its range entries and
/// properties.
#[verifier::rlimit(50)]
fn delete_edges_listed(
    edges: &mut sled::Tree,
    fwd: &mut sled::Tree,
    rev: &mut sled::Tree,
    eprops: &mut sled::Tree,
    epvals: &mut sled::Tree,
    list: &Vec<Edge>,
) -> (r: Result<(), DSError>)
    requires
        forall|a: int| #![trigger list@[a]] 0 <= a < list@.len() ==> list@[a].wf(),
        forall|a: int, b: int| 0 <= a < b < list@.len() ==> list@[a].key() != list@[b].key(),
    ensures
        r is Ok ==> shrunk(tree_view(*old(edges)), tree_view(*final(edges))),
        r is Ok ==> shrunk(tree_view(*old(fwd)), tree_view(*final(fwd))),
        r is Ok ==> shrunk(tree_view(*old(rev)), tree_view(*final(rev))),
        r is Ok ==> shrunk(tree_view(*old(eprops)), tree_view(*final(eprops))),
        r is Ok ==> shrunk(tree_view(*old(epvals)), tree_view(*final(epvals))),
        r is Ok ==> forall|k: Seq<u8>|
            #[trigger] tree_view(*old(edges)).contains_key(k) && !tree_view(
                *final(edges),
            ).contains_key(k) ==> among(keys_of(list@), list@.len() as int, k),
        r is Ok ==> forall|k: Seq<u8>|
            #[trigger] tree_view(*old(fwd)).contains_key(k) && !tree_view(
                *final(fwd),
            ).contains_key(k) ==> among(keys_of(list@), list@.len() as int, k),
        r is Ok ==> forall|k: Seq<u8>|
            #[trigger] tree_view(*old(rev)).contains_key(k) && !tree_view(
                *final(rev),
            ).contains_key(k) ==> among(rkeys_of(list@), list@.len() as int, k),
        r is Ok ==> forall|a: int|
            0 <= a < list@.len() ==> !tree_view(*final(edges)).contains_key(
                #[trigger] keys_of(list@)[a],
            ) && !tree_view(*final(fwd)).contains_key(keys_of(list@)[a]) && !tree_view(
                *final(rev),
            ).contains_key(rkeys_of(list@)[a]),
        r is Ok ==> forall|k: Seq<u8>|
            #[trigger] tree_view(*old(eprops)).contains_key(k) && !tree_view(
                *final(eprops),
            ).contains_key(k) ==> prefixed_by_any(keys_of(list@), list@.len() as int, k),
        r is Ok ==> forall|k: Seq<u8>|
            #[trigger] tree_view(*final(eprops)).contains_key(k) ==> !prefixed_by_any(
                keys_of(list@),
                list@.len() as int,
                k,
            ),
        r is Ok ==> forall|ik: Seq<u8>|
            #[trigger] tree_view(*old(epvals)).contains_key(ik) && !tree_view(
                *final(epvals),
            ).contains_key(ik) ==> derived_of_any(
                keys_of(list@),
                list@.len() as int,
                tree_view(*old(eprops)),
                ik,
            ),
        r is Ok ==> all_derived_gone(
            keys_of(list@),
            list@.len() as int,
            tree_view(*old(eprops)),
            tree_view(*final(epvals)),
        ),
{
    let ghost eks = keys_of(list@);
    let ghost rks = rkeys_of(list@);
    let ghost e0 = tree_view(*edges);
    let ghost f0 = tree_view(*fwd);
    let ghost r0 = tree_view(*rev);
    let ghost p0 = tree_view(*eprops);
    let ghost i0 = tree_view(*epvals);
    let mut i: usize = 0;
    while i < list.len()
        invariant
            i <= list@.len(),
            eks == keys_of(list@),
            rks == rkeys_of(list@),
            e0 == tree_view(*old(edges)),
            f0 == tree_view(*old(fwd)),
            r0 == tree_view(*old(rev)),
            p0 == tree_view(*old(eprops)),
            i0 == tree_view(*old(epvals)),
            forall|a: int| #![trigger list@[a]] 0 <= a < list@.len() ==> list@[a].wf(),
            forall|a: int, b: int| 0 <= a < b < list@.len() ==> list@[a].key() != list@[b].key(),
            shrunk(e0, tree_view(*edges)),
            shrunk(f0, tree_view(*fwd)),
            shrunk(r0, tree_view(*rev)),
            shrunk(p0, tree_view(*eprops)),
            shrunk(i0, tree_view(*epvals)),
            forall|k: Seq<u8>|
                #[trigger] e0.contains_key(k) && !tree_view(*edges).contains_key(k) ==> among(
                    eks,
                    i as int,
                    k,
                ),
            forall|k: Seq<u8>|
                #[trigger] f0.contains_key(k) && !tree_view(*fwd).contains_key(k) ==> among(
                    eks,
                    i as int,
                    k,
                ),
            forall|k: Seq<u8>|
                #[trigger] r0.contains_key(k) && !tree_view(*rev).contains_key(k) ==> among(
                    rks,
                    i as int,
                    k,
                ),
            forall|a: int|
                0 <= a < i ==> !tree_view(*edges).contains_key(#[trigger] eks[a]) && !tree_view(
                    *fwd,
                ).contains_key(eks[a]) && !tree_view(*rev).contains_key(rks[a]),
            forall|k: Seq<u8>|
                #[trigger] p0.contains_key(k) && !tree_view(*eprops).contains_key(k)
                    ==> prefixed_by_any(eks, i as int, k),
            forall|k: Seq<u8>|
                #[trigger] tree_view(*eprops).contains_key(k) ==> !prefixed_by_any(
                    eks,
                    i as int,
                    k,
                ),
            forall|ik: Seq<u8>|
                #[trigger] i0.contains_key(ik) && !tree_view(*epvals).contains_key(ik)
                    ==> derived_of_any(eks, i as int, p0, ik),
            all_derived_gone(eks, i as int, p0, tree_view(*epvals)),
        decreases list@.len() - i,
    {
        let ghost e_b = tree_view(*edges);
        let ghost f_b = tree_view(*fwd);
        let ghost r_b = tree_view(*rev);
        let ghost p_b = tree_view(*eprops);
        let ghost i_b = tree_view(*epvals);
        let ghost ii = i as int;
        proof {
            assert(list@[ii].wf());
            assert(eks[ii] == list@[ii].key());
            assert(rks[ii] == list@[ii].reversed_key());
        }
        crate::edge_manager::delete(edges, fwd, rev, eprops, epvals, &list[i])?;
        proof {
            let ek = list@[ii].key();
            // Edge and range rows of this step.
            assert forall|a: int| 0 <= a < ii + 1 implies !tree_view(*edges).contains_key(
                #[trigger] eks[a],
            ) && !tree_view(*fwd).contains_key(eks[a]) && !tree_view(*rev).contains_key(
                rks[a],
            ) by {
                if a < ii {
                    assert(!e_b.contains_key(eks[a]));
                    assert(!f_b.contains_key(eks[a]));
                    assert(!r_b.contains_key(rks[a]));
                }
            }
            assert forall|k: Seq<u8>|
                #[trigger] e0.contains_key(k) && !tree_view(*edges).contains_key(
                    k,
                ) implies among(eks, ii + 1, k) by {
                if e_b.contains_key(k) {
                    assert(k == ek);
                    assert(eks[ii] == k);
                }
            }
            assert forall|k: Seq<u8>|
                #[trigger] f0.contains_key(k) && !tree_view(*fwd).contains_key(k) implies among(
                    eks,
                    ii + 1,
                    k,
                ) by {
                if f_b.contains_key(k) {
                    assert(eks[ii] == k);
                }
            }
            assert forall|k: Seq<u8>|
                #[trigger] r0.contains_key(k) && !tree_view(*rev).contains_key(k) implies among(
                    rks,
                    ii + 1,
                    k,
                ) by {
                if r_b.contains_key(k) {
                    assert(rks[ii] == k);
                }
            }
            // Edge property rows.
            assert forall|k: Seq<u8>|
                #[trigger] p0.contains_key(k) && !tree_view(*eprops).contains_key(
                    k,
                ) implies prefixed_by_any(eks, ii + 1, k) by {
                if p_b.contains_key(k) {
                    assert(is_prefix_of(ek, k));
                    assert(is_prefix_of(eks[ii], k));
                }
            }
            assert forall|k: Seq<u8>|
                #[trigger] tree_view(*eprops).contains_key(k) implies !prefixed_by_any(
                    eks,
                    ii + 1,
                    k,
                ) by {
                assert(p_b.contains_key(k));
                if prefixed_by_any(eks, ii + 1, k) {
                    let a = choose|a: int| 0 <= a < ii + 1 && is_prefix_of(#[trigger] eks[a], k);
                    if a < ii {
                        assert(!prefixed_by_any(eks, ii as int, k));
                        assert(is_prefix_of(eks[a], k));
                    } else {
                        assert(is_prefix_of(ek, k));
                    }
                }
            }
            // Edge value-index rows.
            assert forall|ik: Seq<u8>|
                #[trigger] i0.contains_key(ik) && !tree_view(*epvals).contains_key(
                    ik,
                ) implies derived_of_any(eks, ii + 1, p0, ik) by {
                if i_b.contains_key(ik) {
                    assert(derived_index_entry(p_b, ek, ik));
                    let n = choose|n: Seq<u8>|
                        p_b.contains_key(#[trigger] prop_key(ek, n)) && n.len() <= 255 && ik
                            == value_index_key(n, json_hash(p_b[prop_key(ek, n)]), ek);
                    assert(p0.contains_key(prop_key(ek, n)));
                    assert(p0[prop_key(ek, n)] == p_b[prop_key(ek, n)]);
                    assert(derived_index_entry(p0, eks[ii], ik));
                }
            }
            assert forall|a: int, n: Seq<u8>|
                0 <= a < ii + 1 && p0.contains_key(#[trigger] prop_key(eks[a], n)) && n.len()
                    <= 255 implies !tree_view(*epvals).contains_key(
                value_index_key(n, json_hash(p0[prop_key(eks[a], n)]), eks[a]),
            ) by {
                if a < ii {
                    assert(!i_b.contains_key(
                        value_index_key(n, json_hash(p0[prop_key(eks[a], n)]), eks[a]),
                    ));
                } else {
                    let pk = prop_key(ek, n);
                    if !p_b.contains_key(pk) {
                        assert(prefixed_by_any(eks, ii as int, pk));
                        let x = choose|x: int|
                            0 <= x < ii && is_prefix_of(#[trigger] eks[x], pk);
                        crate::codec::lemma_prop_key_facts(ek, n);
                        crate::bytes::lemma_prefix_concat(ek, crate::codec::enc_ident(n));
                        lemma_edge_key_prefix_unique(
                            list@[x].outbound_id@,
                            list@[x].t@,
                            list@[x].inbound_id@,
                            list@[ii].outbound_id@,
                            list@[ii].t@,
                            list@[ii].inbound_id@,
                            pk,
                        );
                        assert(list@[x].key() == list@[ii].key());
                        assert(false);
                    }
                    assert(p_b[pk] == p0[pk]);
                }
            }
            assert(all_derived_gone(eks, ii + 1, p0, tree_view(*epvals)));
        }
        i += 1;
    }
    Ok(())
}

} // verus!

verus! {

/// Deletes every property owned by the vertex, each with its value-index
/// entry.
#[verifier::rlimit(50)]
fn delete_owner_vertex_props(
    vprops: &mut sled::Tree,
    vpvals: &mut sled::Tree,
    id: &Uid,
) -> (r: Result<(), DSError>)
    ensures
        r is Ok ==> props_stripped(tree_view(*old(vprops)), id@, tree_view(*final(vprops))),
        r is Ok ==> index_stripped(
            tree_view(*old(vprops)),
            id@,
            tree_view(*old(vpvals)),
            tree_view(*final(vpvals)),
        ),
{
    let items = crate::vertex_property_manager::iterate_for_owner(vprops, id)?;
    let ghost pm0 = tree_view(*vprops);
    let ghost im0 = tree_view(*vpvals);
    let mut j: usize = 0;
    while j < items.len()
        invariant
            j <= items@.len(),
            pm0 == tree_view(*old(vprops)),
            im0 == tree_view(*old(vpvals)),
            forall|a: int, b: int|
                0 <= a < b < items@.len() ==> crate::bytes::lex_lt(
                    prop_key(id@, items@[a].0.1@),
                    prop_key(id@, items@[b].0.1@),
                ),
            forall|a: int|
                #![trigger items@[a]]
                0 <= a < items@.len() ==> items@[a].0.0@ == id@ && items@[a].0.1.wf()
                    && pm0.contains_key(prop_key(id@, items@[a].0.1@)) && pm0[prop_key(
                    id@,
                    items@[a].0.1@,
                )] == items@[a].1@,
            forall|k2: Seq<u8>|
                #![trigger pm0.contains_key(k2), is_prefix_of(id@, k2)]
                pm0.contains_key(k2) && is_prefix_of(id@, k2) ==> exists|a: int|
                    0 <= a < items@.len() && k2 == prop_key(id@, items@[a].0.1@),
            forall|k2: Seq<u8>|
                #[trigger] tree_view(*vprops).contains_key(k2) ==> pm0.contains_key(k2)
                    && tree_view(*vprops)[k2] == pm0[k2],
            forall|k2: Seq<u8>|
                #[trigger] pm0.contains_key(k2) && !tree_view(*vprops).contains_key(k2)
                    ==> exists|a: int| 0 <= a < j && k2 == prop_key(id@, items@[a].0.1@),
            forall|a: int|
                #![trigger items@[a]]
                0 <= a < j ==> !tree_view(*vprops).contains_key(prop_key(id@, items@[a].0.1@)),
            forall|ik: Seq<u8>|
                #[trigger] tree_view(*vpvals).contains_key(ik) ==> im0.contains_key(ik)
                    && tree_view(*vpvals)[ik] == im0[ik],
            forall|ik: Seq<u8>|
                #[trigger] im0.contains_key(ik) && !tree_view(*vpvals).contains_key(ik)
                    ==> exists|a: int|
                    0 <= a < j && ik == value_index_key(
                        items@[a].0.1@,
                        json_hash(items@[a].1@),
                        id@,
                    ),
            forall|a: int|
                #![trigger items@[a]]
                0 <= a < j ==> !tree_view(*vpvals).contains_key(
                    value_index_key(items@[a].0.1@, json_hash(items@[a].1@), id@),
                ),
        decreases items@.len() - j,
    {
        let item_name = items[j].0.1.dup();
        proof {
            assert forall|a: int| 0 <= a < j implies prop_key(id@, items@[a].0.1@) != prop_key(
                id@,
                items@[j as int].0.1@,
            ) by {
                crate::bytes::lemma_lex_lt_irrefl(prop_key(id@, items@[a].0.1@));
            }
            assert(tree_view(*vprops).contains_key(prop_key(id@, item_name@)));
            assert(tree_view(*vprops)[prop_key(id@, item_name@)] == items@[j as int].1@);
        }
        crate::vertex_property_manager::delete(vprops, vpvals, id, &item_name)?;
        proof {
            assert(!tree_view(*vprops).contains_key(prop_key(id@, items@[j as int].0.1@)));
            assert(!tree_view(*vpvals).contains_key(
                value_index_key(items@[j as int].0.1@, json_hash(items@[j as int].1@), id@),
            ));
        }
        j += 1;
    }
    proof {
        assert(props_stripped(pm0, id@, tree_view(*vprops))) by {
            assert forall|k2: Seq<u8>|
                #[trigger] tree_view(*vprops).contains_key(k2) implies pm0.contains_key(k2)
                && tree_view(*vprops)[k2] == pm0[k2] && !is_prefix_of(id@, k2) by {
                if is_prefix_of(id@, k2) {
                    let a = choose|a: int|
                        0 <= a < items@.len() && k2 == prop_key(id@, items@[a].0.1@);
                    assert(!tree_view(*vprops).contains_key(prop_key(id@, items@[a].0.1@)));
                }
            }
            assert forall|k2: Seq<u8>|
                #[trigger] pm0.contains_key(k2) && !is_prefix_of(id@, k2) implies tree_view(
                *vprops,
            ).contains_key(k2) by {
                if !tree_view(*vprops).contains_key(k2) {
                    let a = choose|a: int| 0 <= a < j && k2 == prop_key(id@, items@[a].0.1@);
                    crate::codec::lemma_prop_key_facts(id@, items@[a].0.1@);
                    assert(k2.subrange(0, 16) == id@);
                    crate::codec::lemma_prefix16(id@, k2);
                }
            }
        }
        assert(index_stripped(pm0, id@, im0, tree_view(*vpvals))) by {
            assert forall|ik: Seq<u8>| #[trigger] im0.contains_key(ik) implies tree_view(
                *vpvals,
            ).contains_key(ik) || derived_index_entry(pm0, id@, ik) by {
                if !tree_view(*vpvals).contains_key(ik) {
                    let a = choose|a: int|
                        0 <= a < j && ik == value_index_key(
                            items@[a].0.1@,
                            json_hash(items@[a].1@),
                            id@,
                        );
                    assert(pm0.contains_key(prop_key(id@, items@[a].0.1@)));
                    assert(pm0[prop_key(id@, items@[a].0.1@)] == items@[a].1@);
                }
            }
            assert forall|n: Seq<u8>|
                pm0.contains_key(#[trigger] prop_key(id@, n)) && n.len() <= 255 implies
                !tree_view(*vpvals).contains_key(
                value_index_key(n, json_hash(pm0[prop_key(id@, n)]), id@),
            ) by {
                crate::codec::lemma_prop_key_facts(id@, n);
                assert(prop_key(id@, n).subrange(0, 16) == id@);
                crate::codec::lemma_prefix16(id@, prop_key(id@, n));
                let a = choose|a: int|
                    0 <= a < items@.len() && prop_key(id@, n) == prop_key(id@, items@[a].0.1@);
                crate::codec::lemma_prop_key_injective(id@, n, id@, items@[a].0.1@);
                assert(items@[a].0.1@ == n);
                assert(pm0[prop_key(id@, n)] == items@[a].1@);
            }
        }
    }
    Ok(())
}

} // verus!

verus! {

/// Deletes a vertex: its row, all its properties (with value-index
/// cleanup), every outgoing edge found under its prefix in the forward
/// range tree, and every incoming edge found under its prefix in the
/// reversed range tree; each edge deletion cascades over that edge's
/// range entries and properties.
///
/// Rows never referencing the vertex are untouched.  Under the store
/// invariant, no surviving row in any tree references the vertex.
#[verifier::rlimit(100)]
pub fn delete(h: &mut SledHolder, id: &Uid) -> (r: Result<(), DSError>)
    ensures
        final(h).db == old(h).db && final(h).metadata == old(h).metadata,
        r is Ok ==> crate::invariants::vertex_delete_post(*old(h), *final(h), id@),
        r is Ok && holder_wf(*old(h)) ==> crate::invariants::vertex_delete_absent(
            *final(h),
            id@,
        ),
{
    let vk = key(id);
    map_err(crate::kv::tree_remove(&mut h.vertices, &vk))?;
    delete_owner_vertex_props(&mut h.vertex_properties, &mut h.vertex_property_values, id)?;
    let out_list = crate::edge_range_manager::iterate_for_owner(&h.edge_ranges, id)?;
    proof {
        assert forall|a: int, b: int|
            0 <= a < b < out_list@.len() implies out_list@[a].key() != out_list@[b].key() by {
            crate::bytes::lemma_lex_lt_irrefl(out_list@[a].key());
        }
    }
    delete_edges_listed(
        &mut h.edges,
        &mut h.edge_ranges,
        &mut h.reversed_edge_ranges,
        &mut h.edge_properties,
        &mut h.edge_property_values,
        &out_list,
    )?;
    let ghost e3 = tree_view(h.edges);
    let ghost f3 = tree_view(h.edge_ranges);
    let ghost r3 = tree_view(h.reversed_edge_ranges);
    let ghost p3 = tree_view(h.edge_properties);
    let ghost i3 = tree_view(h.edge_property_values);
    let in_list = crate::edge_range_manager::iterate_for_owner(&h.reversed_edge_ranges, id)?;
    let mut actuals: Vec<Edge> = Vec::new();
    let mut b: usize = 0;
    while b < in_list.len()
        invariant
            b <= in_list@.len(),
            actuals@.len() == b,
            forall|a: int|
                #![trigger in_list@[a]]
                0 <= a < in_list@.len() ==> in_list@[a].wf() && in_list@[a].outbound_id@ == id@,
            forall|j: int|
                #![trigger actuals@[j]]
                0 <= j < b ==> actuals@[j].wf() && actuals@[j].outbound_id@
                    == in_list@[j].inbound_id@ && actuals@[j].t@ == in_list@[j].t@
                    && actuals@[j].inbound_id@ == in_list@[j].outbound_id@ && actuals@[j].key()
                    == in_list@[j].reversed_key() && actuals@[j].reversed_key()
                    == in_list@[j].key(),
        decreases in_list@.len() - b,
    {
        let e = crate::models::reverse_edge(&in_list[b]);
        actuals.push(e);
        b += 1;
    }
    proof {
        assert forall|a: int, c: int|
            0 <= a < c < actuals@.len() implies actuals@[a].key() != actuals@[c].key() by {
            if actuals@[a].key() == actuals@[c].key() {
                crate::codec::lemma_edge_key_injective(
                    actuals@[a].outbound_id@,
                    actuals@[a].t@,
                    actuals@[a].inbound_id@,
                    actuals@[c].outbound_id@,
                    actuals@[c].t@,
                    actuals@[c].inbound_id@,
                );
                assert(in_list@[a].key() == in_list@[c].key());
                crate::bytes::lemma_lex_lt_irrefl(in_list@[a].key());
            }
        }
    }
    delete_edges_listed(
        &mut h.edges,
        &mut h.edge_ranges,
        &mut h.reversed_edge_ranges,
        &mut h.edge_properties,
        &mut h.edge_property_values,
        &actuals,
    )?;
    proof {
        lemma_delete_frame(
            id@,
            out_list@,
            actuals@,
            tree_view(old(h).edges),
            tree_view(old(h).edge_ranges),
            tree_view(old(h).reversed_edge_ranges),
            tree_view(old(h).edge_properties),
            tree_view(old(h).edge_property_values),
            e3,
            f3,
            r3,
            p3,
            i3,
            tree_view(h.edges),
            tree_view(h.edge_ranges),
            tree_view(h.reversed_edge_ranges),
            tree_view(h.edge_properties),
            tree_view(h.edge_property_values),
        );
        assert forall|a: int| 0 <= a < actuals@.len() implies !tree_view(
            h.reversed_edge_ranges,
        ).contains_key(#[trigger] rkeys_of(actuals@)[a]) by {
            assert(keys_of(actuals@)[a] == actuals@[a].key());
        }
        lemma_delete_prefix_free(
            id@,
            out_list@,
            in_list@,
            actuals@,
            tree_view(old(h).edge_ranges),
            f3,
            r3,
            tree_view(h.edge_ranges),
            tree_view(h.reversed_edge_ranges),
        );
        let vp0 = tree_view(old(h).vertex_properties);
        let vpv0 = tree_view(old(h).vertex_property_values);
        let vpvf = tree_view(h.vertex_property_values);
        assert(vpvs_kept(vpv0, vpvf, id@)) by {
            assert forall|n: Seq<u8>, h2: u64, ow: Seq<u8>|
                n.len() <= 255 && ow != id@ && vpv0.contains_key(
                    #[trigger] value_index_key(n, h2, ow),
                ) implies vpvf.contains_key(value_index_key(n, h2, ow)) by {
                if !vpvf.contains_key(value_index_key(n, h2, ow)) {
                    assert(derived_index_entry(vp0, id@, value_index_key(n, h2, ow)));
                    let n2 = choose|n2: Seq<u8>|
                        vp0.contains_key(#[trigger] prop_key(id@, n2)) && n2.len() <= 255
                            && value_index_key(n, h2, ow) == value_index_key(
                            n2,
                            json_hash(vp0[prop_key(id@, n2)]),
                            id@,
                        );
                    crate::codec::lemma_value_index_key_injective(
                        n,
                        h2,
                        ow,
                        n2,
                        json_hash(vp0[prop_key(id@, n2)]),
                        id@,
                    );
                }
            }
        }
        if holder_wf(*old(h)) {
            assert(no_vpv_with_owner(vpvf, id@)) by {
                assert forall|n: Seq<u8>, h2: u64| n.len() <= 255 implies !vpvf.contains_key(
                    #[trigger] value_index_key(n, h2, id@),
                ) by {
                    if vpvf.contains_key(value_index_key(n, h2, id@)) {
                        assert(vpv0.contains_key(value_index_key(n, h2, id@)));
                        assert(vp0.contains_key(prop_key(id@, n)) && json_hash(
                            vp0[prop_key(id@, n)],
                        ) == h2);
                        assert(!vpvf.contains_key(
                            value_index_key(n, json_hash(vp0[prop_key(id@, n)]), id@),
                        ));
                    }
                }
            }
            lemma_delete_absence(
                id@,
                out_list@,
                in_list@,
                actuals@,
                tree_view(old(h).edges),
                tree_view(old(h).edge_ranges),
                tree_view(old(h).reversed_edge_ranges),
                tree_view(old(h).edge_properties),
                tree_view(old(h).edge_property_values),
                e3,
                f3,
                r3,
                p3,
                i3,
                tree_view(h.edges),
                tree_view(h.edge_ranges),
                tree_view(h.reversed_edge_ranges),
                tree_view(h.edge_properties),
                tree_view(h.edge_property_values),
            );
            assert(crate::invariants::vertex_delete_absent(*h, id@));
        }
        assert(crate::invariants::vertex_delete_post(*old(h), *h, id@));
    }
    Ok(())
}

} // verus!

verus! {

/// After the two cascade passes, nothing that avoids the vertex was lost:
/// rows survive with their values unless they reference a deleted edge,
/// and every deleted edge has the vertex as an endpoint.
#[verifier::rlimit(100)]
proof fn lemma_delete_frame(
    id: Seq<u8>,
    out: Seq<Edge>,
    acts: Seq<Edge>,
    e0: Map<Seq<u8>, Seq<u8>>,
    f0: Map<Seq<u8>, Seq<u8>>,
    r0: Map<Seq<u8>, Seq<u8>>,
    p0: Map<Seq<u8>, Seq<u8>>,
    i0: Map<Seq<u8>, Seq<u8>>,
    e3: Map<Seq<u8>, Seq<u8>>,
    f3: Map<Seq<u8>, Seq<u8>>,
    r3: Map<Seq<u8>, Seq<u8>>,
    p3: Map<Seq<u8>, Seq<u8>>,
    i3: Map<Seq<u8>, Seq<u8>>,
    ef: Map<Seq<u8>, Seq<u8>>,
    ff: Map<Seq<u8>, Seq<u8>>,
    rf: Map<Seq<u8>, Seq<u8>>,
    pf: Map<Seq<u8>, Seq<u8>>,
    i_f: Map<Seq<u8>, Seq<u8>>,
)
    requires
        forall|a: int|
            #![trigger out[a]]
            0 <= a < out.len() ==> out[a].wf() && out[a].outbound_id@ == id,
        forall|a: int|
            #![trigger acts[a]]
            0 <= a < acts.len() ==> acts[a].wf() && acts[a].inbound_id@ == id,
        shrunk(e0, e3) && shrunk(f0, f3) && shrunk(r0, r3) && shrunk(p0, p3) && shrunk(i0, i3),
        shrunk(e3, ef) && shrunk(f3, ff) && shrunk(r3, rf) && shrunk(p3, pf) && shrunk(i3, i_f),
        forall|k: Seq<u8>|
            #[trigger] e0.contains_key(k) && !e3.contains_key(k) ==> among(
                keys_of(out),
                out.len() as int,
                k,
            ),
        forall|k: Seq<u8>|
            #[trigger] f0.contains_key(k) && !f3.contains_key(k) ==> among(
                keys_of(out),
                out.len() as int,
                k,
            ),
        forall|k: Seq<u8>|
            #[trigger] r0.contains_key(k) && !r3.contains_key(k) ==> among(
                rkeys_of(out),
                out.len() as int,
                k,
            ),
        forall|k: Seq<u8>|
            #[trigger] e3.contains_key(k) && !ef.contains_key(k) ==> among(
                keys_of(acts),
                acts.len() as int,
                k,
            ),
        forall|k: Seq<u8>|
            #[trigger] f3.contains_key(k) && !ff.contains_key(k) ==> among(
                keys_of(acts),
                acts.len() as int,
                k,
            ),
        forall|k: Seq<u8>|
            #[trigger] r3.contains_key(k) && !rf.contains_key(k) ==> among(
                rkeys_of(acts),
                acts.len() as int,
                k,
            ),
        forall|k: Seq<u8>|
            #[trigger] p0.contains_key(k) && !p3.contains_key(k) ==> prefixed_by_any(
                keys_of(out),
                out.len() as int,
                k,
            ),
        forall|k: Seq<u8>|
            #[trigger] p3.contains_key(k) && !pf.contains_key(k) ==> prefixed_by_any(
                keys_of(acts),
                acts.len() as int,
                k,
            ),
        forall|ik: Seq<u8>|
            #[trigger] i0.contains_key(ik) && !i3.contains_key(ik) ==> derived_of_any(
                keys_of(out),
                out.len() as int,
                p0,
                ik,
            ),
        forall|ik: Seq<u8>|
            #[trigger] i3.contains_key(ik) && !i_f.contains_key(ik) ==> derived_of_any(
                keys_of(acts),
                acts.len() as int,
                p3,
                ik,
            ),
    ensures
        shrunk(e0, ef) && shrunk(f0, ff) && shrunk(r0, rf) && shrunk(p0, pf) && shrunk(i0, i_f),
        edges_kept(e0, ef, id) && edges_kept(f0, ff, id) && edges_kept(r0, rf, id),
        eps_kept(p0, pf, id),
        epvs_kept(i0, i_f, id),
{
    assert forall|o: Seq<u8>, t: Seq<u8>, i: Seq<u8>|
        o.len() == 16 && t.len() <= 255 && i.len() == 16 && o != id && i != id
            && e0.contains_key(#[trigger] edge_key(o, t, i)) implies ef.contains_key(
        edge_key(o, t, i),
    ) by {
        let k = edge_key(o, t, i);
        if !e3.contains_key(k) {
            let a = choose|a: int| 0 <= a < out.len() && #[trigger] keys_of(out)[a] == k;
            crate::codec::lemma_edge_key_injective(
                out[a].outbound_id@,
                out[a].t@,
                out[a].inbound_id@,
                o,
                t,
                i,
            );
        } else if !ef.contains_key(k) {
            let a = choose|a: int| 0 <= a < acts.len() && #[trigger] keys_of(acts)[a] == k;
            crate::codec::lemma_edge_key_injective(
                acts[a].outbound_id@,
                acts[a].t@,
                acts[a].inbound_id@,
                o,
                t,
                i,
            );
        }
    }
    assert forall|o: Seq<u8>, t: Seq<u8>, i: Seq<u8>|
        o.len() == 16 && t.len() <= 255 && i.len() == 16 && o != id && i != id
            && f0.contains_key(#[trigger] edge_key(o, t, i)) implies ff.contains_key(
        edge_key(o, t, i),
    ) by {
        let k = edge_key(o, t, i);
        if !f3.contains_key(k) {
            let a = choose|a: int| 0 <= a < out.len() && #[trigger] keys_of(out)[a] == k;
            crate::codec::lemma_edge_key_injective(
                out[a].outbound_id@,
                out[a].t@,
                out[a].inbound_id@,
                o,
                t,
                i,
            );
        } else if !ff.contains_key(k) {
            let a = choose|a: int| 0 <= a < acts.len() && #[trigger] keys_of(acts)[a] == k;
            crate::codec::lemma_edge_key_injective(
                acts[a].outbound_id@,
                acts[a].t@,
                acts[a].inbound_id@,
                o,
                t,
                i,
            );
        }
    }
    assert forall|o: Seq<u8>, t: Seq<u8>, i: Seq<u8>|
        o.len() == 16 && t.len() <= 255 && i.len() == 16 && o != id && i != id
            && r0.contains_key(#[trigger] edge_key(o, t, i)) implies rf.contains_key(
        edge_key(o, t, i),
    ) by {
        let k = edge_key(o, t, i);
        if !r3.contains_key(k) {
            let a = choose|a: int| 0 <= a < out.len() && #[trigger] rkeys_of(out)[a] == k;
            crate::codec::lemma_edge_key_injective(
                out[a].inbound_id@,
                out[a].t@,
                out[a].outbound_id@,
                o,
                t,
                i,
            );
        } else if !rf.contains_key(k) {
            let a = choose|a: int| 0 <= a < acts.len() && #[trigger] rkeys_of(acts)[a] == k;
            crate::codec::lemma_edge_key_injective(
                acts[a].inbound_id@,
                acts[a].t@,
                acts[a].outbound_id@,
                o,
                t,
                i,
            );
        }
    }
    assert forall|o: Seq<u8>, t: Seq<u8>, i: Seq<u8>, n: Seq<u8>|
        o.len() == 16 && t.len() <= 255 && i.len() == 16 && n.len() <= 255 && o != id && i != id
            && p0.contains_key(#[trigger] crate::codec::ep_key(o, t, i, n)) implies
        pf.contains_key(crate::codec::ep_key(o, t, i, n)) by {
        let k = crate::codec::ep_key(o, t, i, n);
        crate::bytes::lemma_prefix_concat(edge_key(o, t, i), crate::codec::enc_ident(n));
        if !p3.contains_key(k) {
            let a = choose|a: int|
                0 <= a < out.len() && is_prefix_of(#[trigger] keys_of(out)[a], k);
            lemma_edge_key_prefix_unique(
                out[a].outbound_id@,
                out[a].t@,
                out[a].inbound_id@,
                o,
                t,
                i,
                k,
            );
        } else if !pf.contains_key(k) {
            let a = choose|a: int|
                0 <= a < acts.len() && is_prefix_of(#[trigger] keys_of(acts)[a], k);
            lemma_edge_key_prefix_unique(
                acts[a].outbound_id@,
                acts[a].t@,
                acts[a].inbound_id@,
                o,
                t,
                i,
                k,
            );
        }
    }
    assert forall|n: Seq<u8>, h: u64, o: Seq<u8>, t: Seq<u8>, i: Seq<u8>|
        o.len() == 16 && t.len() <= 255 && i.len() == 16 && n.len() <= 255 && o != id && i != id
            && i0.contains_key(
            #[trigger] value_index_key(n, h, edge_key(o, t, i)),
        ) implies i_f.contains_key(value_index_key(n, h, edge_key(o, t, i))) by {
        let ik = value_index_key(n, h, edge_key(o, t, i));
        if !i3.contains_key(ik) {
            let a = choose|a: int|
                0 <= a < out.len() && derived_index_entry(p0, #[trigger] keys_of(out)[a], ik);
            let n2 = choose|n2: Seq<u8>|
                p0.contains_key(#[trigger] prop_key(keys_of(out)[a], n2)) && n2.len() <= 255
                    && ik == value_index_key(
                    n2,
                    json_hash(p0[prop_key(keys_of(out)[a], n2)]),
                    keys_of(out)[a],
                );
            crate::codec::lemma_value_index_key_injective(
                n,
                h,
                edge_key(o, t, i),
                n2,
                json_hash(p0[prop_key(keys_of(out)[a], n2)]),
                keys_of(out)[a],
            );
            crate::codec::lemma_edge_key_injective(
                out[a].outbound_id@,
                out[a].t@,
                out[a].inbound_id@,
                o,
                t,
                i,
            );
        } else if !i_f.contains_key(ik) {
            let a = choose|a: int|
                0 <= a < acts.len() && derived_index_entry(p3, #[trigger] keys_of(acts)[a], ik);
            let n2 = choose|n2: Seq<u8>|
                p3.contains_key(#[trigger] prop_key(keys_of(acts)[a], n2)) && n2.len() <= 255
                    && ik == value_index_key(
                    n2,
                    json_hash(p3[prop_key(keys_of(acts)[a], n2)]),
                    keys_of(acts)[a],
                );
            crate::codec::lemma_value_index_key_injective(
                n,
                h,
                edge_key(o, t, i),
                n2,
                json_hash(p3[prop_key(keys_of(acts)[a], n2)]),
                keys_of(acts)[a],
            );
            crate::codec::lemma_edge_key_injective(
                acts[a].outbound_id@,
                acts[a].t@,
                acts[a].inbound_id@,
                o,
                t,
                i,
            );
        }
    }
}

} // verus!

verus! {

/// After the two cascade passes, under the store invariant, no surviving
/// row of the edge trees, the edge property tree, or the edge value-index
/// tree references the vertex.
#[verifier::rlimit(100)]
proof fn lemma_delete_absence(
    id: Seq<u8>,
    out: Seq<Edge>,
    inn: Seq<Edge>,
    acts: Seq<Edge>,
    e0: Map<Seq<u8>, Seq<u8>>,
    f0: Map<Seq<u8>, Seq<u8>>,
    r0: Map<Seq<u8>, Seq<u8>>,
    p0: Map<Seq<u8>, Seq<u8>>,
    i0: Map<Seq<u8>, Seq<u8>>,
    e3: Map<Seq<u8>, Seq<u8>>,
    f3: Map<Seq<u8>, Seq<u8>>,
    r3: Map<Seq<u8>, Seq<u8>>,
    p3: Map<Seq<u8>, Seq<u8>>,
    i3: Map<Seq<u8>, Seq<u8>>,
    ef: Map<Seq<u8>, Seq<u8>>,
    ff: Map<Seq<u8>, Seq<u8>>,
    rf: Map<Seq<u8>, Seq<u8>>,
    pf: Map<Seq<u8>, Seq<u8>>,
    i_f: Map<Seq<u8>, Seq<u8>>,
)
    requires
        id.len() == 16,
        crate::invariants::ranges_consistent(e0, f0, r0),
        crate::invariants::ep_backed(p0, f0),
        crate::invariants::epv_exact(p0, i0),
        forall|a: int|
            #![trigger out[a]]
            0 <= a < out.len() ==> out[a].wf() && out[a].outbound_id@ == id,
        crate::edge_range_manager::owner_complete(f0, id, out),
        forall|a: int|
            #![trigger inn[a]]
            0 <= a < inn.len() ==> inn[a].wf() && inn[a].outbound_id@ == id,
        crate::edge_range_manager::owner_complete(r3, id, inn),
        acts.len() == inn.len(),
        forall|a: int|
            #![trigger acts[a]]
            0 <= a < acts.len() ==> acts[a].wf() && acts[a].outbound_id@ == inn[a].inbound_id@
                && acts[a].t@ == inn[a].t@ && acts[a].inbound_id@ == inn[a].outbound_id@
                && acts[a].key() == inn[a].reversed_key() && acts[a].reversed_key()
                == inn[a].key(),
        shrunk(e0, e3) && shrunk(f0, f3) && shrunk(r0, r3) && shrunk(p0, p3) && shrunk(i0, i3),
        shrunk(e3, ef) && shrunk(f3, ff) && shrunk(r3, rf) && shrunk(p3, pf) && shrunk(i3, i_f),
        forall|k: Seq<u8>|
            #[trigger] r0.contains_key(k) && !r3.contains_key(k) ==> among(
                rkeys_of(out),
                out.len() as int,
                k,
            ),
        forall|k: Seq<u8>|
            #[trigger] p0.contains_key(k) && !p3.contains_key(k) ==> prefixed_by_any(
                keys_of(out),
                out.len() as int,
                k,
            ),
        forall|a: int|
            0 <= a < out.len() ==> !e3.contains_key(#[trigger] keys_of(out)[a])
                && !f3.contains_key(keys_of(out)[a]) && !r3.contains_key(rkeys_of(out)[a]),
        forall|a: int|
            0 <= a < acts.len() ==> !ef.contains_key(#[trigger] keys_of(acts)[a])
                && !ff.contains_key(keys_of(acts)[a]) && !rf.contains_key(rkeys_of(acts)[a]),
        forall|k: Seq<u8>|
            #[trigger] p3.contains_key(k) ==> !prefixed_by_any(
                keys_of(out),
                out.len() as int,
                k,
            ),
        forall|k: Seq<u8>|
            #[trigger] pf.contains_key(k) ==> !prefixed_by_any(
                keys_of(acts),
                acts.len() as int,
                k,
            ),
        all_derived_gone(keys_of(out), out.len() as int, p0, i3),
        all_derived_gone(keys_of(acts), acts.len() as int, p3, i_f),
    ensures
        no_key_with_prefix(ff, id),
        no_key_with_prefix(rf, id),
        no_edge_with_endpoint(ef, id),
        no_edge_with_endpoint(ff, id),
        no_edge_with_endpoint(rf, id),
        no_ep_with_endpoint(pf, id),
        no_epv_with_endpoint(i_f, id),
{
    // No forward key under the vertex's prefix survives.
    assert forall|k: Seq<u8>| #[trigger] ff.contains_key(k) implies !is_prefix_of(id, k) by {
        if is_prefix_of(id, k) {
            assert(f0.contains_key(k));
            let a = choose|a: int| 0 <= a < out.len() && #[trigger] out[a].key() == k;
            assert(keys_of(out)[a] == out[a].key());
            assert(keys_of(out)[a] == k);
            assert(!f3.contains_key(k));
        }
    }
    // No reversed key under the vertex's prefix survives.
    assert forall|k: Seq<u8>| #[trigger] rf.contains_key(k) implies !is_prefix_of(id, k) by {
        if is_prefix_of(id, k) {
            assert(r3.contains_key(k));
            let a = choose|a: int| 0 <= a < inn.len() && #[trigger] inn[a].key() == k;
            assert(keys_of(acts)[a] == acts[a].key());
            assert(rkeys_of(acts)[a] == acts[a].reversed_key());
            assert(rkeys_of(acts)[a] == k);
            assert(!rf.contains_key(k));
        }
    }
    // An edge with the vertex as an endpoint survives in no edge tree.
    assert forall|o: Seq<u8>, t: Seq<u8>, i: Seq<u8>|
        o.len() == 16 && t.len() <= 255 && i.len() == 16 && (o == id || i == id) implies
        !ff.contains_key(#[trigger] edge_key(o, t, i)) && !ef.contains_key(edge_key(o, t, i))
            && !rf.contains_key(edge_key(i, t, o)) by {
        let k = edge_key(o, t, i);
        crate::codec::lemma_edge_key_facts(o, t, i);
        crate::codec::lemma_edge_key_facts(i, t, o);
        if o == id {
            // Outgoing: listed by the forward scan, deleted in the first
            // pass from all three trees.
            if f0.contains_key(k) {
                crate::codec::lemma_prefix16(id, k);
                let a = choose|a: int| 0 <= a < out.len() && #[trigger] out[a].key() == k;
                assert(keys_of(out)[a] == k);
                crate::codec::lemma_edge_key_injective(
                    out[a].outbound_id@,
                    out[a].t@,
                    out[a].inbound_id@,
                    o,
                    t,
                    i,
                );
                assert(rkeys_of(out)[a] == edge_key(i, t, o));
                assert(!f3.contains_key(k) && !e3.contains_key(k) && !r3.contains_key(
                    edge_key(i, t, o),
                ));
            } else {
                assert(!ff.contains_key(k));
                assert(!ef.contains_key(k)) by {
                    if ef.contains_key(k) {
                        assert(e0.contains_key(k));
                        assert(f0.contains_key(k));
                    }
                }
                assert(!rf.contains_key(edge_key(i, t, o))) by {
                    if rf.contains_key(edge_key(i, t, o)) {
                        assert(r0.contains_key(edge_key(i, t, o)));
                        assert(f0.contains_key(k));
                    }
                }
            }
        } else {
            // Incoming: its mirror survives the first pass, is listed by
            // the reversed scan, and the second pass deletes the edge.
            assert(i == id);
            if f0.contains_key(k) {
                assert(r0.contains_key(edge_key(i, t, o)));
                assert(r3.contains_key(edge_key(i, t, o))) by {
                    if !r3.contains_key(edge_key(i, t, o)) {
                        let x = choose|x: int|
                            0 <= x < out.len() && #[trigger] rkeys_of(out)[x] == edge_key(
                                i,
                                t,
                                o,
                            );
                        crate::codec::lemma_edge_key_injective(
                            out[x].inbound_id@,
                            out[x].t@,
                            out[x].outbound_id@,
                            i,
                            t,
                            o,
                        );
                        assert(out[x].outbound_id@ == o);
                        assert(o == id);
                    }
                }
                crate::codec::lemma_prefix16(id, edge_key(i, t, o));
                let a = choose|a: int|
                    0 <= a < inn.len() && #[trigger] inn[a].key() == edge_key(i, t, o);
                crate::codec::lemma_edge_key_injective(
                    inn[a].outbound_id@,
                    inn[a].t@,
                    inn[a].inbound_id@,
                    i,
                    t,
                    o,
                );
                assert(acts[a].key() == edge_key(o, t, i));
                assert(keys_of(acts)[a] == k);
                assert(rkeys_of(acts)[a] == edge_key(i, t, o));
                assert(!ff.contains_key(k) && !ef.contains_key(k) && !rf.contains_key(
                    edge_key(i, t, o),
                ));
            } else {
                assert(!ff.contains_key(k));
                assert(!ef.contains_key(k)) by {
                    if ef.contains_key(k) {
                        assert(e0.contains_key(k));
                        assert(f0.contains_key(k));
                    }
                }
                assert(!rf.contains_key(edge_key(i, t, o))) by {
                    if rf.contains_key(edge_key(i, t, o)) {
                        assert(r0.contains_key(edge_key(i, t, o)));
                        assert(f0.contains_key(k));
                    }
                }
            }
        }
    }
    assert(no_edge_with_endpoint(ef, id)) by {
        assert forall|o: Seq<u8>, t: Seq<u8>, i: Seq<u8>|
            o.len() == 16 && t.len() <= 255 && i.len() == 16 && (o == id || i == id) implies
            !ef.contains_key(#[trigger] edge_key(o, t, i)) by {
            assert(!ff.contains_key(edge_key(o, t, i)) && !ef.contains_key(edge_key(o, t, i))
                && !rf.contains_key(edge_key(i, t, o)));
        }
    }
    assert(no_edge_with_endpoint(rf, id)) by {
        assert forall|o: Seq<u8>, t: Seq<u8>, i: Seq<u8>|
            o.len() == 16 && t.len() <= 255 && i.len() == 16 && (o == id || i == id) implies
            !rf.contains_key(#[trigger] edge_key(o, t, i)) by {
            assert(!ff.contains_key(edge_key(i, t, o)) && !ef.contains_key(edge_key(i, t, o))
                && !rf.contains_key(edge_key(o, t, i)));
        }
    }
    // No surviving edge property references the vertex.
    assert forall|o: Seq<u8>, t: Seq<u8>, i: Seq<u8>, n: Seq<u8>|
        o.len() == 16 && t.len() <= 255 && i.len() == 16 && n.len() <= 255 && (o == id || i
            == id) implies !pf.contains_key(#[trigger] crate::codec::ep_key(o, t, i, n)) by {
        let k = crate::codec::ep_key(o, t, i, n);
        if pf.contains_key(k) {
            assert(p3.contains_key(k) && p0.contains_key(k));
            assert(f0.contains_key(edge_key(o, t, i)));
            crate::bytes::lemma_prefix_concat(edge_key(o, t, i), crate::codec::enc_ident(n));
            crate::codec::lemma_edge_key_facts(o, t, i);
            if o == id {
                crate::codec::lemma_prefix16(id, edge_key(o, t, i));
                let a = choose|a: int|
                    0 <= a < out.len() && #[trigger] out[a].key() == edge_key(o, t, i);
                assert(is_prefix_of(keys_of(out)[a], k));
                assert(prefixed_by_any(keys_of(out), out.len() as int, k));
                assert(!p3.contains_key(k));
            } else {
                assert(i == id);
                // The mirror entry survives the first pass and the second
                // pass strips the edge's properties.
                assert(r0.contains_key(edge_key(i, t, o)));
                assert(r3.contains_key(edge_key(i, t, o))) by {
                    if !r3.contains_key(edge_key(i, t, o)) {
                        let x = choose|x: int|
                            0 <= x < out.len() && #[trigger] rkeys_of(out)[x] == edge_key(
                                i,
                                t,
                                o,
                            );
                        crate::codec::lemma_edge_key_injective(
                            out[x].inbound_id@,
                            out[x].t@,
                            out[x].outbound_id@,
                            i,
                            t,
                            o,
                        );
                        assert(o == id);
                    }
                }
                crate::codec::lemma_prefix16(id, edge_key(i, t, o));
                crate::codec::lemma_edge_key_facts(i, t, o);
                let a = choose|a: int|
                    0 <= a < inn.len() && #[trigger] inn[a].key() == edge_key(i, t, o);
                crate::codec::lemma_edge_key_injective(
                    inn[a].outbound_id@,
                    inn[a].t@,
                    inn[a].inbound_id@,
                    i,
                    t,
                    o,
                );
                assert(acts[a].key() == edge_key(o, t, i));
                assert(keys_of(acts)[a] == edge_key(o, t, i));
                assert(is_prefix_of(keys_of(acts)[a], k));
                assert(prefixed_by_any(keys_of(acts), acts.len() as int, k));
                assert(!pf.contains_key(k));
            }
        }
    }
    // No surviving edge value-index entry references the vertex.
    assert forall|n: Seq<u8>, h: u64, o: Seq<u8>, t: Seq<u8>, i: Seq<u8>|
        o.len() == 16 && t.len() <= 255 && i.len() == 16 && n.len() <= 255 && (o == id || i
            == id) implies !i_f.contains_key(
        #[trigger] value_index_key(n, h, edge_key(o, t, i)),
    ) by {
        let ek = edge_key(o, t, i);
        let ik = value_index_key(n, h, ek);
        if i_f.contains_key(ik) {
            assert(i3.contains_key(ik) && i0.contains_key(ik));
            assert(p0.contains_key(crate::codec::ep_key(o, t, i, n)) && json_hash(
                p0[crate::codec::ep_key(o, t, i, n)],
            ) == h);
            let pk = crate::codec::ep_key(o, t, i, n);
            assert(pk == prop_key(ek, n));
            assert(f0.contains_key(ek));
            crate::bytes::lemma_prefix_concat(ek, crate::codec::enc_ident(n));
            crate::codec::lemma_edge_key_facts(o, t, i);
            if o == id {
                crate::codec::lemma_prefix16(id, ek);
                let a = choose|a: int| 0 <= a < out.len() && #[trigger] out[a].key() == ek;
                assert(keys_of(out)[a] == ek);
                assert(p0.contains_key(prop_key(keys_of(out)[a], n)));
                assert(!i3.contains_key(
                    value_index_key(n, json_hash(p0[prop_key(keys_of(out)[a], n)]), ek),
                ));
            } else {
                assert(i == id);
                assert(r0.contains_key(edge_key(i, t, o)));
                assert(r3.contains_key(edge_key(i, t, o))) by {
                    if !r3.contains_key(edge_key(i, t, o)) {
                        let x = choose|x: int|
                            0 <= x < out.len() && #[trigger] rkeys_of(out)[x] == edge_key(
                                i,
                                t,
                                o,
                            );
                        crate::codec::lemma_edge_key_injective(
                            out[x].inbound_id@,
                            out[x].t@,
                            out[x].outbound_id@,
                            i,
                            t,
                            o,
                        );
                        assert(o == id);
                    }
                }
                crate::codec::lemma_prefix16(id, edge_key(i, t, o));
                crate::codec::lemma_edge_key_facts(i, t, o);
                let a = choose|a: int|
                    0 <= a < inn.len() && #[trigger] inn[a].key() == edge_key(i, t, o);
                crate::codec::lemma_edge_key_injective(
                    inn[a].outbound_id@,
                    inn[a].t@,
                    inn[a].inbound_id@,
                    i,
                    t,
                    o,
                );
                assert(acts[a].key() == ek);
                assert(keys_of(acts)[a] == ek);
                // The property row survives the first pass.
                assert(p3.contains_key(pk)) by {
                    if !p3.contains_key(pk) {
                        let x = choose|x: int|
                            0 <= x < out.len() && is_prefix_of(#[trigger] keys_of(out)[x], pk);
                        lemma_edge_key_prefix_unique(
                            out[x].outbound_id@,
                            out[x].t@,
                            out[x].inbound_id@,
                            o,
                            t,
                            i,
                            pk,
                        );
                        assert(o == id);
                    }
                }
                assert(p3[pk] == p0[pk]);
                assert(p3.contains_key(prop_key(keys_of(acts)[a], n)));
                assert(!i_f.contains_key(
                    value_index_key(n, json_hash(p3[prop_key(keys_of(acts)[a], n)]), ek),
                ));
            }
        }
    }
    assert(no_ep_with_endpoint(pf, id));
    assert(no_epv_with_endpoint(i_f, id));
}

} // verus!

verus! {

/// After the two cascade passes, neither range tree holds a key under the
/// vertex's prefix: the forward scan listed every such forward key and the
/// first pass removed them; the reversed scan listed every such reversed
/// key still present and the second pass removed them.
proof fn lemma_delete_prefix_free(
    id: Seq<u8>,
    out: Seq<Edge>,
    inn: Seq<Edge>,
    acts: Seq<Edge>,
    f0: Map<Seq<u8>, Seq<u8>>,
    f3: Map<Seq<u8>, Seq<u8>>,
    r3: Map<Seq<u8>, Seq<u8>>,
    ff: Map<Seq<u8>, Seq<u8>>,
    rf: Map<Seq<u8>, Seq<u8>>,
)
    requires
        crate::edge_range_manager::owner_complete(f0, id, out),
        crate::edge_range_manager::owner_complete(r3, id, inn),
        acts.len() == inn.len(),
        forall|a: int|
            #![trigger acts[a]]
            0 <= a < acts.len() ==> acts[a].reversed_key() == inn[a].key(),
        shrunk(f0, f3) && shrunk(f3, ff) && shrunk(r3, rf),
        forall|a: int| 0 <= a < out.len() ==> !f3.contains_key(#[trigger] keys_of(out)[a]),
        forall|a: int| 0 <= a < acts.len() ==> !rf.contains_key(#[trigger] rkeys_of(acts)[a]),
    ensures
        no_key_with_prefix(ff, id),
        no_key_with_prefix(rf, id),
{
    assert forall|k: Seq<u8>| #[trigger] ff.contains_key(k) implies !is_prefix_of(id, k) by {
        if is_prefix_of(id, k) {
            assert(f0.contains_key(k));
            let a = choose|a: int| 0 <= a < out.len() && #[trigger] out[a].key() == k;
            assert(keys_of(out)[a] == out[a].key());
            assert(!f3.contains_key(k));
        }
    }
    assert forall|k: Seq<u8>| #[trigger] rf.contains_key(k) implies !is_prefix_of(id, k) by {
        if is_prefix_of(id, k) {
            assert(r3.contains_key(k));
            let a = choose|a: int| 0 <= a < inn.len() && #[trigger] inn[a].key() == k;
            assert(acts[a].reversed_key() == k);
            assert(rkeys_of(acts)[a] == acts[a].reversed_key());
            assert(!rf.contains_key(k));
        }
    }
}

} // verus!
