//! The edge property manager: one primary tree and one value-index tree.
//! Primary key: `Uuid(out) · Identifier(label) · Uuid(in) · Identifier(name)`,
//! value: the serialized JSON bytes.  Index key:
//! `Identifier(name) · Json(value) · Uuid(out) · Identifier(label) · Uuid(in)`.

use vstd::prelude::*;
use crate::bytes::{is_prefix_of, lex_lt};
use crate::codec::{
    append_ident, append_u64_be, append_uuid, edge_key, enc_ident, enc_u64, ep_key, hash_bytes,
    is_ep_key, is_epv_key, json_hash, lemma_edge_key_facts, lemma_edge_key_prefix_unique,
    lemma_enc_ident_facts, lemma_enc_ident_prefix_unique, lemma_prop_key_facts,
    lemma_value_index_key_injective, lemma_vik_facts, prop_key, read_ident, read_u64, read_uuid,
    value_index_key, Ident,
};
use crate::errors::{map_err, DSError};
use crate::kv::{tree_get, tree_insert, tree_remove, tree_scan_prefix, tree_view};
use crate::models::{Edge, PropValue};

verus! {

/// Every key of the primary tree is an edge property key.
pub open spec fn ep_wf(m: Map<Seq<u8>, Seq<u8>>) -> bool {
    forall|k: Seq<u8>| #[trigger] m.contains_key(k) ==> is_ep_key(k)
}

/// Every key of the value-index tree is an edge value-index key.
pub open spec fn epv_wf(m: Map<Seq<u8>, Seq<u8>>) -> bool {
    forall|k: Seq<u8>| #[trigger] m.contains_key(k) ==> is_epv_key(k)
}

/// What the value-index tree holds after one property write.
pub open spec fn index_after_set(
    primary: Map<Seq<u8>, Seq<u8>>,
    index: Map<Seq<u8>, Seq<u8>>,
    owner: Seq<u8>,
    name: Seq<u8>,
    value: Seq<u8>,
) -> Map<Seq<u8>, Seq<u8>> {
    (if primary.contains_key(prop_key(owner, name)) {
        index.remove(value_index_key(name, json_hash(primary[prop_key(owner, name)]), owner))
    } else {
        index
    }).insert(value_index_key(name, json_hash(value), owner), value)
}

/// What the value-index tree holds after one property delete.
pub open spec fn index_after_delete(
    primary: Map<Seq<u8>, Seq<u8>>,
    index: Map<Seq<u8>, Seq<u8>>,
    owner: Seq<u8>,
    name: Seq<u8>,
) -> Map<Seq<u8>, Seq<u8>> {
    if primary.contains_key(prop_key(owner, name)) {
        index.remove(value_index_key(name, json_hash(primary[prop_key(owner, name)]), owner))
    } else {
        index
    }
}

/// The primary key of an edge property.
pub fn key(edge: &Edge, name: &Ident) -> (r: Vec<u8>)
    requires
        edge.wf(),
        name.wf(),
    ensures
        r@ == prop_key(edge.key(), name@),
{
    let mut v = crate::edge_range_manager::key(edge);
    append_ident(&mut v, name);
    v
}

/// The value-index key of an edge property at a value.
pub fn key_value_index(edge: &Edge, value: &PropValue, name: &Ident) -> (r: Vec<u8>)
    requires
        edge.wf(),
        name.wf(),
    ensures
        r@ == value_index_key(name@, json_hash(value@), edge.key()),
{
    let mut v: Vec<u8> = Vec::new();
    append_ident(&mut v, name);
    let h = hash_bytes(value.as_bytes());
    append_u64_be(&mut v, h);
    append_uuid(&mut v, &edge.outbound_id);
    append_ident(&mut v, &edge.t);
    append_uuid(&mut v, &edge.inbound_id);
    proof {
        assert(v@ =~= value_index_key(name@, json_hash(value@), edge.key()));
    }
    v
}

/// Reads one value-index key back into its components.
pub fn read_key_value_index(buf: &Vec<u8>) -> (r: Result<(Ident, u64, Edge), DSError>)
    ensures
        r matches Ok(p) ==> buf@ == value_index_key(p.0@, p.1, p.2.key()) && p.0.wf()
            && p.2.wf(),
        r matches Err(e) ==> e.is_decode() && !is_epv_key(buf@),
{
    let mut pos: usize = 0;
    let name = match read_ident(buf, &mut pos) {
        Ok(t) => t,
        Err(_) => {
            proof {
                lemma_no_epv_key(buf@, 0, 0, 0);
            }
            return Err(DSError::Decode);
        },
    };
    proof {
        lemma_enc_ident_facts(name@);
        assert(buf@.subrange(0, 1 + name@.len() as int)[0] == buf@[0]);
        assert(buf@[0] == name@.len() as u8);
    }
    let h = match read_u64(buf, &mut pos) {
        Ok(x) => x,
        Err(_) => {
            proof {
                lemma_no_epv_key(buf@, 1, name@.len() as int, 0);
            }
            return Err(DSError::Decode);
        },
    };
    let outbound = match read_uuid(buf, &mut pos) {
        Ok(u) => u,
        Err(_) => {
            proof {
                lemma_no_epv_key(buf@, 2, name@.len() as int, 0);
            }
            return Err(DSError::Decode);
        },
    };
    let label = match read_ident(buf, &mut pos) {
        Ok(t) => t,
        Err(_) => {
            proof {
                lemma_no_epv_key(buf@, 3, name@.len() as int, 0);
            }
            return Err(DSError::Decode);
        },
    };
    proof {
        lemma_enc_ident_facts(label@);
        assert(buf@.subrange(25 + name@.len() as int, pos as int)[0] == buf@[25
            + name@.len() as int]);
        assert(buf@[25 + name@.len() as int] == label@.len() as u8);
    }
    let inbound = match read_uuid(buf, &mut pos) {
        Ok(u) => u,
        Err(_) => {
            proof {
                lemma_no_epv_key(buf@, 4, name@.len() as int, label@.len() as int);
            }
            return Err(DSError::Decode);
        },
    };
    if pos != buf.len() {
        proof {
            lemma_no_epv_key(buf@, 5, name@.len() as int, label@.len() as int);
        }
        return Err(DSError::Decode);
    }
    let e = Edge { outbound_id: outbound, t: label, inbound_id: inbound };
    proof {
        assert(buf@ =~= enc_ident(name@) + enc_u64(h) + (e.outbound_id@ + enc_ident(e.t@)
            + e.inbound_id@));
    }
    Ok((name, h, e))
}

/// A key on which the component reads fail is no edge value-index key.
/// `stage`: 0 the name, 1 the hash, 2 the outbound id, 3 the label, 4 the
/// inbound id, 5 spare bytes.  `nl` and `tl` are the lengths of the name
/// and label already read, where the stage needs them.
proof fn lemma_no_epv_key(k: Seq<u8>, stage: int, nl: int, tl: int)
    requires
        0 <= stage <= 5,
        stage == 0 ==> k.len() == 0 || 1 + (k[0] as int) > k.len(),
        1 <= stage ==> 0 <= nl <= 255 && k.len() >= 1 + nl && k[0] as int == nl,
        stage == 1 ==> 9 + nl > k.len(),
        stage == 2 ==> 25 + nl > k.len(),
        stage == 3 ==> 25 + nl <= k.len() && (25 + nl >= k.len() || 26 + nl + (k[25
            + nl] as int) > k.len()),
        4 <= stage ==> 0 <= tl <= 255 && k.len() >= 26 + nl + tl && k[25 + nl] as int == tl,
        stage == 4 ==> 42 + nl + tl > k.len(),
        stage == 5 ==> 42 + nl + tl <= k.len() && 42 + nl + tl != k.len(),
    ensures
        !is_epv_key(k),
{
    if is_epv_key(k) {
        let (n, h, o, t, i) = choose|n: Seq<u8>, h: u64, o: Seq<u8>, t: Seq<u8>, i: Seq<u8>|
            k == #[trigger] value_index_key(n, h, edge_key(o, t, i)) && n.len() <= 255 && o.len()
                == 16 && t.len() <= 255 && i.len() == 16;
        lemma_vik_facts(n, h, edge_key(o, t, i));
        lemma_edge_key_facts(o, t, i);
        assert(k.len() == 42 + n.len() + t.len());
        assert(k[0] == n.len() as u8);
        assert(k.subrange(9 + n.len() as int, k.len() as int) == edge_key(o, t, i));
        assert(k.subrange(9 + n.len() as int, k.len() as int)[16] == k[25 + n.len() as int]);
        assert(k[25 + n.len() as int] == t.len() as u8);
        assert(false);
    }
}

/// The stored value of an edge property, if set.
pub fn get(tree: &sled::Tree, edge: &Edge, name: &Ident) -> (r: Result<Option<PropValue>, DSError>)
    requires
        edge.wf(),
        name.wf(),
    ensures
        match r {
            Ok(Some(pv)) => tree_view(*tree).contains_key(prop_key(edge.key(), name@))
                && tree_view(*tree)[prop_key(edge.key(), name@)] == pv@,
            Ok(None) => !tree_view(*tree).contains_key(prop_key(edge.key(), name@)),
            Err(e) => e.is_storage(),
        },
{
    let k = key(edge, name);
    match map_err(tree_get(tree, &k))? {
        Some(bytes) => Ok(Some(PropValue::new(bytes))),
        None => Ok(None),
    }
}

/// Sets an edge property: removes the old value's index key if one was
/// stored, writes the new primary value, writes the new index key.
pub fn set(
    tree: &mut sled::Tree,
    index_tree: &mut sled::Tree,
    edge: &Edge,
    name: &Ident,
    value: &PropValue,
) -> (r: Result<(), DSError>)
    requires
        edge.wf(),
        name.wf(),
    ensures
        r is Ok ==> tree_view(*final(tree)) == tree_view(*old(tree)).insert(
            prop_key(edge.key(), name@),
            value@,
        ),
        r is Ok ==> tree_view(*final(index_tree)) == index_after_set(
            tree_view(*old(tree)),
            tree_view(*old(index_tree)),
            edge.key(),
            name@,
            value@,
        ),
        r matches Err(e) ==> e.is_storage(),
{
    let pk = key(edge, name);
    let old_value = map_err(tree_get(tree, &pk))?;
    match old_value {
        Some(bytes) => {
            let oldpv = PropValue::new(bytes);
            let old_ik = key_value_index(edge, &oldpv, name);
            map_err(tree_remove(index_tree, &old_ik))?;
        },
        None => {},
    }
    map_err(tree_insert(tree, &pk, value.as_bytes()))?;
    let ik = key_value_index(edge, value, name);
    map_err(tree_insert(index_tree, &ik, value.as_bytes()))?;
    Ok(())
}

/// Deletes an edge property: removes the primary row and, if a value was
/// stored, the index key derived from it.
pub fn delete(
    tree: &mut sled::Tree,
    index_tree: &mut sled::Tree,
    edge: &Edge,
    name: &Ident,
) -> (r: Result<(), DSError>)
    requires
        edge.wf(),
        name.wf(),
    ensures
        r is Ok ==> tree_view(*final(tree)) == tree_view(*old(tree)).remove(
            prop_key(edge.key(), name@),
        ),
        r is Ok ==> tree_view(*final(index_tree)) == index_after_delete(
            tree_view(*old(tree)),
            tree_view(*old(index_tree)),
            edge.key(),
            name@,
        ),
        r matches Err(e) ==> e.is_storage(),
{
    let pk = key(edge, name);
    let old_value = map_err(tree_get(tree, &pk))?;
    map_err(tree_remove(tree, &pk))?;
    match old_value {
        Some(bytes) => {
            let oldpv = PropValue::new(bytes);
            let old_ik = key_value_index(edge, &oldpv, name);
            map_err(tree_remove(index_tree, &old_ik))?;
        },
        None => {},
    }
    Ok(())
}

/// Every key under the owner's prefix is the key of a listed property.
pub open spec fn owner_props_complete(
    m: Map<Seq<u8>, Seq<u8>>,
    owner: Seq<u8>,
    v: Seq<((Edge, Ident), PropValue)>,
) -> bool {
    forall|k: Seq<u8>|
        #![trigger m.contains_key(k), is_prefix_of(owner, k)]
        m.contains_key(k) && is_prefix_of(owner, k) ==> exists|a: int|
            0 <= a < v.len() && k == prop_key(owner, v[a].0.1@)
}

/// All properties owned by one edge, in ascending name order.
pub fn iterate_for_owner(tree: &sled::Tree, edge: &Edge) -> (r: Result<
    Vec<((Edge, Ident), PropValue)>,
    DSError,
>)
    requires
        edge.wf(),
    ensures
        r matches Ok(v) ==> forall|a: int, b: int|
            0 <= a < b < v@.len() ==> lex_lt(
                prop_key(edge.key(), v@[a].0.1@),
                prop_key(edge.key(), v@[b].0.1@),
            ),
        r matches Ok(v) ==> forall|a: int|
            #![trigger v@[a]]
            0 <= a < v@.len() ==> v@[a].0.0.outbound_id@ == edge.outbound_id@ && v@[a].0.0.t@
                == edge.t@ && v@[a].0.0.inbound_id@ == edge.inbound_id@ && v@[a].0.1.wf()
                && tree_view(*tree).contains_key(prop_key(edge.key(), v@[a].0.1@)) && tree_view(
                *tree,
            )[prop_key(edge.key(), v@[a].0.1@)] == v@[a].1@,
        r matches Ok(v) ==> owner_props_complete(tree_view(*tree), edge.key(), v@),
        r matches Err(e) ==> e.is_storage() || (e.is_decode() && !ep_wf(tree_view(*tree))),
{
    let prefix = crate::edge_range_manager::key(edge);
    let entries = map_err(tree_scan_prefix(tree, &prefix))?;
    let mut out: Vec<((Edge, Ident), PropValue)> = Vec::new();
    let mut idx: usize = 0;
    while idx < entries.len()
        invariant
            idx <= entries@.len(),
            out@.len() == idx,
            edge.wf(),
            prefix@ == edge.key(),
            forall|a: int, b: int|
                0 <= a < b < entries@.len() ==> lex_lt(entries@[a].0@, entries@[b].0@),
            forall|a: int|
                #![trigger entries@[a]]
                0 <= a < entries@.len() ==> is_prefix_of(prefix@, entries@[a].0@) && tree_view(
                    *tree,
                ).contains_key(entries@[a].0@) && tree_view(*tree)[entries@[a].0@]
                    == entries@[a].1@,
            forall|k: Seq<u8>|
                #![trigger tree_view(*tree).contains_key(k), is_prefix_of(prefix@, k)]
                tree_view(*tree).contains_key(k) && is_prefix_of(prefix@, k) ==> exists|a: int|
                    0 <= a < entries@.len() && entries@[a].0@ == k,
            forall|j: int|
                #![trigger out@[j]]
                0 <= j < idx ==> out@[j].0.0.outbound_id@ == edge.outbound_id@ && out@[j].0.0.t@
                    == edge.t@ && out@[j].0.0.inbound_id@ == edge.inbound_id@ && out@[j].0.1.wf()
                    && entries@[j].0@ == prop_key(edge.key(), out@[j].0.1@) && out@[j].1@
                    == entries@[j].1@,
        decreases entries@.len() - idx,
    {
        let kbytes: &Vec<u8> = &entries[idx].0;
        let mut pos: usize = 0;
        let outbound = match read_uuid(kbytes, &mut pos) {
            Ok(u) => u,
            Err(_) => {
                proof {
                    lemma_no_ep_key(kbytes@, 0, 0, 0);
                    assert(tree_view(*tree).contains_key(entries@[idx as int].0@));
                }
                return Err(DSError::Decode);
            },
        };
        let label = match read_ident(kbytes, &mut pos) {
            Ok(t) => t,
            Err(_) => {
                proof {
                    lemma_no_ep_key(kbytes@, 1, 0, 0);
                    assert(tree_view(*tree).contains_key(entries@[idx as int].0@));
                }
                return Err(DSError::Decode);
            },
        };
        proof {
            lemma_enc_ident_facts(label@);
            assert(kbytes@.subrange(16, pos as int)[0] == kbytes@[16]);
            assert(kbytes@[16] == label@.len() as u8);
        }
        let inbound = match read_uuid(kbytes, &mut pos) {
            Ok(u) => u,
            Err(_) => {
                proof {
                    lemma_no_ep_key(kbytes@, 2, label@.len() as int, 0);
                    assert(tree_view(*tree).contains_key(entries@[idx as int].0@));
                }
                return Err(DSError::Decode);
            },
        };
        let name = match read_ident(kbytes, &mut pos) {
            Ok(t) => t,
            Err(_) => {
                proof {
                    lemma_no_ep_key(kbytes@, 3, label@.len() as int, 0);
                    assert(tree_view(*tree).contains_key(entries@[idx as int].0@));
                }
                return Err(DSError::Decode);
            },
        };
        if pos != kbytes.len() {
            proof {
                lemma_enc_ident_facts(name@);
                assert(kbytes@.subrange(33 + label@.len() as int, pos as int)[0] == kbytes@[33
                    + label@.len() as int]);
                assert(kbytes@[33 + label@.len() as int] == name@.len() as u8);
                lemma_no_ep_key(kbytes@, 4, label@.len() as int, name@.len() as int);
                assert(tree_view(*tree).contains_key(entries@[idx as int].0@));
            }
            return Err(DSError::Decode);
        }
        let value = crate::codec::copy_bytes(&entries[idx].1);
        let e2 = Edge { outbound_id: outbound, t: label, inbound_id: inbound };
        proof {
            assert(kbytes@ =~= edge_key(e2.outbound_id@, e2.t@, e2.inbound_id@) + enc_ident(
                name@,
            ));
            crate::bytes::lemma_prefix_concat(
                edge_key(e2.outbound_id@, e2.t@, e2.inbound_id@),
                enc_ident(name@),
            );
            lemma_edge_key_prefix_unique(
                edge.outbound_id@,
                edge.t@,
                edge.inbound_id@,
                e2.outbound_id@,
                e2.t@,
                e2.inbound_id@,
                kbytes@,
            );
            assert(kbytes@ == prop_key(edge.key(), name@));
        }
        out.push(((e2, name), PropValue::new(value)));
        idx += 1;
    }
    proof {
        assert forall|a: int, b: int| 0 <= a < b < out@.len() implies lex_lt(
            prop_key(edge.key(), out@[a].0.1@),
            prop_key(edge.key(), out@[b].0.1@),
        ) by {
            assert(entries@[a].0@ == prop_key(edge.key(), out@[a].0.1@));
            assert(entries@[b].0@ == prop_key(edge.key(), out@[b].0.1@));
        }
        assert forall|a: int| 0 <= a < out@.len() implies tree_view(*tree).contains_key(
            #[trigger] prop_key(edge.key(), out@[a].0.1@),
        ) && tree_view(*tree)[prop_key(edge.key(), out@[a].0.1@)] == out@[a].1@ by {
            assert(entries@[a].0@ == prop_key(edge.key(), out@[a].0.1@));
        }
        assert forall|k: Seq<u8>|
            #![trigger tree_view(*tree).contains_key(k), is_prefix_of(edge.key(), k)]
            tree_view(*tree).contains_key(k) && is_prefix_of(edge.key(), k) implies exists|a: int|
            0 <= a < out@.len() && k == prop_key(edge.key(), out@[a].0.1@) by {
            let j = choose|j: int| 0 <= j < entries@.len() && entries@[j].0@ == k;
            assert(entries@[j].0@ == prop_key(edge.key(), out@[j].0.1@));
        }
        assert(owner_props_complete(tree_view(*tree), edge.key(), out@));
    }
    Ok(out)
}

/// A key on which the reads fail is no edge property key.  `stage`: 0 the
/// outbound id, 1 the label, 2 the inbound id, 3 the name, 4 spare bytes.
/// `tl` and `nl` are the lengths of the label and name already read, where
/// the stage needs them.
proof fn lemma_no_ep_key(k: Seq<u8>, stage: int, tl: int, nl: int)
    requires
        0 <= stage <= 4,
        stage == 0 ==> k.len() < 16,
        stage == 1 ==> k.len() >= 16 && (16 >= k.len() || 17 + (k[16] as int) > k.len()),
        2 <= stage ==> 0 <= tl <= 255 && k.len() >= 17 + tl && k[16] as int == tl,
        stage == 2 ==> 33 + tl > k.len(),
        stage == 3 ==> 33 + tl <= k.len() && (33 + tl >= k.len() || 34 + tl + (k[33
            + tl] as int) > k.len()),
        stage == 4 ==> 0 <= nl <= 255 && k.len() >= 34 + tl + nl && k[33 + tl] as int == nl && 34
            + tl + nl != k.len(),
    ensures
        !is_ep_key(k),
{
    if is_ep_key(k) {
        let (o, t, i, n) = choose|o: Seq<u8>, t: Seq<u8>, i: Seq<u8>, n: Seq<u8>|
            k == #[trigger] ep_key(o, t, i, n) && o.len() == 16 && t.len() <= 255 && i.len()
                == 16 && n.len() <= 255;
        lemma_edge_key_facts(o, t, i);
        lemma_enc_ident_facts(n);
        assert(k =~= edge_key(o, t, i) + enc_ident(n));
        assert(k.len() == 34 + t.len() + n.len());
        assert(k.subrange(0, 33 + t.len() as int) == edge_key(o, t, i)) by {
            assert(k.subrange(0, 33 + t.len() as int) =~= edge_key(o, t, i));
        }
        assert(k[16] == edge_key(o, t, i)[16]);
        assert(k[16] == t.len() as u8);
        assert(k[33 + t.len() as int] == enc_ident(n)[0]);
        assert(k[33 + t.len() as int] == n.len() as u8);
        assert(false);
    }
}

/// The index holds an entry for owner edge `e` under `name` at some hash.
pub open spec fn has_edge_index_entry(m: Map<Seq<u8>, Seq<u8>>, name: Seq<u8>, e: Edge) -> bool {
    exists|h: u64| m.contains_key(#[trigger] value_index_key(name, h, e.key()))
}

/// Every listed edge has an index entry under `name` at some hash.
pub open spec fn edges_all_under_name(
    m: Map<Seq<u8>, Seq<u8>>,
    name: Seq<u8>,
    v: Seq<Edge>,
) -> bool {
    forall|a: int| #![trigger v[a]] 0 <= a < v.len() ==> has_edge_index_entry(m, name, v[a])
}

/// Every listed edge has an index entry under `name` at exactly this hash.
pub open spec fn edges_at_value(
    m: Map<Seq<u8>, Seq<u8>>,
    name: Seq<u8>,
    h: u64,
    v: Seq<Edge>,
) -> bool {
    forall|a: int|
        #![trigger v[a]]
        0 <= a < v.len() ==> m.contains_key(value_index_key(name, h, v[a].key()))
}

/// Every index entry under `name` has its owner edge listed.
pub open spec fn edges_of_name_complete(
    m: Map<Seq<u8>, Seq<u8>>,
    name: Seq<u8>,
    v: Seq<Edge>,
) -> bool {
    forall|h: u64, o: Seq<u8>, t: Seq<u8>, i: Seq<u8>|
        #![trigger value_index_key(name, h, edge_key(o, t, i))]
        m.contains_key(value_index_key(name, h, edge_key(o, t, i))) ==> exists|a: int|
            0 <= a < v.len() && v[a].key() == edge_key(o, t, i)
}

/// Every index entry under `name` at this hash has its owner edge listed.
pub open spec fn edges_of_value_complete(
    m: Map<Seq<u8>, Seq<u8>>,
    name: Seq<u8>,
    h: u64,
    v: Seq<Edge>,
) -> bool {
    forall|o: Seq<u8>, t: Seq<u8>, i: Seq<u8>|
        #![trigger value_index_key(name, h, edge_key(o, t, i))]
        m.contains_key(value_index_key(name, h, edge_key(o, t, i))) ==> exists|a: int|
            0 <= a < v.len() && v[a].key() == edge_key(o, t, i)
}

/// The edges that hold a property under this name, from the value index.
pub fn iterate_for_property_name(index_tree: &sled::Tree, name: &Ident) -> (r: Result<
    Vec<Edge>,
    DSError,
>)
    requires
        name.wf(),
    ensures
        r matches Ok(v) ==> edges_all_under_name(tree_view(*index_tree), name@, v@),
        r matches Ok(v) ==> edges_of_name_complete(tree_view(*index_tree), name@, v@),
        r matches Ok(v) ==> edges_in_key_order(tree_view(*index_tree), name@, v@),
        r matches Err(e) ==> e.is_storage() || (e.is_decode() && !epv_wf(tree_view(*index_tree))),
{
    let mut prefix: Vec<u8> = Vec::new();
    append_ident(&mut prefix, name);
    proof {
        assert(prefix@ =~= enc_ident(name@));
    }
    let entries = map_err(tree_scan_prefix(index_tree, &prefix))?;
    value_iterate_edges(index_tree, entries, Ghost(enc_ident(name@)), Ghost(name@), Ghost(None))
}

/// The edges that hold a property under this name at this value, from the
/// value index: everything under the name-and-hash prefix.
pub fn iterate_for_property_name_and_value(
    index_tree: &sled::Tree,
    name: &Ident,
    value: &PropValue,
) -> (r: Result<Vec<Edge>, DSError>)
    requires
        name.wf(),
    ensures
        r matches Ok(v) ==> edges_at_value(tree_view(*index_tree), name@, json_hash(value@), v@),
        r matches Ok(v) ==> edges_of_value_complete(
            tree_view(*index_tree),
            name@,
            json_hash(value@),
            v@,
        ),
        r matches Ok(v) ==> forall|a: int, b: int|
            0 <= a < b < v@.len() ==> lex_lt(v@[a].key(), v@[b].key()),
        r matches Err(e) ==> e.is_storage() || (e.is_decode() && !epv_wf(tree_view(*index_tree))),
{
    let mut prefix: Vec<u8> = Vec::new();
    append_ident(&mut prefix, name);
    let h = hash_bytes(value.as_bytes());
    append_u64_be(&mut prefix, h);
    proof {
        assert(prefix@ =~= enc_ident(name@) + enc_u64(json_hash(value@)));
    }
    let entries = map_err(tree_scan_prefix(index_tree, &prefix))?;
    value_iterate_edges(
        index_tree,
        entries,
        Ghost(enc_ident(name@) + enc_u64(json_hash(value@))),
        Ghost(name@),
        Ghost(Some(json_hash(value@))),
    )
}

/// `k` is the index key of owner `e` under `name`, at some value hash.
pub open spec fn some_hash_edge_entry(k: Seq<u8>, name: Seq<u8>, e: Edge) -> bool {
    exists|h: u64| k == #[trigger] value_index_key(name, h, e.key())
}

/// The listed edges correspond one-to-one, in ascending key order, to
/// index entries under `name`: one underlying key per position, keys
/// strictly ascending, so no entry is listed twice.
pub open spec fn edges_in_key_order(
    m: Map<Seq<u8>, Seq<u8>>,
    name: Seq<u8>,
    v: Seq<Edge>,
) -> bool {
    exists|hs: Seq<u64>|
        #![trigger hs.len()]
        hs.len() == v.len() && (forall|a: int|
            0 <= a < v.len() ==> m.contains_key(
                #[trigger] value_index_key(name, hs[a], v[a].key()),
            )) && (forall|a: int, b: int|
            0 <= a < b < v.len() ==> lex_lt(
                #[trigger] value_index_key(name, hs[a], v[a].key()),
                #[trigger] value_index_key(name, hs[b], v[b].key()),
            ))
}

/// Decodes scanned value-index entries into the owner edges.
fn value_iterate_edges(
    index_tree: &sled::Tree,
    entries: Vec<(Vec<u8>, Vec<u8>)>,
    prefix: Ghost<Seq<u8>>,
    name: Ghost<Seq<u8>>,
    expect: Ghost<Option<u64>>,
) -> (r: Result<Vec<Edge>, DSError>)
    requires
        name@.len() <= 255,
        expect@ matches Some(h) ==> prefix@ == enc_ident(name@) + enc_u64(h),
        expect@ is None ==> prefix@ == enc_ident(name@),
        forall|a: int, b: int|
            0 <= a < b < entries@.len() ==> lex_lt(entries@[a].0@, entries@[b].0@),
        forall|a: int|
            #![trigger entries@[a]]
            0 <= a < entries@.len() ==> is_prefix_of(prefix@, entries@[a].0@) && tree_view(
                *index_tree,
            ).contains_key(entries@[a].0@),
        forall|k: Seq<u8>|
            #![trigger tree_view(*index_tree).contains_key(k), is_prefix_of(prefix@, k)]
            tree_view(*index_tree).contains_key(k) && is_prefix_of(prefix@, k) ==> exists|a: int|
                0 <= a < entries@.len() && entries@[a].0@ == k,
    ensures
        r matches Ok(v) ==> (expect@ matches Some(h) ==> edges_at_value(
            tree_view(*index_tree),
            name@,
            h,
            v@,
        ) && edges_of_value_complete(tree_view(*index_tree), name@, h, v@) && (forall|
            a: int,
            b: int,
        | 0 <= a < b < v@.len() ==> lex_lt(v@[a].key(), v@[b].key()))),
        r matches Ok(v) ==> (expect@ is None ==> edges_all_under_name(
            tree_view(*index_tree),
            name@,
            v@,
        ) && edges_of_name_complete(tree_view(*index_tree), name@, v@) && edges_in_key_order(
            tree_view(*index_tree),
            name@,
            v@,
        )),
        r matches Ok(v) ==> forall|a: int| #![trigger v@[a]] 0 <= a < v@.len() ==> v@[a].wf(),
        r matches Err(e) ==> e.is_storage() || (e.is_decode() && !epv_wf(tree_view(*index_tree))),
{
    proof {
        if expect@ is None {
            assert(is_prefix_of(enc_ident(name@), prefix@)) by {
                assert(prefix@.subrange(0, prefix@.len() as int) =~= prefix@);
            }
        } else {
            crate::bytes::lemma_prefix_concat(enc_ident(name@), enc_u64(expect@->Some_0));
        }
    }
    let mut out: Vec<Edge> = Vec::new();
    let ghost mut hseq: Seq<u64> = Seq::empty();
    let mut idx: usize = 0;
    while idx < entries.len()
        invariant
            idx <= entries@.len(),
            out@.len() == idx,
            hseq.len() == idx,
            name@.len() <= 255,
            expect@ matches Some(h) ==> prefix@ == enc_ident(name@) + enc_u64(h),
            expect@ is None ==> prefix@ == enc_ident(name@),
            is_prefix_of(enc_ident(name@), prefix@),
            forall|a: int, b: int|
                0 <= a < b < entries@.len() ==> lex_lt(entries@[a].0@, entries@[b].0@),
            forall|a: int|
                #![trigger entries@[a]]
                0 <= a < entries@.len() ==> is_prefix_of(prefix@, entries@[a].0@) && tree_view(
                    *index_tree,
                ).contains_key(entries@[a].0@),
            forall|j: int|
                #![trigger out@[j]]
                0 <= j < idx ==> some_hash_edge_entry(entries@[j].0@, name@, out@[j]) && out@[
                    j
                ].wf() && entries@[j].0@ == value_index_key(name@, hseq[j], out@[j].key()),
            expect@ matches Some(h) ==> forall|j: int|
                #![trigger out@[j]]
                0 <= j < idx ==> entries@[j].0@ == value_index_key(name@, h, out@[j].key()),
        decreases entries@.len() - idx,
    {
        let (n_i, h_i, e_i) = match read_key_value_index(&entries[idx].0) {
            Ok(p) => p,
            Err(er) => {
                proof {
                    assert(tree_view(*index_tree).contains_key(entries@[idx as int].0@));
                }
                return Err(er);
            },
        };
        proof {
            let k = entries@[idx as int].0@;
            lemma_vik_facts(n_i@, h_i, e_i.key());
            assert(is_prefix_of(enc_ident(n_i@), k)) by {
                assert(k.subrange(0, 1 + n_i@.len() as int) == enc_ident(n_i@));
            }
            assert(is_prefix_of(prefix@, k));
            assert(is_prefix_of(enc_ident(name@), k)) by {
                assert(k.subrange(0, prefix@.len() as int) == prefix@);
                assert(k.subrange(0, enc_ident(name@).len() as int) =~= prefix@.subrange(
                    0,
                    enc_ident(name@).len() as int,
                ));
            }
            lemma_enc_ident_prefix_unique(n_i@, name@, k);
            assert(k == value_index_key(name@, h_i, e_i.key()));
            if expect@ is Some {
                let h = expect@->Some_0;
                crate::codec::lemma_value_index_prefix2(name@, h, name@, h_i, e_i.key());
                assert(h_i == h);
            }
        }
        out.push(e_i);
        proof {
            hseq = hseq.push(h_i);
            assert(entries@[idx as int].0@ == value_index_key(
                name@,
                h_i,
                out@[idx as int].key(),
            ));
            assert(some_hash_edge_entry(entries@[idx as int].0@, name@, out@[idx as int]));
        }
        idx += 1;
    }
    proof {
        let m = tree_view(*index_tree);
        if expect@ is Some {
            let h = expect@->Some_0;
            assert(edges_at_value(m, name@, h, out@)) by {
                assert forall|a: int| #![trigger out@[a]] 0 <= a < out@.len() implies
                    m.contains_key(value_index_key(name@, h, out@[a].key())) by {
                    assert(entries@[a].0@ == value_index_key(name@, h, out@[a].key()));
                    assert(m.contains_key(entries@[a].0@));
                }
            }
            assert forall|a: int, b: int| 0 <= a < b < out@.len() implies lex_lt(
                out@[a].key(),
                out@[b].key(),
            ) by {
                assert(entries@[a].0@ == value_index_key(name@, hseq[a], out@[a].key()));
                assert(entries@[b].0@ == value_index_key(name@, hseq[b], out@[b].key()));
                crate::codec::lemma_value_index_prefix2(name@, h, name@, hseq[a], out@[a].key());
                crate::codec::lemma_value_index_prefix2(name@, h, name@, hseq[b], out@[b].key());
                assert(value_index_key(name@, h, out@[a].key()) =~= prefix@ + out@[a].key());
                assert(value_index_key(name@, h, out@[b].key()) =~= prefix@ + out@[b].key());
                crate::bytes::lemma_lex_lt_strip_prefix(prefix@, out@[a].key(), out@[b].key());
            }
            assert(edges_of_value_complete(m, name@, h, out@)) by {
                assert forall|o: Seq<u8>, t: Seq<u8>, i: Seq<u8>|
                    m.contains_key(
                        #[trigger] value_index_key(name@, h, edge_key(o, t, i)),
                    ) implies exists|a: int|
                    0 <= a < out@.len() && out@[a].key() == edge_key(o, t, i) by {
                    let k = value_index_key(name@, h, edge_key(o, t, i));
                    crate::codec::lemma_value_index_prefix(name@, name@, h, edge_key(o, t, i));
                    assert(is_prefix_of(prefix@, k));
                    let j = choose|j: int| 0 <= j < entries@.len() && entries@[j].0@ == k;
                    assert(entries@[j].0@ == value_index_key(name@, h, out@[j].key()));
                    lemma_value_index_key_injective(
                        name@,
                        h,
                        edge_key(o, t, i),
                        name@,
                        h,
                        out@[j].key(),
                    );
                    assert(out@[j].key() == edge_key(o, t, i));
                }
            }
        } else {
            assert(edges_all_under_name(m, name@, out@)) by {
                assert forall|a: int| #![trigger out@[a]] 0 <= a < out@.len() implies
                    has_edge_index_entry(m, name@, out@[a]) by {
                    assert(some_hash_edge_entry(entries@[a].0@, name@, out@[a]));
                    let h2 = choose|h2: u64| entries@[a].0@ == #[trigger] value_index_key(
                        name@,
                        h2,
                        out@[a].key(),
                    );
                    assert(m.contains_key(entries@[a].0@));
                    assert(m.contains_key(value_index_key(name@, h2, out@[a].key())));
                }
            }
            assert(edges_in_key_order(m, name@, out@)) by {
                assert(hseq.len() == out@.len());
                assert forall|a: int|
                    0 <= a < out@.len() implies m.contains_key(
                    #[trigger] value_index_key(name@, hseq[a], out@[a].key()),
                ) by {
                    assert(entries@[a].0@ == value_index_key(name@, hseq[a], out@[a].key()));
                    assert(m.contains_key(entries@[a].0@));
                }
                assert forall|a: int, b: int| 0 <= a < b < out@.len() implies lex_lt(
                    #[trigger] value_index_key(name@, hseq[a], out@[a].key()),
                    #[trigger] value_index_key(name@, hseq[b], out@[b].key()),
                ) by {
                    assert(entries@[a].0@ == value_index_key(name@, hseq[a], out@[a].key()));
                    assert(entries@[b].0@ == value_index_key(name@, hseq[b], out@[b].key()));
                }
            }
            assert(edges_of_name_complete(m, name@, out@)) by {
                assert forall|h: u64, o: Seq<u8>, t: Seq<u8>, i: Seq<u8>|
                    m.contains_key(
                        #[trigger] value_index_key(name@, h, edge_key(o, t, i)),
                    ) implies exists|a: int|
                    0 <= a < out@.len() && out@[a].key() == edge_key(o, t, i) by {
                    let k = value_index_key(name@, h, edge_key(o, t, i));
                    lemma_vik_facts(name@, h, edge_key(o, t, i));
                    assert(is_prefix_of(enc_ident(name@), k)) by {
                        assert(k.subrange(0, 1 + name@.len() as int) == enc_ident(name@));
                    }
                    assert(is_prefix_of(prefix@, k));
                    let j = choose|j: int| 0 <= j < entries@.len() && entries@[j].0@ == k;
                    assert(some_hash_edge_entry(entries@[j].0@, name@, out@[j]));
                    let h2 = choose|h2: u64| entries@[j].0@ == #[trigger] value_index_key(
                        name@,
                        h2,
                        out@[j].key(),
                    );
                    lemma_value_index_key_injective(
                        name@,
                        h,
                        edge_key(o, t, i),
                        name@,
                        h2,
                        out@[j].key(),
                    );
                    assert(out@[j].key() == edge_key(o, t, i));
                }
            }
        }
    }
    Ok(out)
}

} // verus!
