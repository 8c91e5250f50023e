//! The vertex property manager: one primary tree and one value-index tree.
//! Primary key: `Uuid(id) · Identifier(name)`, value: the serialized JSON
//! bytes.  Index key: `Identifier(name) · Json(value) · Uuid(id)`, where the
//! JSON component is the canonical 8-byte hash of the value bytes.  Every
//! write keeps the index in step with the primary: the old value's index
//! key is removed, the new one written.

use vstd::prelude::*;
use crate::bytes::{is_prefix_of, lex_lt};
use crate::codec::{
    append_ident, append_u64_be, append_uuid, enc_ident, enc_u64, hash_bytes, is_vp_key,
    is_vpv_key, json_hash, lemma_enc_ident_prefix_unique, lemma_prefix16, lemma_prop_key_facts,
    lemma_value_index_key_injective, lemma_vik_facts, prop_key, read_ident, read_u64, read_uuid,
    value_index_key, Ident, Uid,
};
use crate::errors::{map_err, DSError};
use crate::kv::{tree_get, tree_insert, tree_remove, tree_scan_prefix, tree_view};
use crate::models::PropValue;

verus! {

/// Every key of the primary tree is a vertex property key.
pub open spec fn vp_wf(m: Map<Seq<u8>, Seq<u8>>) -> bool {
    forall|k: Seq<u8>| #[trigger] m.contains_key(k) ==> is_vp_key(k)
}

/// Every key of the value-index tree is a vertex value-index key.
pub open spec fn vpv_wf(m: Map<Seq<u8>, Seq<u8>>) -> bool {
    forall|k: Seq<u8>| #[trigger] m.contains_key(k) ==> is_vpv_key(k)
}

/// What the value-index tree holds after one property write.
pub open spec fn index_after_set(
    primary: Map<Seq<u8>, Seq<u8>>,
    index: Map<Seq<u8>, Seq<u8>>,
    owner: Seq<u8>,
    name: Seq<u8>,
    value: Seq<u8>,
) -> Map<Seq<u8>, Seq<u8>> {
    (if primary.contains_key(prop_key(owner, name)) {
        index.remove(value_index_key(name, json_hash(primary[prop_key(owner, name)]), owner))
    } else {
        index
    }).insert(value_index_key(name, json_hash(value), owner), value)
}

/// What the value-index tree holds after one property delete.
pub open spec fn index_after_delete(
    primary: Map<Seq<u8>, Seq<u8>>,
    index: Map<Seq<u8>, Seq<u8>>,
    owner: Seq<u8>,
    name: Seq<u8>,
) -> Map<Seq<u8>, Seq<u8>> {
    if primary.contains_key(prop_key(owner, name)) {
        index.remove(value_index_key(name, json_hash(primary[prop_key(owner, name)]), owner))
    } else {
        index
    }
}

/// The primary key of a property.
pub fn key(vertex_id: &Uid, name: &Ident) -> (r: Vec<u8>)
    requires
        name.wf(),
    ensures
        r@ == prop_key(vertex_id@, name@),
{
    let mut v: Vec<u8> = Vec::new();
    append_uuid(&mut v, vertex_id);
    append_ident(&mut v, name);
    proof {
        assert(v@ =~= prop_key(vertex_id@, name@));
    }
    v
}

/// The value-index key of a property at a value.
pub fn key_value_index(vertex_id: &Uid, value: &PropValue, name: &Ident) -> (r: Vec<u8>)
    requires
        name.wf(),
    ensures
        r@ == value_index_key(name@, json_hash(value@), vertex_id@),
{
    let mut v: Vec<u8> = Vec::new();
    append_ident(&mut v, name);
    let h = hash_bytes(value.as_bytes());
    append_u64_be(&mut v, h);
    append_uuid(&mut v, vertex_id);
    proof {
        assert(v@ =~= value_index_key(name@, json_hash(value@), vertex_id@));
    }
    v
}

/// Reads one value-index key back into its components.
pub fn read_key_value_index(buf: &Vec<u8>) -> (r: Result<(Ident, u64, Uid), DSError>)
    ensures
        r matches Ok(p) ==> buf@ == value_index_key(p.0@, p.1, p.2@) && p.0.wf(),
        r matches Err(e) ==> e.is_decode() && !is_vpv_key(buf@),
{
    let mut pos: usize = 0;
    let name = match read_ident(buf, &mut pos) {
        Ok(t) => t,
        Err(_) => {
            proof {
                lemma_no_vpv_key(buf@, 0, 0);
            }
            return Err(DSError::Decode);
        },
    };
    proof {
        crate::codec::lemma_enc_ident_facts(name@);
        assert(buf@.subrange(0, 1 + name@.len() as int)[0] == buf@[0]);
        assert(buf@[0] == name@.len() as u8);
    }
    let h = match read_u64(buf, &mut pos) {
        Ok(x) => x,
        Err(_) => {
            proof {
                lemma_no_vpv_key(buf@, 1, name@.len() as int);
            }
            return Err(DSError::Decode);
        },
    };
    let id = match read_uuid(buf, &mut pos) {
        Ok(u) => u,
        Err(_) => {
            proof {
                lemma_no_vpv_key(buf@, 2, name@.len() as int);
            }
            return Err(DSError::Decode);
        },
    };
    if pos != buf.len() {
        proof {
            lemma_no_vpv_key(buf@, 3, name@.len() as int);
        }
        return Err(DSError::Decode);
    }
    proof {
        assert(buf@ =~= enc_ident(name@) + enc_u64(h) + id@);
    }
    Ok((name, h, id))
}

/// A key on which the component reads fail is no vertex value-index key.
/// `stage`: 0 the name, 1 the hash, 2 the trailing id, 3 spare bytes; for
/// stages past 0, `nl` is the length of the name that was read.
proof fn lemma_no_vpv_key(k: Seq<u8>, stage: int, nl: int)
    requires
        stage == 0 ==> k.len() == 0 || 1 + (k[0] as int) > k.len(),
        1 <= stage ==> 0 <= nl <= 255 && k.len() >= 1 + nl && k[0] as int == nl,
        stage == 1 ==> 9 + nl > k.len(),
        stage == 2 ==> 9 + nl <= k.len() && 25 + nl > k.len(),
        stage == 3 ==> 25 + nl <= k.len() && 25 + nl != k.len(),
        0 <= stage <= 3,
    ensures
        !is_vpv_key(k),
{
    if is_vpv_key(k) {
        let (n, h, id) = choose|n: Seq<u8>, h: u64, id: Seq<u8>|
            k == #[trigger] value_index_key(n, h, id) && n.len() <= 255 && id.len() == 16;
        lemma_vik_facts(n, h, id);
        assert(k.len() == 25 + n.len());
        assert(k[0] == n.len() as u8);
        assert(false);
    }
}

/// The stored value of a property, if set.
pub fn get(tree: &sled::Tree, vertex_id: &Uid, name: &Ident) -> (r: Result<
    Option<PropValue>,
    DSError,
>)
    requires
        name.wf(),
    ensures
        match r {
            Ok(Some(pv)) => tree_view(*tree).contains_key(prop_key(vertex_id@, name@))
                && tree_view(*tree)[prop_key(vertex_id@, name@)] == pv@,
            Ok(None) => !tree_view(*tree).contains_key(prop_key(vertex_id@, name@)),
            Err(e) => e.is_storage(),
        },
{
    let k = key(vertex_id, name);
    match map_err(tree_get(tree, &k))? {
        Some(bytes) => Ok(Some(PropValue::new(bytes))),
        None => Ok(None),
    }
}

/// Sets a property: removes the old value's index key if one was stored,
/// writes the new primary value, writes the new index key.
pub fn set(
    tree: &mut sled::Tree,
    index_tree: &mut sled::Tree,
    vertex_id: &Uid,
    name: &Ident,
    value: &PropValue,
) -> (r: Result<(), DSError>)
    requires
        name.wf(),
    ensures
        r is Ok ==> tree_view(*final(tree)) == tree_view(*old(tree)).insert(
            prop_key(vertex_id@, name@),
            value@,
        ),
        r is Ok ==> tree_view(*final(index_tree)) == index_after_set(
            tree_view(*old(tree)),
            tree_view(*old(index_tree)),
            vertex_id@,
            name@,
            value@,
        ),
        r matches Err(e) ==> e.is_storage(),
{
    let pk = key(vertex_id, name);
    let old_value = map_err(tree_get(tree, &pk))?;
    match old_value {
        Some(bytes) => {
            let oldpv = PropValue::new(bytes);
            let old_ik = key_value_index(vertex_id, &oldpv, name);
            map_err(tree_remove(index_tree, &old_ik))?;
        },
        None => {},
    }
    map_err(tree_insert(tree, &pk, value.as_bytes()))?;
    let ik = key_value_index(vertex_id, value, name);
    map_err(tree_insert(index_tree, &ik, value.as_bytes()))?;
    Ok(())
}

/// Deletes a property: removes the primary row and, if a value was stored,
/// the index key derived from it.
pub fn delete(
    tree: &mut sled::Tree,
    index_tree: &mut sled::Tree,
    vertex_id: &Uid,
    name: &Ident,
) -> (r: Result<(), DSError>)
    requires
        name.wf(),
    ensures
        r is Ok ==> tree_view(*final(tree)) == tree_view(*old(tree)).remove(
            prop_key(vertex_id@, name@),
        ),
        r is Ok ==> tree_view(*final(index_tree)) == index_after_delete(
            tree_view(*old(tree)),
            tree_view(*old(index_tree)),
            vertex_id@,
            name@,
        ),
        r matches Err(e) ==> e.is_storage(),
{
    let pk = key(vertex_id, name);
    let old_value = map_err(tree_get(tree, &pk))?;
    map_err(tree_remove(tree, &pk))?;
    match old_value {
        Some(bytes) => {
            let oldpv = PropValue::new(bytes);
            let old_ik = key_value_index(vertex_id, &oldpv, name);
            map_err(tree_remove(index_tree, &old_ik))?;
        },
        None => {},
    }
    Ok(())
}

/// Every key under the owner's prefix is the key of a listed property.
pub open spec fn owner_props_complete(
    m: Map<Seq<u8>, Seq<u8>>,
    owner: Seq<u8>,
    v: Seq<((Uid, Ident), PropValue)>,
) -> bool {
    forall|k: Seq<u8>|
        #![trigger m.contains_key(k), is_prefix_of(owner, k)]
        m.contains_key(k) && is_prefix_of(owner, k) ==> exists|a: int|
            0 <= a < v.len() && k == prop_key(owner, v[a].0.1@)
}

/// All properties owned by one vertex, in ascending name order.
pub fn iterate_for_owner(tree: &sled::Tree, vertex_id: &Uid) -> (r: Result<
    Vec<((Uid, Ident), PropValue)>,
    DSError,
>)
    ensures
        r matches Ok(v) ==> forall|a: int, b: int|
            0 <= a < b < v@.len() ==> lex_lt(
                prop_key(vertex_id@, v@[a].0.1@),
                prop_key(vertex_id@, v@[b].0.1@),
            ),
        r matches Ok(v) ==> forall|a: int|
            #![trigger v@[a]]
            0 <= a < v@.len() ==> v@[a].0.0@ == vertex_id@ && v@[a].0.1.wf() && tree_view(
                *tree,
            ).contains_key(prop_key(vertex_id@, v@[a].0.1@)) && tree_view(*tree)[prop_key(
                vertex_id@,
                v@[a].0.1@,
            )] == v@[a].1@,
        r matches Ok(v) ==> owner_props_complete(tree_view(*tree), vertex_id@, v@),
        r matches Err(e) ==> e.is_storage() || (e.is_decode() && !vp_wf(tree_view(*tree))),
{
    let prefix = crate::vertex_manager::key(vertex_id);
    let entries = map_err(tree_scan_prefix(tree, &prefix))?;
    let mut out: Vec<((Uid, Ident), PropValue)> = Vec::new();
    let mut idx: usize = 0;
    while idx < entries.len()
        invariant
            idx <= entries@.len(),
            out@.len() == idx,
            prefix@ == vertex_id@,
            forall|a: int, b: int|
                0 <= a < b < entries@.len() ==> lex_lt(entries@[a].0@, entries@[b].0@),
            forall|a: int|
                #![trigger entries@[a]]
                0 <= a < entries@.len() ==> is_prefix_of(prefix@, entries@[a].0@) && tree_view(
                    *tree,
                ).contains_key(entries@[a].0@) && tree_view(*tree)[entries@[a].0@]
                    == entries@[a].1@,
            forall|k: Seq<u8>|
                #![trigger tree_view(*tree).contains_key(k), is_prefix_of(prefix@, k)]
                tree_view(*tree).contains_key(k) && is_prefix_of(prefix@, k) ==> exists|a: int|
                    0 <= a < entries@.len() && entries@[a].0@ == k,
            forall|j: int|
                #![trigger out@[j]]
                0 <= j < idx ==> out@[j].0.0@ == vertex_id@ && out@[j].0.1.wf()
                    && entries@[j].0@ == prop_key(vertex_id@, out@[j].0.1@) && out@[j].1@
                    == entries@[j].1@,
        decreases entries@.len() - idx,
    {
        let kbytes: &Vec<u8> = &entries[idx].0;
        let mut pos: usize = 0;
        let owner = match read_uuid(kbytes, &mut pos) {
            Ok(u) => u,
            Err(_) => {
                proof {
                    lemma_no_vp_key(kbytes@, 0, 0);
                    assert(tree_view(*tree).contains_key(entries@[idx as int].0@));
                }
                return Err(DSError::Decode);
            },
        };
        let name = match read_ident(kbytes, &mut pos) {
            Ok(t) => t,
            Err(_) => {
                proof {
                    lemma_no_vp_key(kbytes@, 1, 0);
                    assert(tree_view(*tree).contains_key(entries@[idx as int].0@));
                }
                return Err(DSError::Decode);
            },
        };
        if pos != kbytes.len() {
            proof {
                crate::codec::lemma_enc_ident_facts(name@);
                assert(kbytes@.subrange(16, pos as int)[0] == kbytes@[16]);
                assert(kbytes@[16] == name@.len() as u8);
                lemma_no_vp_key(kbytes@, 2, name@.len() as int);
                assert(tree_view(*tree).contains_key(entries@[idx as int].0@));
            }
            return Err(DSError::Decode);
        }
        let value = crate::codec::copy_bytes(&entries[idx].1);
        proof {
            assert(kbytes@ =~= owner@ + enc_ident(name@));
            lemma_prefix16(prefix@, kbytes@);
            lemma_prop_key_facts(owner@, name@);
            assert(owner@ == vertex_id@);
        }
        out.push(((owner, name), PropValue::new(value)));
        idx += 1;
    }
    proof {
        assert forall|a: int, b: int| 0 <= a < b < out@.len() implies lex_lt(
            prop_key(vertex_id@, out@[a].0.1@),
            prop_key(vertex_id@, out@[b].0.1@),
        ) by {
            assert(entries@[a].0@ == prop_key(vertex_id@, out@[a].0.1@));
            assert(entries@[b].0@ == prop_key(vertex_id@, out@[b].0.1@));
        }
        assert forall|a: int| 0 <= a < out@.len() implies tree_view(*tree).contains_key(
            #[trigger] prop_key(vertex_id@, out@[a].0.1@),
        ) && tree_view(*tree)[prop_key(vertex_id@, out@[a].0.1@)] == out@[a].1@ by {
            assert(entries@[a].0@ == prop_key(vertex_id@, out@[a].0.1@));
        }
        assert forall|k: Seq<u8>|
            #![trigger tree_view(*tree).contains_key(k), is_prefix_of(vertex_id@, k)]
            tree_view(*tree).contains_key(k) && is_prefix_of(vertex_id@, k) implies exists|a: int|
            0 <= a < out@.len() && k == prop_key(vertex_id@, out@[a].0.1@) by {
            let j = choose|j: int| 0 <= j < entries@.len() && entries@[j].0@ == k;
            assert(entries@[j].0@ == prop_key(vertex_id@, out@[j].0.1@));
        }
        assert(owner_props_complete(tree_view(*tree), vertex_id@, out@));
    }
    Ok(out)
}

/// A key on which the reads fail is no vertex property key.  `stage`: 0 the
/// id, 1 the name, 2 spare bytes (with `nl` the length of the name read).
proof fn lemma_no_vp_key(k: Seq<u8>, stage: int, nl: int)
    requires
        stage == 0 ==> k.len() < 16,
        stage == 1 ==> k.len() >= 16 && (16 >= k.len() || 17 + (k[16] as int) > k.len()),
        stage == 2 ==> 0 <= nl <= 255 && k.len() >= 17 + nl && k[16] as int == nl && 17 + nl
            != k.len(),
        0 <= stage <= 2,
    ensures
        !is_vp_key(k),
{
    if is_vp_key(k) {
        let (id, n) = choose|id: Seq<u8>, n: Seq<u8>|
            k == #[trigger] prop_key(id, n) && id.len() == 16 && n.len() <= 255;
        lemma_prop_key_facts(id, n);
        assert(k.len() == 17 + n.len());
        assert(k[16] == n.len() as u8);
        assert(false);
    }
}

/// `v` lists the owner of every index entry under the name.
pub open spec fn ids_of_name_complete(
    m: Map<Seq<u8>, Seq<u8>>,
    name: Seq<u8>,
    v: Seq<Uid>,
) -> bool {
    forall|h: u64, id: Seq<u8>|
        #![trigger m.contains_key(value_index_key(name, h, id))]
        m.contains_key(value_index_key(name, h, id)) ==> exists|a: int|
            0 <= a < v.len() && v[a]@ == id
}

/// `v` lists the owner of every index entry under the name and hash.
pub open spec fn ids_of_value_complete(
    m: Map<Seq<u8>, Seq<u8>>,
    name: Seq<u8>,
    h: u64,
    v: Seq<Uid>,
) -> bool {
    forall|id: Seq<u8>|
        #![trigger m.contains_key(value_index_key(name, h, id))]
        m.contains_key(value_index_key(name, h, id)) ==> exists|a: int|
            0 <= a < v.len() && v[a]@ == id
}

/// `k` is the index key of owner `id` under `name`, at some value hash.
pub open spec fn some_hash_entry(k: Seq<u8>, name: Seq<u8>, id: Seq<u8>) -> bool {
    exists|h: u64| k == #[trigger] value_index_key(name, h, id)
}

/// The index holds an entry for owner `id` under `name` at some hash.
pub open spec fn has_index_entry(m: Map<Seq<u8>, Seq<u8>>, name: Seq<u8>, id: Seq<u8>) -> bool {
    exists|h: u64| m.contains_key(#[trigger] value_index_key(name, h, id))
}

/// Every listed id has an index entry under `name` at exactly this hash.
pub open spec fn ids_at_value(
    m: Map<Seq<u8>, Seq<u8>>,
    name: Seq<u8>,
    h: u64,
    v: Seq<Uid>,
) -> bool {
    forall|a: int|
        #![trigger v[a]]
        0 <= a < v.len() ==> m.contains_key(value_index_key(name, h, v[a]@))
}

/// Every listed id has an index entry under `name`.
pub open spec fn ids_all_under_name(
    m: Map<Seq<u8>, Seq<u8>>,
    name: Seq<u8>,
    v: Seq<Uid>,
) -> bool {
    forall|a: int| #![trigger v[a]] 0 <= a < v.len() ==> has_index_entry(m, name, v[a]@)
}

/// The ids that hold a property under this name, from the value index.
pub fn iterate_for_property_name(index_tree: &sled::Tree, name: &Ident) -> (r: Result<
    Vec<Uid>,
    DSError,
>)
    requires
        name.wf(),
    ensures
        r matches Ok(v) ==> ids_all_under_name(tree_view(*index_tree), name@, v@),
        r matches Ok(v) ==> ids_of_name_complete(tree_view(*index_tree), name@, v@),
        r matches Ok(v) ==> ids_in_key_order(tree_view(*index_tree), name@, v@),
        r matches Err(e) ==> e.is_storage() || (e.is_decode() && !vpv_wf(tree_view(*index_tree))),
{
    let mut prefix: Vec<u8> = Vec::new();
    append_ident(&mut prefix, name);
    proof {
        assert(prefix@ =~= enc_ident(name@));
    }
    let entries = map_err(tree_scan_prefix(index_tree, &prefix))?;
    value_iterate_uuids(index_tree, entries, Ghost(enc_ident(name@)), Ghost(name@), Ghost(None))
}

/// The ids that hold a property under this name at this value, from the
/// value index: everything under the name-and-hash prefix.
pub fn iterate_for_property_name_and_value(
    index_tree: &sled::Tree,
    name: &Ident,
    value: &PropValue,
) -> (r: Result<Vec<Uid>, DSError>)
    requires
        name.wf(),
    ensures
        r matches Ok(v) ==> ids_at_value(tree_view(*index_tree), name@, json_hash(value@), v@),
        r matches Ok(v) ==> ids_of_value_complete(
            tree_view(*index_tree),
            name@,
            json_hash(value@),
            v@,
        ),
        r matches Ok(v) ==> forall|a: int, b: int|
            0 <= a < b < v@.len() ==> lex_lt(v@[a]@, v@[b]@),
        r matches Err(e) ==> e.is_storage() || (e.is_decode() && !vpv_wf(tree_view(*index_tree))),
{
    let mut prefix: Vec<u8> = Vec::new();
    append_ident(&mut prefix, name);
    let h = hash_bytes(value.as_bytes());
    append_u64_be(&mut prefix, h);
    proof {
        assert(prefix@ =~= enc_ident(name@) + enc_u64(json_hash(value@)));
    }
    let entries = map_err(tree_scan_prefix(index_tree, &prefix))?;
    value_iterate_uuids(
        index_tree,
        entries,
        Ghost(enc_ident(name@) + enc_u64(json_hash(value@))),
        Ghost(name@),
        Ghost(Some(json_hash(value@))),
    )
}

/// The listed ids correspond one-to-one, in ascending key order, to
/// index entries under `name`: there is one underlying key per position
/// and the keys strictly ascend, so no entry is listed twice.
pub open spec fn ids_in_key_order(
    m: Map<Seq<u8>, Seq<u8>>,
    name: Seq<u8>,
    v: Seq<Uid>,
) -> bool {
    exists|hs: Seq<u64>|
        #![trigger hs.len()]
        hs.len() == v.len() && (forall|a: int|
            0 <= a < v.len() ==> m.contains_key(#[trigger] value_index_key(name, hs[a], v[a]@)))
            && (forall|a: int, b: int|
            0 <= a < b < v.len() ==> lex_lt(
                #[trigger] value_index_key(name, hs[a], v[a]@),
                #[trigger] value_index_key(name, hs[b], v[b]@),
            ))
}

/// Decodes scanned value-index entries into the trailing owner ids.  The
/// scan prefix is the encoded name, extended by the encoded hash when one
/// value is asked for.
fn value_iterate_uuids(
    index_tree: &sled::Tree,
    entries: Vec<(Vec<u8>, Vec<u8>)>,
    prefix: Ghost<Seq<u8>>,
    name: Ghost<Seq<u8>>,
    expect: Ghost<Option<u64>>,
) -> (r: Result<Vec<Uid>, DSError>)
    requires
        name@.len() <= 255,
        expect@ matches Some(h) ==> prefix@ == enc_ident(name@) + enc_u64(h),
        expect@ is None ==> prefix@ == enc_ident(name@),
        forall|a: int, b: int|
            0 <= a < b < entries@.len() ==> lex_lt(entries@[a].0@, entries@[b].0@),
        forall|a: int|
            #![trigger entries@[a]]
            0 <= a < entries@.len() ==> is_prefix_of(prefix@, entries@[a].0@) && tree_view(
                *index_tree,
            ).contains_key(entries@[a].0@),
        forall|k: Seq<u8>|
            #![trigger tree_view(*index_tree).contains_key(k), is_prefix_of(prefix@, k)]
            tree_view(*index_tree).contains_key(k) && is_prefix_of(prefix@, k) ==> exists|a: int|
                0 <= a < entries@.len() && entries@[a].0@ == k,
    ensures
        r matches Ok(v) ==> (expect@ matches Some(h) ==> ids_at_value(
            tree_view(*index_tree),
            name@,
            h,
            v@,
        ) && ids_of_value_complete(tree_view(*index_tree), name@, h, v@) && (forall|
            a: int,
            b: int,
        | 0 <= a < b < v@.len() ==> lex_lt(v@[a]@, v@[b]@))),
        r matches Ok(v) ==> (expect@ is None ==> ids_all_under_name(
            tree_view(*index_tree),
            name@,
            v@,
        ) && ids_of_name_complete(tree_view(*index_tree), name@, v@) && ids_in_key_order(
            tree_view(*index_tree),
            name@,
            v@,
        )),
        r matches Err(e) ==> e.is_storage() || (e.is_decode() && !vpv_wf(tree_view(*index_tree))),
{
    proof {
        if expect@ is None {
            assert(is_prefix_of(enc_ident(name@), prefix@)) by {
                assert(prefix@.subrange(0, prefix@.len() as int) =~= prefix@);
            }
        } else {
            crate::bytes::lemma_prefix_concat(enc_ident(name@), enc_u64(expect@->Some_0));
        }
    }
    let mut out: Vec<Uid> = Vec::new();
    let ghost mut hseq: Seq<u64> = Seq::empty();
    let mut idx: usize = 0;
    while idx < entries.len()
        invariant
            idx <= entries@.len(),
            out@.len() == idx,
            hseq.len() == idx,
            name@.len() <= 255,
            expect@ matches Some(h) ==> prefix@ == enc_ident(name@) + enc_u64(h),
            expect@ is None ==> prefix@ == enc_ident(name@),
            is_prefix_of(enc_ident(name@), prefix@),
            forall|a: int, b: int|
                0 <= a < b < entries@.len() ==> lex_lt(entries@[a].0@, entries@[b].0@),
            forall|a: int|
                #![trigger entries@[a]]
                0 <= a < entries@.len() ==> is_prefix_of(prefix@, entries@[a].0@) && tree_view(
                    *index_tree,
                ).contains_key(entries@[a].0@),
            forall|j: int|
                #![trigger out@[j]]
                0 <= j < idx ==> some_hash_entry(entries@[j].0@, name@, out@[j]@)
                    && entries@[j].0@ == value_index_key(name@, hseq[j], out@[j]@),
            expect@ matches Some(h) ==> forall|j: int|
                #![trigger out@[j]]
                0 <= j < idx ==> entries@[j].0@ == value_index_key(name@, h, out@[j]@),
        decreases entries@.len() - idx,
    {
        let (n_i, h_i, id_i) = match read_key_value_index(&entries[idx].0) {
            Ok(p) => p,
            Err(er) => {
                proof {
                    assert(tree_view(*index_tree).contains_key(entries@[idx as int].0@));
                }
                return Err(er);
            },
        };
        proof {
            let k = entries@[idx as int].0@;
            crate::codec::lemma_vik_facts(n_i@, h_i, id_i@);
            assert(is_prefix_of(enc_ident(n_i@), k)) by {
                assert(k.subrange(0, 1 + n_i@.len() as int) == enc_ident(n_i@));
            }
            assert(is_prefix_of(prefix@, k));
            assert(is_prefix_of(enc_ident(name@), k)) by {
                assert(k.subrange(0, prefix@.len() as int) == prefix@);
                assert(k.subrange(0, enc_ident(name@).len() as int) =~= prefix@.subrange(
                    0,
                    enc_ident(name@).len() as int,
                ));
            }
            lemma_enc_ident_prefix_unique(n_i@, name@, k);
            assert(k == value_index_key(name@, h_i, id_i@));
            if expect@ is Some {
                let h = expect@->Some_0;
                crate::codec::lemma_value_index_prefix2(name@, h, name@, h_i, id_i@);
                assert(h_i == h);
            }
        }
        out.push(id_i);
        proof {
            hseq = hseq.push(h_i);
            assert(entries@[idx as int].0@ == value_index_key(name@, h_i, out@[idx as int]@));
            assert(some_hash_entry(entries@[idx as int].0@, name@, out@[idx as int]@));
        }
        idx += 1;
    }
    proof {
        let m = tree_view(*index_tree);
        if expect@ is Some {
            let h = expect@->Some_0;
            assert(ids_at_value(m, name@, h, out@)) by {
                assert forall|a: int| #![trigger out@[a]] 0 <= a < out@.len() implies
                    m.contains_key(value_index_key(name@, h, out@[a]@)) by {
                    assert(entries@[a].0@ == value_index_key(name@, h, out@[a]@));
                    assert(m.contains_key(entries@[a].0@));
                }
            }
            assert forall|a: int, b: int| 0 <= a < b < out@.len() implies lex_lt(
                out@[a]@,
                out@[b]@,
            ) by {
                assert(entries@[a].0@ == value_index_key(name@, hseq[a], out@[a]@));
                assert(entries@[b].0@ == value_index_key(name@, hseq[b], out@[b]@));
                crate::codec::lemma_value_index_prefix2(name@, h, name@, hseq[a], out@[a]@);
                crate::codec::lemma_value_index_prefix2(name@, h, name@, hseq[b], out@[b]@);
                assert(value_index_key(name@, h, out@[a]@) =~= prefix@ + out@[a]@);
                assert(value_index_key(name@, h, out@[b]@) =~= prefix@ + out@[b]@);
                crate::bytes::lemma_lex_lt_strip_prefix(prefix@, out@[a]@, out@[b]@);
            }
            assert(ids_of_value_complete(m, name@, h, out@)) by {
                assert forall|id: Seq<u8>|
                    m.contains_key(#[trigger] value_index_key(name@, h, id)) implies exists|
                    a: int,
                | 0 <= a < out@.len() && out@[a]@ == id by {
                    let k = value_index_key(name@, h, id);
                    crate::codec::lemma_value_index_prefix(name@, name@, h, id);
                    assert(is_prefix_of(prefix@, k));
                    let j = choose|j: int| 0 <= j < entries@.len() && entries@[j].0@ == k;
                    assert(entries@[j].0@ == value_index_key(name@, h, out@[j]@));
                    lemma_value_index_key_injective(name@, h, id, name@, h, out@[j]@);
                    assert(out@[j]@ == id);
                }
            }
        } else {
            assert(ids_all_under_name(m, name@, out@)) by {
                assert forall|a: int| #![trigger out@[a]] 0 <= a < out@.len() implies
                    has_index_entry(m, name@, out@[a]@) by {
                    assert(some_hash_entry(entries@[a].0@, name@, out@[a]@));
                    let h2 = choose|h2: u64| entries@[a].0@ == #[trigger] value_index_key(
                        name@,
                        h2,
                        out@[a]@,
                    );
                    assert(m.contains_key(entries@[a].0@));
                    assert(m.contains_key(value_index_key(name@, h2, out@[a]@)));
                }
            }
            assert(ids_in_key_order(m, name@, out@)) by {
                assert(hseq.len() == out@.len());
                assert forall|a: int|
                    0 <= a < out@.len() implies m.contains_key(
                    #[trigger] value_index_key(name@, hseq[a], out@[a]@),
                ) by {
                    assert(entries@[a].0@ == value_index_key(name@, hseq[a], out@[a]@));
                    assert(m.contains_key(entries@[a].0@));
                }
                assert forall|a: int, b: int| 0 <= a < b < out@.len() implies lex_lt(
                    #[trigger] value_index_key(name@, hseq[a], out@[a]@),
                    #[trigger] value_index_key(name@, hseq[b], out@[b]@),
                ) by {
                    assert(entries@[a].0@ == value_index_key(name@, hseq[a], out@[a]@));
                    assert(entries@[b].0@ == value_index_key(name@, hseq[b], out@[b]@));
                }
            }
            assert(ids_of_name_complete(m, name@, out@)) by {
                assert forall|h: u64, id: Seq<u8>|
                    m.contains_key(#[trigger] value_index_key(name@, h, id)) implies exists|
                    a: int,
                | 0 <= a < out@.len() && out@[a]@ == id by {
                    let k = value_index_key(name@, h, id);
                    crate::codec::lemma_vik_facts(name@, h, id);
                    assert(is_prefix_of(enc_ident(name@), k)) by {
                        assert(k.subrange(0, 1 + name@.len() as int) == enc_ident(name@));
                    }
                    assert(is_prefix_of(prefix@, k));
                    let j = choose|j: int| 0 <= j < entries@.len() && entries@[j].0@ == k;
                    assert(some_hash_entry(entries@[j].0@, name@, out@[j]@));
                    let h2 = choose|h2: u64| entries@[j].0@ == #[trigger] value_index_key(
                        name@,
                        h2,
                        out@[j]@,
                    );
                    lemma_value_index_key_injective(name@, h, id, name@, h2, out@[j]@);
                    assert(out@[j]@ == id);
                }
            }
        }
    }
    Ok(out)
}

} // verus!
