//! The edge range manager: two instances over two trees with one schema.
//! Key: `Uuid(first) · Identifier(label) · Uuid(second)`.  Value: empty.
//! The forward instance stores (outbound, label, inbound); the reversed one
//! (inbound, label, outbound), so a prefix scan on an id answers "who does
//! this vertex point at" and "who points at this vertex".

use vstd::prelude::*;
use crate::bytes::{empty_bytes, is_prefix_of, lemma_lex_le_empty, lex_le, lex_lt};
use crate::codec::{
    append_ident, append_uuid, edge_key, is_edge_key, lemma_edge_key_facts, lemma_prefix16,
    read_ident, read_uuid,
};
use crate::errors::{map_err, DSError};
use crate::kv::{
    batch_insert, batch_view, tree_contains, tree_insert, tree_remove, tree_scan_from,
    tree_scan_prefix, tree_view,
};
use crate::models::Edge;
use crate::codec::Uid;

verus! {

/// Every key of an edge or range tree is an edge key.
pub open spec fn edges_wf(m: Map<Seq<u8>, Seq<u8>>) -> bool {
    forall|k: Seq<u8>| #[trigger] m.contains_key(k) ==> is_edge_key(k)
}

/// `v` lists an edge for every tree key at or above `start`.
pub open spec fn range_complete(m: Map<Seq<u8>, Seq<u8>>, start: Seq<u8>, v: Seq<Edge>) -> bool {
    forall|k: Seq<u8>|
        #![trigger m.contains_key(k), lex_le(start, k)]
        m.contains_key(k) && lex_le(start, k) ==> exists|a: int|
            0 <= a < v.len() && v[a].key() == k
}

/// `v` lists an edge for every tree key.
pub open spec fn all_complete(m: Map<Seq<u8>, Seq<u8>>, v: Seq<Edge>) -> bool {
    forall|k: Seq<u8>|
        #[trigger] m.contains_key(k) ==> exists|a: int| 0 <= a < v.len() && v[a].key() == k
}

/// `v` lists an edge for every tree key with the 16-byte prefix `id`.
pub open spec fn owner_complete(m: Map<Seq<u8>, Seq<u8>>, id: Seq<u8>, v: Seq<Edge>) -> bool {
    forall|k: Seq<u8>|
        #![trigger m.contains_key(k), is_prefix_of(id, k)]
        m.contains_key(k) && is_prefix_of(id, k) ==> exists|a: int|
            0 <= a < v.len() && v[a].key() == k
}

/// The encoded key of an edge.
pub fn key(edge: &Edge) -> (r: Vec<u8>)
    requires
        edge.wf(),
    ensures
        r@ == edge.key(),
{
    let mut v: Vec<u8> = Vec::new();
    append_uuid(&mut v, &edge.outbound_id);
    append_ident(&mut v, &edge.t);
    append_uuid(&mut v, &edge.inbound_id);
    proof {
        assert(v@ =~= edge_key(edge.outbound_id@, edge.t@, edge.inbound_id@));
    }
    v
}

/// Whether the tree holds this edge.
pub fn contains(tree: &sled::Tree, edge: &Edge) -> (r: Result<bool, DSError>)
    requires
        edge.wf(),
    ensures
        r matches Ok(b) ==> b == tree_view(*tree).contains_key(edge.key()),
        r matches Err(e) ==> e.is_storage(),
{
    let k = key(edge);
    map_err(tree_contains(tree, &k))
}

/// Inserts the edge's key with an empty value.
pub fn set(tree: &mut sled::Tree, edge: &Edge) -> (r: Result<(), DSError>)
    requires
        edge.wf(),
    ensures
        r is Ok ==> tree_view(*final(tree)) == tree_view(*old(tree)).insert(
            edge.key(),
            empty_bytes(),
        ),
        r matches Err(e) ==> e.is_storage(),
{
    let k = key(edge);
    let val: Vec<u8> = Vec::new();
    proof {
        assert(val@ =~= empty_bytes());
    }
    map_err(tree_insert(tree, &k, &val))
}

/// Queues the edge's key into a batch.
pub fn set_batch(edge: &Edge, batch: &mut sled::Batch) -> (r: Result<(), DSError>)
    requires
        edge.wf(),
    ensures
        r is Ok,
        batch_view(*final(batch)) == batch_view(*old(batch)).insert(
            edge.key(),
            Some(empty_bytes()),
        ),
{
    let k = key(edge);
    let val: Vec<u8> = Vec::new();
    proof {
        assert(val@ =~= empty_bytes());
    }
    batch_insert(batch, &k, &val);
    Ok(())
}

/// Removes the edge's key.
pub fn delete(tree: &mut sled::Tree, edge: &Edge) -> (r: Result<(), DSError>)
    requires
        edge.wf(),
    ensures
        r is Ok ==> tree_view(*final(tree)) == tree_view(*old(tree)).remove(edge.key()),
        r matches Err(e) ==> e.is_storage(),
{
    let k = key(edge);
    map_err(tree_remove(tree, &k))
}

/// Reconstructs the components of one stored key.
pub fn sled_to_edge(k: &Vec<u8>) -> (r: Result<Edge, DSError>)
    ensures
        r matches Ok(e) ==> k@ == e.key() && e.wf(),
        r matches Err(er) ==> er.is_decode() && !is_edge_key(k@),
{
    let mut pos: usize = 0;
    let first = match read_uuid(k, &mut pos) {
        Ok(u) => u,
        Err(_) => {
            proof {
                lemma_no_edge_key(k@, 0);
            }
            return Err(DSError::Decode);
        },
    };
    let t = match read_ident(k, &mut pos) {
        Ok(t) => t,
        Err(_) => {
            proof {
                lemma_no_edge_key(k@, 1);
            }
            return Err(DSError::Decode);
        },
    };
    let second = match read_uuid(k, &mut pos) {
        Ok(u) => u,
        Err(_) => {
            proof {
                lemma_no_edge_key_tail(k@, t@, pos as int);
            }
            return Err(DSError::Decode);
        },
    };
    if pos != k.len() {
        proof {
            lemma_no_edge_key_tail(k@, t@, pos - 16);
        }
        return Err(DSError::Decode);
    }
    proof {
        assert(k@ =~= first@ + crate::codec::enc_ident(t@) + second@);
    }
    Ok(Edge { outbound_id: first, t, inbound_id: second })
}

/// A key on which the fixed-width reads fail is no edge key.  `stage` 0:
/// the leading id did not fit; 1: the label did not fit.
proof fn lemma_no_edge_key(k: Seq<u8>, stage: int)
    requires
        stage == 0 || stage == 1,
        stage == 0 ==> k.len() < 16,
        stage == 1 ==> k.len() >= 16 && (16 >= k.len() || 17 + (k[16] as int) > k.len()),
    ensures
        !is_edge_key(k),
{
    if is_edge_key(k) {
        let (o, t, i) = choose|o: Seq<u8>, t: Seq<u8>, i: Seq<u8>|
            k == #[trigger] edge_key(o, t, i) && o.len() == 16 && t.len() <= 255 && i.len()
                == 16;
        lemma_edge_key_facts(o, t, i);
        assert(k.len() == 33 + t.len());
        assert(k[16] == t.len() as u8);
        assert(false);
    }
}

/// A key whose label was read at 16 but whose tail is not exactly 16 more
/// bytes is no edge key.
proof fn lemma_no_edge_key_tail(k: Seq<u8>, t1: Seq<u8>, p: int)
    requires
        t1.len() <= 255,
        17 + t1.len() <= k.len(),
        k.subrange(16, 17 + t1.len() as int) == crate::codec::enc_ident(t1),
        p == 17 + t1.len(),
        p + 16 != k.len(),
    ensures
        !is_edge_key(k),
{
    crate::codec::lemma_enc_ident_facts(t1);
    if is_edge_key(k) {
        let (o, t, i) = choose|o: Seq<u8>, t: Seq<u8>, i: Seq<u8>|
            k == #[trigger] edge_key(o, t, i) && o.len() == 16 && t.len() <= 255 && i.len()
                == 16;
        lemma_edge_key_facts(o, t, i);
        assert(k[16] == t.len() as u8);
        assert(k.subrange(16, 17 + t1.len() as int)[0] == k[16]);
        assert(k[16] == t1.len() as u8);
        assert(t.len() == t1.len());
        assert(k.len() == 33 + t1.len());
        assert(false);
    }
}

/// All edges of the tree from the encoded key of `edge` inclusive, in
/// ascending key order.
pub fn iterate_for_range(tree: &sled::Tree, edge: &Edge) -> (r: Result<Vec<Edge>, DSError>)
    requires
        edge.wf(),
    ensures
        r matches Ok(v) ==> forall|a: int, b: int|
            0 <= a < b < v@.len() ==> lex_lt(v@[a].key(), v@[b].key()),
        r matches Ok(v) ==> forall|a: int|
            #![trigger v@[a]]
            0 <= a < v@.len() ==> tree_view(*tree).contains_key(v@[a].key()) && lex_le(
                edge.key(),
                v@[a].key(),
            ) && v@[a].wf(),
        r matches Ok(v) ==> range_complete(tree_view(*tree), edge.key(), v@),
        r matches Err(e) ==> e.is_storage() || (e.is_decode() && !edges_wf(tree_view(*tree))),
{
    let start = key(edge);
    let entries = map_err(tree_scan_from(tree, &start))?;
    decode_entries_ranged(tree, entries, Ghost(start@))
}

/// All edges of the tree, in ascending key order.
pub fn iterate_for_all(tree: &sled::Tree) -> (r: Result<Vec<Edge>, DSError>)
    ensures
        r matches Ok(v) ==> forall|a: int, b: int|
            0 <= a < b < v@.len() ==> lex_lt(v@[a].key(), v@[b].key()),
        r matches Ok(v) ==> forall|a: int|
            #![trigger v@[a]]
            0 <= a < v@.len() ==> tree_view(*tree).contains_key(v@[a].key()) && v@[a].wf(),
        r matches Ok(v) ==> all_complete(tree_view(*tree), v@),
        r matches Err(e) ==> e.is_storage() || (e.is_decode() && !edges_wf(tree_view(*tree))),
{
    let start: Vec<u8> = Vec::new();
    let entries = map_err(tree_scan_from(tree, &start))?;
    let r = decode_entries_ranged(tree, entries, Ghost(start@));
    proof {
        if r is Ok {
            let v = r->Ok_0;
            assert forall|k: Seq<u8>| #[trigger] tree_view(*tree).contains_key(k) implies exists|
                a: int,
            | 0 <= a < v@.len() && v@[a].key() == k by {
                lemma_lex_le_empty(k);
                assert(lex_le(start@, k));
            }
            assert(all_complete(tree_view(*tree), v@));
        }
    }
    r
}

/// All edges whose leading id is `id`: the outgoing (forward tree) or
/// incoming (reversed tree) edges of a vertex.  The decoded `outbound_id`
/// field carries the tree's first component; for the reversed tree the
/// caller re-orients.
pub fn iterate_for_owner(tree: &sled::Tree, id: &Uid) -> (r: Result<Vec<Edge>, DSError>)
    ensures
        r matches Ok(v) ==> forall|a: int, b: int|
            0 <= a < b < v@.len() ==> lex_lt(v@[a].key(), v@[b].key()),
        r matches Ok(v) ==> forall|a: int|
            #![trigger v@[a]]
            0 <= a < v@.len() ==> tree_view(*tree).contains_key(v@[a].key())
                && v@[a].outbound_id@ == id@ && v@[a].wf(),
        r matches Ok(v) ==> owner_complete(tree_view(*tree), id@, v@),
        r matches Err(e) ==> e.is_storage() || (e.is_decode() && !edges_wf(tree_view(*tree))),
{
    let prefix = crate::vertex_manager::key(id);
    let entries = map_err(tree_scan_prefix(tree, &prefix))?;
    let mut out: Vec<Edge> = Vec::new();
    let mut idx: usize = 0;
    while idx < entries.len()
        invariant
            idx <= entries@.len(),
            out@.len() == idx,
            prefix@ == id@,
            forall|a: int, b: int|
                0 <= a < b < entries@.len() ==> lex_lt(entries@[a].0@, entries@[b].0@),
            forall|a: int|
                #![trigger entries@[a]]
                0 <= a < entries@.len() ==> is_prefix_of(prefix@, entries@[a].0@) && tree_view(
                    *tree,
                ).contains_key(entries@[a].0@),
            forall|k: Seq<u8>|
                #![trigger tree_view(*tree).contains_key(k), is_prefix_of(prefix@, k)]
                tree_view(*tree).contains_key(k) && is_prefix_of(prefix@, k) ==> exists|a: int|
                    0 <= a < entries@.len() && entries@[a].0@ == k,
            forall|j: int|
                #![trigger out@[j]]
                0 <= j < idx ==> out@[j].key() == entries@[j].0@ && out@[j].wf()
                    && out@[j].outbound_id@ == id@,
        decreases entries@.len() - idx,
    {
        let e = match sled_to_edge(&entries[idx].0) {
            Ok(e) => e,
            Err(er) => {
                proof {
                    assert(is_prefix_of(prefix@, entries@[idx as int].0@));
                    assert(tree_view(*tree).contains_key(entries@[idx as int].0@));
                    assert(!edges_wf(tree_view(*tree)));
                }
                return Err(er);
            },
        };
        proof {
            assert(is_prefix_of(prefix@, entries@[idx as int].0@));
            assert(tree_view(*tree).contains_key(entries@[idx as int].0@));
            lemma_edge_key_facts(e.outbound_id@, e.t@, e.inbound_id@);
            lemma_prefix16(prefix@, entries@[idx as int].0@);
            assert(e.outbound_id@ == id@);
        }
        out.push(e);
        idx += 1;
    }
    proof {
        assert forall|a: int, b: int| 0 <= a < b < out@.len() implies lex_lt(
            out@[a].key(),
            out@[b].key(),
        ) by {
            assert(out@[a].key() == entries@[a].0@);
            assert(out@[b].key() == entries@[b].0@);
        }
        assert forall|a: int| 0 <= a < out@.len() implies tree_view(*tree).contains_key(
            #[trigger] out@[a].key(),
        ) by {
            assert(is_prefix_of(prefix@, entries@[a].0@));
            assert(out@[a].key() == entries@[a].0@);
        }
        assert forall|k: Seq<u8>|
            #![trigger tree_view(*tree).contains_key(k), is_prefix_of(id@, k)]
            tree_view(*tree).contains_key(k) && is_prefix_of(id@, k) implies exists|a: int|
            0 <= a < out@.len() && out@[a].key() == k by {
            let j = choose|j: int| 0 <= j < entries@.len() && entries@[j].0@ == k;
            assert(out@[j].key() == k);
        }
        assert(owner_complete(tree_view(*tree), id@, out@));
    }
    Ok(out)
}

/// Decodes a scanned, sorted entry list into edges.
fn decode_entries_ranged(
    tree: &sled::Tree,
    entries: Vec<(Vec<u8>, Vec<u8>)>,
    start: Ghost<Seq<u8>>,
) -> (r: Result<Vec<Edge>, DSError>)
    requires
        forall|a: int, b: int| 0 <= a < b < entries@.len() ==> lex_lt(entries@[a].0@, entries@[b].0@),
        forall|a: int|
            #![trigger entries@[a]]
            0 <= a < entries@.len() ==> lex_le(start@, entries@[a].0@) && tree_view(
                *tree,
            ).contains_key(entries@[a].0@),
        forall|k: Seq<u8>|
            #![trigger tree_view(*tree).contains_key(k), lex_le(start@, k)]
            tree_view(*tree).contains_key(k) && lex_le(start@, k) ==> exists|a: int|
                0 <= a < entries@.len() && entries@[a].0@ == k,
    ensures
        r matches Ok(v) ==> forall|a: int, b: int|
            0 <= a < b < v@.len() ==> lex_lt(v@[a].key(), v@[b].key()),
        r matches Ok(v) ==> forall|a: int|
            #![trigger v@[a]]
            0 <= a < v@.len() ==> tree_view(*tree).contains_key(v@[a].key()) && lex_le(
                start@,
                v@[a].key(),
            ) && v@[a].wf(),
        r matches Ok(v) ==> range_complete(tree_view(*tree), start@, v@),
        r matches Err(e) ==> e.is_storage() || (e.is_decode() && !edges_wf(tree_view(*tree))),
{
    let mut out: Vec<Edge> = Vec::new();
    let mut idx: usize = 0;
    while idx < entries.len()
        invariant
            idx <= entries@.len(),
            out@.len() == idx,
            forall|a: int, b: int|
                0 <= a < b < entries@.len() ==> lex_lt(entries@[a].0@, entries@[b].0@),
            forall|a: int|
                #![trigger entries@[a]]
                0 <= a < entries@.len() ==> lex_le(start@, entries@[a].0@) && tree_view(
                    *tree,
                ).contains_key(entries@[a].0@),
            forall|j: int|
                #![trigger out@[j]]
                0 <= j < idx ==> out@[j].key() == entries@[j].0@ && out@[j].wf(),
        decreases entries@.len() - idx,
    {
        let e = match sled_to_edge(&entries[idx].0) {
            Ok(e) => e,
            Err(er) => {
                proof {
                    assert(lex_le(start@, entries@[idx as int].0@));
                    assert(tree_view(*tree).contains_key(entries@[idx as int].0@));
                    assert(!edges_wf(tree_view(*tree)));
                }
                return Err(er);
            },
        };
        proof {
            assert(lex_le(start@, entries@[idx as int].0@));
        }
        out.push(e);
        idx += 1;
    }
    proof {
        assert forall|a: int, b: int| 0 <= a < b < out@.len() implies lex_lt(
            out@[a].key(),
            out@[b].key(),
        ) by {
            assert(out@[a].key() == entries@[a].0@);
            assert(out@[b].key() == entries@[b].0@);
        }
        assert forall|a: int| 0 <= a < out@.len() implies (tree_view(*tree).contains_key(
            #[trigger] out@[a].key(),
        ) && lex_le(start@, out@[a].key())) by {
            assert(lex_le(start@, entries@[a].0@));
            assert(out@[a].key() == entries@[a].0@);
        }
        assert forall|k: Seq<u8>|
            #![trigger tree_view(*tree).contains_key(k), lex_le(start@, k)]
            tree_view(*tree).contains_key(k) && lex_le(start@, k) implies exists|a: int|
            0 <= a < out@.len() && out@[a].key() == k by {
            let j = choose|j: int| 0 <= j < entries@.len() && entries@[j].0@ == k;
            assert(out@[j].key() == k);
        }
        assert(range_complete(tree_view(*tree), start@, out@));
    }
    Ok(out)
}

} // verus!
