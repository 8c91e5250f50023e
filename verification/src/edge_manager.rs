//! The edge manager: the edges tree, authoritative for edge existence.
//! Key: `Uuid(out) · Identifier(label) · Uuid(in)`.  Value: empty.  Setting
//! an edge also writes both range entries; deleting one also removes both
//! range entries and cascades over the edge's properties.

use vstd::prelude::*;
use crate::bytes::{empty_bytes, is_prefix_of, lex_lt};
use crate::codec::{
    index_stripped, json_hash, lemma_prop_key_injective, prop_key, props_stripped,
    value_index_key,
};
use crate::edge_property_manager;
use crate::edge_range_manager;
use crate::errors::{map_err, DSError};
use crate::kv::{batch_view, tree_count, tree_remove, tree_view};
use crate::models::{reverse_edge, Edge};

verus! {

/// How many edges the tree holds.
pub fn count(tree: &sled::Tree) -> (r: Result<u64, DSError>)
    ensures
        r matches Ok(n) ==> n as nat == tree_view(*tree).dom().len(),
        r matches Err(e) ==> e.is_storage(),
{
    map_err(tree_count(tree))
}

/// Inserts the edge key, the forward range entry, and the reversed range
/// entry, in that order.
pub fn set(
    edges: &mut sled::Tree,
    fwd: &mut sled::Tree,
    rev: &mut sled::Tree,
    edge: &Edge,
) -> (r: Result<(), DSError>)
    requires
        edge.wf(),
    ensures
        r is Ok ==> tree_view(*final(edges)) == tree_view(*old(edges)).insert(
            edge.key(),
            empty_bytes(),
        ),
        r is Ok ==> tree_view(*final(fwd)) == tree_view(*old(fwd)).insert(
            edge.key(),
            empty_bytes(),
        ),
        r is Ok ==> tree_view(*final(rev)) == tree_view(*old(rev)).insert(
            edge.reversed_key(),
            empty_bytes(),
        ),
        r matches Err(e) ==> e.is_storage(),
{
    let k = edge_range_manager::key(edge);
    let empty_val: Vec<u8> = Vec::new();
    proof {
        assert(empty_val@ =~= empty_bytes());
    }
    map_err(crate::kv::tree_insert(edges, &k, &empty_val))?;
    edge_range_manager::set(fwd, edge)?;
    let reversed = reverse_edge(edge);
    proof {
        assert(reversed.key() == edge.reversed_key());
    }
    edge_range_manager::set(rev, &reversed)?;
    Ok(())
}

/// Queues the edge key and both range entries into their batches.
pub fn set_batch(
    edge: &Edge,
    batch: &mut sled::Batch,
    range_batch: &mut sled::Batch,
    range_rev_batch: &mut sled::Batch,
) -> (r: Result<(), DSError>)
    requires
        edge.wf(),
    ensures
        r is Ok,
        batch_view(*final(batch)) == batch_view(*old(batch)).insert(
            edge.key(),
            Some(empty_bytes()),
        ),
        batch_view(*final(range_batch)) == batch_view(*old(range_batch)).insert(
            edge.key(),
            Some(empty_bytes()),
        ),
        batch_view(*final(range_rev_batch)) == batch_view(*old(range_rev_batch)).insert(
            edge.reversed_key(),
            Some(empty_bytes()),
        ),
{
    let k = edge_range_manager::key(edge);
    let empty_val: Vec<u8> = Vec::new();
    proof {
        assert(empty_val@ =~= empty_bytes());
    }
    crate::kv::batch_insert(batch, &k, &empty_val);
    edge_range_manager::set_batch(edge, range_batch)?;
    let reversed = reverse_edge(edge);
    proof {
        assert(reversed.key() == edge.reversed_key());
    }
    edge_range_manager::set_batch(&reversed, range_rev_batch)?;
    Ok(())
}

/// Removes the edge key, both range entries, and every property of the
/// edge together with its value-index entry.
pub fn delete(
    edges: &mut sled::Tree,
    fwd: &mut sled::Tree,
    rev: &mut sled::Tree,
    eprops: &mut sled::Tree,
    epvals: &mut sled::Tree,
    edge: &Edge,
) -> (r: Result<(), DSError>)
    requires
        edge.wf(),
    ensures
        r is Ok ==> tree_view(*final(edges)) == tree_view(*old(edges)).remove(edge.key()),
        r is Ok ==> tree_view(*final(fwd)) == tree_view(*old(fwd)).remove(edge.key()),
        r is Ok ==> tree_view(*final(rev)) == tree_view(*old(rev)).remove(edge.reversed_key()),
        r is Ok ==> props_stripped(tree_view(*old(eprops)), edge.key(), tree_view(*final(eprops))),
        r is Ok ==> index_stripped(
            tree_view(*old(eprops)),
            edge.key(),
            tree_view(*old(epvals)),
            tree_view(*final(epvals)),
        ),
{
    let k = edge_range_manager::key(edge);
    map_err(tree_remove(edges, &k))?;
    edge_range_manager::delete(fwd, edge)?;
    let reversed = reverse_edge(edge);
    proof {
        assert(reversed.key() == edge.reversed_key());
    }
    edge_range_manager::delete(rev, &reversed)?;
    let items = edge_property_manager::iterate_for_owner(eprops, edge)?;
    let ghost ek = edge.key();
    let ghost pm0 = tree_view(*eprops);
    let ghost im0 = tree_view(*epvals);
    let mut j: usize = 0;
    while j < items.len()
        invariant
            j <= items@.len(),
            edge.wf(),
            ek == edge.key(),
            pm0 == tree_view(*old(eprops)),
            im0 == tree_view(*old(epvals)),
            forall|a: int, b: int|
                0 <= a < b < items@.len() ==> lex_lt(
                    prop_key(ek, items@[a].0.1@),
                    prop_key(ek, items@[b].0.1@),
                ),
            forall|a: int|
                #![trigger items@[a]]
                0 <= a < items@.len() ==> items@[a].0.0.outbound_id@ == edge.outbound_id@
                    && items@[a].0.0.t@ == edge.t@ && items@[a].0.0.inbound_id@
                    == edge.inbound_id@ && items@[a].0.1.wf() && pm0.contains_key(
                    prop_key(ek, items@[a].0.1@),
                ) && pm0[prop_key(ek, items@[a].0.1@)] == items@[a].1@,
            forall|k2: Seq<u8>|
                #![trigger pm0.contains_key(k2), is_prefix_of(ek, k2)]
                pm0.contains_key(k2) && is_prefix_of(ek, k2) ==> exists|a: int|
                    0 <= a < items@.len() && k2 == prop_key(ek, items@[a].0.1@),
            forall|k2: Seq<u8>|
                #[trigger] tree_view(*eprops).contains_key(k2) ==> pm0.contains_key(k2)
                    && tree_view(*eprops)[k2] == pm0[k2],
            forall|k2: Seq<u8>|
                #[trigger] pm0.contains_key(k2) && !tree_view(*eprops).contains_key(k2)
                    ==> exists|a: int| 0 <= a < j && k2 == prop_key(ek, items@[a].0.1@),
            forall|a: int|
                #![trigger items@[a]]
                0 <= a < j ==> !tree_view(*eprops).contains_key(prop_key(ek, items@[a].0.1@)),
            forall|ik: Seq<u8>|
                #[trigger] tree_view(*epvals).contains_key(ik) ==> im0.contains_key(ik)
                    && tree_view(*epvals)[ik] == im0[ik],
            forall|ik: Seq<u8>|
                #[trigger] im0.contains_key(ik) && !tree_view(*epvals).contains_key(ik)
                    ==> exists|a: int|
                    0 <= a < j && ik == value_index_key(
                        items@[a].0.1@,
                        json_hash(items@[a].1@),
                        ek,
                    ),
            forall|a: int|
                #![trigger items@[a]]
                0 <= a < j ==> !tree_view(*epvals).contains_key(
                    value_index_key(items@[a].0.1@, json_hash(items@[a].1@), ek),
                ),
        decreases items@.len() - j,
    {
        let item_edge: &Edge = &items[j].0.0;
        let item_name = items[j].0.1.dup();
        proof {
            assert(item_edge.wf());
            assert(item_edge.key() == ek);
            // The key being deleted is still present: scanned keys are
            // strictly sorted, so it is distinct from every earlier one.
            assert forall|a: int| 0 <= a < j implies prop_key(ek, items@[a].0.1@) != prop_key(
                ek,
                items@[j as int].0.1@,
            ) by {
                crate::bytes::lemma_lex_lt_irrefl(prop_key(ek, items@[a].0.1@));
            }
            assert(tree_view(*eprops).contains_key(prop_key(ek, item_name@)));
            assert(tree_view(*eprops)[prop_key(ek, item_name@)] == items@[j as int].1@);
        }
        edge_property_manager::delete(eprops, epvals, item_edge, &item_name)?;
        proof {
            assert(!tree_view(*eprops).contains_key(prop_key(ek, items@[j as int].0.1@)));
            assert(!tree_view(*epvals).contains_key(
                value_index_key(items@[j as int].0.1@, json_hash(items@[j as int].1@), ek),
            ));
        }
        j += 1;
    }
    proof {
        assert(props_stripped(pm0, ek, tree_view(*eprops))) by {
            assert forall|k2: Seq<u8>|
                #[trigger] tree_view(*eprops).contains_key(k2) implies pm0.contains_key(k2)
                && tree_view(*eprops)[k2] == pm0[k2] && !is_prefix_of(ek, k2) by {
                if is_prefix_of(ek, k2) {
                    let a = choose|a: int|
                        0 <= a < items@.len() && k2 == prop_key(ek, items@[a].0.1@);
                    assert(!tree_view(*eprops).contains_key(prop_key(ek, items@[a].0.1@)));
                }
            }
            assert forall|k2: Seq<u8>|
                #[trigger] pm0.contains_key(k2) && !is_prefix_of(ek, k2) implies tree_view(
                *eprops,
            ).contains_key(k2) by {
                if !tree_view(*eprops).contains_key(k2) {
                    let a = choose|a: int| 0 <= a < j && k2 == prop_key(ek, items@[a].0.1@);
                    crate::codec::lemma_prop_key_facts(ek, items@[a].0.1@);
                    crate::bytes::lemma_prefix_concat(ek, crate::codec::enc_ident(items@[a].0.1@));
                }
            }
        }
        assert(index_stripped(pm0, ek, im0, tree_view(*epvals))) by {
            assert forall|ik: Seq<u8>| #[trigger] im0.contains_key(ik) implies tree_view(
                *epvals,
            ).contains_key(ik) || crate::codec::derived_index_entry(pm0, ek, ik) by {
                if !tree_view(*epvals).contains_key(ik) {
                    let a = choose|a: int|
                        0 <= a < j && ik == value_index_key(
                            items@[a].0.1@,
                            json_hash(items@[a].1@),
                            ek,
                        );
                    assert(pm0.contains_key(prop_key(ek, items@[a].0.1@)));
                    assert(pm0[prop_key(ek, items@[a].0.1@)] == items@[a].1@);
                }
            }
            assert forall|n: Seq<u8>|
                pm0.contains_key(#[trigger] prop_key(ek, n)) && n.len() <= 255 implies
                !tree_view(*epvals).contains_key(
                value_index_key(n, json_hash(pm0[prop_key(ek, n)]), ek),
            ) by {
                crate::codec::lemma_prop_key_facts(ek, n);
                crate::bytes::lemma_prefix_concat(ek, crate::codec::enc_ident(n));
                let a = choose|a: int|
                    0 <= a < items@.len() && prop_key(ek, n) == prop_key(ek, items@[a].0.1@);
                lemma_prop_key_injective(ek, n, ek, items@[a].0.1@);
                assert(items@[a].0.1@ == n);
                assert(pm0[prop_key(ek, n)] == items@[a].1@);
            }
        }
    }
    Ok(())
}

} // verus!
