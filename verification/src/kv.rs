//! The trusted boundary to the ordered key-value store (sled).  A tree is
//! modelled by the map of its current contents, `tree_view`; a batch by the
//! map of its pending operations, `batch_view`.  Each wrapper makes one sled
//! call and states over those maps what the call does, as sled's source
//! shows it.  Nothing else in the crate touches sled.
//!
//! The model reads a tree's contents off the handle value, so the crate
//! holds exactly one handle per keyspace: the holder owns them all and no
//! handle is ever cloned out (the store handle kept for `flush` is used for
//! nothing else).

use vstd::prelude::*;
use crate::bytes::{is_prefix_of, lex_le, lex_lt};

verus! {

#[verifier::external_type_specification]
#[verifier::external_body]
pub struct ExSledError(sled::Error);

#[verifier::external_type_specification]
#[verifier::external_body]
pub struct ExSledTree(sled::Tree);

#[verifier::external_type_specification]
#[verifier::external_body]
pub struct ExSledDb(sled::Db);

#[verifier::external_type_specification]
#[verifier::external_body]
pub struct ExSledBatch(sled::Batch);

/// The current contents of a tree: its keys and their values.
pub uninterp spec fn tree_view(t: sled::Tree) -> Map<Seq<u8>, Seq<u8>>;

/// A tree with nothing in it.
pub open spec fn empty_tree() -> Map<Seq<u8>, Seq<u8>> {
    Map::empty()
}

/// A batch with no pending operations.
pub open spec fn empty_batch() -> Map<Seq<u8>, Option<Seq<u8>>> {
    Map::empty()
}

/// The pending operations of a batch, later ones writing over earlier:
/// `Some(v)` for a pending insert, `None` for a pending remove.
pub uninterp spec fn batch_view(b: sled::Batch) -> Map<Seq<u8>, Option<Seq<u8>>>;

/// What a tree holds after a batch lands on it atomically.
pub open spec fn apply_batch_view(
    m: Map<Seq<u8>, Seq<u8>>,
    b: Map<Seq<u8>, Option<Seq<u8>>>,
) -> Map<Seq<u8>, Seq<u8>> {
    Map::new(
        |k: Seq<u8>|
            if b.contains_key(k) {
                b[k] is Some
            } else {
                m.contains_key(k)
            },
        |k: Seq<u8>|
            if b.contains_key(k) {
                b[k]->Some_0
            } else {
                m[k]
            },
    )
}

/// Relies on sled::Tree::get: atomic point lookup of one key.
#[verifier::external_body]
pub(crate) fn tree_get(t: &sled::Tree, key: &Vec<u8>) -> (r: Result<
    Option<Vec<u8>>,
    sled::Error,
>)
    ensures
        match r {
            Ok(Some(v)) => tree_view(*t).contains_key(key@) && tree_view(*t)[key@] == v@,
            Ok(None) => !tree_view(*t).contains_key(key@),
            Err(_) => true,
        },
{
    match t.get(key) {
        Ok(o) => Ok(o.map(|iv| iv.to_vec())),
        Err(e) => Err(e),
    }
}

/// Relies on sled::Tree::contains_key.
#[verifier::external_body]
pub(crate) fn tree_contains(t: &sled::Tree, key: &Vec<u8>) -> (r: Result<bool, sled::Error>)
    ensures
        r matches Ok(b) ==> b == tree_view(*t).contains_key(key@),
{
    t.contains_key(key)
}

/// Relies on sled::Tree::insert: sets one key to one value.
#[verifier::external_body]
pub(crate) fn tree_insert(t: &mut sled::Tree, key: &Vec<u8>, val: &Vec<u8>) -> (r: Result<
    (),
    sled::Error,
>)
    ensures
        r is Ok ==> tree_view(*final(t)) == tree_view(*old(t)).insert(key@, val@),
{
    match t.insert(key.as_slice(), val.as_slice()) {
        Ok(_) => Ok(()),
        Err(e) => Err(e),
    }
}

/// Relies on sled::Tree::remove: unsets one key.
#[verifier::external_body]
pub(crate) fn tree_remove(t: &mut sled::Tree, key: &Vec<u8>) -> (r: Result<(), sled::Error>)
    ensures
        r is Ok ==> tree_view(*final(t)) == tree_view(*old(t)).remove(key@),
{
    match t.remove(key.as_slice()) {
        Ok(_) => Ok(()),
        Err(e) => Err(e),
    }
}

/// Relies on sled::Tree::iter: one pass over every entry, in ascending byte
/// order of the keys, each entry exactly once.
#[verifier::external_body]
pub(crate) fn tree_count(t: &sled::Tree) -> (r: Result<u64, sled::Error>)
    ensures
        r matches Ok(n) ==> n as nat == tree_view(*t).dom().len() && tree_view(*t).dom().finite(),
{
    let mut n: u64 = 0;
    for item in t.iter() {
        item?;
        n = n.saturating_add(1);
    }
    Ok(n)
}

/// Relies on sled::Tree::scan_prefix: exactly the entries whose key begins
/// with `prefix`, in ascending byte order of the keys.
#[verifier::external_body]
pub(crate) fn tree_scan_prefix(t: &sled::Tree, prefix: &Vec<u8>) -> (r: Result<
    Vec<(Vec<u8>, Vec<u8>)>,
    sled::Error,
>)
    ensures
        r matches Ok(v) ==> {
            &&& forall|i: int, j: int| 0 <= i < j < v@.len() ==> lex_lt(v@[i].0@, v@[j].0@)
            &&& forall|i: int|
                #![trigger v@[i]]
                0 <= i < v@.len() ==> is_prefix_of(prefix@, v@[i].0@) && tree_view(
                    *t,
                ).contains_key(v@[i].0@) && tree_view(*t)[v@[i].0@] == v@[i].1@
            &&& forall|k: Seq<u8>|
                #![trigger tree_view(*t).contains_key(k), is_prefix_of(prefix@, k)]
                tree_view(*t).contains_key(k) && is_prefix_of(prefix@, k) ==> exists|i: int|
                    0 <= i < v@.len() && v@[i].0@ == k
        },
{
    let mut out: Vec<(Vec<u8>, Vec<u8>)> = Vec::new();
    for item in t.scan_prefix(prefix) {
        let (k, val) = item?;
        out.push((k.to_vec(), val.to_vec()));
    }
    Ok(out)
}

/// Relies on sled::Tree::range: exactly the entries whose key is at or above
/// `start`, in ascending byte order of the keys.
#[verifier::external_body]
pub(crate) fn tree_scan_from(t: &sled::Tree, start: &Vec<u8>) -> (r: Result<
    Vec<(Vec<u8>, Vec<u8>)>,
    sled::Error,
>)
    ensures
        r matches Ok(v) ==> {
            &&& forall|i: int, j: int| 0 <= i < j < v@.len() ==> lex_lt(v@[i].0@, v@[j].0@)
            &&& forall|i: int|
                #![trigger v@[i]]
                0 <= i < v@.len() ==> lex_le(start@, v@[i].0@) && tree_view(*t).contains_key(
                    v@[i].0@,
                ) && tree_view(*t)[v@[i].0@] == v@[i].1@
            &&& forall|k: Seq<u8>|
                #![trigger tree_view(*t).contains_key(k), lex_le(start@, k)]
                tree_view(*t).contains_key(k) && lex_le(start@, k) ==> exists|i: int|
                    0 <= i < v@.len() && v@[i].0@ == k
        },
{
    let mut out: Vec<(Vec<u8>, Vec<u8>)> = Vec::new();
    for item in t.range(start.as_slice()..) {
        let (k, val) = item?;
        out.push((k.to_vec(), val.to_vec()));
    }
    Ok(out)
}

/// Relies on sled::Tree::apply_batch: the batch lands atomically on this
/// tree.
#[verifier::external_body]
pub(crate) fn tree_apply_batch(t: &mut sled::Tree, b: sled::Batch) -> (r: Result<
    (),
    sled::Error,
>)
    ensures
        r is Ok ==> tree_view(*final(t)) == apply_batch_view(tree_view(*old(t)), batch_view(b)),
{
    t.apply_batch(b)
}

/// Relies on sled::Batch::default: a new batch holds no operations.
#[verifier::external_body]
pub(crate) fn batch_new() -> (r: sled::Batch)
    ensures
        batch_view(r) == empty_batch(),
{
    sled::Batch::default()
}

/// Relies on sled::Batch::insert: queues setting one key to one value.
#[verifier::external_body]
pub(crate) fn batch_insert(b: &mut sled::Batch, key: &Vec<u8>, val: &Vec<u8>)
    ensures
        batch_view(*final(b)) == batch_view(*old(b)).insert(key@, Some(val@)),
{
    b.insert(key.as_slice(), val.as_slice());
}

/// Relies on sled::Batch::remove: queues unsetting one key.
#[verifier::external_body]
pub(crate) fn batch_remove(b: &mut sled::Batch, key: &Vec<u8>)
    ensures
        batch_view(*final(b)) == batch_view(*old(b)).insert(key@, None),
{
    b.remove(key.as_slice());
}

/// Relies on sled::Config::open and sled::Db::open_tree: opens the store and
/// its keyspaces, creating them if absent.  A temporary store is created
/// fresh, so every tree of it starts empty.  The first tree of the result is
/// the store's default keyspace, the rest follow `names` in order.
#[verifier::external_body]
pub(crate) fn sled_open_all(
    path: &str,
    temporary: bool,
    use_compression: bool,
    compression_factor: Option<i32>,
    names: &Vec<&str>,
) -> (r: Result<(sled::Db, Vec<sled::Tree>), sled::Error>)
    ensures
        r matches Ok(p) ==> p.1@.len() == names@.len() + 1 && (temporary ==> forall|i: int|
            0 <= i < p.1@.len() ==> tree_view(p.1@[i]) =~= empty_tree()),
{
    let mut config = sled::Config::default().temporary(temporary).use_compression(use_compression);
    if !temporary {
        config = config.path(path);
    }
    if let Some(factor) = compression_factor {
        config = config.compression_factor(factor);
    }
    let db = config.open()?;
    let mut trees: Vec<sled::Tree> = Vec::with_capacity(names.len() + 1);
    trees.push((*db).clone());
    for name in names.iter() {
        trees.push(db.open_tree(name.as_bytes())?);
    }
    Ok((db, trees))
}

/// Relies on sled::Db::flush: writes buffered state durably.  The logical
/// contents of the trees are unchanged.
#[verifier::external_body]
pub(crate) fn sled_flush(db: &sled::Db) -> (r: Result<(), sled::Error>)
{
    match db.flush() {
        Ok(_) => Ok(()),
        Err(e) => Err(e),
    }
}

} // verus!
