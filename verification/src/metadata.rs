//! The persisted registry of indexed property names.  On disk it is the set
//! of keys `Identifier("IndexedProperties") · Identifier(name)` in the
//! metadata tree; in memory it is a duplicate-free list of names.  The
//! on-disk form is rewritten wholesale on every sync.

use vstd::prelude::*;
use crate::bytes::{is_prefix_of, lemma_prefix_concat};
use crate::codec::{enc_ident, lemma_enc_ident_prefix_unique, read_ident, Ident};
use crate::errors::{map_err, DSError};
use crate::kv::{tree_insert, tree_remove, tree_scan_prefix, tree_view};

verus! {

/// The name under which the registry lives in its tree.
pub open spec fn meta_name() -> Seq<u8> {
    seq![
        73u8, 110u8, 100u8, 101u8, 120u8, 101u8, 100u8, 80u8, 114u8, 111u8, 112u8, 101u8,
        114u8, 116u8, 105u8, 101u8, 115u8,
    ]
}

/// Key of one registry entry.
pub open spec fn meta_key(name: Seq<u8>) -> Seq<u8> {
    enc_ident(meta_name()) + enc_ident(name)
}

/// The in-memory list holds exactly the names persisted under the registry
/// prefix: well-formed, each on disk, nothing else on disk under the
/// prefix, and no name twice.
pub open spec fn meta_corresponds(names: Seq<Ident>, m: Map<Seq<u8>, Seq<u8>>) -> bool {
    &&& forall|i: int| 0 <= i < names.len() ==> (#[trigger] names[i]).wf()
    &&& forall|i: int| 0 <= i < names.len() ==> m.contains_key(#[trigger] meta_key(names[i]@))
    &&& forall|k: Seq<u8>|
        #![trigger m.contains_key(k), is_prefix_of(enc_ident(meta_name()), k)]
        m.contains_key(k) && is_prefix_of(enc_ident(meta_name()), k) ==> exists|i: int|
            0 <= i < names.len() && k == meta_key(names[i]@)
    &&& forall|i: int, j: int| 0 <= i < j < names.len() ==> names[i]@ != names[j]@
}

/// Whether a name is in the list.
pub open spec fn contains_name(names: Seq<Ident>, n: Seq<u8>) -> bool {
    exists|i: int| 0 <= i < names.len() && names[i]@ == n
}

/// The length-prefixed form of the registry name.
pub fn build_meta_prefix() -> (r: Vec<u8>)
    ensures
        r@ == enc_ident(meta_name()),
{
    let mut v: Vec<u8> = Vec::new();
    v.push(17u8);
    v.push(73u8);
    v.push(110u8);
    v.push(100u8);
    v.push(101u8);
    v.push(120u8);
    v.push(101u8);
    v.push(100u8);
    v.push(80u8);
    v.push(114u8);
    v.push(111u8);
    v.push(112u8);
    v.push(101u8);
    v.push(114u8);
    v.push(116u8);
    v.push(105u8);
    v.push(101u8);
    v.push(115u8);
    proof {
        assert(v@ =~= enc_ident(meta_name()));
    }
    v
}

/// Key of the registry entry for `name`.
pub fn build_meta_key(name: &Ident) -> (r: Vec<u8>)
    requires
        name.wf(),
    ensures
        r@ == meta_key(name@),
{
    let mut v = build_meta_prefix();
    crate::codec::append_ident(&mut v, name);
    v
}

/// Loads the registry from its tree: scans the prefix and decodes each
/// entry's name.
pub fn load(tree: &sled::Tree) -> (r: Result<Vec<Ident>, DSError>)
    ensures
        r matches Ok(v) ==> meta_corresponds(v@, tree_view(*tree)),
{
    let prefix = build_meta_prefix();
    let entries = map_err(tree_scan_prefix(tree, &prefix))?;
    let mut out: Vec<Ident> = Vec::new();
    let mut idx: usize = 0;
    while idx < entries.len()
        invariant
            idx <= entries@.len(),
            out@.len() == idx,
            prefix@ == enc_ident(meta_name()),
            forall|j: int, l: int|
                0 <= j < l < entries@.len() ==> crate::bytes::lex_lt(
                    entries@[j].0@,
                    entries@[l].0@,
                ),
            forall|j: int|
                0 <= j < entries@.len() ==> #[trigger] is_prefix_of(prefix@, entries@[j].0@)
                    && tree_view(*tree).contains_key(entries@[j].0@),
            forall|k: Seq<u8>|
                #![trigger tree_view(*tree).contains_key(k), is_prefix_of(prefix@, k)]
                tree_view(*tree).contains_key(k) && is_prefix_of(prefix@, k) ==> exists|j: int|
                    0 <= j < entries@.len() && entries@[j].0@ == k,
            forall|j: int|
                #![trigger out@[j]]
                0 <= j < idx ==> out@[j].wf() && entries@[j].0@ == meta_key(out@[j]@),
        decreases entries@.len() - idx,
    {
        let k: &Vec<u8> = &entries[idx].0;
        let mut pos: usize = 0;
        let marker = match read_ident(k, &mut pos) {
            Ok(t) => t,
            Err(_) => {
                return Err(DSError::Decode);
            },
        };
        let name = match read_ident(k, &mut pos) {
            Ok(t) => t,
            Err(_) => {
                return Err(DSError::Decode);
            },
        };
        if pos != k.len() {
            return Err(DSError::Decode);
        }
        proof {
            let kv = k@;
            assert(kv.subrange(0, 1 + marker@.len() as int) == enc_ident(marker@));
            assert(is_prefix_of(enc_ident(marker@), kv));
            lemma_enc_ident_prefix_unique(marker@, meta_name(), kv);
            assert(kv =~= kv.subrange(0, 1 + marker@.len() as int) + kv.subrange(
                1 + marker@.len() as int,
                kv.len() as int,
            ));
            assert(kv == meta_key(name@));
        }
        out.push(name);
        idx += 1;
    }
    proof {
        // Distinctness: strictly sorted keys are distinct, and equal names
        // would give equal keys.
        assert forall|i: int, j: int| 0 <= i < j < out@.len() implies out@[i]@ != out@[j]@ by {
            crate::bytes::lemma_lex_lt_irrefl(entries@[i].0@);
            if out@[i]@ == out@[j]@ {
                assert(entries@[i].0@ == entries@[j].0@);
            }
        }
        assert forall|i: int| 0 <= i < out@.len() implies tree_view(*tree).contains_key(
            #[trigger] meta_key(out@[i]@),
        ) by {
            assert(out@[i].wf());
            assert(is_prefix_of(prefix@, entries@[i].0@));
            assert(tree_view(*tree).contains_key(entries@[i].0@));
            assert(entries@[i].0@ == meta_key(out@[i]@));
        }
        assert forall|i: int| 0 <= i < out@.len() implies (#[trigger] out@[i]).wf() by {
            assert(out@[i].wf());
        }
        assert forall|k: Seq<u8>|
            tree_view(*tree).contains_key(k) && is_prefix_of(
                enc_ident(meta_name()),
                k,
            ) implies exists|i: int| 0 <= i < out@.len() && k == meta_key(out@[i]@) by {
            let j = choose|j: int| 0 <= j < entries@.len() && entries@[j].0@ == k;
            assert(out@[j].wf());
            assert(k == meta_key(out@[j]@));
        }
    }
    Ok(out)
}

/// Whether `name` is in the in-memory registry.
pub fn is_indexed(indexed: &Vec<Ident>, name: &Ident) -> (r: bool)
    ensures
        r == contains_name(indexed@, name@),
{
    let mut i: usize = 0;
    while i < indexed.len()
        invariant
            i <= indexed@.len(),
            forall|j: int| 0 <= j < i ==> indexed@[j]@ != name@,
        decreases indexed@.len() - i,
    {
        if indexed[i].same(name) {
            return true;
        }
        i += 1;
    }
    false
}

/// What the metadata tree holds after a sync: exactly one entry per listed
/// name under the registry prefix, everything outside the prefix untouched.
pub open spec fn synced_view(
    old_m: Map<Seq<u8>, Seq<u8>>,
    names: Seq<Ident>,
    m: Map<Seq<u8>, Seq<u8>>,
) -> bool {
    &&& forall|i: int| 0 <= i < names.len() ==> m.contains_key(#[trigger] meta_key(names[i]@))
    &&& forall|k: Seq<u8>|
        #![trigger m.contains_key(k), is_prefix_of(enc_ident(meta_name()), k)]
        m.contains_key(k) && is_prefix_of(enc_ident(meta_name()), k) ==> exists|i: int|
            0 <= i < names.len() && k == meta_key(names[i]@)
    &&& forall|k: Seq<u8>|
        #![trigger is_prefix_of(enc_ident(meta_name()), k), m.contains_key(k)]
        !is_prefix_of(enc_ident(meta_name()), k) ==> m.contains_key(k) == old_m.contains_key(k)
            && (m.contains_key(k) ==> m[k] == old_m[k])
}

/// Erases the registry prefix and rewrites one entry per listed name.
pub fn sync(indexed: &Vec<Ident>, tree: &mut sled::Tree) -> (r: Result<(), DSError>)
    ensures
        r is Ok ==> synced_view(tree_view(*old(tree)), indexed@, tree_view(*final(tree))),
{
    let prefix = build_meta_prefix();
    let entries = map_err(tree_scan_prefix(tree, &prefix))?;
    let mut idx: usize = 0;
    while idx < entries.len()
        invariant
            idx <= entries@.len(),
            prefix@ == enc_ident(meta_name()),
            forall|j: int|
                0 <= j < entries@.len() ==> #[trigger] is_prefix_of(prefix@, entries@[j].0@),
            forall|k: Seq<u8>|
                #![trigger tree_view(*old(tree)).contains_key(k), is_prefix_of(prefix@, k)]
                tree_view(*old(tree)).contains_key(k) && is_prefix_of(prefix@, k)
                    ==> exists|j: int| 0 <= j < entries@.len() && entries@[j].0@ == k,
            forall|k: Seq<u8>|
                #[trigger] tree_view(*tree).contains_key(k) ==> tree_view(
                    *old(tree),
                ).contains_key(k) && tree_view(*tree)[k] == tree_view(*old(tree))[k],
            forall|k: Seq<u8>|
                #[trigger] tree_view(*old(tree)).contains_key(k) && !tree_view(
                    *tree,
                ).contains_key(k) ==> exists|j: int| 0 <= j < idx && entries@[j].0@ == k,
            forall|j: int|
                0 <= j < idx ==> !tree_view(*tree).contains_key(#[trigger] entries@[j].0@),
        decreases entries@.len() - idx,
    {
        let key: &Vec<u8> = &entries[idx].0;
        match map_err(tree_remove(tree, key)) {
            Ok(u) => u,
            Err(e) => {
                return Err(e);
            },
        }
        idx += 1;
    }
    let mut w: usize = 0;
    let empty_val: Vec<u8> = Vec::new();
    while w < indexed.len()
        invariant
            w <= indexed@.len(),
            prefix@ == enc_ident(meta_name()),
            forall|i: int|
                0 <= i < w ==> tree_view(*tree).contains_key(#[trigger] meta_key(indexed@[i]@)),
            forall|k: Seq<u8>|
                #![trigger tree_view(*tree).contains_key(k), is_prefix_of(prefix@, k)]
                tree_view(*tree).contains_key(k) && is_prefix_of(prefix@, k) ==> exists|i: int|
                    0 <= i < w && k == meta_key(indexed@[i]@),
            forall|k: Seq<u8>|
                #![trigger is_prefix_of(prefix@, k), tree_view(*tree).contains_key(k)]
                !is_prefix_of(prefix@, k) ==> tree_view(*tree).contains_key(k) == tree_view(
                    *old(tree),
                ).contains_key(k) && (tree_view(*tree).contains_key(k) ==> tree_view(*tree)[k]
                    == tree_view(*old(tree))[k]),
        decreases indexed@.len() - w,
    {
        let entry = &indexed[w];
        proof {
            use_type_invariant(entry);
        }
        let key = build_meta_key(entry);
        match map_err(tree_insert(tree, &key, &empty_val)) {
            Ok(u) => u,
            Err(e) => {
                return Err(e);
            },
        }
        proof {
            lemma_prefix_concat(enc_ident(meta_name()), enc_ident(indexed@[w as int]@));
        }
        w += 1;
    }
    Ok(())
}

/// Adds a name to the registry and persists; adding a present name changes
/// nothing.
pub fn add_index(indexed: &mut Vec<Ident>, tree: &mut sled::Tree, name: &Ident) -> (r: Result<
    (),
    DSError,
>)
    ensures
        r is Ok && meta_corresponds(old(indexed)@, tree_view(*old(tree)))
            ==> meta_corresponds(final(indexed)@, tree_view(*final(tree))) && contains_name(
            final(indexed)@,
            name@,
        ) && (forall|n: Seq<u8>|
            contains_name(final(indexed)@, n) == (contains_name(old(indexed)@, n) || n
                == name@)),
{
    proof {
        use_type_invariant(name);
    }
    if is_indexed(indexed, name) {
        return Ok(());
    }
    indexed.push(name.dup());
    let r = sync(indexed, tree);
    match r {
        Ok(u) => {
            proof {
                if meta_corresponds(old(indexed)@, tree_view(*old(tree))) {
                let names = indexed@;
                let m = tree_view(*tree);
                let oldnames = old(indexed)@;
                assert(names.len() == oldnames.len() + 1);
                assert(names[names.len() - 1]@ == name@);
                assert forall|i: int| 0 <= i < names.len() implies (#[trigger] names[i]).wf() by {
                    if i < oldnames.len() {
                        assert(names[i] == oldnames[i]);
                        assert(oldnames[i].wf());
                    }
                }
                assert forall|i: int, j: int|
                    0 <= i < j < names.len() implies names[i]@ != names[j]@ by {
                    if j == names.len() - 1 {
                        if names[i]@ == name@ {
                            assert(oldnames[i]@ == name@);
                            assert(contains_name(oldnames, name@));
                        }
                    } else {
                        assert(oldnames[i]@ != oldnames[j]@);
                    }
                }
                assert(meta_corresponds(names, m));
                assert forall|n: Seq<u8>|
                    contains_name(names, n) == (contains_name(oldnames, n) || n == name@) by {
                    if contains_name(names, n) {
                        let j = choose|j: int| 0 <= j < names.len() && names[j]@ == n;
                        if j < oldnames.len() {
                            assert(oldnames[j]@ == n);
                        }
                    }
                    if contains_name(oldnames, n) {
                        let j = choose|j: int| 0 <= j < oldnames.len() && oldnames[j]@ == n;
                        assert(names[j]@ == n);
                    }
                    if n == name@ {
                        assert(names[names.len() - 1]@ == n);
                    }
                }
                }
            }
            Ok(u)
        },
        Err(e) => Err(e),
    }
}

/// Removes a name from the registry and persists; removing an absent name
/// changes nothing.
pub fn remove_index(indexed: &mut Vec<Ident>, tree: &mut sled::Tree, name: &Ident) -> (r: Result<
    (),
    DSError,
>)
    ensures
        r is Ok && meta_corresponds(old(indexed)@, tree_view(*old(tree)))
            ==> meta_corresponds(final(indexed)@, tree_view(*final(tree))) && !contains_name(
            final(indexed)@,
            name@,
        ) && (forall|n: Seq<u8>|
            contains_name(final(indexed)@, n) == (contains_name(old(indexed)@, n) && n
                != name@)),
{
    proof {
        use_type_invariant(name);
    }
    let mut i: usize = 0;
    let mut found: bool = false;
    let mut at: usize = 0;
    while i < indexed.len()
        invariant
            i <= indexed@.len(),
            !found ==> forall|j: int| 0 <= j < i ==> indexed@[j]@ != name@,
            found ==> at < i && indexed@[at as int]@ == name@,
        decreases indexed@.len() - i,
    {
        if !found && indexed[i].same(name) {
            found = true;
            at = i;
        }
        i += 1;
    }
    if !found {
        proof {
            assert(!contains_name(indexed@, name@));
        }
        return Ok(());
    }
    indexed.remove(at);
    let r = sync(indexed, tree);
    match r {
        Ok(u) => {
            proof {
                if meta_corresponds(old(indexed)@, tree_view(*old(tree))) {
                let names = indexed@;
                let oldnames = old(indexed)@;
                assert(names =~= oldnames.remove(at as int));
                assert forall|i: int| 0 <= i < names.len() implies (#[trigger] names[i]).wf() by {
                    if i < at {
                        assert(names[i] == oldnames[i]);
                        assert(oldnames[i].wf());
                    } else {
                        assert(names[i] == oldnames[i + 1]);
                        assert(oldnames[i + 1].wf());
                    }
                }
                assert forall|i: int, j: int|
                    0 <= i < j < names.len() implies names[i]@ != names[j]@ by {
                    if i < at && j < at {
                        assert(oldnames[i]@ != oldnames[j]@);
                    } else if i < at {
                        assert(oldnames[i]@ != oldnames[j + 1]@);
                    } else {
                        assert(oldnames[i + 1]@ != oldnames[j + 1]@);
                    }
                }
                assert forall|n: Seq<u8>| contains_name(names, n) implies contains_name(
                    oldnames,
                    n,
                ) && n != name@ by {
                    let j = choose|j: int| 0 <= j < names.len() && names[j]@ == n;
                    if j < at {
                        assert(oldnames[j]@ == n);
                    } else {
                        assert(oldnames[j + 1]@ == n);
                    }
                }
                assert forall|n: Seq<u8>|
                    contains_name(oldnames, n) && n != name@ implies contains_name(
                    names,
                    n,
                ) by {
                    let j = choose|j: int| 0 <= j < oldnames.len() && oldnames[j]@ == n;
                    if j < at {
                        assert(names[j]@ == n);
                    } else if j > at {
                        assert(names[j - 1]@ == n);
                    }
                }
                assert(meta_corresponds(names, tree_view(*tree)));
                }
            }
            Ok(u)
        },
        Err(e) => Err(e),
    }
}

} // verus!
