//! The component codec: graph entities are laid out as byte strings built
//! from four component kinds.  A UUID is 16 raw bytes, a 64-bit integer is 8
//! big-endian bytes, an identifier is a length byte followed by its bytes,
//! and a JSON value appears in keys as the 8 big-endian bytes of a 64-bit
//! hash of its serialized form.  Fixed-width and length-prefixed components
//! make every key self-delimiting, so prefixes of keys are themselves legal
//! scan bounds.

use vstd::prelude::*;
use crate::bytes::{bytes_eq, is_prefix_of};
use crate::errors::DSError;

verus! {

/// A vertex id: 16 bytes, stored big-endian as given.
pub type Uid = [u8; 16];

/// An interned short name: at most 255 bytes, length-prefixed in keys.
pub struct Ident {
    bytes: Vec<u8>,
}

impl View for Ident {
    type V = Seq<u8>;

    closed spec fn view(&self) -> Seq<u8> {
        self.bytes@
    }
}

impl Ident {
    /// The length fits the single length byte of the key form; every
    /// constructor enforces it, so it holds of every identifier value.
    #[verifier::type_invariant]
    pub open spec fn wf(&self) -> bool {
        self@.len() <= 255
    }

    /// `None` iff the name is longer than the length byte can carry.
    pub fn new(bytes: Vec<u8>) -> (r: Option<Ident>)
        ensures
            match r {
                Some(t) => t@ == bytes@ && t.wf(),
                None => bytes@.len() > 255,
            },
    {
        if bytes.len() <= 255 {
            Some(Ident { bytes })
        } else {
            None
        }
    }

    pub fn as_bytes(&self) -> (r: &Vec<u8>)
        ensures
            r@ == self@,
    {
        &self.bytes
    }

    /// An owned copy.
    pub fn dup(&self) -> (r: Ident)
        ensures
            r@ == self@,
            r.wf(),
    {
        proof {
            use_type_invariant(&*self);
        }
        Ident { bytes: copy_bytes(&self.bytes) }
    }

    /// Whether two identifiers are the same name.
    pub fn same(&self, other: &Ident) -> (r: bool)
        ensures
            r == (self@ == other@),
    {
        bytes_eq(&self.bytes, &other.bytes)
    }
}

/// An identifier's key form is read off any byte string it fronts in only
/// one way: the length byte pins the name.
pub proof fn lemma_enc_ident_prefix_unique(a: Seq<u8>, b: Seq<u8>, s: Seq<u8>)
    requires
        a.len() <= 255,
        b.len() <= 255,
        is_prefix_of(enc_ident(a), s),
        is_prefix_of(enc_ident(b), s),
    ensures
        a == b,
{
    assert(s.subrange(0, enc_ident(a).len() as int)[0] == a.len() as u8);
    assert(s[0] == a.len() as u8);
    assert(s.subrange(0, enc_ident(b).len() as int)[0] == b.len() as u8);
    assert(s[0] == b.len() as u8);
    assert(a.len() == b.len());
    assert forall|i: int| 0 <= i < a.len() implies a[i] == b[i] by {
        assert(s.subrange(0, enc_ident(a).len() as int)[i + 1] == a[i]);
        assert(s[i + 1] == a[i]);
        assert(s.subrange(0, enc_ident(b).len() as int)[i + 1] == b[i]);
        assert(s[i + 1] == b[i]);
    }
    assert(a =~= b);
}

/// Copies a byte vector.
pub fn copy_bytes(src: &Vec<u8>) -> (r: Vec<u8>)
    ensures
        r@ == src@,
{
    let mut out: Vec<u8> = Vec::new();
    let mut i: usize = 0;
    while i < src.len()
        invariant
            i <= src@.len(),
            out@ == src@.subrange(0, i as int),
        decreases src@.len() - i,
    {
        out.push(src[i]);
        proof {
            assert(src@.subrange(0, i + 1) =~= src@.subrange(0, i as int).push(src@[i as int]));
        }
        i += 1;
    }
    proof {
        assert(src@.subrange(0, src@.len() as int) =~= src@);
    }
    out
}

// ---------------------------------------------------------------------------
// Component encodings.
// ---------------------------------------------------------------------------

/// Key form of an identifier: one length byte, then the bytes.
pub open spec fn enc_ident(s: Seq<u8>) -> Seq<u8> {
    seq![s.len() as u8] + s
}

/// Byte `i` of the big-endian form of `x`.
pub open spec fn u64_byte(x: u64, i: int) -> u8 {
    (x >> (((7 - i) * 8) as u64)) as u8
}

/// Key form of a 64-bit integer: 8 big-endian bytes.
pub open spec fn enc_u64(x: u64) -> Seq<u8> {
    Seq::new(8, |i: int| u64_byte(x, i))
}

/// Key of an edge (outbound, label, inbound); the reversed range tree uses
/// the same layout with the endpoints swapped.
pub open spec fn edge_key(o: Seq<u8>, t: Seq<u8>, i: Seq<u8>) -> Seq<u8> {
    o + enc_ident(t) + i
}

/// Primary key of a property: the owner's key followed by the name.
pub open spec fn prop_key(owner: Seq<u8>, name: Seq<u8>) -> Seq<u8> {
    owner + enc_ident(name)
}

/// Key in a property value-index tree: name, value hash, then the owner.
pub open spec fn value_index_key(name: Seq<u8>, h: u64, owner: Seq<u8>) -> Seq<u8> {
    enc_ident(name) + enc_u64(h) + owner
}

// ---------------------------------------------------------------------------
// Exec builders.
// ---------------------------------------------------------------------------

/// Appends a byte vector.
pub fn append_bytes(out: &mut Vec<u8>, src: &Vec<u8>)
    ensures
        final(out)@ == old(out)@ + src@,
{
    let mut i: usize = 0;
    while i < src.len()
        invariant
            i <= src@.len(),
            out@ == old(out)@ + src@.subrange(0, i as int),
        decreases src@.len() - i,
    {
        out.push(src[i]);
        proof {
            assert(old(out)@ + src@.subrange(0, i + 1)
                =~= (old(out)@ + src@.subrange(0, i as int)).push(src@[i as int]));
        }
        i += 1;
    }
    proof {
        assert(src@.subrange(0, src@.len() as int) =~= src@);
    }
}

/// Appends the 16 bytes of a UUID.
pub fn append_uuid(out: &mut Vec<u8>, id: &Uid)
    ensures
        final(out)@ == old(out)@ + id@,
{
    let mut i: usize = 0;
    while i < 16
        invariant
            i <= 16,
            out@ == old(out)@ + id@.subrange(0, i as int),
        decreases 16 - i,
    {
        out.push(id[i]);
        proof {
            assert(old(out)@ + id@.subrange(0, i + 1)
                =~= (old(out)@ + id@.subrange(0, i as int)).push(id@[i as int]));
        }
        i += 1;
    }
    proof {
        assert(id@.subrange(0, 16) =~= id@);
    }
}

/// Appends the length-prefixed form of an identifier.
pub fn append_ident(out: &mut Vec<u8>, t: &Ident)
    requires
        t.wf(),
    ensures
        final(out)@ == old(out)@ + enc_ident(t@),
{
    out.push(t.bytes.len() as u8);
    append_bytes(out, &t.bytes);
    proof {
        assert(old(out)@ + enc_ident(t@) =~= old(out)@.push((t@.len() as u8)) + t@);
    }
}

/// Appends the 8 big-endian bytes of a 64-bit integer.
pub fn append_u64_be(out: &mut Vec<u8>, x: u64)
    ensures
        final(out)@ == old(out)@ + enc_u64(x),
{
    out.push((x >> 56u64) as u8);
    out.push((x >> 48u64) as u8);
    out.push((x >> 40u64) as u8);
    out.push((x >> 32u64) as u8);
    out.push((x >> 24u64) as u8);
    out.push((x >> 16u64) as u8);
    out.push((x >> 8u64) as u8);
    out.push(x as u8);
    proof {
        assert(x >> (((7 - 7int) * 8) as u64) == x >> 0u64);
        assert(x >> 0u64 == x) by (bit_vector);
        assert(out@ =~= old(out)@ + enc_u64(x));
    }
}

// ---------------------------------------------------------------------------
// Exec readers: consume one component at a time from a cursor position.
// ---------------------------------------------------------------------------

/// Reads 16 UUID bytes at `*pos`.
pub fn read_uuid(buf: &Vec<u8>, pos: &mut usize) -> (r: Result<Uid, DSError>)
    ensures
        match r {
            Ok(id) => *old(pos) + 16 <= buf@.len()
                && id@ == buf@.subrange(*old(pos) as int, *old(pos) + 16)
                && *final(pos) == *old(pos) + 16,
            Err(e) => e.is_decode() && *old(pos) + 16 > buf@.len() && *final(pos) == *old(pos),
        },
{
    if buf.len() < 16 || *pos > buf.len() - 16 {
        return Err(DSError::Decode);
    }
    let mut id: Uid = [0u8; 16];
    let start: usize = *pos;
    let n: usize = buf.len();
    let mut i: usize = 0;
    while i < 16
        invariant
            i <= 16,
            n == buf@.len(),
            start + 16 <= n,
            id@.len() == 16,
            id@.subrange(0, i as int) == buf@.subrange(start as int, start + i),
        decreases 16 - i,
    {
        id[i] = buf[start + i];
        proof {
            assert(id@.subrange(0, i + 1)
                =~= id@.subrange(0, i as int).push(buf@[start + i]));
            assert(buf@.subrange(start as int, start + i + 1)
                =~= buf@.subrange(start as int, start + i).push(buf@[start + i]));
        }
        i += 1;
    }
    *pos = start + 16;
    proof {
        assert(id@.subrange(0, 16) =~= id@);
    }
    Ok(id)
}

/// Reads a length-prefixed identifier at `*pos`.
pub fn read_ident(buf: &Vec<u8>, pos: &mut usize) -> (r: Result<Ident, DSError>)
    ensures
        match r {
            Ok(t) => t.wf()
                && *old(pos) + 1 + t@.len() <= buf@.len()
                && *final(pos) == *old(pos) + 1 + t@.len()
                && buf@.subrange(*old(pos) as int, *final(pos) as int) == enc_ident(t@),
            Err(e) => e.is_decode()
                && (*old(pos) >= buf@.len()
                    || *old(pos) + 1 + (buf@[*old(pos) as int] as int) > buf@.len())
                && *final(pos) == *old(pos),
        },
{
    if *pos >= buf.len() {
        return Err(DSError::Decode);
    }
    let len: usize = buf[*pos] as usize;
    if len > buf.len() - *pos - 1 {
        return Err(DSError::Decode);
    }
    let start: usize = *pos + 1;
    let n: usize = buf.len();
    let mut out: Vec<u8> = Vec::new();
    let mut i: usize = 0;
    while i < len
        invariant
            i <= len,
            n == buf@.len(),
            start + len <= n,
            out@ == buf@.subrange(start as int, start + i),
        decreases len - i,
    {
        out.push(buf[start + i]);
        proof {
            assert(buf@.subrange(start as int, start + i + 1)
                =~= buf@.subrange(start as int, start + i).push(buf@[start + i]));
        }
        i += 1;
    }
    *pos = start + len;
    proof {
        assert(buf@.subrange(start - 1, start + len)
            =~= enc_ident(buf@.subrange(start as int, start + len)));
    }
    Ok(Ident { bytes: out })
}

/// Reads 8 big-endian bytes at `*pos` as a 64-bit integer.
pub fn read_u64(buf: &Vec<u8>, pos: &mut usize) -> (r: Result<u64, DSError>)
    ensures
        match r {
            Ok(x) => *old(pos) + 8 <= buf@.len()
                && enc_u64(x) == buf@.subrange(*old(pos) as int, *old(pos) + 8)
                && *final(pos) == *old(pos) + 8,
            Err(e) => e.is_decode() && *old(pos) + 8 > buf@.len() && *final(pos) == *old(pos),
        },
{
    if buf.len() < 8 || *pos > buf.len() - 8 {
        return Err(DSError::Decode);
    }
    let p: usize = *pos;
    let b0 = buf[p];
    let b1 = buf[p + 1];
    let b2 = buf[p + 2];
    let b3 = buf[p + 3];
    let b4 = buf[p + 4];
    let b5 = buf[p + 5];
    let b6 = buf[p + 6];
    let b7 = buf[p + 7];
    let x: u64 = ((b0 as u64) << 56u64) | ((b1 as u64) << 48u64) | ((b2 as u64) << 40u64)
        | ((b3 as u64) << 32u64) | ((b4 as u64) << 24u64) | ((b5 as u64) << 16u64)
        | ((b6 as u64) << 8u64) | (b7 as u64);
    *pos = p + 8;
    proof {
        lemma_u64_be_assemble(b0, b1, b2, b3, b4, b5, b6, b7);
        assert(enc_u64(x) =~= buf@.subrange(p as int, p + 8));
    }
    Ok(x)
}

/// Extracting the bytes of an assembled big-endian word gives them back.
proof fn lemma_u64_be_assemble(b0: u8, b1: u8, b2: u8, b3: u8, b4: u8, b5: u8, b6: u8, b7: u8)
    ensures
        ({
            let x = ((b0 as u64) << 56u64) | ((b1 as u64) << 48u64) | ((b2 as u64) << 40u64)
                | ((b3 as u64) << 32u64) | ((b4 as u64) << 24u64) | ((b5 as u64) << 16u64)
                | ((b6 as u64) << 8u64) | (b7 as u64);
            u64_byte(x, 0) == b0 && u64_byte(x, 1) == b1 && u64_byte(x, 2) == b2
                && u64_byte(x, 3) == b3 && u64_byte(x, 4) == b4 && u64_byte(x, 5) == b5
                && u64_byte(x, 6) == b6 && u64_byte(x, 7) == b7
        }),
{
    let x = ((b0 as u64) << 56u64) | ((b1 as u64) << 48u64) | ((b2 as u64) << 40u64)
        | ((b3 as u64) << 32u64) | ((b4 as u64) << 24u64) | ((b5 as u64) << 16u64)
        | ((b6 as u64) << 8u64) | (b7 as u64);
    assert((x >> 56u64) as u8 == b0 && (x >> 48u64) as u8 == b1 && (x >> 40u64) as u8 == b2
        && (x >> 32u64) as u8 == b3 && (x >> 24u64) as u8 == b4 && (x >> 16u64) as u8 == b5
        && (x >> 8u64) as u8 == b6 && (x >> 0u64) as u8 == b7) by (bit_vector)
        requires
            x == ((b0 as u64) << 56u64) | ((b1 as u64) << 48u64) | ((b2 as u64) << 40u64)
                | ((b3 as u64) << 32u64) | ((b4 as u64) << 24u64) | ((b5 as u64) << 16u64)
                | ((b6 as u64) << 8u64) | (b7 as u64),
    ;
    assert(u64_byte(x, 0) == (x >> 56u64) as u8);
    assert(u64_byte(x, 1) == (x >> 48u64) as u8);
    assert(u64_byte(x, 2) == (x >> 40u64) as u8);
    assert(u64_byte(x, 3) == (x >> 32u64) as u8);
    assert(u64_byte(x, 4) == (x >> 24u64) as u8);
    assert(u64_byte(x, 5) == (x >> 16u64) as u8);
    assert(u64_byte(x, 6) == (x >> 8u64) as u8);
    assert(u64_byte(x, 7) == (x >> 0u64) as u8);
}

// ---------------------------------------------------------------------------
// The canonical hash that stands for a JSON value inside index keys.
// ---------------------------------------------------------------------------

pub const FNV_OFFSET_BASIS: u64 = 0xcbf29ce484222325;

pub const FNV_PRIME: u64 = 0x100000001b3;

/// One step of the 64-bit FNV-1a hash.
pub open spec fn fnv1a_step(acc: u64, b: u8) -> u64 {
    (acc ^ (b as u64)).wrapping_mul(FNV_PRIME)
}

/// Hash of the first `n` bytes of `s`.
pub open spec fn fnv1a_rec(s: Seq<u8>, n: int) -> u64
    decreases n,
{
    if n <= 0 {
        FNV_OFFSET_BASIS
    } else {
        fnv1a_step(fnv1a_rec(s, n - 1), s[n - 1])
    }
}

/// The canonical 64-bit form of a serialized JSON value: equal byte forms
/// hash equal, which is what equality-only index lookups need.
pub open spec fn json_hash(s: Seq<u8>) -> u64 {
    fnv1a_rec(s, s.len() as int)
}

/// Computes the canonical hash of a serialized value.
pub fn hash_bytes(s: &Vec<u8>) -> (r: u64)
    ensures
        r == json_hash(s@),
{
    let mut acc: u64 = FNV_OFFSET_BASIS;
    let mut i: usize = 0;
    while i < s.len()
        invariant
            i <= s@.len(),
            acc == fnv1a_rec(s@, i as int),
        decreases s@.len() - i,
    {
        acc = (acc ^ (s[i] as u64)).wrapping_mul(FNV_PRIME);
        proof {
            assert(fnv1a_rec(s@, i + 1) == fnv1a_step(fnv1a_rec(s@, i as int), s@[i as int]));
        }
        i += 1;
    }
    acc
}

} // verus!

verus! {

// ---------------------------------------------------------------------------
// Key shapes: what a well-formed key of each tree looks like, and that each
// layout is read back in exactly one way.
// ---------------------------------------------------------------------------

/// Key of an edge property: the edge key followed by the name.
pub open spec fn ep_key(o: Seq<u8>, t: Seq<u8>, i: Seq<u8>, n: Seq<u8>) -> Seq<u8> {
    edge_key(o, t, i) + enc_ident(n)
}

/// A key of the vertices tree: exactly 16 id bytes.
pub open spec fn is_uuid_key(k: Seq<u8>) -> bool {
    k.len() == 16
}

/// A key of the edges or range trees.
pub open spec fn is_edge_key(k: Seq<u8>) -> bool {
    exists|o: Seq<u8>, t: Seq<u8>, i: Seq<u8>|
        #![trigger edge_key(o, t, i)]
        k == edge_key(o, t, i) && o.len() == 16 && t.len() <= 255 && i.len() == 16
}

/// A key of the vertex property tree.
pub open spec fn is_vp_key(k: Seq<u8>) -> bool {
    exists|id: Seq<u8>, n: Seq<u8>|
        #![trigger prop_key(id, n)]
        k == prop_key(id, n) && id.len() == 16 && n.len() <= 255
}

/// A key of the edge property tree.
pub open spec fn is_ep_key(k: Seq<u8>) -> bool {
    exists|o: Seq<u8>, t: Seq<u8>, i: Seq<u8>, n: Seq<u8>|
        #![trigger ep_key(o, t, i, n)]
        k == ep_key(o, t, i, n) && o.len() == 16 && t.len() <= 255 && i.len() == 16 && n.len()
            <= 255
}

/// A key of the vertex property value-index tree.
pub open spec fn is_vpv_key(k: Seq<u8>) -> bool {
    exists|n: Seq<u8>, h: u64, id: Seq<u8>|
        #![trigger value_index_key(n, h, id)]
        k == value_index_key(n, h, id) && n.len() <= 255 && id.len() == 16
}

/// A key of the edge property value-index tree.
pub open spec fn is_epv_key(k: Seq<u8>) -> bool {
    exists|n: Seq<u8>, h: u64, o: Seq<u8>, t: Seq<u8>, i: Seq<u8>|
        #![trigger value_index_key(n, h, edge_key(o, t, i))]
        k == value_index_key(n, h, edge_key(o, t, i)) && n.len() <= 255 && o.len() == 16
            && t.len() <= 255 && i.len() == 16
}

/// A fixed 16-byte prefix is the leading id component.
pub proof fn lemma_prefix16(u: Seq<u8>, k: Seq<u8>)
    requires
        u.len() == 16,
        k.len() >= 16,
    ensures
        is_prefix_of(u, k) <==> k.subrange(0, 16) == u,
{
    if k.subrange(0, 16) == u {
        assert(k.subrange(0, u.len() as int) == u);
    }
}

/// The components of an edge key are read off it in only one way.
pub proof fn lemma_edge_key_injective(
    o: Seq<u8>,
    t: Seq<u8>,
    i: Seq<u8>,
    o2: Seq<u8>,
    t2: Seq<u8>,
    i2: Seq<u8>,
)
    requires
        o.len() == 16 && i.len() == 16 && t.len() <= 255,
        o2.len() == 16 && i2.len() == 16 && t2.len() <= 255,
        edge_key(o, t, i) == edge_key(o2, t2, i2),
    ensures
        o == o2 && t == t2 && i == i2,
{
    let k = edge_key(o, t, i);
    assert(o =~= k.subrange(0, 16));
    assert(o2 =~= k.subrange(0, 16));
    let r1 = k.subrange(16, k.len() as int);
    assert(r1 =~= enc_ident(t) + i);
    assert(r1 =~= enc_ident(t2) + i2);
    crate::bytes::lemma_prefix_concat(enc_ident(t), i);
    crate::bytes::lemma_prefix_concat(enc_ident(t2), i2);
    lemma_enc_ident_prefix_unique(t, t2, r1);
    assert(i =~= r1.subrange(1 + t.len() as int, r1.len() as int));
    assert(i2 =~= r1.subrange(1 + t2.len() as int, r1.len() as int));
}

/// The components of a property key are read off it in only one way.
pub proof fn lemma_prop_key_injective(ow: Seq<u8>, n: Seq<u8>, ow2: Seq<u8>, n2: Seq<u8>)
    requires
        ow.len() == ow2.len(),
        n.len() <= 255,
        n2.len() <= 255,
        prop_key(ow, n) == prop_key(ow2, n2),
    ensures
        ow == ow2 && n == n2,
{
    let k = prop_key(ow, n);
    assert(ow =~= k.subrange(0, ow.len() as int));
    assert(ow2 =~= k.subrange(0, ow.len() as int));
    let r1 = k.subrange(ow.len() as int, k.len() as int);
    assert(r1 =~= enc_ident(n));
    assert(r1 =~= enc_ident(n2));
    assert(is_prefix_of(enc_ident(n), r1)) by {
        assert(r1.subrange(0, enc_ident(n).len() as int) =~= r1);
    }
    assert(is_prefix_of(enc_ident(n2), r1)) by {
        assert(r1.subrange(0, enc_ident(n2).len() as int) =~= r1);
    }
    lemma_enc_ident_prefix_unique(n, n2, r1);
}

/// Two equal big-endian forms come from the same integer.
pub proof fn lemma_enc_u64_injective(x: u64, y: u64)
    requires
        enc_u64(x) == enc_u64(y),
    ensures
        x == y,
{
    assert forall|i: int| 0 <= i < 8 implies u64_byte(x, i) == u64_byte(y, i) by {
        assert(enc_u64(x)[i] == u64_byte(x, i));
        assert(enc_u64(y)[i] == u64_byte(y, i));
    }
    assert(u64_byte(x, 0) == u64_byte(y, 0));
    assert(u64_byte(x, 1) == u64_byte(y, 1));
    assert(u64_byte(x, 2) == u64_byte(y, 2));
    assert(u64_byte(x, 3) == u64_byte(y, 3));
    assert(u64_byte(x, 4) == u64_byte(y, 4));
    assert(u64_byte(x, 5) == u64_byte(y, 5));
    assert(u64_byte(x, 6) == u64_byte(y, 6));
    assert(u64_byte(x, 7) == u64_byte(y, 7));
    assert(x == y) by (bit_vector)
        requires
            (x >> 56u64) as u8 == (y >> 56u64) as u8,
            (x >> 48u64) as u8 == (y >> 48u64) as u8,
            (x >> 40u64) as u8 == (y >> 40u64) as u8,
            (x >> 32u64) as u8 == (y >> 32u64) as u8,
            (x >> 24u64) as u8 == (y >> 24u64) as u8,
            (x >> 16u64) as u8 == (y >> 16u64) as u8,
            (x >> 8u64) as u8 == (y >> 8u64) as u8,
            (x >> 0u64) as u8 == (y >> 0u64) as u8,
    ;
}

/// The components of a value-index key are read off it in only one way;
/// the two owners must have the same length (16 for vertices, the same
/// edge-key length for edges).
pub proof fn lemma_value_index_key_injective(
    n: Seq<u8>,
    h: u64,
    ow: Seq<u8>,
    n2: Seq<u8>,
    h2: u64,
    ow2: Seq<u8>,
)
    requires
        n.len() <= 255,
        n2.len() <= 255,
        value_index_key(n, h, ow) == value_index_key(n2, h2, ow2),
    ensures
        n == n2 && h == h2 && ow == ow2,
{
    let k = value_index_key(n, h, ow);
    crate::bytes::lemma_prefix_concat(enc_ident(n), enc_u64(h) + ow);
    crate::bytes::lemma_prefix_concat(enc_ident(n2), enc_u64(h2) + ow2);
    assert(k =~= enc_ident(n) + (enc_u64(h) + ow));
    assert(k =~= enc_ident(n2) + (enc_u64(h2) + ow2));
    lemma_enc_ident_prefix_unique(n, n2, k);
    let p = 1 + n.len() as int;
    assert(enc_u64(h) =~= k.subrange(p, p + 8));
    assert(enc_u64(h2) =~= k.subrange(p, p + 8));
    lemma_enc_u64_injective(h, h2);
    assert(ow =~= k.subrange(p + 8, k.len() as int));
    assert(ow2 =~= k.subrange(p + 8, k.len() as int));
}

/// A name prefix picks out exactly the index keys of that name, and a
/// name-and-hash prefix exactly those of that name and hash.
pub proof fn lemma_value_index_prefix(
    n1: Seq<u8>,
    n: Seq<u8>,
    h: u64,
    ow: Seq<u8>,
)
    requires
        n1.len() <= 255,
        n.len() <= 255,
    ensures
        is_prefix_of(enc_ident(n1), value_index_key(n, h, ow)) <==> n1 == n,
        is_prefix_of(enc_ident(n) + enc_u64(h), value_index_key(n, h, ow)),
{
    let k = value_index_key(n, h, ow);
    crate::bytes::lemma_prefix_concat(enc_ident(n), enc_u64(h) + ow);
    assert(k =~= enc_ident(n) + (enc_u64(h) + ow));
    if is_prefix_of(enc_ident(n1), k) {
        lemma_enc_ident_prefix_unique(n1, n, k);
    }
    assert((enc_ident(n) + enc_u64(h)) =~= k.subrange(0, (1 + n.len() + 8) as int));
    assert(is_prefix_of(enc_ident(n) + enc_u64(h), k));
}

/// A name-and-hash prefix on an index key forces that name and hash.
pub proof fn lemma_value_index_prefix2(
    n1: Seq<u8>,
    h1: u64,
    n: Seq<u8>,
    h: u64,
    ow: Seq<u8>,
)
    requires
        n1.len() <= 255,
        n.len() <= 255,
        is_prefix_of(enc_ident(n1) + enc_u64(h1), value_index_key(n, h, ow)),
    ensures
        n1 == n && h1 == h,
{
    let k = value_index_key(n, h, ow);
    let p = enc_ident(n1) + enc_u64(h1);
    crate::bytes::lemma_prefix_concat(enc_ident(n1), enc_u64(h1));
    assert(enc_ident(n1) =~= p.subrange(0, (1 + n1.len()) as int));
    assert(k.subrange(0, p.len() as int) == p);
    assert(enc_ident(n1) =~= k.subrange(0, (1 + n1.len()) as int));
    assert(is_prefix_of(enc_ident(n1), k));
    crate::bytes::lemma_prefix_concat(enc_ident(n), enc_u64(h) + ow);
    assert(k =~= enc_ident(n) + (enc_u64(h) + ow));
    lemma_enc_ident_prefix_unique(n1, n, k);
    let q = 1 + n.len() as int;
    assert(enc_u64(h1) =~= p.subrange(q, q + 8));
    assert(enc_u64(h1) =~= k.subrange(q, q + 8));
    assert(enc_u64(h) =~= k.subrange(q, q + 8));
    lemma_enc_u64_injective(h1, h);
}

} // verus!

verus! {

/// Shape facts of an identifier's key form.
pub proof fn lemma_enc_ident_facts(t: Seq<u8>)
    ensures
        enc_ident(t).len() == 1 + t.len(),
        enc_ident(t)[0] == t.len() as u8,
        forall|i: int| 1 <= i < enc_ident(t).len() ==> #[trigger] enc_ident(t)[i] == t[i - 1],
{
    assert(enc_ident(t)[0] == seq![t.len() as u8][0]);
}

/// Shape facts of an edge key.
pub proof fn lemma_edge_key_facts(o: Seq<u8>, t: Seq<u8>, i: Seq<u8>)
    requires
        o.len() == 16,
        t.len() <= 255,
        i.len() == 16,
    ensures
        edge_key(o, t, i).len() == 33 + t.len(),
        edge_key(o, t, i).subrange(0, 16) == o,
        edge_key(o, t, i)[16] == t.len() as u8,
        edge_key(o, t, i).subrange(16, 17 + t.len() as int) == enc_ident(t),
        edge_key(o, t, i).subrange(17 + t.len() as int, 33 + t.len() as int) == i,
{
    let k = edge_key(o, t, i);
    lemma_enc_ident_facts(t);
    assert(k.subrange(0, 16) =~= o);
    assert(k.subrange(16, 17 + t.len() as int) =~= enc_ident(t));
    assert(k[16] == enc_ident(t)[0]);
    assert(k.subrange(17 + t.len() as int, 33 + t.len() as int) =~= i);
}

/// A value too short for its own length byte encodes no identifier.
pub proof fn lemma_ident_value_unparseable(v: Seq<u8>)
    requires
        v.len() == 0 || 1 + (v[0] as int) > v.len(),
    ensures
        !(exists|t: Seq<u8>| v == #[trigger] enc_ident(t) && t.len() <= 255),
{
    if exists|t: Seq<u8>| v == #[trigger] enc_ident(t) && t.len() <= 255 {
        let t = choose|t: Seq<u8>| v == #[trigger] enc_ident(t) && t.len() <= 255;
        lemma_enc_ident_facts(t);
        assert(v.len() == 1 + t.len());
        assert(v[0] == t.len() as u8);
        assert(v[0] as int == t.len() as int);
        assert(false);
    }
}

/// A value with bytes left over after its identifier encodes no identifier
/// on its own.
pub proof fn lemma_ident_value_partial(v: Seq<u8>, t: Seq<u8>)
    requires
        t.len() <= 255,
        1 + t.len() <= v.len(),
        v.subrange(0, 1 + t.len() as int) == enc_ident(t),
        1 + t.len() < v.len(),
    ensures
        !(exists|t2: Seq<u8>| v == #[trigger] enc_ident(t2) && t2.len() <= 255),
{
    lemma_enc_ident_facts(t);
    if exists|t2: Seq<u8>| v == #[trigger] enc_ident(t2) && t2.len() <= 255 {
        let t2 = choose|t2: Seq<u8>| v == #[trigger] enc_ident(t2) && t2.len() <= 255;
        lemma_enc_ident_facts(t2);
        assert(v[0] == t2.len() as u8);
        assert(v.subrange(0, 1 + t.len() as int)[0] == v[0]);
        assert(v[0] == t.len() as u8);
        assert(t2.len() == t.len());
        assert(v.len() == 1 + t2.len());
        assert(false);
    }
}

} // verus!

verus! {

/// Shape facts of a property key (owner bytes, then the name).
pub proof fn lemma_prop_key_facts(ow: Seq<u8>, n: Seq<u8>)
    ensures
        prop_key(ow, n).len() == ow.len() + 1 + n.len(),
        prop_key(ow, n).subrange(0, ow.len() as int) == ow,
        prop_key(ow, n)[ow.len() as int] == n.len() as u8,
        prop_key(ow, n).subrange(ow.len() as int, prop_key(ow, n).len() as int) == enc_ident(n),
{
    let k = prop_key(ow, n);
    lemma_enc_ident_facts(n);
    assert(k.subrange(0, ow.len() as int) =~= ow);
    assert(k.subrange(ow.len() as int, k.len() as int) =~= enc_ident(n));
    assert(k[ow.len() as int] == enc_ident(n)[0]);
}

/// Shape facts of a value-index key.
pub proof fn lemma_vik_facts(n: Seq<u8>, h: u64, ow: Seq<u8>)
    ensures
        value_index_key(n, h, ow).len() == 9 + n.len() + ow.len(),
        value_index_key(n, h, ow)[0] == n.len() as u8,
        value_index_key(n, h, ow).subrange(0, 1 + n.len() as int) == enc_ident(n),
        value_index_key(n, h, ow).subrange(1 + n.len() as int, 9 + n.len() as int) == enc_u64(h),
        value_index_key(n, h, ow).subrange(
            9 + n.len() as int,
            value_index_key(n, h, ow).len() as int,
        ) == ow,
{
    let k = value_index_key(n, h, ow);
    lemma_enc_ident_facts(n);
    assert(k.subrange(0, 1 + n.len() as int) =~= enc_ident(n));
    assert(k[0] == enc_ident(n)[0]);
    assert(k.subrange(1 + n.len() as int, 9 + n.len() as int) =~= enc_u64(h));
    assert(k.subrange(9 + n.len() as int, k.len() as int) =~= ow);
}

/// Two edge keys that lead the same byte string are the same edge.
pub proof fn lemma_edge_key_prefix_unique(
    o: Seq<u8>,
    t: Seq<u8>,
    i: Seq<u8>,
    o2: Seq<u8>,
    t2: Seq<u8>,
    i2: Seq<u8>,
    s: Seq<u8>,
)
    requires
        o.len() == 16 && t.len() <= 255 && i.len() == 16,
        o2.len() == 16 && t2.len() <= 255 && i2.len() == 16,
        is_prefix_of(edge_key(o, t, i), s),
        is_prefix_of(edge_key(o2, t2, i2), s),
    ensures
        o == o2 && t == t2 && i == i2,
{
    lemma_edge_key_facts(o, t, i);
    lemma_edge_key_facts(o2, t2, i2);
    assert(s.subrange(0, edge_key(o, t, i).len() as int) == edge_key(o, t, i));
    assert(s.subrange(0, edge_key(o2, t2, i2).len() as int) == edge_key(o2, t2, i2));
    assert(s[16] == edge_key(o, t, i)[16]);
    assert(s[16] == edge_key(o2, t2, i2)[16]);
    assert(t.len() == t2.len());
    assert(edge_key(o, t, i).len() == edge_key(o2, t2, i2).len());
    assert(edge_key(o, t, i) == edge_key(o2, t2, i2));
    lemma_edge_key_injective(o, t, i, o2, t2, i2);
}

} // verus!

verus! {

/// `new_m` is `old_m` with exactly the keys under `owner` gone; kept rows
/// keep their values.
pub open spec fn props_stripped(
    old_m: Map<Seq<u8>, Seq<u8>>,
    owner: Seq<u8>,
    new_m: Map<Seq<u8>, Seq<u8>>,
) -> bool {
    &&& forall|k: Seq<u8>|
        #[trigger] new_m.contains_key(k) ==> old_m.contains_key(k) && new_m[k] == old_m[k]
            && !is_prefix_of(owner, k)
    &&& forall|k: Seq<u8>|
        #[trigger] old_m.contains_key(k) && !is_prefix_of(owner, k) ==> new_m.contains_key(k)
}

/// `ik` is the value-index key derived from a property the owner holds in
/// the primary tree `pm`.
pub open spec fn derived_index_entry(
    pm: Map<Seq<u8>, Seq<u8>>,
    owner: Seq<u8>,
    ik: Seq<u8>,
) -> bool {
    exists|n: Seq<u8>|
        pm.contains_key(#[trigger] prop_key(owner, n)) && n.len() <= 255 && ik
            == value_index_key(n, json_hash(pm[prop_key(owner, n)]), owner)
}

/// `new_i` is `old_i` with exactly the owner's derived index keys gone:
/// kept rows keep their values, nothing else was removed, and every key
/// derived from the owner's old properties is gone.
pub open spec fn index_stripped(
    pm_old: Map<Seq<u8>, Seq<u8>>,
    owner: Seq<u8>,
    old_i: Map<Seq<u8>, Seq<u8>>,
    new_i: Map<Seq<u8>, Seq<u8>>,
) -> bool {
    &&& forall|ik: Seq<u8>|
        #[trigger] new_i.contains_key(ik) ==> old_i.contains_key(ik) && new_i[ik] == old_i[ik]
    &&& forall|ik: Seq<u8>|
        #[trigger] old_i.contains_key(ik) ==> new_i.contains_key(ik) || derived_index_entry(
            pm_old,
            owner,
            ik,
        )
    &&& forall|n: Seq<u8>|
        #![trigger prop_key(owner, n)]
        pm_old.contains_key(prop_key(owner, n)) && n.len() <= 255 ==> !new_i.contains_key(
            value_index_key(n, json_hash(pm_old[prop_key(owner, n)]), owner),
        )
}

} // verus!
