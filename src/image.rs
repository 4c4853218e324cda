//! The on-disk image of a block store: the encoded list of entries followed
//! by an eight-byte little-endian checksum of that encoding.
use vstd::prelude::*;
use crate::bytes::{bytes_equal, copy_range};
use crate::disk::{BlockStore, ids_unique, next_after, lemma_next_after};

verus! {

/// The entries of a store as plain values.
pub open spec fn entries_model(s: Seq<(u64, Vec<u8>)>) -> Seq<(u64, Seq<u8>)> {
    s.map_values(|e: (u64, Vec<u8>)| (e.0, e.1@))
}

/// The bytes that bincode writes for a list of (id, contents) pairs.
pub uninterp spec fn entries_encoding(m: Seq<(u64, Seq<u8>)>) -> Seq<u8>;

/// What bincode reads back from bytes as a list of (id, contents) pairs,
/// if it can read one.
pub uninterp spec fn entries_decoding(b: Seq<u8>) -> Option<Seq<(u64, Seq<u8>)>>;

/// FNV-1a offset basis, 64 bits.
pub const FNV_OFFSET: u64 = 0xcbf29ce484222325;

/// FNV-1a prime, 64 bits.
pub const FNV_PRIME: u64 = 0x100000001b3;

/// The 64-bit FNV-1a hash of a byte sequence: starting from the offset
/// basis, each byte is xor-ed in and the value multiplied by the prime,
/// modulo 2^64.
pub open spec fn checksum_of(b: Seq<u8>) -> u64
    decreases b.len(),
{
    if b.len() == 0 {
        FNV_OFFSET
    } else {
        (checksum_of(b.drop_last()) ^ (b.last() as u64)).wrapping_mul(FNV_PRIME)
    }
}

/// Little-endian bytes of a 64-bit value.
pub open spec fn le_bytes(c: u64) -> Seq<u8> {
    seq![
        c as u8,
        (c >> 8u64) as u8,
        (c >> 16u64) as u8,
        (c >> 24u64) as u8,
        (c >> 32u64) as u8,
        (c >> 40u64) as u8,
        (c >> 48u64) as u8,
        (c >> 56u64) as u8,
    ]
}

/// The image of a list of entries.
pub open spec fn image_of(m: Seq<(u64, Seq<u8>)>) -> Seq<u8> {
    entries_encoding(m) + le_bytes(checksum_of(entries_encoding(m)))
}

/// Whether the checksum at the end of an image matches what precedes it.
pub open spec fn checksum_holds(b: Seq<u8>) -> bool {
    b.len() >= 8 && b.subrange(b.len() - 8, b.len() as int) == le_bytes(
        checksum_of(b.subrange(0, b.len() - 8)),
    )
}

/// A list of entries that a store can be loaded from: ids distinct, and
/// the largest below `u64::MAX` so that the cursor can stand one past it.
pub open spec fn loadable<T>(m: Seq<(u64, T)>) -> bool {
    ids_unique(m) && next_after(m) <= u64::MAX
}

/// Relies on bincode::serialize (fixed-width integers): the encoding is a
/// function of the list alone, and serializing into a `Vec` cannot fail.
#[verifier::external_body]
fn encode_entries(entries: &Vec<(u64, Vec<u8>)>) -> (r: Vec<u8>)
    ensures
        r@ == entries_encoding(entries_model(entries@)),
{
    match bincode::serialize(entries) {
        Ok(v) => v,
        Err(_) => Vec::new(),
    }
}

/// Relies on bincode::deserialize: it reads back what bincode::serialize
/// wrote for the same type.
#[verifier::external_body]
fn decode_entries(b: &[u8]) -> (r: Option<Vec<(u64, Vec<u8>)>>)
    ensures
        match r {
            Some(v) => entries_decoding(b@) == Some(entries_model(v@)),
            None => entries_decoding(b@) is None,
        },
        forall|m: Seq<(u64, Seq<u8>)>|
            b@ == entries_encoding(m) ==> r is Some && entries_model(r->0@) == m,
{
    bincode::deserialize::<Vec<(u64, Vec<u8>)>>(b).ok()
}

/// The FNV-1a hash of `b`, as `checksum_of` defines it.
pub fn checksum(b: &[u8]) -> (r: u64)
    ensures
        r == checksum_of(b@),
{
    let mut h: u64 = FNV_OFFSET;
    let mut i: usize = 0;
    while i < b.len()
        invariant
            i <= b@.len(),
            h == checksum_of(b@.subrange(0, i as int)),
        decreases b@.len() - i,
    {
        let ghost t = b@.subrange(0, i as int + 1);
        assert(t.drop_last() =~= b@.subrange(0, i as int));
        assert(t.last() == b@[i as int]);
        h = (h ^ (b[i] as u64)).wrapping_mul(FNV_PRIME);
        i = i + 1;
    }
    assert(b@.subrange(0, i as int) =~= b@);
    h
}

fn push_le_bytes(out: &mut Vec<u8>, c: u64)
    ensures
        final(out)@ == old(out)@ + le_bytes(c),
{
    out.push(c as u8);
    out.push((c >> 8u64) as u8);
    out.push((c >> 16u64) as u8);
    out.push((c >> 24u64) as u8);
    out.push((c >> 32u64) as u8);
    out.push((c >> 40u64) as u8);
    out.push((c >> 48u64) as u8);
    out.push((c >> 56u64) as u8);
    assert(final(out)@ =~= old(out)@ + le_bytes(c));
}

/// The image of a block store.
pub fn encode_image(store: &BlockStore) -> (r: Vec<u8>)
    ensures
        r@ == image_of(entries_model(store.entries_view())),
{
    let entries = store.entries();
    assert(entries_model(entries@) =~= entries_model(store.entries_view()));
    let mut out = encode_entries(&entries);
    let c = checksum(out.as_slice());
    push_le_bytes(&mut out, c);
    out
}

/// Whether a list of entries can be loaded, as `loadable` says.
fn check_loadable(v: &Vec<(u64, Vec<u8>)>) -> (r: bool)
    ensures
        r == loadable(v@),
{
    let mut i: usize = 0;
    while i < v.len()
        invariant
            i <= v@.len(),
            forall|a: int, b: int| 0 <= a < i && 0 <= b < v@.len() && a != b ==> v@[a].0 != v@[b].0,
            forall|a: int| 0 <= a < i ==> v@[a].0 < u64::MAX,
        decreases v@.len() - i,
    {
        let mut j: usize = 0;
        while j < v.len()
            invariant
                i < v@.len(),
                j <= v@.len(),
                forall|a: int, b: int| 0 <= a < i && 0 <= b < v@.len() && a != b ==> v@[a].0 != v@[b].0,
                forall|b: int| 0 <= b < j && b != i ==> v@[i as int].0 != v@[b].0,
            decreases v@.len() - j,
        {
            if j != i && v[i].0 == v[j].0 {
                return false;
            }
            j = j + 1;
        }
        if v[i].0 == u64::MAX {
            proof {
                lemma_next_after(v@);
            }
            return false;
        }
        i = i + 1;
    }
    proof {
        lemma_next_after(v@);
        if v@.len() > 0 {
            let k = choose|k: int| 0 <= k < v@.len() && next_after(v@) == v@[k].0 + 1;
            assert(v@[k].0 < u64::MAX);
        }
    }
    true
}

/// Whether the checksum at the end of an image matches what precedes it.
pub fn image_is_intact(b: &[u8]) -> (r: bool)
    ensures
        r == checksum_holds(b@),
{
    if b.len() < 8 {
        return false;
    }
    let n = b.len() - 8;
    let body = copy_range(b, 0, n);
    let tail = copy_range(b, n, b.len());
    let mut expected: Vec<u8> = Vec::new();
    push_le_bytes(&mut expected, checksum(body.as_slice()));
    assert(expected@ =~= le_bytes(checksum_of(body@)));
    bytes_equal(tail.as_slice(), expected.as_slice())
}

/// What loading `b` gives, as plain entries: those the body decodes to when
/// the checksum holds and they are loadable, and none otherwise.
pub open spec fn loaded_entries(b: Seq<u8>) -> Seq<(u64, Seq<u8>)> {
    if checksum_holds(b) {
        match entries_decoding(b.subrange(0, b.len() - 8)) {
            Some(m) => if loadable(m) {
                m
            } else {
                seq![]
            },
            None => seq![],
        }
    } else {
        seq![]
    }
}

/// Loads a block store from its image. An image that is too short, whose
/// checksum does not match, that cannot be decoded or that does not hold a
/// loadable list of entries gives an empty store with its cursor at 0.
pub fn decode_image(b: &[u8]) -> (r: BlockStore)
    ensures
        r.wf(),
        entries_model(r.entries_view()) == loaded_entries(b@),
        r.cursor() == next_after(r.entries_view()),
        !checksum_holds(b@) ==> r.entries_view().len() == 0 && r.cursor() == 0,
        forall|m: Seq<(u64, Seq<u8>)>|
            #![trigger image_of(m)]
            b@ == image_of(m) && loadable(m) ==> entries_model(r.entries_view()) == m,
        r.entries_view().len() == 0 && r.cursor() == 0 || r.cursor() == next_after(
            r.entries_view(),
        ),
{
    assert(entries_model(Seq::<(u64, Vec<u8>)>::empty()) =~= Seq::<(u64, Seq<u8>)>::empty());
    if b.len() < 8 {
        return BlockStore::new();
    }
    let n = b.len() - 8;
    let body_vec = copy_range(b, 0, n);
    let tail_vec = copy_range(b, n, b.len());
    let body = body_vec.as_slice();
    let tail = tail_vec.as_slice();
    let c = checksum(body);
    let mut expected: Vec<u8> = Vec::new();
    push_le_bytes(&mut expected, c);
    assert(body@ =~= b@.subrange(0, n as int));
    assert(tail@ =~= b@.subrange(n as int, b@.len() as int));
    assert(expected@ =~= le_bytes(c));
    proof {
        assert forall|m: Seq<(u64, Seq<u8>)>| #[trigger] image_of(m) == b@ implies body@
            == entries_encoding(m) && tail@ == le_bytes(checksum_of(body@)) by {
            let e = entries_encoding(m);
            assert(image_of(m).len() == e.len() + 8);
            assert(body@ =~= image_of(m).subrange(0, e.len() as int));
            assert(image_of(m).subrange(0, e.len() as int) =~= e);
            assert(tail@ =~= image_of(m).subrange(e.len() as int, e.len() + 8int));
            assert(image_of(m).subrange(e.len() as int, e.len() + 8int) =~= le_bytes(checksum_of(e)));
        }
    }
    if !bytes_equal(tail, expected.as_slice()) {
        return BlockStore::new();
    }
    assert(checksum_holds(b@));
    match decode_entries(body) {
        Some(v) => {
            proof {
                lemma_model_loadable(v@, entries_model(v@));
            }
            if check_loadable(&v) {
                proof {
                    lemma_next_after(v@);
                }
                BlockStore::from_entries(v)
            } else {
                proof {
                    assert forall|m: Seq<(u64, Seq<u8>)>|
                        b@ == #[trigger] image_of(m) && loadable(m) implies false by {
                        lemma_model_loadable(v@, m);
                    }
                }
                BlockStore::new()
            }
        },
        None => BlockStore::new(),
    }
}

/// The image of a list of entries passes the checksum check.
pub proof fn lemma_image_checksum_holds(m: Seq<(u64, Seq<u8>)>)
    ensures
        checksum_holds(image_of(m)),
{
    let e = entries_encoding(m);
    let b = image_of(m);
    assert(b.subrange(0, b.len() - 8) =~= e);
    assert(b.subrange(b.len() - 8, b.len() as int) =~= le_bytes(checksum_of(e)));
}

/// An image with any one byte of its checksum field changed fails the
/// checksum check, so loading it gives an empty store.
pub proof fn lemma_flipped_checksum_fails(m: Seq<(u64, Seq<u8>)>, j: int, v: u8)
    requires
        image_of(m).len() - 8 <= j < image_of(m).len(),
        v != image_of(m)[j],
    ensures
        !checksum_holds(image_of(m).update(j, v)),
{
    let e = entries_encoding(m);
    let b = image_of(m);
    let c = b.update(j, v);
    assert(c.subrange(0, c.len() - 8) =~= e);
    assert(b.subrange(b.len() - 8, b.len() as int) =~= le_bytes(checksum_of(e)));
    assert(c.subrange(c.len() - 8, c.len() as int)[j - (c.len() - 8)] == v);
    assert(le_bytes(checksum_of(e))[j - (c.len() - 8)] == b[j]);
}

pub proof fn lemma_model_loadable(v: Seq<(u64, Vec<u8>)>, m: Seq<(u64, Seq<u8>)>)
    requires
        entries_model(v) == m,
    ensures
        loadable(v) == loadable(m),
{
    assert forall|i: int| 0 <= i < v.len() implies v[i].0 == m[i].0 by {}
    lemma_same_ids_next_after(v, m);
    assert(ids_unique(v) == ids_unique(m)) by {
        if ids_unique(v) {
            assert forall|i: int, j: int|
                0 <= i < m.len() && 0 <= j < m.len() && i != j implies m[i].0 != m[j].0 by {
                assert(v[i].0 == m[i].0 && v[j].0 == m[j].0);
            }
        }
        if ids_unique(m) {
            assert forall|i: int, j: int|
                0 <= i < v.len() && 0 <= j < v.len() && i != j implies v[i].0 != v[j].0 by {
                assert(v[i].0 == m[i].0 && v[j].0 == m[j].0);
            }
        }
    }
}

proof fn lemma_same_ids_next_after(v: Seq<(u64, Vec<u8>)>, m: Seq<(u64, Seq<u8>)>)
    requires
        v.len() == m.len(),
        forall|i: int| 0 <= i < v.len() ==> v[i].0 == m[i].0,
    ensures
        next_after(v) == next_after(m),
    decreases v.len(),
{
    if v.len() > 0 {
        let vp = v.drop_last();
        let mp = m.drop_last();
        assert forall|i: int| 0 <= i < vp.len() implies vp[i].0 == mp[i].0 by {
            assert(vp[i] == v[i] && mp[i] == m[i]);
        }
        lemma_same_ids_next_after(vp, mp);
    }
}

} // verus!
