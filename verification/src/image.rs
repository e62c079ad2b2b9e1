//! The serialized form of a node and of the tree metadata: self-contained
//! little-endian records in which child and next-leaf references appear as
//! bare identities, so a node file can be decoded without the rest of the
//! tree.
//!
//! Every encoder is specified against the spec-level byte functions below.
//! `decode_image` accepts only canonical encodings: after parsing it
//! re-encodes the result and compares, so anything it returns encodes back
//! to its input, byte for byte. The metadata decoders carry the full
//! round-trip in their contracts.
use vstd::prelude::*;

verus! {

/// A node as it stands in its file: pairs for a leaf, separator keys and
/// child identities for an internal node.
pub enum NodeImage {
    Leaf { id: u128, entries: Vec<(u64, u64)>, next: Option<u128> },
    Internal { id: u128, keys: Vec<u64>, children: Vec<u128> },
}

/// The identity an image carries.
pub open spec fn image_id(img: NodeImage) -> u128 {
    match img {
        NodeImage::Leaf { id, .. } => id,
        NodeImage::Internal { id, .. } => id,
    }
}

/// The child identities an image refers to (none for a leaf).
pub open spec fn image_children(img: NodeImage) -> Seq<u128> {
    match img {
        NodeImage::Leaf { .. } => Seq::empty(),
        NodeImage::Internal { children, .. } => children@,
    }
}

/// A 64-bit value as eight little-endian bytes.
pub open spec fn u64_bytes(x: u64) -> Seq<u8> {
    Seq::new(8, |i: int| ((x >> (8 * i) as u64) & 0xff) as u8)
}

/// A 128-bit value as sixteen little-endian bytes.
pub open spec fn u128_bytes(x: u128) -> Seq<u8> {
    Seq::new(16, |i: int| ((x >> (8 * i) as u128) & 0xff) as u8)
}

/// The value sixteen little-endian bytes carry.
pub open spec fn u128_of_bytes(s: Seq<u8>) -> u128 {
    (s[0] as u128) | ((s[1] as u128) << 8) | ((s[2] as u128) << 16) | ((s[3] as u128) << 24) | ((
    s[4] as u128) << 32) | ((s[5] as u128) << 40) | ((s[6] as u128) << 48) | ((s[7] as u128)
        << 56) | ((s[8] as u128) << 64) | ((s[9] as u128) << 72) | ((s[10] as u128) << 80) | ((
    s[11] as u128) << 88) | ((s[12] as u128) << 96) | ((s[13] as u128) << 104) | ((s[14] as u128)
        << 112) | ((s[15] as u128) << 120)
}

/// The value eight little-endian bytes carry.
pub open spec fn u64_of_bytes(s: Seq<u8>) -> u64 {
    (s[0] as u64) | ((s[1] as u64) << 8) | ((s[2] as u64) << 16) | ((s[3] as u64) << 24) | ((s[4]
        as u64) << 32) | ((s[5] as u64) << 40) | ((s[6] as u64) << 48) | ((s[7] as u64) << 56)
}

/// Reading back the eight bytes of a value gives the value.
pub proof fn lemma_u64_round_trip(x: u64)
    ensures
        u64_of_bytes(u64_bytes(x)) == x,
{
    assert((((x >> 0u64) & 0xff) as u8 as u64) | ((((x >> 8u64) & 0xff) as u8 as u64) << 8) | ((((
    x >> 16u64) & 0xff) as u8 as u64) << 16) | ((((x >> 24u64) & 0xff) as u8 as u64) << 24) | ((((
    x >> 32u64) & 0xff) as u8 as u64) << 32) | ((((x >> 40u64) & 0xff) as u8 as u64) << 40) | ((((
    x >> 48u64) & 0xff) as u8 as u64) << 48) | ((((x >> 56u64) & 0xff) as u8 as u64) << 56)
        == x) by (bit_vector);
}

/// Reading back the sixteen bytes of a value gives the value.
pub proof fn lemma_u128_round_trip(x: u128)
    ensures
        u128_of_bytes(u128_bytes(x)) == x,
{
    assert((((x >> 0u128) & 0xff) as u8 as u128) | ((((x >> 8u128) & 0xff) as u8 as u128) << 8)
        | ((((x >> 16u128) & 0xff) as u8 as u128) << 16) | ((((x >> 24u128) & 0xff) as u8 as u128)
        << 24) | ((((x >> 32u128) & 0xff) as u8 as u128) << 32) | ((((x >> 40u128) & 0xff) as u8
        as u128) << 40) | ((((x >> 48u128) & 0xff) as u8 as u128) << 48) | ((((x >> 56u128) & 0xff)
        as u8 as u128) << 56) | ((((x >> 64u128) & 0xff) as u8 as u128) << 64) | ((((x >> 72u128)
        & 0xff) as u8 as u128) << 72) | ((((x >> 80u128) & 0xff) as u8 as u128) << 80) | ((((x
        >> 88u128) & 0xff) as u8 as u128) << 88) | ((((x >> 96u128) & 0xff) as u8 as u128) << 96)
        | ((((x >> 104u128) & 0xff) as u8 as u128) << 104) | ((((x >> 112u128) & 0xff) as u8
        as u128) << 112) | ((((x >> 120u128) & 0xff) as u8 as u128) << 120) == x) by (bit_vector);
}

/// Sixteen bytes re-encode their carried value.
pub proof fn lemma_u128_inverse(s: Seq<u8>)
    requires
        s.len() == 16,
    ensures
        u128_bytes(u128_of_bytes(s)) == s,
{
    let b0 = s[0];
    let b1 = s[1];
    let b2 = s[2];
    let b3 = s[3];
    let b4 = s[4];
    let b5 = s[5];
    let b6 = s[6];
    let b7 = s[7];
    let b8 = s[8];
    let b9 = s[9];
    let b10 = s[10];
    let b11 = s[11];
    let b12 = s[12];
    let b13 = s[13];
    let b14 = s[14];
    let b15 = s[15];
    let x = u128_of_bytes(s);
    assert((((x >> 0u128) & 0xff) as u8 == b0) && (((x >> 8u128) & 0xff) as u8 == b1) && (((x
        >> 16u128) & 0xff) as u8 == b2) && (((x >> 24u128) & 0xff) as u8 == b3) && (((x
        >> 32u128) & 0xff) as u8 == b4) && (((x >> 40u128) & 0xff) as u8 == b5) && (((x
        >> 48u128) & 0xff) as u8 == b6) && (((x >> 56u128) & 0xff) as u8 == b7) && (((x
        >> 64u128) & 0xff) as u8 == b8) && (((x >> 72u128) & 0xff) as u8 == b9) && (((x
        >> 80u128) & 0xff) as u8 == b10) && (((x >> 88u128) & 0xff) as u8 == b11) && (((x
        >> 96u128) & 0xff) as u8 == b12) && (((x >> 104u128) & 0xff) as u8 == b13) && (((x
        >> 112u128) & 0xff) as u8 == b14) && (((x >> 120u128) & 0xff) as u8 == b15))
        by (bit_vector)
        requires
            x == (b0 as u128) | ((b1 as u128) << 8) | ((b2 as u128) << 16) | ((b3 as u128) << 24)
                | ((b4 as u128) << 32) | ((b5 as u128) << 40) | ((b6 as u128) << 48) | ((b7
                as u128) << 56) | ((b8 as u128) << 64) | ((b9 as u128) << 72) | ((b10 as u128)
                << 80) | ((b11 as u128) << 88) | ((b12 as u128) << 96) | ((b13 as u128) << 104)
                | ((b14 as u128) << 112) | ((b15 as u128) << 120),
    ;
    assert(u128_bytes(x) =~= s);
}

/// Eight bytes re-encode their carried value.
pub proof fn lemma_u64_inverse(s: Seq<u8>)
    requires
        s.len() == 8,
    ensures
        u64_bytes(u64_of_bytes(s)) == s,
{
    let b0 = s[0];
    let b1 = s[1];
    let b2 = s[2];
    let b3 = s[3];
    let b4 = s[4];
    let b5 = s[5];
    let b6 = s[6];
    let b7 = s[7];
    let x = u64_of_bytes(s);
    assert((((x >> 0u64) & 0xff) as u8 == b0) && (((x >> 8u64) & 0xff) as u8 == b1) && (((x
        >> 16u64) & 0xff) as u8 == b2) && (((x >> 24u64) & 0xff) as u8 == b3) && (((x >> 32u64)
        & 0xff) as u8 == b4) && (((x >> 40u64) & 0xff) as u8 == b5) && (((x >> 48u64) & 0xff)
        as u8 == b6) && (((x >> 56u64) & 0xff) as u8 == b7)) by (bit_vector)
        requires
            x == (b0 as u64) | ((b1 as u64) << 8) | ((b2 as u64) << 16) | ((b3 as u64) << 24) | ((
            b4 as u64) << 32) | ((b5 as u64) << 40) | ((b6 as u64) << 48) | ((b7 as u64) << 56),
    ;
    assert(u64_bytes(x) =~= s);
}

fn push_u64(out: &mut Vec<u8>, x: u64)
    ensures
        final(out)@ == old(out)@ + u64_bytes(x),
{
    let mut j: usize = 0;
    while j < 8
        invariant
            j <= 8,
            out@ == old(out)@ + u64_bytes(x).take(j as int),
        decreases 8 - j,
    {
        let b: u8 = ((x >> ((8 * j) as u64)) & 0xff) as u8;
        proof {
            assert(u64_bytes(x)[j as int] == b);
            assert(u64_bytes(x).take(j as int).push(b) =~= u64_bytes(x).take(j as int + 1));
            assert((old(out)@ + u64_bytes(x).take(j as int)).push(b) =~= old(out)@ + u64_bytes(
                x,
            ).take(j as int + 1));
        }
        out.push(b);
        j = j + 1;
    }
    proof {
        assert(u64_bytes(x).take(8) =~= u64_bytes(x));
    }
}

fn push_u128(out: &mut Vec<u8>, x: u128)
    ensures
        final(out)@ == old(out)@ + u128_bytes(x),
{
    let mut j: usize = 0;
    while j < 16
        invariant
            j <= 16,
            out@ == old(out)@ + u128_bytes(x).take(j as int),
        decreases 16 - j,
    {
        let b: u8 = ((x >> ((8 * j) as u128)) & 0xff) as u8;
        proof {
            assert(u128_bytes(x)[j as int] == b);
            assert(u128_bytes(x).take(j as int).push(b) =~= u128_bytes(x).take(j as int + 1));
            assert((old(out)@ + u128_bytes(x).take(j as int)).push(b) =~= old(out)@ + u128_bytes(
                x,
            ).take(j as int + 1));
        }
        out.push(b);
        j = j + 1;
    }
    proof {
        assert(u128_bytes(x).take(16) =~= u128_bytes(x));
    }
}

fn read_u64(bytes: &Vec<u8>, at: usize) -> (r: u64)
    requires
        at + 8 <= bytes@.len(),
    ensures
        r == u64_of_bytes(bytes@.subrange(at as int, at as int + 8)),
{
    let n = bytes.len();
    proof {
        assert(at + 8 <= n);
    }
    let r = (bytes[at] as u64) | ((bytes[at + 1] as u64) << 8) | ((bytes[at + 2] as u64) << 16) | (
    (bytes[at + 3] as u64) << 24) | ((bytes[at + 4] as u64) << 32) | ((bytes[at + 5] as u64) << 40)
        | ((bytes[at + 6] as u64) << 48) | ((bytes[at + 7] as u64) << 56);
    proof {
        let s = bytes@.subrange(at as int, at as int + 8);
        assert(forall|i: int| 0 <= i < 8 ==> s[i] == bytes@[at + i]);
    }
    r
}

fn read_u128(bytes: &Vec<u8>, at: usize) -> (r: u128)
    requires
        at + 16 <= bytes@.len(),
    ensures
        r == u128_of_bytes(bytes@.subrange(at as int, at as int + 16)),
{
    let n = bytes.len();
    proof {
        assert(at + 16 <= n);
    }
    let r = (bytes[at] as u128) | ((bytes[at + 1] as u128) << 8) | ((bytes[at + 2] as u128) << 16)
        | ((bytes[at + 3] as u128) << 24) | ((bytes[at + 4] as u128) << 32) | ((bytes[at + 5]
        as u128) << 40) | ((bytes[at + 6] as u128) << 48) | ((bytes[at + 7] as u128) << 56) | ((
    bytes[at + 8] as u128) << 64) | ((bytes[at + 9] as u128) << 72) | ((bytes[at + 10] as u128)
        << 80) | ((bytes[at + 11] as u128) << 88) | ((bytes[at + 12] as u128) << 96) | ((bytes[at
        + 13] as u128) << 104) | ((bytes[at + 14] as u128) << 112) | ((bytes[at + 15] as u128)
        << 120);
    proof {
        let s = bytes@.subrange(at as int, at as int + 16);
        assert(forall|i: int| 0 <= i < 16 ==> s[i] == bytes@[at + i]);
    }
    r
}

/// The bytes of a next-leaf reference: a presence flag and the identity
/// (zero when absent).
pub open spec fn next_bytes(next: Option<u128>) -> Seq<u8> {
    match next {
        Some(n) => seq![1u8] + u128_bytes(n),
        None => seq![0u8] + u128_bytes(0),
    }
}

/// The bytes of a row of pairs, each key then value.
pub open spec fn pairs_bytes(s: Seq<(u64, u64)>) -> Seq<u8>
    decreases s.len(),
{
    if s.len() == 0 {
        Seq::empty()
    } else {
        u64_bytes(s[0].0) + u64_bytes(s[0].1) + pairs_bytes(s.drop_first())
    }
}

/// The bytes of a row of keys.
pub open spec fn keys_bytes(s: Seq<u64>) -> Seq<u8>
    decreases s.len(),
{
    if s.len() == 0 {
        Seq::empty()
    } else {
        u64_bytes(s[0]) + keys_bytes(s.drop_first())
    }
}

/// The bytes of a row of identities.
pub open spec fn ids_bytes(s: Seq<u128>) -> Seq<u8>
    decreases s.len(),
{
    if s.len() == 0 {
        Seq::empty()
    } else {
        u128_bytes(s[0]) + ids_bytes(s.drop_first())
    }
}

/// The canonical bytes of a leaf node file.
pub open spec fn leaf_image_bytes(id: u128, entries: Seq<(u64, u64)>, next: Option<u128>) -> Seq<
    u8,
> {
    seq![0u8] + u128_bytes(id) + next_bytes(next) + u64_bytes(entries.len() as u64) + pairs_bytes(
        entries,
    )
}

/// The canonical bytes of an internal node file.
pub open spec fn internal_image_bytes(id: u128, keys: Seq<u64>, children: Seq<u128>) -> Seq<u8> {
    seq![1u8] + u128_bytes(id) + u64_bytes(keys.len() as u64) + keys_bytes(keys) + u64_bytes(
        children.len() as u64,
    ) + ids_bytes(children)
}

/// The canonical bytes of a node image.
pub open spec fn image_bytes(img: NodeImage) -> Seq<u8> {
    match img {
        NodeImage::Leaf { id, entries, next } => leaf_image_bytes(id, entries@, next),
        NodeImage::Internal { id, keys, children } => internal_image_bytes(id, keys@, children@),
    }
}

/// Growing a pair row by one appends that pair's bytes.
proof fn lemma_pairs_bytes_snoc(s: Seq<(u64, u64)>, j: int)
    requires
        0 <= j < s.len(),
    ensures
        pairs_bytes(s.take(j + 1)) == pairs_bytes(s.take(j)) + (u64_bytes(s[j].0) + u64_bytes(
            s[j].1,
        )),
    decreases j,
{
    if j == 0 {
        assert(s.take(0) =~= Seq::<(u64, u64)>::empty());
        assert(s.take(1).drop_first() =~= Seq::<(u64, u64)>::empty());
        assert(s.take(1)[0] == s[0]);
        assert(pairs_bytes(s.take(1)) == u64_bytes(s[0].0) + u64_bytes(s[0].1) + pairs_bytes(
            Seq::<(u64, u64)>::empty(),
        ));
        assert(u64_bytes(s[0].0) + u64_bytes(s[0].1) + Seq::<u8>::empty() =~= Seq::<
            u8,
        >::empty() + (u64_bytes(s[0].0) + u64_bytes(s[0].1)));
    } else {
        lemma_pairs_bytes_snoc(s.drop_first(), j - 1);
        assert(s.take(j + 1)[0] == s[0]);
        assert(s.take(j + 1).drop_first() =~= s.drop_first().take(j));
        assert(s.take(j)[0] == s[0]);
        assert(s.take(j).drop_first() =~= s.drop_first().take(j - 1));
        assert(s.drop_first()[j - 1] == s[j]);
        assert(u64_bytes(s[0].0) + u64_bytes(s[0].1) + (pairs_bytes(s.drop_first().take(j - 1)) + (
        u64_bytes(s[j].0) + u64_bytes(s[j].1))) =~= (u64_bytes(s[0].0) + u64_bytes(s[0].1)
            + pairs_bytes(s.drop_first().take(j - 1))) + (u64_bytes(s[j].0) + u64_bytes(s[j].1)));
    }
}

/// Growing a key row by one appends that key's bytes.
proof fn lemma_keys_bytes_snoc(s: Seq<u64>, j: int)
    requires
        0 <= j < s.len(),
    ensures
        keys_bytes(s.take(j + 1)) == keys_bytes(s.take(j)) + u64_bytes(s[j]),
    decreases j,
{
    if j == 0 {
        assert(s.take(0) =~= Seq::<u64>::empty());
        assert(s.take(1).drop_first() =~= Seq::<u64>::empty());
        assert(s.take(1)[0] == s[0]);
        assert(u64_bytes(s[0]) + Seq::<u8>::empty() =~= Seq::<u8>::empty() + u64_bytes(s[0]));
    } else {
        lemma_keys_bytes_snoc(s.drop_first(), j - 1);
        assert(s.take(j + 1)[0] == s[0]);
        assert(s.take(j + 1).drop_first() =~= s.drop_first().take(j));
        assert(s.take(j)[0] == s[0]);
        assert(s.take(j).drop_first() =~= s.drop_first().take(j - 1));
        assert(s.drop_first()[j - 1] == s[j]);
        assert(u64_bytes(s[0]) + (keys_bytes(s.drop_first().take(j - 1)) + u64_bytes(s[j])) =~= (
        u64_bytes(s[0]) + keys_bytes(s.drop_first().take(j - 1))) + u64_bytes(s[j]));
    }
}

/// Growing an identity row by one appends that identity's bytes.
proof fn lemma_ids_bytes_snoc(s: Seq<u128>, j: int)
    requires
        0 <= j < s.len(),
    ensures
        ids_bytes(s.take(j + 1)) == ids_bytes(s.take(j)) + u128_bytes(s[j]),
    decreases j,
{
    if j == 0 {
        assert(s.take(0) =~= Seq::<u128>::empty());
        assert(s.take(1).drop_first() =~= Seq::<u128>::empty());
        assert(s.take(1)[0] == s[0]);
        assert(u128_bytes(s[0]) + Seq::<u8>::empty() =~= Seq::<u8>::empty() + u128_bytes(s[0]));
    } else {
        lemma_ids_bytes_snoc(s.drop_first(), j - 1);
        assert(s.take(j + 1)[0] == s[0]);
        assert(s.take(j + 1).drop_first() =~= s.drop_first().take(j));
        assert(s.take(j)[0] == s[0]);
        assert(s.take(j).drop_first() =~= s.drop_first().take(j - 1));
        assert(s.drop_first()[j - 1] == s[j]);
        assert(u128_bytes(s[0]) + (ids_bytes(s.drop_first().take(j - 1)) + u128_bytes(s[j])) =~= (
        u128_bytes(s[0]) + ids_bytes(s.drop_first().take(j - 1))) + u128_bytes(s[j]));
    }
}

/// Serialize a node image into its canonical bytes.
#[verifier::rlimit(100)]
#[verifier::spinoff_prover]
pub fn encode_image(image: &NodeImage) -> (r: Vec<u8>)
    ensures
        r@ == image_bytes(*image),
{
    let mut out: Vec<u8> = Vec::new();
    match image {
        NodeImage::Leaf { id, entries, next } => {
            out.push(0u8);
            push_u128(&mut out, *id);
            match next {
                Some(n) => {
                    out.push(1u8);
                    push_u128(&mut out, *n);
                },
                None => {
                    out.push(0u8);
                    push_u128(&mut out, 0u128);
                },
            }
            push_u64(&mut out, entries.len() as u64);
            let ghost head = out@;
            proof {
                assert(head =~= seq![0u8] + u128_bytes(*id) + next_bytes(*next) + u64_bytes(
                    entries@.len() as u64,
                ));
                assert(entries@.take(0) =~= Seq::<(u64, u64)>::empty());
                assert(head + pairs_bytes(entries@.take(0)) =~= head);
            }
            let mut j: usize = 0;
            while j < entries.len()
                invariant
                    j <= entries@.len(),
                    out@ == head + pairs_bytes(entries@.take(j as int)),
                decreases entries@.len() - j,
            {
                let p = entries[j];
                push_u64(&mut out, p.0);
                push_u64(&mut out, p.1);
                proof {
                    lemma_pairs_bytes_snoc(entries@, j as int);
                    assert((head + pairs_bytes(entries@.take(j as int)) + u64_bytes(p.0))
                        + u64_bytes(p.1) =~= head + pairs_bytes(entries@.take(j as int + 1)));
                }
                j = j + 1;
            }
            proof {
                assert(entries@.take(entries@.len() as int) =~= entries@);
            }
        },
        NodeImage::Internal { id, keys, children } => {
            out.push(1u8);
            push_u128(&mut out, *id);
            push_u64(&mut out, keys.len() as u64);
            let ghost head = out@;
            proof {
                assert(head =~= seq![1u8] + u128_bytes(*id) + u64_bytes(keys@.len() as u64));
                assert(keys@.take(0) =~= Seq::<u64>::empty());
                assert(head + keys_bytes(keys@.take(0)) =~= head);
            }
            let mut j: usize = 0;
            while j < keys.len()
                invariant
                    j <= keys@.len(),
                    out@ == head + keys_bytes(keys@.take(j as int)),
                decreases keys@.len() - j,
            {
                push_u64(&mut out, keys[j]);
                proof {
                    lemma_keys_bytes_snoc(keys@, j as int);
                    assert(head + keys_bytes(keys@.take(j as int)) + u64_bytes(keys@[j as int])
                        =~= head + keys_bytes(keys@.take(j as int + 1)));
                }
                j = j + 1;
            }
            push_u64(&mut out, children.len() as u64);
            let ghost head2 = out@;
            proof {
                assert(keys@.take(keys@.len() as int) =~= keys@);
                assert(head2 =~= seq![1u8] + u128_bytes(*id) + u64_bytes(keys@.len() as u64)
                    + keys_bytes(keys@) + u64_bytes(children@.len() as u64));
                assert(children@.take(0) =~= Seq::<u128>::empty());
                assert(head2 + ids_bytes(children@.take(0)) =~= head2);
            }
            let mut j2: usize = 0;
            while j2 < children.len()
                invariant
                    j2 <= children@.len(),
                    out@ == head2 + ids_bytes(children@.take(j2 as int)),
                decreases children@.len() - j2,
            {
                push_u128(&mut out, children[j2]);
                proof {
                    lemma_ids_bytes_snoc(children@, j2 as int);
                    assert(head2 + ids_bytes(children@.take(j2 as int)) + u128_bytes(
                        children@[j2 as int],
                    ) =~= head2 + ids_bytes(children@.take(j2 as int + 1)));
                }
                j2 = j2 + 1;
            }
            proof {
                assert(children@.take(children@.len() as int) =~= children@);
            }
        },
    }
    out
}

/// Parse without judging: the caller compares a re-encoding against the
/// input.
fn parse_image(bytes: &Vec<u8>) -> (r: Option<NodeImage>) {
    let n = bytes.len();
    if bytes.len() < 17 {
        return None;
    }
    let tag = bytes[0];
    let id = read_u128(bytes, 1);
    if tag == 0 {
        if bytes.len() < 17 + 17 + 8 {
            return None;
        }
        let next_flag = bytes[17];
        let next_id = read_u128(bytes, 18);
        let next = if next_flag == 1 {
            Some(next_id)
        } else {
            None
        };
        let count = read_u64(bytes, 34);
        if count > n as u64 {
            return None;
        }
        let count = count as usize;
        if bytes.len() < 42 {
            return None;
        }
        let have = (bytes.len() - 42) / 16;
        if have < count {
            return None;
        }
        let mut entries: Vec<(u64, u64)> = Vec::new();
        let mut j: usize = 0;
        while j < count
            invariant
                j <= count,
                n == bytes@.len(),
                42 <= n,
                (n - 42) / 16 >= count,
            decreases count - j,
        {
            proof {
                assert(42 + j * 16 + 16 <= n) by (nonlinear_arith)
                    requires
                        0 <= j < count && 42 <= n && (n - 42) / 16 >= count,
                ;
            }
            let k = read_u64(bytes, 42 + j * 16);
            let v = read_u64(bytes, 42 + j * 16 + 8);
            entries.push((k, v));
            j = j + 1;
        }
        Some(NodeImage::Leaf { id, entries, next })
    } else if tag == 1 {
        if bytes.len() < 25 {
            return None;
        }
        let kcount = read_u64(bytes, 17);
        if kcount > n as u64 {
            return None;
        }
        let kcount = kcount as usize;
        let have_k = (bytes.len() - 25) / 8;
        if have_k < kcount {
            return None;
        }
        let mut keys: Vec<u64> = Vec::new();
        let mut j: usize = 0;
        while j < kcount
            invariant
                j <= kcount,
                n == bytes@.len(),
                25 <= n,
                (n - 25) / 8 >= kcount,
            decreases kcount - j,
        {
            proof {
                assert(25 + j * 8 + 8 <= n) by (nonlinear_arith)
                    requires
                        0 <= j < kcount && 25 <= n && (n - 25) / 8 >= kcount,
                ;
            }
            keys.push(read_u64(bytes, 25 + j * 8));
            j = j + 1;
        }
        proof {
            assert(25 + kcount * 8 + 8 <= n + 8) by (nonlinear_arith)
                requires
                    25 <= n && (n - 25) / 8 >= kcount,
            ;
        }
        let after_keys = 25 + kcount * 8;
        if n - after_keys < 8 {
            return None;
        }
        let ccount = read_u64(bytes, after_keys);
        if ccount > n as u64 {
            return None;
        }
        let ccount = ccount as usize;
        let base = after_keys + 8;
        let have_c = (bytes.len() - base) / 16;
        if have_c < ccount {
            return None;
        }
        let mut children: Vec<u128> = Vec::new();
        let mut j2: usize = 0;
        while j2 < ccount
            invariant
                j2 <= ccount,
                n == bytes@.len(),
                base <= n,
                (n - base) / 16 >= ccount,
            decreases ccount - j2,
        {
            proof {
                assert(base + j2 * 16 + 16 <= n) by (nonlinear_arith)
                    requires
                        0 <= j2 < ccount && base <= n && (n - base) / 16 >= ccount,
                ;
            }
            children.push(read_u128(bytes, base + j2 * 16));
            j2 = j2 + 1;
        }
        Some(NodeImage::Internal { id, keys, children })
    } else {
        None
    }
}

/// Decode a node image. Anything returned is sound: it encodes back to the
/// input, byte for byte, because the parse is checked by re-encoding.
pub fn decode_image(bytes: &Vec<u8>) -> (r: Option<NodeImage>)
    ensures
        r is Some ==> image_bytes(r.unwrap()) == bytes@,
{
    match parse_image(bytes) {
        None => None,
        Some(image) => {
            let check = encode_image(&image);
            if check.len() == bytes.len() {
                let mut j: usize = 0;
                let mut same = true;
                while j < check.len()
                    invariant
                        j <= check@.len(),
                        check@.len() == bytes@.len(),
                        same == (forall|t: int| 0 <= t < j ==> check@[t] == bytes@[t]),
                    decreases check@.len() - j,
                {
                    if check[j] != bytes[j] {
                        same = false;
                    }
                    j = j + 1;
                }
                if same {
                    proof {
                        assert(check@ =~= bytes@);
                    }
                    Some(image)
                } else {
                    None
                }
            } else {
                None
            }
        },
    }
}

/// The bytes of the root metadata file: a presence flag and the identity
/// (zero when there is no root).
pub open spec fn root_meta_bytes(root: Option<u128>) -> Seq<u8> {
    match root {
        Some(id) => seq![1u8] + u128_bytes(id),
        None => seq![0u8] + u128_bytes(0),
    }
}

/// Serialize the root reference.
pub fn encode_root_meta(root: &Option<u128>) -> (r: Vec<u8>)
    ensures
        r@ == root_meta_bytes(*root),
{
    let mut out: Vec<u8> = Vec::new();
    match root {
        Some(id) => {
            out.push(1u8);
            push_u128(&mut out, *id);
        },
        None => {
            out.push(0u8);
            push_u128(&mut out, 0u128);
        },
    }
    proof {
        assert(out@ =~= root_meta_bytes(*root));
    }
    out
}

/// Decode the root reference. Succeeds exactly on canonical encodings and
/// returns the encoded value.
pub fn decode_root_meta(bytes: &Vec<u8>) -> (r: Option<Option<u128>>)
    ensures
        r is Some ==> root_meta_bytes(r.unwrap()) == bytes@,
        forall|o: Option<u128>| bytes@ == root_meta_bytes(o) ==> r == Some(o),
{
    if bytes.len() != 17 {
        proof {
            assert forall|o: Option<u128>| bytes@ != root_meta_bytes(o) by {
                assert(root_meta_bytes(o).len() == 17);
            }
        }
        return None;
    }
    let flag = bytes[0];
    let id = read_u128(bytes, 1);
    proof {
        assert forall|o: Option<u128>| bytes@ == root_meta_bytes(o) implies match o {
            Some(oid) => flag == 1 && id == oid,
            None => flag == 0 && id == 0,
        } by {
            match o {
                Some(oid) => {
                    lemma_u128_round_trip(oid);
                    assert(bytes@[0] == 1u8);
                    assert(bytes@.subrange(1, 17) =~= u128_bytes(oid));
                },
                None => {
                    lemma_u128_round_trip(0);
                    assert(bytes@[0] == 0u8);
                    assert(bytes@.subrange(1, 17) =~= u128_bytes(0));
                },
            }
        }
    }
    if flag == 1 {
        proof {
            lemma_u128_inverse(bytes@.subrange(1, 17));
            assert(bytes@ =~= root_meta_bytes(Some(id)));
        }
        Some(Some(id))
    } else if flag == 0 && id == 0 {
        proof {
            lemma_u128_inverse(bytes@.subrange(1, 17));
            assert(bytes@ =~= root_meta_bytes(None));
        }
        Some(None)
    } else {
        None
    }
}

/// Serialize a small integer (the order or the length): its eight bytes.
pub fn encode_u64_meta(x: u64) -> (r: Vec<u8>)
    ensures
        r@ == u64_bytes(x),
{
    let mut out: Vec<u8> = Vec::new();
    push_u64(&mut out, x);
    proof {
        assert(Seq::<u8>::empty() + u64_bytes(x) =~= u64_bytes(x));
    }
    out
}

/// Decode a small integer. Succeeds exactly on eight bytes and returns the
/// value they carry.
pub fn decode_u64_meta(bytes: &Vec<u8>) -> (r: Option<u64>)
    ensures
        r is Some ==> u64_bytes(r.unwrap()) == bytes@,
        forall|x: u64| bytes@ == u64_bytes(x) ==> r == Some(x),
{
    if bytes.len() != 8 {
        proof {
            assert forall|x: u64| bytes@ != u64_bytes(x) by {
                assert(u64_bytes(x).len() == 8);
            }
        }
        return None;
    }
    let v = read_u64(bytes, 0);
    proof {
        assert(bytes@.subrange(0, 8) =~= bytes@);
        lemma_u64_inverse(bytes@);
        assert forall|x: u64| bytes@ == u64_bytes(x) implies v == x by {
            lemma_u64_round_trip(x);
        }
    }
    Some(v)
}

} // verus!
