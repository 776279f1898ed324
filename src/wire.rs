//! Byte framing of word sequences through bincode.
//!
//! With bincode's default options a `Vec<u64>` is written as its length and
//! then each element, every one of them as eight little-endian bytes;
//! reading stops after the last element and ignores what follows.
use vstd::prelude::*;

verus! {

#[verifier::external_type_specification]
#[verifier::external_body]
pub struct ExBincodeErrorKind(bincode::ErrorKind);

/// The eight little-endian bytes of `x`.
pub open spec fn le_bytes(x: u64) -> Seq<u8> {
    seq![
        (x & 0xff) as u8,
        ((x >> 8u64) & 0xff) as u8,
        ((x >> 16u64) & 0xff) as u8,
        ((x >> 24u64) & 0xff) as u8,
        ((x >> 32u64) & 0xff) as u8,
        ((x >> 40u64) & 0xff) as u8,
        ((x >> 48u64) & 0xff) as u8,
        ((x >> 56u64) & 0xff) as u8,
    ]
}

proof fn lemma_le_bytes_injective(x: u64, y: u64)
    requires
        le_bytes(x) == le_bytes(y),
    ensures
        x == y,
{
    let a = le_bytes(x);
    let b = le_bytes(y);
    assert(a[0] == b[0] && a[1] == b[1] && a[2] == b[2] && a[3] == b[3]);
    assert(a[4] == b[4] && a[5] == b[5] && a[6] == b[6] && a[7] == b[7]);
    assert((x & 0xff) as u8 == (y & 0xff) as u8 ==> x & 0xff == y & 0xff) by (bit_vector);
    assert(((x >> 8u64) & 0xff) as u8 == ((y >> 8u64) & 0xff) as u8 ==> (x >> 8u64) & 0xff == (y >> 8u64) & 0xff) by (bit_vector);
    assert(((x >> 16u64) & 0xff) as u8 == ((y >> 16u64) & 0xff) as u8 ==> (x >> 16u64) & 0xff == (y >> 16u64) & 0xff) by (bit_vector);
    assert(((x >> 24u64) & 0xff) as u8 == ((y >> 24u64) & 0xff) as u8 ==> (x >> 24u64) & 0xff == (y >> 24u64) & 0xff) by (bit_vector);
    assert(((x >> 32u64) & 0xff) as u8 == ((y >> 32u64) & 0xff) as u8 ==> (x >> 32u64) & 0xff == (y >> 32u64) & 0xff) by (bit_vector);
    assert(((x >> 40u64) & 0xff) as u8 == ((y >> 40u64) & 0xff) as u8 ==> (x >> 40u64) & 0xff == (y >> 40u64) & 0xff) by (bit_vector);
    assert(((x >> 48u64) & 0xff) as u8 == ((y >> 48u64) & 0xff) as u8 ==> (x >> 48u64) & 0xff == (y >> 48u64) & 0xff) by (bit_vector);
    assert(((x >> 56u64) & 0xff) as u8 == ((y >> 56u64) & 0xff) as u8 ==> (x >> 56u64) & 0xff == (y >> 56u64) & 0xff) by (bit_vector);
    assert((x & 0xff == y & 0xff) && ((x >> 8u64) & 0xff == (y >> 8u64) & 0xff) && ((x >> 16u64) & 0xff == (y
        >> 16u64) & 0xff) && ((x >> 24u64) & 0xff == (y >> 24u64) & 0xff) && ((x >> 32u64) & 0xff == (y >> 32u64)
        & 0xff) && ((x >> 40u64) & 0xff == (y >> 40u64) & 0xff) && ((x >> 48u64) & 0xff == (y >> 48u64) & 0xff)
        && ((x >> 56u64) & 0xff == (y >> 56u64) & 0xff) ==> x == y) by (bit_vector);
}

proof fn lemma_le_words_injective(a: Seq<u64>, b: Seq<u64>)
    requires
        a.len() == b.len(),
        le_words(a) == le_words(b),
    ensures
        a == b,
    decreases a.len(),
{
    lemma_le_words_len(a);
    lemma_le_words_len(b);
    if a.len() > 0 {
        let pa = le_words(a.drop_last());
        let pb = le_words(b.drop_last());
        lemma_le_words_len(a.drop_last());
        lemma_le_words_len(b.drop_last());
        assert(le_words(a) == pa + le_bytes(a.last()));
        assert(le_words(b) == pb + le_bytes(b.last()));
        assert(pa =~= le_words(a).subrange(0, pa.len() as int));
        assert(pb =~= le_words(b).subrange(0, pb.len() as int));
        assert(le_bytes(a.last()) =~= le_words(a).subrange(pa.len() as int, le_words(a).len() as int));
        assert(le_bytes(b.last()) =~= le_words(b).subrange(pb.len() as int, le_words(b).len() as int));
        lemma_le_words_injective(a.drop_last(), b.drop_last());
        lemma_le_bytes_injective(a.last(), b.last());
        assert(a =~= a.drop_last().push(a.last()));
        assert(b =~= b.drop_last().push(b.last()));
    } else {
        assert(a =~= b);
    }
}

proof fn lemma_le_words_len(a: Seq<u64>)
    ensures
        le_words(a).len() == 8 * a.len(),
    decreases a.len(),
{
    if a.len() > 0 {
        lemma_le_words_len(a.drop_last());
    }
}

/// Two word sequences framed at the start of the same bytes are equal.
pub proof fn lemma_frame_unique(bytes: Seq<u8>, a: Seq<u64>, b: Seq<u64>)
    requires
        a.len() <= u64::MAX,
        b.len() <= u64::MAX,
        begins_with_frame(bytes, a),
        begins_with_frame(bytes, b),
    ensures
        a == b,
{
    let fa = framed(a);
    let fb = framed(b);
    lemma_le_words_len(a);
    lemma_le_words_len(b);
    assert(le_bytes(a.len() as u64) =~= fa.subrange(0, 8));
    assert(le_bytes(b.len() as u64) =~= fb.subrange(0, 8));
    assert(fa.subrange(0, 8) =~= bytes.subrange(0, 8));
    assert(fb.subrange(0, 8) =~= bytes.subrange(0, 8));
    lemma_le_bytes_injective(a.len() as u64, b.len() as u64);
    assert(fa =~= fb);
    assert(le_words(a) =~= fa.subrange(8, fa.len() as int));
    assert(le_words(b) =~= fb.subrange(8, fb.len() as int));
    lemma_le_words_injective(a, b);
}

/// The elements of `ws`, eight little-endian bytes each, in order.
pub open spec fn le_words(ws: Seq<u64>) -> Seq<u8>
    decreases ws.len(),
{
    if ws.len() == 0 {
        Seq::empty()
    } else {
        le_words(ws.drop_last()) + le_bytes(ws.last())
    }
}

/// bincode's bytes for a `Vec<u64>` holding `ws`.
pub open spec fn framed(ws: Seq<u64>) -> Seq<u8> {
    le_bytes(ws.len() as u64) + le_words(ws)
}

/// `bytes` starts with the frame of `ws`.
pub open spec fn begins_with_frame(bytes: Seq<u8>, ws: Seq<u64>) -> bool {
    bytes.len() >= framed(ws).len() && bytes.subrange(0, framed(ws).len() as int) == framed(ws)
}

/// Relies on bincode::serialize (default options: fixed-width integers,
/// little-endian, a `u64` length before a sequence, no size limit, written
/// into a `Vec`, so it cannot fail) to frame the words.
#[verifier::external_body]
pub(crate) fn encode_words(words: &Vec<u64>) -> (r: Result<Vec<u8>, Box<bincode::ErrorKind>>)
    ensures
        r is Ok,
        r matches Ok(b) ==> b@ == framed(words@),
{
    bincode::serialize(words)
}

/// Relies on bincode::deserialize (same options; bytes after the last
/// element are allowed) to read framed words back.
#[verifier::external_body]
pub(crate) fn decode_words(bytes: &[u8]) -> (r: Result<Vec<u64>, Box<bincode::ErrorKind>>)
    ensures
        r matches Ok(v) ==> begins_with_frame(bytes@, v@),
        (exists|ws: Seq<u64>| ws.len() <= usize::MAX && #[trigger] begins_with_frame(bytes@, ws)) ==> r is Ok,
{
    bincode::deserialize(bytes)
}

/// Relies on the `Display` of bincode::ErrorKind for a readable message.
#[verifier::external_body]
pub(crate) fn error_text(e: &Box<bincode::ErrorKind>) -> String {
    e.to_string()
}

} // verus!
