use crate::errors::Error;
use crate::metric::MAX_DIM;
use crate::store::ElementStore;
use crate::topology::{layer_cap, GraphTopology, MAX_LAYER};
use vstd::bytes::{
    lemma_auto_spec_u64_to_from_le_bytes, spec_u64_from_le_bytes, spec_u64_to_le_bytes,
    u64_from_le_bytes, u64_to_le_bytes,
};
use vstd::prelude::*;
use vstd::slice::slice_subrange;

verus! {

/// Format tag of the topology byte stream.
pub const TOPOLOGY_VERSION: u64 = 1;

/// Format tag of the elements byte stream.
pub const ELEMENTS_VERSION: u64 = 1;

/// Scalar-type tag of fixed-point 32-bit scalars.
pub const SCALAR_TAG_I32: u64 = 1;

// ---------------------------------------------------------------------------
// word layer: a sequence of u64 words as fixed-width little-endian bytes
// ---------------------------------------------------------------------------

/// The little-endian byte stream of a word sequence.
pub open spec fn words_to_bytes(ws: Seq<u64>) -> Seq<u8>
    decreases ws.len(),
{
    if ws.len() == 0 {
        Seq::empty()
    } else {
        spec_u64_to_le_bytes(ws[0]) + words_to_bytes(ws.drop_first())
    }
}

/// Eight bytes per word.
pub proof fn lemma_words_to_bytes_len(ws: Seq<u64>)
    ensures
        words_to_bytes(ws).len() == 8 * ws.len(),
    decreases ws.len(),
{
    lemma_auto_spec_u64_to_from_le_bytes();
    if ws.len() > 0 {
        lemma_words_to_bytes_len(ws.drop_first());
    }
}

/// The byte stream of a concatenation is the concatenation of the streams.
pub proof fn lemma_words_to_bytes_app(a: Seq<u64>, b: Seq<u64>)
    ensures
        words_to_bytes(a + b) == words_to_bytes(a) + words_to_bytes(b),
    decreases a.len(),
{
    if a.len() == 0 {
        assert(a + b =~= b);
        assert(words_to_bytes(a) + words_to_bytes(b) =~= words_to_bytes(b));
    } else {
        lemma_words_to_bytes_app(a.drop_first(), b);
        assert((a + b).drop_first() =~= a.drop_first() + b);
        assert((a + b)[0] == a[0]);
        assert(spec_u64_to_le_bytes(a[0]) + (words_to_bytes(a.drop_first()) + words_to_bytes(b))
            =~= (spec_u64_to_le_bytes(a[0]) + words_to_bytes(a.drop_first())) + words_to_bytes(b));
    }
}

/// Appending one word appends its eight bytes.
pub proof fn lemma_words_to_bytes_snoc(s: Seq<u64>, w: u64)
    ensures
        words_to_bytes(s.push(w)) == words_to_bytes(s) + spec_u64_to_le_bytes(w),
{
    lemma_words_to_bytes_app(s, seq![w]);
    assert(s.push(w) =~= s + seq![w]);
    assert(seq![w].drop_first() =~= Seq::<u64>::empty());
    assert(seq![w][0] == w);
    assert(words_to_bytes(Seq::<u64>::empty()) == Seq::<u8>::empty());
    assert(spec_u64_to_le_bytes(w) + Seq::<u8>::empty() =~= spec_u64_to_le_bytes(w));
    assert(words_to_bytes(seq![w]) =~= spec_u64_to_le_bytes(w));
}

/// Two word sequences with one byte stream are one word sequence.
pub proof fn lemma_words_to_bytes_injective(a: Seq<u64>, b: Seq<u64>)
    requires
        words_to_bytes(a) == words_to_bytes(b),
    ensures
        a == b,
    decreases a.len(),
{
    lemma_words_to_bytes_len(a);
    lemma_words_to_bytes_len(b);
    lemma_auto_spec_u64_to_from_le_bytes();
    if a.len() == 0 {
        assert(a =~= b);
    } else {
        let wa = words_to_bytes(a);
        assert(spec_u64_to_le_bytes(a[0]) =~= wa.subrange(0, 8));
        assert(spec_u64_to_le_bytes(b[0]) =~= wa.subrange(0, 8));
        assert(spec_u64_from_le_bytes(spec_u64_to_le_bytes(a[0])) == a[0]);
        assert(spec_u64_from_le_bytes(spec_u64_to_le_bytes(b[0])) == b[0]);
        assert(words_to_bytes(a.drop_first()) =~= wa.subrange(8, wa.len() as int));
        assert(words_to_bytes(b.drop_first()) =~= wa.subrange(8, wa.len() as int));
        lemma_words_to_bytes_injective(a.drop_first(), b.drop_first());
        assert(a =~= b) by {
            assert forall|i: int| 0 <= i < a.len() implies a[i] == b[i] by {
                if i > 0 {
                    assert(a[i] == a.drop_first()[i - 1]);
                    assert(b[i] == b.drop_first()[i - 1]);
                }
            }
        }
    }
}

/// Serializes a word sequence as little-endian bytes.
#[verifier::loop_isolation(false)]
pub fn encode_words(ws: &Vec<u64>) -> (r: Vec<u8>)
    ensures
        r@ == words_to_bytes(ws@),
{
    let mut r: Vec<u8> = Vec::new();
    proof {
        assert(ws@.subrange(0, 0) =~= Seq::<u64>::empty());
    }
    let mut i: usize = 0;
    while i < ws.len()
        invariant
            i <= ws@.len(),
            r@ == words_to_bytes(ws@.subrange(0, i as int)),
        decreases ws@.len() - i,
    {
        let mut bs = u64_to_le_bytes(ws[i]);
        r.append(&mut bs);
        proof {
            lemma_words_to_bytes_snoc(ws@.subrange(0, i as int), ws@[i as int]);
            assert(ws@.subrange(0, i as int).push(ws@[i as int]) =~= ws@.subrange(0, i + 1));
        }
        i = i + 1;
    }
    proof {
        assert(ws@.subrange(0, ws@.len() as int) =~= ws@);
    }
    r
}

/// Parses little-endian bytes back into words; fails exactly on a length
/// that is no multiple of eight.
#[verifier::loop_isolation(false)]
pub fn decode_words(bs: &[u8]) -> (r: Option<Vec<u64>>)
    ensures
        r matches Some(ws) ==> words_to_bytes(ws@) == bs@,
        r is Some <==> bs@.len() % 8 == 0,
{
    let n = bs.len();
    if n % 8 != 0 {
        return None;
    }
    let mut ws: Vec<u64> = Vec::new();
    proof {
        assert(bs@.subrange(0, 0) =~= Seq::<u8>::empty());
    }
    let mut off: usize = 0;
    while off < n
        invariant
            off <= n,
            off % 8 == 0,
            words_to_bytes(ws@) == bs@.subrange(0, off as int),
        decreases n - off,
    {
        proof {
            assert(off + 8 <= n) by (nonlinear_arith)
                requires
                    off % 8 == 0,
                    n % 8 == 0,
                    off < n,
            ;
        }
        let chunk = slice_subrange(bs, off, off + 8);
        let w = u64_from_le_bytes(chunk);
        let ghost pre = ws@;
        ws.push(w);
        proof {
            lemma_auto_spec_u64_to_from_le_bytes();
            lemma_words_to_bytes_snoc(pre, w);
            assert(spec_u64_to_le_bytes(w) == bs@.subrange(off as int, off + 8));
            assert(bs@.subrange(0, off as int) + bs@.subrange(off as int, off + 8) =~= bs@.subrange(
                0,
                off + 8,
            ));
        }
        off = off + 8;
    }
    proof {
        assert(bs@.subrange(0, n as int) =~= bs@);
    }
    Some(ws)
}

/// A word-aligned stream long enough to carry an elements header whose
/// version word is not the supported elements tag.
pub open spec fn elements_version_mismatch(bs: Seq<u8>) -> bool {
    bs.len() % 8 == 0 && bs.len() >= 32 && spec_u64_from_le_bytes(bs.subrange(0, 8))
        != ELEMENTS_VERSION
}

/// A word-aligned stream long enough to carry a topology header whose
/// version word is not the supported topology tag.
pub open spec fn topology_version_mismatch(bs: Seq<u8>) -> bool {
    bs.len() % 8 == 0 && bs.len() >= 40 && spec_u64_from_le_bytes(bs.subrange(0, 8))
        != TOPOLOGY_VERSION
}

/// The first word of a stream is its first eight bytes.
proof fn lemma_first_word(ws: Seq<u64>, bs: Seq<u8>)
    requires
        words_to_bytes(ws) == bs,
        ws.len() >= 1,
    ensures
        spec_u64_from_le_bytes(bs.subrange(0, 8)) == ws[0],
{
    lemma_auto_spec_u64_to_from_le_bytes();
    assert(spec_u64_to_le_bytes(ws[0]) =~= bs.subrange(0, 8));
}

// ---------------------------------------------------------------------------
// elements: header {version, scalar tag, dimension, count}, then each
// vector's scalars in fixed width and fixed order
// ---------------------------------------------------------------------------

/// One scalar as its 64-bit two's-complement word.
pub open spec fn scalar_word(x: i32) -> u64 {
    if x >= 0 {
        x as u64
    } else {
        (x + 0x1_0000_0000_0000_0000) as u64
    }
}

/// The words of one vector.
pub open spec fn row_words(row: Seq<i32>) -> Seq<u64> {
    Seq::new(row.len(), |i: int| scalar_word(row[i]))
}

/// The words of all vectors, in store order.
pub open spec fn rows_words(rows: Seq<Seq<i32>>) -> Seq<u64>
    decreases rows.len(),
{
    if rows.len() == 0 {
        Seq::empty()
    } else {
        row_words(rows[0]) + rows_words(rows.drop_first())
    }
}

/// The word stream of an element store.
pub open spec fn elements_words(dim: nat, rows: Seq<Seq<i32>>) -> Seq<u64> {
    seq![ELEMENTS_VERSION, SCALAR_TAG_I32, dim as u64, rows.len() as u64] + rows_words(rows)
}

/// The byte stream of an element store.
pub open spec fn elements_bytes(s: ElementStore) -> Seq<u8> {
    words_to_bytes(elements_words(s.dim as nat, s@))
}

/// Appending one row appends its words.
pub proof fn lemma_rows_words_snoc(rows: Seq<Seq<i32>>, row: Seq<i32>)
    ensures
        rows_words(rows.push(row)) == rows_words(rows) + row_words(row),
    decreases rows.len(),
{
    if rows.len() == 0 {
        assert(rows.push(row)[0] == row);
        assert(rows.push(row).drop_first() =~= Seq::<Seq<i32>>::empty());
        assert(rows_words(rows) + row_words(row) =~= row_words(row));
        assert(row_words(row) + rows_words(Seq::<Seq<i32>>::empty()) =~= row_words(row));
    } else {
        lemma_rows_words_snoc(rows.drop_first(), row);
        assert(rows.push(row)[0] == rows[0]);
        assert(rows.push(row).drop_first() =~= rows.drop_first().push(row));
        assert(row_words(rows[0]) + (rows_words(rows.drop_first()) + row_words(row)) =~= (row_words(
            rows[0],
        ) + rows_words(rows.drop_first())) + row_words(row));
    }
}

/// Equal-length rows with one word stream are one row.
pub proof fn lemma_rows_words_injective(a: Seq<Seq<i32>>, b: Seq<Seq<i32>>, dim: nat)
    requires
        rows_words(a) == rows_words(b),
        a.len() == b.len(),
        forall|i: int| 0 <= i < a.len() ==> (#[trigger] a[i]).len() == dim,
        forall|i: int| 0 <= i < b.len() ==> (#[trigger] b[i]).len() == dim,
    ensures
        a == b,
    decreases a.len(),
{
    if a.len() > 0 {
        let wa = rows_words(a);
        assert(row_words(a[0]).len() == dim);
        assert(row_words(b[0]).len() == dim);
        assert(a[0] =~= b[0]) by {
            assert forall|i: int| 0 <= i < dim implies a[0][i] == b[0][i] by {
                assert(wa[i] == row_words(a[0])[i]);
                assert(wa[i] == row_words(b[0])[i]);
                assert(scalar_word(a[0][i]) == scalar_word(b[0][i]));
            }
        }
        assert(rows_words(a.drop_first()) =~= wa.subrange(dim as int, wa.len() as int));
        assert(rows_words(b.drop_first()) =~= wa.subrange(dim as int, wa.len() as int));
        lemma_rows_words_injective(a.drop_first(), b.drop_first(), dim);
        assert(a =~= b) by {
            assert forall|i: int| 0 <= i < a.len() implies a[i] == b[i] by {
                if i > 0 {
                    assert(a[i] == a.drop_first()[i - 1]);
                    assert(b[i] == b.drop_first()[i - 1]);
                }
            }
        }
    } else {
        assert(a =~= b);
    }
}

/// Two well-formed stores with one byte stream are one store.  Together
/// with `load_elements`, this pins the persistence round trip: whatever a
/// load of saved bytes returns is the saved store.
pub proof fn lemma_elements_bytes_injective(s1: ElementStore, s2: ElementStore)
    requires
        s1.wf(),
        s2.wf(),
        s1@.len() <= usize::MAX,
        s2@.len() <= usize::MAX,
        elements_bytes(s1) == elements_bytes(s2),
    ensures
        s1.dim == s2.dim,
        s1@ == s2@,
{
    lemma_words_to_bytes_injective(
        elements_words(s1.dim as nat, s1@),
        elements_words(s2.dim as nat, s2@),
    );
    let w1 = elements_words(s1.dim as nat, s1@);
    assert(w1[2] == s1.dim as u64 && w1[2] == s2.dim as u64);
    assert(w1[3] == s1@.len() as u64 && w1[3] == s2@.len() as u64);
    assert(s1@.len() == s2@.len());
    assert(rows_words(s1@) =~= w1.subrange(4, w1.len() as int));
    assert(rows_words(s2@) =~= w1.subrange(4, w1.len() as int));
    lemma_rows_words_injective(s1@, s2@, s1.dim as nat);
}

/// Turns one scalar into its word.
pub fn scalar_to_word(x: i32) -> (w: u64)
    ensures
        w == scalar_word(x),
{
    if x >= 0 {
        x as u64
    } else {
        ((x as i128) + 0x1_0000_0000_0000_0000i128) as u64
    }
}

/// Turns one word back into its scalar; fails on a word outside the 64-bit
/// two's-complement image of `i32`.
pub fn word_to_scalar(w: u64) -> (r: Result<i32, Error>)
    ensures
        r matches Ok(x) ==> scalar_word(x) == w,
        r is Ok <==> (w <= 0x7fff_ffff || w >= 0xffff_ffff_8000_0000),
        r is Err ==> r == Err::<i32, Error>(Error::CorruptData),
{
    if w <= 0x7fff_ffff {
        Ok(w as i32)
    } else if w >= 0xffff_ffff_8000_0000 {
        let x = ((w as i128) - 0x1_0000_0000_0000_0000i128) as i32;
        proof {
            assert((w as i128) - 0x1_0000_0000_0000_0000i128 >= -0x8000_0000);
            assert((w as i128) - 0x1_0000_0000_0000_0000i128 <= -1);
        }
        Ok(x)
    } else {
        Err(Error::CorruptData)
    }
}

/// Serializes a store: header {version, scalar tag, dimension, count}
/// followed by every vector's scalars, fixed-width, in order.
#[verifier::loop_isolation(false)]
pub fn encode_elements(s: &ElementStore) -> (r: Vec<u8>)
    requires
        s.wf(),
    ensures
        r@ == elements_bytes(*s),
{
    let count = s.len();
    let mut ws: Vec<u64> = Vec::new();
    ws.push(ELEMENTS_VERSION);
    ws.push(SCALAR_TAG_I32);
    ws.push(s.dim as u64);
    ws.push(count as u64);
    let ghost header = seq![ELEMENTS_VERSION, SCALAR_TAG_I32, s.dim as u64, count as u64];
    proof {
        assert(ws@ =~= header);
        assert(s@.subrange(0, 0) =~= Seq::<Seq<i32>>::empty());
        assert(header + rows_words(s@.subrange(0, 0)) =~= header);
    }
    let mut e: usize = 0;
    while e < count
        invariant
            e <= count,
            ws@ == header + rows_words(s@.subrange(0, e as int)),
        decreases count - e,
    {
        let row = s.get(e);
        let ghost base = ws@;
        let mut j: usize = 0;
        while j < row.len()
            invariant
                j <= row@.len(),
                row@ == s@[e as int],
                ws@ == base + Seq::new(j as nat, |x: int| scalar_word(row@[x])),
            decreases row@.len() - j,
        {
            ws.push(scalar_to_word(row[j]));
            proof {
                assert(ws@ =~= base + Seq::new((j + 1) as nat, |x: int| scalar_word(row@[x])));
            }
            j = j + 1;
        }
        proof {
            assert(Seq::new(row@.len(), |x: int| scalar_word(row@[x])) =~= row_words(
                s@[e as int],
            ));
            lemma_rows_words_snoc(s@.subrange(0, e as int), s@[e as int]);
            assert(s@.subrange(0, e as int).push(s@[e as int]) =~= s@.subrange(0, e + 1));
        }
        e = e + 1;
    }
    proof {
        assert(s@.subrange(0, count as int) =~= s@);
    }
    encode_words(&ws)
}


/// Some well-formed store serializes to exactly these bytes.
pub open spec fn some_store_encodes(bs: Seq<u8>) -> bool {
    exists|s2: ElementStore|
        s2.wf() && s2@.len() <= usize::MAX && bs == elements_bytes(s2)
}

/// On an encoded stream, every check of `load_elements` passes: the header
/// is the expected one, the length adds up, and every scalar word lies in
/// the two's-complement image of `i32`.
proof fn lemma_encoded_words_pass_checks(bs: Seq<u8>, ws: Seq<u64>)
    requires
        some_store_encodes(bs),
        words_to_bytes(ws) == bs,
    ensures
        ws.len() >= 4,
        ws[0] == ELEMENTS_VERSION,
        ws[1] == SCALAR_TAG_I32,
        ws[2] <= MAX_DIM as u64,
        ws[3] <= usize::MAX as u64,
        ws.len() == 4 + (ws[3] as int) * (ws[2] as int),
        forall|e: int, j: int|
            0 <= e < ws[3] && 0 <= j < ws[2] ==> ((#[trigger] ws[4 + e * (ws[2] as int) + j])
                <= 0x7fff_ffff || ws[4 + e * (ws[2] as int) + j] >= 0xffff_ffff_8000_0000),
{
    let s2 = choose|s2: ElementStore| s2.wf() && s2@.len() <= usize::MAX && bs == elements_bytes(s2);
    lemma_words_to_bytes_injective(ws, elements_words(s2.dim as nat, s2@));
    lemma_elements_words_shape(s2);
    assert forall|e: int, j: int|
        0 <= e < ws[3] && 0 <= j < ws[2] implies ((#[trigger] ws[4 + e * (ws[2] as int) + j])
        <= 0x7fff_ffff || ws[4 + e * (ws[2] as int) + j] >= 0xffff_ffff_8000_0000) by {
        assert(ws[4 + e * (ws[2] as int) + j] == scalar_word(s2@[e][j]));
        let x = s2@[e][j];
        if x >= 0 {
            assert(scalar_word(x) <= 0x7fff_ffff);
        } else {
            assert(scalar_word(x) >= 0xffff_ffff_8000_0000);
        }
    }
}

/// Parses a store back from bytes.  Whatever it accepts re-serializes to
/// exactly the input; headers inconsistent with the byte length fail
/// `CorruptData`, an alien format tag fails `VersionMismatch`.
#[verifier::loop_isolation(false)]
pub fn load_elements(bs: &[u8]) -> (r: Result<ElementStore, Error>)
    ensures
        r matches Ok(s) ==> s.wf() && elements_bytes(s) == bs@,
        r matches Err(err) ==> (err == Error::CorruptData || err == Error::VersionMismatch),
        some_store_encodes(bs@) ==> r is Ok,
        r == Err::<ElementStore, Error>(Error::VersionMismatch) <==> elements_version_mismatch(
            bs@,
        ),
{
    let ws = match decode_words(bs) {
        Some(ws) => ws,
        None => {
            proof {
                if some_store_encodes(bs@) {
                    let s2 = choose|s2: ElementStore|
                        s2.wf() && s2@.len() <= usize::MAX && bs@ == elements_bytes(s2);
                    lemma_words_to_bytes_len(elements_words(s2.dim as nat, s2@));
                    assert(false);
                }
            }
            return Err(Error::CorruptData);
        },
    };
    proof {
        lemma_words_to_bytes_len(ws@);
        if ws@.len() >= 1 {
            lemma_first_word(ws@, bs@);
        }
        if some_store_encodes(bs@) {
            lemma_encoded_words_pass_checks(bs@, ws@);
        }
    }
    if ws.len() < 4 {
        proof {
            if some_store_encodes(bs@) {
                lemma_encoded_words_pass_checks(bs@, ws@);
                assert(false);
            }
        }
        return Err(Error::CorruptData);
    }
    if ws[0] != ELEMENTS_VERSION {
        proof {
            if some_store_encodes(bs@) {
                lemma_encoded_words_pass_checks(bs@, ws@);
                assert(false);
            }
        }
        return Err(Error::VersionMismatch);
    }
    if ws[1] != SCALAR_TAG_I32 {
        proof {
            if some_store_encodes(bs@) {
                lemma_encoded_words_pass_checks(bs@, ws@);
                assert(false);
            }
        }
        return Err(Error::CorruptData);
    }
    if ws[2] > MAX_DIM as u64 {
        proof {
            if some_store_encodes(bs@) {
                lemma_encoded_words_pass_checks(bs@, ws@);
                assert(false);
            }
        }
        return Err(Error::CorruptData);
    }
    let dim = ws[2] as usize;
    if ws[3] > usize::MAX as u64 {
        proof {
            if some_store_encodes(bs@) {
                lemma_encoded_words_pass_checks(bs@, ws@);
                assert(false);
            }
        }
        return Err(Error::CorruptData);
    }
    let count = ws[3] as usize;
    proof {
        assert((count as u128) * (dim as u128) <= 0xffff_ffff_ffff_ffff * 0x10_0000)
            by (nonlinear_arith)
            requires
                count <= 0xffff_ffff_ffff_ffff,
                dim <= 0x10_0000,
        ;
    }
    let expected: u128 = 4u128 + (count as u128) * (dim as u128);
    if (ws.len() as u128) != expected {
        proof {
            if some_store_encodes(bs@) {
                lemma_encoded_words_pass_checks(bs@, ws@);
                assert((count as u128) * (dim as u128) == (count as int) * (dim as int))
                    by (nonlinear_arith)
                    requires
                        count >= 0,
                        dim >= 0,
                ;
                assert(false);
            }
        }
        return Err(Error::CorruptData);
    }
    let mut s = ElementStore::new(dim);
    let ghost header = seq![ELEMENTS_VERSION, SCALAR_TAG_I32, dim as u64, count as u64];
    proof {
        assert(s@.subrange(0, 0) =~= Seq::<Seq<i32>>::empty());
        assert(header + rows_words(s@.subrange(0, 0)) =~= header);
        assert(header =~= ws@.subrange(0, 4));
    }
    let mut e: usize = 0;
    let mut cursor: usize = 4;
    while e < count
        invariant
            e <= count,
            cursor == 4 + e * dim,
            cursor <= ws@.len(),
            ws@.len() == 4 + count * dim,
            s.wf(),
            s.dim == dim,
            s@.len() == e,
            header + rows_words(s@) == ws@.subrange(0, cursor as int),
        decreases count - e,
    {
        proof {
            assert(cursor + dim <= ws@.len()) by (nonlinear_arith)
                requires
                    cursor == 4 + e * dim,
                    ws@.len() == 4 + count * dim,
                    e < count,
            ;
        }
        let mut row: Vec<i32> = Vec::new();
        let mut j: usize = 0;
        while j < dim
            invariant
                j <= dim,
                row@.len() == j,
                cursor + dim <= ws@.len(),
                Seq::new(j as nat, |x: int| scalar_word(row@[x])) == ws@.subrange(
                    cursor as int,
                    cursor + j,
                ),
            decreases dim - j,
        {
            let w = ws[cursor + j];
            let x = match word_to_scalar(w) {
                Ok(x) => x,
                Err(err) => {
                    proof {
                        if some_store_encodes(bs@) {
                            lemma_encoded_words_pass_checks(bs@, ws@);
                            assert(ws@[4 + (e as int) * (dim as int) + (j as int)] <= 0x7fff_ffff
                                || ws@[4 + (e as int) * (dim as int) + (j as int)]
                                >= 0xffff_ffff_8000_0000);
                            assert(false);
                        }
                    }
                    return Err(err);
                },
            };
            row.push(x);
            proof {
                assert(Seq::new((j + 1) as nat, |x2: int| scalar_word(row@[x2])) =~= ws@.subrange(
                    cursor as int,
                    cursor + j + 1,
                ));
            }
            j = j + 1;
        }
        let ghost grow = row@;
        let ghost pre_rows = s@;
        s.push(row);
        proof {
            assert(row_words(grow) =~= ws@.subrange(cursor as int, cursor + dim as int));
            lemma_rows_words_snoc(pre_rows, grow);
            assert(s@ =~= pre_rows.push(grow));
            assert(header + rows_words(s@) =~= ws@.subrange(0, cursor + dim as int)) by {
                assert(header + rows_words(pre_rows) + row_words(grow) =~= ws@.subrange(
                    0,
                    cursor + dim as int,
                ));
            }
        }
        proof {
            assert(cursor + dim == 4 + (e + 1) * dim) by (nonlinear_arith)
                requires
                    cursor == 4 + e * dim,
            ;
        }
        cursor = cursor + dim;
        e = e + 1;
    }
    proof {
        assert(cursor == ws@.len()) by (nonlinear_arith)
            requires
                cursor == 4 + e * dim,
                ws@.len() == 4 + count * dim,
                e == count,
        ;
        assert(ws@.subrange(0, ws@.len() as int) =~= ws@);
        assert(elements_words(s.dim as nat, s@) == header + rows_words(s@)) by {
            assert(s@.len() == count);
            assert(elements_words(s.dim as nat, s@) =~= header + rows_words(s@));
        }
    }
    Ok(s)
}


// ---------------------------------------------------------------------------
// topology: header {version, m, entry point, max layer, count}, then per
// element its top layer and, per layer, a length-prefixed neighbour list
// ---------------------------------------------------------------------------

/// One less, clipped at zero.
pub open spec fn sub_one(n: nat) -> u64 {
    if n > 0 {
        (n - 1) as u64
    } else {
        0
    }
}

/// The words of one neighbour list: its length, then its entries.
pub open spec fn list_words(l: Seq<usize>) -> Seq<u64> {
    seq![l.len() as u64] + Seq::new(l.len(), |i: int| l[i] as u64)
}

/// The words of a run of neighbour lists.
pub open spec fn lists_words(ls: Seq<Seq<usize>>) -> Seq<u64>
    decreases ls.len(),
{
    if ls.len() == 0 {
        Seq::empty()
    } else {
        list_words(ls[0]) + lists_words(ls.drop_first())
    }
}

/// The words of a run of elements: per element its top layer, then its
/// per-layer lists.
pub open spec fn elems_words(ns: Seq<Seq<Seq<usize>>>) -> Seq<u64>
    decreases ns.len(),
{
    if ns.len() == 0 {
        Seq::empty()
    } else {
        seq![sub_one(ns[0].len())] + lists_words(ns[0]) + elems_words(ns.drop_first())
    }
}

/// The topology header words.
pub open spec fn topo_header(t: GraphTopology, count: nat) -> Seq<u64> {
    seq![TOPOLOGY_VERSION, t.m as u64, t.entry_point as u64, t.max_layer as u64, count as u64]
}

/// The word stream of a topology.
pub open spec fn topology_words(t: GraphTopology, count: nat) -> Seq<u64> {
    topo_header(t, count) + elems_words(t.nbrs())
}

/// The byte stream of a topology.
pub open spec fn topology_bytes(t: GraphTopology, count: nat) -> Seq<u8> {
    words_to_bytes(topology_words(t, count))
}

/// Appending one list appends its words.
pub proof fn lemma_lists_words_snoc(s: Seq<Seq<usize>>, x: Seq<usize>)
    ensures
        lists_words(s.push(x)) == lists_words(s) + list_words(x),
    decreases s.len(),
{
    if s.len() == 0 {
        assert(s.push(x)[0] == x);
        assert(s.push(x).drop_first() =~= Seq::<Seq<usize>>::empty());
        assert(lists_words(s) + list_words(x) =~= list_words(x));
        assert(list_words(x) + lists_words(Seq::<Seq<usize>>::empty()) =~= list_words(x));
    } else {
        lemma_lists_words_snoc(s.drop_first(), x);
        assert(s.push(x)[0] == s[0]);
        assert(s.push(x).drop_first() =~= s.drop_first().push(x));
        assert(list_words(s[0]) + (lists_words(s.drop_first()) + list_words(x)) =~= (list_words(
            s[0],
        ) + lists_words(s.drop_first())) + list_words(x));
    }
}

/// Appending one element appends its words.
pub proof fn lemma_elems_words_snoc(s: Seq<Seq<Seq<usize>>>, x: Seq<Seq<usize>>)
    ensures
        elems_words(s.push(x)) == elems_words(s) + (seq![sub_one(x.len())] + lists_words(x)),
    decreases s.len(),
{
    if s.len() == 0 {
        assert(s.push(x)[0] == x);
        assert(s.push(x).drop_first() =~= Seq::<Seq<Seq<usize>>>::empty());
        assert(elems_words(Seq::<Seq<Seq<usize>>>::empty()) == Seq::<u64>::empty());
        assert(seq![sub_one(x.len())] + lists_words(x) + Seq::<u64>::empty() =~= seq![
            sub_one(x.len()),
        ] + lists_words(x));
        assert(elems_words(s) + (seq![sub_one(x.len())] + lists_words(x)) =~= seq![
            sub_one(x.len()),
        ] + lists_words(x));
    } else {
        lemma_elems_words_snoc(s.drop_first(), x);
        assert(s.push(x)[0] == s[0]);
        assert(s.push(x).drop_first() =~= s.drop_first().push(x));
        assert(seq![sub_one(s[0].len())] + lists_words(s[0]) + (elems_words(s.drop_first()) + (seq![
            sub_one(x.len()),
        ] + lists_words(x))) =~= (seq![sub_one(s[0].len())] + lists_words(s[0]) + elems_words(
            s.drop_first(),
        )) + (seq![sub_one(x.len())] + lists_words(x)));
    }
}

/// Pushes the words of one list.
#[verifier::loop_isolation(false)]
fn push_list_words(ws: &mut Vec<u64>, l: &Vec<usize>)
    ensures
        final(ws)@ == old(ws)@ + list_words(l@),
{
    let ghost base = old(ws)@;
    ws.push(l.len() as u64);
    proof {
        assert(ws@ =~= base + seq![l@.len() as u64] + Seq::new(0 as nat, |x: int| l@[x] as u64));
    }
    let mut j: usize = 0;
    while j < l.len()
        invariant
            j <= l@.len(),
            ws@ == base + seq![l@.len() as u64] + Seq::new(j as nat, |x: int| l@[x] as u64),
        decreases l@.len() - j,
    {
        ws.push(l[j] as u64);
        proof {
            assert(ws@ =~= base + seq![l@.len() as u64] + Seq::new(
                (j + 1) as nat,
                |x: int| l@[x] as u64,
            ));
        }
        j = j + 1;
    }
    proof {
        assert(ws@ =~= base + list_words(l@));
    }
}

/// Serializes a topology: header {version, m, entry point, max layer,
/// count} followed by, per element, its top layer and its length-prefixed
/// neighbour lists.
#[verifier::loop_isolation(false)]
pub fn encode_topology(t: &GraphTopology, count: usize) -> (r: Vec<u8>)
    requires
        t.wf(count as nat),
    ensures
        r@ == topology_bytes(*t, count as nat),
{
    let mut ws: Vec<u64> = Vec::new();
    ws.push(TOPOLOGY_VERSION);
    ws.push(t.m as u64);
    ws.push(t.entry_point as u64);
    ws.push(t.max_layer as u64);
    ws.push(count as u64);
    let ghost header = topo_header(*t, count as nat);
    proof {
        assert(ws@ =~= header);
        assert(t.nbrs().subrange(0, 0) =~= Seq::<Seq<Seq<usize>>>::empty());
        assert(header + elems_words(t.nbrs().subrange(0, 0)) =~= header);
    }
    let mut e: usize = 0;
    while e < count
        invariant
            e <= count,
            ws@ == header + elems_words(t.nbrs().subrange(0, e as int)),
        decreases count - e,
    {
        proof {
            assert(t.neighbors@.len() == t.nbrs().len());
        }
        let le = t.layers[e];
        ws.push(le as u64);
        let ghost base_e = ws@;
        let row = &t.neighbors[e];
        proof {
            assert(row.deep_view() == t.nbrs()[e as int]);
            assert(row@.len() == row.deep_view().len());
            assert(t.nbrs()[e as int].subrange(0, 0) =~= Seq::<Seq<usize>>::empty());
            assert(base_e + lists_words(t.nbrs()[e as int].subrange(0, 0)) =~= base_e);
        }
        let mut l: usize = 0;
        while l < row.len()
            invariant
                l <= row@.len(),
                ws@ == base_e + lists_words(t.nbrs()[e as int].subrange(0, l as int)),
            decreases row@.len() - l,
        {
            let cell = &row[l];
            proof {
                assert(cell.deep_view() =~= cell@);
                assert(cell@ == t.nbrs()[e as int][l as int]);
            }
            push_list_words(&mut ws, cell);
            proof {
                lemma_lists_words_snoc(
                    t.nbrs()[e as int].subrange(0, l as int),
                    t.nbrs()[e as int][l as int],
                );
                assert(t.nbrs()[e as int].subrange(0, l as int).push(t.nbrs()[e as int][l as int])
                    =~= t.nbrs()[e as int].subrange(0, l + 1));
            }
            l = l + 1;
        }
        proof {
            assert(t.nbrs()[e as int].subrange(0, row@.len() as int) =~= t.nbrs()[e as int]);
            assert(t.nbrs()[e as int].len() == t.layers@[e as int] + 1);
            assert(le as u64 == sub_one(t.nbrs()[e as int].len()));
            lemma_elems_words_snoc(t.nbrs().subrange(0, e as int), t.nbrs()[e as int]);
            assert(t.nbrs().subrange(0, e as int).push(t.nbrs()[e as int]) =~= t.nbrs().subrange(
                0,
                e + 1,
            ));
            assert(ws@ =~= header + elems_words(t.nbrs().subrange(0, e + 1)));
        }
        e = e + 1;
    }
    proof {
        assert(t.nbrs().subrange(0, count as int) =~= t.nbrs());
    }
    encode_words(&ws)
}


/// Parses a topology back from bytes.  Whatever it accepts is well-formed
/// and re-serializes to exactly the input; headers inconsistent with the
/// byte length fail `CorruptData`, an alien format tag fails
/// `VersionMismatch`.
#[verifier::loop_isolation(false)]
#[verifier::rlimit(100)]
#[verifier::spinoff_prover]
pub fn load_topology(bs: &[u8]) -> (r: Result<GraphTopology, Error>)
    ensures
        r matches Ok(t) ==> t.wf(t.layers@.len()) && topology_bytes(t, t.layers@.len()) == bs@,
        r matches Err(err) ==> (err == Error::CorruptData || err == Error::VersionMismatch),
        some_topology_encodes(bs@) ==> r is Ok,
        r == Err::<GraphTopology, Error>(Error::VersionMismatch) <==> topology_version_mismatch(
            bs@,
        ),
{
    let ws = match decode_words(bs) {
        Some(ws) => ws,
        None => {
            proof {
                if some_topology_encodes(bs@) {
                    reveal(some_topology_encodes);
                    let (t2, c2) = witness_topology(bs@);
                    assert(t2.wf(c2) && c2 <= usize::MAX && bs@ == topology_bytes(t2, c2));
                    lemma_words_to_bytes_len(topology_words(t2, c2));
                    assert(false);
                }
            }
            return Err(Error::CorruptData);
        },
    };
    proof {
        lemma_words_to_bytes_len(ws@);
        if ws@.len() >= 1 {
            lemma_first_word(ws@, bs@);
        }
        if some_topology_encodes(bs@) {
            lemma_encoded_topo_header(bs@, ws@);
        }
    }
    if ws.len() < 5 {
        proof {
            assert(!topology_version_mismatch(bs@));
            if some_topology_encodes(bs@) {
                lemma_encoded_topo_header(bs@, ws@);
                assert(false);
            }
        }
        return Err(Error::CorruptData);
    }
    if ws[0] != TOPOLOGY_VERSION {
        proof {
            assert(topology_version_mismatch(bs@));
            if some_topology_encodes(bs@) {
                lemma_encoded_topo_header(bs@, ws@);
                assert(false);
            }
        }
        return Err(Error::VersionMismatch);
    }
    proof {
        assert(!topology_version_mismatch(bs@));
    }
    if ws[1] < 2 || ws[1] > 0x1000_0000 {
        proof {
            if some_topology_encodes(bs@) {
                lemma_encoded_topo_header(bs@, ws@);
                assert(false);
            }
        }
        return Err(Error::CorruptData);
    }
    let m = ws[1] as usize;
    if ws[2] > usize::MAX as u64 {
        proof {
            if some_topology_encodes(bs@) {
                lemma_encoded_topo_header(bs@, ws@);
                assert(false);
            }
        }
        return Err(Error::CorruptData);
    }
    let entry = ws[2] as usize;
    if ws[3] > MAX_LAYER as u64 {
        proof {
            if some_topology_encodes(bs@) {
                lemma_encoded_topo_header(bs@, ws@);
                assert(false);
            }
        }
        return Err(Error::CorruptData);
    }
    let max_layer = ws[3] as usize;
    if ws[4] > usize::MAX as u64 {
        proof {
            if some_topology_encodes(bs@) {
                lemma_encoded_topo_header(bs@, ws@);
                assert(false);
            }
        }
        return Err(Error::CorruptData);
    }
    let count = ws[4] as usize;
    let mut layers: Vec<usize> = Vec::new();
    let mut neighbors: Vec<Vec<Vec<usize>>> = Vec::new();
    let ghost header = seq![
        TOPOLOGY_VERSION,
        m as u64,
        entry as u64,
        max_layer as u64,
        count as u64,
    ];
    proof {
        assert(header =~= ws@.subrange(0, 5));
        assert(neighbors.deep_view() =~= Seq::<Seq<Seq<usize>>>::empty());
        assert(header + elems_words(neighbors.deep_view()) =~= header);
    }
    let mut cursor: usize = 5;
    let mut e: usize = 0;
    while e < count
        invariant
            e <= count,
            5 <= cursor <= ws@.len(),
            layers@.len() == e,
            neighbors@.len() == e,
            neighbors.deep_view().len() == e,
            forall|x: int| 0 <= x < e ==> #[trigger] layers@[x] <= max_layer,
            forall|x: int| 0 <= x < e ==> (#[trigger] neighbors.deep_view()[x]).len()
                == layers@[x] + 1,
            forall|x: int, l: int|
                0 <= x < e && 0 <= l < neighbors.deep_view()[x].len() ==> (
                #[trigger] neighbors.deep_view()[x][l]).len() <= layer_cap(l, m as nat),
            forall|x: int, l: int, y: int|
                0 <= x < e && 0 <= l < neighbors.deep_view()[x].len() && 0 <= y
                    < neighbors.deep_view()[x][l].len() ==> (
                #[trigger] neighbors.deep_view()[x][l][y]) < count,
            header + elems_words(neighbors.deep_view()) == ws@.subrange(0, cursor as int),
        decreases count - e,
    {
        proof {
            assert(some_topology_encodes(bs@) ==> (cursor < ws@.len() && ws@[cursor as int]
                <= max_layer as u64)) by {
                if some_topology_encodes(bs@) {
                    assert forall|i: int|
                        0 <= i < neighbors.deep_view().len() implies 1 <= (
                    #[trigger] neighbors.deep_view()[i]).len() <= MAX_LAYER + 1 by {}
                    assert(ws@[4] == header[4]);
                    lemma_topo_element_site(
                        bs@,
                        ws@,
                        neighbors.deep_view(),
                        header,
                        cursor as int,
                        m as nat,
                    );
                    assert(ws@[3] == header[3]);
                }
            }
        }
        if cursor >= ws.len() {
            proof {
                if some_topology_encodes(bs@) {
                    assert(false);
                }
            }
            return Err(Error::CorruptData);
        }
        let lw = ws[cursor];
        if lw > max_layer as u64 {
            proof {
                if some_topology_encodes(bs@) {
                    assert(false);
                }
            }
            return Err(Error::CorruptData);
        }
        let le = lw as usize;
        cursor = cursor + 1;
        let ghost base_e = ws@.subrange(0, cursor as int);
        proof {
            assert(base_e =~= (header + elems_words(neighbors.deep_view())) + seq![lw]);
        }
        let mut lists: Vec<Vec<usize>> = Vec::new();
        proof {
            assert(lists.deep_view() =~= Seq::<Seq<usize>>::empty());
            assert(base_e + lists_words(lists.deep_view()) =~= base_e);
        }
        let mut l: usize = 0;
        while l < le + 1
            invariant
                l <= le + 1,
                5 <= cursor <= ws@.len(),
                lists@.len() == l,
                lists.deep_view().len() == l,
                forall|l2: int| 0 <= l2 < l ==> (#[trigger] lists.deep_view()[l2]).len()
                    <= layer_cap(l2, m as nat),
                forall|l2: int, y: int|
                    0 <= l2 < l && 0 <= y < lists.deep_view()[l2].len() ==> (
                    #[trigger] lists.deep_view()[l2][y]) < count,
                base_e + lists_words(lists.deep_view()) == ws@.subrange(0, cursor as int),
            decreases le + 1 - l,
        {
            proof {
                assert(some_topology_encodes(bs@) ==> (cursor < ws@.len() && ws@[cursor as int]
                    <= layer_cap(l as int, m as nat) && ws@.skip(cursor as int).len() >= 1
                    + ws@[cursor as int] && (forall|y: int|
                    1 <= y < 1 + ws@[cursor as int] ==> (#[trigger] ws@.skip(cursor as int)[y])
                        < count as u64))) by {
                    if some_topology_encodes(bs@) {
                        assert forall|i: int|
                            0 <= i < neighbors.deep_view().len() implies 1 <= (
                        #[trigger] neighbors.deep_view()[i]).len() <= MAX_LAYER + 1 by {}
                        assert(ws@[4] == header[4]);
                        assert(ws@[1] == header[1]);
                        assert(base_e == ws@.subrange(0, base_e.len() as int));
                        lemma_topo_list_site(
                            bs@,
                            ws@,
                            neighbors.deep_view(),
                            header,
                            base_e,
                            lw,
                            lists.deep_view(),
                            cursor as int,
                            m as nat,
                        );
                    }
                }
            }
            if cursor >= ws.len() {
                proof {
                    if some_topology_encodes(bs@) {
                        assert(false);
                    }
                }
                return Err(Error::CorruptData);
            }
            let nw = ws[cursor];
            let cap_l = if l == 0 {
                2 * m
            } else {
                m
            };
            if nw > cap_l as u64 {
                proof {
                    if some_topology_encodes(bs@) {
                        assert(false);
                    }
                }
                return Err(Error::CorruptData);
            }
            let nlen = nw as usize;
            cursor = cursor + 1;
            if nlen > ws.len() - cursor {
                proof {
                    if some_topology_encodes(bs@) {
                        assert(false);
                    }
                }
                return Err(Error::CorruptData);
            }
            let mut list: Vec<usize> = Vec::new();
            proof {
                assert(Seq::new(0 as nat, |x: int| list@[x] as u64) =~= ws@.subrange(
                    cursor as int,
                    cursor as int,
                ));
            }
            let mut y: usize = 0;
            while y < nlen
                invariant
                    y <= nlen,
                    cursor + nlen <= ws@.len(),
                    list@.len() == y,
                    forall|t2: int| 0 <= t2 < y ==> (#[trigger] list@[t2]) < count,
                    Seq::new(y as nat, |x: int| list@[x] as u64) == ws@.subrange(
                        cursor as int,
                        cursor + y,
                    ),
                decreases nlen - y,
            {
                let w = ws[cursor + y];
                if w >= count as u64 {
                    proof {
                        if some_topology_encodes(bs@) {
                            assert(ws@.skip(cursor as int - 1)[1 + y as int] < count as u64);
                            assert(false);
                        }
                    }
                    return Err(Error::CorruptData);
                }
                list.push(w as usize);
                proof {
                    assert(Seq::new((y + 1) as nat, |x: int| list@[x] as u64) =~= ws@.subrange(
                        cursor as int,
                        cursor + y + 1,
                    ));
                }
                y = y + 1;
            }
            let ghost glist = list@;
            let ghost pre_lists_dv = lists.deep_view();
            let ghost pre_lists = lists@;
            lists.push(list);
            cursor = cursor + nlen;
            proof {
                assert(list_words(glist) =~= seq![nw] + ws@.subrange(
                    (cursor - nlen) as int,
                    cursor as int,
                ));
                lemma_lists_words_snoc(pre_lists_dv, glist);
                assert forall|x: int| 0 <= x < l + 1 implies (#[trigger] lists.deep_view()[x])
                    == pre_lists_dv.push(glist)[x] by {
                    assert(lists.deep_view()[x] == lists@[x].deep_view());
                    if x < l {
                        assert(lists@[x] == pre_lists[x]);
                        assert(pre_lists_dv[x] == pre_lists[x].deep_view());
                    } else {
                        assert(lists@[x].deep_view() =~= glist);
                    }
                }
                assert(lists.deep_view() =~= pre_lists_dv.push(glist));
                assert(base_e + lists_words(lists.deep_view()) =~= ws@.subrange(0, cursor as int));
            }
            l = l + 1;
        }
        let ghost glists_dv = lists.deep_view();
        let ghost pre_nbrs_dv = neighbors.deep_view();
        let ghost pre_nbrs = neighbors@;
        let ghost pre_layers = layers@;
        neighbors.push(lists);
        layers.push(le);
        proof {
            assert forall|x: int| 0 <= x < e + 1 implies (#[trigger] neighbors.deep_view()[x])
                == pre_nbrs_dv.push(glists_dv)[x] by {
                assert(neighbors.deep_view()[x] == neighbors@[x].deep_view());
                if x < e {
                    assert(neighbors@[x] == pre_nbrs[x]);
                    assert(pre_nbrs_dv[x] == pre_nbrs[x].deep_view());
                }
            }
            assert(neighbors.deep_view() =~= pre_nbrs_dv.push(glists_dv));
            lemma_elems_words_snoc(pre_nbrs_dv, glists_dv);
            assert(glists_dv.len() == le + 1);
            assert(sub_one(glists_dv.len()) == lw);
            assert(header + elems_words(neighbors.deep_view()) =~= ws@.subrange(0, cursor as int));
        }
        e = e + 1;
    }
    proof {
        assert(some_topology_encodes(bs@) ==> (cursor == ws@.len() && (count > 0 ==> entry < count
            && layers@[entry as int] == max_layer) && (count == 0 ==> max_layer == 0))) by {
            if some_topology_encodes(bs@) {
                assert forall|i: int|
                    0 <= i < neighbors.deep_view().len() implies 1 <= (
                #[trigger] neighbors.deep_view()[i]).len() <= MAX_LAYER + 1 by {}
                assert(ws@[4] == header[4]);
                lemma_topo_final_site(
                    bs@,
                    ws@,
                    neighbors.deep_view(),
                    header,
                    cursor as int,
                    m as nat,
                );
                assert(ws@[2] == header[2]);
                assert(ws@[3] == header[3]);
                if count > 0 {
                    assert(neighbors.deep_view()[entry as int].len() == layers@[entry as int] + 1);
                }
            }
        }
    }
    if cursor != ws.len() {
        proof {
            if some_topology_encodes(bs@) {
                assert(false);
            }
        }
        return Err(Error::CorruptData);
    }
    if count > 0 {
        if entry >= count {
            proof {
                if some_topology_encodes(bs@) {
                    assert(false);
                }
            }
            return Err(Error::CorruptData);
        }
        if layers[entry] != max_layer {
            proof {
                if some_topology_encodes(bs@) {
                    assert(false);
                }
            }
            return Err(Error::CorruptData);
        }
    } else {
        if max_layer != 0 {
            proof {
                if some_topology_encodes(bs@) {
                    assert(false);
                }
            }
            return Err(Error::CorruptData);
        }
    }
    let ghost gnbrs_dv = neighbors.deep_view();
    let ghost glayers = layers@;
    let t = GraphTopology { m, entry_point: entry, max_layer, layers, neighbors };
    proof {
        assert(t.nbrs() == gnbrs_dv);
        assert(t.layers@ == glayers);
        assert(t.lists_wf(count as nat));
        assert(t.wf(count as nat));
        assert(topo_header(t, count as nat) =~= header);
        assert(topology_words(t, count as nat) =~= ws@);
        assert(topology_bytes(t, count as nat) == bs@);
    }
    Ok(t)
}


/// Equal-count runs of lists at the head of one word stream are equal and
/// leave equal remainders.
pub proof fn lemma_lists_words_prefix_injective(
    a: Seq<Seq<usize>>,
    b: Seq<Seq<usize>>,
    ra: Seq<u64>,
    rb: Seq<u64>,
)
    requires
        a.len() == b.len(),
        forall|i: int| 0 <= i < a.len() ==> (#[trigger] a[i]).len() <= usize::MAX,
        forall|i: int| 0 <= i < b.len() ==> (#[trigger] b[i]).len() <= usize::MAX,
        lists_words(a) + ra == lists_words(b) + rb,
    ensures
        a == b,
        ra == rb,
    decreases a.len(),
{
    if a.len() == 0 {
        assert(a =~= b);
        assert(lists_words(a) + ra =~= ra);
        assert(lists_words(b) + rb =~= rb);
    } else {
        let w = lists_words(a) + ra;
        assert(list_words(a[0]).len() == 1 + a[0].len());
        assert(list_words(b[0]).len() == 1 + b[0].len());
        assert(w[0] == a[0].len() as u64) by {
            assert(w[0] == list_words(a[0])[0]);
        }
        assert(w[0] == b[0].len() as u64) by {
            assert((lists_words(b) + rb)[0] == list_words(b[0])[0]);
        }
        assert(a[0].len() == b[0].len());
        let n = a[0].len() as int;
        assert(a[0] =~= b[0]) by {
            assert forall|i: int| 0 <= i < n implies a[0][i] == b[0][i] by {
                assert(w[1 + i] == list_words(a[0])[1 + i]);
                assert(list_words(a[0])[1 + i] == a[0][i] as u64);
                assert((lists_words(b) + rb)[1 + i] == list_words(b[0])[1 + i]);
                assert(list_words(b[0])[1 + i] == b[0][i] as u64);
            }
        }
        assert(lists_words(a.drop_first()) + ra =~= w.skip(1 + n)) by {
            assert(lists_words(a) == list_words(a[0]) + lists_words(a.drop_first()));
        }
        assert(lists_words(b.drop_first()) + rb =~= w.skip(1 + n)) by {
            assert(lists_words(b) == list_words(b[0]) + lists_words(b.drop_first()));
        }
        lemma_lists_words_prefix_injective(a.drop_first(), b.drop_first(), ra, rb);
        assert(a =~= b) by {
            assert forall|i: int| 0 <= i < a.len() implies a[i] == b[i] by {
                if i > 0 {
                    assert(a[i] == a.drop_first()[i - 1]);
                    assert(b[i] == b.drop_first()[i - 1]);
                }
            }
        }
    }
}

/// Equal-count runs of elements at the head of one word stream are equal
/// and leave equal remainders, provided every element has between 1 and
/// `MAX_LAYER + 1` lists (as well-formedness guarantees).
pub proof fn lemma_elems_words_prefix_injective(
    a: Seq<Seq<Seq<usize>>>,
    b: Seq<Seq<Seq<usize>>>,
    ra: Seq<u64>,
    rb: Seq<u64>,
)
    requires
        a.len() == b.len(),
        forall|i: int| 0 <= i < a.len() ==> 1 <= (#[trigger] a[i]).len() <= MAX_LAYER + 1,
        forall|i: int| 0 <= i < b.len() ==> 1 <= (#[trigger] b[i]).len() <= MAX_LAYER + 1,
        forall|i: int, l: int|
            0 <= i < a.len() && 0 <= l < a[i].len() ==> (#[trigger] a[i][l]).len() <= usize::MAX,
        forall|i: int, l: int|
            0 <= i < b.len() && 0 <= l < b[i].len() ==> (#[trigger] b[i][l]).len() <= usize::MAX,
        elems_words(a) + ra == elems_words(b) + rb,
    ensures
        a == b,
        ra == rb,
    decreases a.len(),
{
    if a.len() == 0 {
        assert(a =~= b);
        assert(elems_words(a) + ra =~= ra);
        assert(elems_words(b) + rb =~= rb);
    } else {
        let w = elems_words(a) + ra;
        assert(w[0] == sub_one(a[0].len()));
        assert((elems_words(b) + rb)[0] == sub_one(b[0].len()));
        assert(a[0].len() == b[0].len());
        assert(lists_words(a[0]) + (elems_words(a.drop_first()) + ra) =~= w.skip(1));
        assert(lists_words(b[0]) + (elems_words(b.drop_first()) + rb) =~= w.skip(1));
        assert forall|l: int| 0 <= l < a[0].len() implies (#[trigger] a[0][l]).len()
            <= usize::MAX by {
            assert(a[0][l].len() <= usize::MAX);
        }
        assert forall|l: int| 0 <= l < b[0].len() implies (#[trigger] b[0][l]).len()
            <= usize::MAX by {
            assert(b[0][l].len() <= usize::MAX);
        }
        lemma_lists_words_prefix_injective(
            a[0],
            b[0],
            elems_words(a.drop_first()) + ra,
            elems_words(b.drop_first()) + rb,
        );
        lemma_elems_words_prefix_injective(a.drop_first(), b.drop_first(), ra, rb);
        assert(a =~= b) by {
            assert forall|i: int| 0 <= i < a.len() implies a[i] == b[i] by {
                if i > 0 {
                    assert(a[i] == a.drop_first()[i - 1]);
                    assert(b[i] == b.drop_first()[i - 1]);
                }
            }
        }
    }
}

/// Two well-formed topologies with one byte stream are one topology.
/// Together with `load_topology`, this pins the persistence round trip:
/// whatever a load of saved bytes returns is the saved topology.
pub proof fn lemma_topology_bytes_injective(
    t1: GraphTopology,
    c1: nat,
    t2: GraphTopology,
    c2: nat,
)
    requires
        t1.wf(c1),
        t2.wf(c2),
        c1 <= usize::MAX,
        c2 <= usize::MAX,
        topology_bytes(t1, c1) == topology_bytes(t2, c2),
    ensures
        c1 == c2,
        t1.m == t2.m,
        t1.entry_point == t2.entry_point,
        t1.max_layer == t2.max_layer,
        t1.nbrs() == t2.nbrs(),
        t1.layers@ == t2.layers@,
{
    lemma_words_to_bytes_injective(topology_words(t1, c1), topology_words(t2, c2));
    let w1 = topology_words(t1, c1);
    assert(w1[1] == t1.m as u64 && w1[1] == t2.m as u64);
    assert(w1[2] == t1.entry_point as u64 && w1[2] == t2.entry_point as u64);
    assert(w1[3] == t1.max_layer as u64 && w1[3] == t2.max_layer as u64);
    assert(w1[4] == c1 as u64 && w1[4] == c2 as u64);
    assert(elems_words(t1.nbrs()) =~= w1.skip(5));
    assert(elems_words(t2.nbrs()) =~= w1.skip(5));
    assert(elems_words(t1.nbrs()) + Seq::<u64>::empty() =~= elems_words(t1.nbrs()));
    assert(elems_words(t2.nbrs()) + Seq::<u64>::empty() =~= elems_words(t2.nbrs()));
    assert forall|i: int| 0 <= i < t1.nbrs().len() implies 1 <= (#[trigger] t1.nbrs()[i]).len()
        <= MAX_LAYER + 1 by {
        assert(t1.nbrs()[i].len() == t1.layers@[i] + 1);
        assert(t1.layers@[i] <= t1.max_layer);
    }
    assert forall|i: int| 0 <= i < t2.nbrs().len() implies 1 <= (#[trigger] t2.nbrs()[i]).len()
        <= MAX_LAYER + 1 by {
        assert(t2.nbrs()[i].len() == t2.layers@[i] + 1);
        assert(t2.layers@[i] <= t2.max_layer);
    }
    assert forall|i: int, l: int|
        0 <= i < t1.nbrs().len() && 0 <= l < t1.nbrs()[i].len() implies (
    #[trigger] t1.nbrs()[i][l]).len() <= usize::MAX by {
        assert(t1.nbrs()[i][l].len() <= layer_cap(l, t1.m as nat));
    }
    assert forall|i: int, l: int|
        0 <= i < t2.nbrs().len() && 0 <= l < t2.nbrs()[i].len() implies (
    #[trigger] t2.nbrs()[i][l]).len() <= usize::MAX by {
        assert(t2.nbrs()[i][l].len() <= layer_cap(l, t2.m as nat));
    }
    lemma_elems_words_prefix_injective(
        t1.nbrs(),
        t2.nbrs(),
        Seq::<u64>::empty(),
        Seq::<u64>::empty(),
    );
    assert(t1.layers@ =~= t2.layers@) by {
        assert forall|i: int| 0 <= i < c1 implies t1.layers@[i] == t2.layers@[i] by {
            assert(t1.nbrs()[i].len() == t1.layers@[i] + 1);
            assert(t2.nbrs()[i].len() == t2.layers@[i] + 1);
        }
    }
}


/// Equal-length rows contribute `dim` words each.
pub proof fn lemma_rows_words_len(rows: Seq<Seq<i32>>, dim: nat)
    requires
        forall|i: int| 0 <= i < rows.len() ==> (#[trigger] rows[i]).len() == dim,
    ensures
        rows_words(rows).len() == rows.len() * dim,
    decreases rows.len(),
{
    if rows.len() == 0 {
        assert(rows.len() * dim == 0) by (nonlinear_arith)
            requires
                rows.len() == 0,
        ;
    } else {
        lemma_rows_words_len(rows.drop_first(), dim);
        assert(row_words(rows[0]).len() == dim);
        assert(dim + (rows.len() - 1) * dim == rows.len() * dim) by (nonlinear_arith);
    }
}

/// The word at offset `e * dim + j` of a row run is the `j`-th scalar of
/// row `e`.
pub proof fn lemma_rows_words_index(rows: Seq<Seq<i32>>, dim: nat, e: int, j: int)
    requires
        forall|i: int| 0 <= i < rows.len() ==> (#[trigger] rows[i]).len() == dim,
        0 <= e < rows.len(),
        0 <= j < dim,
    ensures
        0 <= e * dim + j < rows_words(rows).len(),
        rows_words(rows)[e * dim + j] == scalar_word(rows[e][j]),
    decreases e,
{
    lemma_rows_words_len(rows, dim);
    assert(0 <= e * dim && e * dim + dim <= rows.len() * dim) by (nonlinear_arith)
        requires
            0 <= e < rows.len(),
            dim >= 0,
    ;
    if e == 0 {
        assert(e * dim == 0) by (nonlinear_arith)
            requires
                e == 0,
        ;
        assert(rows_words(rows)[j] == row_words(rows[0])[j]);
        assert(rows_words(rows)[e * dim + j] == scalar_word(rows[e][j]));
    } else {
        assert forall|i: int| 0 <= i < rows.drop_first().len() implies (
        #[trigger] rows.drop_first()[i]).len() == dim by {
            assert(rows.drop_first()[i] == rows[i + 1]);
        }
        lemma_rows_words_index(rows.drop_first(), dim, e - 1, j);
        assert(row_words(rows[0]).len() == dim);
        assert(e * dim >= dim && (e - 1) * dim + j == e * dim + j - dim) by (nonlinear_arith)
            requires
                e >= 1,
                dim >= 0,
                0 <= j,
        ;
        assert(rows_words(rows)[e * dim + j] == rows_words(rows.drop_first())[e * dim + j - dim]);
        assert(rows.drop_first()[e - 1] == rows[e]);
        assert(rows_words(rows)[e * dim + j] == scalar_word(rows[e][j]));
    }
}

/// The exact shape of an element word stream: its length, its header, and
/// the position of every scalar.
pub proof fn lemma_elements_words_shape(s2: ElementStore)
    requires
        s2.wf(),
        s2@.len() <= usize::MAX,
    ensures
        elements_words(s2.dim as nat, s2@).len() == 4 + s2@.len() * s2.dim,
        elements_words(s2.dim as nat, s2@)[0] == ELEMENTS_VERSION,
        elements_words(s2.dim as nat, s2@)[1] == SCALAR_TAG_I32,
        elements_words(s2.dim as nat, s2@)[2] == s2.dim as u64,
        elements_words(s2.dim as nat, s2@)[3] == s2@.len() as u64,
        forall|e: int, j: int|
            0 <= e < s2@.len() && 0 <= j < s2.dim ==> elements_words(s2.dim as nat, s2@)[4 + e
                * s2.dim + j] == scalar_word(#[trigger] s2@[e][j]),
{
    let w = elements_words(s2.dim as nat, s2@);
    lemma_rows_words_len(s2@, s2.dim as nat);
    assert forall|e: int, j: int|
        0 <= e < s2@.len() && 0 <= j < s2.dim implies w[4 + e * s2.dim + j] == scalar_word(
        #[trigger] s2@[e][j],
    ) by {
        lemma_rows_words_index(s2@, s2.dim as nat, e, j);
        assert(w[4 + e * s2.dim + j] == rows_words(s2@)[e * s2.dim + j]);
    }
}


/// Some well-formed topology serializes to exactly these bytes.
#[verifier::opaque]
pub open spec fn some_topology_encodes(bs: Seq<u8>) -> bool {
    exists|t2: GraphTopology, c2: nat|
        t2.wf(c2) && c2 <= usize::MAX && bs == topology_bytes(t2, c2)
}

/// The topology and count behind an encoded stream.
pub open spec fn witness_topology(bs: Seq<u8>) -> (GraphTopology, nat) {
    choose|t2: GraphTopology, c2: nat|
        t2.wf(c2) && c2 <= usize::MAX && bs == topology_bytes(t2, c2)
}

/// The word stream of a list-run concatenation is the concatenation.
pub proof fn lemma_lists_words_app(a: Seq<Seq<usize>>, b: Seq<Seq<usize>>)
    ensures
        lists_words(a + b) == lists_words(a) + lists_words(b),
    decreases a.len(),
{
    if a.len() == 0 {
        assert(a + b =~= b);
        assert(lists_words(a) + lists_words(b) =~= lists_words(b));
    } else {
        lemma_lists_words_app(a.drop_first(), b);
        assert((a + b).drop_first() =~= a.drop_first() + b);
        assert((a + b)[0] == a[0]);
        assert(list_words(a[0]) + (lists_words(a.drop_first()) + lists_words(b)) =~= (list_words(
            a[0],
        ) + lists_words(a.drop_first())) + lists_words(b));
    }
}

/// The word stream of an element-run concatenation is the concatenation.
pub proof fn lemma_elems_words_app(a: Seq<Seq<Seq<usize>>>, b: Seq<Seq<Seq<usize>>>)
    ensures
        elems_words(a + b) == elems_words(a) + elems_words(b),
    decreases a.len(),
{
    if a.len() == 0 {
        assert(a + b =~= b);
        assert(elems_words(a) + elems_words(b) =~= elems_words(b));
    } else {
        lemma_elems_words_app(a.drop_first(), b);
        assert((a + b).drop_first() =~= a.drop_first() + b);
        assert((a + b)[0] == a[0]);
        assert(seq![sub_one(a[0].len())] + lists_words(a[0]) + (elems_words(a.drop_first())
            + elems_words(b)) =~= (seq![sub_one(a[0].len())] + lists_words(a[0]) + elems_words(
            a.drop_first(),
        )) + elems_words(b));
    }
}

/// The first words of a non-empty list run.
pub proof fn lemma_lists_words_head(ls: Seq<Seq<usize>>)
    requires
        ls.len() > 0,
    ensures
        lists_words(ls).len() >= 1 + ls[0].len(),
        lists_words(ls)[0] == ls[0].len() as u64,
        forall|y: int| 0 <= y < ls[0].len() ==> lists_words(ls)[1 + y] == (#[trigger] ls[0][y])
            as u64,
        lists_words(ls).skip(1 + ls[0].len() as int) == lists_words(ls.drop_first()),
{
    assert(list_words(ls[0]).len() == 1 + ls[0].len());
    assert(lists_words(ls).skip(1 + ls[0].len() as int) =~= lists_words(ls.drop_first()));
}

/// The first words of a non-empty element run.
pub proof fn lemma_elems_words_head(ns: Seq<Seq<Seq<usize>>>)
    requires
        ns.len() > 0,
    ensures
        elems_words(ns).len() >= 1,
        elems_words(ns)[0] == sub_one(ns[0].len()),
        elems_words(ns).skip(1) == lists_words(ns[0]) + elems_words(ns.drop_first()),
{
    assert(elems_words(ns).skip(1) =~= lists_words(ns[0]) + elems_words(ns.drop_first()));
}


/// On an encoded stream, the decoder's header reads pass every check.
proof fn lemma_encoded_topo_header(bs: Seq<u8>, ws: Seq<u64>)
    requires
        some_topology_encodes(bs),
        words_to_bytes(ws) == bs,
    ensures
        ws.len() >= 5,
        ws[0] == TOPOLOGY_VERSION,
        2 <= ws[1] <= 0x1000_0000,
        ws[2] <= usize::MAX,
        ws[3] <= MAX_LAYER as u64,
        ws[4] <= usize::MAX,
        ws == topology_words(witness_topology(bs).0, witness_topology(bs).1),
        witness_topology(bs).0.wf(witness_topology(bs).1),
        witness_topology(bs).1 <= usize::MAX,
        ws[1] == witness_topology(bs).0.m as u64,
        ws[2] == witness_topology(bs).0.entry_point as u64,
        ws[3] == witness_topology(bs).0.max_layer as u64,
        ws[4] == witness_topology(bs).1 as u64,
        witness_topology(bs).0.nbrs().len() == witness_topology(bs).1,
{
    reveal(some_topology_encodes);
    let (t2, c2) = witness_topology(bs);
    assert(t2.wf(c2) && c2 <= usize::MAX && bs == topology_bytes(t2, c2));
    lemma_words_to_bytes_injective(ws, topology_words(t2, c2));
}

/// On an encoded stream, a decoder state whose parsed elements occupy the
/// words up to `cursor` is a prefix of the encoded topology, and the words
/// from `cursor` on are the remaining elements.
proof fn lemma_topo_witness_alignment(bs: Seq<u8>, ws: Seq<u64>, built: Seq<Seq<Seq<usize>>>, cursor: int)
    requires
        some_topology_encodes(bs),
        words_to_bytes(ws) == bs,
        5 <= cursor <= ws.len(),
        ws.subrange(5, cursor) == elems_words(built),
        built.len() <= ws[4],
        forall|i: int| 0 <= i < built.len() ==> 1 <= (#[trigger] built[i]).len() <= MAX_LAYER + 1,
        forall|i: int, l: int|
            0 <= i < built.len() && 0 <= l < built[i].len() ==> (#[trigger] built[i][l]).len()
                <= usize::MAX,
    ensures
        built == witness_topology(bs).0.nbrs().take(built.len() as int),
        ws.skip(cursor) == elems_words(witness_topology(bs).0.nbrs().skip(built.len() as int)),
{
    reveal(some_topology_encodes);
    let (t2, c2) = witness_topology(bs);
    lemma_encoded_topo_header(bs, ws);
    let t2n = t2.nbrs();
    let e = built.len() as int;
    assert(t2n.len() == c2);
    assert(e <= c2);
    assert(t2n.take(e) + t2n.skip(e) =~= t2n);
    lemma_elems_words_app(t2n.take(e), t2n.skip(e));
    assert(elems_words(t2n) =~= ws.skip(5)) by {
        assert(topo_header(t2, c2).len() == 5);
        assert(topology_words(t2, c2).skip(5) =~= elems_words(t2n));
    }
    assert(elems_words(built) + ws.skip(cursor) =~= elems_words(t2n.take(e)) + elems_words(
        t2n.skip(e),
    )) by {
        assert(elems_words(built) + ws.skip(cursor) =~= ws.skip(5));
    }
    assert forall|i: int| 0 <= i < t2n.take(e).len() implies 1 <= (#[trigger] t2n.take(e)[i]).len()
        <= MAX_LAYER + 1 by {
        assert(t2n.take(e)[i] == t2n[i]);
        assert(t2n[i].len() == t2.layers@[i] + 1);
        assert(t2.layers@[i] <= t2.max_layer);
    }
    assert forall|i: int, l: int|
        0 <= i < t2n.take(e).len() && 0 <= l < t2n.take(e)[i].len() implies (
    #[trigger] t2n.take(e)[i][l]).len() <= usize::MAX by {
        assert(t2n.take(e)[i] == t2n[i]);
        assert(t2n[i][l].len() <= layer_cap(l, t2.m as nat));
    }
    lemma_elems_words_prefix_injective(built, t2n.take(e), ws.skip(cursor), elems_words(t2n.skip(e)));
}


/// On an encoded stream, a decoder state inside one element — its layer
/// word read, `lists` of its lists parsed — is a prefix of that element of
/// the encoded topology, and the words from `cursor` on are the remaining
/// lists and elements.
proof fn lemma_topo_witness_list_alignment(
    bs: Seq<u8>,
    ws: Seq<u64>,
    built: Seq<Seq<Seq<usize>>>,
    lw: u64,
    lists: Seq<Seq<usize>>,
    cursor: int,
)
    requires
        some_topology_encodes(bs),
        words_to_bytes(ws) == bs,
        built.len() < ws[4],
        forall|i: int| 0 <= i < built.len() ==> 1 <= (#[trigger] built[i]).len() <= MAX_LAYER + 1,
        forall|i: int, l: int|
            0 <= i < built.len() && 0 <= l < built[i].len() ==> (#[trigger] built[i][l]).len()
                <= usize::MAX,
        forall|l: int| 0 <= l < lists.len() ==> (#[trigger] lists[l]).len() <= usize::MAX,
        5 + elems_words(built).len() + 1 <= cursor <= ws.len(),
        ws.subrange(5, 5 + elems_words(built).len() as int) == elems_words(built),
        ws[5 + elems_words(built).len() as int] == lw,
        ws.subrange(5 + elems_words(built).len() as int + 1, cursor) == lists_words(lists),
        lists.len() <= lw + 1,
    ensures
        witness_topology(bs).0.nbrs()[built.len() as int].len() == lw + 1,
        lw <= ws[3],
        lists == witness_topology(bs).0.nbrs()[built.len() as int].take(lists.len() as int),
        ws.skip(cursor) == lists_words(
            witness_topology(bs).0.nbrs()[built.len() as int].skip(lists.len() as int),
        ) + elems_words(witness_topology(bs).0.nbrs().skip(built.len() as int + 1)),
{
    let base = 5 + elems_words(built).len() as int;
    reveal(some_topology_encodes);
    let (t2, c2) = witness_topology(bs);
    lemma_encoded_topo_header(bs, ws);
    let t2n = t2.nbrs();
    let e = built.len() as int;
    lemma_topo_witness_alignment(bs, ws, built, base);
    assert(ws.skip(base) == elems_words(t2n.skip(e)));
    assert(t2n.skip(e).len() == c2 - e >= 1);
    lemma_elems_words_head(t2n.skip(e));
    assert(t2n.skip(e)[0] == t2n[e]);
    assert(ws[base] == sub_one(t2n[e].len()));
    assert(t2n[e].len() == t2.layers@[e] + 1);
    assert(t2.layers@[e] <= t2.max_layer);
    assert(lw == t2.layers@[e] as u64);
    assert(t2n[e].len() == lw + 1);
    assert(t2n.skip(e).drop_first() =~= t2n.skip(e + 1));
    assert(ws.skip(base).skip(1) =~= ws.skip(base + 1));
    assert(ws.skip(base + 1) == lists_words(t2n[e]) + elems_words(t2n.skip(e + 1)));
    let l = lists.len() as int;
    assert(t2n[e].take(l) + t2n[e].skip(l) =~= t2n[e]);
    lemma_lists_words_app(t2n[e].take(l), t2n[e].skip(l));
    assert(lists_words(lists) + ws.skip(cursor) =~= lists_words(t2n[e].take(l)) + (lists_words(
        t2n[e].skip(l),
    ) + elems_words(t2n.skip(e + 1)))) by {
        assert(lists_words(lists) + ws.skip(cursor) =~= ws.skip(base + 1));
    }
    assert forall|i: int| 0 <= i < t2n[e].take(l).len() implies (#[trigger] t2n[e].take(l)[i]).len()
        <= usize::MAX by {
        assert(t2n[e].take(l)[i] == t2n[e][i]);
        assert(t2n[e][i].len() <= layer_cap(i, t2.m as nat));
    }
    lemma_lists_words_prefix_injective(
        lists,
        t2n[e].take(l),
        ws.skip(cursor),
        lists_words(t2n[e].skip(l)) + elems_words(t2n.skip(e + 1)),
    );
}


/// At the head of an element, on an encoded stream: the layer word is
/// there and within the maximal layer.
proof fn lemma_topo_element_site(
    bs: Seq<u8>,
    ws: Seq<u64>,
    built: Seq<Seq<Seq<usize>>>,
    header: Seq<u64>,
    cursor: int,
    m: nat,
)
    requires
        some_topology_encodes(bs),
        words_to_bytes(ws) == bs,
        header.len() == 5,
        ws.len() >= 5,
        header == ws.subrange(0, 5),
        header + elems_words(built) == ws.subrange(0, cursor),
        5 <= cursor <= ws.len(),
        built.len() < ws[4],
        2 <= m <= 0x1000_0000,
        forall|i: int| 0 <= i < built.len() ==> 1 <= (#[trigger] built[i]).len() <= MAX_LAYER + 1,
        forall|i: int, l: int|
            0 <= i < built.len() && 0 <= l < built[i].len() ==> (#[trigger] built[i][l]).len()
                <= layer_cap(l, m),
    ensures
        cursor < ws.len(),
        ws[cursor] <= ws[3],
{
    let e = built.len() as int;
    assert((header + elems_words(built)).len() == 5 + elems_words(built).len());
    assert(ws.subrange(0, cursor).len() == cursor);
    assert(elems_words(built).len() + 5 == cursor);
    assert forall|i: int|
        0 <= i < elems_words(built).len() implies ws.subrange(5, cursor)[i] == elems_words(
        built,
    )[i] by {
        assert(ws.subrange(5, cursor)[i] == ws[5 + i]);
        assert(ws.subrange(0, cursor)[5 + i] == ws[5 + i]);
        assert(ws.subrange(0, cursor)[5 + i] == (header + elems_words(built))[5 + i]);
        assert((header + elems_words(built))[5 + i] == elems_words(built)[i]);
    }
    assert(ws.subrange(5, cursor) =~= elems_words(built));
    assert forall|i: int, l: int|
        0 <= i < built.len() && 0 <= l < built[i].len() implies (#[trigger] built[i][l]).len()
        <= usize::MAX by {
        assert(built[i][l].len() <= layer_cap(l, m));
    }
    lemma_topo_witness_alignment(bs, ws, built, cursor);
    lemma_encoded_topo_header(bs, ws);
    let (t2, c2) = witness_topology(bs);
    let t2n = t2.nbrs();
    assert(t2n.skip(e).len() >= 1);
    lemma_elems_words_head(t2n.skip(e));
    assert(ws.skip(cursor).len() >= 1);
    assert(ws[cursor] == ws.skip(cursor)[0]);
    assert(t2n.skip(e)[0] == t2n[e]);
    assert(ws[cursor] == sub_one(t2n[e].len()));
    assert(t2n[e].len() == t2.layers@[e] + 1);
    assert(t2.layers@[e] <= t2.max_layer);
}

/// At the head of a neighbour list, on an encoded stream: the length word
/// is there, within the cap, the whole list follows, and every entry is in
/// range.
proof fn lemma_topo_list_site(
    bs: Seq<u8>,
    ws: Seq<u64>,
    built: Seq<Seq<Seq<usize>>>,
    header: Seq<u64>,
    base_e: Seq<u64>,
    lw: u64,
    lists_dv: Seq<Seq<usize>>,
    cursor: int,
    m: nat,
)
    requires
        some_topology_encodes(bs),
        words_to_bytes(ws) == bs,
        header.len() == 5,
        ws.len() >= 5,
        header == ws.subrange(0, 5),
        base_e == (header + elems_words(built)) + seq![lw],
        base_e == ws.subrange(0, base_e.len() as int),
        base_e.len() <= cursor <= ws.len(),
        base_e + lists_words(lists_dv) == ws.subrange(0, cursor),
        built.len() < ws[4],
        lists_dv.len() <= lw,
        2 <= m <= 0x1000_0000,
        ws[1] == m as u64,
        forall|i: int| 0 <= i < built.len() ==> 1 <= (#[trigger] built[i]).len() <= MAX_LAYER + 1,
        forall|i: int, l: int|
            0 <= i < built.len() && 0 <= l < built[i].len() ==> (#[trigger] built[i][l]).len()
                <= layer_cap(l, m),
        forall|l: int| 0 <= l < lists_dv.len() ==> (#[trigger] lists_dv[l]).len() <= layer_cap(
            l,
            m,
        ),
    ensures
        cursor < ws.len(),
        ws[cursor] <= layer_cap(lists_dv.len() as int, m),
        ws.skip(cursor).len() >= 1 + ws[cursor],
        forall|y: int| 1 <= y < 1 + ws[cursor] ==> (#[trigger] ws.skip(cursor)[y]) < ws[4],
{
    let e = built.len() as int;
    let l = lists_dv.len() as int;
    let elen = elems_words(built).len() as int;
    assert(((header + elems_words(built)) + seq![lw]).len() == 5 + elen + 1);
    assert(base_e.len() == 5 + elen + 1);
    assert(ws.subrange(0, cursor).len() == cursor);
    assert((base_e + lists_words(lists_dv)).len() == base_e.len() + lists_words(lists_dv).len());
    assert forall|i: int|
        0 <= i < elen implies ws.subrange(5, 5 + elen)[i] == elems_words(built)[i] by {
        assert(ws.subrange(5, 5 + elen)[i] == ws[5 + i]);
        assert(ws.subrange(0, cursor)[5 + i] == ws[5 + i]);
        assert(ws.subrange(0, cursor)[5 + i] == (base_e + lists_words(lists_dv))[5 + i]);
        assert((base_e + lists_words(lists_dv))[5 + i] == base_e[5 + i]);
        assert(base_e[5 + i] == ((header + elems_words(built)) + seq![lw])[5 + i]);
        assert(((header + elems_words(built)) + seq![lw])[5 + i] == (header + elems_words(built))[5
            + i]);
        assert((header + elems_words(built))[5 + i] == elems_words(built)[i]);
    }
    assert(ws.subrange(5, 5 + elen) =~= elems_words(built));
    assert(ws[5 + elen] == lw) by {
        assert(ws.subrange(0, cursor)[5 + elen] == ws[5 + elen]);
        assert(ws.subrange(0, cursor)[5 + elen] == (base_e + lists_words(lists_dv))[5 + elen]);
        assert((base_e + lists_words(lists_dv))[5 + elen] == base_e[5 + elen]);
        assert(base_e[5 + elen] == ((header + elems_words(built)) + seq![lw])[5 + elen]);
        assert(((header + elems_words(built)) + seq![lw])[5 + elen] == lw);
    }
    assert forall|i: int|
        0 <= i < lists_words(lists_dv).len() implies ws.subrange(base_e.len() as int, cursor)[i]
        == lists_words(lists_dv)[i] by {
        assert(ws.subrange(base_e.len() as int, cursor)[i] == ws[base_e.len() + i]);
        assert(ws.subrange(0, cursor)[base_e.len() + i] == ws[base_e.len() + i]);
        assert(ws.subrange(0, cursor)[base_e.len() + i] == (base_e + lists_words(lists_dv))[
        base_e.len() + i]);
        assert((base_e + lists_words(lists_dv))[base_e.len() + i] == lists_words(lists_dv)[i]);
    }
    assert(ws.subrange(base_e.len() as int, cursor) =~= lists_words(lists_dv));
    assert forall|i: int, l2: int|
        0 <= i < built.len() && 0 <= l2 < built[i].len() implies (#[trigger] built[i][l2]).len()
        <= usize::MAX by {
        assert(built[i][l2].len() <= layer_cap(l2, m));
    }
    assert forall|l2: int| 0 <= l2 < lists_dv.len() implies (#[trigger] lists_dv[l2]).len()
        <= usize::MAX by {
        assert(lists_dv[l2].len() <= layer_cap(l2, m));
    }
    lemma_topo_witness_list_alignment(bs, ws, built, lw, lists_dv, cursor);
    lemma_encoded_topo_header(bs, ws);
    let (t2, c2) = witness_topology(bs);
    let t2n = t2.nbrs();
    assert(t2n[e].skip(l).len() >= 1);
    lemma_lists_words_head(t2n[e].skip(l));
    assert(t2n[e].skip(l)[0] == t2n[e][l]);
    assert(ws.skip(cursor)[0] == t2n[e][l].len() as u64);
    assert(ws.skip(cursor).len() >= 1);
    assert(ws[cursor] == ws.skip(cursor)[0]);
    assert(t2.m == m);
    assert(t2n[e][l].len() <= layer_cap(l, m));
    assert(lists_words(t2n[e].skip(l)).len() >= 1 + t2n[e][l].len());
    assert(ws.skip(cursor).len() >= 1 + t2n[e][l].len());
    assert forall|y: int| 1 <= y < 1 + ws[cursor] implies (#[trigger] ws.skip(cursor)[y])
        < ws[4] by {
        let ls = t2n[e].skip(l);
        assert(lists_words(ls)[1 + (y - 1)] == ls[0][y - 1] as u64);
        assert(ws.skip(cursor)[y] == lists_words(ls)[y]);
        assert(ls[0][y - 1] == t2n[e][l][y - 1]);
        assert(t2n[e][l][y - 1] < c2);
    }
}

/// Past the last element, on an encoded stream: the words are exhausted
/// and the entry-point checks pass.
proof fn lemma_topo_final_site(
    bs: Seq<u8>,
    ws: Seq<u64>,
    built: Seq<Seq<Seq<usize>>>,
    header: Seq<u64>,
    cursor: int,
    m: nat,
)
    requires
        some_topology_encodes(bs),
        words_to_bytes(ws) == bs,
        header.len() == 5,
        ws.len() >= 5,
        header == ws.subrange(0, 5),
        header + elems_words(built) == ws.subrange(0, cursor),
        5 <= cursor <= ws.len(),
        built.len() == ws[4],
        2 <= m <= 0x1000_0000,
        forall|i: int| 0 <= i < built.len() ==> 1 <= (#[trigger] built[i]).len() <= MAX_LAYER + 1,
        forall|i: int, l: int|
            0 <= i < built.len() && 0 <= l < built[i].len() ==> (#[trigger] built[i][l]).len()
                <= layer_cap(l, m),
    ensures
        cursor == ws.len(),
        ws[4] > 0 ==> ws[2] < ws[4] && 0 <= ws[2] < built.len() && built[ws[2] as int].len()
            == ws[3] + 1,
        ws[4] == 0 ==> ws[3] == 0,
{
    let count = built.len() as int;
    assert((header + elems_words(built)).len() == 5 + elems_words(built).len());
    assert(ws.subrange(0, cursor).len() == cursor);
    assert(elems_words(built).len() + 5 == cursor);
    assert forall|i: int|
        0 <= i < elems_words(built).len() implies ws.subrange(5, cursor)[i] == elems_words(
        built,
    )[i] by {
        assert(ws.subrange(5, cursor)[i] == ws[5 + i]);
        assert(ws.subrange(0, cursor)[5 + i] == ws[5 + i]);
        assert(ws.subrange(0, cursor)[5 + i] == (header + elems_words(built))[5 + i]);
        assert((header + elems_words(built))[5 + i] == elems_words(built)[i]);
    }
    assert(ws.subrange(5, cursor) =~= elems_words(built));
    assert forall|i: int, l: int|
        0 <= i < built.len() && 0 <= l < built[i].len() implies (#[trigger] built[i][l]).len()
        <= usize::MAX by {
        assert(built[i][l].len() <= layer_cap(l, m));
    }
    lemma_topo_witness_alignment(bs, ws, built, cursor);
    lemma_encoded_topo_header(bs, ws);
    let (t2, c2) = witness_topology(bs);
    let t2n = t2.nbrs();
    assert(t2n.skip(count) =~= Seq::<Seq<Seq<usize>>>::empty());
    assert(elems_words(t2n.skip(count)) == Seq::<u64>::empty());
    assert(ws.skip(cursor).len() == 0);
    assert(built =~= t2n) by {
        assert(t2n.take(count) =~= t2n);
    }
    if c2 > 0 {
        assert(t2.entry_point < c2);
        assert(t2n[t2.entry_point as int].len() == t2.layers@[t2.entry_point as int] + 1);
        assert(t2.layers@[t2.entry_point as int] == t2.max_layer);
    }
}

} // verus!
