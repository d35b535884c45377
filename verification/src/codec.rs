//! Little-endian word codec.
//!
//! Page records are serialised as sequences of 64-bit words, each laid
//! out as eight little-endian bytes. This module gives the byte layout
//! its specification and proves the round trip, so that the page-record
//! codecs can work purely at the word level.

use vstd::prelude::*;

verus! {

/// The eight little-endian bytes of one word.
pub open spec fn word_bytes(w: u64) -> Seq<u8> {
    seq![
        (w & 0xff) as u8,
        ((w >> 8) & 0xff) as u8,
        ((w >> 16) & 0xff) as u8,
        ((w >> 24) & 0xff) as u8,
        ((w >> 32) & 0xff) as u8,
        ((w >> 40) & 0xff) as u8,
        ((w >> 48) & 0xff) as u8,
        ((w >> 56) & 0xff) as u8,
    ]
}

/// The word eight little-endian bytes denote (meaningful when
/// `b.len() == 8`).
pub open spec fn bytes_word(b: Seq<u8>) -> u64 {
    (b[0] as u64) | ((b[1] as u64) << 8) | ((b[2] as u64) << 16) | ((b[3] as u64) << 24) | ((
    b[4] as u64) << 32) | ((b[5] as u64) << 40) | ((b[6] as u64) << 48) | ((b[7] as u64) << 56)
}

pub proof fn lemma_word_roundtrip(w: u64)
    ensures
        bytes_word(word_bytes(w)) == w,
{
    assert(((w & 0xff) as u8 as u64) | ((((w >> 8) & 0xff) as u8 as u64) << 8) | ((((w >> 16)
        & 0xff) as u8 as u64) << 16) | ((((w >> 24) & 0xff) as u8 as u64) << 24) | ((((w >> 32)
        & 0xff) as u8 as u64) << 32) | ((((w >> 40) & 0xff) as u8 as u64) << 40) | ((((w >> 48)
        & 0xff) as u8 as u64) << 48) | ((((w >> 56) & 0xff) as u8 as u64) << 56) == w)
        by (bit_vector);
}

/// Concatenation of the byte layouts of all words in `ws`.
pub open spec fn words_to_bytes(ws: Seq<u64>) -> Seq<u8>
    decreases ws.len(),
{
    if ws.len() == 0 {
        Seq::empty()
    } else {
        word_bytes(ws[0]) + words_to_bytes(ws.drop_first())
    }
}

pub proof fn lemma_words_to_bytes_len(ws: Seq<u64>)
    ensures
        words_to_bytes(ws).len() == 8 * ws.len(),
    decreases ws.len(),
{
    if ws.len() > 0 {
        lemma_words_to_bytes_len(ws.drop_first());
    }
}

pub proof fn lemma_words_to_bytes_snoc(ws: Seq<u64>, w: u64)
    ensures
        words_to_bytes(ws.push(w)) == words_to_bytes(ws) + word_bytes(w),
    decreases ws.len(),
{
    if ws.len() == 0 {
        let s = ws.push(w);
        assert(s.drop_first() =~= Seq::<u64>::empty());
        assert(s[0] == w);
        assert(words_to_bytes(s.drop_first()) =~= Seq::<u8>::empty());
        assert(words_to_bytes(s) =~= word_bytes(w));
        assert(words_to_bytes(ws) + word_bytes(w) =~= word_bytes(w));
    } else {
        lemma_words_to_bytes_snoc(ws.drop_first(), w);
        assert(ws.push(w).drop_first() =~= ws.drop_first().push(w));
        assert(words_to_bytes(ws.push(w)) =~= words_to_bytes(ws) + word_bytes(w));
    }
}

/// The word at word-index `i` of a byte string.
pub open spec fn word_at(b: Seq<u8>, i: int) -> u64 {
    bytes_word(b.subrange(8 * i, 8 * i + 8))
}

/// The words a byte string denotes (meaningful when the length is a
/// multiple of eight).
pub open spec fn bytes_to_words(b: Seq<u8>) -> Seq<u64> {
    Seq::new(b.len() / 8, |i: int| word_at(b, i))
}

pub proof fn lemma_word_at_concat(ws: Seq<u64>, i: int)
    requires
        0 <= i < ws.len(),
    ensures
        word_at(words_to_bytes(ws), i) == ws[i],
    decreases i,
{
    lemma_words_to_bytes_len(ws);
    lemma_words_to_bytes_len(ws.drop_first());
    if i == 0 {
        assert(words_to_bytes(ws).subrange(0, 8) =~= word_bytes(ws[0]));
        lemma_word_roundtrip(ws[0]);
    } else {
        lemma_word_at_concat(ws.drop_first(), i - 1);
        assert(words_to_bytes(ws).subrange(8 * i, 8 * i + 8) =~= words_to_bytes(
            ws.drop_first(),
        ).subrange(8 * (i - 1), 8 * (i - 1) + 8));
    }
}

/// Serialising words and reading them back gives the words again.
pub proof fn lemma_words_roundtrip(ws: Seq<u64>)
    ensures
        bytes_to_words(words_to_bytes(ws)) == ws,
{
    lemma_words_to_bytes_len(ws);
    assert forall|i: int| 0 <= i < ws.len() implies bytes_to_words(words_to_bytes(ws))[i]
        == ws[i] by {
        lemma_word_at_concat(ws, i);
    }
    assert(bytes_to_words(words_to_bytes(ws)) =~= ws);
}

/// Append the eight little-endian bytes of `w`.
pub fn push_word(out: &mut Vec<u8>, w: u64)
    ensures
        final(out)@ == old(out)@ + word_bytes(w),
{
    out.push((w & 0xff) as u8);
    out.push(((w >> 8) & 0xff) as u8);
    out.push(((w >> 16) & 0xff) as u8);
    out.push(((w >> 24) & 0xff) as u8);
    out.push(((w >> 32) & 0xff) as u8);
    out.push(((w >> 40) & 0xff) as u8);
    out.push(((w >> 48) & 0xff) as u8);
    out.push(((w >> 56) & 0xff) as u8);
    proof {
        assert(out@ =~= old(out)@ + word_bytes(w));
    }
}

/// Serialise a word sequence to its byte layout.
pub fn words_to_bytes_exec(ws: &Vec<u64>) -> (r: Vec<u8>)
    ensures
        r@ == words_to_bytes(ws@),
{
    let mut out: Vec<u8> = Vec::new();
    let mut i: usize = 0;
    let n = ws.len();
    while i < n
        invariant
            i <= n,
            n == ws@.len(),
            out@ == words_to_bytes(ws@.take(i as int)),
        decreases n - i,
    {
        proof {
            assert(ws@.take(i + 1) =~= ws@.take(i as int).push(ws@[i as int]));
            lemma_words_to_bytes_snoc(ws@.take(i as int), ws@[i as int]);
        }
        push_word(&mut out, ws[i]);
        i = i + 1;
    }
    proof {
        assert(ws@.take(n as int) =~= ws@);
    }
    out
}

/// Read the word at word-index `i`.
pub fn read_word(b: &Vec<u8>, i: usize) -> (r: u64)
    requires
        8 * i + 8 <= b@.len(),
    ensures
        r == word_at(b@, i as int),
{
    let n = b.len();
    let off: usize = 8 * i;
    let r = (b[off] as u64) | ((b[off + 1] as u64) << 8u64) | ((b[off + 2] as u64) << 16u64) | ((
    b[off + 3] as u64) << 24u64) | ((b[off + 4] as u64) << 32u64) | ((b[off + 5] as u64) << 40u64)
        | ((b[off + 6] as u64) << 48u64) | ((b[off + 7] as u64) << 56u64);
    proof {
        let s = b@.subrange(8 * i, 8 * i + 8);
        assert(s[0] == b@[8 * i]);
        assert(s[1] == b@[8 * i + 1]);
        assert(s[2] == b@[8 * i + 2]);
        assert(s[3] == b@[8 * i + 3]);
        assert(s[4] == b@[8 * i + 4]);
        assert(s[5] == b@[8 * i + 5]);
        assert(s[6] == b@[8 * i + 6]);
        assert(s[7] == b@[8 * i + 7]);
    }
    r
}

/// Deserialise a byte string back into words; fails exactly when the
/// length is not a multiple of eight.
pub fn bytes_to_words_exec(b: &Vec<u8>) -> (r: Option<Vec<u64>>)
    ensures
        match r {
            Some(ws) => b@.len() % 8 == 0 && ws@ == bytes_to_words(b@),
            None => b@.len() % 8 != 0,
        },
{
    if b.len() % 8 != 0 {
        return None;
    }
    let n = b.len() / 8;
    let mut out: Vec<u64> = Vec::new();
    let mut i: usize = 0;
    while i < n
        invariant
            i <= n,
            n == b@.len() / 8,
            b@.len() % 8 == 0,
            out@.len() == i,
            forall|j: int| 0 <= j < i ==> out@[j] == word_at(b@, j),
        decreases n - i,
    {
        let w = read_word(b, i);
        out.push(w);
        i = i + 1;
    }
    proof {
        assert(out@ =~= bytes_to_words(b@));
    }
    Some(out)
}

} // verus!
