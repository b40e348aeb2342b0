//! The database's tables as bytes, for storage on disk.
//!
//! Every integer is eight bytes, big-endian. A string is its UTF-8 length
//! and bytes; a bit set its count and indices. A word record is its family,
//! tile type, word, value and bit set; a pip record its family, tile type,
//! destination, source and bit set. A file is the number of word records,
//! the word records, the number of pip records and the pip records.
use vstd::prelude::*;
use crate::bits::{check_bitset, same_bits, bits_overlap, is_bitset, overlaps};
use crate::database::{Database, WordBits, PipBits, WordRec, PipRec, words_view, pips_view, words_wf, pips_wf, is_word, is_pip};
use crate::geometry::DeviceGeometry;
use vstd::utf8::{encode_utf8, decode_utf8, valid_utf8, encode_utf8_decode_utf8, encode_utf8_valid_utf8, decode_utf8_encode_utf8};

verus! {

/// The eight big-endian bytes of `n`.
pub open spec fn enc_u64(n: u64) -> Seq<u8> {
    seq![
        (n >> 56u64) as u8,
        (n >> 48u64) as u8,
        (n >> 40u64) as u8,
        (n >> 32u64) as u8,
        (n >> 24u64) as u8,
        (n >> 16u64) as u8,
        (n >> 8u64) as u8,
        n as u8,
    ]
}

proof fn lemma_enc_u64_injective(a: u64, b: u64)
    requires
        enc_u64(a) == enc_u64(b),
    ensures
        a == b,
{
    assert(enc_u64(a)[0] == enc_u64(b)[0] && enc_u64(a)[1] == enc_u64(b)[1] && enc_u64(a)[2] == enc_u64(b)[2]
        && enc_u64(a)[3] == enc_u64(b)[3] && enc_u64(a)[4] == enc_u64(b)[4] && enc_u64(a)[5] == enc_u64(b)[5]
        && enc_u64(a)[6] == enc_u64(b)[6] && enc_u64(a)[7] == enc_u64(b)[7]);
    assert(a == b) by (bit_vector)
        requires
            (a >> 56u64) as u8 == (b >> 56u64) as u8,
            (a >> 48u64) as u8 == (b >> 48u64) as u8,
            (a >> 40u64) as u8 == (b >> 40u64) as u8,
            (a >> 32u64) as u8 == (b >> 32u64) as u8,
            (a >> 24u64) as u8 == (b >> 24u64) as u8,
            (a >> 16u64) as u8 == (b >> 16u64) as u8,
            (a >> 8u64) as u8 == (b >> 8u64) as u8,
            a as u8 == b as u8,
    ;
}

fn push_u64(out: &mut Vec<u8>, n: u64)
    ensures
        final(out)@ == old(out)@ + enc_u64(n),
{
    out.push((n >> 56u64) as u8);
    out.push((n >> 48u64) as u8);
    out.push((n >> 40u64) as u8);
    out.push((n >> 32u64) as u8);
    out.push((n >> 24u64) as u8);
    out.push((n >> 16u64) as u8);
    out.push((n >> 8u64) as u8);
    out.push(n as u8);
    assert(out@ =~= old(out)@ + enc_u64(n));
}

/// Whether the bytes of `buf` from `pos` start with `e`.
pub open spec fn holds_at(buf: Seq<u8>, pos: int, e: Seq<u8>) -> bool {
    0 <= pos && pos + e.len() <= buf.len() && buf.subrange(pos, pos + e.len()) == e
}

fn read_u64(buf: &Vec<u8>, pos: usize) -> (r: Option<(u64, usize)>)
    ensures
        r matches Some((n, p)) ==> p == pos + 8 && holds_at(buf@, pos as int, enc_u64(n)),
        forall|m: u64| #[trigger] holds_at(buf@, pos as int, enc_u64(m)) ==> r == Some((m, (pos + 8) as usize)),
{
    let len = buf.len();
    if pos > len || len - pos < 8 {
        return None;
    }
    let b0 = buf[pos];
    let b1 = buf[pos + 1];
    let b2 = buf[pos + 2];
    let b3 = buf[pos + 3];
    let b4 = buf[pos + 4];
    let b5 = buf[pos + 5];
    let b6 = buf[pos + 6];
    let b7 = buf[pos + 7];
    let n: u64 = (b0 as u64) << 56u64 | (b1 as u64) << 48u64 | (b2 as u64) << 40u64 | (b3 as u64) << 32u64
        | (b4 as u64) << 24u64 | (b5 as u64) << 16u64 | (b6 as u64) << 8u64 | (b7 as u64);
    assert((n >> 56u64) as u8 == b0 && (n >> 48u64) as u8 == b1 && (n >> 40u64) as u8 == b2 && (n >> 32u64) as u8
        == b3 && (n >> 24u64) as u8 == b4 && (n >> 16u64) as u8 == b5 && (n >> 8u64) as u8 == b6 && n as u8 == b7)
        by (bit_vector)
        requires
            n == (b0 as u64) << 56u64 | (b1 as u64) << 48u64 | (b2 as u64) << 40u64 | (b3 as u64) << 32u64
                | (b4 as u64) << 24u64 | (b5 as u64) << 16u64 | (b6 as u64) << 8u64 | (b7 as u64),
    ;
    assert(buf@.subrange(pos as int, pos + 8) =~= enc_u64(n));
    proof {
        assert forall|m: u64| #[trigger] holds_at(buf@, pos as int, enc_u64(m)) implies m == n by {
            lemma_enc_u64_injective(m, n);
        }
    }
    Some((n, pos + 8))
}

/// Bytes hold a concatenation where they hold its first part and, after
/// it, its second.
pub proof fn lemma_holds_at_concat(buf: Seq<u8>, pos: int, a: Seq<u8>, b: Seq<u8>)
    ensures
        holds_at(buf, pos, a + b) <==> (holds_at(buf, pos, a) && holds_at(buf, pos + a.len(), b)),
{
    if holds_at(buf, pos, a + b) {
        assert(buf.subrange(pos, pos + a.len()) =~= (a + b).subrange(0, a.len() as int));
        assert(buf.subrange(pos + a.len(), pos + a.len() + b.len()) =~= (a + b).subrange(a.len() as int, (a.len() + b.len()) as int));
        assert((a + b).subrange(0, a.len() as int) =~= a);
        assert((a + b).subrange(a.len() as int, (a.len() + b.len()) as int) =~= b);
    }
    if holds_at(buf, pos, a) && holds_at(buf, pos + a.len(), b) {
        assert(buf.subrange(pos, pos + (a + b).len()) =~= a + b);
    }
}

/// A string: the length of its UTF-8 encoding, then that encoding.
pub open spec fn enc_str(s: Seq<char>) -> Seq<u8> {
    enc_u64(encode_utf8(s).len() as u64) + encode_utf8(s)
}

/// Relies on std::str::from_utf8: it fails exactly on bytes that are not
/// valid UTF-8, and otherwise yields the string they encode.
#[verifier::external_body]
fn utf8_string(b: &Vec<u8>) -> (r: Option<String>)
    ensures
        r is None <==> !valid_utf8(b@),
        r matches Some(s) ==> s@ == decode_utf8(b@),
{
    match std::str::from_utf8(b.as_slice()) {
        Ok(s) => Some(s.to_string()),
        Err(_) => None,
    }
}

fn push_str(out: &mut Vec<u8>, s: &String)
    ensures
        final(out)@ == old(out)@ + enc_str(s@),
{
    let b = s.as_str().as_bytes();
    assert(b@ == encode_utf8(s@));
    push_u64(out, b.len() as u64);
    let ghost mid = out@;
    let mut i: usize = 0;
    while i < b.len()
        invariant
            i <= b@.len(),
            out@ =~= mid + b@.subrange(0, i as int),
        decreases b@.len() - i,
    {
        out.push(b[i]);
        i += 1;
    }
    assert(b@.subrange(0, b@.len() as int) =~= b@);
    assert(out@ =~= old(out)@ + enc_str(s@));
}

fn read_str(buf: &Vec<u8>, pos: usize) -> (r: Option<(String, usize)>)
    ensures
        r matches Some((s, p)) ==> p == pos + enc_str(s@).len() && holds_at(buf@, pos as int, enc_str(s@)),
        forall|t: Seq<char>| #[trigger] holds_at(buf@, pos as int, enc_str(t)) ==> (r matches Some((s, p)) && s@
            == t),
{
    let len = buf.len();
    let (n, p) = match read_u64(buf, pos) {
        Some(x) => x,
        None => {
            proof {
                assert forall|t: Seq<char>| #[trigger] holds_at(buf@, pos as int, enc_str(t)) implies false by {
                    lemma_holds_at_concat(buf@, pos as int, enc_u64(encode_utf8(t).len() as u64), encode_utf8(t));
                }
            }
            return None;
        },
    };
    if n > (len - p) as u64 {
        proof {
            assert forall|t: Seq<char>| #[trigger] holds_at(buf@, pos as int, enc_str(t)) implies false by {
                lemma_holds_at_concat(buf@, pos as int, enc_u64(encode_utf8(t).len() as u64), encode_utf8(t));
            }
        }
        return None;
    }
    let end = p + n as usize;
    let mut v: Vec<u8> = Vec::new();
    let mut i: usize = p;
    while i < end
        invariant
            p <= i <= end <= buf@.len(),
            v@ =~= buf@.subrange(p as int, i as int),
        decreases end - i,
    {
        v.push(buf[i]);
        i += 1;
    }
    proof {
        assert forall|t: Seq<char>| #[trigger] holds_at(buf@, pos as int, enc_str(t)) implies v@ == encode_utf8(t) by {
            lemma_holds_at_concat(buf@, pos as int, enc_u64(encode_utf8(t).len() as u64), encode_utf8(t));
            assert(encode_utf8(t).len() as u64 == n);
            encode_utf8_valid_utf8(t);
        }
    }
    match utf8_string(&v) {
        None => {
            proof {
                assert forall|t: Seq<char>| #[trigger] holds_at(buf@, pos as int, enc_str(t)) implies false by {
                    encode_utf8_valid_utf8(t);
                }
            }
            None
        },
        Some(s) => {
            proof {
                decode_utf8_encode_utf8(v@);
                assert(encode_utf8(s@) == v@);
                lemma_holds_at_concat(buf@, pos as int, enc_u64(n), v@);
                assert forall|t: Seq<char>| #[trigger] holds_at(buf@, pos as int, enc_str(t)) implies s@ == t by {
                    encode_utf8_decode_utf8(t);
                }
            }
            Some((s, end))
        },
    }
}

/// The indices of a bit set, each as eight bytes.
pub open spec fn enc_indices(b: Seq<usize>) -> Seq<u8>
    decreases b.len(),
{
    if b.len() == 0 {
        Seq::empty()
    } else {
        enc_indices(b.drop_last()) + enc_u64(b.last() as u64)
    }
}

/// A bit set: its count, then its indices.
pub open spec fn enc_bits(b: Seq<usize>) -> Seq<u8> {
    enc_u64(b.len() as u64) + enc_indices(b)
}

proof fn lemma_enc_indices_len(b: Seq<usize>)
    ensures
        enc_indices(b).len() == 8 * b.len(),
    decreases b.len(),
{
    if b.len() > 0 {
        lemma_enc_indices_len(b.drop_last());
    }
}

proof fn lemma_enc_indices_prefix(buf: Seq<u8>, pos: int, t: Seq<usize>, i: int)
    requires
        0 <= i <= t.len(),
        holds_at(buf, pos, enc_indices(t)),
    ensures
        holds_at(buf, pos, enc_indices(t.take(i))),
    decreases t.len(),
{
    if i == t.len() {
        assert(t.take(i) =~= t);
    } else {
        let d = t.drop_last();
        lemma_holds_at_concat(buf, pos, enc_indices(d), enc_u64(t.last() as u64));
        lemma_enc_indices_prefix(buf, pos, d, i);
        assert(d.take(i) =~= t.take(i));
    }
}

fn push_bits(out: &mut Vec<u8>, b: &Vec<usize>)
    ensures
        final(out)@ == old(out)@ + enc_bits(b@),
{
    push_u64(out, b.len() as u64);
    let ghost mid = out@;
    let mut i: usize = 0;
    while i < b.len()
        invariant
            i <= b@.len(),
            out@ =~= mid + enc_indices(b@.take(i as int)),
        decreases b@.len() - i,
    {
        push_u64(out, b[i] as u64);
        proof {
            assert(b@.take(i + 1).drop_last() =~= b@.take(i as int));
        }
        i += 1;
    }
    assert(b@.take(b@.len() as int) =~= b@);
    assert(out@ =~= old(out)@ + enc_bits(b@));
}

fn read_bits(buf: &Vec<u8>, pos: usize) -> (r: Option<(Vec<usize>, usize)>)
    ensures
        r matches Some((b, p)) ==> p == pos + enc_bits(b@).len() && holds_at(buf@, pos as int, enc_bits(b@)),
        forall|t: Seq<usize>| #[trigger] holds_at(buf@, pos as int, enc_bits(t)) ==> (r matches Some((b, p)) && b@
            == t),
{
    let len = buf.len();
    let (n, p) = match read_u64(buf, pos) {
        Some(x) => x,
        None => {
            proof {
                assert forall|t: Seq<usize>| #[trigger] holds_at(buf@, pos as int, enc_bits(t)) implies false by {
                    lemma_holds_at_concat(buf@, pos as int, enc_u64(t.len() as u64), enc_indices(t));
                }
            }
            return None;
        },
    };
    proof {
        assert forall|t: Seq<usize>| #[trigger] holds_at(buf@, pos as int, enc_bits(t)) implies t.len() == n
            && holds_at(buf@, p as int, enc_indices(t)) && 8 * t.len() <= len - p by {
            lemma_holds_at_concat(buf@, pos as int, enc_u64(t.len() as u64), enc_indices(t));
            lemma_enc_indices_len(t);
        }
    }
    if n > ((len - p) / 8) as u64 {
        return None;
    }
    let count = n as usize;
    let mut v: Vec<usize> = Vec::new();
    let mut q: usize = p;
    let mut i: usize = 0;
    assert(buf@.subrange(p as int, p as int) =~= enc_indices(v@));
    assert forall|t: Seq<usize>| #[trigger] holds_at(buf@, pos as int, enc_bits(t)) implies v@ == t.take(0) by {
        assert(v@ =~= t.take(0));
    }
    while i < count
        invariant
            p <= len == buf@.len(),
            count == n,
            8 * count <= len - p,
            i <= count,
            q == p + 8 * i,
            v@.len() == i,
            holds_at(buf@, p as int, enc_indices(v@)),
            forall|t: Seq<usize>| #[trigger] holds_at(buf@, pos as int, enc_bits(t)) ==> t.len() == n
                && holds_at(buf@, p as int, enc_indices(t)) && v@ == t.take(i as int),
        decreases count - i,
    {
        proof {
            assert forall|t: Seq<usize>| #[trigger] holds_at(buf@, pos as int, enc_bits(t)) implies holds_at(
                buf@,
                q as int,
                enc_u64(t[i as int] as u64),
            ) by {
                lemma_enc_indices_prefix(buf@, p as int, t, i + 1);
                assert(t.take(i + 1).drop_last() =~= t.take(i as int));
                lemma_enc_indices_len(t.take(i as int));
                lemma_holds_at_concat(buf@, p as int, enc_indices(t.take(i as int)), enc_u64(t[i as int] as u64));
            }
        }
        let (x, q2) = match read_u64(buf, q) {
            Some(y) => y,
            None => {
                return None;
            },
        };
        if x > usize::MAX as u64 {
            return None;
        }
        let ghost old_v = v@;
        v.push(x as usize);
        proof {
            assert(v@.drop_last() =~= old_v);
            lemma_enc_indices_len(old_v);
            lemma_holds_at_concat(buf@, p as int, enc_indices(old_v), enc_u64(x));
            assert forall|t: Seq<usize>| #[trigger] holds_at(buf@, pos as int, enc_bits(t)) implies v@ == t.take(
                i + 1,
            ) by {
                assert(v@ =~= t.take(i + 1));
            }
        }
        q = q2;
        i += 1;
    }
    proof {
        lemma_enc_indices_len(v@);
        lemma_holds_at_concat(buf@, pos as int, enc_u64(n), enc_indices(v@));
        assert forall|t: Seq<usize>| #[trigger] holds_at(buf@, pos as int, enc_bits(t)) implies v@ == t by {
            assert(t.take(i as int) =~= t);
        }
    }
    Some((v, q))
}

/// A word record.
pub open spec fn enc_word(r: WordRec) -> Seq<u8> {
    enc_str(r.family) + enc_str(r.tiletype) + enc_str(r.word) + enc_u64(r.value as u64) + enc_bits(r.bits)
}

/// Word records, one after another.
pub open spec fn enc_words(tb: Seq<WordRec>) -> Seq<u8>
    decreases tb.len(),
{
    if tb.len() == 0 {
        Seq::empty()
    } else {
        enc_words(tb.drop_last()) + enc_word(tb.last())
    }
}

proof fn lemma_enc_words_prefix(buf: Seq<u8>, pos: int, t: Seq<WordRec>, i: int)
    requires
        0 <= i <= t.len(),
        holds_at(buf, pos, enc_words(t)),
    ensures
        holds_at(buf, pos, enc_words(t.take(i))),
    decreases t.len(),
{
    if i == t.len() {
        assert(t.take(i) =~= t);
    } else {
        let d = t.drop_last();
        lemma_holds_at_concat(buf, pos, enc_words(d), enc_word(t.last()));
        lemma_enc_words_prefix(buf, pos, d, i);
        assert(d.take(i) =~= t.take(i));
    }
}

proof fn lemma_enc_words_len(t: Seq<WordRec>)
    ensures
        enc_words(t).len() >= t.len(),
    decreases t.len(),
{
    if t.len() > 0 {
        lemma_enc_words_len(t.drop_last());
    }
}

fn push_word(out: &mut Vec<u8>, r: &WordBits)
    ensures
        final(out)@ == old(out)@ + enc_word(r@),
{
    push_str(out, &r.family);
    push_str(out, &r.tiletype);
    push_str(out, &r.word);
    push_u64(out, r.value as u64);
    push_bits(out, &r.bits);
    assert(out@ =~= old(out)@ + enc_word(r@));
}

fn read_word(buf: &Vec<u8>, pos: usize) -> (r: Option<(WordBits, usize)>)
    ensures
        r matches Some((w, p)) ==> p == pos + enc_word(w@).len() && holds_at(buf@, pos as int, enc_word(w@)),
        forall|t: WordRec| #[trigger] holds_at(buf@, pos as int, enc_word(t)) ==> (r matches Some((w, p)) && w@ == t),
{
    let ghost b = buf@;
    proof {
        assert forall|t: WordRec| #[trigger] holds_at(b, pos as int, enc_word(t)) implies {
            let p1 = pos + enc_str(t.family).len();
            let p2 = p1 + enc_str(t.tiletype).len();
            let p3 = p2 + enc_str(t.word).len();
            let p4 = p3 + 8;
            &&& holds_at(b, pos as int, enc_str(t.family))
            &&& holds_at(b, p1, enc_str(t.tiletype))
            &&& holds_at(b, p2, enc_str(t.word))
            &&& holds_at(b, p3, enc_u64(t.value as u64))
            &&& holds_at(b, p4, enc_bits(t.bits))
        } by {
            let a1 = enc_str(t.family);
            let a2 = a1 + enc_str(t.tiletype);
            let a3 = a2 + enc_str(t.word);
            let a4 = a3 + enc_u64(t.value as u64);
            lemma_holds_at_concat(b, pos as int, a4, enc_bits(t.bits));
            lemma_holds_at_concat(b, pos as int, a3, enc_u64(t.value as u64));
            lemma_holds_at_concat(b, pos as int, a2, enc_str(t.word));
            lemma_holds_at_concat(b, pos as int, a1, enc_str(t.tiletype));
        }
    }
    let (family, p1) = match read_str(buf, pos) {
        Some(x) => x,
        None => return None,
    };
    let (tiletype, p2) = match read_str(buf, p1) {
        Some(x) => x,
        None => return None,
    };
    let (word, p3) = match read_str(buf, p2) {
        Some(x) => x,
        None => return None,
    };
    let (value, p4) = match read_u64(buf, p3) {
        Some(x) => x,
        None => return None,
    };
    if value > usize::MAX as u64 {
        return None;
    }
    let (bits, p5) = match read_bits(buf, p4) {
        Some(x) => x,
        None => return None,
    };
    let w = WordBits { family, tiletype, word, value: value as usize, bits };
    proof {
        let a1 = enc_str(w@.family);
        let a2 = a1 + enc_str(w@.tiletype);
        let a3 = a2 + enc_str(w@.word);
        let a4 = a3 + enc_u64(value);
        lemma_holds_at_concat(b, pos as int, a1, enc_str(w@.tiletype));
        lemma_holds_at_concat(b, pos as int, a2, enc_str(w@.word));
        lemma_holds_at_concat(b, pos as int, a3, enc_u64(value));
        lemma_holds_at_concat(b, pos as int, a4, enc_bits(w@.bits));
    }
    Some((w, p5))
}

/// A table of word records: its length, then its records.
pub open spec fn enc_word_table(tb: Seq<WordRec>) -> Seq<u8> {
    enc_u64(tb.len() as u64) + enc_words(tb)
}

fn push_word_table(out: &mut Vec<u8>, tb: &Vec<WordBits>)
    ensures
        final(out)@ == old(out)@ + enc_word_table(words_view(tb@)),
{
    push_u64(out, tb.len() as u64);
    let ghost mid = out@;
    let ghost v = words_view(tb@);
    let mut i: usize = 0;
    while i < tb.len()
        invariant
            v == words_view(tb@),
            i <= tb@.len(),
            out@ =~= mid + enc_words(v.take(i as int)),
        decreases tb@.len() - i,
    {
        push_word(out, &tb[i]);
        proof {
            assert(v.take(i + 1).drop_last() =~= v.take(i as int));
        }
        i += 1;
    }
    assert(v.take(tb@.len() as int) =~= v);
    assert(out@ =~= old(out)@ + enc_word_table(v));
}

fn read_word_table(buf: &Vec<u8>, pos: usize) -> (r: Option<(Vec<WordBits>, usize)>)
    ensures
        r matches Some((tb, p)) ==> p == pos + enc_word_table(words_view(tb@)).len() && holds_at(
            buf@,
            pos as int,
            enc_word_table(words_view(tb@)),
        ),
        forall|t: Seq<WordRec>| #[trigger] holds_at(buf@, pos as int, enc_word_table(t)) ==> (r matches Some((tb, p))
            && words_view(tb@) == t),
{
    let len = buf.len();
    let (n, p) = match read_u64(buf, pos) {
        Some(x) => x,
        None => {
            proof {
                assert forall|t: Seq<WordRec>| #[trigger] holds_at(buf@, pos as int, enc_word_table(t)) implies false by {
                    lemma_holds_at_concat(buf@, pos as int, enc_u64(t.len() as u64), enc_words(t));
                }
            }
            return None;
        },
    };
    proof {
        assert forall|t: Seq<WordRec>| #[trigger] holds_at(buf@, pos as int, enc_word_table(t)) implies t.len() == n
            && holds_at(buf@, p as int, enc_words(t)) && t.len() <= len - p by {
            lemma_holds_at_concat(buf@, pos as int, enc_u64(t.len() as u64), enc_words(t));
            lemma_enc_words_len(t);
        }
    }
    if n > (len - p) as u64 {
        return None;
    }
    let count = n as usize;
    let mut v: Vec<WordBits> = Vec::new();
    let mut q: usize = p;
    let mut i: usize = 0;
    assert(buf@.subrange(p as int, p as int) =~= enc_words(words_view(v@)));
    assert forall|t: Seq<WordRec>| #[trigger] holds_at(buf@, pos as int, enc_word_table(t)) implies words_view(v@)
        == t.take(0) by {
        assert(words_view(v@) =~= t.take(0));
    }
    while i < count
        invariant
            p <= len == buf@.len(),
            count == n,
            i <= count,
            v@.len() == i,
            q == p + enc_words(words_view(v@)).len(),
            holds_at(buf@, p as int, enc_words(words_view(v@))),
            forall|t: Seq<WordRec>| #[trigger] holds_at(buf@, pos as int, enc_word_table(t)) ==> t.len() == n
                && holds_at(buf@, p as int, enc_words(t)) && words_view(v@) == t.take(i as int),
        decreases count - i,
    {
        proof {
            assert forall|t: Seq<WordRec>| #[trigger] holds_at(buf@, pos as int, enc_word_table(t)) implies holds_at(
                buf@,
                q as int,
                enc_word(t[i as int]),
            ) by {
                lemma_enc_words_prefix(buf@, p as int, t, i + 1);
                assert(t.take(i + 1).drop_last() =~= t.take(i as int));
                lemma_holds_at_concat(buf@, p as int, enc_words(t.take(i as int)), enc_word(t[i as int]));
            }
        }
        let (w, q2) = match read_word(buf, q) {
            Some(y) => y,
            None => {
                return None;
            },
        };
        let ghost old_v = words_view(v@);
        v.push(w);
        proof {
            assert(words_view(v@) =~= old_v.push(w@));
            assert(words_view(v@).drop_last() =~= old_v);
            lemma_holds_at_concat(buf@, p as int, enc_words(old_v), enc_word(w@));
            assert forall|t: Seq<WordRec>| #[trigger] holds_at(buf@, pos as int, enc_word_table(t)) implies words_view(
                v@,
            ) == t.take(i + 1) by {
                assert(words_view(v@) =~= t.take(i + 1));
            }
        }
        q = q2;
        i += 1;
    }
    proof {
        lemma_holds_at_concat(buf@, pos as int, enc_u64(n), enc_words(words_view(v@)));
        assert forall|t: Seq<WordRec>| #[trigger] holds_at(buf@, pos as int, enc_word_table(t)) implies words_view(v@)
            == t by {
            assert(t.take(i as int) =~= t);
        }
    }
    Some((v, q))
}

/// A pip record.
pub open spec fn enc_pip(r: PipRec) -> Seq<u8> {
    enc_str(r.family) + enc_str(r.tiletype) + enc_str(r.to_wire) + enc_str(r.from_wire) + enc_bits(r.bits)
}

/// Pip records, one after another.
pub open spec fn enc_pips(tb: Seq<PipRec>) -> Seq<u8>
    decreases tb.len(),
{
    if tb.len() == 0 {
        Seq::empty()
    } else {
        enc_pips(tb.drop_last()) + enc_pip(tb.last())
    }
}

proof fn lemma_enc_pips_prefix(buf: Seq<u8>, pos: int, t: Seq<PipRec>, i: int)
    requires
        0 <= i <= t.len(),
        holds_at(buf, pos, enc_pips(t)),
    ensures
        holds_at(buf, pos, enc_pips(t.take(i))),
    decreases t.len(),
{
    if i == t.len() {
        assert(t.take(i) =~= t);
    } else {
        let d = t.drop_last();
        lemma_holds_at_concat(buf, pos, enc_pips(d), enc_pip(t.last()));
        lemma_enc_pips_prefix(buf, pos, d, i);
        assert(d.take(i) =~= t.take(i));
    }
}

proof fn lemma_enc_pips_len(t: Seq<PipRec>)
    ensures
        enc_pips(t).len() >= t.len(),
    decreases t.len(),
{
    if t.len() > 0 {
        lemma_enc_pips_len(t.drop_last());
    }
}

fn push_pip(out: &mut Vec<u8>, r: &PipBits)
    ensures
        final(out)@ == old(out)@ + enc_pip(r@),
{
    push_str(out, &r.family);
    push_str(out, &r.tiletype);
    push_str(out, &r.to_wire);
    push_str(out, &r.from_wire);
    push_bits(out, &r.bits);
    assert(out@ =~= old(out)@ + enc_pip(r@));
}

fn read_pip(buf: &Vec<u8>, pos: usize) -> (r: Option<(PipBits, usize)>)
    ensures
        r matches Some((w, p)) ==> p == pos + enc_pip(w@).len() && holds_at(buf@, pos as int, enc_pip(w@)),
        forall|t: PipRec| #[trigger] holds_at(buf@, pos as int, enc_pip(t)) ==> (r matches Some((w, p)) && w@ == t),
{
    let ghost b = buf@;
    proof {
        assert forall|t: PipRec| #[trigger] holds_at(b, pos as int, enc_pip(t)) implies {
            let p1 = pos + enc_str(t.family).len();
            let p2 = p1 + enc_str(t.tiletype).len();
            let p3 = p2 + enc_str(t.to_wire).len();
            let p4 = p3 + enc_str(t.from_wire).len();
            &&& holds_at(b, pos as int, enc_str(t.family))
            &&& holds_at(b, p1, enc_str(t.tiletype))
            &&& holds_at(b, p2, enc_str(t.to_wire))
            &&& holds_at(b, p3, enc_str(t.from_wire))
            &&& holds_at(b, p4, enc_bits(t.bits))
        } by {
            let a1 = enc_str(t.family);
            let a2 = a1 + enc_str(t.tiletype);
            let a3 = a2 + enc_str(t.to_wire);
            let a4 = a3 + enc_str(t.from_wire);
            lemma_holds_at_concat(b, pos as int, a4, enc_bits(t.bits));
            lemma_holds_at_concat(b, pos as int, a3, enc_str(t.from_wire));
            lemma_holds_at_concat(b, pos as int, a2, enc_str(t.to_wire));
            lemma_holds_at_concat(b, pos as int, a1, enc_str(t.tiletype));
        }
    }
    let (family, p1) = match read_str(buf, pos) {
        Some(x) => x,
        None => return None,
    };
    let (tiletype, p2) = match read_str(buf, p1) {
        Some(x) => x,
        None => return None,
    };
    let (to_wire, p3) = match read_str(buf, p2) {
        Some(x) => x,
        None => return None,
    };
    let (from_wire, p4) = match read_str(buf, p3) {
        Some(x) => x,
        None => return None,
    };
    let (bits, p5) = match read_bits(buf, p4) {
        Some(x) => x,
        None => return None,
    };
    let w = PipBits { family, tiletype, to_wire, from_wire, bits };
    proof {
        let a1 = enc_str(w@.family);
        let a2 = a1 + enc_str(w@.tiletype);
        let a3 = a2 + enc_str(w@.to_wire);
        let a4 = a3 + enc_str(w@.from_wire);
        lemma_holds_at_concat(b, pos as int, a1, enc_str(w@.tiletype));
        lemma_holds_at_concat(b, pos as int, a2, enc_str(w@.to_wire));
        lemma_holds_at_concat(b, pos as int, a3, enc_str(w@.from_wire));
        lemma_holds_at_concat(b, pos as int, a4, enc_bits(w@.bits));
    }
    Some((w, p5))
}

/// A table of pip records: its length, then its records.
pub open spec fn enc_pip_table(tb: Seq<PipRec>) -> Seq<u8> {
    enc_u64(tb.len() as u64) + enc_pips(tb)
}

fn push_pip_table(out: &mut Vec<u8>, tb: &Vec<PipBits>)
    ensures
        final(out)@ == old(out)@ + enc_pip_table(pips_view(tb@)),
{
    push_u64(out, tb.len() as u64);
    let ghost mid = out@;
    let ghost v = pips_view(tb@);
    let mut i: usize = 0;
    while i < tb.len()
        invariant
            v == pips_view(tb@),
            i <= tb@.len(),
            out@ =~= mid + enc_pips(v.take(i as int)),
        decreases tb@.len() - i,
    {
        push_pip(out, &tb[i]);
        proof {
            assert(v.take(i + 1).drop_last() =~= v.take(i as int));
        }
        i += 1;
    }
    assert(v.take(tb@.len() as int) =~= v);
    assert(out@ =~= old(out)@ + enc_pip_table(v));
}

fn read_pip_table(buf: &Vec<u8>, pos: usize) -> (r: Option<(Vec<PipBits>, usize)>)
    ensures
        r matches Some((tb, p)) ==> p == pos + enc_pip_table(pips_view(tb@)).len() && holds_at(
            buf@,
            pos as int,
            enc_pip_table(pips_view(tb@)),
        ),
        forall|t: Seq<PipRec>| #[trigger] holds_at(buf@, pos as int, enc_pip_table(t)) ==> (r matches Some((tb, p))
            && pips_view(tb@) == t),
{
    let len = buf.len();
    let (n, p) = match read_u64(buf, pos) {
        Some(x) => x,
        None => {
            proof {
                assert forall|t: Seq<PipRec>| #[trigger] holds_at(buf@, pos as int, enc_pip_table(t)) implies false by {
                    lemma_holds_at_concat(buf@, pos as int, enc_u64(t.len() as u64), enc_pips(t));
                }
            }
            return None;
        },
    };
    proof {
        assert forall|t: Seq<PipRec>| #[trigger] holds_at(buf@, pos as int, enc_pip_table(t)) implies t.len() == n
            && holds_at(buf@, p as int, enc_pips(t)) && t.len() <= len - p by {
            lemma_holds_at_concat(buf@, pos as int, enc_u64(t.len() as u64), enc_pips(t));
            lemma_enc_pips_len(t);
        }
    }
    if n > (len - p) as u64 {
        return None;
    }
    let count = n as usize;
    let mut v: Vec<PipBits> = Vec::new();
    let mut q: usize = p;
    let mut i: usize = 0;
    assert(buf@.subrange(p as int, p as int) =~= enc_pips(pips_view(v@)));
    assert forall|t: Seq<PipRec>| #[trigger] holds_at(buf@, pos as int, enc_pip_table(t)) implies pips_view(v@)
        == t.take(0) by {
        assert(pips_view(v@) =~= t.take(0));
    }
    while i < count
        invariant
            p <= len == buf@.len(),
            count == n,
            i <= count,
            v@.len() == i,
            q == p + enc_pips(pips_view(v@)).len(),
            holds_at(buf@, p as int, enc_pips(pips_view(v@))),
            forall|t: Seq<PipRec>| #[trigger] holds_at(buf@, pos as int, enc_pip_table(t)) ==> t.len() == n
                && holds_at(buf@, p as int, enc_pips(t)) && pips_view(v@) == t.take(i as int),
        decreases count - i,
    {
        proof {
            assert forall|t: Seq<PipRec>| #[trigger] holds_at(buf@, pos as int, enc_pip_table(t)) implies holds_at(
                buf@,
                q as int,
                enc_pip(t[i as int]),
            ) by {
                lemma_enc_pips_prefix(buf@, p as int, t, i + 1);
                assert(t.take(i + 1).drop_last() =~= t.take(i as int));
                lemma_holds_at_concat(buf@, p as int, enc_pips(t.take(i as int)), enc_pip(t[i as int]));
            }
        }
        let (w, q2) = match read_pip(buf, q) {
            Some(y) => y,
            None => {
                return None;
            },
        };
        let ghost old_v = pips_view(v@);
        v.push(w);
        proof {
            assert(pips_view(v@) =~= old_v.push(w@));
            assert(pips_view(v@).drop_last() =~= old_v);
            lemma_holds_at_concat(buf@, p as int, enc_pips(old_v), enc_pip(w@));
            assert forall|t: Seq<PipRec>| #[trigger] holds_at(buf@, pos as int, enc_pip_table(t)) implies pips_view(
                v@,
            ) == t.take(i + 1) by {
                assert(pips_view(v@) =~= t.take(i + 1));
            }
        }
        q = q2;
        i += 1;
    }
    proof {
        lemma_holds_at_concat(buf@, pos as int, enc_u64(n), enc_pips(pips_view(v@)));
        assert forall|t: Seq<PipRec>| #[trigger] holds_at(buf@, pos as int, enc_pip_table(t)) implies pips_view(v@)
            == t by {
            assert(t.take(i as int) =~= t);
        }
    }
    Some((v, q))
}

/// A file: the word table, then the pip table.
pub open spec fn enc_tables(words: Seq<WordRec>, pips: Seq<PipRec>) -> Seq<u8> {
    enc_word_table(words) + enc_pip_table(pips)
}

/// The records of both tables, as bytes.
pub fn encode_tables(words: &Vec<WordBits>, pips: &Vec<PipBits>) -> (r: Vec<u8>)
    ensures
        r@ == enc_tables(words_view(words@), pips_view(pips@)),
{
    let mut out: Vec<u8> = Vec::new();
    push_word_table(&mut out, words);
    push_pip_table(&mut out, pips);
    assert(out@ =~= enc_tables(words_view(words@), pips_view(pips@)));
    out
}

/// The two tables that `buf` holds, if it holds a file and nothing more.
pub fn decode_tables(buf: &Vec<u8>) -> (r: Option<(Vec<WordBits>, Vec<PipBits>)>)
    ensures
        r matches Some((w, p)) ==> enc_tables(words_view(w@), pips_view(p@)) == buf@,
        forall|w: Seq<WordRec>, p: Seq<PipRec>| #[trigger] enc_tables(w, p) == buf@ ==> (r matches Some((
            w2,
            p2,
        )) && words_view(w2@) == w && pips_view(p2@) == p),
{
    proof {
        assert forall|w: Seq<WordRec>, p: Seq<PipRec>| #[trigger] enc_tables(w, p) == buf@ implies holds_at(
            buf@,
            0,
            enc_word_table(w),
        ) && holds_at(buf@, enc_word_table(w).len() as int, enc_pip_table(p)) by {
            assert(buf@.subrange(0, buf@.len() as int) =~= buf@);
            lemma_holds_at_concat(buf@, 0, enc_word_table(w), enc_pip_table(p));
        }
    }
    let (words, q) = match read_word_table(buf, 0) {
        Some(x) => x,
        None => return None,
    };
    let (pips, end) = match read_pip_table(buf, q) {
        Some(x) => x,
        None => return None,
    };
    if end != buf.len() {
        return None;
    }
    proof {
        lemma_holds_at_concat(buf@, 0, enc_word_table(words_view(words@)), enc_pip_table(pips_view(pips@)));
        assert(buf@.subrange(0, buf@.len() as int) =~= buf@);
    }
    Some((words, pips))
}

/// Whether a word table keeps the database's invariant.
fn words_ok(tb: &Vec<WordBits>) -> (r: bool)
    ensures
        r == words_wf(words_view(tb@)),
{
    let ghost v = words_view(tb@);
    let mut a: usize = 0;
    while a < tb.len()
        invariant
            v == words_view(tb@),
            a <= tb@.len(),
            forall|r: int| 0 <= r < a ==> is_bitset(#[trigger] v[r].bits),
            forall|r: int, s: int| #![trigger v[r], v[s]]
                0 <= r < a && 0 <= s < v.len() && r != s && is_word(v[r], v[s].family, v[s].tiletype, v[s].word)
                    ==> v[r].value != v[s].value && v[r].bits != v[s].bits,
        decreases tb@.len() - a,
    {
        assert(v[a as int] == tb@[a as int]@);
        if !check_bitset(&tb[a].bits) {
            assert(!is_bitset(v[a as int].bits));
            return false;
        }
        let mut b: usize = 0;
        while b < tb.len()
            invariant
                v == words_view(tb@),
                a < tb@.len(),
                b <= tb@.len(),
                forall|s: int| #![trigger v[s]]
                    0 <= s < b && a != s && is_word(v[a as int], v[s].family, v[s].tiletype, v[s].word)
                        ==> v[a as int].value != v[s].value && v[a as int].bits != v[s].bits,
            decreases tb@.len() - b,
        {
            let x = &tb[a];
            let y = &tb[b];
            assert(v[b as int] == y@ && v[a as int] == x@);
            if a != b && x.family == y.family && x.tiletype == y.tiletype && x.word == y.word {
                if x.value == y.value || same_bits(&x.bits, &y.bits) {
                    return false;
                }
            }
            b += 1;
        }
        a += 1;
    }
    true
}

/// Whether a pip table keeps the database's invariant.
fn pips_ok(tb: &Vec<PipBits>) -> (r: bool)
    ensures
        r == pips_wf(pips_view(tb@)),
{
    let ghost v = pips_view(tb@);
    let mut a: usize = 0;
    while a < tb.len()
        invariant
            v == pips_view(tb@),
            a <= tb@.len(),
            forall|r: int| 0 <= r < a ==> is_bitset(#[trigger] v[r].bits),
            forall|r: int, s: int| #![trigger v[r], v[s]]
                0 <= r < a && 0 <= s < v.len() && r != s && is_pip(v[r], v[s].family, v[s].tiletype, v[s].to_wire)
                    ==> v[r].from_wire != v[s].from_wire && !overlaps(v[r].bits, v[s].bits),
        decreases tb@.len() - a,
    {
        assert(v[a as int] == tb@[a as int]@);
        if !check_bitset(&tb[a].bits) {
            assert(!is_bitset(v[a as int].bits));
            return false;
        }
        let mut b: usize = 0;
        while b < tb.len()
            invariant
                v == pips_view(tb@),
                a < tb@.len(),
                b <= tb@.len(),
                forall|s: int| #![trigger v[s]]
                    0 <= s < b && a != s && is_pip(v[a as int], v[s].family, v[s].tiletype, v[s].to_wire)
                        ==> v[a as int].from_wire != v[s].from_wire && !overlaps(v[a as int].bits, v[s].bits),
            decreases tb@.len() - b,
        {
            let x = &tb[a];
            let y = &tb[b];
            assert(v[b as int] == y@ && v[a as int] == x@);
            if a != b && x.family == y.family && x.tiletype == y.tiletype && x.to_wire == y.to_wire {
                if x.from_wire == y.from_wire || bits_overlap(&x.bits, &y.bits) {
                    return false;
                }
            }
            b += 1;
        }
        a += 1;
    }
    true
}

impl Database {
    /// Both tables as bytes, for storage.
    pub fn to_bytes(&self) -> (r: Vec<u8>)
        ensures
            r@ == enc_tables(words_view(self.words@), pips_view(self.pips@)),
    {
        encode_tables(&self.words, &self.pips)
    }

    /// A database rooted at `root`, for `devices`, with the tables that
    /// `buf` holds. Fails if `buf` holds no file, or tables that break the
    /// database's invariant.
    pub fn from_bytes(root: String, devices: Vec<DeviceGeometry>, buf: &Vec<u8>) -> (r: Option<Database>)
        ensures
            r matches Some(db) ==> {
                &&& db.wf()
                &&& db.root == root
                &&& db.devices == devices
                &&& enc_tables(words_view(db.words@), pips_view(db.pips@)) == buf@
            },
            forall|w: Seq<WordRec>, p: Seq<PipRec>| #[trigger] enc_tables(w, p) == buf@ && words_wf(w) && pips_wf(p)
                ==> (r matches Some(db) && words_view(db.words@) == w && pips_view(db.pips@) == p),
            forall|w: Seq<WordRec>, p: Seq<PipRec>| #[trigger] enc_tables(w, p) == buf@ && !(words_wf(w) && pips_wf(p))
                ==> r is None,
    {
        let (words, pips) = match decode_tables(buf) {
            Some(x) => x,
            None => return None,
        };
        proof {
            assert forall|w: Seq<WordRec>, p: Seq<PipRec>| #[trigger] enc_tables(w, p) == buf@ implies w == words_view(
                words@,
            ) && p == pips_view(pips@) by {}
        }
        if !words_ok(&words) || !pips_ok(&pips) {
            return None;
        }
        Some(Database { root, devices, words, pips })
    }
}

} // verus!
