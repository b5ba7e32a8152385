use vstd::prelude::*;
use vstd::bytes::lemma_auto_spec_u32_to_from_le_bytes;
use vstd::bytes::spec_u32_from_le_bytes;
use vstd::bytes::spec_u32_to_le_bytes;
use vstd::bytes::u32_from_le_bytes;
use vstd::bytes::u32_to_le_bytes;

verus! {

/// The little-endian 32-bit word spelled by `b[pos .. pos + 4]`.
pub open spec fn word_at(b: Seq<u8>, pos: int) -> u32
    recommends
        0 <= pos,
        pos + 4 <= b.len(),
{
    spec_u32_from_le_bytes(b.subrange(pos, pos + 4))
}

/// The big-endian 32-bit word spelled by `b[pos .. pos + 4]`.
pub open spec fn be_word_at(b: Seq<u8>, pos: int) -> u32
    recommends
        0 <= pos,
        pos + 4 <= b.len(),
{
    spec_u32_from_le_bytes(seq![b[pos + 3], b[pos + 2], b[pos + 1], b[pos]])
}

/// The first position at or after `pos` that is a multiple of `a`.
pub open spec fn spec_align_up(pos: int, a: int) -> int
    recommends
        0 <= pos,
        a > 0,
{
    if pos % a == 0 {
        pos
    } else {
        pos + a - pos % a
    }
}

pub proof fn lemma_align_up(pos: int, a: int)
    requires
        0 <= pos,
        a > 0,
    ensures
        pos <= spec_align_up(pos, a) < pos + a,
        spec_align_up(pos, a) % a == 0,
{
    if pos % a != 0 {
        assert(0 <= pos % a < a);
        assert((pos + a - pos % a) % a == 0) by {
            let q = pos / a;
            vstd::arithmetic::div_mod::lemma_fundamental_div_mod(pos, a);
            assert(a * (q + 1) == a * q + a) by (nonlinear_arith);
            assert(pos + a - pos % a == a * (q + 1));
            vstd::arithmetic::div_mod::lemma_mod_multiples_basic(q + 1, a);
        }
    }
}

/// Reads the little-endian word at `pos` without moving any cursor.
pub fn word_from(data: &Vec<u8>, pos: usize) -> (r: u32)
    requires
        pos + 4 <= data@.len(),
    ensures
        r == word_at(data@, pos as int),
{
    // Naming the length teaches the verifier that `pos + 3` stays in range.
    let _len = data.len();
    let mut buf: Vec<u8> = Vec::new();
    buf.push(data[pos]);
    buf.push(data[pos + 1]);
    buf.push(data[pos + 2]);
    buf.push(data[pos + 3]);
    proof {
        assert(buf@ =~= data@.subrange(pos as int, pos as int + 4));
    }
    u32_from_le_bytes(buf.as_slice())
}

/// Reads the big-endian word at `pos` without moving any cursor.
pub fn be_word_from(data: &Vec<u8>, pos: usize) -> (r: u32)
    requires
        pos + 4 <= data@.len(),
    ensures
        r == be_word_at(data@, pos as int),
{
    // Naming the length teaches the verifier that `pos + 3` stays in range.
    let _len = data.len();
    let mut buf: Vec<u8> = Vec::new();
    buf.push(data[pos + 3]);
    buf.push(data[pos + 2]);
    buf.push(data[pos + 1]);
    buf.push(data[pos]);
    proof {
        assert(buf@ =~= seq![
            data@[pos as int + 3],
            data@[pos as int + 2],
            data@[pos as int + 1],
            data@[pos as int],
        ]);
    }
    u32_from_le_bytes(buf.as_slice())
}

/// The four little-endian bytes of `v`, as `spec_u32_to_le_bytes` spells them.
pub fn le_bytes_of(v: u32) -> (r: Vec<u8>)
    ensures
        r@ == spec_u32_to_le_bytes(v),
        r@.len() == 4,
        spec_u32_from_le_bytes(r@) == v,
{
    proof {
        lemma_auto_spec_u32_to_from_le_bytes();
    }
    u32_to_le_bytes(v)
}

/// A word read back from where its little-endian bytes were put equals the
/// word written.
pub proof fn lemma_word_at_of_le_bytes(b: Seq<u8>, pos: int, v: u32)
    requires
        0 <= pos,
        pos + 4 <= b.len(),
        b.subrange(pos, pos + 4) =~= spec_u32_to_le_bytes(v),
    ensures
        word_at(b, pos) == v,
{
    lemma_auto_spec_u32_to_from_le_bytes();
    assert(spec_u32_to_le_bytes(v).len() == 4);
}

/// Two byte sequences that agree on `b[pos .. pos + 4]` spell the same word
/// there.
pub proof fn lemma_word_at_same(a: Seq<u8>, b: Seq<u8>, pos: int)
    requires
        0 <= pos,
        pos + 4 <= a.len(),
        pos + 4 <= b.len(),
        forall|i: int| pos <= i < pos + 4 ==> a[i] == b[i],
    ensures
        word_at(a, pos) == word_at(b, pos),
{
    assert(a.subrange(pos, pos + 4) =~= b.subrange(pos, pos + 4));
}

} // verus!
