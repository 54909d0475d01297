//! Properties that relate the codec's operations to each other.
use crate::bintree::BinTree;
use crate::bits::{code_or_empty, encode_spec, packed, unpack, bit_of};
use crate::builder::{
    count_of, distinct_symbols, huffman_tree, lemma_leaf_list, lemma_merge_all, leaf_list,
    list_syms, lemma_count_sum, lemma_count_pos, present_below,
};
use crate::codec::{codec_ok, decompress_spec, lemma_huffman_tree, HuffmanState};
use crate::image::{has_header, header, lemma_header_unique, starts_with_header};
use crate::codes::{is_prefix, lemma_code_decode, lemma_code_syms};
use crate::node::{code_for, decode_from, hwf, leaves, lemma_size_leaves, syms, table_of, HuffmanNode};
use vstd::prelude::*;

verus! {

/// Sum over the byte values below `n` of their count in `d` times the length
/// of their code in `tbl`.
pub open spec fn weighted_len(tbl: Seq<Option<Seq<bool>>>, d: Seq<u8>, n: nat) -> nat
    decreases n,
{
    if n == 0 {
        0
    } else {
        weighted_len(tbl, d, (n - 1) as nat) + count_of(d, (n - 1) as u8) * code_or_empty(
            tbl[n - 1],
        ).len()
    }
}

proof fn lemma_encode_step(tbl: Seq<Option<Seq<bool>>>, d: Seq<u8>, k: int)
    requires
        0 <= k < d.len(),
    ensures
        encode_spec(tbl, d.take(k + 1)) == encode_spec(tbl, d.take(k)) + code_or_empty(
            tbl[d[k] as int],
        ),
{
    assert(d.take(k + 1).drop_last() =~= d.take(k));
}

proof fn lemma_encode_prefix(tbl: Seq<Option<Seq<bool>>>, d: Seq<u8>, j: int)
    requires
        0 <= j <= d.len(),
    ensures
        is_prefix(encode_spec(tbl, d.take(j)), encode_spec(tbl, d)),
    decreases d.len(),
{
    if j < d.len() {
        lemma_encode_prefix(tbl, d.drop_last(), j);
        assert(d.drop_last().take(j) =~= d.take(j));
        let a = encode_spec(tbl, d.take(j));
        let b = encode_spec(tbl, d.drop_last());
        let c = code_or_empty(tbl[d.last() as int]);
        assert((b + c).subrange(0, a.len() as int) =~= b.subrange(0, a.len() as int));
    } else {
        assert(d.take(j) =~= d);
        let a = encode_spec(tbl, d);
        assert(a.subrange(0, a.len() as int) =~= a);
    }
}

proof fn lemma_decode_suffix(t: BinTree<HuffmanNode>, d: Seq<u8>, bits: Seq<bool>, k: int)
    requires
        hwf(t),
        forall|i: int| 0 <= i < d.len() ==> syms(t).contains(#[trigger] d[i]),
        0 <= k <= d.len(),
        is_prefix(encode_spec(table_of(t), d), bits),
    ensures
        decode_from(
            t,
            bits,
            encode_spec(table_of(t), d.take(k)).len() as int,
            (d.len() - k) as nat,
            d.take(k),
        ) == Some(d),
    decreases d.len() - k,
{
    let tbl = table_of(t);
    if k == d.len() {
        assert(d.take(k) =~= d);
    } else {
        let s = d[k];
        lemma_encode_step(tbl, d, k);
        lemma_encode_prefix(tbl, d, k + 1);
        lemma_code_syms(t, s);
        assert(tbl[s as int] == code_for(t, s));
        let c = code_for(t, s)->0;
        let e = encode_spec(tbl, d.take(k));
        let f = encode_spec(tbl, d.take(k + 1));
        let all = encode_spec(tbl, d);
        assert(f == e + c);
        assert(bits.subrange(0, f.len() as int) =~= f) by {
            assert(bits.subrange(0, all.len() as int) == all);
            assert(all.subrange(0, f.len() as int) == f);
            assert(bits.subrange(0, f.len() as int) =~= bits.subrange(0, all.len() as int).subrange(
                0,
                f.len() as int,
            ));
        }
        assert(bits.subrange(e.len() as int, (e.len() + c.len()) as int) =~= c) by {
            assert(bits.subrange(e.len() as int, (e.len() + c.len()) as int) =~= bits.subrange(
                0,
                f.len() as int,
            ).subrange(e.len() as int, f.len() as int));
            assert(f.subrange(e.len() as int, f.len() as int) =~= c);
        }
        lemma_code_decode(t, s, bits, e.len() as int);
        lemma_decode_suffix(t, d, bits, k + 1);
        assert(d.take(k).push(s) =~= d.take(k + 1));
    }
}

/// Decompressing what a codec compresses gives back its bytes: for a tree,
/// table and bytes related as in a codec, decoding any packing of the codes
/// of the bytes yields the bytes.
pub proof fn lemma_round_trip(t: BinTree<HuffmanNode>, d: Seq<u8>, bytes: Seq<u8>)
    requires
        codec_ok(t, table_of(t), d),
        packed(encode_spec(table_of(t), d), bytes),
    ensures
        decompress_spec(t, bytes) == Some(d),
{
    let enc = encode_spec(table_of(t), d);
    let bits = unpack(bytes);
    assert(bits.subrange(0, enc.len() as int) =~= enc) by {
        assert forall|i: int| 0 <= i < enc.len() implies bits[i] == enc[i] by {
            assert(bit_of(bytes, i) == (i < enc.len() && enc[i]));
        }
    }
    lemma_decode_suffix(t, d, bits, 0);
    assert(d.take(0) =~= Seq::<u8>::empty());
    assert(encode_spec(table_of(t), d.take(0)).len() == 0);
}

/// For every non-empty input, decompressing the compressed input with the
/// tree built for it gives back the input.
pub proof fn lemma_build_round_trip(d: Seq<u8>, bytes: Seq<u8>)
    requires
        0 < d.len() <= u64::MAX,
        packed(encode_spec(table_of(huffman_tree(d)), d), bytes),
    ensures
        decompress_spec(huffman_tree(d), bytes) == Some(d),
{
    lemma_huffman_tree(d);
    lemma_round_trip(huffman_tree(d), d, bytes);
}

proof fn lemma_weighted_push(tbl: Seq<Option<Seq<bool>>>, d: Seq<u8>, n: nat)
    requires
        d.len() > 0,
        n <= 256,
    ensures
        weighted_len(tbl, d, n) == weighted_len(tbl, d.drop_last(), n) + if (d.last() as nat) < n {
            code_or_empty(tbl[d.last() as int]).len()
        } else {
            0
        },
    decreases n,
{
    if n > 0 {
        lemma_weighted_push(tbl, d, (n - 1) as nat);
        let s = (n - 1) as u8;
        let a = count_of(d.drop_last(), s);
        let len = code_or_empty(tbl[n - 1]).len();
        if d.last() == s {
            assert((a + 1) * len == a * len + len) by (nonlinear_arith);
        }
    }
}

proof fn lemma_weighted_empty(tbl: Seq<Option<Seq<bool>>>, d: Seq<u8>, n: nat)
    requires
        d.len() == 0,
    ensures
        weighted_len(tbl, d, n) == 0,
    decreases n,
{
    if n > 0 {
        lemma_weighted_empty(tbl, d, (n - 1) as nat);
        let len = code_or_empty(tbl[n - 1]).len();
        assert(count_of(d, (n - 1) as u8) == 0);
        assert(0 * len == 0) by (nonlinear_arith);
    }
}

/// The number of bits of the codes of `d` is the sum over the byte values
/// of their count times the length of their code.
pub proof fn lemma_encode_len(tbl: Seq<Option<Seq<bool>>>, d: Seq<u8>)
    requires
        tbl.len() == 256,
    ensures
        encode_spec(tbl, d).len() == weighted_len(tbl, d, 256),
    decreases d.len(),
{
    if d.len() == 0 {
        lemma_weighted_empty(tbl, d, 256);
    } else {
        lemma_encode_len(tbl, d.drop_last());
        lemma_weighted_push(tbl, d, 256);
    }
}

/// The compressed form of a non-empty input has as many bytes as it takes to
/// hold, for every byte value, its count times the length of its code.
pub proof fn lemma_size_law(d: Seq<u8>, bytes: Seq<u8>)
    requires
        0 < d.len() <= u64::MAX,
        packed(encode_spec(table_of(huffman_tree(d)), d), bytes),
    ensures
        bytes.len() == (weighted_len(table_of(huffman_tree(d)), d, 256) + 7) / 8,
{
    lemma_encode_len(table_of(huffman_tree(d)), d);
}

/// The tree built for an input with `k` distinct byte values has `k` leaves,
/// `k - 1` merged nodes, and `2k - 1` nodes in all.
pub proof fn lemma_tree_size(d: Seq<u8>)
    requires
        0 < d.len() <= u64::MAX,
    ensures
        leaves(huffman_tree(d)) == distinct_symbols(d),
        huffman_tree(d).size() - leaves(huffman_tree(d)) == distinct_symbols(d) - 1,
        huffman_tree(d).size() == 2 * distinct_symbols(d) - 1,
{
    lemma_leaf_list(d, 256);
    lemma_count_sum(d);
    let l = leaf_list(d, 256);
    lemma_count_pos(d, 0);
    assert(present_below(d, 256).contains(d[0]));
    if l.len() == 0 {
        assert(list_syms(l) =~= Set::empty());
    }
    lemma_merge_all(l);
    lemma_size_leaves(huffman_tree(d));
}

/// Two codecs built from the same bytes have the same tree and the same
/// code table.
pub proof fn lemma_build_deterministic(a: HuffmanState, b: HuffmanState)
    requires
        a.wf(),
        b.wf(),
        a.spec_tree() == huffman_tree(a.spec_raw_data()),
        b.spec_tree() == huffman_tree(b.spec_raw_data()),
        a.spec_raw_data() == b.spec_raw_data(),
    ensures
        a.spec_tree() == b.spec_tree(),
        a.spec_table() == b.spec_table(),
{
}

/// Loading a saved codec gives it back: an image made of the header of a
/// codec's tree followed by a packing of the codes of its bytes starts with
/// the header of that tree and of no other, and decompressing what follows
/// the header gives the codec's bytes.
pub proof fn lemma_persistence_round_trip(t: BinTree<HuffmanNode>, d: Seq<u8>, bytes: Seq<u8>)
    requires
        codec_ok(t, table_of(t), d),
        starts_with_header(bytes, t),
        packed(
            encode_spec(table_of(t), d),
            bytes.subrange(header(t).len() as int, bytes.len() as int),
        ),
        bytes.len() <= u64::MAX,
    ensures
        has_header(bytes),
        forall|other: BinTree<HuffmanNode>|
            hwf(other) && #[trigger] starts_with_header(bytes, other) ==> other == t,
        forall|other: BinTree<HuffmanNode>, rest: Seq<u8>|
            hwf(other) && bytes == #[trigger] (header(other) + rest) ==> other == t && decompress_spec(other, rest)
                == Some(d),
        decompress_spec(t, bytes.subrange(header(t).len() as int, bytes.len() as int)) == Some(d),
{
    assert forall|other: BinTree<HuffmanNode>, rest: Seq<u8>|
        hwf(other) && bytes == #[trigger] (header(other) + rest) implies other == t && decompress_spec(other, rest)
        == Some(d) by {
        assert(bytes.subrange(0, header(other).len() as int) =~= header(other));
        lemma_header_unique(bytes, t, other);
        assert(bytes.subrange(header(t).len() as int, bytes.len() as int) =~= rest);
        lemma_round_trip(t, d, rest);
    }
    assert forall|other: BinTree<HuffmanNode>|
        hwf(other) && #[trigger] starts_with_header(bytes, other) implies other == t by {
        lemma_header_unique(bytes, t, other);
    }
    lemma_round_trip(t, d, bytes.subrange(header(t).len() as int, bytes.len() as int));
}

} // verus!
