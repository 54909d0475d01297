//! The codec: a byte sequence with its Huffman tree and code table.
use crate::bintree::{get_size, BinTree};
use crate::bits::{
    encode_spec, encode_symbols, pack_bits, packed, representable, unpack, unpack_bits,
};
use crate::builder::{
    build_tree, count_of, huffman_tree, leaf_list, lemma_count_pos, lemma_count_sum,
    lemma_distinct_below_le, lemma_leaf_list, lemma_merge_all, list_syms, present_below,
};
use crate::codes::{create_encoding_from_decoding, lemma_code_syms, table_view, HuffmanEncoding};
use crate::decode::{decode_bits, lemma_decode_from};
use crate::error::HuffmanError;
use crate::node::{decode_from, hwf, lemma_size_leaves, syms, table_of, HuffmanNode};
use crate::image::{
    append_bytes, has_header, header, lemma_block_len, offset_of, read_header, starts_with_header,
    write_in, write_pre,
};
use vstd::bytes::{lemma_auto_spec_u64_to_from_le_bytes, u64_to_le_bytes};
use vstd::prelude::*;

verus! {

/// The relation that a codec keeps between its tree, its code table and its
/// bytes: the tree has the shape of a Huffman tree, the table is the one
/// derived from it, every byte is a symbol of the tree, the root frequency
/// is the number of bytes, and the offset field of the tree's image fits in
/// 8 bytes.
pub open spec fn codec_ok(t: BinTree<HuffmanNode>, tbl: Seq<Option<Seq<bool>>>, d: Seq<u8>) -> bool {
    &&& hwf(t)
    &&& tbl == table_of(t)
    &&& t.val.freq == d.len()
    &&& forall|i: int| 0 <= i < d.len() ==> syms(t).contains(#[trigger] d[i])
    &&& offset_of(t) <= u64::MAX
}

/// What decompressing `bytes` with tree `t` gives: as many symbols as the
/// root frequency says, or `None` when the bits end first.
pub open spec fn decompress_spec(t: BinTree<HuffmanNode>, bytes: Seq<u8>) -> Option<Seq<u8>> {
    decode_from(t, unpack(bytes), 0, t.val.freq as nat, Seq::empty())
}

/// A byte sequence together with its Huffman tree and code table.
#[derive(Debug)]
pub struct HuffmanState {
    raw_data: Vec<u8>,
    decoding: BinTree<HuffmanNode>,
    encoding: Vec<Option<HuffmanEncoding>>,
}

impl HuffmanState {
    /// The bytes the codec holds.
    pub closed spec fn spec_raw_data(&self) -> Seq<u8> {
        self.raw_data@
    }

    /// The Huffman tree of the codec.
    pub closed spec fn spec_tree(&self) -> BinTree<HuffmanNode> {
        self.decoding
    }

    /// The code table of the codec, by byte value.
    pub closed spec fn spec_table(&self) -> Seq<Option<Seq<bool>>> {
        table_view(self.encoding@)
    }

    /// The codec's invariant.
    pub open spec fn wf(&self) -> bool {
        codec_ok(self.spec_tree(), self.spec_table(), self.spec_raw_data())
    }

    proof fn lemma_table_len(&self)
        requires
            self.wf(),
        ensures
            self.encoding@.len() == 256,
    {
        assert(table_view(self.encoding@).len() == table_of(self.decoding).len());
    }

    /// Builds the codec of `raw_data`: counts its bytes, builds the Huffman
    /// tree and derives the code table. Fails with `EmptyInput` on an empty
    /// input.
    pub fn new(raw_data: Vec<u8>) -> (r: Result<HuffmanState, HuffmanError>)
        ensures
            r is Err <==> raw_data@.len() == 0,
            r matches Err(e) ==> e == HuffmanError::EmptyInput,
            r matches Ok(st) ==> st.wf() && st.spec_raw_data() == raw_data@ && st.spec_tree()
                == huffman_tree(raw_data@),
    {
        if raw_data.len() == 0 {
            return Err(HuffmanError::EmptyInput);
        }
        let decoding = build_tree(raw_data.as_slice());
        let encoding = create_encoding_from_decoding(&decoding);
        proof {
            lemma_huffman_tree(raw_data@);
        }
        Ok(HuffmanState { raw_data, decoding, encoding })
    }

    /// The packed codes of the codec's bytes.
    pub fn compress(&self) -> (r: Vec<u8>)
        requires
            self.wf(),
        ensures
            packed(encode_spec(self.spec_table(), self.spec_raw_data()), r@),
    {
        proof {
            self.lemma_table_len();
            assert forall|i: int| 0 <= i < self.raw_data@.len() implies #[trigger] self.spec_table()[
                self.raw_data@[i] as int
            ] is Some by {
                lemma_code_syms(self.decoding, self.raw_data@[i]);
            }
            assert(representable(self.spec_table(), self.raw_data@));
        }
        match encode_symbols(&self.encoding, self.raw_data.as_slice()) {
            Ok(bits) => pack_bits(&bits),
            Err(_) => {
                // Every byte of a codec has a code, so the encoding cannot fail.
                proof {
                    assert(false);
                }
                Vec::new()
            },
        }
    }

    /// Decodes packed codes with the codec's tree: exactly as many symbols
    /// as its root frequency, ignoring the bits after the last one. Fails
    /// with `TruncatedDecode` when the bits end first.
    pub fn decompress(&self, compressed: Vec<u8>) -> (r: Result<Vec<u8>, HuffmanError>)
        requires
            self.wf(),
        ensures
            match decompress_spec(self.spec_tree(), compressed@) {
                Some(d) => r matches Ok(v) && v@ == d,
                None => r == Err::<Vec<u8>, HuffmanError>(HuffmanError::TruncatedDecode),
            },
    {
        let bits = unpack_bits(compressed.as_slice());
        decode_bits(&self.decoding, &bits, self.decoding.val.freq)
    }

    /// The byte image of the codec: the offset field, the in-order and the
    /// pre-order records of its tree, then its compressed bytes.
    pub fn save(&self) -> (r: Vec<u8>)
        requires
            self.wf(),
        ensures
            starts_with_header(r@, self.spec_tree()),
            packed(
                encode_spec(self.spec_table(), self.spec_raw_data()),
                r@.subrange(header(self.spec_tree()).len() as int, r@.len() as int),
            ),
    {
        proof {
            lemma_block_len(self.decoding);
            lemma_auto_spec_u64_to_from_le_bytes();
        }
        let size = get_size(&self.decoding);
        let offset: u64 = 8 + 10 * size;
        let mut out = u64_to_le_bytes(offset);
        write_in(&self.decoding, &mut out);
        write_pre(&self.decoding, &mut out);
        let ghost h = out@;
        assert(h == header(self.decoding));
        let payload = self.compress();
        append_bytes(&mut out, payload.as_slice());
        assert(out@.subrange(0, h.len() as int) =~= h);
        assert(out@.subrange(h.len() as int, out@.len() as int) =~= payload@);
        out
    }

    /// Reads a byte image: rebuilds the tree from its records, derives the
    /// code table, and decompresses what follows the records. Gives the
    /// codec and the compressed bytes read. Fails with `CorruptStream` when
    /// the bytes do not start with the header of a tree, and with
    /// `TruncatedDecode` when the compressed bytes end too early.
    pub fn load(bytes: &[u8]) -> (r: Result<(HuffmanState, Vec<u8>), HuffmanError>)
        ensures
            r matches Ok((st, payload)) ==> st.wf() && bytes@ == header(st.spec_tree())
                + payload@ && decompress_spec(st.spec_tree(), payload@) == Some(
                st.spec_raw_data(),
            ),
            r matches Err(e) ==> e == HuffmanError::CorruptStream || e
                == HuffmanError::TruncatedDecode,
            r == Err::<(HuffmanState, Vec<u8>), HuffmanError>(HuffmanError::CorruptStream)
                <==> !has_header(bytes@),
            r == Err::<(HuffmanState, Vec<u8>), HuffmanError>(HuffmanError::TruncatedDecode)
                ==> exists|t: BinTree<HuffmanNode>|
                #![trigger starts_with_header(bytes@, t)]
                hwf(t) && starts_with_header(bytes@, t) && decompress_spec(
                    t,
                    bytes@.subrange(header(t).len() as int, bytes@.len() as int),
                ) is None,
    {
        let ghost b = bytes@;
        let (tree, end) = match read_header(bytes) {
            Some(x) => x,
            None => {
                return Err(HuffmanError::CorruptStream);
            },
        };
        let mut payload: Vec<u8> = Vec::new();
        let mut i: usize = end;
        while i < bytes.len()
            invariant
                end <= i <= b.len(),
                b == bytes@,
                payload@ == b.subrange(end as int, i as int),
            decreases b.len() - i,
        {
            payload.push(bytes[i]);
            i += 1;
            assert(payload@ =~= b.subrange(end as int, i as int));
        }
        proof {
            assert(b =~= header(tree) + payload@) by {
                assert(b =~= b.subrange(0, end as int) + b.subrange(end as int, b.len() as int));
            }
        }
        let encoding = create_encoding_from_decoding(&tree);
        let bits = unpack_bits(payload.as_slice());
        match decode_bits(&tree, &bits, tree.val.freq) {
            Ok(raw_data) => {
                proof {
                    lemma_decode_from(tree, bits@, 0, tree.val.freq as nat, Seq::empty());
                    assert forall|i: int| 0 <= i < raw_data@.len() implies syms(tree).contains(
                        #[trigger] raw_data@[i],
                    ) by {}
                }
                Ok((HuffmanState { raw_data, decoding: tree, encoding }, payload))
            },
            Err(e) => Err(e),
        }
    }

    /// The bytes the codec holds.
    pub fn raw_data(&self) -> (r: &Vec<u8>)
        ensures
            r@ == self.spec_raw_data(),
    {
        &self.raw_data
    }

    /// The Huffman tree of the codec.
    pub fn tree(&self) -> (r: &BinTree<HuffmanNode>)
        ensures
            *r == self.spec_tree(),
    {
        &self.decoding
    }

    /// The code table, by byte value.
    pub fn encoding(&self) -> (r: &Vec<Option<HuffmanEncoding>>)
        ensures
            table_view(r@) == self.spec_table(),
    {
        &self.encoding
    }
}

/// The tree built for a non-empty input has the shape of a Huffman tree,
/// its root frequency is the input's length, and its symbols are exactly the
/// bytes that occur in the input.
pub proof fn lemma_huffman_tree(d: Seq<u8>)
    requires
        d.len() > 0,
        d.len() <= u64::MAX,
    ensures
        hwf(huffman_tree(d)),
        huffman_tree(d).val.freq == d.len(),
        forall|s: u8| #[trigger] syms(huffman_tree(d)).contains(s) <==> count_of(d, s) > 0,
        forall|i: int| 0 <= i < d.len() ==> syms(huffman_tree(d)).contains(#[trigger] d[i]),
        huffman_tree(d).size() <= 511,
{
    lemma_leaf_list(d, 256);
    lemma_count_sum(d);
    let l = leaf_list(d, 256);
    lemma_count_pos(d, 0);
    assert(present_below(d, 256).contains(d[0]));
    if l.len() == 0 {
        assert(list_syms(l) =~= Set::empty());
    }
    lemma_merge_all(l);
    lemma_size_leaves(huffman_tree(d));
    lemma_distinct_below_le(d, 256);
    assert forall|i: int| 0 <= i < d.len() implies syms(huffman_tree(d)).contains(#[trigger] d[i]) by {
        lemma_count_pos(d, i);
    }
}

} // verus!
