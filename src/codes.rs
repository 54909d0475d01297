//! The code table of a Huffman tree: one bit sequence per symbol, read off
//! the paths from the root to the leaves.
use crate::bintree::BinTree;
use crate::node::{code_for, code_of, decode_one, hwf, is_leaf, syms, table_of, walk, HuffmanNode};
use vstd::prelude::*;

verus! {

/// The code of one symbol: the turns from the root to its leaf, `true` for
/// right and `false` for left.
#[derive(Debug, PartialEq, Eq)]
pub struct HuffmanEncoding {
    pub bits: Vec<bool>,
}

/// The codes held by a table, by byte value.
pub open spec fn table_view(t: Seq<Option<HuffmanEncoding>>) -> Seq<Option<Seq<bool>>> {
    Seq::new(t.len(), |i: int| enc_view(t[i]))
}

/// The bits held by one entry of a table.
pub open spec fn enc_view(e: Option<HuffmanEncoding>) -> Option<Seq<bool>> {
    match e {
        Some(x) => Some(x.bits@),
        None => None,
    }
}

/// `a` is a prefix of `b`.
pub open spec fn is_prefix(a: Seq<bool>, b: Seq<bool>) -> bool {
    a.len() <= b.len() && b.subrange(0, a.len() as int) == a
}

/// A symbol has a path exactly when it is carried by a leaf.
pub proof fn lemma_code_syms(t: BinTree<HuffmanNode>, s: u8)
    requires
        hwf(t),
    ensures
        code_of(t, s) is Some <==> syms(t).contains(s),
        code_for(t, s) is Some <==> syms(t).contains(s),
    decreases t,
{
    if !is_leaf(t) {
        let l = *t.left.unwrap();
        let r = *t.right.unwrap();
        lemma_code_syms(l, s);
        lemma_code_syms(r, s);
    }
}

/// Following the path of a symbol leads to its leaf.
pub proof fn lemma_code_walk(t: BinTree<HuffmanNode>, s: u8, bits: Seq<bool>, pos: int)
    requires
        code_of(t, s) is Some,
        0 <= pos,
        pos + code_of(t, s)->0.len() <= bits.len(),
        bits.subrange(pos, pos + code_of(t, s)->0.len()) == code_of(t, s)->0,
    ensures
        walk(t, bits, pos) == Some((s, pos + code_of(t, s)->0.len())),
    decreases t,
{
    let c = code_of(t, s)->0;
    if !is_leaf(t) {
        assert(bits[pos] == c[0]) by {
            assert(bits.subrange(pos, pos + c.len())[0] == bits[pos]);
        }
        let rest = c.drop_first();
        let from_right = match t.right {
            Some(r) => code_of(*r, s) is Some,
            None => false,
        };
        if from_right {
            let r = *t.right.unwrap();
            assert(c == seq![true] + code_of(r, s)->0);
            assert(rest =~= code_of(r, s)->0);
            assert(bits.subrange(pos + 1, pos + 1 + rest.len()) =~= rest);
            lemma_code_walk(r, s, bits, pos + 1);
        } else {
            let l = *t.left.unwrap();
            assert(c == seq![false] + code_of(l, s)->0);
            assert(rest =~= code_of(l, s)->0);
            assert(bits.subrange(pos + 1, pos + 1 + rest.len()) =~= rest);
            lemma_code_walk(l, s, bits, pos + 1);
        }
    }
}

/// Decoding at the start of a symbol's code gives that symbol and moves
/// past the code.
pub proof fn lemma_code_decode(t: BinTree<HuffmanNode>, s: u8, bits: Seq<bool>, pos: int)
    requires
        code_for(t, s) is Some,
        0 <= pos,
        pos + code_for(t, s)->0.len() <= bits.len(),
        bits.subrange(pos, pos + code_for(t, s)->0.len()) == code_for(t, s)->0,
    ensures
        decode_one(t, bits, pos) == Some((s, pos + code_for(t, s)->0.len())),
{
    if !is_leaf(t) {
        lemma_code_walk(t, s, bits, pos);
    }
}

proof fn lemma_paths_prefix_free(t: BinTree<HuffmanNode>, s1: u8, s2: u8)
    requires
        s1 != s2,
        code_of(t, s1) is Some,
        code_of(t, s2) is Some,
    ensures
        !is_prefix(code_of(t, s1)->0, code_of(t, s2)->0),
    decreases t,
{
    let c1 = code_of(t, s1)->0;
    let c2 = code_of(t, s2)->0;
    if !is_leaf(t) {
        let r1 = match t.right {
            Some(r) => code_of(*r, s1) is Some,
            None => false,
        };
        let r2 = match t.right {
            Some(r) => code_of(*r, s2) is Some,
            None => false,
        };
        if is_prefix(c1, c2) {
            assert(c2[0] == c1[0]) by {
                assert(c2.subrange(0, c1.len() as int)[0] == c2[0]);
            }
            assert(c1.drop_first().len() <= c2.drop_first().len());
            assert(c2.drop_first().subrange(0, c1.drop_first().len() as int) =~= c1.drop_first())
                by {
                assert(c2.subrange(0, c1.len() as int) == c1);
            }
            if r1 && r2 {
                let r = *t.right.unwrap();
                assert(c1.drop_first() =~= code_of(r, s1)->0);
                assert(c2.drop_first() =~= code_of(r, s2)->0);
                lemma_paths_prefix_free(r, s1, s2);
            } else if !r1 && !r2 {
                let l = *t.left.unwrap();
                assert(c1.drop_first() =~= code_of(l, s1)->0);
                assert(c2.drop_first() =~= code_of(l, s2)->0);
                lemma_paths_prefix_free(l, s1, s2);
            }
        }
    }
}

/// No code of the table derived from a tree is a prefix of the code of
/// another symbol.
pub proof fn lemma_prefix_free(t: BinTree<HuffmanNode>, s1: u8, s2: u8)
    requires
        hwf(t),
        s1 != s2,
        table_of(t)[s1 as int] is Some,
        table_of(t)[s2 as int] is Some,
    ensures
        !is_prefix(table_of(t)[s1 as int]->0, table_of(t)[s2 as int]->0),
{
    if !is_leaf(t) {
        lemma_paths_prefix_free(t, s1, s2);
    }
}

/// A copy of a bit sequence.
fn copy_bits(v: &Vec<bool>) -> (r: Vec<bool>)
    ensures
        r@ == v@,
{
    let mut r: Vec<bool> = Vec::new();
    let mut i: usize = 0;
    while i < v.len()
        invariant
            i <= v@.len(),
            r@ == v@.subrange(0, i as int),
        decreases v@.len() - i,
    {
        r.push(v[i]);
        i += 1;
        assert(r@ =~= v@.subrange(0, i as int));
    }
    assert(v@.subrange(0, v@.len() as int) =~= v@);
    r
}

/// Records, for every leaf below `node`, the code `prefix` followed by the
/// path from `node` to the leaf; a leaf to the right overrides one to the
/// left for the same symbol.
fn fill_codes(
    node: &BinTree<HuffmanNode>,
    prefix: &mut Vec<bool>,
    table: &mut Vec<Option<HuffmanEncoding>>,
)
    requires
        old(table)@.len() == 256,
    ensures
        final(prefix)@ == old(prefix)@,
        final(table)@.len() == 256,
        forall|s: int|
            0 <= s < 256 ==> enc_view(#[trigger] final(table)@[s]) == match code_of(*node, s as u8) {
                Some(c) => Some(old(prefix)@ + c),
                None => enc_view(old(table)@[s]),
            },
    decreases node,
{
    if node.left.is_none() && node.right.is_none() {
        match node.val.character {
            Some(c) => {
                let bits = copy_bits(prefix);
                table.set(c as usize, Some(HuffmanEncoding { bits }));
                assert forall|s: int| 0 <= s < 256 implies enc_view(#[trigger] table@[s]) == match code_of(
                    *node,
                    s as u8,
                ) {
                    Some(c) => Some(old(prefix)@ + c),
                    None => enc_view(old(table)@[s]),
                } by {
                    assert(old(prefix)@ + Seq::<bool>::empty() =~= old(prefix)@);
                }
            },
            None => {},
        }
    } else {
        let ghost t0 = table@;
        match &node.left {
            Some(l) => {
                prefix.push(false);
                fill_codes(l, prefix, table);
                prefix.pop();
            },
            None => {},
        }
        let ghost t1 = table@;
        match &node.right {
            Some(r) => {
                prefix.push(true);
                fill_codes(r, prefix, table);
                prefix.pop();
            },
            None => {},
        }
        assert forall|s: int| 0 <= s < 256 implies enc_view(#[trigger] table@[s]) == match code_of(
            *node,
            s as u8,
        ) {
            Some(c) => Some(old(prefix)@ + c),
            None => enc_view(old(table)@[s]),
        } by {
            let p = old(prefix)@;
            match node.left {
                Some(l) => match code_of(*l, s as u8) {
                    Some(c) => {
                        assert(p.push(false) + c =~= p + (seq![false] + c));
                    },
                    None => {},
                },
                None => {},
            }
            match node.right {
                Some(r) => match code_of(*r, s as u8) {
                    Some(c) => {
                        assert(p.push(true) + c =~= p + (seq![true] + c));
                    },
                    None => {},
                },
                None => {},
            }
        }
    }
}

/// Derives the code table of a tree: for each byte value, the code of its
/// leaf, or `None` where no leaf carries it.
pub fn create_encoding_from_decoding(decoding: &BinTree<HuffmanNode>) -> (r: Vec<
    Option<HuffmanEncoding>,
>)
    ensures
        table_view(r@) == table_of(*decoding),
{
    let mut table: Vec<Option<HuffmanEncoding>> = Vec::new();
    let mut s: usize = 0;
    while s < 256
        invariant
            s <= 256,
            table@.len() == s,
            forall|k: int| 0 <= k < s ==> table@[k] is None,
        decreases 256 - s,
    {
        table.push(None);
        s += 1;
    }
    if decoding.left.is_none() && decoding.right.is_none() {
        match decoding.val.character {
            Some(c) => {
                let mut bits: Vec<bool> = Vec::new();
                bits.push(false);
                table.set(c as usize, Some(HuffmanEncoding { bits }));
            },
            None => {},
        }
    } else {
        let mut prefix: Vec<bool> = Vec::new();
        fill_codes(decoding, &mut prefix, &mut table);
        assert forall|s: int| 0 <= s < 256 implies table_view(table@)[s] == table_of(*decoding)[s] by {
            match code_of(*decoding, s as u8) {
                Some(c) => {
                    assert(Seq::<bool>::empty() + c =~= c);
                },
                None => {},
            }
        }
    }
    assert(table_view(table@) =~= table_of(*decoding));
    table
}

} // verus!
