//! Decoding a bit sequence by walking a Huffman tree from its root.
use crate::bintree::BinTree;
use crate::error::HuffmanError;
use crate::node::{decode_from, decode_one, is_leaf, syms, walk, HuffmanNode};
use vstd::prelude::*;

verus! {

proof fn lemma_walk_bound(t: BinTree<HuffmanNode>, bits: Seq<bool>, pos: int)
    requires
        0 <= pos <= bits.len(),
    ensures
        walk(t, bits, pos) matches Some((c, p)) ==> pos <= p <= bits.len(),
    decreases t,
{
    if !is_leaf(t) && pos < bits.len() {
        if bits[pos] {
            if let Some(r) = t.right {
                lemma_walk_bound(*r, bits, pos + 1);
            }
        } else {
            if let Some(l) = t.left {
                lemma_walk_bound(*l, bits, pos + 1);
            }
        }
    }
}

/// Decodes one symbol starting at bit `pos`: the symbol and the position
/// after its code, or `None` when the bits end first.
pub fn decode_symbol(tree: &BinTree<HuffmanNode>, bits: &Vec<bool>, pos: usize) -> (r: Option<
    (u8, usize),
>)
    requires
        pos <= bits@.len(),
    ensures
        r is Some <==> decode_one(*tree, bits@, pos as int) is Some,
        r matches Some((c, p)) ==> decode_one(*tree, bits@, pos as int) == Some((c, p as int))
            && p <= bits@.len(),
{
    if tree.left.is_none() && tree.right.is_none() {
        if pos < bits.len() {
            return match tree.val.character {
                Some(c) => Some((c, pos + 1)),
                None => None,
            };
        } else {
            return None;
        }
    }
    proof {
        lemma_walk_bound(*tree, bits@, pos as int);
    }
    let mut cur: &BinTree<HuffmanNode> = tree;
    let mut p: usize = pos;
    loop
        invariant
            pos <= p <= bits@.len(),
            !is_leaf(*tree),
            walk(*tree, bits@, pos as int) == walk(*cur, bits@, p as int),
        decreases bits@.len() - p,
    {
        if cur.left.is_none() && cur.right.is_none() {
            return match cur.val.character {
                Some(c) => Some((c, p)),
                None => None,
            };
        }
        if p >= bits.len() {
            return None;
        }
        if bits[p] {
            match &cur.right {
                Some(r) => {
                    cur = &**r;
                },
                None => {
                    return None;
                },
            }
        } else {
            match &cur.left {
                Some(l) => {
                    cur = &**l;
                },
                None => {
                    return None;
                },
            }
        }
        p += 1;
    }
}

/// Decodes `n` symbols from the start of `bits`; fails with
/// `TruncatedDecode` when the bits end before the `n`-th symbol is
/// complete.
pub fn decode_bits(tree: &BinTree<HuffmanNode>, bits: &Vec<bool>, n: u64) -> (r: Result<
    Vec<u8>,
    HuffmanError,
>)
    ensures
        match decode_from(*tree, bits@, 0, n as nat, Seq::empty()) {
            Some(d) => r matches Ok(v) && v@ == d,
            None => r == Err::<Vec<u8>, HuffmanError>(HuffmanError::TruncatedDecode),
        },
{
    let mut out: Vec<u8> = Vec::new();
    let mut pos: usize = 0;
    let mut k: u64 = 0;
    while k < n
        invariant
            k <= n,
            pos <= bits@.len(),
            decode_from(*tree, bits@, 0, n as nat, Seq::empty()) == decode_from(
                *tree,
                bits@,
                pos as int,
                (n - k) as nat,
                out@,
            ),
        decreases n - k,
    {
        match decode_symbol(tree, bits, pos) {
            Some((c, p)) => {
                out.push(c);
                pos = p;
            },
            None => {
                return Err(HuffmanError::TruncatedDecode);
            },
        }
        k += 1;
    }
    Ok(out)
}

proof fn lemma_walk_syms(t: BinTree<HuffmanNode>, bits: Seq<bool>, pos: int)
    ensures
        walk(t, bits, pos) matches Some((c, p)) ==> syms(t).contains(c),
    decreases t,
{
    if !is_leaf(t) && 0 <= pos < bits.len() {
        if bits[pos] {
            if let Some(r) = t.right {
                lemma_walk_syms(*r, bits, pos + 1);
            }
        } else {
            if let Some(l) = t.left {
                lemma_walk_syms(*l, bits, pos + 1);
            }
        }
    }
}

/// Decoding `n` symbols appends exactly `n` symbols of the tree.
pub proof fn lemma_decode_from(
    t: BinTree<HuffmanNode>,
    bits: Seq<bool>,
    pos: int,
    n: nat,
    acc: Seq<u8>,
)
    ensures
        decode_from(t, bits, pos, n, acc) matches Some(d) ==> d.len() == acc.len() + n && forall|
            i: int,
        |
            0 <= i < d.len() ==> if i < acc.len() {
                d[i] == acc[i]
            } else {
                syms(t).contains(#[trigger] d[i])
            },
    decreases n,
{
    if n > 0 {
        if let Some((c, p)) = decode_one(t, bits, pos) {
            if !is_leaf(t) {
                lemma_walk_syms(t, bits, pos);
            } else {
                assert(syms(t).contains(c));
            }
            lemma_decode_from(t, bits, p, (n - 1) as nat, acc.push(c));
        }
    }
}

} // verus!
