//! Huffman tree nodes and the mathematical description of a Huffman tree:
//! its shape, its symbols, the code of each symbol and how bits walk it.
use crate::bintree::BinTree;
use vstd::prelude::*;

verus! {

/// The value held by a node of a Huffman tree: a frequency, and the symbol
/// for a leaf (`None` for a merged node).
#[derive(Clone, Copy, Debug, PartialEq, Eq, Structural)]
pub struct HuffmanNode {
    pub freq: u64,
    pub character: Option<u8>,
}

impl HuffmanNode {
    /// The value of a merged node of frequency `freq`.
    pub fn empty(freq: u64) -> (r: HuffmanNode)
        ensures
            r == (HuffmanNode { freq, character: None }),
    {
        HuffmanNode { freq, character: None }
    }

    /// The value of a leaf for symbol `c` of frequency `freq`.
    pub fn new(freq: u64, c: u8) -> (r: HuffmanNode)
        ensures
            r == (HuffmanNode { freq, character: Some(c) }),
    {
        HuffmanNode { freq, character: Some(c) }
    }
}

/// A node without children.
pub open spec fn is_leaf(t: BinTree<HuffmanNode>) -> bool {
    t.left is None && t.right is None
}

/// The shape of a Huffman tree: every node is either a leaf that carries a
/// symbol, or a merged node without symbol that has both children.
pub open spec fn hwf(t: BinTree<HuffmanNode>) -> bool
    decreases t,
{
    match t.left {
        Some(l) => match t.right {
            Some(r) => t.val.character is None && hwf(*l) && hwf(*r),
            None => false,
        },
        None => t.right is None && t.val.character is Some,
    }
}

/// The symbols carried by the leaves.
pub open spec fn syms(t: BinTree<HuffmanNode>) -> Set<u8>
    decreases t,
{
    let own = match t.val.character {
        Some(c) => if is_leaf(t) {
            set![c]
        } else {
            Set::empty()
        },
        None => Set::empty(),
    };
    let l = match t.left {
        Some(l) => syms(*l),
        None => Set::empty(),
    };
    let r = match t.right {
        Some(r) => syms(*r),
        None => Set::empty(),
    };
    own + l + r
}

/// Number of leaves.
pub open spec fn leaves(t: BinTree<HuffmanNode>) -> nat
    decreases t,
{
    if is_leaf(t) {
        1
    } else {
        (match t.left {
            Some(l) => leaves(*l),
            None => 0,
        }) + (match t.right {
            Some(r) => leaves(*r),
            None => 0,
        })
    }
}

/// The path from `t` to a leaf carrying `s` (`true` = right, `false` =
/// left), preferring the right subtree when both hold one.
pub open spec fn code_of(t: BinTree<HuffmanNode>, s: u8) -> Option<Seq<bool>>
    decreases t,
{
    if is_leaf(t) {
        if t.val.character == Some(s) {
            Some(Seq::empty())
        } else {
            None
        }
    } else {
        let from_right = match t.right {
            Some(r) => match code_of(*r, s) {
                Some(c) => Some(seq![true] + c),
                None => None,
            },
            None => None,
        };
        match from_right {
            Some(c) => Some(c),
            None => match t.left {
                Some(l) => match code_of(*l, s) {
                    Some(c) => Some(seq![false] + c),
                    None => None,
                },
                None => None,
            },
        }
    }
}

/// The code of symbol `s` in the table derived from `t`: the path to its
/// leaf, or the single bit `false` when the root itself is that leaf.
pub open spec fn code_for(t: BinTree<HuffmanNode>, s: u8) -> Option<Seq<bool>> {
    if is_leaf(t) {
        if t.val.character == Some(s) {
            Some(seq![false])
        } else {
            None
        }
    } else {
        code_of(t, s)
    }
}

/// The code table derived from `t`, indexed by byte value.
pub open spec fn table_of(t: BinTree<HuffmanNode>) -> Seq<Option<Seq<bool>>> {
    Seq::new(256, |i: int| code_for(t, i as u8))
}

/// Descends from `t` along `bits`, starting at `pos`, to a leaf: its symbol
/// and the position after the last bit read.
pub open spec fn walk(t: BinTree<HuffmanNode>, bits: Seq<bool>, pos: int) -> Option<(u8, int)>
    decreases t,
{
    if is_leaf(t) {
        match t.val.character {
            Some(c) => Some((c, pos)),
            None => None,
        }
    } else if pos < 0 || pos >= bits.len() {
        None
    } else if bits[pos] {
        match t.right {
            Some(r) => walk(*r, bits, pos + 1),
            None => None,
        }
    } else {
        match t.left {
            Some(l) => walk(*l, bits, pos + 1),
            None => None,
        }
    }
}

/// Decodes one symbol from `bits` at `pos` with the tree rooted at `t`; a
/// root that is itself a leaf takes one bit per symbol.
pub open spec fn decode_one(t: BinTree<HuffmanNode>, bits: Seq<bool>, pos: int) -> Option<(u8, int)> {
    if is_leaf(t) {
        if 0 <= pos < bits.len() {
            match t.val.character {
                Some(c) => Some((c, pos + 1)),
                None => None,
            }
        } else {
            None
        }
    } else {
        walk(t, bits, pos)
    }
}

/// Decodes `n` symbols from `bits` starting at `pos`, appending them to
/// `acc`; `None` when the bits end before the `n`-th symbol is complete.
pub open spec fn decode_from(
    t: BinTree<HuffmanNode>,
    bits: Seq<bool>,
    pos: int,
    n: nat,
    acc: Seq<u8>,
) -> Option<Seq<u8>>
    decreases n,
{
    if n == 0 {
        Some(acc)
    } else {
        match decode_one(t, bits, pos) {
            Some((c, p)) => decode_from(t, bits, p, (n - 1) as nat, acc.push(c)),
            None => None,
        }
    }
}

/// A tree with the shape of a Huffman tree has one merged node fewer than
/// it has leaves.
pub proof fn lemma_size_leaves(t: BinTree<HuffmanNode>)
    requires
        hwf(t),
    ensures
        t.size() == 2 * leaves(t) - 1,
        leaves(t) >= 1,
    decreases t,
{
    if !is_leaf(t) {
        lemma_size_leaves(*t.left.unwrap());
        lemma_size_leaves(*t.right.unwrap());
    }
}

} // verus!
