//! The byte image of a Huffman tree.
//!
//! Layout, little-endian throughout:
//! - 8 bytes: `offset = 8 + 10 * n`, where `n` is the number of nodes, the
//!   position where the in-order block ends;
//! - `n` node records in in-order sequence;
//! - `n` node records in pre-order sequence;
//! - the packed codes of the bytes.
//!
//! A node record is 10 bytes: the frequency on 8 bytes, then a flag (1 for a
//! leaf, 0 for a merged node), then the symbol (0 for a merged node). Since
//! a merged node always has two children, the flags of the pre-order block
//! fix the shape of the tree; the in-order block must agree with it.
use crate::bintree::BinTree;
use crate::node::{hwf, is_leaf, HuffmanNode};
use vstd::bytes::{
    lemma_auto_spec_u64_to_from_le_bytes, spec_u64_from_le_bytes, spec_u64_to_le_bytes,
    u64_from_le_bytes, u64_to_le_bytes,
};
use vstd::prelude::*;

verus! {

/// The 10-byte record of a node.
pub open spec fn record(n: HuffmanNode) -> Seq<u8> {
    spec_u64_to_le_bytes(n.freq) + match n.character {
        Some(c) => seq![1u8, c],
        None => seq![0u8, 0u8],
    }
}

/// The records of a tree's nodes, root first, then the left subtree, then
/// the right subtree.
pub open spec fn pre_bytes(t: BinTree<HuffmanNode>) -> Seq<u8>
    decreases t,
{
    record(t.val) + (match t.left {
        Some(l) => pre_bytes(*l),
        None => Seq::empty(),
    }) + (match t.right {
        Some(r) => pre_bytes(*r),
        None => Seq::empty(),
    })
}

/// The records of a tree's nodes from left to right: the left subtree, the
/// root, then the right subtree.
pub open spec fn in_bytes(t: BinTree<HuffmanNode>) -> Seq<u8>
    decreases t,
{
    (match t.left {
        Some(l) => in_bytes(*l),
        None => Seq::empty(),
    }) + record(t.val) + (match t.right {
        Some(r) => in_bytes(*r),
        None => Seq::empty(),
    })
}

/// The offset field of a tree's image: where its in-order block ends.
pub open spec fn offset_of(t: BinTree<HuffmanNode>) -> int {
    8 + 10 * t.size() as int
}

/// Everything of a tree's image before the packed codes.
pub open spec fn header(t: BinTree<HuffmanNode>) -> Seq<u8> {
    spec_u64_to_le_bytes(offset_of(t) as u64) + in_bytes(t) + pre_bytes(t)
}

/// `bytes` starts with the header of `t`.
pub open spec fn starts_with_header(bytes: Seq<u8>, t: BinTree<HuffmanNode>) -> bool {
    header(t).len() <= bytes.len() && bytes.subrange(0, header(t).len() as int) == header(t)
}

/// Some tree with the shape of a Huffman tree has its header at the start
/// of `bytes`.
pub open spec fn has_header(bytes: Seq<u8>) -> bool {
    exists|t: BinTree<HuffmanNode>| hwf(t) && #[trigger] starts_with_header(bytes, t)
}

/// Reads the tree whose pre-order records start at `pos`: its frequency and
/// flag come first; a flag of 1 ends a leaf, a flag of 0 is followed by the
/// left and then the right subtree. Gives the tree and the position after
/// its records.
pub open spec fn parse_pre(s: Seq<u8>, pos: int) -> Option<(BinTree<HuffmanNode>, int)>
    decreases s.len() - pos,
{
    if pos < 0 || pos + 10 > s.len() {
        None
    } else {
        let freq = spec_u64_from_le_bytes(s.subrange(pos, pos + 8));
        let flag = s[pos + 8];
        let sym = s[pos + 9];
        if flag == 1 {
            Some(
                (
                    BinTree {
                        val: HuffmanNode { freq, character: Some(sym) },
                        left: None,
                        right: None,
                    },
                    pos + 10,
                ),
            )
        } else if flag == 0 && sym == 0 {
            match parse_pre(s, pos + 10) {
                Some((l, mid)) => if mid <= pos || mid > s.len() {
                    None
                } else {
                    match parse_pre(s, mid) {
                        Some((r, stop)) => Some(
                            (
                                BinTree {
                                    val: HuffmanNode { freq, character: None },
                                    left: Some(Box::new(l)),
                                    right: Some(Box::new(r)),
                                },
                                stop,
                            ),
                        ),
                        None => None,
                    }
                },
                None => None,
            }
        } else {
            None
        }
    }
}

pub proof fn lemma_record_len(n: HuffmanNode)
    ensures
        record(n).len() == 10,
{
    lemma_auto_spec_u64_to_from_le_bytes();
}

pub proof fn lemma_block_len(t: BinTree<HuffmanNode>)
    ensures
        pre_bytes(t).len() == 10 * t.size(),
        in_bytes(t).len() == 10 * t.size(),
    decreases t,
{
    lemma_record_len(t.val);
    if let Some(l) = t.left {
        lemma_block_len(*l);
    }
    if let Some(r) = t.right {
        lemma_block_len(*r);
    }
}

/// Reading the pre-order records of a tree gives the tree back.
pub proof fn lemma_parse_pre(t: BinTree<HuffmanNode>, s: Seq<u8>, pos: int)
    requires
        hwf(t),
        0 <= pos,
        pos + 10 * t.size() <= s.len(),
        s.subrange(pos, pos + 10 * t.size()) == pre_bytes(t),
    ensures
        parse_pre(s, pos) == Some((t, pos + 10 * t.size())),
    decreases t,
{
    lemma_auto_spec_u64_to_from_le_bytes();
    lemma_block_len(t);
    let rec = record(t.val);
    let whole = s.subrange(pos, pos + 10 * t.size());
    assert(s.subrange(pos, pos + 8) =~= whole.subrange(0, 8));
    assert(whole.subrange(0, 10) =~= rec);
    assert(spec_u64_to_le_bytes(t.val.freq).len() == 8);
    assert(rec.subrange(0, 8) =~= spec_u64_to_le_bytes(t.val.freq));
    assert(whole.subrange(0, 8) =~= rec.subrange(0, 8));
    assert(spec_u64_from_le_bytes(s.subrange(pos, pos + 8)) == t.val.freq);
    assert(s[pos + 8] == rec[8]);
    assert(s[pos + 9] == rec[9]);
    match t.val.character {
        Some(c) => {
            assert(rec[8] == 1u8 && rec[9] == c);
        },
        None => {
            assert(rec[8] == 0u8 && rec[9] == 0u8);
        },
    }
    if !is_leaf(t) {
        let l = *t.left.unwrap();
        let r = *t.right.unwrap();
        lemma_block_len(l);
        lemma_block_len(r);
        let pl = pos + 10;
        let pr = pl + 10 * l.size();
        assert(s.subrange(pl, pr) =~= whole.subrange(10, 10 + 10 * l.size() as int));
        assert(whole.subrange(10, 10 + 10 * l.size() as int) =~= pre_bytes(l));
        lemma_parse_pre(l, s, pl);
        assert(s.subrange(pr, pr + 10 * r.size()) =~= whole.subrange(
            10 + 10 * l.size() as int,
            10 * t.size() as int,
        ));
        assert(whole.subrange(10 + 10 * l.size() as int, 10 * t.size() as int) =~= pre_bytes(r));
        lemma_parse_pre(r, s, pr);
    }
}

/// What is read is the pre-order records of a tree with the shape of a
/// Huffman tree.
pub proof fn lemma_parse_sound(s: Seq<u8>, pos: int)
    requires
        parse_pre(s, pos) is Some,
    ensures
        parse_pre(s, pos) matches Some((t, p)) && hwf(t) && p == pos + 10 * t.size() && p <= s.len()
            && s.subrange(pos, p) == pre_bytes(t),
    decreases s.len() - pos,
{
    lemma_auto_spec_u64_to_from_le_bytes();
    let (t, p) = parse_pre(s, pos)->0;
    let rec = s.subrange(pos, pos + 10);
    assert(spec_u64_to_le_bytes(spec_u64_from_le_bytes(s.subrange(pos, pos + 8))) == s.subrange(
        pos,
        pos + 8,
    ));
    assert(record(t.val) =~= rec);
    if s[pos + 8] == 1 {
        assert(pre_bytes(t) =~= record(t.val));
    } else {
        let (l, mid) = parse_pre(s, pos + 10)->0;
        lemma_parse_sound(s, pos + 10);
        let (r, stop) = parse_pre(s, mid)->0;
        lemma_parse_sound(s, mid);
        assert(s.subrange(pos, p) =~= rec + s.subrange(pos + 10, mid) + s.subrange(mid, stop));
    }
}

/// The 8 bytes at `pos`, read as a little-endian number.
pub fn read_u64_at(bytes: &[u8], pos: usize) -> (r: u64)
    requires
        pos + 8 <= bytes@.len(),
    ensures
        r == spec_u64_from_le_bytes(bytes@.subrange(pos as int, pos + 8)),
{
    let mut v: Vec<u8> = Vec::new();
    let mut i: usize = 0;
    assert(bytes@.len() == bytes.len());
    while i < 8
        invariant
            i <= 8,
            pos + 8 <= bytes.len(),
            bytes@.len() == bytes.len(),
            v@ == bytes@.subrange(pos as int, pos + i),
        decreases 8 - i,
    {
        v.push(bytes[pos + i]);
        i += 1;
        assert(v@ =~= bytes@.subrange(pos as int, pos + i));
    }
    u64_from_le_bytes(v.as_slice())
}

/// Appends `src` to `out`.
pub fn append_bytes(out: &mut Vec<u8>, src: &[u8])
    ensures
        final(out)@ == old(out)@ + src@,
{
    let mut i: usize = 0;
    while i < src.len()
        invariant
            i <= src@.len(),
            out@ == old(out)@ + src@.subrange(0, i as int),
        decreases src@.len() - i,
    {
        out.push(src[i]);
        i += 1;
        assert(out@ =~= old(out)@ + src@.subrange(0, i as int));
    }
    assert(src@.subrange(0, src@.len() as int) =~= src@);
}

/// Appends the record of `n`.
fn write_record(out: &mut Vec<u8>, n: HuffmanNode)
    ensures
        final(out)@ == old(out)@ + record(n),
{
    let freq = u64_to_le_bytes(n.freq);
    append_bytes(out, freq.as_slice());
    match n.character {
        Some(c) => {
            out.push(1);
            out.push(c);
        },
        None => {
            out.push(0);
            out.push(0);
        },
    }
    assert(out@ =~= old(out)@ + record(n));
}

/// Appends the pre-order records of `t`.
pub fn write_pre(t: &BinTree<HuffmanNode>, out: &mut Vec<u8>)
    ensures
        final(out)@ == old(out)@ + pre_bytes(*t),
    decreases t,
{
    write_record(out, t.val);
    let ghost a = out@;
    match &t.left {
        Some(l) => write_pre(l, out),
        None => {},
    }
    let ghost b = out@;
    match &t.right {
        Some(r) => write_pre(r, out),
        None => {},
    }
    assert(out@ =~= old(out)@ + pre_bytes(*t));
}

/// Appends the in-order records of `t`.
pub fn write_in(t: &BinTree<HuffmanNode>, out: &mut Vec<u8>)
    ensures
        final(out)@ == old(out)@ + in_bytes(*t),
    decreases t,
{
    match &t.left {
        Some(l) => write_in(l, out),
        None => {},
    }
    write_record(out, t.val);
    match &t.right {
        Some(r) => write_in(r, out),
        None => {},
    }
    assert(out@ =~= old(out)@ + in_bytes(*t));
}

/// Reads the tree whose pre-order records start at `pos`, as `parse_pre`
/// describes.
pub fn read_pre(bytes: &[u8], pos: usize) -> (r: Option<(BinTree<HuffmanNode>, usize)>)
    ensures
        match parse_pre(bytes@, pos as int) {
            Some((t, p)) => r matches Some((t2, stop)) && t2 == t && stop == p,
            None => r is None,
        },
    decreases bytes@.len() - pos,
{
    if pos > bytes.len() || bytes.len() - pos < 10 {
        return None;
    }
    let freq = read_u64_at(bytes, pos);
    let flag = bytes[pos + 8];
    let sym = bytes[pos + 9];
    if flag == 1 {
        Some((BinTree::new(HuffmanNode::new(freq, sym)), pos + 10))
    } else if flag == 0 && sym == 0 {
        match read_pre(bytes, pos + 10) {
            Some((l, mid)) => {
                if mid <= pos || mid > bytes.len() {
                    return None;
                }
                match read_pre(bytes, mid) {
                    Some((r, stop)) => {
                        let mut node = BinTree::new(HuffmanNode::empty(freq));
                        crate::bintree::add_tree(&mut node, l, crate::bintree::Side::Left);
                        crate::bintree::add_tree(&mut node, r, crate::bintree::Side::Right);
                        Some((node, stop))
                    },
                    None => None,
                }
            },
            None => None,
        }
    } else {
        None
    }
}

/// What a reader finds in bytes that start with the header of `t`: the
/// offset field, a pre-order block that reads back as `t` and ends where the
/// layout says, and the in-order records of `t`.
pub proof fn lemma_header_checks(bytes: Seq<u8>, t: BinTree<HuffmanNode>)
    requires
        hwf(t),
        starts_with_header(bytes, t),
        bytes.len() <= u64::MAX,
    ensures
        bytes.len() >= 8,
        spec_u64_from_le_bytes(bytes.subrange(0, 8)) == offset_of(t),
        offset_of(t) >= 18,
        (offset_of(t) - 8) % 10 == 0,
        offset_of(t) <= bytes.len(),
        offset_of(t) - 8 <= bytes.len() - offset_of(t),
        parse_pre(bytes, offset_of(t)) == Some((t, 2 * offset_of(t) - 8)),
        bytes.subrange(8, offset_of(t)) == in_bytes(t),
        header(t).len() == 2 * offset_of(t) - 8,
{
    lemma_auto_spec_u64_to_from_le_bytes();
    lemma_block_len(t);
    crate::node::lemma_size_leaves(t);
    let o = offset_of(t);
    let h = header(t);
    let le = spec_u64_to_le_bytes(o as u64);
    assert(h.len() == 2 * o - 8);
    let hb = bytes.subrange(0, h.len() as int);
    assert(bytes.subrange(0, 8) =~= hb.subrange(0, 8));
    assert(hb.subrange(0, 8) =~= le);
    assert(bytes.subrange(8, o) =~= hb.subrange(8, o));
    assert(hb.subrange(8, o) =~= in_bytes(t));
    assert(bytes.subrange(o, o + 10 * t.size()) =~= hb.subrange(o, h.len() as int));
    assert(hb.subrange(o, h.len() as int) =~= pre_bytes(t));
    lemma_parse_pre(t, bytes, o);
}

/// `bytes` starts with the header of at most one tree.
pub proof fn lemma_header_unique(bytes: Seq<u8>, t1: BinTree<HuffmanNode>, t2: BinTree<HuffmanNode>)
    requires
        hwf(t1),
        hwf(t2),
        starts_with_header(bytes, t1),
        starts_with_header(bytes, t2),
        bytes.len() <= u64::MAX,
    ensures
        t1 == t2,
{
    lemma_header_checks(bytes, t1);
    lemma_header_checks(bytes, t2);
}

/// Whether the bytes of `b` from `start` on begin with `a`.
pub fn bytes_match_at(a: &Vec<u8>, b: &[u8], start: usize) -> (r: bool)
    ensures
        r == (start + a@.len() <= b@.len() && b@.subrange(start as int, start + a@.len()) == a@),
{
    if start > b.len() || b.len() - start < a.len() {
        return false;
    }
    let mut i: usize = 0;
    assert(b@.len() == b.len());
    while i < a.len()
        invariant
            i <= a@.len(),
            b@.len() == b.len(),
            start + a@.len() <= b@.len(),
            b@.subrange(start as int, start + i) == a@.subrange(0, i as int),
        decreases a@.len() - i,
    {
        if a[i] != b[start + i] {
            assert(b@.subrange(start as int, start + a@.len())[i as int] != a@[i as int]);
            return false;
        }
        i += 1;
        assert(b@.subrange(start as int, start + i) =~= a@.subrange(0, i as int));
    }
    assert(a@.subrange(0, a@.len() as int) =~= a@);
    true
}

/// Reads the header at the start of `bytes`: the tree it describes and the
/// position where the header ends, or `None` when the bytes do not start
/// with the header of a tree.
pub fn read_header(bytes: &[u8]) -> (r: Option<(BinTree<HuffmanNode>, usize)>)
    ensures
        r is None <==> !has_header(bytes@),
        r matches Some((t, end)) ==> hwf(t) && starts_with_header(bytes@, t) && end == header(
            t,
        ).len() && offset_of(t) <= u64::MAX,
{
    let ghost b = bytes@;
    assert(b.len() == bytes.len());
    let ghost found = has_header(b);
    let ghost t0 = choose|t: BinTree<HuffmanNode>| hwf(t) && starts_with_header(b, t);
    proof {
        if found {
            lemma_header_checks(b, t0);
        }
    }
    if bytes.len() < 8 {
        return None;
    }
    let offset = read_u64_at(bytes, 0);
    let len = bytes.len() as u64;
    if offset < 18 || (offset - 8) % 10 != 0 || offset > len || offset - 8 > len - offset {
        return None;
    }
    let o = offset as usize;
    let end = o + (o - 8);
    let (tree, p) = match read_pre(bytes, o) {
        Some(x) => x,
        None => {
            return None;
        },
    };
    proof {
        lemma_parse_sound(b, o as int);
        lemma_block_len(tree);
    }
    if p != end {
        return None;
    }
    let mut in_order: Vec<u8> = Vec::new();
    write_in(&tree, &mut in_order);
    assert(in_order@ =~= in_bytes(tree));
    if !bytes_match_at(&in_order, bytes, 8) {
        return None;
    }
    proof {
        lemma_auto_spec_u64_to_from_le_bytes();
        assert(spec_u64_to_le_bytes(spec_u64_from_le_bytes(b.subrange(0, 8))) == b.subrange(0, 8));
        assert(b.subrange(0, end as int) =~= b.subrange(0, 8) + b.subrange(8, o as int)
            + b.subrange(o as int, end as int));
        assert(starts_with_header(b, tree));
    }
    Some((tree, end))
}

} // verus!
