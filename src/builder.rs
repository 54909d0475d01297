//! Frequency counting and the greedy construction of a Huffman tree.
//!
//! The working list is kept ordered by ascending frequency. Ties are broken
//! by position: a new entry goes after every entry of equal frequency. The
//! leaves enter in ascending byte order, so among leaves of equal frequency
//! the smaller byte comes first, and a merged node goes after every entry of
//! its frequency that is already in the list.
use crate::bintree::{add_tree, BinTree, Side};
use crate::node::{hwf, is_leaf, leaves, syms, HuffmanNode};
use vstd::prelude::*;

verus! {

/// Number of occurrences of `s` in `d`.
pub open spec fn count_of(d: Seq<u8>, s: u8) -> nat
    decreases d.len(),
{
    if d.len() == 0 {
        0
    } else {
        count_of(d.drop_last(), s) + if d.last() == s {
            1nat
        } else {
            0nat
        }
    }
}

/// Number of byte values below `n` that occur in `d`.
pub open spec fn distinct_below(d: Seq<u8>, n: nat) -> nat
    decreases n,
{
    if n == 0 {
        0
    } else {
        distinct_below(d, (n - 1) as nat) + if count_of(d, (n - 1) as u8) > 0 {
            1nat
        } else {
            0nat
        }
    }
}

/// Number of distinct byte values in `d`.
pub open spec fn distinct_symbols(d: Seq<u8>) -> nat {
    distinct_below(d, 256)
}

/// The leaf for symbol `s` with frequency `f`.
pub open spec fn leaf_tree(f: nat, s: u8) -> BinTree<HuffmanNode> {
    BinTree { val: HuffmanNode { freq: f as u64, character: Some(s) }, left: None, right: None }
}

/// `l` with `t` inserted after every entry whose frequency is at most that of `t`
/// (in a list ordered by frequency, after its last entry of lower or equal
/// frequency).
pub open spec fn insert_by_freq(l: Seq<BinTree<HuffmanNode>>, t: BinTree<HuffmanNode>) -> Seq<
    BinTree<HuffmanNode>,
>
    decreases l.len(),
{
    if l.len() == 0 {
        seq![t]
    } else if t.val.freq < l[0].val.freq {
        seq![t] + l
    } else {
        seq![l[0]] + insert_by_freq(l.drop_first(), t)
    }
}

/// The initial working list for `d`: one leaf per byte value below `n` that
/// occurs in `d`, inserted in ascending byte order.
pub open spec fn leaf_list(d: Seq<u8>, n: nat) -> Seq<BinTree<HuffmanNode>>
    decreases n,
{
    if n == 0 {
        seq![]
    } else {
        let s = (n - 1) as u8;
        let prev = leaf_list(d, (n - 1) as nat);
        if count_of(d, s) > 0 {
            insert_by_freq(prev, leaf_tree(count_of(d, s), s))
        } else {
            prev
        }
    }
}

/// The node that merges `a` (the lower entry, on the right) with `b` (on the
/// left).
pub open spec fn merged(a: BinTree<HuffmanNode>, b: BinTree<HuffmanNode>) -> BinTree<HuffmanNode> {
    BinTree {
        val: HuffmanNode { freq: (a.val.freq + b.val.freq) as u64, character: None },
        left: Some(Box::new(b)),
        right: Some(Box::new(a)),
    }
}

/// Repeatedly merges the two first entries of the working list and inserts
/// the result, until one tree remains.
pub open spec fn merge_all(l: Seq<BinTree<HuffmanNode>>) -> BinTree<HuffmanNode>
    decreases l.len(),
{
    if l.len() <= 1 {
        l[0]
    } else {
        proof {
            lemma_insert_len(l.subrange(2, l.len() as int), merged(l[0], l[1]));
        }
        merge_all(insert_by_freq(l.subrange(2, l.len() as int), merged(l[0], l[1])))
    }
}

/// The Huffman tree built for the byte sequence `d` (non-empty).
pub open spec fn huffman_tree(d: Seq<u8>) -> BinTree<HuffmanNode> {
    merge_all(leaf_list(d, 256))
}

/// Sum of the root frequencies of the entries.
pub open spec fn list_freq(l: Seq<BinTree<HuffmanNode>>) -> nat
    decreases l.len(),
{
    if l.len() == 0 {
        0
    } else {
        l[0].val.freq as nat + list_freq(l.drop_first())
    }
}

/// Sum of the leaf counts of the entries.
pub open spec fn list_leaves(l: Seq<BinTree<HuffmanNode>>) -> nat
    decreases l.len(),
{
    if l.len() == 0 {
        0
    } else {
        leaves(l[0]) + list_leaves(l.drop_first())
    }
}

/// Union of the leaf symbols of the entries.
pub open spec fn list_syms(l: Seq<BinTree<HuffmanNode>>) -> Set<u8>
    decreases l.len(),
{
    if l.len() == 0 {
        Set::empty()
    } else {
        syms(l[0]) + list_syms(l.drop_first())
    }
}

/// Every entry has the shape of a Huffman tree.
pub open spec fn all_hwf(l: Seq<BinTree<HuffmanNode>>) -> bool
    decreases l.len(),
{
    l.len() == 0 || (hwf(l[0]) && all_hwf(l.drop_first()))
}

/// Inserting adds one entry.
pub proof fn lemma_insert_len(l: Seq<BinTree<HuffmanNode>>, t: BinTree<HuffmanNode>)
    ensures
        insert_by_freq(l, t).len() == l.len() + 1,
    decreases l.len(),
{
    if l.len() > 0 && t.val.freq >= l[0].val.freq {
        lemma_insert_len(l.drop_first(), t);
    }
}

/// Inserting adds the new entry's measures to those of the list.
proof fn lemma_insert_measures(l: Seq<BinTree<HuffmanNode>>, t: BinTree<HuffmanNode>)
    ensures
        list_freq(insert_by_freq(l, t)) == list_freq(l) + t.val.freq,
        list_leaves(insert_by_freq(l, t)) == list_leaves(l) + leaves(t),
        list_syms(insert_by_freq(l, t)) == list_syms(l) + syms(t),
        all_hwf(insert_by_freq(l, t)) == (all_hwf(l) && hwf(t)),
        insert_by_freq(l, t).len() == l.len() + 1,
    decreases l.len(),
{    reveal_with_fuel(list_freq, 2);
    reveal_with_fuel(list_leaves, 2);
    reveal_with_fuel(list_syms, 2);
    reveal_with_fuel(all_hwf, 2);

    lemma_insert_len(l, t);
    let r = insert_by_freq(l, t);
    if l.len() == 0 {
        assert(r[0] == t);
        assert(r.drop_first() =~= Seq::<BinTree<HuffmanNode>>::empty());
        assert(list_leaves(r) == leaves(t));
        assert(list_leaves(l) == 0);
        assert(syms(t) + Set::empty() =~= Set::<u8>::empty() + syms(t));
    } else if t.val.freq < l[0].val.freq {
        assert(r[0] == t);
        assert(r.drop_first() =~= l);
        assert(list_leaves(r) == leaves(t) + list_leaves(l));
        assert(syms(t) + list_syms(l) =~= list_syms(l) + syms(t));
    } else {
        lemma_insert_measures(l.drop_first(), t);
        assert(r[0] == l[0]);
        assert(r.drop_first() =~= insert_by_freq(l.drop_first(), t));
        assert(list_leaves(r) == leaves(l[0]) + list_leaves(insert_by_freq(l.drop_first(), t)));
        assert(syms(l[0]) + (list_syms(l.drop_first()) + syms(t)) =~= (syms(l[0]) + list_syms(
            l.drop_first(),
        )) + syms(t));
    }
}

/// The measures of a list split after its first two entries.
proof fn lemma_drop_two(l: Seq<BinTree<HuffmanNode>>)
    requires
        l.len() >= 2,
    ensures
        list_freq(l) == l[0].val.freq + l[1].val.freq + list_freq(l.subrange(2, l.len() as int)),
        list_leaves(l) == leaves(l[0]) + leaves(l[1]) + list_leaves(
            l.subrange(2, l.len() as int),
        ),
        list_syms(l) == syms(l[0]) + syms(l[1]) + list_syms(l.subrange(2, l.len() as int)),
        all_hwf(l) == (hwf(l[0]) && hwf(l[1]) && all_hwf(l.subrange(2, l.len() as int))),
{    reveal_with_fuel(list_freq, 2);
    reveal_with_fuel(list_leaves, 2);
    reveal_with_fuel(list_syms, 2);
    reveal_with_fuel(all_hwf, 2);

    let rest = l.subrange(2, l.len() as int);
    assert(l.drop_first().drop_first() =~= rest);
    assert(l.drop_first()[0] == l[1]);
    assert(list_leaves(l.drop_first()) == leaves(l[1]) + list_leaves(rest));
    assert(list_freq(l.drop_first()) == l[1].val.freq + list_freq(rest));
    assert(all_hwf(l.drop_first()) == (hwf(l[1]) && all_hwf(rest)));
    assert(list_syms(l.drop_first()) == syms(l[1]) + list_syms(rest));
    assert(syms(l[0]) + (syms(l[1]) + list_syms(rest)) =~= syms(l[0]) + syms(l[1]) + list_syms(
        rest,
    ));
}

/// What the merge loop keeps: the final tree has the shape of a Huffman
/// tree, all the leaves and symbols of the list, and its root frequency is
/// the sum of the list's.
pub proof fn lemma_merge_all(l: Seq<BinTree<HuffmanNode>>)
    requires
        l.len() >= 1,
        all_hwf(l),
        list_freq(l) <= u64::MAX,
    ensures
        hwf(merge_all(l)),
        leaves(merge_all(l)) == list_leaves(l),
        syms(merge_all(l)) == list_syms(l),
        merge_all(l).val.freq == list_freq(l),
    decreases l.len(),
{
    reveal_with_fuel(list_leaves, 2);
    reveal_with_fuel(list_syms, 2);
    reveal_with_fuel(list_freq, 2);
    if l.len() == 1 {
        assert(l.drop_first() =~= Seq::<BinTree<HuffmanNode>>::empty());
        assert(syms(l[0]) + Set::empty() =~= syms(l[0]));
    } else {
        let rest = l.subrange(2, l.len() as int);
        let m = merged(l[0], l[1]);
        lemma_drop_two(l);
        lemma_insert_measures(rest, m);
        assert(!is_leaf(m));
        assert(leaves(m) == leaves(l[1]) + leaves(l[0]));
        assert(syms(m) =~= syms(l[1]) + syms(l[0]));
        assert(list_syms(rest) + syms(m) =~= syms(l[0]) + syms(l[1]) + list_syms(rest));
        let next = insert_by_freq(rest, m);
        lemma_merge_all(next);
        assert(merge_all(l) == merge_all(next));
        assert(list_leaves(next) == list_leaves(rest) + leaves(m));
    }
}

} // verus!

verus! {

/// Sum of the counts of the byte values below `n`.
pub open spec fn count_sum(d: Seq<u8>, n: nat) -> nat
    decreases n,
{
    if n == 0 {
        0
    } else {
        count_sum(d, (n - 1) as nat) + count_of(d, (n - 1) as u8)
    }
}

/// The byte values below `n` that occur in `d`.
pub open spec fn present_below(d: Seq<u8>, n: nat) -> Set<u8> {
    Set::new(|s: u8| s < n && count_of(d, s) > 0)
}

pub proof fn lemma_count_le(d: Seq<u8>, s: u8)
    ensures
        count_of(d, s) <= d.len(),
    decreases d.len(),
{
    if d.len() > 0 {
        lemma_count_le(d.drop_last(), s);
    }
}

/// Every byte of `d` occurs in it.
pub proof fn lemma_count_pos(d: Seq<u8>, i: int)
    requires
        0 <= i < d.len(),
    ensures
        count_of(d, d[i]) > 0,
    decreases d.len(),
{
    if i < d.len() - 1 {
        lemma_count_pos(d.drop_last(), i);
    }
}

proof fn lemma_count_sum_push(d: Seq<u8>, n: nat)
    requires
        d.len() > 0,
        n <= 256,
    ensures
        count_sum(d, n) == count_sum(d.drop_last(), n) + if (d.last() as nat) < n {
            1nat
        } else {
            0nat
        },
    decreases n,
{
    if n > 0 {
        lemma_count_sum_push(d, (n - 1) as nat);
    }
}

/// The counts of all byte values add up to the length.
pub proof fn lemma_count_sum(d: Seq<u8>)
    ensures
        count_sum(d, 256) == d.len(),
    decreases d.len(),
{
    if d.len() == 0 {
        lemma_count_sum_zero(d, 256);
    } else {
        lemma_count_sum_push(d, 256);
        lemma_count_sum(d.drop_last());
    }
}

proof fn lemma_count_sum_zero(d: Seq<u8>, n: nat)
    requires
        d.len() == 0,
    ensures
        count_sum(d, n) == 0,
    decreases n,
{
    if n > 0 {
        lemma_count_sum_zero(d, (n - 1) as nat);
    }
}

/// The initial working list holds one leaf per occurring byte value below
/// `n`, with its count as frequency.
pub proof fn lemma_leaf_list(d: Seq<u8>, n: nat)
    requires
        n <= 256,
        d.len() <= u64::MAX,
    ensures
        all_hwf(leaf_list(d, n)),
        list_leaves(leaf_list(d, n)) == distinct_below(d, n),
        list_freq(leaf_list(d, n)) == count_sum(d, n),
        list_syms(leaf_list(d, n)) == present_below(d, n),
    decreases n,
{
    if n == 0 {
        assert(present_below(d, 0) =~= Set::empty());
    } else {
        let s = (n - 1) as u8;
        lemma_leaf_list(d, (n - 1) as nat);
        let prev = leaf_list(d, (n - 1) as nat);
        if count_of(d, s) > 0 {
            let t = leaf_tree(count_of(d, s), s);
            lemma_count_le(d, s);
            lemma_insert_measures(prev, t);
            assert(syms(t) =~= set![s]);
            assert(present_below(d, n) =~= present_below(d, (n - 1) as nat) + set![s]);
        } else {
            assert(present_below(d, n) =~= present_below(d, (n - 1) as nat));
        }
    }
}

/// Inserting after every entry of lower or equal frequency, in a list
/// ordered by frequency, is inserting at the first entry of higher frequency.
pub proof fn lemma_insert_at(l: Seq<BinTree<HuffmanNode>>, t: BinTree<HuffmanNode>, j: int)
    requires
        0 <= j <= l.len(),
        forall|k: int| 0 <= k < j ==> l[k].val.freq <= t.val.freq,
        j == l.len() || t.val.freq < l[j].val.freq,
    ensures
        insert_by_freq(l, t) == l.insert(j, t),
    decreases j,
{
    if j == 0 {
        if l.len() == 0 {
            assert(l.insert(0, t) =~= seq![t]);
        } else {
            assert(l.insert(0, t) =~= seq![t] + l);
        }
    } else {
        lemma_insert_at(l.drop_first(), t, j - 1);
        assert(l.insert(j, t) =~= seq![l[0]] + l.drop_first().insert(j - 1, t));
    }
}

/// Counts the occurrences of each byte value: entry `s` of the result is
/// the number of times `s` occurs in `data`.
pub fn count_frequencies(data: &[u8]) -> (r: Vec<u64>)
    ensures
        r@.len() == 256,
        forall|s: int| 0 <= s < 256 ==> r@[s] == count_of(data@, s as u8),
{
    let mut counts: Vec<u64> = Vec::new();
    let mut s: usize = 0;
    while s < 256
        invariant
            s <= 256,
            counts@.len() == s,
            forall|k: int| 0 <= k < s ==> counts@[k] == 0,
        decreases 256 - s,
    {
        counts.push(0);
        s += 1;
    }
    let mut i: usize = 0;
    while i < data.len()
        invariant
            counts@.len() == 256,
            i <= data@.len(),
            forall|k: int|
                0 <= k < 256 ==> counts@[k] == count_of(data@.subrange(0, i as int), k as u8),
        decreases data@.len() - i,
    {
        let b = data[i];
        let ghost seen = data@.subrange(0, i as int);
        proof {
            lemma_count_le(seen, b);
            assert(data@.subrange(0, i + 1).drop_last() =~= seen);
        }
        let c = counts[b as usize];
        counts.set(b as usize, c + 1);
        i += 1;
    }
    proof {
        assert(data@.subrange(0, data@.len() as int) =~= data@);
    }
    counts
}

/// Inserts `t` into a working list after every entry of lower or equal
/// frequency.
fn insert_by_frequency(list: &mut Vec<BinTree<HuffmanNode>>, t: BinTree<HuffmanNode>)
    ensures
        final(list)@ == insert_by_freq(old(list)@, t),
{
    let mut j: usize = 0;
    while j < list.len() && list[j].val.freq <= t.val.freq
        invariant
            j <= list@.len(),
            list@ == old(list)@,
            forall|k: int| 0 <= k < j ==> list@[k].val.freq <= t.val.freq,
        decreases list@.len() - j,
    {
        j += 1;
    }
    proof {
        lemma_insert_at(list@, t, j as int);
    }
    list.insert(j, t);
}

/// The initial working list: one leaf per byte value that occurs, given the
/// counts of `data`.
fn leaf_entries(counts: &Vec<u64>, Ghost(data): Ghost<Seq<u8>>) -> (r: Vec<BinTree<HuffmanNode>>)
    requires
        counts@.len() == 256,
        forall|s: int| 0 <= s < 256 ==> counts@[s] == count_of(data, s as u8),
    ensures
        r@ == leaf_list(data, 256),
{
    let mut list: Vec<BinTree<HuffmanNode>> = Vec::new();
    let mut s: usize = 0;
    while s < 256
        invariant
            s <= 256,
            counts@.len() == 256,
            forall|k: int| 0 <= k < 256 ==> counts@[k] == count_of(data, k as u8),
            list@ == leaf_list(data, s as nat),
        decreases 256 - s,
    {
        let c = counts[s];
        if c > 0 {
            let leaf = BinTree::new(HuffmanNode::new(c, s as u8));
            assert(leaf == leaf_tree(count_of(data, s as u8), s as u8));
            insert_by_frequency(&mut list, leaf);
        }
        s += 1;
    }
    list
}

/// Runs the greedy merge on a working list until one tree remains.
fn generate_tree(list: Vec<BinTree<HuffmanNode>>) -> (r: BinTree<HuffmanNode>)
    requires
        list@.len() >= 1,
        list_freq(list@) <= u64::MAX,
    ensures
        r == merge_all(list@),
{
    let ghost start = list@;
    let mut list = list;
    while list.len() > 1
        invariant
            list@.len() >= 1,
            list_freq(list@) <= u64::MAX,
            merge_all(list@) == merge_all(start),
        decreases list@.len(),
    {
        let ghost before = list@;
        let a = list.remove(0);
        let b = list.remove(0);
        proof {
            lemma_drop_two(before);
            assert(list@ =~= before.subrange(2, before.len() as int));
        }
        let mut node = BinTree::new(HuffmanNode::empty(a.val.freq + b.val.freq));
        add_tree(&mut node, a, Side::Right);
        add_tree(&mut node, b, Side::Left);
        assert(node == merged(before[0], before[1]));
        proof {
            lemma_insert_measures(list@, node);
        }
        insert_by_frequency(&mut list, node);
    }
    list.remove(0)
}

/// Builds the Huffman tree of a non-empty byte sequence.
pub fn build_tree(data: &[u8]) -> (r: BinTree<HuffmanNode>)
    requires
        data@.len() > 0,
    ensures
        r == huffman_tree(data@),
{
    let counts = count_frequencies(data);
    let list = leaf_entries(&counts, Ghost(data@));
    proof {
        assert(data@.len() == data.len());
        lemma_leaf_list(data@, 256);
        lemma_count_sum(data@);
        lemma_count_pos(data@, 0);
        assert(present_below(data@, 256).contains(data@[0]));
        if list@.len() == 0 {
            assert(list_syms(list@) =~= Set::empty());
        }
    }
    generate_tree(list)
}

pub proof fn lemma_distinct_below_le(d: Seq<u8>, n: nat)
    ensures
        distinct_below(d, n) <= n,
    decreases n,
{
    if n > 0 {
        lemma_distinct_below_le(d, (n - 1) as nat);
    }
}

} // verus!
