//! Huffman codes for bytes, as trees of boxed nodes.

use vstd::prelude::*;
use crate::package_merge::{sorted_symbols, sort_symbols};
use crate::plain::bitio::{bit_of, low_bits, byte_bits, clear_bits, BitReader, BitWriter};
use crate::stream::occurrences;
use crate::canonical::msb_value;

verus! {

/// A node of a code tree: a leaf for a symbol, or an inner node with the
/// weight of the symbols below it.
#[derive(Debug, PartialEq, Eq)]
pub struct Node {
    pub symbole: Option<u8>,
    pub freq: u32,
    pub left_node: Option<Box<Node>>,
    pub right_node: Option<Box<Node>>,
}

/// A code of up to 8 bits: the low `length` bits of `code`, of which the
/// most significant comes first.
#[derive(Clone, Copy, Debug, PartialEq, Eq)]
pub struct PrefixCode {
    pub code: u8,
    pub length: u8,
}

/// The coder. It keeps nothing between calls.
pub struct Huffman {}

proof fn bv_double(code: u8)
    by (bit_vector)
    ensures
        (code << 1u8) as int == (2 * (code as int)) % 256,
        (code << 1u8) <= 254u8,
{
}

impl PrefixCode {
    /// The code with a bit added at its end: a set bit for `bit == 1`, and a
    /// clear bit else. A ninth bit pushes the first one out.
    pub open spec fn with_bit(self, bit: u8) -> PrefixCode {
        PrefixCode {
            code: ((2 * self.code + (if bit == 1 { 1int } else { 0int })) % 256) as u8,
            length: (self.length + 1) as u8,
        }
    }

    /// The code with one more bit at its end.
    pub fn update(prefix_code: PrefixCode, bit: u8) -> (r: PrefixCode)
        requires
            prefix_code.length < 255,
        ensures
            r == prefix_code.with_bit(bit),
    {
        proof {
            bv_double(prefix_code.code);
        }
        if bit == 1 {
            return PrefixCode { code: (prefix_code.code << 1) + 1, length: prefix_code.length + 1 };
        } else {
            return PrefixCode { code: prefix_code.code << 1, length: prefix_code.length + 1 };
        }
    }
}

/// A leaf for `symbol`.
pub open spec fn leaf_of(symbol: u8, freq: u32) -> Node {
    Node { symbole: Some(symbol), freq, left_node: None, right_node: None }
}

/// A node without a symbol and without children.
pub open spec fn bare_node() -> Node {
    Node { symbole: None, freq: 0, left_node: None, right_node: None }
}

/// How often each byte occurs in `contents`.
pub open spec fn byte_counts(contents: Seq<u8>) -> Seq<u32> {
    Seq::new(256, |s: int| occurrences(contents, s) as u32)
}

/// The leaves of the bytes that occur in `contents`, by ascending count, and
/// by ascending byte where counts are equal.
pub open spec fn leaves_of(contents: Seq<u8>) -> Seq<Node> {
    let counts = byte_counts(contents);
    let order = sorted_symbols(counts, 256);
    Seq::new(order.len(), |k: int| leaf_of(order[k] as u8, counts[order[k] as int]))
}

/// Where a node of weight `freq` goes in the queue: behind every node that
/// is not heavier.
pub open spec fn place_of(queue: Seq<Node>, freq: u32) -> nat
    decreases queue.len(),
{
    if queue.len() == 0 {
        0
    } else if queue.last().freq <= freq {
        queue.len()
    } else {
        place_of(queue.drop_last(), freq)
    }
}

pub proof fn lemma_place_of(queue: Seq<Node>, freq: u32)
    ensures
        place_of(queue, freq) <= queue.len(),
    decreases queue.len(),
{
    if queue.len() > 0 && queue.last().freq > freq {
        lemma_place_of(queue.drop_last(), freq);
    }
}

/// The node above the two nodes in front of the queue.
pub open spec fn parent_of(left: Node, right: Node) -> Node {
    Node {
        symbole: None,
        freq: (left.freq + right.freq) as u32,
        left_node: Some(Box::new(left)),
        right_node: Some(Box::new(right)),
    }
}

/// The tree that merging makes of a queue: the two nodes in front become
/// the children of a node that takes its place in the queue by its weight,
/// until one node is left. No tree for an empty queue.
pub open spec fn merged(queue: Seq<Node>) -> Option<Node>
    decreases queue.len(),
{
    if queue.len() == 0 {
        None
    } else if queue.len() == 1 {
        Some(queue[0])
    } else {
        let parent = parent_of(queue[0], queue[1]);
        let rest = queue.skip(2);
        proof {
            lemma_place_of(rest, parent.freq);
        }
        merged(rest.insert(place_of(rest, parent.freq) as int, parent))
    }
}

/// The weights of the nodes of a queue, added up.
pub open spec fn total_freq(queue: Seq<Node>) -> nat
    decreases queue.len(),
{
    if queue.len() == 0 {
        0
    } else {
        total_freq(queue.drop_last()) + queue.last().freq as nat
    }
}

proof fn lemma_total_insert(queue: Seq<Node>, p: int, e: Node)
    requires
        0 <= p <= queue.len(),
    ensures
        total_freq(queue.insert(p, e)) == total_freq(queue) + e.freq,
    decreases queue.len(),
{
    let after = queue.insert(p, e);
    if p == queue.len() {
        assert(after.drop_last() =~= queue);
    } else {
        lemma_total_insert(queue.drop_last(), p, e);
        assert(after.drop_last() =~= queue.drop_last().insert(p, e));
    }
}

proof fn lemma_total_skip(queue: Seq<Node>)
    requires
        queue.len() >= 1,
    ensures
        total_freq(queue.skip(1)) + queue[0].freq == total_freq(queue),
    decreases queue.len(),
{
    if queue.len() == 1 {
        assert(queue.skip(1) =~= Seq::<Node>::empty());
        assert(queue.drop_last() =~= Seq::<Node>::empty());
    } else {
        lemma_total_skip(queue.drop_last());
        assert(queue.skip(1).drop_last() =~= queue.drop_last().skip(1));
    }
}

impl Node {
    /// The greatest number of links from the node down to a node with a
    /// symbol, or to where the tree ends.
    pub open spec fn depth(self) -> nat
        decreases self,
    {
        if self.symbole is Some {
            0
        } else {
            let left: nat = match self.left_node {
                Some(b) => 1 + b.depth(),
                None => 0,
            };
            let right: nat = match self.right_node {
                Some(b) => 1 + b.depth(),
                None => 0,
            };
            if left >= right { left } else { right }
        }
    }

    /// The lookup table with the codes of the symbols below the node, which
    /// `prefix` leads to: those on the left first.
    pub open spec fn lookup(self, prefix: PrefixCode, table: Seq<PrefixCode>) -> Seq<PrefixCode>
        decreases self,
    {
        match self.symbole {
            Some(s) => table.update(s as int, prefix),
            None => {
                let left = match self.left_node {
                    Some(b) => b.lookup(prefix.with_bit(0), table),
                    None => table,
                };
                match self.right_node {
                    Some(b) => b.lookup(prefix.with_bit(1), left),
                    None => left,
                }
            },
        }
    }

    /// The tree with a leaf for `symbol` at the end of the path that the low
    /// `remaining` bits of `code` spell, most significant first: a set bit
    /// leads right. Nodes are made where the path has none; whatever was at
    /// its end is gone.
    pub open spec fn with_leaf(self, code: u8, remaining: nat, symbol: u8) -> Node
        decreases remaining,
    {
        if remaining == 0 {
            leaf_of(symbol, 0)
        } else {
            let rest = (remaining - 1) as nat;
            if bit_of(code, rest) {
                let below = match self.right_node {
                    Some(b) => *b,
                    None => bare_node(),
                };
                Node {
                    symbole: self.symbole,
                    freq: self.freq,
                    left_node: self.left_node,
                    right_node: Some(Box::new(below.with_leaf(code, rest, symbol))),
                }
            } else {
                let below = match self.left_node {
                    Some(b) => *b,
                    None => bare_node(),
                };
                Node {
                    symbole: self.symbole,
                    freq: self.freq,
                    left_node: Some(Box::new(below.with_leaf(code, rest, symbol))),
                    right_node: self.right_node,
                }
            }
        }
    }
}

proof fn bv_path_bit(code: u8, i: u8)
    by (bit_vector)
    requires
        i < 8,
    ensures
        ((code >> i) & 1 == 1) == ((code >> i) & 1 != 0),
{
}

/// The tree with a leaf for `symbol` at the end of the path of the code.
fn inserted(node: Node, code: u8, remaining: u8, symbol: u8) -> (r: Node)
    requires
        remaining <= 8,
    ensures
        r == node.with_leaf(code, remaining as nat, symbol),
    decreases remaining,
{
    if remaining == 0 {
        return Node { symbole: Some(symbol), freq: 0, left_node: None, right_node: None };
    }
    let rest = remaining - 1;
    let Node { symbole, freq, left_node, right_node } = node;
    proof {
        bv_path_bit(code, rest);
    }
    if (code >> rest) & 1 == 1 {
        let below = match right_node {
            Some(b) => *b,
            None => Node { symbole: None, freq: 0, left_node: None, right_node: None },
        };
        Node {
            symbole,
            freq,
            left_node,
            right_node: Some(Box::new(inserted(below, code, rest, symbol))),
        }
    } else {
        let below = match left_node {
            Some(b) => *b,
            None => Node { symbole: None, freq: 0, left_node: None, right_node: None },
        };
        Node {
            symbole,
            freq,
            left_node: Some(Box::new(inserted(below, code, rest, symbol))),
            right_node,
        }
    }
}

impl Huffman {
    /// The leaves of the bytes that occur in `contents`, the rarest in front.
    pub fn analyz_symboles(&self, contents: &[u8]) -> (queue: Vec<Node>)
        requires
            contents@.len() <= u32::MAX,
        ensures
            queue@ == leaves_of(contents@),
            total_freq(queue@) <= contents@.len(),
    {
        let mut counts: Vec<u32> = Vec::new();
        let mut s: usize = 0;
        while s < 256
            invariant
                s <= 256,
                counts@.len() == s,
                forall|x: int| 0 <= x < s ==> counts@[x] == 0,
            decreases 256 - s,
        {
            counts.push(0);
            s += 1;
        }
        let mut k: usize = 0;
        while k < contents.len()
            invariant
                k <= contents@.len() <= u32::MAX,
                counts@.len() == 256,
                forall|x: int| 0 <= x < 256 ==> counts@[x] == occurrences(contents@.take(k as int), x),
                forall|x: int| 0 <= x < 256 ==> counts@[x] <= k,
            decreases contents.len() - k,
        {
            let byte = contents[k] as usize;
            let seen = counts[byte];
            counts[byte] = seen + 1;
            proof {
                assert(contents@.take(k + 1).drop_last() =~= contents@.take(k as int));
            }
            k += 1;
        }
        proof {
            assert(contents@.take(contents@.len() as int) =~= contents@);
            assert(counts@ =~= byte_counts(contents@));
        }
        let order = sort_symbols(counts.as_slice());
        let mut queue: Vec<Node> = Vec::new();
        let mut k: usize = 0;
        while k < order.len()
            invariant
                k <= order@.len(),
                counts@.len() == 256,
                forall|x: int| 0 <= x < order@.len() ==> #[trigger] order@[x] < 256,
                queue@.len() == k,
                forall|x: int|
                    0 <= x < k ==> #[trigger] queue@[x] == leaf_of(
                        order@[x] as u8,
                        counts@[order@[x] as int],
                    ),
            decreases order.len() - k,
        {
            let symbol = order[k];
            queue.push(
                Node {
                    symbole: Some(symbol as u8),
                    freq: counts[symbol],
                    left_node: None,
                    right_node: None,
                },
            );
            k += 1;
        }
        proof {
            assert(queue@ =~= leaves_of(contents@));
            lemma_leaves_total(contents@);
        }
        queue
    }

    /// Merges the nodes of the queue into one tree; `None` for an empty queue.
    pub fn build_huffman_tree(&self, symbols: Vec<Node>) -> (r: Option<Node>)
        requires
            total_freq(symbols@) <= u32::MAX,
        ensures
            r == merged(symbols@),
    {
        let ghost given = symbols@;
        let mut symbols = symbols;
        while symbols.len() > 1
            invariant
                total_freq(symbols@) <= u32::MAX,
                merged(symbols@) == merged(given),
            decreases symbols@.len(),
        {
            let ghost queue = symbols@;
            proof {
                lemma_total_skip(queue);
                lemma_total_skip(queue.skip(1));
                assert(queue.skip(1).skip(1) =~= queue.skip(2));
            }
            let left_node = symbols.remove(0);
            let right_node = symbols.remove(0);
            proof {
                assert(symbols@ =~= queue.skip(2));
            }
            let freq = left_node.freq + right_node.freq;
            let mut p: usize = symbols.len();
            proof {
                assert(symbols@.take(p as int) =~= symbols@);
            }
            while p > 0 && symbols[p - 1].freq > freq
                invariant
                    p <= symbols@.len(),
                    place_of(symbols@, freq) == place_of(symbols@.take(p as int), freq),
                decreases p,
            {
                proof {
                    assert(symbols@.take(p as int).drop_last() =~= symbols@.take(p - 1));
                }
                p -= 1;
            }
            let parent_node = Node {
                symbole: None,
                freq,
                left_node: Some(Box::new(left_node)),
                right_node: Some(Box::new(right_node)),
            };
            proof {
                if p > 0 {
                    assert(symbols@.take(p as int).last() == symbols@[p - 1]);
                }
                lemma_total_insert(symbols@, p as int, parent_node);
                assert(parent_node == parent_of(queue[0], queue[1]));
            }
            symbols.insert(p, parent_node);
        }
        symbols.pop()
    }

    /// Puts the codes of the symbols below `node`, which `prefix` leads to,
    /// into the table.
    pub fn build_huffman_lookup(
        &self,
        node: &Node,
        prefix: PrefixCode,
        hufmman_lookup: &mut Vec<PrefixCode>,
    )
        requires
            old(hufmman_lookup)@.len() == 256,
            prefix.length + node.depth() <= 255,
        ensures
            final(hufmman_lookup)@ == node.lookup(prefix, old(hufmman_lookup)@),
            final(hufmman_lookup)@.len() == 256,
        decreases node,
    {
        if let Some(symbole) = node.symbole {
            hufmman_lookup[symbole as usize] = prefix;
        } else {
            if let Some(ref left_node) = node.left_node {
                self.build_huffman_lookup(left_node, PrefixCode::update(prefix, 0), hufmman_lookup);
            }
            if let Some(ref right_node) = node.right_node {
                self.build_huffman_lookup(right_node, PrefixCode::update(prefix, 1), hufmman_lookup);
            }
        }
    }

    /// Puts a leaf for `symbole` into the tree, at the end of the path that
    /// the bits of `prefix` spell.
    pub fn insert_leaf(&self, root: &mut Node, prefix: PrefixCode, symbole: u8)
        requires
            prefix.length <= 8,
        ensures
            *final(root) == old(root).with_leaf(prefix.code, prefix.length as nat, symbole),
    {
        let mut taken = Node { symbole: None, freq: 0, left_node: None, right_node: None };
        core::mem::swap(root, &mut taken);
        *root = inserted(taken, prefix.code, prefix.length, symbole);
    }
}

proof fn lemma_leaves_total(contents: Seq<u8>)
    ensures
        total_freq(leaves_of(contents)) <= contents.len(),
{
    // each leaf stands for the occurrences of another byte
    let counts = byte_counts(contents);
    let order = sorted_symbols(counts, 256);
    crate::package_merge_proofs::lemma_sorted_symbols_ordered(counts, 256);
    lemma_counts_of(contents, order, order.len());
    assert(leaves_of(contents) =~= leaves_of(contents).take(order.len() as int));
}

/// The occurrences of different bytes add up to no more than there are bytes.
proof fn lemma_counts_of(contents: Seq<u8>, order: Seq<usize>, k: nat)
    requires
        k <= order.len(),
        forall|x: int| 0 <= x < order.len() ==> #[trigger] order[x] < 256,
        forall|a: int, b: int| 0 <= a < b < order.len() ==> order[a] != order[b],
    ensures
        total_freq(
            Seq::new(
                order.len(),
                |x: int| leaf_of(order[x] as u8, byte_counts(contents)[order[x] as int]),
            ).take(k as int),
        ) <= among(contents, order.take(k as int)),
        among(contents, order.take(k as int)) <= contents.len(),
    decreases k,
{
    let leaves = Seq::new(
        order.len(),
        |x: int| leaf_of(order[x] as u8, byte_counts(contents)[order[x] as int]),
    );
    lemma_among_bound(contents, order.take(k as int));
    if k > 0 {
        lemma_counts_of(contents, order, (k - 1) as nat);
        assert(leaves.take(k as int).drop_last() =~= leaves.take(k - 1));
        let s = order[k - 1];
        let before = order.take(k - 1);
        assert(order.take(k as int) =~= before.push(s));
        assert forall|x: int| 0 <= x < before.len() implies before[x] != s by {
            assert(before[x] == order[x]);
        }
        lemma_among_push(contents, before, s);
        crate::roundtrip::lemma_occurrences_bound(contents, s as int);
    } else {
        assert(leaves.take(0) =~= Seq::<Node>::empty());
    }
}

/// How many of the bytes of `contents` are among `symbols`.
spec fn among(contents: Seq<u8>, symbols: Seq<usize>) -> nat
    decreases contents.len(),
{
    if contents.len() == 0 {
        0
    } else {
        among(contents.drop_last(), symbols) + (if symbols.contains(contents.last() as usize) {
            1nat
        } else {
            0nat
        })
    }
}

proof fn lemma_among_bound(contents: Seq<u8>, symbols: Seq<usize>)
    ensures
        among(contents, symbols) <= contents.len(),
    decreases contents.len(),
{
    if contents.len() > 0 {
        lemma_among_bound(contents.drop_last(), symbols);
    }
}

proof fn lemma_among_push(contents: Seq<u8>, symbols: Seq<usize>, s: usize)
    requires
        s < 256,
        forall|x: int| 0 <= x < symbols.len() ==> symbols[x] != s,
    ensures
        among(contents, symbols.push(s)) == among(contents, symbols) + occurrences(
            contents,
            s as int,
        ),
    decreases contents.len(),
{
    if contents.len() > 0 {
        lemma_among_push(contents.drop_last(), symbols, s);
        let b = contents.last() as usize;
        let more = symbols.push(s);
        if b == s {
            assert(more[symbols.len() as int] == b);
            assert(!symbols.contains(b));
        } else {
            if symbols.contains(b) {
                let x = choose|x: int| 0 <= x < symbols.len() && symbols[x] == b;
                assert(more[x] == b);
            }
            if more.contains(b) {
                let x = choose|x: int| 0 <= x < more.len() && more[x] == b;
                assert(symbols[x] == b);
            }
        }
    }
}


// ---------------------------------------------------------------------------
// Coding bytes

impl Node {
    /// How many symbols hang below the node.
    pub open spec fn symbols(self) -> nat
        decreases self,
    {
        if self.symbole is Some {
            1
        } else {
            (match self.left_node {
                Some(b) => b.symbols(),
                None => 0,
            }) + (match self.right_node {
                Some(b) => b.symbols(),
                None => 0,
            })
        }
    }

    /// Whether no symbol below the node is farther down than there are
    /// symbols below the node.
    pub open spec fn shallow(self) -> bool {
        self.depth() + 1 <= self.symbols()
    }
}

/// The symbols below the nodes of a queue, counted.
pub open spec fn total_symbols(queue: Seq<Node>) -> nat
    decreases queue.len(),
{
    if queue.len() == 0 {
        0
    } else {
        total_symbols(queue.drop_last()) + queue.last().symbols()
    }
}

proof fn lemma_symbols_insert(queue: Seq<Node>, p: int, e: Node)
    requires
        0 <= p <= queue.len(),
    ensures
        total_symbols(queue.insert(p, e)) == total_symbols(queue) + e.symbols(),
    decreases queue.len(),
{
    let after = queue.insert(p, e);
    if p == queue.len() {
        assert(after.drop_last() =~= queue);
    } else {
        lemma_symbols_insert(queue.drop_last(), p, e);
        assert(after.drop_last() =~= queue.drop_last().insert(p, e));
    }
}

proof fn lemma_symbols_skip(queue: Seq<Node>)
    requires
        queue.len() >= 1,
    ensures
        total_symbols(queue.skip(1)) + queue[0].symbols() == total_symbols(queue),
    decreases queue.len(),
{
    if queue.len() == 1 {
        assert(queue.skip(1) =~= Seq::<Node>::empty());
        assert(queue.drop_last() =~= Seq::<Node>::empty());
    } else {
        lemma_symbols_skip(queue.drop_last());
        assert(queue.skip(1).drop_last() =~= queue.drop_last().skip(1));
    }
}

/// A tree merged of shallow trees is shallow, and holds their symbols.
pub proof fn lemma_merged_shallow(queue: Seq<Node>)
    requires
        forall|i: int| 0 <= i < queue.len() ==> (#[trigger] queue[i]).shallow(),
        queue.len() >= 1,
    ensures
        merged(queue) is Some,
        merged(queue)->0.shallow(),
        merged(queue)->0.symbols() == total_symbols(queue),
    decreases queue.len(),
{
    if queue.len() == 1 {
        assert(queue.drop_last() =~= Seq::<Node>::empty());
        assert(total_symbols(queue.drop_last()) == 0);
        assert(total_symbols(queue) == queue[0].symbols());
    } else {
        let parent = parent_of(queue[0], queue[1]);
        assert(parent.symbols() == queue[0].symbols() + queue[1].symbols());
        let rest = queue.skip(2);
        let p = place_of(rest, parent.freq) as int;
        lemma_place_of(rest, parent.freq);
        let next = rest.insert(p, parent);
        assert(queue[0].shallow() && queue[1].shallow());
        assert(parent.shallow());
        assert forall|i: int| 0 <= i < next.len() implies (#[trigger] next[i]).shallow() by {
            if i < p {
                assert(next[i] == queue[i + 2]);
            } else if i > p {
                assert(next[i] == queue[i + 1]);
            }
        }
        lemma_symbols_skip(queue);
        lemma_symbols_skip(queue.skip(1));
        assert(queue.skip(1).skip(1) =~= rest);
        lemma_symbols_insert(rest, p, parent);
        lemma_merged_shallow(next);
        assert(total_symbols(next) == total_symbols(queue));
        assert(merged(queue) == merged(next));
    }
}

proof fn lemma_leaves_symbols(queue: Seq<Node>)
    requires
        forall|i: int| 0 <= i < queue.len() ==> (#[trigger] queue[i]).symbole is Some,
    ensures
        total_symbols(queue) == queue.len(),
    decreases queue.len(),
{
    if queue.len() > 0 {
        let init = queue.drop_last();
        assert forall|i: int| 0 <= i < init.len() implies (#[trigger] init[i]).symbole is Some by {
            assert(init[i] == queue[i]);
        }
        lemma_leaves_symbols(init);
    }
}

/// Whether every code of a table has at most 8 bits, as many as a code is
/// written from and read into.
pub open spec fn fits_bytes(lookup: Seq<PrefixCode>) -> bool {
    forall|s: int| 0 <= s < lookup.len() ==> (#[trigger] lookup[s]).length <= 8
}

/// The table without codes.
pub open spec fn no_codes() -> Seq<PrefixCode> {
    Seq::new(256, |s: int| PrefixCode { code: 0, length: 0 })
}

/// The codes of the bytes of `contents`: those of the tree merged of their
/// leaves. Bytes that do not occur have no code; neither has a byte that is
/// the only one to occur.
pub open spec fn lookup_of(contents: Seq<u8>) -> Seq<PrefixCode> {
    match merged(leaves_of(contents)) {
        Some(tree) => tree.lookup(PrefixCode { code: 0, length: 0 }, no_codes()),
        None => no_codes(),
    }
}

/// The first `k` entries of a table as they are written: for each the
/// length in 8 bits, then the code.
pub open spec fn table_bits(lookup: Seq<PrefixCode>, k: nat) -> Seq<bool>
    decreases k,
{
    if k == 0 {
        Seq::empty()
    } else {
        table_bits(lookup, (k - 1) as nat) + low_bits(lookup[k - 1].length, 8) + low_bits(
            lookup[k - 1].code,
            lookup[k - 1].length as nat,
        )
    }
}

/// The codes of the bytes of `contents`, one after the other.
pub open spec fn content_bits(lookup: Seq<PrefixCode>, contents: Seq<u8>) -> Seq<bool>
    decreases contents.len(),
{
    if contents.len() == 0 {
        Seq::empty()
    } else {
        content_bits(lookup, contents.drop_last()) + low_bits(
            lookup[contents.last() as int].code,
            lookup[contents.last() as int].length as nat,
        )
    }
}

/// What a walk through `tree` makes of `bits`, with `out` made so far and
/// the walk at node `at`. At a node without children the bit is dropped: if
/// the node has a symbol, the symbol is put out and the walk starts over
/// from the root. Elsewhere a set bit leads right and a clear bit left,
/// where there is a node.
pub open spec fn walked(tree: Node, at: Node, bits: Seq<bool>, out: Seq<u8>) -> Seq<u8>
    decreases bits.len(),
{
    if bits.len() == 0 {
        out
    } else {
        let rest = bits.skip(1);
        if at.left_node is None && at.right_node is None {
            match at.symbole {
                Some(v) => walked(tree, tree, rest, out.push(v)),
                None => walked(tree, at, rest, out),
            }
        } else if bits[0] {
            match at.right_node {
                Some(b) => walked(tree, *b, rest, out),
                None => walked(tree, at, rest, out),
            }
        } else {
            match at.left_node {
                Some(b) => walked(tree, *b, rest, out),
                None => walked(tree, at, rest, out),
            }
        }
    }
}

/// The tree with the leaves of the first `k` entries of a table that have a
/// code.
pub open spec fn tree_of(lookup: Seq<PrefixCode>, k: nat) -> Node
    decreases k,
{
    if k == 0 {
        bare_node()
    } else {
        let before = tree_of(lookup, (k - 1) as nat);
        let entry = lookup[k - 1];
        if entry.length != 0 {
            before.with_leaf(entry.code, entry.length as nat, (k - 1) as u8)
        } else {
            before
        }
    }
}

/// The bits that are left after an entry of a table is read from `bits`:
/// none, if the bits end inside the entry.
pub open spec fn after_entry(bits: Seq<bool>) -> Seq<bool> {
    if bits.len() < 8 {
        Seq::empty()
    } else {
        let length = msb_value(bits.take(8)) % 256;
        if bits.len() - 8 < length {
            Seq::empty()
        } else {
            bits.skip(8 + length as int)
        }
    }
}

/// The entry of a table that stands at the start of `bits`: its length in 8
/// bits, then as many bits of code. No code, if the bits end inside it.
pub open spec fn entry_of(bits: Seq<bool>) -> PrefixCode {
    if bits.len() < 8 {
        PrefixCode { code: 0, length: 0 }
    } else {
        let length = msb_value(bits.take(8)) % 256;
        if bits.len() - 8 < length {
            PrefixCode { code: 0, length: 0 }
        } else {
            PrefixCode {
                code: (msb_value(bits.skip(8).take(length as int)) % 256) as u8,
                length: length as u8,
            }
        }
    }
}

/// The bits that are left after `k` entries of a table.
pub open spec fn after_table(bits: Seq<bool>, k: nat) -> Seq<bool>
    decreases k,
{
    if k == 0 {
        bits
    } else {
        after_entry(after_table(bits, (k - 1) as nat))
    }
}

/// The table whose entries stand at the start of `bits`.
pub open spec fn table_of(bits: Seq<bool>) -> Seq<PrefixCode> {
    Seq::new(256, |s: int| entry_of(after_table(bits, s as nat)))
}

impl Huffman {
    /// Reads a table of 256 entries.
    pub fn read_lookup(&self, reader: &mut BitReader<'_>) -> (lookup: Vec<PrefixCode>)
        ensures
            lookup@ == table_of(old(reader).bits()),
            final(reader).bits() == after_table(old(reader).bits(), 256),
    {
        let ghost all = reader.bits();
        let mut huffman_lookup: Vec<PrefixCode> = Vec::new();
        let mut i: usize = 0;
        while i < 256
            invariant
                i <= 256,
                huffman_lookup@.len() == i,
                reader.bits() == after_table(all, i as nat),
                forall|s: int|
                    0 <= s < i ==> #[trigger] huffman_lookup@[s] == entry_of(
                        after_table(all, s as nat),
                    ),
            decreases 256 - i,
        {
            let ghost here = reader.bits();
            let mut entry = PrefixCode { code: 0, length: 0 };
            if let Some(length) = reader.read_bits(8) {
                if let Some(code) = reader.read_bits(length) {
                    entry = PrefixCode { code, length };
                    proof {
                        assert(here.skip(8).skip(length as int) =~= here.skip(8 + length));
                    }
                } else {
                    proof {
                        assert(reader.bits() =~= Seq::<bool>::empty());
                    }
                }
            } else {
                proof {
                    assert(reader.bits() =~= Seq::<bool>::empty());
                }
            }
            huffman_lookup.push(entry);
            i += 1;
        }
        proof {
            assert(huffman_lookup@ =~= table_of(all));
        }
        huffman_lookup
    }

    /// The codes for the bytes of `contents`.
    pub fn lookup_for(&self, contents: &[u8]) -> (lookup: Vec<PrefixCode>)
        requires
            contents@.len() <= u32::MAX,
        ensures
            lookup@ == lookup_of(contents@),
            lookup@.len() == 256,
    {
        let symboles_queue = self.analyz_symboles(contents);
        let ghost queue = symboles_queue@;
        let mut huffman_lookup: Vec<PrefixCode> = Vec::new();
        let mut s: usize = 0;
        while s < 256
            invariant
                s <= 256,
                huffman_lookup@.len() == s,
                forall|x: int|
                    0 <= x < s ==> huffman_lookup@[x] == (PrefixCode { code: 0, length: 0 }),
            decreases 256 - s,
        {
            huffman_lookup.push(PrefixCode { code: 0, length: 0 });
            s += 1;
        }
        proof {
            assert(huffman_lookup@ =~= no_codes());
        }
        if let Some(huffman_tree) = self.build_huffman_tree(symboles_queue) {
            proof {
                let counts = byte_counts(contents@);
                crate::package_merge::lemma_sorted_symbols(counts, 256);
                crate::package_merge::lemma_count_nonzero_bound(counts.take(256));
                lemma_leaves_symbols(queue);
                lemma_merged_shallow(queue);
            }
            self.build_huffman_lookup(
                &huffman_tree,
                PrefixCode { code: 0, length: 0 },
                &mut huffman_lookup,
            );
        }
        huffman_lookup
    }

    /// Writes the 256 entries of a table.
    fn write_table(bit_writer: &mut BitWriter, lookup: &Vec<PrefixCode>)
        requires
            lookup@.len() == 256,
            fits_bytes(lookup@),
        ensures
            final(bit_writer).bits() == old(bit_writer).bits() + table_bits(lookup@, 256),
    {
        let ghost base = bit_writer.bits();
        let mut i: usize = 0;
        proof {
            assert(base + table_bits(lookup@, 0) =~= base);
        }
        while i < 256
            invariant
                i <= 256,
                lookup@.len() == 256,
                fits_bytes(lookup@),
                bit_writer.bits() == base + table_bits(lookup@, i as nat),
            decreases 256 - i,
        {
            let entry = lookup[i];
            let ghost written = table_bits(lookup@, i as nat);
            bit_writer.write_bits(entry.length, 8);
            bit_writer.write_bits(entry.code, entry.length);
            i += 1;
            proof {
                assert(bit_writer.bits() =~= base + (written + low_bits(entry.length, 8)
                    + low_bits(entry.code, entry.length as nat)));
            }
        }
    }

    /// Writes the codes of the bytes of `contents`.
    fn write_contents(bit_writer: &mut BitWriter, lookup: &Vec<PrefixCode>, contents: &[u8])
        requires
            lookup@.len() == 256,
            fits_bytes(lookup@),
        ensures
            final(bit_writer).bits() == old(bit_writer).bits() + content_bits(lookup@, contents@),
    {
        let ghost base = bit_writer.bits();
        let mut k: usize = 0;
        proof {
            assert(contents@.take(0) =~= Seq::<u8>::empty());
            assert(base + content_bits(lookup@, contents@.take(0)) =~= base);
        }
        while k < contents.len()
            invariant
                k <= contents@.len(),
                lookup@.len() == 256,
                fits_bytes(lookup@),
                bit_writer.bits() == base + content_bits(lookup@, contents@.take(k as int)),
            decreases contents.len() - k,
        {
            let entry = lookup[contents[k] as usize];
            let ghost written = content_bits(lookup@, contents@.take(k as int));
            proof {
                assert(contents@.take(k + 1).drop_last() =~= contents@.take(k as int));
            }
            bit_writer.write_bits(entry.code, entry.length);
            k += 1;
            proof {
                assert(bit_writer.bits() =~= base + (written + low_bits(
                    entry.code,
                    entry.length as nat,
                )));
            }
        }
        proof {
            assert(contents@.take(contents@.len() as int) =~= contents@);
        }
    }

    /// The coded form of `contents`: the table, then the codes of the bytes,
    /// filled up with clear bits to a whole byte.
    pub fn encode_with(&self, lookup: &Vec<PrefixCode>, contents: &[u8]) -> (out: Vec<u8>)
        requires
            lookup@.len() == 256,
            fits_bytes(lookup@),
        ensures
            byte_bits(out@) == table_bits(lookup@, 256) + content_bits(lookup@, contents@)
                + clear_bits(
                ((8 - (table_bits(lookup@, 256) + content_bits(lookup@, contents@)).len() % 8)
                    % 8) as nat,
            ),
    {
        let mut bit_writer = BitWriter::new(Vec::new());
        proof {
            assert(bit_writer.bits() =~= Seq::<bool>::empty());
        }
        Self::write_table(&mut bit_writer, lookup);
        Self::write_contents(&mut bit_writer, lookup, contents);
        proof {
            assert(bit_writer.bits() =~= table_bits(lookup@, 256) + content_bits(
                lookup@,
                contents@,
            ));
        }
        bit_writer.into_bytes()
    }

    /// The tree of the codes of a table.
    pub fn lookup_tree(&self, lookup: &Vec<PrefixCode>) -> (tree: Node)
        requires
            lookup@.len() == 256,
            fits_bytes(lookup@),
        ensures
            tree == tree_of(lookup@, 256),
    {
        let mut huffman_tree = Node { symbole: None, freq: 0, left_node: None, right_node: None };
        let mut i: usize = 0;
        while i < 256
            invariant
                i <= 256,
                lookup@.len() == 256,
                fits_bytes(lookup@),
                huffman_tree == tree_of(lookup@, i as nat),
            decreases 256 - i,
        {
            let entry = lookup[i];
            if entry.length != 0 {
                self.insert_leaf(&mut huffman_tree, entry, i as u8);
            }
            i += 1;
        }
        huffman_tree
    }

    /// Walks through `tree` along the bits that are left in `reader`, and
    /// gives the symbols met.
    pub fn read_symbols(&self, tree: &Node, reader: &mut BitReader<'_>) -> (out: Vec<u8>)
        ensures
            out@ == walked(*tree, *tree, old(reader).bits(), Seq::empty()),
            final(reader).bits().len() == 0,
    {
        let mut walking_node: &Node = tree;
        let mut content: Vec<u8> = Vec::new();
        let ghost all = reader.bits();
        loop
            invariant
                walked(*tree, *tree, all, Seq::empty()) == walked(
                    *tree,
                    *walking_node,
                    reader.bits(),
                    content@,
                ),
            ensures
                content@ == walked(*tree, *tree, all, Seq::empty()),
                reader.bits().len() == 0,
            decreases reader.bits().len(),
        {
            match reader.read_bit() {
                Some(bit) => {
                    if walking_node.right_node.is_none() && walking_node.left_node.is_none() {
                        if let Some(value) = walking_node.symbole {
                            content.push(value);
                            walking_node = tree;
                        }
                    } else if bit == 1 {
                        if let Some(ref right_node) = walking_node.right_node {
                            walking_node = right_node;
                        }
                    } else {
                        if let Some(ref left_node) = walking_node.left_node {
                            walking_node = left_node;
                        }
                    }
                },
                None => {
                    break ;
                },
            }
        }
        content
    }
}


impl Huffman {
    /// Whether every code of the table has at most 8 bits.
    fn codes_fit(lookup: &Vec<PrefixCode>) -> (r: bool)
        ensures
            r == fits_bytes(lookup@),
    {
        let mut s: usize = 0;
        while s < lookup.len()
            invariant
                s <= lookup@.len(),
                forall|x: int| 0 <= x < s ==> (#[trigger] lookup@[x]).length <= 8,
            decreases lookup.len() - s,
        {
            if lookup[s].length > 8 {
                return false;
            }
            s += 1;
        }
        true
    }

    /// Codes `contents`: the table of the codes of its bytes, then the codes
    /// of the bytes, filled up with clear bits to a whole byte. `None` where
    /// a byte gets a code of more than 8 bits.
    pub fn encode(&self, contents: &[u8]) -> (r: Option<Vec<u8>>)
        requires
            contents@.len() <= u32::MAX,
        ensures
            r is Some <==> fits_bytes(lookup_of(contents@)),
            r is Some ==> ({
                let lookup = lookup_of(contents@);
                let written = table_bits(lookup, 256) + content_bits(lookup, contents@);
                byte_bits(r->0@) == written + clear_bits(((8 - written.len() % 8) % 8) as nat)
            }),
    {
        let huffman_lookup = self.lookup_for(contents);
        if !Self::codes_fit(&huffman_lookup) {
            return None;
        }
        Some(self.encode_with(&huffman_lookup, contents))
    }

    /// Decodes `data`: reads the table, and walks through the tree of its
    /// codes along the bits that follow. `None` where the table has a code of
    /// more than 8 bits.
    pub fn decode(&self, data: &[u8]) -> (r: Option<Vec<u8>>)
        ensures
            r is Some <==> fits_bytes(table_of(byte_bits(data@))),
            r is Some ==> ({
                let bits = byte_bits(data@);
                let tree = tree_of(table_of(bits), 256);
                r->0@ == walked(tree, tree, after_table(bits, 256), Seq::empty())
            }),
    {
        let mut bit_reader = BitReader::new(data);
        let huffman_lookup = self.read_lookup(&mut bit_reader);
        if !Self::codes_fit(&huffman_lookup) {
            return None;
        }
        let huffman_tree = self.lookup_tree(&huffman_lookup);
        Some(self.read_symbols(&huffman_tree, &mut bit_reader))
    }
}

} // verus!
