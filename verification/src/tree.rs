//! Decoding trees: a flat array of nodes that is walked one bit at a time.
//!
//! The leaves come first, one per symbol, so that a leaf's index is its
//! symbol; the inner nodes follow, and the last node is the root. A node
//! refers to its children by index, and a child always comes before its
//! parent.

use vstd::prelude::*;

use crate::huffman::{PrefixCode, HuffmanTable};
use crate::nonmax::NonMaxU16;
use crate::package_merge::{sorted_symbols, sort_symbols};

verus! {

/// One node: the indices of its children, where it has them.
#[derive(Clone, Copy)]
pub(crate) struct Node {
    pub(crate) left: Option<NonMaxU16>,
    pub(crate) right: Option<NonMaxU16>,
}

/// A binary tree over the symbols `0..num_symbols`.
pub struct HuffmanTree {
    nodes: Vec<Node>,
    num_symbols: usize,
}

/// A place in a tree, with the bits that led to it.
#[derive(Clone, Copy, Debug)]
pub struct WalkIterator {
    pub code: PrefixCode,
    pub idx: usize,
    pub leaf: bool,
}

pub(crate) open spec fn link(x: Option<NonMaxU16>) -> Option<int> {
    match x {
        Some(v) => Some(v.value() as int),
        None => None,
    }
}

pub(crate) open spec fn child_of(nodes: Seq<Node>, idx: int, bit: bool) -> Option<int> {
    if 0 <= idx < nodes.len() {
        if bit {
            link(nodes[idx].right)
        } else {
            link(nodes[idx].left)
        }
    } else {
        None
    }
}

pub(crate) open spec fn descend_in(nodes: Seq<Node>, root: int, path: Seq<bool>) -> Option<int>
    decreases path.len(),
{
    if path.len() == 0 {
        Some(root)
    } else {
        match descend_in(nodes, root, path.drop_last()) {
            Some(p) => child_of(nodes, p, path.last()),
            None => None,
        }
    }
}

pub(crate) open spec fn tree_ok(nodes: Seq<Node>, n: int) -> bool {
    &&& 1 <= n <= nodes.len() <= 65535
    &&& forall|i: int, b: bool|
        0 <= i < nodes.len() ==> match #[trigger] child_of(nodes, i, b) {
            Some(c) => n <= i && 0 <= c < i,
            None => true,
        }
}

/// Whether `part` is the start of `whole`.
pub open spec fn starts_with(whole: Seq<bool>, part: Seq<bool>) -> bool {
    part.len() <= whole.len() && whole.take(part.len() as int) == part
}

/// Whether no code is the start of another symbol's code.
pub open spec fn prefix_free(codes: Seq<PrefixCode>) -> bool {
    forall|a: int, b: int|
        0 <= a < codes.len() && 0 <= b < codes.len() && a != b && (#[trigger] codes[a]).length > 0
            && (#[trigger] codes[b]).length > 0 ==> !starts_with(codes[b].bits(), codes[a].bits())
}

/// Whether `p` is the start of some code.
#[verifier::opaque]
pub open spec fn on_code_path(codes: Seq<PrefixCode>, p: Seq<bool>) -> bool {
    exists|s: int|
        0 <= s < codes.len() && (#[trigger] codes[s]).length > 0 && starts_with(codes[s].bits(), p)
}

/// A code that `p` is the start of.
pub proof fn lemma_code_path(codes: Seq<PrefixCode>, p: Seq<bool>) -> (s: int)
    requires
        on_code_path(codes, p),
    ensures
        0 <= s < codes.len(),
        codes[s].length > 0,
        starts_with(codes[s].bits(), p),
{
    reveal(on_code_path);
    choose|s: int|
        0 <= s < codes.len() && (#[trigger] codes[s]).length > 0 && starts_with(codes[s].bits(), p)
}

/// Whether `p` is the start of some code and shorter than it.
pub open spec fn is_inner_path(codes: Seq<PrefixCode>, p: Seq<bool>) -> bool {
    exists|s: int|
        0 <= s < codes.len() && p.len() < (#[trigger] codes[s]).length && codes[s].bits().take(
            p.len() as int,
        ) == p
}

/// The paths from the root to the inner nodes of the codes' tree: every
/// proper start of a code.
pub open spec fn inner_paths(codes: Seq<PrefixCode>) -> Set<Seq<bool>> {
    Set::new(|p: Seq<bool>| is_inner_path(codes, p))
}

/// Whether the codes' tree has room in the node array: a tree over `n`
/// symbols holds at most `n - 1` inner nodes.
pub open spec fn tree_fits(codes: Seq<PrefixCode>) -> bool {
    inner_paths(codes).finite() && inner_paths(codes).len() + 1 <= codes.len()
}

/// The lengths of the first `n` codes, added up.
pub open spec fn total_length(codes: Seq<PrefixCode>, n: nat) -> nat
    decreases n,
{
    if n == 0 {
        0
    } else {
        total_length(codes, (n - 1) as nat) + codes[n - 1].length as nat
    }
}

/// The first `k` proper starts of `bits`.
spec fn starts_of(bits: Seq<bool>, k: nat) -> Set<Seq<bool>>
    decreases k,
{
    if k == 0 {
        Set::empty()
    } else {
        starts_of(bits, (k - 1) as nat).insert(bits.take(k - 1))
    }
}

/// The proper starts of the first `n` codes.
spec fn starts_of_all(codes: Seq<PrefixCode>, n: nat) -> Set<Seq<bool>>
    decreases n,
{
    if n == 0 {
        Set::empty()
    } else {
        starts_of_all(codes, (n - 1) as nat).union(
            starts_of(codes[n - 1].bits(), codes[n - 1].length as nat),
        )
    }
}

proof fn lemma_starts_of(bits: Seq<bool>, k: nat)
    ensures
        starts_of(bits, k).finite(),
        starts_of(bits, k).len() <= k,
        forall|j: int| 0 <= j < k ==> starts_of(bits, k).contains(#[trigger] bits.take(j)),
    decreases k,
{
    if k > 0 {
        lemma_starts_of(bits, (k - 1) as nat);
    }
}

proof fn lemma_starts_of_all(codes: Seq<PrefixCode>, n: nat)
    requires
        n <= codes.len(),
    ensures
        starts_of_all(codes, n).finite(),
        starts_of_all(codes, n).len() <= total_length(codes, n),
        forall|s: int, j: int|
            0 <= s < n && 0 <= j < codes[s].length ==> starts_of_all(codes, n).contains(
                #[trigger] codes[s].bits().take(j),
            ),
    decreases n,
{
    if n > 0 {
        let before = starts_of_all(codes, (n - 1) as nat);
        let those = starts_of(codes[n - 1].bits(), codes[n - 1].length as nat);
        lemma_starts_of_all(codes, (n - 1) as nat);
        lemma_starts_of(codes[n - 1].bits(), codes[n - 1].length as nat);
        vstd::set_lib::lemma_len_union(before, those);
    }
}

/// A tree has room for the codes if it has a symbol more than they have bits.
pub proof fn lemma_fits_by_length(codes: Seq<PrefixCode>)
    requires
        total_length(codes, codes.len()) + 1 <= codes.len(),
    ensures
        tree_fits(codes),
{
    let all = starts_of_all(codes, codes.len());
    lemma_starts_of_all(codes, codes.len());
    assert forall|p: Seq<bool>| inner_paths(codes).contains(p) implies all.contains(p) by {
        let s = choose|s: int|
            0 <= s < codes.len() && p.len() < (#[trigger] codes[s]).length && codes[s].bits().take(
                p.len() as int,
            ) == p;
        assert(all.contains(codes[s].bits().take(p.len() as int)));
    }
    vstd::set_lib::lemma_len_subset(inner_paths(codes), all);
}

impl HuffmanTree {
    #[verifier::type_invariant]
    spec fn well_formed(self) -> bool {
        tree_ok(self.nodes@, self.num_symbols as int)
    }

    /// The number of symbols, which are also the leaves' indices.
    pub closed spec fn symbols(self) -> nat {
        self.num_symbols as nat
    }

    /// The number of nodes.
    pub closed spec fn size(self) -> nat {
        self.nodes@.len()
    }

    /// The index of the root: the last node.
    pub open spec fn root(self) -> int {
        self.size() - 1
    }

    /// The child of node `idx` on the side of `bit`: left for a clear bit,
    /// right for a set one.
    pub closed spec fn child(self, idx: int, bit: bool) -> Option<int> {
        child_of(self.nodes@, idx, bit)
    }

    /// The node that `path` leads to from the root.
    pub open spec fn descend(self, path: Seq<bool>) -> Option<int>
        decreases path.len(),
    {
        if path.len() == 0 {
            Some(self.root())
        } else {
            match self.descend(path.drop_last()) {
                Some(p) => self.child(p, path.last()),
                None => None,
            }
        }
    }

    /// Whether the leaves come first and have no children, and children come
    /// before their parents. Every tree that a function hands out is so.
    pub closed spec fn shaped(self) -> bool {
        tree_ok(self.nodes@, self.num_symbols as int)
    }

    /// What `shaped` says of one node.
    pub proof fn lemma_child(self, i: int, b: bool)
        requires
            self.shaped(),
        ensures
            1 <= self.symbols() <= self.size() <= 65535,
            match self.child(i, b) {
                Some(c) => self.symbols() <= i < self.size() && 0 <= c < i,
                None => true,
            },
    {
    }

    /// Whether the tree is the tree of `codes`: each code leads to its
    /// symbol's leaf, and every path in the tree is the start of a code.
    pub open spec fn decodes(self, codes: Seq<PrefixCode>) -> bool {
        &&& self.shaped()
        &&& self.symbols() == codes.len()
        &&& forall|s: int|
            0 <= s < codes.len() && (#[trigger] codes[s]).length > 0 ==> self.descend(
                codes[s].bits(),
            ) == Some(s)
        &&& forall|p: Seq<bool>|
            p.len() > 0 && (#[trigger] self.descend(p)) is Some ==> on_code_path(codes, p)
    }

    /// A path that leads somewhere passes a node after each of its bits.
    pub proof fn lemma_descend_take(self, p: Seq<bool>, j: int)
        requires
            self.descend(p) is Some,
            0 <= j <= p.len(),
        ensures
            self.descend(p.take(j)) is Some,
            j < p.len() ==> self.descend(p.take(j + 1)) == self.child(
                self.descend(p.take(j))->0,
                p[j],
            ),
        decreases p.len() - j,
    {
        if j == p.len() {
            assert(p.take(j) =~= p);
        } else {
            self.lemma_descend_take(p, j + 1);
            assert(p.take(j + 1).drop_last() =~= p.take(j));
        }
    }

    /// In the tree of `codes`, a path ends at a leaf exactly when it is the
    /// code of the leaf's symbol.
    pub proof fn lemma_leaf_path(self, codes: Seq<PrefixCode>, p: Seq<bool>)
        requires
            self.decodes(codes),
            p.len() > 0,
            self.descend(p) is Some,
        ensures
            self.descend(p)->0 < self.symbols() ==> codes[self.descend(p)->0].length > 0
                && codes[self.descend(p)->0].bits() == p,
            self.descend(p)->0 >= self.symbols() ==> is_inner_path(codes, p),
    {
        let id = self.descend(p)->0;
        assert(on_code_path(codes, p));
        let s = lemma_code_path(codes, p);
        let whole = codes[s].bits();
        assert(self.descend(whole) == Some(s));
        assert(whole.take(p.len() as int) == p);
        if p.len() < whole.len() {
            self.lemma_descend_take(whole, p.len() as int);
            self.lemma_descend_take(whole, p.len() as int + 1);
            assert(self.child(id, whole[p.len() as int]) is Some);
            self.lemma_child(id, whole[p.len() as int]);
            assert(is_inner_path(codes, p));
        } else {
            assert(whole.take(p.len() as int) =~= whole);
            assert(id == s);
        }
    }

    fn is_leaf_node(&self, idx: usize) -> (r: bool)
        ensures
            r == (idx < self.symbols()),
    {
        idx < self.num_symbols
    }

    /// The place from which a walk starts: the root, with no bits yet.
    pub fn create_walk_iter(&self) -> (r: WalkIterator)
        ensures
            r.idx == self.root(),
            r.code.code == 0,
            r.code.length == 0,
            !r.leaf,
            self.shaped(),
    {
        proof {
            use_type_invariant(self);
        }
        WalkIterator { idx: self.nodes.len() - 1, code: PrefixCode { code: 0, length: 0 }, leaf: false }
    }

    /// One step down from `iter` on the side of `bit`, or `None` where the
    /// node has no child there.
    pub fn walk(&self, iter: WalkIterator, bit: bool) -> (r: Option<WalkIterator>)
        requires
            iter.idx < self.size(),
            iter.code.length < 32,
        ensures
            match self.child(iter.idx as int, bit) {
                Some(c) => r == Some(
                    WalkIterator {
                        code: PrefixCode {
                            code: iter.code.code | ((if bit { 1u32 } else { 0u32 })
                                << iter.code.length),
                            length: (iter.code.length + 1) as u8,
                        },
                        idx: c as usize,
                        leaf: c < self.symbols(),
                    },
                ) && self.symbols() <= iter.idx && 0 <= c < iter.idx,
                None => r is None,
            },
            self.shaped(),
            r is Some && iter.code.well_formed() ==> r->0.code.well_formed() && r->0.code.bits()
                == iter.code.bits().push(bit),
    {
        proof {
            use_type_invariant(self);
        }
        let node = self.nodes[iter.idx];
        let next = if bit { node.right } else { node.left };
        match next {
            Some(child) => {
                let idx = child.get() as usize;
                Some(
                    WalkIterator {
                        code: PrefixCode::update(iter.code, bit),
                        idx,
                        leaf: self.is_leaf_node(idx),
                    },
                )
            },
            None => None,
        }
    }
}

// ---------------------------------------------------------------------------
// Building a tree from the codes of a table

/// Whether the start of length `k` of the code of `x` must have a node by
/// now: `x` is either done, or in progress with more than `k` bits placed.
spec fn covered(codes: Seq<PrefixCode>, s: int, progress: int, x: int, k: int) -> bool {
    0 <= k && ((0 <= x < s && k < codes[x].length) || (x == s && k < progress))
}

/// Whether some node between `lo` and `hi` stands at the end of path `p`.
spec fn has_node(paths: Map<int, Seq<bool>>, lo: int, hi: int, p: Seq<bool>) -> bool {
    exists|id: int| lo <= id <= hi && #[trigger] paths[id] == p
}

/// The state of a tree under construction: the symbols below `s` are in
/// place, and `progress` nodes stand on the path of symbol `s`. `paths` gives
/// each node in use its path from the root, `inner` holds the paths of the
/// inner nodes in use, and the inner nodes not yet used lie below `alloc`.
spec fn building(
    nodes: Seq<Node>,
    n: int,
    alloc: int,
    paths: Map<int, Seq<bool>>,
    inner: Set<Seq<bool>>,
    rooted: bool,
    codes: Seq<PrefixCode>,
    s: int,
    progress: int,
) -> bool {
    let root = 2 * n - 2;
    &&& 2 <= n == codes.len()
    &&& nodes.len() == 2 * n - 1
    &&& n <= alloc <= root
    &&& 0 <= s <= n
    &&& 0 <= progress
    &&& (s < n ==> progress <= codes[s].length)
    &&& (s == n ==> progress == 0)
    &&& paths.dom().contains(root)
    &&& paths[root] == Seq::<bool>::empty()
    &&& (forall|id: int| alloc <= id <= root ==> #[trigger] paths.dom().contains(id))
    &&& (forall|id: int| #[trigger]
        paths.dom().contains(id) ==> (alloc <= id <= root) || (0 <= id < s && codes[id].length > 0
            && paths[id] == codes[id].bits()))
    &&& (forall|id: int|
        0 <= id < s && (#[trigger] codes[id]).length > 0 ==> paths.dom().contains(id))
    &&& (forall|i: int, b: bool|
        0 <= i < nodes.len() ==> match #[trigger] child_of(nodes, i, b) {
            Some(c) => alloc <= i <= root && paths.dom().contains(c) && paths[c] == paths[i].push(
                b,
            ) && 0 <= c < i && (c < n || alloc <= c),
            None => true,
        })
    &&& (forall|id: int| #[trigger]
        paths.dom().contains(id) ==> descend_in(nodes, root, paths[id]) == Some(id))
    &&& (forall|id: int| alloc <= id < root ==> is_inner_path(codes, #[trigger] paths[id]))
    &&& (rooted ==> is_inner_path(codes, Seq::<bool>::empty()))
    &&& (progress >= 1 ==> rooted)
    &&& (forall|x: int| 0 <= x < s && (#[trigger] codes[x]).length > 0 ==> rooted)
    &&& (forall|x: int, k: int| #[trigger]
        covered(codes, s, progress, x, k) ==> has_node(paths, alloc, root, codes[x].bits().take(k)))
    &&& inner.finite()
    &&& inner.len() == root - alloc + (if rooted { 1int } else { 0int })
    &&& (forall|p: Seq<bool>| #[trigger]
        inner.contains(p) <==> ((rooted && p == Seq::<bool>::empty()) || has_node(
            paths,
            alloc,
            root - 1,
            p,
        )))
}

/// Whether `after` is `before` with one more link: from `at`, on the side of
/// `bit`, to `to`.
spec fn linked(before: Seq<Node>, after: Seq<Node>, at: int, bit: bool, to: int) -> bool {
    &&& after.len() == before.len()
    &&& 0 <= at < before.len()
    &&& child_of(before, at, bit) is None
    &&& child_of(after, at, bit) == Some(to)
    &&& child_of(after, at, !bit) == child_of(before, at, !bit)
    &&& forall|i: int| 0 <= i < before.len() && i != at ==> after[i] == before[i]
}

/// A new link keeps every path that was there.
proof fn lemma_linked_descend(
    before: Seq<Node>,
    after: Seq<Node>,
    at: int,
    bit: bool,
    to: int,
    root: int,
    path: Seq<bool>,
)
    requires
        linked(before, after, at, bit, to),
        descend_in(before, root, path) is Some,
    ensures
        descend_in(after, root, path) == descend_in(before, root, path),
    decreases path.len(),
{
    if path.len() > 0 {
        lemma_linked_descend(before, after, at, bit, to, root, path.drop_last());
        let p = descend_in(before, root, path.drop_last())->0;
        assert(child_of(before, p, path.last()) is Some);
        if p == at {
            assert(path.last() == !bit);
        } else {
            assert(0 <= p < before.len());
            assert(after[p] == before[p]);
        }
    }
}

/// A path that leads to a node is the path recorded for it.
proof fn lemma_descend_path(
    nodes: Seq<Node>,
    n: int,
    alloc: int,
    paths: Map<int, Seq<bool>>,
    inner: Set<Seq<bool>>,
    rooted: bool,
    codes: Seq<PrefixCode>,
    s: int,
    progress: int,
    p: Seq<bool>,
)
    requires
        building(nodes, n, alloc, paths, inner, rooted, codes, s, progress),
        descend_in(nodes, 2 * n - 2, p) is Some,
    ensures
        paths.dom().contains(descend_in(nodes, 2 * n - 2, p)->0),
        paths[descend_in(nodes, 2 * n - 2, p)->0] == p,
    decreases p.len(),
{
    if p.len() > 0 {
        lemma_descend_path(nodes, n, alloc, paths, inner, rooted, codes, s, progress, p.drop_last());
        let q = descend_in(nodes, 2 * n - 2, p.drop_last())->0;
        assert(child_of(nodes, q, p.last()) is Some);
        assert(p.drop_last().push(p.last()) =~= p);
    } else {
        assert(p =~= Seq::<bool>::empty());
    }
}

/// The first code with bits puts the root to use.
proof fn lemma_start_symbol(
    nodes: Seq<Node>,
    n: int,
    alloc: int,
    paths: Map<int, Seq<bool>>,
    inner: Set<Seq<bool>>,
    rooted: bool,
    codes: Seq<PrefixCode>,
    s: int,
)
    requires
        building(nodes, n, alloc, paths, inner, rooted, codes, s, 0),
        s < n,
        codes[s].length > 0,
    ensures
        building(
            nodes,
            n,
            alloc,
            paths,
            if rooted { inner } else { inner.insert(Seq::<bool>::empty()) },
            true,
            codes,
            s,
            1,
        ),
{
    let root = 2 * n - 2;
    let empty = Seq::<bool>::empty();
    assert(codes[s].bits().take(0) =~= empty);
    assert(is_inner_path(codes, empty));
    if !rooted {
        if has_node(paths, alloc, root - 1, empty) {
            let id = choose|id: int| alloc <= id <= root - 1 && #[trigger] paths[id] == empty;
            assert(paths.dom().contains(id));
            assert(descend_in(nodes, root, paths[id]) == Some(id));
        }
        assert(!inner.contains(empty));
    }
    assert forall|x: int, k: int| #[trigger] covered(codes, s, 1, x, k) implies has_node(
        paths,
        alloc,
        root,
        codes[x].bits().take(k),
    ) by {
        if x == s {
            assert(paths[root] == codes[x].bits().take(k));
        } else {
            assert(covered(codes, s, 0, x, k));
        }
    }
}

/// A symbol without a code needs no node.
proof fn lemma_skip_symbol(
    nodes: Seq<Node>,
    n: int,
    alloc: int,
    paths: Map<int, Seq<bool>>,
    inner: Set<Seq<bool>>,
    rooted: bool,
    codes: Seq<PrefixCode>,
    s: int,
)
    requires
        building(nodes, n, alloc, paths, inner, rooted, codes, s, 0),
        s < n,
        codes[s].length == 0,
    ensures
        building(nodes, n, alloc, paths, inner, rooted, codes, s + 1, 0),
{
    let root = 2 * n - 2;
    assert forall|x: int, k: int| #[trigger] covered(codes, s + 1, 0, x, k) implies has_node(
        paths,
        alloc,
        root,
        codes[x].bits().take(k),
    ) by {
        assert(covered(codes, s, 0, x, k));
    }
}

/// Moving along a link that is there.
proof fn lemma_follow(
    nodes: Seq<Node>,
    n: int,
    alloc: int,
    paths: Map<int, Seq<bool>>,
    inner: Set<Seq<bool>>,
    rooted: bool,
    codes: Seq<PrefixCode>,
    s: int,
    progress: int,
    at: int,
    to: int,
)
    requires
        building(nodes, n, alloc, paths, inner, rooted, codes, s, progress),
        s < n,
        1 <= progress < codes[s].length,
        alloc <= at <= 2 * n - 2,
        paths[at] == codes[s].bits().take(progress - 1),
        child_of(nodes, at, codes[s].bits()[progress - 1]) == Some(to),
        to >= n,
    ensures
        building(nodes, n, alloc, paths, inner, rooted, codes, s, progress + 1),
        alloc <= to < at,
        paths[to] == codes[s].bits().take(progress),
{
    let root = 2 * n - 2;
    let bits = codes[s].bits();
    assert(bits.take(progress - 1).push(bits[progress - 1]) =~= bits.take(progress));
    assert forall|x: int, k: int| #[trigger] covered(codes, s, progress + 1, x, k) implies has_node(
        paths,
        alloc,
        root,
        codes[x].bits().take(k),
    ) by {
        if x == s && k == progress {
            assert(paths[to] == codes[x].bits().take(k));
        } else {
            assert(covered(codes, s, progress, x, k));
        }
    }
}

/// Putting a new inner node on the path of the symbol in progress.
proof fn lemma_attach_inner(
    nodes: Seq<Node>,
    after: Seq<Node>,
    n: int,
    alloc: int,
    paths: Map<int, Seq<bool>>,
    inner: Set<Seq<bool>>,
    rooted: bool,
    codes: Seq<PrefixCode>,
    s: int,
    progress: int,
    at: int,
)
    requires
        building(nodes, n, alloc, paths, inner, rooted, codes, s, progress),
        s < n,
        1 <= progress < codes[s].length,
        alloc <= at <= 2 * n - 2,
        paths[at] == codes[s].bits().take(progress - 1),
        n < alloc,
        linked(nodes, after, at, codes[s].bits()[progress - 1], alloc - 1),
    ensures
        building(
            after,
            n,
            alloc - 1,
            paths.insert(alloc - 1, codes[s].bits().take(progress)),
            inner.insert(codes[s].bits().take(progress)),
            rooted,
            codes,
            s,
            progress + 1,
        ),
{
    let root = 2 * n - 2;
    let bits = codes[s].bits();
    let bit = bits[progress - 1];
    let fresh = alloc - 1;
    let path = bits.take(progress);
    let paths2 = paths.insert(fresh, path);
    let inner2 = inner.insert(path);
    assert(bits.take(progress - 1).push(bit) =~= path);
    assert(path.drop_last() =~= bits.take(progress - 1));
    assert(!paths.dom().contains(fresh));
    // the paths that were there stay
    assert forall|id: int| #[trigger] paths2.dom().contains(id) implies descend_in(
        after,
        root,
        paths2[id],
    ) == Some(id) by {
        if id == fresh {
            assert(paths.dom().contains(at));
            lemma_linked_descend(nodes, after, at, bit, fresh, root, paths[at]);
        } else {
            lemma_linked_descend(nodes, after, at, bit, fresh, root, paths[id]);
        }
    }
    assert forall|i: int, b: bool| 0 <= i < after.len() implies match #[trigger] child_of(
        after,
        i,
        b,
    ) {
        Some(c) => fresh <= i <= root && paths2.dom().contains(c) && paths2[c] == paths2[i].push(
            b,
        ) && 0 <= c < i && (c < n || fresh <= c),
        None => true,
    } by {
        if i == at {
            if b != bit {
                assert(child_of(after, i, b) == child_of(nodes, i, b));
            }
        } else {
            assert(after[i] == nodes[i]);
            assert(child_of(after, i, b) == child_of(nodes, i, b));
        }
    }
    assert(is_inner_path(codes, path));
    assert forall|id: int| fresh <= id < root implies is_inner_path(codes, #[trigger] paths2[id]) by {
        if id != fresh {
            assert(paths2[id] == paths[id]);
        }
    }
    assert forall|x: int, k: int| #[trigger] covered(codes, s, progress + 1, x, k) implies has_node(
        paths2,
        fresh,
        root,
        codes[x].bits().take(k),
    ) by {
        if x == s && k == progress {
            assert(paths2[fresh] == codes[x].bits().take(k));
        } else {
            assert(covered(codes, s, progress, x, k));
            let id = choose|id: int|
                alloc <= id <= root && #[trigger] paths[id] == codes[x].bits().take(k);
            assert(paths2[id] == codes[x].bits().take(k));
        }
    }
    // the new path is new
    if inner.contains(path) {
        let id = choose|id: int| alloc <= id <= root - 1 && #[trigger] paths[id] == path;
        assert(paths.dom().contains(id));
        assert(descend_in(nodes, root, path) == Some(id));
        assert(paths.dom().contains(at));
        assert(descend_in(nodes, root, path.drop_last()) == Some(at));
    }
    assert forall|p: Seq<bool>| #[trigger] inner2.contains(p) <==> ((rooted && p == Seq::<
        bool,
    >::empty()) || has_node(paths2, fresh, root - 1, p)) by {
        if has_node(paths2, fresh, root - 1, p) {
            let id = choose|id: int| fresh <= id <= root - 1 && #[trigger] paths2[id] == p;
            if id != fresh {
                assert(paths[id] == p);
                assert(has_node(paths, alloc, root - 1, p));
            }
        }
        if has_node(paths, alloc, root - 1, p) {
            let id = choose|id: int| alloc <= id <= root - 1 && #[trigger] paths[id] == p;
            assert(paths2[id] == p);
        }
        if p == path {
            assert(paths2[fresh] == p);
        }
    }
}

/// Putting the leaf of the symbol in progress at the end of its path.
proof fn lemma_attach_leaf(
    nodes: Seq<Node>,
    after: Seq<Node>,
    n: int,
    alloc: int,
    paths: Map<int, Seq<bool>>,
    inner: Set<Seq<bool>>,
    rooted: bool,
    codes: Seq<PrefixCode>,
    s: int,
    at: int,
)
    requires
        building(nodes, n, alloc, paths, inner, rooted, codes, s, codes[s].length as int),
        s < n,
        1 <= codes[s].length,
        alloc <= at <= 2 * n - 2,
        paths[at] == codes[s].bits().take(codes[s].length - 1),
        linked(nodes, after, at, codes[s].bits()[codes[s].length - 1], s),
    ensures
        building(after, n, alloc, paths.insert(s, codes[s].bits()), inner, rooted, codes, s + 1, 0),
{
    let root = 2 * n - 2;
    let bits = codes[s].bits();
    let len = codes[s].length as int;
    let bit = bits[len - 1];
    let paths2 = paths.insert(s, bits);
    assert(bits.take(len - 1).push(bit) =~= bits);
    assert(bits.drop_last() =~= bits.take(len - 1));
    assert(!paths.dom().contains(s));
    assert forall|id: int| #[trigger] paths2.dom().contains(id) implies descend_in(
        after,
        root,
        paths2[id],
    ) == Some(id) by {
        if id == s {
            assert(paths.dom().contains(at));
            lemma_linked_descend(nodes, after, at, bit, s, root, paths[at]);
        } else {
            lemma_linked_descend(nodes, after, at, bit, s, root, paths[id]);
        }
    }
    assert forall|i: int, b: bool| 0 <= i < after.len() implies match #[trigger] child_of(
        after,
        i,
        b,
    ) {
        Some(c) => alloc <= i <= root && paths2.dom().contains(c) && paths2[c] == paths2[i].push(
            b,
        ) && 0 <= c < i && (c < n || alloc <= c),
        None => true,
    } by {
        if i == at {
            if b != bit {
                assert(child_of(after, i, b) == child_of(nodes, i, b));
            }
        } else {
            assert(after[i] == nodes[i]);
            assert(child_of(after, i, b) == child_of(nodes, i, b));
        }
    }
    assert forall|id: int| alloc <= id < root implies is_inner_path(codes, #[trigger] paths2[id]) by {
        assert(paths2[id] == paths[id]);
    }
    assert forall|x: int, k: int| #[trigger] covered(codes, s + 1, 0, x, k) implies has_node(
        paths2,
        alloc,
        root,
        codes[x].bits().take(k),
    ) by {
        assert(covered(codes, s, len, x, k));
        let id = choose|id: int|
            alloc <= id <= root && #[trigger] paths[id] == codes[x].bits().take(k);
        assert(paths2[id] == codes[x].bits().take(k));
    }
    assert forall|p: Seq<bool>| #[trigger] inner.contains(p) <==> ((rooted && p == Seq::<
        bool,
    >::empty()) || has_node(paths2, alloc, root - 1, p)) by {
        if has_node(paths2, alloc, root - 1, p) {
            let id = choose|id: int| alloc <= id <= root - 1 && #[trigger] paths2[id] == p;
            assert(paths[id] == p);
            assert(has_node(paths, alloc, root - 1, p));
        }
        if has_node(paths, alloc, root - 1, p) {
            let id = choose|id: int| alloc <= id <= root - 1 && #[trigger] paths[id] == p;
            assert(paths2[id] == p);
        }
    }
}

/// A node already at the end of a code, or a leaf on the way, shows two
/// codes of which one starts the other.
proof fn lemma_conflict(
    nodes: Seq<Node>,
    n: int,
    alloc: int,
    paths: Map<int, Seq<bool>>,
    inner: Set<Seq<bool>>,
    rooted: bool,
    codes: Seq<PrefixCode>,
    s: int,
    progress: int,
    at: int,
    to: int,
)
    requires
        building(nodes, n, alloc, paths, inner, rooted, codes, s, progress),
        s < n,
        1 <= progress <= codes[s].length,
        alloc <= at <= 2 * n - 2,
        paths[at] == codes[s].bits().take(progress - 1),
        child_of(nodes, at, codes[s].bits()[progress - 1]) == Some(to),
        progress == codes[s].length || to < n,
    ensures
        !prefix_free(codes),
{
    let bits = codes[s].bits();
    let path = bits.take(progress);
    assert(bits.take(progress - 1).push(bits[progress - 1]) =~= path);
    assert(paths.dom().contains(to));
    assert(paths[to] == path);
    if to < n {
        assert(codes[to].bits() == path);
        assert(starts_with(bits, codes[to].bits()));
    } else {
        assert(is_inner_path(codes, paths[to]));
        let x = choose|x: int|
            0 <= x < codes.len() && path.len() < (#[trigger] codes[x]).length
                && codes[x].bits().take(path.len() as int) == path;
        assert(path =~= bits);
        assert(starts_with(codes[x].bits(), bits));
    }
}

/// A path that needs a node when none is left shows that the tree is too big.
proof fn lemma_exhausted(
    nodes: Seq<Node>,
    n: int,
    alloc: int,
    paths: Map<int, Seq<bool>>,
    inner: Set<Seq<bool>>,
    rooted: bool,
    codes: Seq<PrefixCode>,
    s: int,
    progress: int,
    at: int,
)
    requires
        building(nodes, n, alloc, paths, inner, rooted, codes, s, progress),
        s < n,
        1 <= progress < codes[s].length,
        alloc <= at <= 2 * n - 2,
        paths[at] == codes[s].bits().take(progress - 1),
        child_of(nodes, at, codes[s].bits()[progress - 1]) is None,
        alloc == n,
    ensures
        !tree_fits(codes),
{
    let root = 2 * n - 2;
    let bits = codes[s].bits();
    let path = bits.take(progress);
    let all = inner_paths(codes);
    assert(path.drop_last() =~= bits.take(progress - 1));
    assert(is_inner_path(codes, path));
    if inner.contains(path) {
        let id = choose|id: int| alloc <= id <= root - 1 && #[trigger] paths[id] == path;
        assert(paths.dom().contains(id));
        assert(descend_in(nodes, root, path) == Some(id));
        assert(paths.dom().contains(at));
        assert(descend_in(nodes, root, path.drop_last()) == Some(at));
    }
    let more = inner.insert(path);
    assert forall|p: Seq<bool>| more.contains(p) implies all.contains(p) by {
        if p != path {
            assert(inner.contains(p));
            if has_node(paths, alloc, root - 1, p) {
                let id = choose|id: int| alloc <= id <= root - 1 && #[trigger] paths[id] == p;
                assert(is_inner_path(codes, paths[id]));
            }
        }
    }
    if all.finite() {
        vstd::set_lib::lemma_len_subset(more, all);
    }
}

/// What a finished construction has made.
proof fn lemma_built(
    nodes: Seq<Node>,
    n: int,
    alloc: int,
    paths: Map<int, Seq<bool>>,
    inner: Set<Seq<bool>>,
    rooted: bool,
    codes: Seq<PrefixCode>,
)
    requires
        building(nodes, n, alloc, paths, inner, rooted, codes, n, 0),
        n <= 32767,
    ensures
        prefix_free(codes),
        tree_fits(codes),
        tree_ok(nodes, n),
        forall|s: int|
            0 <= s < codes.len() && (#[trigger] codes[s]).length > 0 ==> descend_in(
                nodes,
                2 * n - 2,
                codes[s].bits(),
            ) == Some(s),
        forall|p: Seq<bool>|
            p.len() > 0 && (#[trigger] descend_in(nodes, 2 * n - 2, p)) is Some ==> on_code_path(
                codes,
                p,
            ),
{
    let root = 2 * n - 2;
    let all = inner_paths(codes);
    // every inner path has its node
    assert forall|p: Seq<bool>| all.contains(p) implies inner.contains(p) by {
        let x = choose|x: int|
            0 <= x < codes.len() && p.len() < (#[trigger] codes[x]).length && codes[x].bits().take(
                p.len() as int,
            ) == p;
        assert(covered(codes, n, 0, x, p.len() as int));
        let id = choose|id: int|
            alloc <= id <= root && #[trigger] paths[id] == codes[x].bits().take(p.len() as int);
        if id == root {
            assert(p == Seq::<bool>::empty());
        } else {
            assert(has_node(paths, alloc, root - 1, p));
        }
    }
    assert forall|p: Seq<bool>| inner.contains(p) implies all.contains(p) by {
        if has_node(paths, alloc, root - 1, p) {
            let id = choose|id: int| alloc <= id <= root - 1 && #[trigger] paths[id] == p;
            assert(is_inner_path(codes, paths[id]));
        }
    }
    assert(all =~= inner);
    assert forall|a: int, b: int|
        0 <= a < codes.len() && 0 <= b < codes.len() && a != b && (#[trigger] codes[a]).length > 0
            && (#[trigger] codes[b]).length > 0 implies !starts_with(
        codes[b].bits(),
        codes[a].bits(),
    ) by {
        if starts_with(codes[b].bits(), codes[a].bits()) {
            let k = codes[a].length as int;
            assert(paths.dom().contains(a) && paths.dom().contains(b));
            assert(descend_in(nodes, root, paths[a]) == Some(a));
            if k == codes[b].length {
                assert(codes[b].bits().take(k) =~= codes[b].bits());
                assert(descend_in(nodes, root, paths[b]) == Some(b));
            } else {
                assert(covered(codes, n, 0, b, k));
                let id = choose|id: int|
                    alloc <= id <= root && #[trigger] paths[id] == codes[b].bits().take(k);
                assert(paths.dom().contains(id));
                assert(descend_in(nodes, root, paths[id]) == Some(id));
            }
        }
    }
    assert forall|p: Seq<bool>|
        p.len() > 0 && (#[trigger] descend_in(nodes, root, p)) is Some implies on_code_path(
        codes,
        p,
    ) by {
        reveal(on_code_path);
        lemma_descend_path(nodes, n, alloc, paths, inner, rooted, codes, n, 0, p);
        let id = descend_in(nodes, root, p)->0;
        if alloc <= id <= root {
            if id == root {
                assert(descend_in(nodes, root, Seq::<bool>::empty()) == Some(root));
                assert(paths[root] == p);
            }
            assert(is_inner_path(codes, paths[id]));
            let x = choose|x: int|
                0 <= x < codes.len() && p.len() < (#[trigger] codes[x]).length
                    && codes[x].bits().take(p.len() as int) == p;
            assert(starts_with(codes[x].bits(), p));
        } else {
            assert(codes[id].bits().take(p.len() as int) =~= p);
            assert(starts_with(codes[id].bits(), p));
        }
    }
}

/// In a tree without links, no path but the empty one leads anywhere.
proof fn lemma_bare_descend(nodes: Seq<Node>, root: int, p: Seq<bool>)
    requires
        forall|i: int, b: bool| #[trigger] child_of(nodes, i, b) is None,
        p.len() > 0,
    ensures
        descend_in(nodes, root, p) is None,
    decreases p.len(),
{
    if p.len() > 1 {
        lemma_bare_descend(nodes, root, p.drop_last());
    }
}

/// Bit `i` of a code, in wire order.
fn code_bit(code: &PrefixCode, i: u8) -> (b: bool)
    requires
        i < code.length,
    ensures
        b == code.bits()[i as int],
{
    if i >= 64 {
        false
    } else {
        ((code.code as u64) >> (i as u64)) & 1 == 1
    }
}

impl HuffmanTree {
    proof fn lemma_descend_matches(self, p: Seq<bool>)
        ensures
            self.descend(p) == descend_in(self.nodes@, self.nodes@.len() - 1, p),
        decreases p.len(),
    {
        if p.len() > 0 {
            self.lemma_descend_matches(p.drop_last());
        }
    }

    /// The tree of the codes of `table`, if there is one that fits the node
    /// array: leaves are the symbols, and the inner nodes are handed out from
    /// the root down as the codes' paths need them.
    ///
    /// There is such a tree when no code starts another symbol's code and the
    /// codes' paths need no more than `n - 1` inner nodes, for `n` symbols.
    pub fn from(table: &HuffmanTable) -> (r: Option<HuffmanTree>)
        requires
            1 <= table.codes@.len() <= 32767,
        ensures
            r is Some <==> prefix_free(table.codes@) && tree_fits(table.codes@),
            r is Some ==> r->0.decodes(table.codes@) && r->0.size() == 2 * table.codes@.len() - 1,
    {
        let n = table.codes.len();
        let capacity = 2 * n - 1;
        let ghost codes = table.codes@;
        let mut nodes: Vec<Node> = Vec::new();
        let mut k: usize = 0;
        while k < capacity
            invariant
                k <= capacity,
                nodes@.len() == k,
                forall|i: int, b: bool| #[trigger] child_of(nodes@, i, b) is None,
            decreases capacity - k,
        {
            let ghost before = nodes@;
            nodes.push(Node { left: None, right: None });
            proof {
                assert forall|i: int, b: bool| #[trigger] child_of(nodes@, i, b) is None by {
                    if 0 <= i < k {
                        assert(nodes@[i] == before[i]);
                        assert(child_of(before, i, b) is None);
                    }
                }
            }
            k += 1;
        }
        let root = capacity - 1;
        if n == 1 {
            if table.codes[0].length != 0 {
                proof {
                    let empty = Seq::<bool>::empty();
                    assert(codes[0].bits().take(0) =~= empty);
                    assert(is_inner_path(codes, empty));
                    assert(inner_paths(codes).contains(empty));
                    if inner_paths(codes).finite() {
                        assert(inner_paths(codes).len() != 0);
                    }
                }
                return None;
            }
            let tree = HuffmanTree { nodes, num_symbols: n };
            proof {
                assert(inner_paths(codes) =~= Set::<Seq<bool>>::empty());
                assert forall|p: Seq<bool>| p.len() > 0 implies (#[trigger] tree.descend(p))
                    is None by {
                    tree.lemma_descend_matches(p);
                    lemma_bare_descend(tree.nodes@, 0, p);
                }
            }
            return Some(tree);
        }
        let mut alloc = root;
        let ghost mut paths: Map<int, Seq<bool>> = Map::empty().insert(
            root as int,
            Seq::<bool>::empty(),
        );
        let ghost mut inner: Set<Seq<bool>> = Set::empty();
        let ghost mut rooted = false;
        let mut s: usize = 0;
        proof {
            assert forall|x: int, k: int| #[trigger] covered(codes, 0, 0, x, k) implies has_node(
                paths,
                alloc as int,
                root as int,
                codes[x].bits().take(k),
            ) by {}
        }
        while s < n
            invariant
                n == table.codes@.len(),
                codes == table.codes@,
                root == 2 * n - 2,
                n <= 32767,
                alloc <= root,
                s <= n,
                building(nodes@, n as int, alloc as int, paths, inner, rooted, codes, s as int, 0),
            decreases n - s,
        {
            let code = table.codes[s];
            if code.length == 0 {
                proof {
                    lemma_skip_symbol(nodes@, n as int, alloc as int, paths, inner, rooted, codes, s as int);
                }
            } else {
                proof {
                    lemma_start_symbol(nodes@, n as int, alloc as int, paths, inner, rooted, codes, s as int);
                    if !rooted {
                        inner = inner.insert(Seq::<bool>::empty());
                        rooted = true;
                    }
                    assert(codes[s as int].bits().take(0) =~= Seq::<bool>::empty());
                }
                let mut crawler: usize = root;
                let mut bit_idx: u8 = 0;
                let mut placed = false;
                while bit_idx < code.length
                    invariant
                        n == table.codes@.len(),
                        codes == table.codes@,
                        code == codes[s as int],
                        root == 2 * n - 2,
                        n <= 32767,
                        s < n,
                        bit_idx <= code.length,
                        alloc <= crawler <= root || placed,
                        placed <==> bit_idx == code.length,
                        !placed ==> paths[crawler as int] == codes[s as int].bits().take(
                            bit_idx as int,
                        ),
                        !placed ==> building(
                            nodes@,
                            n as int,
                            alloc as int,
                            paths,
                            inner,
                            rooted,
                            codes,
                            s as int,
                            bit_idx + 1,
                        ),
                        placed ==> building(
                            nodes@,
                            n as int,
                            alloc as int,
                            paths,
                            inner,
                            rooted,
                            codes,
                            s + 1,
                            0,
                        ),
                    decreases code.length - bit_idx,
                {
                    let bit = code_bit(&code, bit_idx);
                    let last = bit_idx == code.length - 1;
                    let node = nodes[crawler];
                    let existing = if bit { node.right } else { node.left };
                    let ghost before = nodes@;
                    match existing {
                        None => {
                            if !last && alloc == n {
                                proof {
                                    lemma_exhausted(
                                        nodes@,
                                        n as int,
                                        alloc as int,
                                        paths,
                                        inner,
                                        rooted,
                                        codes,
                                        s as int,
                                        bit_idx + 1,
                                        crawler as int,
                                    );
                                }
                                return None;
                            }
                            let node_idx = if last { s } else { alloc - 1 };
                            let fresh = NonMaxU16::new(node_idx as u16);
                            let changed = if bit {
                                Node { left: node.left, right: fresh }
                            } else {
                                Node { left: fresh, right: node.right }
                            };
                            nodes[crawler] = changed;
                            proof {
                                assert(linked(before, nodes@, crawler as int, bit, node_idx as int));
                                if last {
                                    lemma_attach_leaf(
                                        before,
                                        nodes@,
                                        n as int,
                                        alloc as int,
                                        paths,
                                        inner,
                                        rooted,
                                        codes,
                                        s as int,
                                        crawler as int,
                                    );
                                    paths = paths.insert(s as int, codes[s as int].bits());
                                } else {
                                    lemma_attach_inner(
                                        before,
                                        nodes@,
                                        n as int,
                                        alloc as int,
                                        paths,
                                        inner,
                                        rooted,
                                        codes,
                                        s as int,
                                        bit_idx + 1,
                                        crawler as int,
                                    );
                                    let path = codes[s as int].bits().take(bit_idx + 1);
                                    paths = paths.insert(alloc - 1, path);
                                    inner = inner.insert(path);
                                }
                            }
                            if !last {
                                alloc = alloc - 1;
                            }
                            crawler = node_idx;
                        },
                        Some(next) => {
                            let to = next.get() as usize;
                            if last || to < n {
                                proof {
                                    lemma_conflict(
                                        nodes@,
                                        n as int,
                                        alloc as int,
                                        paths,
                                        inner,
                                        rooted,
                                        codes,
                                        s as int,
                                        bit_idx + 1,
                                        crawler as int,
                                        to as int,
                                    );
                                }
                                return None;
                            }
                            proof {
                                lemma_follow(
                                    nodes@,
                                    n as int,
                                    alloc as int,
                                    paths,
                                    inner,
                                    rooted,
                                    codes,
                                    s as int,
                                    bit_idx + 1,
                                    crawler as int,
                                    to as int,
                                );
                            }
                            crawler = to;
                        },
                    }
                    placed = last;
                    bit_idx += 1;
                }
            }
            s += 1;
        }
        proof {
            lemma_built(nodes@, n as int, alloc as int, paths, inner, rooted, codes);
        }
        let tree = HuffmanTree { nodes, num_symbols: n };
        proof {
            assert forall|s: int|
                0 <= s < codes.len() && (#[trigger] codes[s]).length > 0 implies tree.descend(
                codes[s].bits(),
            ) == Some(s) by {
                tree.lemma_descend_matches(codes[s].bits());
            }
            assert forall|p: Seq<bool>|
                p.len() > 0 && (#[trigger] tree.descend(p)) is Some implies on_code_path(
                codes,
                p,
            ) by {
                tree.lemma_descend_matches(p);
            }
        }
        Some(tree)
    }
}

// ---------------------------------------------------------------------------
// Building a tree from frequencies

/// A node that waits to be merged: the weight of the symbols below it, and
/// its index.
pub struct Waiting {
    pub weight: nat,
    pub id: int,
}

/// The nodes that wait at the start: the symbols in use, by ascending
/// frequency and then by index.
pub open spec fn waiting_symbols(freqs: Seq<u32>) -> Seq<Waiting> {
    let order = sorted_symbols(freqs, freqs.len());
    Seq::new(order.len(), |k: int| Waiting { weight: freqs[order[k] as int] as nat, id: order[k] as int })
}

/// Where a new node of weight `w` goes among those that wait: behind every
/// node that is not heavier.
pub open spec fn waiting_place(queue: Seq<Waiting>, w: nat) -> nat
    decreases queue.len(),
{
    if queue.len() == 0 {
        0
    } else if queue.last().weight <= w {
        queue.len()
    } else {
        waiting_place(queue.drop_last(), w)
    }
}

pub proof fn lemma_waiting_place(queue: Seq<Waiting>, w: nat)
    ensures
        waiting_place(queue, w) <= queue.len(),
    decreases queue.len(),
{
    if queue.len() > 0 && queue.last().weight > w {
        lemma_waiting_place(queue.drop_last(), w);
    }
}

/// The children of the inner nodes that merging makes of the nodes that
/// wait: the two lightest become the children of a new node, which has the
/// index `next` and waits in their place, until one node is left.
pub open spec fn merged_nodes(queue: Seq<Waiting>, next: int) -> Seq<(int, int)>
    decreases queue.len(),
{
    if queue.len() < 2 {
        Seq::empty()
    } else {
        let rest = queue.skip(2);
        let weight = queue[0].weight + queue[1].weight;
        proof {
            lemma_waiting_place(rest, weight);
        }
        seq![(queue[0].id, queue[1].id)] + merged_nodes(
            rest.insert(waiting_place(rest, weight) as int, Waiting { weight, id: next }),
            next + 1,
        )
    }
}

/// The children of the inner nodes of the Huffman tree of `freqs`, in the
/// order of the nodes. A single symbol in use hangs on the left of a root
/// of its own.
pub open spec fn huffman_nodes(freqs: Seq<u32>) -> Seq<(Option<int>, Option<int>)> {
    let queue = waiting_symbols(freqs);
    if queue.len() == 1 {
        seq![(Some(queue[0].id), None::<int>)]
    } else {
        let pairs = merged_nodes(queue, freqs.len() as int);
        Seq::new(pairs.len(), |k: int| (Some(pairs[k].0), Some(pairs[k].1)))
    }
}

/// The weights of the nodes that wait, added up.
spec fn waiting_total(queue: Seq<Waiting>) -> nat
    decreases queue.len(),
{
    if queue.len() == 0 {
        0
    } else {
        waiting_total(queue.drop_last()) + queue.last().weight
    }
}

proof fn lemma_total_insert(queue: Seq<Waiting>, p: int, e: Waiting)
    requires
        0 <= p <= queue.len(),
    ensures
        waiting_total(queue.insert(p, e)) == waiting_total(queue) + e.weight,
    decreases queue.len(),
{
    let after = queue.insert(p, e);
    if p == queue.len() {
        assert(after.drop_last() =~= queue);
    } else {
        lemma_total_insert(queue.drop_last(), p, e);
        assert(after.drop_last() =~= queue.drop_last().insert(p, e));
    }
}

proof fn lemma_total_skip(queue: Seq<Waiting>)
    requires
        queue.len() >= 1,
    ensures
        waiting_total(queue.skip(1)) + queue[0].weight == waiting_total(queue),
    decreases queue.len(),
{
    if queue.len() == 1 {
        assert(queue.skip(1) =~= Seq::<Waiting>::empty());
        assert(queue.drop_last() =~= Seq::<Waiting>::empty());
    } else {
        lemma_total_skip(queue.drop_last());
        assert(queue.skip(1).drop_last() =~= queue.drop_last().skip(1));
    }
}

proof fn lemma_total_symbols(freqs: Seq<u32>, order: Seq<usize>, k: nat)
    requires
        k <= order.len(),
        forall|x: int| 0 <= x < order.len() ==> #[trigger] order[x] < freqs.len(),
    ensures
        waiting_total(
            Seq::new(
                k,
                |x: int| Waiting { weight: freqs[order[x] as int] as nat, id: order[x] as int },
            ),
        ) <= k * 0xFFFF_FFFF,
    decreases k,
{
    let q = Seq::new(
        k,
        |x: int| Waiting { weight: freqs[order[x] as int] as nat, id: order[x] as int },
    );
    if k > 0 {
        lemma_total_symbols(freqs, order, (k - 1) as nat);
        assert(q.drop_last() =~= Seq::new(
            (k - 1) as nat,
            |x: int| Waiting { weight: freqs[order[x] as int] as nat, id: order[x] as int },
        ));
    }
}

/// A node that waits, as the program keeps it.
#[derive(Clone, Copy)]
struct HeapEntry {
    freq: u64,
    idx: u16,
}

spec fn waiting_of(queue: Seq<HeapEntry>) -> Seq<Waiting> {
    Seq::new(queue.len(), |k: int| Waiting { weight: queue[k].freq as nat, id: queue[k].idx as int })
}

/// The empty code.
pub open spec fn no_code() -> PrefixCode {
    PrefixCode { code: 0, length: 0 }
}

/// The two nodes that waited in front.
struct Front {
    first: HeapEntry,
    second: HeapEntry,
}

/// As many leaves as there are symbols, none with a child.
fn bare_leaves(n: usize) -> (nodes: Vec<Node>)
    ensures
        nodes@.len() == n,
        forall|i: int, b: bool| #[trigger] child_of(nodes@, i, b) is None,
{
    let mut nodes: Vec<Node> = Vec::new();
    let mut k: usize = 0;
    while k < n
        invariant
            k <= n,
            nodes@.len() == k,
            forall|i: int, b: bool| #[trigger] child_of(nodes@, i, b) is None,
        decreases n - k,
    {
        let ghost before = nodes@;
        nodes.push(Node { left: None, right: None });
        proof {
            assert forall|i: int, b: bool| #[trigger] child_of(nodes@, i, b) is None by {
                if 0 <= i < k {
                    assert(nodes@[i] == before[i]);
                    assert(child_of(before, i, b) is None);
                }
            }
        }
        k += 1;
    }
    nodes
}

/// The symbols in use as nodes that wait.
fn waiting_leaves(freqs: &[u32], order: &Vec<usize>) -> (queue: Vec<HeapEntry>)
    requires
        order@ == sorted_symbols(freqs@, freqs@.len()),
        order@.len() <= freqs@.len() <= 32767,
        forall|x: int| 0 <= x < order@.len() ==> #[trigger] order@[x] < freqs@.len(),
    ensures
        waiting_of(queue@) == waiting_symbols(freqs@),
        queue@.len() == order@.len(),
        waiting_total(waiting_of(queue@)) <= 32767 * 0xFFFF_FFFF,
        forall|x: int| 0 <= x < queue@.len() ==> (#[trigger] queue@[x]).idx < freqs@.len(),
{
    let count = order.len();
    let mut queue: Vec<HeapEntry> = Vec::new();
    let mut k: usize = 0;
    while k < count
        invariant
            k <= count == order@.len(),
            count <= freqs@.len() <= 32767,
            forall|x: int| 0 <= x < order@.len() ==> #[trigger] order@[x] < freqs@.len(),
            queue@.len() == k,
            forall|x: int|
                0 <= x < k ==> #[trigger] queue@[x] == (HeapEntry {
                    freq: freqs@[order@[x] as int] as u64,
                    idx: order@[x] as u16,
                }),
        decreases count - k,
    {
        queue.push(HeapEntry { freq: freqs[order[k]] as u64, idx: order[k] as u16 });
        k += 1;
    }
    proof {
        assert(waiting_of(queue@) =~= waiting_symbols(freqs@));
        lemma_total_symbols(freqs@, order@, count as nat);
        assert(count * 0xFFFF_FFFF <= 32767 * 0xFFFF_FFFF) by (nonlinear_arith)
            requires
                count <= 32767,
        ;
    }
    queue
}

/// Takes the two nodes in front out of the queue and lets a node with the
/// index `index` wait for them, behind all nodes that are not heavier.
fn merge_front(queue: &mut Vec<HeapEntry>, index: usize) -> (front: Front)
    requires
        old(queue)@.len() >= 2,
        index <= 65535,
        waiting_total(waiting_of(old(queue)@)) <= 32767 * 0xFFFF_FFFF,
        forall|x: int| 0 <= x < old(queue)@.len() ==> (#[trigger] old(queue)@[x]).idx < index,
    ensures
        front.first == old(queue)@[0],
        front.second == old(queue)@[1],
        final(queue)@.len() == old(queue)@.len() - 1,
        waiting_total(waiting_of(final(queue)@)) == waiting_total(waiting_of(old(queue)@)),
        forall|x: int| 0 <= x < final(queue)@.len() ==> (#[trigger] final(queue)@[x]).idx <= index,
        ({
            let waiting = waiting_of(old(queue)@);
            let rest = waiting.skip(2);
            let weight = waiting[0].weight + waiting[1].weight;
            waiting_of(final(queue)@) == rest.insert(
                waiting_place(rest, weight) as int,
                Waiting { weight, id: index as int },
            )
        }),
{
    let ghost waiting = waiting_of(queue@);
    let ghost given = queue@;
    proof {
        lemma_total_skip(waiting);
        lemma_total_skip(waiting.skip(1));
        assert(waiting.skip(1).skip(1) =~= waiting.skip(2));
    }
    let first = queue.remove(0);
    let second = queue.remove(0);
    proof {
        assert(waiting_of(queue@) =~= waiting.skip(2));
        assert(queue@ =~= given.skip(2));
    }
    let weight = first.freq + second.freq;
    let mut p: usize = queue.len();
    proof {
        assert(waiting_of(queue@).take(p as int) =~= waiting_of(queue@));
    }
    while p > 0 && queue[p - 1].freq > weight
        invariant
            p <= queue@.len(),
            waiting_place(waiting_of(queue@), weight as nat) == waiting_place(
                waiting_of(queue@).take(p as int),
                weight as nat,
            ),
        decreases p,
    {
        proof {
            assert(waiting_of(queue@).take(p as int).drop_last() =~= waiting_of(queue@).take(
                p - 1,
            ));
        }
        p -= 1;
    }
    let ghost rest = waiting_of(queue@);
    let ghost kept = queue@;
    proof {
        if p > 0 {
            assert(rest.take(p as int).last() == rest[p - 1]);
        }
        lemma_total_insert(rest, p as int, Waiting { weight: weight as nat, id: index as int });
    }
    queue.insert(p, HeapEntry { freq: weight, idx: index as u16 });
    proof {
        assert(waiting_of(queue@) =~= rest.insert(
            p as int,
            Waiting { weight: weight as nat, id: index as int },
        ));
        assert forall|x: int| 0 <= x < queue@.len() implies (#[trigger] queue@[x]).idx <= index by {
            if x < p {
                assert(queue@[x] == kept[x]);
                assert(kept[x] == given[x + 2]);
            } else if x > p {
                assert(queue@[x] == kept[x - 1]);
                assert(kept[x - 1] == given[x + 1]);
            }
        }
    }
    Front { first, second }
}

/// A new inner node at the end, with children that come before it, keeps
/// the nodes in shape.
proof fn lemma_pushed_node(before: Seq<Node>, after: Seq<Node>, n: int, node: Node)
    requires
        after == before.push(node),
        n <= before.len(),
        forall|i: int, b: bool|
            0 <= i < before.len() ==> match #[trigger] child_of(before, i, b) {
                Some(c) => n <= i && 0 <= c < i,
                None => true,
            },
        forall|i: int, b: bool| 0 <= i < n ==> (#[trigger] child_of(before, i, b)) is None,
        match link(node.left) {
            Some(c) => 0 <= c < before.len(),
            None => true,
        },
        match link(node.right) {
            Some(c) => 0 <= c < before.len(),
            None => true,
        },
    ensures
        forall|i: int, b: bool|
            0 <= i < after.len() ==> match #[trigger] child_of(after, i, b) {
                Some(c) => n <= i && 0 <= c < i,
                None => true,
            },
        forall|i: int, b: bool| 0 <= i < n ==> (#[trigger] child_of(after, i, b)) is None,
        child_of(after, before.len() as int, false) == link(node.left),
        child_of(after, before.len() as int, true) == link(node.right),
{
    assert forall|i: int, b: bool| 0 <= i < after.len() implies match #[trigger] child_of(
        after,
        i,
        b,
    ) {
        Some(c) => n <= i && 0 <= c < i,
        None => true,
    } by {
        if i < before.len() {
            assert(after[i] == before[i]);
            assert(child_of(after, i, b) == child_of(before, i, b));
        }
    }
    assert forall|i: int, b: bool| 0 <= i < n implies (#[trigger] child_of(after, i, b)) is None by {
        assert(after[i] == before[i]);
        assert(child_of(after, i, b) == child_of(before, i, b));
    }
}

impl HuffmanTree {
    /// The greatest number of links from node `idx` down to a leaf.
    pub open spec fn height(self, idx: int) -> nat
        decreases idx,
    {
        let left: nat = match self.child(idx, false) {
            Some(c) => if 0 <= c < idx { 1 + self.height(c) } else { 0 },
            None => 0,
        };
        let right: nat = match self.child(idx, true) {
            Some(c) => if 0 <= c < idx { 1 + self.height(c) } else { 0 },
            None => 0,
        };
        if left >= right { left } else { right }
    }

    /// The codes of the leaves below node `idx`, reached with `code`, put
    /// into `codes`: those on the left first.
    pub open spec fn codes_below(self, idx: int, code: PrefixCode, codes: Seq<PrefixCode>) -> Seq<
        PrefixCode,
    >
        decreases idx,
    {
        if idx < self.symbols() {
            codes.update(idx, code)
        } else {
            let left = match self.child(idx, false) {
                Some(c) => if 0 <= c < idx {
                    self.codes_below(c, code.with_bit(false), codes)
                } else {
                    codes
                },
                None => codes,
            };
            match self.child(idx, true) {
                Some(c) => if 0 <= c < idx {
                    self.codes_below(c, code.with_bit(true), left)
                } else {
                    left
                },
                None => left,
            }
        }
    }

    /// The codes that the tree gives to the symbols: for each leaf that the
    /// root leads to, the bits on the way; no code for the others.
    pub open spec fn codes(self) -> Seq<PrefixCode> {
        self.codes_below(self.root(), no_code(), Seq::new(self.symbols(), |s: int| no_code()))
    }

    /// The Huffman tree of the symbols with the given frequencies.
    ///
    /// The symbols in use wait, lightest first and of equal weights the
    /// lower index first; the two that wait in front become the children of
    /// a new node that waits behind all that are not heavier. Symbols that do
    /// not occur hang nowhere.
    pub fn build(freqs: &[u32]) -> (tree: HuffmanTree)
        requires
            1 <= freqs@.len() <= 32767,
        ensures
            tree.shaped(),
            tree.symbols() == freqs@.len(),
            tree.size() == freqs@.len() + huffman_nodes(freqs@).len(),
            forall|i: int, b: bool|
                0 <= i < freqs@.len() ==> (#[trigger] tree.child(i, b)) is None,
            forall|k: int|
                0 <= k < huffman_nodes(freqs@).len() ==> tree.child(freqs@.len() + k, false)
                    == (#[trigger] huffman_nodes(freqs@)[k]).0 && tree.child(
                    freqs@.len() + k,
                    true,
                ) == huffman_nodes(freqs@)[k].1,
    {
        let n = freqs.len();
        let order = sort_symbols(freqs);
        let count = order.len();
        let ghost start = waiting_symbols(freqs@);
        proof {
            crate::package_merge::lemma_count_nonzero_bound(freqs@);
        }
        let mut nodes = bare_leaves(n);
        if count == 1 {
            let only = order[0];
            let ghost before = nodes@;
            nodes.push(Node { left: NonMaxU16::new(only as u16), right: None });
            proof {
                assert forall|i: int, b: bool| 0 <= i < nodes@.len() implies match #[trigger] child_of(
                    nodes@,
                    i,
                    b,
                ) {
                    Some(c) => n <= i && 0 <= c < i,
                    None => true,
                } by {
                    if i < n {
                        assert(nodes@[i] == before[i]);
                        assert(child_of(before, i, b) is None);
                    }
                }
                assert forall|i: int, b: bool| 0 <= i < n implies (#[trigger] child_of(nodes@, i, b))
                    is None by {
                    assert(nodes@[i] == before[i]);
                    assert(child_of(before, i, b) is None);
                }
            }
            return HuffmanTree { nodes, num_symbols: n };
        }
        let mut queue = waiting_leaves(freqs, &order);
        let ghost whole = merged_nodes(start, n as int);
        let ghost mut made: Seq<(int, int)> = Seq::empty();
        proof {
            assert(made + merged_nodes(waiting_of(queue@), nodes@.len() as int) =~= whole);
        }
        while queue.len() > 1
            invariant
                n == freqs@.len(),
                1 <= n <= 32767,
                queue@.len() <= n,
                nodes@.len() + queue@.len() <= 2 * n,
                nodes@.len() == n + made.len(),
                waiting_total(waiting_of(queue@)) <= 32767 * 0xFFFF_FFFF,
                forall|x: int| 0 <= x < queue@.len() ==> (#[trigger] queue@[x]).idx < nodes@.len(),
                made + merged_nodes(waiting_of(queue@), nodes@.len() as int) == whole,
                forall|i: int, b: bool|
                    0 <= i < nodes@.len() ==> match #[trigger] child_of(nodes@, i, b) {
                        Some(c) => n <= i && 0 <= c < i,
                        None => true,
                    },
                forall|i: int, b: bool| 0 <= i < n ==> (#[trigger] child_of(nodes@, i, b)) is None,
                forall|x: int|
                    0 <= x < made.len() ==> child_of(nodes@, n + x, false) == Some(
                        (#[trigger] made[x]).0,
                    ) && child_of(nodes@, n + x, true) == Some(made[x].1),
            decreases queue@.len(),
        {
            let ghost waiting = waiting_of(queue@);
            let ghost before = nodes@;
            let ghost made_before = made;
            let index = nodes.len();
            let pair = merge_front(&mut queue, index);
            let node = Node {
                left: NonMaxU16::new(pair.first.idx),
                right: NonMaxU16::new(pair.second.idx),
            };
            nodes.push(node);
            proof {
                made = made.push((pair.first.idx as int, pair.second.idx as int));
                assert(made + merged_nodes(waiting_of(queue@), nodes@.len() as int) =~= made_before
                    + merged_nodes(waiting, index as int));
                lemma_pushed_node(before, nodes@, n as int, node);
                assert forall|x: int| 0 <= x < made.len() implies child_of(nodes@, n + x, false)
                    == Some((#[trigger] made[x]).0) && child_of(nodes@, n + x, true) == Some(
                    made[x].1,
                ) by {
                    if x < made_before.len() {
                        assert(nodes@[n + x] == before[n + x]);
                        assert(made[x] == made_before[x]);
                        assert(child_of(before, n + x, false) == Some(made_before[x].0));
                    }
                }
            }
        }
        proof {
            assert(merged_nodes(waiting_of(queue@), nodes@.len() as int) =~= Seq::empty());
            assert(made =~= whole);
        }
        HuffmanTree { nodes, num_symbols: n }
    }
}

impl HuffmanTable {
    /// Puts the codes of the leaves below node `idx`, which `code` leads
    /// to, into `table`.
    fn build_impl(tree: &HuffmanTree, idx: usize, code: PrefixCode, table: &mut HuffmanTable)
        requires
            idx < tree.size(),
            old(table).codes@.len() == tree.symbols(),
            code.length + tree.height(idx as int) <= 32,
        ensures
            final(table).codes@ == tree.codes_below(idx as int, code, old(table).codes@),
            final(table).codes@.len() == old(table).codes@.len(),
        decreases idx,
    {
        proof {
            use_type_invariant(tree);
        }
        if tree.is_leaf_node(idx) {
            table.codes[idx] = code;
            return ;
        }
        let node = tree.nodes[idx];
        if let Some(left) = node.left {
            let child = left.get() as usize;
            proof {
                assert(tree.child(idx as int, false) == Some(child as int));
            }
            Self::build_impl(tree, child, PrefixCode::update(code, false), table);
        }
        if let Some(right) = node.right {
            let child = right.get() as usize;
            proof {
                assert(tree.child(idx as int, true) == Some(child as int));
            }
            Self::build_impl(tree, child, PrefixCode::update(code, true), table);
        }
    }

    /// The codes that `tree` gives to its symbols.
    pub fn from(tree: &HuffmanTree) -> (table: HuffmanTable)
        requires
            tree.height(tree.root()) <= 32,
        ensures
            table.codes@ == tree.codes(),
    {
        proof {
            use_type_invariant(tree);
        }
        let mut codes: Vec<PrefixCode> = Vec::new();
        let mut s: usize = 0;
        while s < tree.num_symbols
            invariant
                s <= tree.num_symbols,
                codes@.len() == s,
                forall|x: int| 0 <= x < s ==> codes@[x] == no_code(),
            decreases tree.num_symbols - s,
        {
            codes.push(PrefixCode { code: 0, length: 0 });
            s += 1;
        }
        proof {
            assert(codes@ =~= Seq::new(tree.symbols(), |s: int| no_code()));
        }
        let mut table = HuffmanTable { codes };
        Self::build_impl(tree, tree.nodes.len() - 1, PrefixCode { code: 0, length: 0 }, &mut table);
        table
    }
}

} // verus!
