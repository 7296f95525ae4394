use crate::def::{
    block_size, first_index, in_band, in_subtree, is_block_size, is_floor_pow2, level_for, marked,
    InitError, SearchError, MAX_NODES, MAX_PAGES, MAX_SIZE, MIN_SIZE,
};
use crate::treemap::TreeMap;
use vstd::arithmetic::power2::{
    lemma2_to64, lemma2_to64_rest, lemma_pow2_adds, lemma_pow2_pos, lemma_pow2_strictly_increases,
    lemma_pow2_unfold, pow2,
};
use vstd::prelude::*;

verus! {

/// A complete binary tree stored in an array: node `i` has children
/// `2i + 1` and `2i + 2`; level 1 is the root and level `level` holds the
/// minimum-size blocks.
pub struct BinTree {
    /// Height of the tree; 0 before a successful `init`.
    pub level: usize,
    /// Base address of the block of each node.
    nodes: Vec<usize>,
    /// Allocation state of each node.
    pub bitmap: TreeMap,
}

/// `pow2` is monotone.
proof fn lemma_pow2_mono(a: nat, b: nat)
    requires
        a <= b,
    ensures
        pow2(a) <= pow2(b),
{
    if a < b {
        lemma_pow2_strictly_increases(a, b);
    }
}

/// A tree whose nodes fit the capacity has height at most 16.
proof fn lemma_height_bound(h: nat)
    requires
        pow2(h) - 1 <= MAX_NODES,
    ensures
        h <= 16,
        pow2(h) <= 65536,
{
    lemma2_to64();
    if h > 16 {
        lemma_pow2_mono(17, h);
    }
}

/// `i` lies in one of the first `n` bands of descendants of `root`.
spec fn in_subtree_within(root: nat, n: nat, i: nat) -> bool {
    exists|d: nat| d < n && #[trigger] in_band(root, d, i)
}

impl BinTree {
    /// Base address held for each node index.
    pub closed spec fn addrs(&self) -> Seq<usize> {
        self.nodes@
    }

    /// Allocation bit of each node index: `true` is used.
    pub closed spec fn bits(&self) -> Seq<bool> {
        self.bitmap@
    }

    /// Height of the tree.
    pub closed spec fn height(&self) -> nat {
        self.level as nat
    }

    /// Node table and bitmap both span the fixed capacity.
    pub open spec fn wf(&self) -> bool {
        &&& self.addrs().len() == MAX_NODES
        &&& self.bits().len() == MAX_NODES
    }

    /// Index of the last node of the tree.
    pub open spec fn last_node(&self) -> int {
        pow2(self.height()) - 2
    }

    /// The tree has at least one level and all its nodes fit the capacity.
    pub open spec fn is_tree(&self) -> bool {
        &&& self.wf()
        &&& 1 <= self.height()
        &&& pow2(self.height()) - 1 <= MAX_NODES
    }

    /// An empty tree of height 0 with every bit free.
    pub fn new() -> (r: BinTree)
        ensures
            r.wf(),
            r.height() == 0,
            r.bits() == Seq::new(MAX_NODES as nat, |i: int| false),
            r.addrs() == Seq::new(MAX_NODES as nat, |i: int| 0usize),
    {
        let mut nodes: Vec<usize> = Vec::new();
        while nodes.len() < MAX_NODES
            invariant
                nodes.len() <= MAX_NODES,
                forall|i: int| 0 <= i < nodes.len() ==> nodes@[i] == 0,
            decreases MAX_NODES - nodes.len(),
        {
            nodes.push(0);
        }
        let r = BinTree { nodes, bitmap: TreeMap::new(MAX_NODES), level: 0 };
        assert(r.addrs() =~= Seq::new(MAX_NODES as nat, |i: int| 0usize));
        r
    }

    /// Lays the tree over `[root, root + size)`: the largest power-of-two
    /// number of minimum blocks that fits becomes the leaf count, every node
    /// of the tree gets its base address and is marked free, and every index
    /// past the tree is marked used. Returns the leaf count.
    pub fn init(&mut self, root: usize, size: usize) -> (r: Result<usize, InitError>)
        requires
            old(self).wf(),
            root + size <= usize::MAX,
        ensures
            r == Err::<usize, InitError>(InitError::TooSmall) <==> size / MIN_SIZE == 0,
            r == Err::<usize, InitError>(InitError::OverCapacity) <==> size / MIN_SIZE >= 2
                * MAX_PAGES,
            1 <= size / MIN_SIZE < 2 * MAX_PAGES ==> r is Ok,
            r is Err ==> *final(self) == *old(self),
            r matches Ok(p) ==> {
                &&& is_floor_pow2(p as nat, (size / MIN_SIZE) as nat)
                &&& p <= MAX_PAGES
                &&& p * MIN_SIZE <= size
                &&& final(self).is_tree()
                &&& pow2((final(self).height() - 1) as nat) == p
                &&& final(self).bits() == Seq::new(MAX_NODES as nat, |i: int| i >= 2 * p - 1)
                &&& forall|l: nat, j: int|
                    1 <= l <= final(self).height() && 0 <= j < pow2((l - 1) as nat)
                        ==> #[trigger] final(self).addrs()[first_index(l) + j]
                        == root + j * block_size(final(self).height(), l)
                &&& forall|i: int|
                    2 * p - 1 <= i < MAX_NODES
                        ==> #[trigger] final(self).addrs()[i] == old(self).addrs()[i]
            },
    {
        broadcast use lemma_pow2_pos;

        let n = size / MIN_SIZE;
        if n == 0 {
            return Err(InitError::TooSmall);
        }
        let mut pages: usize = 1;
        let mut height: usize = 1;
        proof {
            lemma2_to64();
            lemma2_to64_rest();
        }
        while pages <= n / 2
            invariant
                1 <= height <= 64,
                pages == pow2((height - 1) as nat),
                1 <= pages <= n,
            decreases n - pages,
        {
            proof {
                lemma2_to64();
                lemma2_to64_rest();
                if height >= 64 {
                    lemma_pow2_mono(63, (height - 1) as nat);
                }
                lemma_pow2_unfold(height as nat);
            }
            pages = pages * 2;
            height = height + 1;
        }
        if pages > MAX_PAGES {
            proof {
                if height - 1 <= 15 {
                    lemma_pow2_mono((height - 1) as nat, 15);
                }
                lemma_pow2_mono(16, (height - 1) as nat);
            }
            return Err(InitError::OverCapacity);
        }
        assert(is_floor_pow2(pages as nat, n as nat));
        assert(n < 2 * MAX_PAGES);
        self.bitmap.set_bit_all();
        let mem = pages * MIN_SIZE;
        let mut cur_size = mem;
        let mut counts: usize = 0;
        let mut row: usize = 1;
        let mut lv: usize = 0;
        while lv < height
            invariant
                1 <= height,
                pages == pow2((height - 1) as nat),
                pages <= MAX_PAGES,
                mem == pages * MIN_SIZE,
                mem <= size,
                root + size <= usize::MAX,
                lv <= height,
                row == pow2(lv as nat),
                counts == pow2(lv as nat) - 1,
                lv < height ==> cur_size == block_size(height as nat, (lv + 1) as nat),
                self.wf(),
                forall|i: int| 0 <= i < MAX_NODES ==> self.bitmap@[i] == (i >= counts),
                forall|l: nat, j: int|
                    1 <= l <= lv && 0 <= j < pow2((l - 1) as nat) ==> #[trigger] self.addrs()[first_index(l) + j]
                        == root + j * block_size(height as nat, l),
                forall|i: int|
                    counts <= i < MAX_NODES ==> #[trigger] self.addrs()[i] == old(self).addrs()[i],
            decreases height - lv,
        {
            let mut current = root;
            let mut j: usize = 0;
            proof {
                lemma_pow2_adds((height - 1 - lv) as nat, lv as nat);
                lemma_pow2_strictly_increases(lv as nat, height as nat);
                assert(cur_size * row == mem) by (nonlinear_arith)
                    requires
                        cur_size == MIN_SIZE * pow2((height - (lv + 1)) as nat),
                        mem == pow2((height - 1) as nat) * MIN_SIZE,
                        row == pow2(lv as nat),
                        pow2((height - 1) as nat) == pow2((height - 1 - lv) as nat) * pow2(
                            lv as nat,
                        ),
                        (height - (lv + 1)) as nat == (height - 1 - lv) as nat,
                ;
                lemma_pow2_unfold(height as nat);
            }
            while j < row
                invariant
                    1 <= height,
                    lv < height,
                    row == pow2(lv as nat),
                    pow2(height as nat) == 2 * pages,
                    pages <= MAX_PAGES,
                    mem <= size,
                    root + size <= usize::MAX,
                    cur_size * row == mem,
                    cur_size == block_size(height as nat, (lv + 1) as nat),
                    j <= row,
                    counts == pow2(lv as nat) - 1 + j,
                    current == root + j * cur_size,
                    self.wf(),
                    forall|i: int| 0 <= i < MAX_NODES ==> self.bitmap@[i] == (i >= counts),
                    forall|l: nat, jj: int|
                        1 <= l <= lv && 0 <= jj < pow2((l - 1) as nat) ==> #[trigger] self.addrs()[first_index(l) + jj]
                            == root + jj * block_size(height as nat, l),
                    forall|jj: int|
                        0 <= jj < j ==> #[trigger] self.addrs()[first_index((lv + 1) as nat) + jj]
                            == root + jj * cur_size,
                    forall|i: int|
                        counts <= i < MAX_NODES ==> #[trigger] self.addrs()[i] == old(self).addrs()[i],
                decreases row - j,
            {
                proof {
                    lemma_pow2_mono((lv + 1) as nat, height as nat);
                    lemma_pow2_unfold((lv + 1) as nat);
                    assert(counts < MAX_NODES);
                    assert(current + cur_size <= root + mem) by (nonlinear_arith)
                        requires
                            current == root + j * cur_size,
                            j + 1 <= row,
                            cur_size * row == mem,
                            cur_size >= 0,
                    ;
                    assert((j + 1) * cur_size == j * cur_size + cur_size) by (nonlinear_arith);
                }
                let ghost prev = self.addrs();
                self.nodes.set(counts, current);
                self.bitmap.unset_bit(counts);
                proof {
                    assert forall|l: nat, jj: int|
                        1 <= l <= lv && 0 <= jj < pow2((l - 1) as nat) implies #[trigger] self.addrs()[first_index(l) + jj]
                        == root + jj * block_size(height as nat, l) by {
                        lemma_pow2_mono(l, lv as nat);
                        lemma_pow2_unfold(l);
                        assert(prev[first_index(l) + jj] == root + jj * block_size(height as nat, l));
                    }
                    assert forall|i: int| 0 <= i < MAX_NODES implies self.bitmap@[i] == (i >= counts + 1) by {
                    }
                }
                current = current + cur_size;
                j = j + 1;
                counts = counts + 1;
            }
            proof {
                lemma_pow2_unfold((lv + 1) as nat);
                if lv + 1 < height {
                    lemma_pow2_unfold((height - (lv + 1)) as nat);
                }
            }
            lv = lv + 1;
            cur_size = cur_size / 2;
            row = row * 2;
        }
        self.level = height;
        Ok(pages)
    }

    /// Node `idx` of level `l` and the `2^(height - l)` leaf bits that start
    /// at its leftmost leaf are all in state `want`.
    pub open spec fn fits(&self, idx: int, l: nat, want: bool) -> bool {
        let d = (self.height() - l) as nat;
        &&& self.bits()[idx] == want
        &&& forall|k: int|
            0 <= k < pow2(d) ==> #[trigger] self.bits()[(idx + 1) * pow2(d) - 1 + k] == want
    }

    /// `idx` is the lowest index of level `l` that fits state `want`.
    pub open spec fn is_first_fit(&self, idx: int, l: nat, want: bool) -> bool {
        &&& first_index(l) <= idx < first_index(l + 1)
        &&& self.fits(idx, l, want)
        &&& forall|j: int| first_index(l) <= j < idx ==> !#[trigger] self.fits(j, l, want)
    }

    /// The lowest-indexed node of the size class of `size` that is in state
    /// `is_used` together with all the leaves it spans.
    pub fn find(&self, size: usize, is_used: bool) -> (r: Result<usize, SearchError>)
        requires
            self.is_tree(),
            size > MAX_SIZE || is_block_size(self.height(), size as nat),
        ensures
            size > MAX_SIZE ==> r == Err::<usize, SearchError>(SearchError::TooLarge),
            size <= MAX_SIZE ==> match r {
                Ok(i) => self.is_first_fit(i as int, level_for(self.height(), size as nat), is_used),
                Err(e) => {
                    let l = level_for(self.height(), size as nat);
                    &&& e == SearchError::NotFound
                    &&& forall|j: int|
                        first_index(l) <= j < first_index(l + 1) ==> !#[trigger] self.fits(j, l, is_used)
                },
            },
    {
        if size > MAX_SIZE {
            return Err(SearchError::TooLarge);
        }
        let level = self.get_level(size);
        let ghost h = self.height();
        let ghost d = (h - level) as nat;
        proof {
            lemma_pow2_mono(level as nat, h);
            lemma_height_bound(h);
            lemma_pow2_unfold(level as nat);
            lemma_pow2_adds(level as nat, d);
            lemma_pow2_pos(d);
        }
        let end = self.get_index(level + 1);
        let max = self.max_node();
        let mut idx = self.get_index(level);
        while idx < end
            invariant
                self.is_tree(),
                h == self.height(),
                1 <= level <= h,
                d == h - level,
                size == block_size(h, level as nat),
                level == level_for(h, size as nat),
                end == first_index((level + 1) as nat),
                max == self.last_node(),
                pow2(level as nat) == 2 * pow2((level - 1) as nat),
                pow2(h) == pow2(level as nat) * pow2(d),
                pow2(level as nat) <= pow2(h) <= 65536,
                size <= MAX_SIZE,
                first_index(level as nat) <= idx <= end,
                forall|j: int| first_index(level as nat) <= j < idx ==> !#[trigger] self.fits(j, level as nat, is_used),
            decreases end - idx,
        {
            if self.bitmap.is_empty(idx) != is_used {
                let mut left_leaf = idx;
                let ghost mut t: nat = 0;
                proof {
                    lemma2_to64();
                }
                while self.find_left_child(left_leaf) <= max
                    invariant
                        self.is_tree(),
                        h == self.height(),
                        1 <= level <= h,
                        max == self.last_node(),
                        first_index(level as nat) <= idx < end,
                        end == first_index((level + 1) as nat),
                        pow2(level as nat) == 2 * pow2((level - 1) as nat),
                        left_leaf + 1 == (idx + 1) * pow2(t),
                        pow2((level - 1 + t) as nat) <= left_leaf + 1 < pow2((level + t) as nat),
                        level + t <= h,
                        pow2((level + t) as nat) <= pow2(h) <= 65536,
                    decreases h - t,
                {
                    proof {
                        lemma_pow2_unfold((level + t + 1) as nat);
                        lemma_pow2_unfold((level + t) as nat);
                        lemma_pow2_unfold(t + 1);
                        if level + t >= h {
                            lemma_pow2_mono(h, (level + t) as nat);
                        } else {
                            lemma_pow2_mono((level + t + 1) as nat, h);
                        }
                        assert((idx + 1) * pow2(t + 1) == 2 * ((idx + 1) * pow2(t))) by (nonlinear_arith)
                            requires pow2(t + 1) == 2 * pow2(t);
                    }
                    left_leaf = self.find_left_child(left_leaf);
                    proof {
                        t = t + 1;
                    }
                }
                proof {
                    lemma_pow2_unfold((level + t + 1) as nat);
                    if level + t < h {
                        lemma_pow2_mono((level + t + 1) as nat, h);
                    }
                    assert(t == d);
                    assert((idx + 2) * pow2(d) <= pow2(level as nat) * pow2(d)) by (nonlinear_arith)
                        requires idx + 2 <= pow2(level as nat);
                    assert((idx + 2) * pow2(d) == (idx + 1) * pow2(d) + pow2(d)) by (nonlinear_arith);
                }
                let page_counts = size / MIN_SIZE;
                assert(page_counts == pow2(d));
                if is_used && self.can_free(left_leaf, page_counts) || !is_used && self.can_use(
                    left_leaf,
                    page_counts,
                ) {
                    return Ok(idx);
                }
            }
            idx = idx + 1;
        }
        Err(SearchError::NotFound)
    }

    /// Starting at the node that `find` gives, the first node of the same
    /// level whose base address is `value`.
    pub fn find_match(&self, size: usize, value: usize, is_used: bool) -> (r: Result<
        usize,
        SearchError,
    >)
        requires
            self.is_tree(),
            size > MAX_SIZE || is_block_size(self.height(), size as nat),
        ensures
            size > MAX_SIZE ==> r == Err::<usize, SearchError>(SearchError::TooLarge),
            size <= MAX_SIZE ==> {
                let l = level_for(self.height(), size as nat);
                match r {
                    Ok(j) => exists|i: int|
                        #![trigger self.is_first_fit(i, l, is_used)]
                        {
                            &&& self.is_first_fit(i, l, is_used)
                            &&& i <= j < first_index(l + 1)
                            &&& self.addrs()[j as int] == value
                            &&& forall|k: int| i <= k < j ==> self.addrs()[k] != value
                        },
                    Err(e) => {
                        &&& e == SearchError::NotFound
                        &&& forall|i: int, k: int|
                            #![trigger self.is_first_fit(i, l, is_used), self.addrs()[k]]
                            self.is_first_fit(i, l, is_used) && i <= k < first_index(l + 1)
                                ==> self.addrs()[k] != value
                    },
                }
            },
    {
        if size > MAX_SIZE {
            return Err(SearchError::TooLarge);
        }
        let level = self.get_level(size);
        let ghost l = level as nat;
        proof {
            lemma_height_bound(self.height());
            lemma_pow2_mono(l, self.height());
        }
        let max_idx = self.get_index(level + 1);
        let first = match self.find(size, is_used) {
            Ok(i) => i,
            Err(e) => {
                return Err(e);
            },
        };
        proof {
            assert forall|i: int| #[trigger] self.is_first_fit(i, l, is_used) implies i == first by {
                if i < first {
                    assert(!self.fits(i, l, is_used));
                } else if i > first {
                    assert(!self.fits(first as int, l, is_used));
                }
            }
        }
        let mut idx = first;
        while idx < max_idx
            invariant
                self.is_tree(),
                self.is_first_fit(first as int, l, is_used),
                forall|i: int| #[trigger] self.is_first_fit(i, l, is_used) ==> i == first,
                size <= MAX_SIZE,
                l == level_for(self.height(), size as nat),
                max_idx == first_index(l + 1),
                max_idx <= MAX_NODES,
                first <= idx,
                forall|k: int| first <= k < idx ==> self.addrs()[k] != value,
            decreases max_idx - idx,
        {
            if self.get_value(idx) == value {
                assert(self.is_first_fit(first as int, l, is_used));
                return Ok(idx);
            }
            idx = idx + 1;
        }
        Err(SearchError::NotFound)
    }

    /// The level whose blocks have `size` bytes.
    pub fn get_level(&self, size: usize) -> (r: usize)
        requires
            self.is_tree(),
            is_block_size(self.height(), size as nat),
        ensures
            r == level_for(self.height(), size as nat),
            1 <= r <= self.height(),
            size == block_size(self.height(), r as nat),
    {
        let ghost h = self.height();
        let ghost l0 = level_for(h, size as nat);
        let mut index_size = size / MIN_SIZE * MIN_SIZE;
        let mut level = self.level;
        while index_size > MIN_SIZE
            invariant
                h == self.height(),
                1 <= l0 <= level <= h,
                index_size == MIN_SIZE * pow2((level - l0) as nat),
            decreases index_size,
        {
            proof {
                if level == l0 {
                    lemma2_to64();
                }
                lemma_pow2_unfold((level - l0) as nat);
            }
            index_size = index_size / 2;
            level = level - 1;
        }
        proof {
            if level > l0 {
                lemma_pow2_unfold((level - l0) as nat);
                lemma_pow2_pos((level - l0 - 1) as nat);
            }
        }
        level
    }

    /// Index of the leftmost node of `level`: `2^(level - 1) - 1`.
    pub fn get_index(&self, level: usize) -> (r: usize)
        requires
            1 <= level,
            pow2((level - 1) as nat) <= usize::MAX,
        ensures
            r == first_index(level as nat),
    {
        let mut p: usize = 1;
        let mut i: usize = 1;
        proof {
            lemma2_to64();
        }
        while i < level
            invariant
                1 <= i <= level,
                p == pow2((i - 1) as nat),
                pow2((level - 1) as nat) <= usize::MAX,
            decreases level - i,
        {
            proof {
                lemma_pow2_unfold(i as nat);
                lemma_pow2_mono(i as nat, (level - 1) as nat);
            }
            p = p * 2;
            i = i + 1;
        }
        proof {
            lemma_pow2_pos((level - 1) as nat);
        }
        p - 1
    }

    /// Base address of the block of node `idx`.
    pub fn get_value(&self, idx: usize) -> (r: usize)
        requires
            self.wf(),
            idx < MAX_NODES,
        ensures
            r == self.addrs()[idx as int],
    {
        self.nodes[idx]
    }

    /// Index of the last node of the tree: `2^height - 2`.
    pub fn max_node(&self) -> (r: usize)
        requires
            self.is_tree(),
        ensures
            r == self.last_node(),
    {
        proof {
            lemma_pow2_unfold(self.height());
            lemma_pow2_pos((self.height() - 1) as nat);
            lemma2_to64();
            if self.height() > 16 {
                lemma_pow2_mono(17, self.height());
            }
        }
        self.get_index(self.level + 1) - 1
    }

    /// Left child of node `idx`.
    pub fn find_left_child(&self, idx: usize) -> (r: usize)
        requires
            2 * idx + 1 <= usize::MAX,
        ensures
            r == 2 * idx + 1,
    {
        idx * 2 + 1
    }

    /// Right child of node `idx`.
    pub fn find_right_child(&self, idx: usize) -> (r: usize)
        requires
            2 * idx + 2 <= usize::MAX,
        ensures
            r == 2 * idx + 2,
    {
        idx * 2 + 2
    }

    /// Parent of node `idx`; the root has none.
    pub fn find_parent(&self, idx: usize) -> (r: usize)
        requires
            1 <= idx < usize::MAX,
        ensures
            r == (idx + 1) / 2 - 1,
    {
        (idx + 1) / 2 - 1
    }

    /// Whether the `counts` bits from `index` on are all free.
    pub fn can_use(&self, index: usize, counts: usize) -> (r: bool)
        requires
            self.wf(),
            index + counts <= self.bits().len(),
        ensures
            r == forall|k: int| 0 <= k < counts ==> !#[trigger] self.bits()[index + k],
    {
        let mut i: usize = 0;
        while i < counts
            invariant
                i <= counts,
                self.wf(),
                index + counts <= self.bits().len(),
                forall|k: int| 0 <= k < i ==> !#[trigger] self.bits()[index + k],
            decreases counts - i,
        {
            if !self.bitmap.is_empty(index + i) {
                return false;
            }
            i = i + 1;
        }
        true
    }

    /// Whether the `counts` bits from `index` on are all used.
    pub fn can_free(&self, index: usize, counts: usize) -> (r: bool)
        requires
            self.wf(),
            index + counts <= self.bits().len(),
        ensures
            r == forall|k: int| 0 <= k < counts ==> #[trigger] self.bits()[index + k],
    {
        let mut i: usize = 0;
        while i < counts
            invariant
                i <= counts,
                self.wf(),
                index + counts <= self.bits().len(),
                forall|k: int| 0 <= k < i ==> #[trigger] self.bits()[index + k],
            decreases counts - i,
        {
            if self.bitmap.is_empty(index + i) {
                return false;
            }
            i = i + 1;
        }
        true
    }

    /// Sets to `v` the bit of `idx` and of each of its descendants, band by
    /// band, until a band starts past the last node.
    fn mark_subtree(&mut self, idx: usize, v: bool)
        requires
            old(self).is_tree(),
        ensures
            final(self).bits() == marked(old(self).bits(), idx as nat, old(self).last_node() as nat, v),
            final(self).addrs() == old(self).addrs(),
            final(self).height() == old(self).height(),
    {
        let max = self.max_node();
        let ghost h = self.height();
        let ghost bits0 = self.bits();
        let mut left_leaf = idx;
        let mut width: usize = 1;
        let ghost mut d: nat = 0;
        proof {
            lemma_height_bound(h);
            lemma2_to64();
        }
        while left_leaf <= max
            invariant
                self.is_tree(),
                h == self.height(),
                h <= 16,
                pow2(h) <= 65536,
                max == self.last_node(),
                self.addrs() == old(self).addrs(),
                self.height() == old(self).height(),
                d <= h,
                width == pow2(d),
                left_leaf + 1 == (idx + 1) * width,
                forall|i: int|
                    0 <= i < MAX_NODES ==> #[trigger] self.bits()[i] == if i <= max
                        && in_subtree_within(idx as nat, d, i as nat) {
                        v
                    } else {
                        bits0[i]
                    },
            decreases h - d,
        {
            proof {
                lemma_pow2_pos(d);
                if d >= h {
                    lemma_pow2_mono(h, d);
                    assert((idx + 1) * width >= width) by (nonlinear_arith)
                        requires width > 0;
                }
                lemma_pow2_adds((h - d) as nat, d);
                let e = pow2((h - d) as nat);
                assert((idx + 2) * width <= pow2(h)) by (nonlinear_arith)
                    requires
                        (idx + 1) * width < pow2(h),
                        pow2(h) == e * width,
                        width > 0,
                {
                    assert(idx + 1 < e) by (nonlinear_arith)
                        requires (idx + 1) * width < e * width, width > 0;
                    assert((idx + 2) * width <= e * width) by (nonlinear_arith)
                        requires idx + 2 <= e, width > 0;
                }
                assert((idx + 2) * width == (idx + 1) * width + width) by (nonlinear_arith);
            }
            let mut k: usize = 0;
            while k < width
                invariant
                    self.is_tree(),
                    h == self.height(),
                    max == self.last_node(),
                    self.addrs() == old(self).addrs(),
                    self.height() == old(self).height(),
                    width == pow2(d),
                    left_leaf + 1 == (idx + 1) * width,
                    left_leaf + width <= max + 1,
                    k <= width,
                    forall|i: int|
                        0 <= i < MAX_NODES ==> #[trigger] self.bits()[i] == if (i <= max
                            && in_subtree_within(idx as nat, d, i as nat)) || (left_leaf <= i
                            < left_leaf + k) {
                            v
                        } else {
                            bits0[i]
                        },
                decreases width - k,
            {
                if v {
                    self.bitmap.set_bit(left_leaf + k);
                } else {
                    self.bitmap.unset_bit(left_leaf + k);
                }
                k = k + 1;
            }
            proof {
                assert forall|i: int| 0 <= i < MAX_NODES implies #[trigger] self.bits()[i] == if i
                    <= max && in_subtree_within(idx as nat, d + 1, i as nat) {
                    v
                } else {
                    bits0[i]
                } by {
                    if left_leaf <= i < left_leaf + width {
                        assert(in_band(idx as nat, d, i as nat));
                    }
                    if in_subtree_within(idx as nat, d + 1, i as nat) {
                        let dd = choose|dd: nat| dd < d + 1 && #[trigger] in_band(idx as nat, dd, i as nat);
                        if dd < d {
                            assert(in_subtree_within(idx as nat, d, i as nat));
                        }
                    }
                }
                lemma_pow2_unfold(d + 1);
                assert((idx + 1) * (2 * width) == 2 * ((idx + 1) * width)) by (nonlinear_arith);
                d = d + 1;
            }
            left_leaf = left_leaf * 2 + 1;
            width = width * 2;
        }
        proof {
            assert forall|i: int| 0 <= i <= max implies #[trigger] in_subtree(idx as nat, i as nat)
                == in_subtree_within(idx as nat, d, i as nat) by {
                if in_subtree(idx as nat, i as nat) {
                    let dd = choose|dd: nat| #[trigger] in_band(idx as nat, dd, i as nat);
                    if dd >= d {
                        lemma_pow2_mono(d, dd);
                        assert((idx + 1) * pow2(d) <= (idx + 1) * pow2(dd)) by (nonlinear_arith)
                            requires pow2(d) <= pow2(dd);
                    }
                    assert(in_subtree_within(idx as nat, d, i as nat));
                }
            }
            assert(self.bits() =~= marked(bits0, idx as nat, max as nat, v));
        }
    }

    /// Marks node `idx` and every node below it used. Ancestors of `idx`
    /// keep their bits: a caller that needs them to reflect the change
    /// updates them itself.
    pub fn use_mem(&mut self, idx: usize)
        requires
            old(self).is_tree(),
        ensures
            final(self).bits() == marked(old(self).bits(), idx as nat, old(self).last_node() as nat, true),
            final(self).addrs() == old(self).addrs(),
            final(self).height() == old(self).height(),
    {
        self.mark_subtree(idx, true);
    }

    /// Marks node `idx` and every node below it free. Ancestors of `idx`
    /// keep their bits.
    pub fn unuse_mem(&mut self, idx: usize)
        requires
            old(self).is_tree(),
        ensures
            final(self).bits() == marked(old(self).bits(), idx as nat, old(self).last_node() as nat, false),
            final(self).addrs() == old(self).addrs(),
            final(self).height() == old(self).height(),
    {
        self.mark_subtree(idx, false);
    }

    /// Marks node `idx` alone used.
    pub fn use_page(&mut self, idx: usize)
        requires
            old(self).wf(),
            idx < MAX_NODES,
        ensures
            final(self).bits() == old(self).bits().update(idx as int, true),
            final(self).addrs() == old(self).addrs(),
            final(self).height() == old(self).height(),
    {
        self.bitmap.set_bit(idx);
    }

    /// Marks node `idx` alone free.
    pub fn unuse_page(&mut self, idx: usize)
        requires
            old(self).wf(),
            idx < MAX_NODES,
        ensures
            final(self).bits() == old(self).bits().update(idx as int, false),
            final(self).addrs() == old(self).addrs(),
            final(self).height() == old(self).height(),
    {
        self.bitmap.unset_bit(idx);
    }
}

} // verus!
