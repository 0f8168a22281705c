//! The metric index: a height-balanced tree whose leaves are the sizes of
//! consecutive chunks of a text, and whose inner nodes hold the sums below
//! them. It finds the chunk of a character in time proportional to its height.
use crate::metric::{
    admits, after, before, excised, joined, lemma_before_before, lemma_cut_first, lemma_cut_left,
    lemma_cut_right, lemma_cut_valid, lemma_joined, lemma_search_left, lemma_search_right,
    lemma_total_bounds, lemma_total_concat, lemma_total_push, lemma_total_single, search_base,
    spliced, total, valid_leaf, valid_leaves, Metric, LOW_WATER, MAX_LEAF,
};
use vstd::arithmetic::power2::{
    lemma2_to64, lemma_pow2_strictly_increases, lemma_pow2_unfold, pow2,
};
use vstd::prelude::*;

verus! {

/// A tree with at least one leaf.
#[derive(Debug)]
enum Node {
    Leaf { metric: Metric },
    Internal { left: Box<Node>, right: Box<Node>, sum: Metric, height: usize },
}

impl Node {
    /// The leaves from left to right.
    spec fn leaves(self) -> Seq<Metric>
        decreases self,
    {
        match self {
            Node::Leaf { metric } => seq![metric],
            Node::Internal { left, right, .. } => left.leaves() + right.leaves(),
        }
    }

    /// The length of the longest path to a leaf.
    spec fn rank(self) -> int
        decreases self,
    {
        match self {
            Node::Leaf { .. } => 0,
            Node::Internal { left, right, .. } => if left.rank() >= right.rank() {
                left.rank() + 1
            } else {
                right.rank() + 1
            },
        }
    }

    /// Every leaf is valid, every inner node holds the sum of its leaves and
    /// its own height, and the heights of its two children differ by at most
    /// one.
    spec fn wf(self) -> bool
        decreases self,
    {
        match self {
            Node::Leaf { metric } => valid_leaf(metric),
            Node::Internal { left, right, sum, height } => {
                &&& left.wf()
                &&& right.wf()
                &&& sum@ == total(left.leaves() + right.leaves())
                &&& height == self.rank()
                &&& -1 <= left.rank() - right.rank() <= 1
            },
        }
    }

    /// A tree of height `h` has more than `h` leaves, all valid, so its height
    /// lies below the number of bytes it stands for.
    proof fn lemma_bounds(self)
        requires
            self.wf(),
        ensures
            valid_leaves(self.leaves()),
            0 <= self.rank() < self.leaves().len(),
            self.leaves().len() <= total(self.leaves()).chars <= total(self.leaves()).bytes,
        decreases self,
    {
        match self {
            Node::Leaf { metric } => {
                lemma_total_single(metric);
            },
            Node::Internal { left, right, .. } => {
                left.lemma_bounds();
                right.lemma_bounds();
                lemma_total_concat(left.leaves(), right.leaves());
            },
        }
        lemma_total_bounds(self.leaves());
    }

    /// A balanced tree of height `h` has at least `2^(h/2)` leaves: its
    /// height is at most twice the logarithm of their number.
    proof fn lemma_height_bound(self)
        requires
            self.wf(),
        ensures
            pow2((self.rank() / 2) as nat) <= self.leaves().len(),
        decreases self,
    {
        self.lemma_bounds();
        lemma2_to64();
        match self {
            Node::Leaf { .. } => {},
            Node::Internal { left, right, .. } => {
                left.lemma_bounds();
                right.lemma_bounds();
                left.lemma_height_bound();
                right.lemma_height_bound();
                let h = self.rank();
                if h >= 2 {
                    let low = ((h - 2) / 2) as nat;
                    lemma_pow2_increases(low, (left.rank() / 2) as nat);
                    lemma_pow2_increases(low, (right.rank() / 2) as nat);
                    lemma_pow2_unfold((h / 2) as nat);
                }
            },
        }
    }

    /// The sum of the leaves.
    fn sum(&self) -> (m: Metric)
        requires
            self.wf(),
        ensures
            m@ == total(self.leaves()),
    {
        match self {
            Node::Leaf { metric } => {
                proof {
                    lemma_total_single(*metric);
                }
                *metric
            },
            Node::Internal { sum, .. } => *sum,
        }
    }

    /// The length of the longest path to a leaf.
    fn height(&self) -> (h: usize)
        requires
            self.wf(),
        ensures
            h == self.rank(),
    {
        match self {
            Node::Leaf { .. } => 0,
            Node::Internal { height, .. } => *height,
        }
    }
}

/// Powers of two grow with the exponent.
proof fn lemma_pow2_increases(a: nat, b: nat)
    requires
        a <= b,
    ensures
        pow2(a) <= pow2(b),
{
    if a < b {
        lemma_pow2_strictly_increases(a, b);
    }
}

/// The inner node over two trees of nearly equal height.
fn mk(l: Node, r: Node) -> (n: Node)
    requires
        l.wf(),
        r.wf(),
        -1 <= l.rank() - r.rank() <= 1,
        total(l.leaves()).bytes + total(r.leaves()).bytes <= usize::MAX,
    ensures
        n.wf(),
        n.leaves() == l.leaves() + r.leaves(),
        n.rank() == if l.rank() >= r.rank() {
            l.rank() + 1
        } else {
            r.rank() + 1
        },
        n matches Node::Internal { left, right, .. } && *left == l && *right == r,
{
    proof {
        l.lemma_bounds();
        r.lemma_bounds();
        lemma_total_concat(l.leaves(), r.leaves());
    }
    let sum = l.sum().plus(r.sum());
    let hl = l.height();
    let hr = r.height();
    let height = if hl >= hr {
        hl + 1
    } else {
        hr + 1
    };
    Node::Internal { left: Box::new(l), right: Box::new(r), sum, height }
}

/// Joins a tree to a lower one on its right.
fn join_right(l: Node, r: Node) -> (n: Node)
    requires
        l.wf(),
        r.wf(),
        l.rank() > r.rank() + 1,
        total(l.leaves()).bytes + total(r.leaves()).bytes <= usize::MAX,
    ensures
        n.wf(),
        n.leaves() == l.leaves() + r.leaves(),
        l.rank() <= n.rank() <= l.rank() + 1,
        n.rank() == l.rank() + 1 ==> (n matches Node::Internal { left, .. } && left.rank()
            == n.rank() - 2),
    decreases l,
{
    match l {
        Node::Internal { left, right, .. } => {
            let a = *left;
            let c = *right;
            proof {
                reveal_with_fuel(Node::wf, 2);
                reveal_with_fuel(Node::rank, 2);
                a.lemma_bounds();
                c.lemma_bounds();
                r.lemma_bounds();
                lemma_total_concat(a.leaves(), c.leaves());
                lemma_total_concat(c.leaves(), r.leaves());
                assert((a.leaves() + c.leaves()) + r.leaves() =~= a.leaves() + (c.leaves()
                    + r.leaves()));
            }
            if c.height() <= r.height() + 1 {
                if c.height() <= a.height() {
                    let t = mk(c, r);
                    mk(a, t)
                } else {
                    match c {
                        Node::Internal { left: cl, right: cr, .. } => {
                            let x = *cl;
                            let y = *cr;
                            proof {
                                x.lemma_bounds();
                                y.lemma_bounds();
                                lemma_total_concat(x.leaves(), y.leaves());
                                lemma_total_concat(a.leaves(), x.leaves());
                                lemma_total_concat(y.leaves(), r.leaves());
                                assert((a.leaves() + (x.leaves() + y.leaves())) + r.leaves() =~= (
                                a.leaves() + x.leaves()) + (y.leaves() + r.leaves()));
                            }
                            let p = mk(a, x);
                            let q = mk(y, r);
                            mk(p, q)
                        },
                        Node::Leaf { .. } => vstd::pervasive::unreached(),
                    }
                }
            } else {
                let t = join_right(c, r);
                if t.height() <= a.height() + 1 {
                    mk(a, t)
                } else {
                    match t {
                        Node::Internal { left: tl, right: tr, .. } => {
                            let x = *tl;
                            let y = *tr;
                            proof {
                                x.lemma_bounds();
                                y.lemma_bounds();
                                lemma_total_concat(x.leaves(), y.leaves());
                                lemma_total_concat(a.leaves(), x.leaves());
                                assert(a.leaves() + (x.leaves() + y.leaves()) =~= (a.leaves()
                                    + x.leaves()) + y.leaves());
                            }
                            let p = mk(a, x);
                            mk(p, y)
                        },
                        Node::Leaf { .. } => vstd::pervasive::unreached(),
                    }
                }
            }
        },
        Node::Leaf { .. } => vstd::pervasive::unreached(),
    }
}

/// Joins a tree to a lower one on its left.
fn join_left(l: Node, r: Node) -> (n: Node)
    requires
        l.wf(),
        r.wf(),
        r.rank() > l.rank() + 1,
        total(l.leaves()).bytes + total(r.leaves()).bytes <= usize::MAX,
    ensures
        n.wf(),
        n.leaves() == l.leaves() + r.leaves(),
        r.rank() <= n.rank() <= r.rank() + 1,
        n.rank() == r.rank() + 1 ==> (n matches Node::Internal { right, .. } && right.rank()
            == n.rank() - 2),
    decreases r,
{
    match r {
        Node::Internal { left, right, .. } => {
            let c = *left;
            let a = *right;
            proof {
                reveal_with_fuel(Node::wf, 2);
                reveal_with_fuel(Node::rank, 2);
                a.lemma_bounds();
                c.lemma_bounds();
                l.lemma_bounds();
                lemma_total_concat(c.leaves(), a.leaves());
                lemma_total_concat(l.leaves(), c.leaves());
                assert(l.leaves() + (c.leaves() + a.leaves()) =~= (l.leaves() + c.leaves())
                    + a.leaves());
            }
            if c.height() <= l.height() + 1 {
                if c.height() <= a.height() {
                    let t = mk(l, c);
                    mk(t, a)
                } else {
                    match c {
                        Node::Internal { left: cl, right: cr, .. } => {
                            let x = *cl;
                            let y = *cr;
                            proof {
                                x.lemma_bounds();
                                y.lemma_bounds();
                                lemma_total_concat(x.leaves(), y.leaves());
                                lemma_total_concat(l.leaves(), x.leaves());
                                lemma_total_concat(y.leaves(), a.leaves());
                                assert(l.leaves() + ((x.leaves() + y.leaves()) + a.leaves()) =~= (
                                l.leaves() + x.leaves()) + (y.leaves() + a.leaves()));
                            }
                            let p = mk(l, x);
                            let q = mk(y, a);
                            mk(p, q)
                        },
                        Node::Leaf { .. } => vstd::pervasive::unreached(),
                    }
                }
            } else {
                let t = join_left(l, c);
                if t.height() <= a.height() + 1 {
                    mk(t, a)
                } else {
                    match t {
                        Node::Internal { left: tl, right: tr, .. } => {
                            let x = *tl;
                            let y = *tr;
                            proof {
                                x.lemma_bounds();
                                y.lemma_bounds();
                                lemma_total_concat(x.leaves(), y.leaves());
                                lemma_total_concat(y.leaves(), a.leaves());
                                assert((x.leaves() + y.leaves()) + a.leaves() =~= x.leaves() + (
                                y.leaves() + a.leaves()));
                            }
                            let q = mk(y, a);
                            mk(x, q)
                        },
                        Node::Leaf { .. } => vstd::pervasive::unreached(),
                    }
                }
            }
        },
        Node::Leaf { .. } => vstd::pervasive::unreached(),
    }
}

/// The balanced tree whose leaves are those of `l` followed by those of `r`.
fn join(l: Node, r: Node) -> (n: Node)
    requires
        l.wf(),
        r.wf(),
        total(l.leaves()).bytes + total(r.leaves()).bytes <= usize::MAX,
    ensures
        n.wf(),
        n.leaves() == l.leaves() + r.leaves(),
{
    let hl = l.height();
    let hr = r.height();
    if hl >= 2 && hl - 2 >= hr {
        join_right(l, r)
    } else if hr >= 2 && hr - 2 >= hl {
        join_left(l, r)
    } else {
        mk(l, r)
    }
}

/// The leaves of a tree that may be empty.
spec fn tree_leaves(t: Option<Node>) -> Seq<Metric> {
    match t {
        Some(n) => n.leaves(),
        None => Seq::empty(),
    }
}

/// Whether a tree that may be empty is well formed.
spec fn tree_wf(t: Option<Node>) -> bool {
    match t {
        Some(n) => n.wf(),
        None => true,
    }
}

/// The balanced tree of the leaves of `l` followed by those of `r`, where
/// either may be empty.
fn join_opt(l: Option<Node>, r: Option<Node>) -> (t: Option<Node>)
    requires
        tree_wf(l),
        tree_wf(r),
        total(tree_leaves(l)).bytes + total(tree_leaves(r)).bytes <= usize::MAX,
    ensures
        tree_wf(t),
        tree_leaves(t) == tree_leaves(l) + tree_leaves(r),
{
    match l {
        None => {
            assert(tree_leaves(l) + tree_leaves(r) =~= tree_leaves(r));
            r
        },
        Some(a) => match r {
            None => {
                assert(tree_leaves(l) + tree_leaves(r) =~= tree_leaves(l));
                Some(a)
            },
            Some(b) => Some(join(a, b)),
        },
    }
}

/// The first leaf of a tree.
fn first_leaf(n: &Node) -> (m: Metric)
    requires
        n.wf(),
    ensures
        n.leaves().len() > 0,
        m == n.leaves()[0],
    decreases n,
{
    match n {
        Node::Leaf { metric } => *metric,
        Node::Internal { left, .. } => {
            proof {
                left.lemma_bounds();
            }
            first_leaf(left)
        },
    }
}

/// The last leaf of a tree.
fn last_leaf(n: &Node) -> (m: Metric)
    requires
        n.wf(),
    ensures
        n.leaves().len() > 0,
        m == n.leaves().last(),
    decreases n,
{
    match n {
        Node::Leaf { metric } => *metric,
        Node::Internal { right, .. } => {
            proof {
                right.lemma_bounds();
            }
            last_leaf(right)
        },
    }
}

/// Adds `m` to the last leaf of a tree, which has room for it.
fn grow_last(n: Node, m: Metric) -> (grown: Node)
    requires
        n.wf(),
        valid_leaf(m),
        n.leaves().last().bytes + m.bytes <= MAX_LEAF,
        total(n.leaves()).bytes + m.bytes <= usize::MAX,
    ensures
        grown.wf(),
        grown.rank() == n.rank(),
        grown.leaves() == n.leaves().drop_last().push(n.leaves().last()@.plus(m@).metric()),
    decreases n,
{
    proof {
        n.lemma_bounds();
    }
    match n {
        Node::Leaf { metric } => {
            proof {
                assert(seq![metric].drop_last().push(metric@.plus(m@).metric()) =~= seq![
                    metric@.plus(m@).metric(),
                ]);
            }
            Node::Leaf { metric: metric.plus(m) }
        },
        Node::Internal { left, right, sum, height } => {
            let l = *left;
            let r = *right;
            proof {
                l.lemma_bounds();
                r.lemma_bounds();
                lemma_total_concat(l.leaves(), r.leaves());
            }
            let grown = grow_last(r, m);
            proof {
                let one = r.leaves().last()@.plus(m@).metric();
                assert(l.leaves() + r.leaves().drop_last().push(one) =~= (l.leaves()
                    + r.leaves()).drop_last().push(one));
                lemma_total_push(r.leaves().drop_last(), one);
                lemma_total_push(r.leaves().drop_last(), r.leaves().last());
                assert(r.leaves().drop_last().push(r.leaves().last()) =~= r.leaves());
                lemma_total_concat(l.leaves(), grown.leaves());
            }
            Node::Internal { left: Box::new(l), right: Box::new(grown), sum: sum.plus(m), height }
        },
    }
}

/// Cuts a tree at position `at`, counted from the tree's own start.
fn split(n: Node, at: Metric) -> (parts: (Option<Node>, Option<Node>))
    requires
        n.wf(),
        admits(n.leaves(), at@),
    ensures
        tree_wf(parts.0),
        tree_wf(parts.1),
        tree_leaves(parts.0) == before(n.leaves(), at@),
        tree_leaves(parts.1) == after(n.leaves(), at@),
    decreases n,
{
    proof {
        n.lemma_bounds();
        lemma_cut_valid(n.leaves(), at@);
    }
    match n {
        Node::Leaf { metric } => {
            proof {
                reveal_with_fuel(before, 2);
                reveal_with_fuel(after, 2);
                reveal_with_fuel(admits, 2);
                lemma_total_single(metric);
                assert(seq![metric].drop_last() =~= Seq::<Metric>::empty());
                assert(Seq::<Metric>::empty().push(metric) =~= seq![metric]);
            }
            if at.chars == 0 {
                (None, Some(Node::Leaf { metric }))
            } else if at.chars >= metric.chars {
                (Some(Node::Leaf { metric }), None)
            } else {
                let head = at;
                let tail = metric.minus(at);
                proof {
                    assert(Seq::<Metric>::empty().push(head) =~= seq![head]);
                }
                (Some(Node::Leaf { metric: head }), Some(Node::Leaf { metric: tail }))
            }
        },
        Node::Internal { left, right, .. } => {
            let l = *left;
            let r = *right;
            let ls = l.sum();
            proof {
                l.lemma_bounds();
                r.lemma_bounds();
                lemma_total_concat(l.leaves(), r.leaves());
            }
            if at.chars <= ls.chars {
                proof {
                    lemma_cut_left(l.leaves(), r.leaves(), at@);
                    lemma_cut_valid(l.leaves(), at@);
                }
                let (a, b) = split(l, at);
                (a, join_opt(b, Some(r)))
            } else {
                proof {
                    lemma_cut_right(l.leaves(), r.leaves(), at@);
                    lemma_cut_valid(r.leaves(), at@.minus(ls@));
                }
                let (a, b) = split(r, at.minus(ls));
                (join_opt(Some(l), a), b)
            }
        },
    }
}

/// Puts two trees together as `joined` says: where the two leaves that meet
/// hold no more than `limit` bytes together, they become one leaf.
fn glue(l: Option<Node>, r: Option<Node>, limit: usize) -> (t: Option<Node>)
    requires
        tree_wf(l),
        tree_wf(r),
        limit <= MAX_LEAF,
        total(tree_leaves(l)).bytes + total(tree_leaves(r)).bytes <= usize::MAX,
    ensures
        tree_wf(t),
        tree_leaves(t) == joined(tree_leaves(l), tree_leaves(r), limit as int),
{
    match l {
        None => join_opt(None, r),
        Some(a) => match r {
            None => join_opt(Some(a), None),
            Some(b) => {
                let last = last_leaf(&a);
                let first = first_leaf(&b);
                proof {
                    a.lemma_bounds();
                    b.lemma_bounds();
                }
                if last.bytes + first.bytes <= limit {
                    proof {
                        lemma_cut_first(b.leaves());
                        lemma_cut_valid(b.leaves(), first@);
                    }
                    let (_first, rest) = split(b, first);
                    let grown = grow_last(a, first);
                    proof {
                        grown.lemma_bounds();
                        lemma_total_push(a.leaves().drop_last(), last);
                        assert(a.leaves().drop_last().push(last) =~= a.leaves());
                        lemma_total_push(a.leaves().drop_last(), last@.plus(first@).metric());
                    }
                    join_opt(Some(grown), rest)
                } else {
                    Some(join(a, b))
                }
            },
        },
    }
}

/// Finds the leaf that holds character number `pos`, counted from the tree's
/// own start.
fn search(n: &Node, pos: usize) -> (found: (Metric, usize))
    requires
        n.wf(),
        pos <= total(n.leaves()).chars,
    ensures
        found.0@ == search_base(n.leaves(), pos as int),
        found.1 == pos - found.0.chars,
    decreases n,
{
    match n {
        Node::Leaf { metric } => {
            proof {
                lemma_total_single(*metric);
                assert(seq![*metric].drop_last() =~= Seq::<Metric>::empty());
            }
            if pos >= metric.chars {
                (*metric, pos - metric.chars)
            } else {
                (Metric::zero(), pos)
            }
        },
        Node::Internal { left, right, .. } => {
            let ls = left.sum();
            proof {
                left.lemma_bounds();
                right.lemma_bounds();
                lemma_total_concat(left.leaves(), right.leaves());
            }
            if pos < ls.chars {
                proof {
                    lemma_search_left(left.leaves(), right.leaves(), pos as int);
                }
                search(left, pos)
            } else {
                proof {
                    lemma_search_right(left.leaves(), right.leaves(), pos as int);
                    lemma_search_bounds(right.leaves(), pos - ls.chars);
                }
                let (base, offset) = search(right, pos - ls.chars);
                (ls.plus(base), offset)
            }
        },
    }
}

/// Appends the leaves of `n`, from left to right, to `out`.
fn collect(n: &Node, out: &mut Vec<Metric>)
    ensures
        final(out)@ == old(out)@ + n.leaves(),
    decreases n,
{
    match n {
        Node::Leaf { metric } => {
            out.push(*metric);
            assert(out@ =~= old(out)@ + n.leaves());
        },
        Node::Internal { left, right, .. } => {
            collect(left, out);
            collect(right, out);
            assert(out@ =~= old(out)@ + (left.leaves() + right.leaves()));
        },
    }
}

/// A search gives a sum of leading leaves, so it stays within the total.
proof fn lemma_search_bounds(leaves: Seq<Metric>, pos: int)
    requires
        valid_leaves(leaves),
        0 <= pos,
    ensures
        0 <= search_base(leaves, pos).chars <= total(leaves).chars,
        0 <= search_base(leaves, pos).bytes <= total(leaves).bytes,
        search_base(leaves, pos).chars <= pos,
    decreases leaves.len(),
{
    if leaves.len() > 0 {
        lemma_total_bounds(leaves.drop_last());
        lemma_search_bounds(leaves.drop_last(), pos);
    }
}

/// The index over a text: the sizes of its chunks, in order.
#[derive(Debug)]
pub struct BufferMetrics {
    root: Option<Node>,
}

impl View for BufferMetrics {
    type V = Seq<Metric>;

    /// The leaves from first to last.
    closed spec fn view(&self) -> Seq<Metric> {
        tree_leaves(self.root)
    }
}

impl BufferMetrics {
    /// The tree is balanced and consistent: see `Node::wf`.
    pub closed spec fn wf(&self) -> bool {
        tree_wf(self.root)
    }

    /// The height of the tree, `-1` for the empty one.
    pub closed spec fn rank(&self) -> int {
        match self.root {
            Some(n) => n.rank(),
            None => -1,
        }
    }

    /// The leaves of a well-formed index are valid, and its height is below
    /// their number.
    pub proof fn lemma_valid(&self)
        requires
            self.wf(),
        ensures
            valid_leaves(self@),
            self.rank() < self@.len(),
            self@.len() <= total(self@).chars <= total(self@).bytes <= usize::MAX,
    {
        match self.root {
            Some(n) => {
                n.lemma_bounds();
                self.lemma_total_fits();
            },
            None => {},
        }
    }

    /// The size of the text that the index stands for fits a `usize`.
    proof fn lemma_total_fits(&self)
        requires
            self.wf(),
        ensures
            total(self@).bytes <= usize::MAX,
            total(self@).chars <= usize::MAX,
    {
        match self.root {
            Some(n) => {
                n.lemma_bounds();
                match n {
                    Node::Leaf { metric } => {
                        lemma_total_single(metric);
                    },
                    Node::Internal { .. } => {},
                }
            },
            None => {},
        }
    }

    /// The height of the index is at most twice the logarithm of the number
    /// of its leaves, which is what bounds the steps of a search.
    pub proof fn lemma_height_bound(&self)
        requires
            self.wf(),
        ensures
            self.rank() >= 0 ==> pow2((self.rank() / 2) as nat) <= self@.len(),
    {
        match self.root {
            Some(n) => {
                n.lemma_height_bound();
            },
            None => {},
        }
    }

    /// The index of the empty text.
    pub fn new() -> (index: BufferMetrics)
        ensures
            index.wf(),
            index@ == Seq::<Metric>::empty(),
    {
        BufferMetrics { root: None }
    }

    /// The index with the given leaves.
    pub fn build(chunks: &Vec<Metric>) -> (index: BufferMetrics)
        requires
            valid_leaves(chunks@),
            total(chunks@).bytes <= usize::MAX,
        ensures
            index.wf(),
            index@ == chunks@,
    {
        let mut root: Option<Node> = None;
        let mut i: usize = 0;
        while i < chunks.len()
            invariant
                i <= chunks.len(),
                tree_wf(root),
                tree_leaves(root) == chunks@.subrange(0, i as int),
                valid_leaves(chunks@),
                total(chunks@).bytes <= usize::MAX,
            decreases chunks.len() - i,
        {
            let metric = chunks[i];
            proof {
                let done = chunks@.subrange(0, i as int);
                let rest = chunks@.subrange(i as int, chunks@.len() as int);
                assert(done + rest =~= chunks@);
                lemma_total_concat(done, rest);
                assert(rest.subrange(0, 1) =~= seq![metric]);
                assert(seq![metric] + rest.subrange(1, rest.len() as int) =~= rest);
                lemma_total_concat(seq![metric], rest.subrange(1, rest.len() as int));
                lemma_total_single(metric);
                lemma_total_bounds(rest.subrange(1, rest.len() as int));
                assert(done + seq![metric] =~= chunks@.subrange(0, i + 1));
            }
            root = join_opt(root, Some(Node::Leaf { metric }));
            i += 1;
        }
        assert(chunks@.subrange(0, i as int) =~= chunks@);
        BufferMetrics { root }
    }

    /// The leaves from first to last.
    pub fn leaves(&self) -> (leaves: Vec<Metric>)
        ensures
            leaves@ == self@,
    {
        let mut leaves: Vec<Metric> = Vec::new();
        match &self.root {
            Some(n) => {
                collect(n, &mut leaves);
                assert(leaves@ =~= n.leaves());
            },
            None => {},
        }
        leaves
    }

    /// The height of the tree: the number of inner nodes on the longest way
    /// from the root to a leaf, and `None` for the empty tree.
    pub fn height(&self) -> (h: Option<usize>)
        requires
            self.wf(),
        ensures
            match h {
                Some(h) => h == self.rank(),
                None => self.rank() == -1,
            },
    {
        match &self.root {
            Some(n) => Some(n.height()),
            None => None,
        }
    }

    /// The size of the whole text.
    pub fn len(&self) -> (m: Metric)
        requires
            self.wf(),
        ensures
            m@ == total(self@),
    {
        match &self.root {
            Some(n) => n.sum(),
            None => Metric::zero(),
        }
    }

    /// Finds the leaf that holds character number `pos`: the result is the sum
    /// of the leaves before that leaf, and the number of characters from the
    /// leaf's start to `pos`. At the end of the text it is the total and 0.
    pub fn search_char(&self, pos: usize) -> (found: (Metric, usize))
        requires
            self.wf(),
            pos <= total(self@).chars,
        ensures
            found.0@ == search_base(self@, pos as int),
            found.1 == pos - found.0.chars,
    {
        match &self.root {
            Some(n) => search(n, pos),
            None => (Metric::zero(), 0),
        }
    }

    /// Puts the leaves `chunks` in at position `at`, cutting the leaf that
    /// `at` falls into. The first of the chunks goes into the leaf before it
    /// where that leaf has room.
    pub fn insert(&mut self, at: Metric, chunks: &Vec<Metric>)
        requires
            old(self).wf(),
            admits(old(self)@, at@),
            valid_leaves(chunks@),
            total(old(self)@).bytes + total(chunks@).bytes <= usize::MAX,
        ensures
            final(self).wf(),
            final(self)@ == spliced(old(self)@, at@, chunks@),
    {
        let mut root: Option<Node> = None;
        std::mem::swap(&mut self.root, &mut root);
        let mid = BufferMetrics::build(chunks);
        proof {
            lemma_total_bounds(chunks@);
        }
        match root {
            None => {
                assert(spliced(old(self)@, at@, chunks@) =~= chunks@);
                self.root = mid.root;
            },
            Some(n) => {
                proof {
                    n.lemma_bounds();
                    lemma_cut_valid(n.leaves(), at@);
                    lemma_joined(before(n.leaves(), at@), chunks@, MAX_LEAF as int);
                }
                let (l, r) = split(n, at);
                let lm = glue(l, mid.root, MAX_LEAF);
                self.root = join_opt(lm, r);
            },
        }
    }

    /// Takes out what lies between the positions `begin` and `end`, cutting
    /// the leaves that they fall into. The two leaves that meet become one
    /// where they are small.
    pub fn delete(&mut self, begin: Metric, end: Metric)
        requires
            old(self).wf(),
            admits(old(self)@, begin@),
            admits(old(self)@, end@),
            begin.chars < end.chars,
            end.chars - begin.chars <= end.bytes - begin.bytes,
        ensures
            final(self).wf(),
            final(self)@ == excised(old(self)@, begin@, end@),
    {
        let mut root: Option<Node> = None;
        std::mem::swap(&mut self.root, &mut root);
        match root {
            None => {
                assert(excised(old(self)@, begin@, end@) =~= Seq::<Metric>::empty());
            },
            Some(n) => {
                proof {
                    n.lemma_bounds();
                    lemma_cut_valid(n.leaves(), end@);
                    lemma_cut_valid(n.leaves(), begin@);
                    lemma_before_before(n.leaves(), begin@, end@);
                }
                let (l, r) = split(n, end);
                match l {
                    None => {
                        proof {
                            lemma_total_bounds(before(n.leaves(), end@));
                        }
                        self.root = glue(None, r, LOW_WATER);
                    },
                    Some(ln) => {
                        let (a, _cut) = split(ln, begin);
                        self.root = glue(a, r, LOW_WATER);
                    },
                }
            },
        }
    }
}

} // verus!
