//! The `(bytes, chars)` pair that measures a piece of text, and the
//! arithmetic of sequences of such pairs: the leaves of the index.
use crate::text::{char_count, is_position};
use vstd::prelude::*;
use vstd::utf8::valid_utf8;

verus! {

/// The largest number of bytes that one leaf of the index stands for.
pub const MAX_LEAF: usize = 64;

/// The most bytes that two leaves may hold together to become one leaf when a
/// removal brings them side by side.
pub const LOW_WATER: usize = 32;

/// A count of bytes together with the count of characters they encode. It
/// serves as the size of a piece of text and as a position in a text.
#[derive(Clone, Copy, Debug, PartialEq, Eq, Structural)]
pub struct Metric {
    pub bytes: usize,
    pub chars: usize,
}

/// A `Metric` over the integers: what positions and sums are in contracts.
pub struct Extent {
    pub bytes: int,
    pub chars: int,
}

impl Extent {
    /// The size of the empty text.
    pub open spec fn zero() -> Extent {
        Extent { bytes: 0, chars: 0 }
    }

    /// The componentwise sum.
    pub open spec fn plus(self, other: Extent) -> Extent {
        Extent { bytes: self.bytes + other.bytes, chars: self.chars + other.chars }
    }

    /// The componentwise difference.
    pub open spec fn minus(self, other: Extent) -> Extent {
        Extent { bytes: self.bytes - other.bytes, chars: self.chars - other.chars }
    }

    /// The metric with these counts, where they fit.
    pub open spec fn metric(self) -> Metric {
        Metric { bytes: self.bytes as usize, chars: self.chars as usize }
    }
}

impl View for Metric {
    type V = Extent;

    /// The two counts as integers.
    open spec fn view(&self) -> Extent {
        Extent { bytes: self.bytes as int, chars: self.chars as int }
    }
}

impl Metric {
    /// The size of the empty text.
    pub fn zero() -> (m: Metric)
        ensures
            m@ == Extent::zero(),
    {
        Metric { bytes: 0, chars: 0 }
    }

    /// The componentwise sum.
    pub fn plus(self, other: Metric) -> (m: Metric)
        requires
            self.bytes + other.bytes <= usize::MAX,
            self.chars + other.chars <= usize::MAX,
        ensures
            m@ == self@.plus(other@),
    {
        Metric { bytes: self.bytes + other.bytes, chars: self.chars + other.chars }
    }

    /// The componentwise difference.
    pub fn minus(self, other: Metric) -> (m: Metric)
        requires
            other.bytes <= self.bytes,
            other.chars <= self.chars,
        ensures
            m@ == self@.minus(other@),
    {
        Metric { bytes: self.bytes - other.bytes, chars: self.chars - other.chars }
    }
}

/// What a leaf of the index may hold: at least one character, no more
/// characters than bytes, and no more than `MAX_LEAF` bytes.
pub open spec fn valid_leaf(m: Metric) -> bool {
    1 <= m.chars <= m.bytes <= MAX_LEAF
}

/// Whether every leaf of the sequence is valid.
pub open spec fn valid_leaves(leaves: Seq<Metric>) -> bool {
    forall|i: int| 0 <= i < leaves.len() ==> valid_leaf(#[trigger] leaves[i])
}

/// The sum of a sequence of leaves.
pub open spec fn total(leaves: Seq<Metric>) -> Extent
    decreases leaves.len(),
{
    if leaves.len() == 0 {
        Extent::zero()
    } else {
        total(leaves.drop_last()).plus(leaves.last()@)
    }
}

/// The sum of the leaves that lie wholly before the leaf that holds character
/// number `pos`; the sum of all leaves where `pos` is at or past the end.
pub open spec fn search_base(leaves: Seq<Metric>, pos: int) -> Extent
    decreases leaves.len(),
{
    if leaves.len() == 0 {
        Extent::zero()
    } else {
        let base = total(leaves.drop_last());
        if pos >= base.chars + leaves.last().chars {
            base.plus(leaves.last()@)
        } else if pos >= base.chars {
            base
        } else {
            search_base(leaves.drop_last(), pos)
        }
    }
}

/// The leaves that describe the text before position `at`: the leaf that
/// `at` falls into is cut there.
pub open spec fn before(leaves: Seq<Metric>, at: Extent) -> Seq<Metric>
    decreases leaves.len(),
{
    if leaves.len() == 0 {
        leaves
    } else {
        let base = total(leaves.drop_last());
        if at.chars <= base.chars {
            before(leaves.drop_last(), at)
        } else if at.chars >= base.chars + leaves.last().chars {
            leaves
        } else {
            leaves.drop_last().push(at.minus(base).metric())
        }
    }
}

/// The leaves that describe the text from position `at` on.
pub open spec fn after(leaves: Seq<Metric>, at: Extent) -> Seq<Metric>
    decreases leaves.len(),
{
    if leaves.len() == 0 {
        leaves
    } else {
        let base = total(leaves.drop_last());
        if at.chars <= base.chars {
            after(leaves.drop_last(), at).push(leaves.last())
        } else if at.chars >= base.chars + leaves.last().chars {
            Seq::empty()
        } else {
            seq![base.plus(leaves.last()@).minus(at).metric()]
        }
    }
}

/// Whether `at` can be a position of a text that `leaves` describes: between
/// two leaves its byte count is the sum up to there, and inside a leaf it cuts
/// the leaf into two pieces with no more characters than bytes.
pub open spec fn admits(leaves: Seq<Metric>, at: Extent) -> bool
    decreases leaves.len(),
{
    if leaves.len() == 0 {
        at == Extent::zero()
    } else {
        let base = total(leaves.drop_last());
        let head = at.minus(base);
        let tail = leaves.last()@.minus(head);
        if at.chars <= base.chars {
            admits(leaves.drop_last(), at)
        } else if at.chars >= base.chars + leaves.last().chars {
            at == base.plus(leaves.last()@)
        } else {
            head.chars <= head.bytes && tail.chars <= tail.bytes
        }
    }
}

/// Two runs of leaves put together: where the last leaf of the first run and
/// the first leaf of the second hold no more than `limit` bytes together,
/// they become one leaf.
pub open spec fn joined(front: Seq<Metric>, back: Seq<Metric>, limit: int) -> Seq<Metric> {
    if front.len() > 0 && back.len() > 0 && front.last().bytes + back[0].bytes <= limit {
        front.drop_last().push(front.last()@.plus(back[0]@).metric()) + back.drop_first()
    } else {
        front + back
    }
}

/// The leaves after `chunks` have been put in at position `at`: the leaf that
/// `at` falls into is cut, and the first of the chunks goes into the leaf
/// before it where that leaf has room.
pub open spec fn spliced(leaves: Seq<Metric>, at: Extent, chunks: Seq<Metric>) -> Seq<Metric> {
    joined(before(leaves, at), chunks, MAX_LEAF as int) + after(leaves, at)
}

/// The leaves after what lies between the positions `lo` and `hi` has been
/// taken out: the leaves that the two fall into are cut, and the two that
/// meet become one where they are small.
pub open spec fn excised(leaves: Seq<Metric>, lo: Extent, hi: Extent) -> Seq<Metric> {
    joined(before(leaves, lo), after(leaves, hi), LOW_WATER as int)
}

/// Whether `bytes` is a piece of text of size `m`.
pub open spec fn is_chunk(bytes: Seq<u8>, m: Metric) -> bool {
    valid_utf8(bytes) && bytes.len() == m.bytes && char_count(bytes) == m.chars
}

/// Whether `leaves` describes `text`: cut into pieces of the leaves' byte
/// counts, one after another, each piece is valid UTF-8 with the leaf's
/// number of characters.
pub open spec fn describes(leaves: Seq<Metric>, text: Seq<u8>) -> bool
    decreases leaves.len(),
{
    if leaves.len() == 0 {
        text.len() == 0
    } else {
        let k = text.len() - leaves.last().bytes;
        &&& k >= 0
        &&& is_chunk(text.subrange(k, text.len() as int), leaves.last())
        &&& describes(leaves.drop_last(), text.subrange(0, k))
    }
}

/// No leaves sum to nothing.
pub proof fn lemma_total_empty()
    ensures
        total(Seq::<Metric>::empty()) == Extent::zero(),
{
}

/// A leaf more adds its size to the sum.
pub proof fn lemma_total_push(leaves: Seq<Metric>, m: Metric)
    ensures
        total(leaves.push(m)) == total(leaves).plus(m@),
{
    assert(leaves.push(m).drop_last() =~= leaves);
}

/// One leaf sums to its own size.
pub proof fn lemma_total_single(m: Metric)
    ensures
        total(seq![m]) == m@,
{
    assert(seq![m] =~= Seq::<Metric>::empty().push(m));
    lemma_total_push(Seq::empty(), m);
}

/// The sum of two sequences joined is the sum of their sums.
pub proof fn lemma_total_concat(a: Seq<Metric>, b: Seq<Metric>)
    ensures
        total(a + b) == total(a).plus(total(b)),
    decreases b.len(),
{
    if b.len() == 0 {
        assert(a + b =~= a);
    } else {
        lemma_total_concat(a, b.drop_last());
        assert((a + b).drop_last() =~= a + b.drop_last());
    }
}

/// Valid leaves hold at least one character each, and no more characters
/// than bytes.
pub proof fn lemma_total_bounds(leaves: Seq<Metric>)
    requires
        valid_leaves(leaves),
    ensures
        leaves.len() <= total(leaves).chars <= total(leaves).bytes,
    decreases leaves.len(),
{
    if leaves.len() > 0 {
        lemma_total_bounds(leaves.drop_last());
    }
}

/// A search among `a + b` for a character that lies in `a` is a search in `a`.
pub proof fn lemma_search_left(a: Seq<Metric>, b: Seq<Metric>, pos: int)
    requires
        valid_leaves(b),
        pos < total(a).chars,
    ensures
        search_base(a + b, pos) == search_base(a, pos),
    decreases b.len(),
{
    if b.len() == 0 {
        assert(a + b =~= a);
    } else {
        lemma_total_concat(a, b.drop_last());
        lemma_total_bounds(b.drop_last());
        assert((a + b).drop_last() =~= a + b.drop_last());
        lemma_search_left(a, b.drop_last(), pos);
    }
}

/// A search among `a + b` for a character at or past the end of `a` is a
/// search in `b`, moved by the size of `a`.
pub proof fn lemma_search_right(a: Seq<Metric>, b: Seq<Metric>, pos: int)
    requires
        pos >= total(a).chars,
    ensures
        search_base(a + b, pos) == total(a).plus(search_base(b, pos - total(a).chars)),
    decreases b.len(),
{
    if b.len() == 0 {
        assert(a + b =~= a);
    } else {
        lemma_total_concat(a, b.drop_last());
        assert((a + b).drop_last() =~= a + b.drop_last());
        lemma_search_right(a, b.drop_last(), pos);
    }
}

/// A cut of `a + b` at a position in `a` is a cut of `a`.
pub proof fn lemma_cut_left(a: Seq<Metric>, b: Seq<Metric>, at: Extent)
    requires
        valid_leaves(b),
        at.chars <= total(a).chars,
    ensures
        before(a + b, at) == before(a, at),
        after(a + b, at) == after(a, at) + b,
        admits(a + b, at) == admits(a, at),
    decreases b.len(),
{
    if b.len() == 0 {
        assert(a + b =~= a);
        assert(after(a, at) + b =~= after(a, at));
    } else {
        lemma_total_concat(a, b.drop_last());
        lemma_total_bounds(b.drop_last());
        assert((a + b).drop_last() =~= a + b.drop_last());
        lemma_cut_left(a, b.drop_last(), at);
        assert((after(a, at) + b.drop_last()).push(b.last()) =~= after(a, at) + b);
    }
}

/// A cut of `a + b` at a position past `a` is a cut of `b`.
pub proof fn lemma_cut_right(a: Seq<Metric>, b: Seq<Metric>, at: Extent)
    requires
        at.chars > total(a).chars,
    ensures
        before(a + b, at) == a + before(b, at.minus(total(a))),
        after(a + b, at) == after(b, at.minus(total(a))),
        admits(a + b, at) == admits(b, at.minus(total(a))),
    decreases b.len(),
{
    let rel = at.minus(total(a));
    if b.len() == 0 {
        assert(a + b =~= a);
    } else {
        let base = total(b.drop_last());
        lemma_total_concat(a, b.drop_last());
        assert((a + b).drop_last() =~= a + b.drop_last());
        if rel.chars <= base.chars {
            lemma_cut_right(a, b.drop_last(), at);
        } else if rel.chars >= base.chars + b.last().chars {
            assert(before(a + b, at) =~= a + b);
        } else {
            assert((a + b.drop_last()).push(rel.minus(base).metric()) =~= a + b.drop_last().push(
                rel.minus(base).metric(),
            ));
        }
    }
}

/// Where `leaves` admits `at`, the two sides of the cut are valid leaves, the
/// first of size `at` and the second of the rest.
pub proof fn lemma_cut_valid(leaves: Seq<Metric>, at: Extent)
    requires
        valid_leaves(leaves),
        admits(leaves, at),
    ensures
        valid_leaves(before(leaves, at)),
        valid_leaves(after(leaves, at)),
        total(before(leaves, at)) == at,
        total(after(leaves, at)) == total(leaves).minus(at),
        0 <= at.chars <= total(leaves).chars,
        0 <= at.bytes <= total(leaves).bytes,
    decreases leaves.len(),
{
    if leaves.len() > 0 {
        let rest = leaves.drop_last();
        let last = leaves.last();
        let base = total(rest);
        lemma_total_bounds(rest);
        if at.chars <= base.chars {
            lemma_cut_valid(rest, at);
            lemma_total_push(after(rest, at), last);
        } else if at.chars >= base.chars + last.chars {
            lemma_total_empty();
        } else {
            let head = at.minus(base).metric();
            let tail = base.plus(last@).minus(at).metric();
            lemma_total_push(rest, head);
            lemma_total_single(tail);
        }
    }
}

/// A cut before a later cut is a cut of what the later cut left before it.
pub proof fn lemma_before_before(leaves: Seq<Metric>, b: Extent, e: Extent)
    requires
        valid_leaves(leaves),
        admits(leaves, b),
        admits(leaves, e),
        b.chars < e.chars,
        e.chars - b.chars <= e.bytes - b.bytes,
    ensures
        admits(before(leaves, e), b),
        before(before(leaves, e), b) == before(leaves, b),
    decreases leaves.len(),
{
    if leaves.len() > 0 {
        let rest = leaves.drop_last();
        let base = total(rest);
        if e.chars <= base.chars {
            lemma_before_before(rest, b, e);
        } else if e.chars >= base.chars + leaves.last().chars {
        } else {
            let head = e.minus(base).metric();
            assert(rest.push(head).drop_last() =~= rest);
        }
    }
}

/// A description of a text gives the text's size, and the text is valid.
pub proof fn lemma_describes_total(leaves: Seq<Metric>, text: Seq<u8>)
    requires
        describes(leaves, text),
    ensures
        valid_utf8(text),
        total(leaves) == (Extent { bytes: text.len() as int, chars: char_count(text) as int }),
    decreases leaves.len(),
{
    if leaves.len() > 0 {
        let k = text.len() - leaves.last().bytes;
        let head = text.subrange(0, k);
        let tail = text.subrange(k, text.len() as int);
        lemma_describes_total(leaves.drop_last(), head);
        crate::text::lemma_concat(head, tail);
        assert(head + tail =~= text);
    }
}

/// A description extended by a leaf describes the text extended by a chunk of
/// the leaf's size.
pub proof fn lemma_describes_push(leaves: Seq<Metric>, text: Seq<u8>, m: Metric, chunk: Seq<u8>)
    requires
        describes(leaves, text),
        is_chunk(chunk, m),
    ensures
        describes(leaves.push(m), text + chunk),
{
    let all = text + chunk;
    assert(leaves.push(m).drop_last() =~= leaves);
    assert(all.subrange(text.len() as int, all.len() as int) =~= chunk);
    assert(all.subrange(0, text.len() as int) =~= text);
}

/// Two descriptions, one after the other, describe the two texts joined.
pub proof fn lemma_describes_concat(a: Seq<Metric>, ta: Seq<u8>, b: Seq<Metric>, tb: Seq<u8>)
    requires
        describes(a, ta),
        describes(b, tb),
    ensures
        describes(a + b, ta + tb),
    decreases b.len(),
{
    if b.len() == 0 {
        assert(a + b =~= a);
        assert(ta + tb =~= ta);
    } else {
        let k = tb.len() - b.last().bytes;
        lemma_describes_concat(a, ta, b.drop_last(), tb.subrange(0, k));
        lemma_describes_push(
            a + b.drop_last(),
            ta + tb.subrange(0, k),
            b.last(),
            tb.subrange(k, tb.len() as int),
        );
        assert((a + b.drop_last()).push(b.last()) =~= a + b);
        assert(ta + tb.subrange(0, k) + tb.subrange(k, tb.len() as int) =~= ta + tb);
    }
}

/// A description of a text starts with a leaf for the first chunk of the
/// text, and goes on with a description of the rest.
pub proof fn lemma_describes_first(leaves: Seq<Metric>, text: Seq<u8>)
    requires
        describes(leaves, text),
        leaves.len() > 0,
    ensures
        leaves[0].bytes <= text.len(),
        is_chunk(text.subrange(0, leaves[0].bytes as int), leaves[0]),
        describes(leaves.drop_first(), text.subrange(leaves[0].bytes as int, text.len() as int)),
    decreases leaves.len(),
{
    let n = text.len() as int;
    let k = n - leaves.last().bytes;
    let first = leaves[0].bytes as int;
    if leaves.len() == 1 {
        reveal_with_fuel(describes, 2);
        assert(text.subrange(0, k).len() == 0);
        assert(text.subrange(0, n) =~= text);
        assert(text.subrange(k, n) =~= text);
        assert(leaves.drop_first() =~= Seq::<Metric>::empty());
    } else {
        let head = text.subrange(0, k);
        lemma_describes_first(leaves.drop_last(), head);
        assert(head.subrange(0, first) =~= text.subrange(0, first));
        lemma_describes_push(
            leaves.drop_last().drop_first(),
            head.subrange(first, k),
            leaves.last(),
            text.subrange(k, n),
        );
        assert(leaves.drop_last().drop_first().push(leaves.last()) =~= leaves.drop_first());
        assert(head.subrange(first, k) + text.subrange(k, n) =~= text.subrange(first, n));
    }
}

/// The first leaf ends at a position that the leaves admit, and a cut there
/// parts it from the rest.
pub proof fn lemma_cut_first(leaves: Seq<Metric>)
    requires
        valid_leaves(leaves),
        leaves.len() > 0,
    ensures
        admits(leaves, leaves[0]@),
        before(leaves, leaves[0]@) == seq![leaves[0]],
        after(leaves, leaves[0]@) == leaves.drop_first(),
    decreases leaves.len(),
{
    if leaves.len() == 1 {
        assert(leaves.drop_last() =~= Seq::<Metric>::empty());
        assert(leaves =~= seq![leaves[0]]);
        assert(leaves.drop_first() =~= Seq::<Metric>::empty());
    } else {
        let rest = leaves.drop_last();
        lemma_cut_first(rest);
        assert(rest =~= seq![leaves[0]] + rest.drop_first());
        lemma_total_concat(seq![leaves[0]], rest.drop_first());
        lemma_total_single(leaves[0]);
        lemma_total_bounds(rest.drop_first());
        assert(rest.drop_first().push(leaves.last()) =~= leaves.drop_first());
    }
}

/// Putting two runs of valid leaves together gives valid leaves with the sum
/// of the two sums.
pub proof fn lemma_joined(front: Seq<Metric>, back: Seq<Metric>, limit: int)
    requires
        valid_leaves(front),
        valid_leaves(back),
        limit <= MAX_LEAF,
    ensures
        valid_leaves(joined(front, back, limit)),
        total(joined(front, back, limit)) == total(front).plus(total(back)),
{
    lemma_total_concat(front, back);
    if front.len() > 0 && back.len() > 0 && front.last().bytes + back[0].bytes <= limit {
        let one = front.last()@.plus(back[0]@).metric();
        lemma_total_push(front.drop_last(), one);
        lemma_total_concat(front.drop_last().push(one), back.drop_first());
        assert(back =~= seq![back[0]] + back.drop_first());
        lemma_total_concat(seq![back[0]], back.drop_first());
        lemma_total_single(back[0]);
    }
}

/// Two descriptions put together describe the two texts joined.
pub proof fn lemma_describes_joined(
    front: Seq<Metric>,
    text_front: Seq<u8>,
    back: Seq<Metric>,
    text_back: Seq<u8>,
    limit: int,
)
    requires
        describes(front, text_front),
        describes(back, text_back),
        limit <= MAX_LEAF,
    ensures
        describes(joined(front, back, limit), text_front + text_back),
{
    if front.len() > 0 && back.len() > 0 && front.last().bytes + back[0].bytes <= limit {
        lemma_describes_first(back, text_back);
        let one = front.last()@.plus(back[0]@).metric();
        let k = text_front.len() - front.last().bytes;
        let first = back[0].bytes as int;
        let left = text_front.subrange(k, text_front.len() as int);
        let right = text_back.subrange(0, first);
        crate::text::lemma_concat(left, right);
        crate::text::lemma_count_bounds(left);
        crate::text::lemma_count_bounds(right);
        lemma_describes_push(front.drop_last(), text_front.subrange(0, k), one, left + right);
        lemma_describes_concat(
            front.drop_last().push(one),
            text_front.subrange(0, k) + (left + right),
            back.drop_first(),
            text_back.subrange(first, text_back.len() as int),
        );
        assert(text_front.subrange(0, k) + (left + right) + text_back.subrange(
            first,
            text_back.len() as int,
        ) =~= text_front + text_back);
    } else {
        lemma_describes_concat(front, text_front, back, text_back);
    }
}

/// A description of a text admits every position of the text, and its two
/// sides at that position describe the text before and after it.
pub proof fn lemma_describes_cut(leaves: Seq<Metric>, text: Seq<u8>, b: int, c: int)
    requires
        valid_leaves(leaves),
        describes(leaves, text),
        is_position(text, b, c),
    ensures
        admits(leaves, Extent { bytes: b, chars: c }),
        describes(before(leaves, Extent { bytes: b, chars: c }), text.subrange(0, b)),
        describes(
            after(leaves, Extent { bytes: b, chars: c }),
            text.subrange(b, text.len() as int),
        ),
    decreases leaves.len(),
{
    let at = Extent { bytes: b, chars: c };
    let n = text.len() as int;
    lemma_describes_total(leaves, text);
    if leaves.len() == 0 {
        assert(text.subrange(0, b) =~= text);
        assert(text.subrange(b, n) =~= text);
    } else {
        let rest = leaves.drop_last();
        let last = leaves.last();
        let k = n - last.bytes;
        let head = text.subrange(0, k);
        let tail = text.subrange(k, n);
        let base = total(rest);
        lemma_describes_total(rest, head);
        crate::text::lemma_first_is_leading(tail);
        assert(tail[0] == text[k]);
        assert(is_position(text, k, base.chars));
        crate::text::lemma_position_ends(text);
        crate::text::lemma_position_order(text, b, c, k, base.chars);
        crate::text::lemma_position_order(text, b, c, n, char_count(text) as int);
        if c <= base.chars {
            assert(head.subrange(0, b) =~= text.subrange(0, b));
            lemma_describes_cut(rest, head, b, c);
            lemma_describes_push(after(rest, at), head.subrange(b, k), last, tail);
            assert(head.subrange(b, k) + tail =~= text.subrange(b, n));
        } else if c >= base.chars + last.chars {
            assert(text.subrange(0, b) =~= text);
            assert(text.subrange(b, n).len() == 0);
        } else {
            crate::text::lemma_between(text, k, b);
            crate::text::lemma_split(text, b);
            let first = text.subrange(k, b);
            let second = text.subrange(b, n);
            crate::text::lemma_count_bounds(first);
            crate::text::lemma_count_bounds(second);
            lemma_describes_push(rest, head, at.minus(base).metric(), first);
            assert(head + first =~= text.subrange(0, b));
            let piece = base.plus(last@).minus(at).metric();
            assert(describes(Seq::<Metric>::empty(), Seq::<u8>::empty()));
            lemma_describes_push(Seq::empty(), Seq::empty(), piece, second);
            assert(Seq::<Metric>::empty().push(piece) =~= seq![piece]);
            assert(Seq::<u8>::empty() + second =~= second);
        }
    }
}

/// In a description of a text, the place that a search gives is a position of
/// the text, at or before the character searched for.
pub proof fn lemma_describes_search(leaves: Seq<Metric>, text: Seq<u8>, pos: int)
    requires
        valid_leaves(leaves),
        describes(leaves, text),
        0 <= pos <= char_count(text),
    ensures
        is_position(text, search_base(leaves, pos).bytes, search_base(leaves, pos).chars),
        search_base(leaves, pos).chars <= pos,
    decreases leaves.len(),
{
    let n = text.len() as int;
    lemma_describes_total(leaves, text);
    crate::text::lemma_position_ends(text);
    if leaves.len() > 0 {
        let rest = leaves.drop_last();
        let last = leaves.last();
        let k = n - last.bytes;
        let head = text.subrange(0, k);
        let tail = text.subrange(k, n);
        let base = total(rest);
        lemma_describes_total(rest, head);
        crate::text::lemma_first_is_leading(tail);
        assert(tail[0] == text[k]);
        if pos >= base.chars + last.chars {
        } else if pos >= base.chars {
        } else {
            lemma_describes_search(rest, head, pos);
            let s = search_base(rest, pos);
            crate::text::lemma_position_ends(head);
            crate::text::lemma_position_order(head, s.bytes, s.chars, k, base.chars);
            assert(head.subrange(0, s.bytes) =~= text.subrange(0, s.bytes));
        }
    }
}

} // verus!
