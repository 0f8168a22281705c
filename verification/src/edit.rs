//! What insertion and removal do to a text, and to the positions in it.
use crate::metric::{
    after, before, describes, excised, joined, lemma_cut_valid, lemma_describes_concat,
    lemma_describes_cut, lemma_describes_joined, lemma_joined, lemma_total_concat, spliced, total,
    valid_leaves, Extent, Metric, LOW_WATER, MAX_LEAF,
};
use crate::text::{
    char_count, is_position, lemma_between, lemma_concat, lemma_position_decode,
    lemma_position_ends, lemma_position_prefix, lemma_position_suffix, lemma_split,
};
use vstd::prelude::*;
use vstd::utf8::{decode_utf8, valid_utf8};

verus! {

/// `text` with `piece` put in before element number `at`.
pub open spec fn inserted<T>(text: Seq<T>, at: int, piece: Seq<T>) -> Seq<T> {
    text.subrange(0, at) + piece + text.subrange(at, text.len() as int)
}

/// `text` without the elements from number `lo` up to, not including, `hi`.
pub open spec fn removed<T>(text: Seq<T>, lo: int, hi: int) -> Seq<T> {
    text.subrange(0, lo) + text.subrange(hi, text.len() as int)
}

/// Where a cursor stands after the removal of `lo..hi`: a cursor inside the
/// range falls to its start, one after it moves back by its length.
pub open spec fn cursor_after_removal(cursor: int, lo: int, hi: int) -> int {
    if cursor <= lo {
        cursor
    } else if cursor >= hi {
        cursor - (hi - lo)
    } else {
        lo
    }
}

/// Inserting valid bytes at a position gives valid text, whose characters
/// are those of the text with those of the piece inserted.
pub proof fn lemma_insert_bytes(text: Seq<u8>, b: int, c: int, piece: Seq<u8>)
    requires
        valid_utf8(text),
        is_position(text, b, c),
        valid_utf8(piece),
    ensures
        valid_utf8(inserted(text, b, piece)),
        decode_utf8(inserted(text, b, piece)) == inserted(decode_utf8(text), c, decode_utf8(piece)),
        char_count(inserted(text, b, piece)) == char_count(text) + char_count(piece),
        valid_utf8(text.subrange(0, b) + piece),
        char_count(text.subrange(0, b) + piece) == c + char_count(piece),
        valid_utf8(text.subrange(b, text.len() as int)),
{
    let head = text.subrange(0, b);
    let tail = text.subrange(b, text.len() as int);
    lemma_split(text, b);
    lemma_position_decode(text, b, c);
    lemma_concat(head, piece);
    lemma_concat(head + piece, tail);
}

/// A position of a text is a position of the text with a piece inserted:
/// the same one where it lies at or before the insertion, and the one moved
/// by the piece's size where it lies at or after it.
pub proof fn lemma_insert_position(
    text: Seq<u8>,
    b: int,
    c: int,
    piece: Seq<u8>,
    p: int,
    cp: int,
)
    requires
        valid_utf8(text),
        is_position(text, b, c),
        valid_utf8(piece),
        is_position(text, p, cp),
    ensures
        p <= b ==> is_position(inserted(text, b, piece), p, cp),
        p >= b ==> is_position(
            inserted(text, b, piece),
            p + piece.len(),
            cp + char_count(piece),
        ),
{
    let head = text.subrange(0, b);
    let tail = text.subrange(b, text.len() as int);
    lemma_split(text, b);
    lemma_concat(head, piece);
    lemma_concat(piece, tail);
    assert(head + tail =~= text);
    assert(inserted(text, b, piece) =~= head + (piece + tail));
    if p <= b {
        lemma_position_prefix(head, tail, p, cp);
        lemma_position_prefix(head, piece + tail, p, cp);
    }
    if p >= b {
        lemma_position_suffix(head, tail, p - b, cp - c);
        lemma_position_suffix(head + piece, tail, p - b, cp - c);
    }
}

/// Removing the bytes between two positions gives valid text, whose
/// characters are those of the text without those between the positions.
pub proof fn lemma_remove_bytes(text: Seq<u8>, b1: int, c1: int, b2: int, c2: int)
    requires
        valid_utf8(text),
        is_position(text, b1, c1),
        is_position(text, b2, c2),
        b1 <= b2,
    ensures
        valid_utf8(removed(text, b1, b2)),
        decode_utf8(removed(text, b1, b2)) == removed(decode_utf8(text), c1, c2),
        char_count(removed(text, b1, b2)) == char_count(text) - (c2 - c1),
        c1 <= c2 <= char_count(text),
        valid_utf8(text.subrange(0, b1)),
        valid_utf8(text.subrange(b2, text.len() as int)),
        is_position(removed(text, b1, b2), b1, c1),
{
    let head = text.subrange(0, b1);
    let tail = text.subrange(b2, text.len() as int);
    lemma_between(text, b1, b2);
    lemma_position_decode(text, b1, c1);
    lemma_position_decode(text, b2, c2);
    lemma_concat(head, tail);
    lemma_position_ends(head);
    lemma_position_prefix(head, tail, b1, c1);
}

/// A position of a text outside a removed range is a position of what is
/// left: the same one before the range, and the one moved back by the
/// range's size after it.
pub proof fn lemma_remove_position(
    text: Seq<u8>,
    b1: int,
    c1: int,
    b2: int,
    c2: int,
    p: int,
    cp: int,
)
    requires
        valid_utf8(text),
        is_position(text, b1, c1),
        is_position(text, b2, c2),
        b1 <= b2,
        is_position(text, p, cp),
    ensures
        p <= b1 ==> is_position(removed(text, b1, b2), p, cp),
        p >= b2 ==> is_position(removed(text, b1, b2), p - (b2 - b1), cp - (c2 - c1)),
{
    let head = text.subrange(0, b1);
    let mid = text.subrange(b1, b2);
    let tail = text.subrange(b2, text.len() as int);
    lemma_between(text, b1, b2);
    lemma_concat(head, mid);
    lemma_concat(head, tail);
    assert(head + mid =~= text.subrange(0, b2));
    assert((head + mid) + tail =~= text);
    assert(text.subrange(0, b1) + text.subrange(b1, text.len() as int) =~= text);
    lemma_split(text, b1);
    if p <= b1 {
        lemma_position_prefix(head, text.subrange(b1, text.len() as int), p, cp);
        lemma_position_prefix(head, tail, p, cp);
    }
    if p >= b2 {
        lemma_position_suffix(head + mid, tail, p - b2, cp - c2);
        lemma_position_suffix(head, tail, p - b2, cp - c2);
    }
}

/// The leaves of an index of a text, with the leaves of a piece put in at a
/// position, are an index of the text with the piece inserted.
pub proof fn lemma_insert_index(
    leaves: Seq<Metric>,
    text: Seq<u8>,
    b: int,
    c: int,
    chunks: Seq<Metric>,
    piece: Seq<u8>,
)
    requires
        valid_leaves(leaves),
        describes(leaves, text),
        is_position(text, b, c),
        valid_leaves(chunks),
        describes(chunks, piece),
    ensures
        ({
            let merged = spliced(leaves, Extent { bytes: b, chars: c }, chunks);
            &&& valid_leaves(merged)
            &&& describes(merged, inserted(text, b, piece))
            &&& total(merged) == total(leaves).plus(total(chunks))
        }),
{
    let at = Extent { bytes: b, chars: c };
    let limit = MAX_LEAF as int;
    let front = joined(before(leaves, at), chunks, limit);
    lemma_describes_cut(leaves, text, b, c);
    lemma_cut_valid(leaves, at);
    lemma_joined(before(leaves, at), chunks, limit);
    lemma_describes_joined(before(leaves, at), text.subrange(0, b), chunks, piece, limit);
    lemma_describes_concat(
        front,
        text.subrange(0, b) + piece,
        after(leaves, at),
        text.subrange(b, text.len() as int),
    );
    lemma_total_concat(front, after(leaves, at));
}

/// The leaves of an index of a text, without what lies between two
/// positions, are an index of the text without the bytes between them.
pub proof fn lemma_remove_index(
    leaves: Seq<Metric>,
    text: Seq<u8>,
    b1: int,
    c1: int,
    b2: int,
    c2: int,
)
    requires
        valid_leaves(leaves),
        describes(leaves, text),
        is_position(text, b1, c1),
        is_position(text, b2, c2),
        b1 <= b2,
    ensures
        ({
            let lo = Extent { bytes: b1, chars: c1 };
            let hi = Extent { bytes: b2, chars: c2 };
            let merged = excised(leaves, lo, hi);
            &&& valid_leaves(merged)
            &&& describes(merged, removed(text, b1, b2))
            &&& total(merged) == total(leaves).minus(hi.minus(lo))
        }),
{
    let lo = Extent { bytes: b1, chars: c1 };
    let hi = Extent { bytes: b2, chars: c2 };
    let limit = LOW_WATER as int;
    lemma_describes_cut(leaves, text, b1, c1);
    lemma_describes_cut(leaves, text, b2, c2);
    lemma_cut_valid(leaves, lo);
    lemma_cut_valid(leaves, hi);
    lemma_joined(before(leaves, lo), after(leaves, hi), limit);
    lemma_describes_joined(
        before(leaves, lo),
        text.subrange(0, b1),
        after(leaves, hi),
        text.subrange(b2, text.len() as int),
        limit,
    );
}

/// The start of the range that `delete_range` removes: the smaller of its
/// two arguments, but no more than the length of the text.
pub open spec fn range_lo(beg: int, end: int, len: int) -> int {
    let lo = if beg <= end {
        beg
    } else {
        end
    };
    if lo <= len {
        lo
    } else {
        len
    }
}

/// The end of the range that `delete_range` removes: the larger of its two
/// arguments, but no more than the length of the text.
pub open spec fn range_hi(beg: int, end: int, len: int) -> int {
    let hi = if beg <= end {
        end
    } else {
        beg
    };
    if hi <= len {
        hi
    } else {
        len
    }
}

/// Removing what was just inserted gives back the text, and takes the
/// cursor that the insertion left after the piece back to where it was. This
/// is what `insert` followed by `delete_backwards` of the piece's length does.
pub proof fn lemma_insert_then_delete_backwards<T>(text: Seq<T>, cursor: int, piece: Seq<T>)
    requires
        0 <= cursor <= text.len(),
    ensures
        removed(inserted(text, cursor, piece), cursor, cursor + piece.len()) == text,
        cursor_after_removal(cursor + piece.len(), cursor, cursor + piece.len()) == cursor,
{
    assert(removed(inserted(text, cursor, piece), cursor, cursor + piece.len()) =~= text);
}

} // verus!
