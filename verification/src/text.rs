//! Facts about UTF-8 byte sequences: character boundaries, character counts and
//! the byte offset of a character.
use vstd::prelude::*;
use vstd::utf8::{
    decode_utf8, encode_utf8, is_continuation_byte, length_of_first_scalar, pop_first_scalar,
    valid_utf8,
};

verus! {

/// The number of characters that the UTF-8 sequence `bytes` encodes.
pub open spec fn char_count(bytes: Seq<u8>) -> nat {
    decode_utf8(bytes).len()
}

/// Whether `i` is the start of a character of `bytes`, or its end: the byte
/// there, if there is one, is not of the form `10xxxxxx`.
pub open spec fn is_boundary(bytes: Seq<u8>, i: int) -> bool {
    0 <= i <= bytes.len() && (i < bytes.len() ==> !is_continuation_byte(bytes[i]))
}

/// Whether byte offset `b` is a boundary of `bytes` with exactly `c`
/// characters before it.
pub open spec fn is_position(bytes: Seq<u8>, b: int, c: int) -> bool {
    is_boundary(bytes, b) && char_count(bytes.subrange(0, b)) == c
}

/// The byte offset at which character number `c` of `bytes` starts.
pub open spec fn byte_of_char(bytes: Seq<u8>, c: int) -> int {
    encode_utf8(decode_utf8(bytes).subrange(0, c)).len() as int
}

/// The last boundary at or before `i`.
pub open spec fn snap_back(bytes: Seq<u8>, i: int) -> int
    decreases i,
{
    if i <= 0 {
        0
    } else if i >= bytes.len() {
        bytes.len() as int
    } else if !is_continuation_byte(bytes[i]) {
        i
    } else {
        snap_back(bytes, i - 1)
    }
}

/// The first boundary at or after `i`.
pub open spec fn snap_forward(bytes: Seq<u8>, i: int) -> int
    decreases bytes.len() - i,
{
    if i >= bytes.len() {
        bytes.len() as int
    } else if i < 0 {
        0
    } else if !is_continuation_byte(bytes[i]) {
        i
    } else {
        snap_forward(bytes, i + 1)
    }
}

/// A valid sequence starts with a byte that opens a character.
pub proof fn lemma_first_is_leading(bytes: Seq<u8>)
    requires
        valid_utf8(bytes),
        bytes.len() > 0,
    ensures
        !is_continuation_byte(bytes[0]),
        1 <= length_of_first_scalar(bytes) <= 4,
        length_of_first_scalar(bytes) <= bytes.len(),
        forall|j: int| 0 < j < length_of_first_scalar(bytes) ==> is_continuation_byte(bytes[j]),
{
}

/// On valid text the boundaries are the character boundaries of vstd.
pub proof fn lemma_boundary_is_char_boundary(bytes: Seq<u8>, i: int)
    requires
        valid_utf8(bytes),
    ensures
        is_boundary(bytes, i) <==> vstd::utf8::is_char_boundary(bytes, i),
{
    if 0 <= i < bytes.len() {
        vstd::utf8::is_char_boundary_iff_not_is_continuation_byte(bytes, i);
    } else if i == bytes.len() {
        vstd::utf8::is_char_boundary_start_end_of_seq(bytes);
    }
}

/// Valid text splits at a boundary into two valid texts, and decodes piecewise.
pub proof fn lemma_split(bytes: Seq<u8>, i: int)
    requires
        valid_utf8(bytes),
        is_boundary(bytes, i),
    ensures
        valid_utf8(bytes.subrange(0, i)),
        valid_utf8(bytes.subrange(i, bytes.len() as int)),
        decode_utf8(bytes) == decode_utf8(bytes.subrange(0, i)) + decode_utf8(
            bytes.subrange(i, bytes.len() as int),
        ),
        char_count(bytes) == char_count(bytes.subrange(0, i)) + char_count(
            bytes.subrange(i, bytes.len() as int),
        ),
{
    lemma_boundary_is_char_boundary(bytes, i);
    vstd::utf8::valid_utf8_split(bytes, i);
    vstd::utf8::decode_utf8_split(bytes, i);
}

/// Two valid texts make a valid text, which decodes piecewise.
pub proof fn lemma_concat(a: Seq<u8>, b: Seq<u8>)
    requires
        valid_utf8(a),
        valid_utf8(b),
    ensures
        valid_utf8(a + b),
        decode_utf8(a + b) == decode_utf8(a) + decode_utf8(b),
        char_count(a + b) == char_count(a) + char_count(b),
        is_boundary(a + b, a.len() as int),
{
    vstd::utf8::valid_utf8_concat(a, b);
    let t = a + b;
    assert(t.subrange(0, a.len() as int) =~= a);
    assert(t.subrange(a.len() as int, t.len() as int) =~= b);
    if b.len() > 0 {
        lemma_first_is_leading(b);
        assert(t[a.len() as int] == b[0]);
    }
    lemma_split(t, a.len() as int);
}

/// A character takes one to four bytes.
pub proof fn lemma_count_bounds(bytes: Seq<u8>)
    requires
        valid_utf8(bytes),
    ensures
        char_count(bytes) <= bytes.len() <= 4 * char_count(bytes),
        bytes.len() > 0 ==> char_count(bytes) >= 1,
    decreases bytes.len(),
{
    if bytes.len() > 0 {
        lemma_first_is_leading(bytes);
        lemma_count_bounds(pop_first_scalar(bytes));
    }
}

/// The text between two boundaries is valid, and the characters before the
/// second are those before the first and those between.
pub proof fn lemma_between(bytes: Seq<u8>, b1: int, b2: int)
    requires
        valid_utf8(bytes),
        is_boundary(bytes, b1),
        is_boundary(bytes, b2),
        b1 <= b2,
    ensures
        valid_utf8(bytes.subrange(0, b1)),
        valid_utf8(bytes.subrange(b1, b2)),
        valid_utf8(bytes.subrange(b2, bytes.len() as int)),
        decode_utf8(bytes.subrange(0, b2)) == decode_utf8(bytes.subrange(0, b1)) + decode_utf8(
            bytes.subrange(b1, b2),
        ),
        char_count(bytes.subrange(0, b2)) == char_count(bytes.subrange(0, b1)) + char_count(
            bytes.subrange(b1, b2),
        ),
{
    lemma_split(bytes, b2);
    let p = bytes.subrange(0, b2);
    lemma_split(p, b1);
    assert(p.subrange(0, b1) =~= bytes.subrange(0, b1));
    assert(p.subrange(b1, p.len() as int) =~= bytes.subrange(b1, b2));
}

/// Along the boundaries of a text, byte offsets and character counts grow
/// together.
pub proof fn lemma_position_order(bytes: Seq<u8>, b1: int, c1: int, b2: int, c2: int)
    requires
        valid_utf8(bytes),
        is_position(bytes, b1, c1),
        is_position(bytes, b2, c2),
    ensures
        b1 < b2 <==> c1 < c2,
        b1 == b2 <==> c1 == c2,
        b1 <= b2 ==> c2 - c1 <= b2 - b1 <= 4 * (c2 - c1),
{
    if b1 < b2 {
        lemma_between(bytes, b1, b2);
        lemma_count_bounds(bytes.subrange(b1, b2));
    } else if b2 < b1 {
        lemma_between(bytes, b2, b1);
        lemma_count_bounds(bytes.subrange(b2, b1));
    }
}

/// The whole text is a position, with all its characters before it, and so
/// is its start.
pub proof fn lemma_position_ends(bytes: Seq<u8>)
    requires
        valid_utf8(bytes),
    ensures
        is_position(bytes, 0, 0),
        is_position(bytes, bytes.len() as int, char_count(bytes) as int),
{
    assert(bytes.subrange(0, bytes.len() as int) =~= bytes);
    assert(bytes.subrange(0, 0) =~= Seq::<u8>::empty());
    if bytes.len() > 0 {
        lemma_first_is_leading(bytes);
    }
}

/// Encoding distributes over concatenation.
pub proof fn lemma_encode_concat(x: Seq<char>, y: Seq<char>)
    ensures
        encode_utf8(x + y) == encode_utf8(x) + encode_utf8(y),
    decreases x.len(),
{
    if x.len() == 0 {
        assert(x + y =~= y);
        assert(encode_utf8(x) + encode_utf8(y) =~= encode_utf8(y));
    } else {
        lemma_encode_concat(x.drop_first(), y);
        assert((x + y).drop_first() =~= x.drop_first() + y);
        assert(encode_utf8(x + y) =~= encode_utf8(x) + encode_utf8(y));
    }
}

/// Character number `c` of a valid text starts at `byte_of_char`, which is a
/// position with `c` characters before it.
pub proof fn lemma_byte_of_char(bytes: Seq<u8>, c: int)
    requires
        valid_utf8(bytes),
        0 <= c <= char_count(bytes),
    ensures
        is_position(bytes, byte_of_char(bytes, c), c),
        decode_utf8(bytes.subrange(0, byte_of_char(bytes, c))) == decode_utf8(bytes).subrange(0, c),
{
    let d = decode_utf8(bytes);
    let x = d.subrange(0, c);
    let y = d.subrange(c, d.len() as int);
    assert(d =~= x + y);
    lemma_encode_concat(x, y);
    vstd::utf8::decode_utf8_encode_utf8(bytes);
    let ex = encode_utf8(x);
    let ey = encode_utf8(y);
    vstd::utf8::encode_utf8_valid_utf8(x);
    vstd::utf8::encode_utf8_valid_utf8(y);
    vstd::utf8::encode_utf8_decode_utf8(x);
    assert(bytes.subrange(0, ex.len() as int) =~= ex);
    assert(bytes.subrange(ex.len() as int, bytes.len() as int) =~= ey);
    if ey.len() > 0 {
        lemma_first_is_leading(ey);
    }
}

/// A position cuts the decoded text where it cuts the bytes.
pub proof fn lemma_position_decode(bytes: Seq<u8>, b: int, c: int)
    requires
        valid_utf8(bytes),
        is_position(bytes, b, c),
    ensures
        0 <= c <= char_count(bytes),
        decode_utf8(bytes.subrange(0, b)) == decode_utf8(bytes).subrange(0, c),
        decode_utf8(bytes.subrange(b, bytes.len() as int)) == decode_utf8(bytes).subrange(
            c,
            char_count(bytes) as int,
        ),
        b == byte_of_char(bytes, c),
{
    lemma_split(bytes, b);
    let d = decode_utf8(bytes);
    let d1 = decode_utf8(bytes.subrange(0, b));
    let d2 = decode_utf8(bytes.subrange(b, bytes.len() as int));
    assert(d1 =~= d.subrange(0, c));
    assert(d2 =~= d.subrange(c, d.len() as int));
    lemma_byte_of_char(bytes, c);
    lemma_position_order(bytes, b, c, byte_of_char(bytes, c), c);
}

/// Every byte of a valid text lies in a character of at most four bytes: the
/// result is the character's start and end.
pub proof fn lemma_char_span(bytes: Seq<u8>, i: int) -> (span: (int, int))
    requires
        valid_utf8(bytes),
        0 <= i < bytes.len(),
    ensures
        0 <= span.0 <= i < span.1 <= bytes.len(),
        span.1 - span.0 <= 4,
        is_boundary(bytes, span.0),
        is_boundary(bytes, span.1),
        forall|j: int| span.0 < j < span.1 ==> is_continuation_byte(bytes[j]),
    decreases bytes.len(),
{
    lemma_first_is_leading(bytes);
    let n = length_of_first_scalar(bytes);
    let rest = pop_first_scalar(bytes);
    if i < n {
        if rest.len() > 0 {
            lemma_first_is_leading(rest);
            assert(rest[0] == bytes[n]);
        }
        (0, n)
    } else {
        let (s, e) = lemma_char_span(rest, i - n);
        assert forall|j: int| s + n < j < e + n implies is_continuation_byte(bytes[j]) by {
            assert(rest[j - n] == bytes[j]);
        }
        if e < rest.len() {
            assert(rest[e] == bytes[e + n]);
        }
        assert(rest[s] == bytes[s + n]);
        (s + n, e + n)
    }
}

/// Going back over continuation bytes ends at the byte that starts them.
proof fn lemma_snap_back_run(bytes: Seq<u8>, s: int, i: int)
    requires
        0 <= s <= i < bytes.len(),
        !is_continuation_byte(bytes[s]),
        forall|j: int| s < j <= i ==> is_continuation_byte(bytes[j]),
    ensures
        snap_back(bytes, i) == s,
    decreases i - s,
{
    if s < i {
        lemma_snap_back_run(bytes, s, i - 1);
    }
}

/// Going forward over continuation bytes ends at the boundary after them.
proof fn lemma_snap_forward_run(bytes: Seq<u8>, i: int, e: int)
    requires
        0 <= i <= e <= bytes.len(),
        is_boundary(bytes, e),
        forall|j: int| i <= j < e ==> is_continuation_byte(bytes[j]),
    ensures
        snap_forward(bytes, i) == e,
    decreases e - i,
{
    if i < e {
        lemma_snap_forward_run(bytes, i + 1, e);
    }
}

/// Snapping back lands on a boundary at most three bytes before.
pub proof fn lemma_snap_back(bytes: Seq<u8>, i: int)
    requires
        valid_utf8(bytes),
        0 <= i <= bytes.len(),
    ensures
        is_boundary(bytes, snap_back(bytes, i)),
        i - 3 <= snap_back(bytes, i) <= i,
        is_boundary(bytes, i) ==> snap_back(bytes, i) == i,
{
    if 0 < i < bytes.len() {
        let (s, e) = lemma_char_span(bytes, i);
        lemma_snap_back_run(bytes, s, i);
    }
}

/// Snapping forward lands on a boundary at most three bytes after.
pub proof fn lemma_snap_forward(bytes: Seq<u8>, i: int)
    requires
        valid_utf8(bytes),
        0 <= i <= bytes.len(),
    ensures
        is_boundary(bytes, snap_forward(bytes, i)),
        i <= snap_forward(bytes, i) <= i + 3,
        is_boundary(bytes, i) ==> snap_forward(bytes, i) == i,
{
    if i < bytes.len() {
        if is_continuation_byte(bytes[i]) {
            let (s, e) = lemma_char_span(bytes, i);
            lemma_snap_forward_run(bytes, i, e);
        }
    }
}

/// A position of the first of two joined texts is a position of the whole.
pub proof fn lemma_position_prefix(a: Seq<u8>, b: Seq<u8>, p: int, c: int)
    requires
        valid_utf8(a),
        valid_utf8(b),
        0 <= p <= a.len(),
    ensures
        is_position(a + b, p, c) <==> is_position(a, p, c),
{
    lemma_concat(a, b);
    assert((a + b).subrange(0, p) =~= a.subrange(0, p));
    if p < a.len() {
        assert((a + b)[p] == a[p]);
    }
}

/// A position of the second of two joined texts is a position of the whole,
/// moved by the size of the first.
pub proof fn lemma_position_suffix(a: Seq<u8>, b: Seq<u8>, p: int, c: int)
    requires
        valid_utf8(a),
        valid_utf8(b),
        0 <= p <= b.len(),
    ensures
        is_position(a + b, a.len() + p, char_count(a) + c) <==> is_position(b, p, c),
{
    lemma_concat(a, b);
    if p < b.len() {
        assert((a + b)[a.len() + p] == b[p]);
    }
    if is_boundary(b, p) {
        lemma_split(b, p);
        lemma_concat(a, b.subrange(0, p));
        assert((a + b).subrange(0, a.len() + p) =~= a + b.subrange(0, p));
    }
}

/// Counting `k` characters on from a position, within the text up to a later
/// boundary `e`, leads to the position with `k` characters more.
pub proof fn lemma_scan(bytes: Seq<u8>, p: int, cp: int, e: int, k: int)
    requires
        valid_utf8(bytes),
        is_position(bytes, p, cp),
        is_boundary(bytes, e),
        p <= e,
        0 <= k <= char_count(bytes.subrange(p, e)),
    ensures
        valid_utf8(bytes.subrange(p, e)),
        is_position(bytes, p + byte_of_char(bytes.subrange(p, e), k), cp + k),
        p + byte_of_char(bytes.subrange(p, e), k) <= e,
        k < char_count(bytes.subrange(p, e)) ==> p + byte_of_char(bytes.subrange(p, e), k) < e,
{
    lemma_between(bytes, p, e);
    let piece = bytes.subrange(p, e);
    let idx = byte_of_char(piece, k);
    lemma_byte_of_char(piece, k);
    lemma_position_ends(piece);
    lemma_position_order(piece, idx, k, piece.len() as int, char_count(piece) as int);
    lemma_split(piece, idx);
    lemma_concat(bytes.subrange(0, p), piece.subrange(0, idx));
    assert(bytes.subrange(0, p) + piece.subrange(0, idx) =~= bytes.subrange(0, p + idx));
    if idx < piece.len() {
        assert(piece[idx] == bytes[p + idx]);
    }
}

} // verus!
