//! Incremental UTF-8 assembly for streamed token pieces.
//!
//! Token ids do not map one-to-one to Unicode scalar values, so the bytes of
//! a decoded token may end in the middle of a character. The stream decoder
//! buffers raw bytes and, on each push, hands back the longest prefix of the
//! buffer that is a complete UTF-8 encoding; the remainder stays buffered
//! until later bytes complete it or the stream is flushed.

use vstd::prelude::*;
use vstd::utf8::*;

verus! {

/// Width in bytes of the scalar encoding announced by a leading byte,
/// or zero when the byte cannot lead an encoding.
pub open spec fn leading_width(b0: u8) -> int {
    if is_leading_byte_width_1(b0) {
        1
    } else if is_leading_byte_width_2(b0) {
        2
    } else if is_leading_byte_width_3(b0) {
        3
    } else if is_leading_byte_width_4(b0) {
        4
    } else {
        0
    }
}

/// True when `s` starts with a well-formed UTF-8 encoding of one scalar,
/// phrased as the byte-range table that executable validators use.
pub open spec fn starts_with_scalar(s: Seq<u8>) -> bool {
    &&& s.len() >= 1
    &&& {
        ||| s[0] < 0x80
        ||| (0xc2 <= s[0] <= 0xdf && s.len() >= 2 && is_continuation_byte(s[1]))
        ||| (s[0] == 0xe0 && s.len() >= 3 && 0xa0 <= s[1] <= 0xbf && is_continuation_byte(s[2]))
        ||| (0xe1 <= s[0] <= 0xec && s.len() >= 3 && is_continuation_byte(s[1])
            && is_continuation_byte(s[2]))
        ||| (s[0] == 0xed && s.len() >= 3 && 0x80 <= s[1] <= 0x9f && is_continuation_byte(s[2]))
        ||| (0xee <= s[0] <= 0xef && s.len() >= 3 && is_continuation_byte(s[1])
            && is_continuation_byte(s[2]))
        ||| (s[0] == 0xf0 && s.len() >= 4 && 0x90 <= s[1] <= 0xbf && is_continuation_byte(s[2])
            && is_continuation_byte(s[3]))
        ||| (0xf1 <= s[0] <= 0xf3 && s.len() >= 4 && is_continuation_byte(s[1])
            && is_continuation_byte(s[2]) && is_continuation_byte(s[3]))
        ||| (s[0] == 0xf4 && s.len() >= 4 && 0x80 <= s[1] <= 0x8f && is_continuation_byte(s[2])
            && is_continuation_byte(s[3]))
    }
}

/// The byte-range table recognises exactly the well-formed scalar encodings.
pub proof fn lemma_scalar_table(s: Seq<u8>)
    ensures
        starts_with_scalar(s) <==> valid_first_scalar(s),
        valid_first_scalar(s) ==> 1 <= length_of_first_scalar(s) == leading_width(s[0]) <= s.len(),
{
    if s.len() == 0 {
        return ;
    }
    let b0 = s[0];
    if b0 < 0x80 {
        assert((b0 & 0x7f) as u32 <= 0x7f) by (bit_vector);
    } else if b0 < 0xc0 {
        // a bare continuation byte leads nothing
    } else if b0 <= 0xdf {
        if s.len() >= 2 && is_continuation_byte(s[1]) {
            let b1 = s[1];
            assert(codepoint_width_2(b0, b1) == (((b0 & 0x1f) as u32) << 6) | ((b1
                & 0x3f) as u32));
            assert((0xc0 <= b0 <= 0xdf && 0x80 <= b1 <= 0xbf) ==> (((((b0 & 0x1f) as u32) << 6) | (
            (b1 & 0x3f) as u32)) >= 0x80 <==> b0 >= 0xc2)) by (bit_vector);
            assert((0xc0 <= b0 <= 0xdf && 0x80 <= b1 <= 0xbf) ==> ((((b0 & 0x1f) as u32) << 6) | ((
            b1 & 0x3f) as u32)) <= 0x7ff) by (bit_vector);
        }
    } else if b0 <= 0xef {
        if s.len() >= 3 && is_continuation_byte(s[1]) && is_continuation_byte(s[2]) {
            let b1 = s[1];
            let b2 = s[2];
            assert(codepoint_width_3(b0, b1, b2) == (((b0 & 0x0f) as u32) << 12) | (((b1
                & 0x3f) as u32) << 6) | ((b2 & 0x3f) as u32));
            assert((0xe0 <= b0 <= 0xef && 0x80 <= b1 <= 0xbf && 0x80 <= b2 <= 0xbf) ==> ((((((b0
                & 0x0f) as u32) << 12) | (((b1 & 0x3f) as u32) << 6) | ((b2 & 0x3f) as u32))
                >= 0x800) <==> !(b0 == 0xe0 && b1 <= 0x9f))) by (bit_vector);
            assert((0xe0 <= b0 <= 0xef && 0x80 <= b1 <= 0xbf && 0x80 <= b2 <= 0xbf) ==> ((0xd800
                <= ((((b0 & 0x0f) as u32) << 12) | (((b1 & 0x3f) as u32) << 6) | ((b2
                & 0x3f) as u32)) <= 0xdfff) <==> (b0 == 0xed && b1 >= 0xa0))) by (bit_vector);
        }
    } else if b0 <= 0xf7 {
        if s.len() >= 4 && is_continuation_byte(s[1]) && is_continuation_byte(s[2])
            && is_continuation_byte(s[3]) {
            let b1 = s[1];
            let b2 = s[2];
            let b3 = s[3];
            assert(codepoint_width_4(b0, b1, b2, b3) == (((b0 & 0x07) as u32) << 18) | (((b1
                & 0x3f) as u32) << 12) | (((b2 & 0x3f) as u32) << 6) | ((b3 & 0x3f) as u32));
            assert((0xf0 <= b0 <= 0xf7 && 0x80 <= b1 <= 0xbf && 0x80 <= b2 <= 0xbf && 0x80 <= b3
                <= 0xbf) ==> ((((((b0 & 0x07) as u32) << 18) | (((b1 & 0x3f) as u32) << 12) | (((b2
                & 0x3f) as u32) << 6) | ((b3 & 0x3f) as u32)) >= 0x10000) <==> !(b0 == 0xf0 && b1
                <= 0x8f))) by (bit_vector);
            assert((0xf0 <= b0 <= 0xf7 && 0x80 <= b1 <= 0xbf && 0x80 <= b2 <= 0xbf && 0x80 <= b3
                <= 0xbf) ==> ((((((b0 & 0x07) as u32) << 18) | (((b1 & 0x3f) as u32) << 12) | (((b2
                & 0x3f) as u32) << 6) | ((b3 & 0x3f) as u32)) <= 0x10ffff) <==> (b0 <= 0xf3 || (b0
                == 0xf4 && b1 <= 0x8f)))) by (bit_vector);
            assert((0xf0 <= b0 <= 0xf7 && 0x80 <= b1 <= 0xbf && 0x80 <= b2 <= 0xbf && 0x80 <= b3
                <= 0xbf && ((((b0 & 0x07) as u32) << 18) | (((b1 & 0x3f) as u32) << 12) | (((b2
                & 0x3f) as u32) << 6) | ((b3 & 0x3f) as u32)) >= 0x10000) ==> !(0xd800 <= ((((b0
                & 0x07) as u32) << 18) | (((b1 & 0x3f) as u32) << 12) | (((b2 & 0x3f) as u32) << 6)
                | ((b3 & 0x3f) as u32)) <= 0xdfff)) by (bit_vector);
        }
    } else {
        // 0xf8 and above lead nothing
    }
}

/// A well-formed first scalar stays well-formed, with the same width, when
/// the sequence is extended on the right: the encoding only reads its own
/// bytes.
pub proof fn lemma_first_scalar_extend(t: Seq<u8>, s: Seq<u8>)
    requires
        t.len() <= s.len(),
        t == s.subrange(0, t.len() as int),
        valid_first_scalar(t),
    ensures
        valid_first_scalar(s),
        length_of_first_scalar(s) == length_of_first_scalar(t),
{
    lemma_scalar_table(t);
    assert(forall|i: int| 0 <= i < t.len() ==> t[i] == s[i]);
    lemma_scalar_table(s);
}

/// In a valid UTF-8 sequence, the end of any valid prefix falls on a
/// character boundary: the scalar widths are fixed by the leading bytes, so
/// the two parses agree.
pub proof fn lemma_valid_prefix_is_boundary(t: Seq<u8>, i: int)
    requires
        0 <= i <= t.len(),
        valid_utf8(t),
        valid_utf8(t.subrange(0, i)),
    ensures
        is_char_boundary(t, i),
    decreases i,
{
    if i > 0 {
        let s = t.subrange(0, i);
        assert(valid_first_scalar(s));
        lemma_scalar_table(s);
        let w = length_of_first_scalar(s);
        lemma_first_scalar_extend(s, t);
        assert(length_of_first_scalar(t) == w);
        let t2 = pop_first_scalar(t);
        let s2 = pop_first_scalar(s);
        assert(valid_utf8(t2));
        assert(valid_utf8(s2));
        assert(t2 == t.subrange(w, t.len() as int));
        assert(s2 =~= t2.subrange(0, i - w));
        lemma_valid_prefix_is_boundary(t2, i - w);
    }
}

/// Length of the longest prefix of `buf` that is valid UTF-8. Every longer
/// prefix is not valid, so the tail can only become decodable when more
/// bytes arrive.
pub fn utf8_prefix_len(buf: &Vec<u8>) -> (k: usize)
    ensures
        k <= buf@.len(),
        valid_utf8(buf@.subrange(0, k as int)),
        forall|j: int| k < j <= buf@.len() ==> !valid_utf8(buf@.subrange(0, j)),
{
    let n = buf.len();
    let mut i: usize = 0;
    proof {
        assert(buf@.subrange(0, 0) =~= Seq::<u8>::empty());
    }
    while i < n
        invariant
            0 <= i <= n == buf@.len(),
            valid_utf8(buf@.subrange(0, i as int)),
        decreases n - i,
    {
        let ghost suffix = buf@.subrange(i as int, n as int);
        let b0 = buf[i];
        assert(suffix[0] == b0);
        let rem = n - i;
        let w: usize = if b0 < 0x80 {
            1
        } else if b0 < 0xc2 {
            0
        } else if b0 < 0xe0 {
            if rem >= 2 && 0x80 <= buf[i + 1] && buf[i + 1] <= 0xbf {
                2
            } else {
                0
            }
        } else if b0 < 0xf0 {
            if rem >= 3 && 0x80 <= buf[i + 2] && buf[i + 2] <= 0xbf {
                let b1 = buf[i + 1];
                let b1_ok = if b0 == 0xe0 {
                    0xa0 <= b1 && b1 <= 0xbf
                } else if b0 == 0xed {
                    0x80 <= b1 && b1 <= 0x9f
                } else {
                    0x80 <= b1 && b1 <= 0xbf
                };
                if b1_ok {
                    3
                } else {
                    0
                }
            } else {
                0
            }
        } else if b0 < 0xf5 {
            if rem >= 4 && 0x80 <= buf[i + 2] && buf[i + 2] <= 0xbf && 0x80 <= buf[i + 3] && buf[i
                + 3] <= 0xbf {
                let b1 = buf[i + 1];
                let b1_ok = if b0 == 0xf0 {
                    0x90 <= b1 && b1 <= 0xbf
                } else if b0 == 0xf4 {
                    0x80 <= b1 && b1 <= 0x8f
                } else {
                    0x80 <= b1 && b1 <= 0xbf
                };
                if b1_ok {
                    4
                } else {
                    0
                }
            } else {
                0
            }
        } else {
            0
        };
        proof {
            assert(forall|q: int| 0 <= q < suffix.len() ==> suffix[q] == buf@[i + q]);
        }
        if w == 0 {
            proof {
                assert(!starts_with_scalar(suffix));
                lemma_scalar_table(suffix);
                assert forall|j: int| i < j <= buf@.len() implies !valid_utf8(
                    buf@.subrange(0, j),
                ) by {
                    if valid_utf8(buf@.subrange(0, j)) {
                        let t = buf@.subrange(0, j);
                        assert(t.subrange(0, i as int) =~= buf@.subrange(0, i as int));
                        lemma_valid_prefix_is_boundary(t, i as int);
                        valid_utf8_split(t, i as int);
                        let part = t.subrange(i as int, j);
                        assert(valid_utf8(part));
                        assert(part.len() > 0);
                        assert(valid_first_scalar(part));
                        assert(part =~= suffix.subrange(0, part.len() as int));
                        lemma_first_scalar_extend(part, suffix);
                        assert(false);
                    }
                }
            }
            return i;
        }
        proof {
            assert(starts_with_scalar(suffix));
            lemma_scalar_table(suffix);
            assert(valid_first_scalar(suffix));
            assert(length_of_first_scalar(suffix) == w);
            assert(partial_valid_utf8(buf@, i as int));
            partial_valid_utf8_extend(buf@, i as int);
            assert(partial_valid_utf8(buf@, i + w));
        }
        i += w;
    }
    i
}

/// Copies `v[start..end]` into a fresh vector.
pub fn copy_range(v: &Vec<u8>, start: usize, end: usize) -> (r: Vec<u8>)
    requires
        start <= end <= v@.len(),
    ensures
        r@ == v@.subrange(start as int, end as int),
{
    let mut r: Vec<u8> = Vec::new();
    let mut idx: usize = start;
    while idx < end
        invariant
            start <= idx <= end <= v@.len(),
            r@ == v@.subrange(start as int, idx as int),
        decreases end - idx,
    {
        r.push(v[idx]);
        proof {
            assert(r@ =~= v@.subrange(start as int, idx + 1));
        }
        idx += 1;
    }
    r
}

/// Characters in a byte sequence, counted as the bytes that do not
/// continue an earlier character's encoding. On valid UTF-8 this equals
/// the number of decoded characters; see `lemma_char_count_decodes`.
pub open spec fn char_count(s: Seq<u8>) -> int
    decreases s.len(),
{
    if s.len() == 0 {
        0int
    } else {
        char_count(s.drop_last()) + if is_continuation_byte(s.last()) {
            0int
        } else {
            1int
        }
    }
}

/// Character count grows bytewise along a sequence.
pub proof fn lemma_char_count_extend(s: Seq<u8>, i: int)
    requires
        0 <= i < s.len(),
    ensures
        char_count(s.subrange(0, i + 1)) == char_count(s.subrange(0, i)) + if is_continuation_byte(
            s[i],
        ) {
            0int
        } else {
            1int
        },
{
    assert(s.subrange(0, i + 1).drop_last() =~= s.subrange(0, i));
    assert(s.subrange(0, i + 1).last() == s[i]);
}

/// Character counts lie between zero and the byte count.
pub proof fn lemma_char_count_nonneg(s: Seq<u8>)
    ensures
        0 <= char_count(s) <= s.len(),
    decreases s.len(),
{
    if s.len() > 0 {
        lemma_char_count_nonneg(s.drop_last());
    }
}

/// Character counts add up over concatenation.
pub proof fn lemma_char_count_concat(a: Seq<u8>, b: Seq<u8>)
    ensures
        char_count(a + b) == char_count(a) + char_count(b),
    decreases b.len(),
{
    if b.len() == 0 {
        assert(a + b =~= a);
    } else {
        assert((a + b).drop_last() =~= a + b.drop_last());
        assert((a + b).last() == b.last());
        lemma_char_count_concat(a, b.drop_last());
    }
}

/// A single scalar encoding — one leading byte followed only by
/// continuation bytes — counts as one character.
proof fn lemma_char_count_one_scalar(h: Seq<u8>)
    requires
        h.len() >= 1,
        !is_continuation_byte(h[0]),
        forall|i: int| 1 <= i < h.len() ==> is_continuation_byte(#[trigger] h[i]),
    ensures
        char_count(h) == 1,
    decreases h.len(),
{
    if h.len() == 1 {
        assert(h.last() == h[0]);
        assert(h.drop_last().len() == 0);
        assert(char_count(h.drop_last()) == 0);
        assert(char_count(h) == 1);
    } else {
        assert(h.drop_last()[0] == h[0]);
        assert(is_continuation_byte(h.last()));
        assert forall|i: int| 1 <= i < h.drop_last().len() implies is_continuation_byte(
            #[trigger] h.drop_last()[i],
        ) by {
            assert(h.drop_last()[i] == h[i]);
        }
        lemma_char_count_one_scalar(h.drop_last());
    }
}

/// For valid UTF-8, counting the bytes that do not continue a character is
/// counting the characters: each scalar contributes its leading byte.
pub proof fn lemma_char_count_decodes(s: Seq<u8>)
    requires
        valid_utf8(s),
    ensures
        char_count(s) == decode_utf8(s).len(),
    decreases s.len(),
{
    if s.len() > 0 {
        lemma_scalar_table(s);
        let w = length_of_first_scalar(s);
        let head = take_first_scalar(s);
        let tail = pop_first_scalar(s);
        assert(valid_utf8(tail));
        lemma_char_count_decodes(tail);
        assert(s =~= head + tail);
        lemma_char_count_concat(head, tail);
        assert(head.len() == w);
        assert(!is_continuation_byte(head[0]));
        assert forall|i: int| 1 <= i < head.len() implies is_continuation_byte(
            #[trigger] head[i],
        ) by {
            assert(head[i] == s[i]);
        }
        lemma_char_count_one_scalar(head);
    }
}

/// True when `k` is the length of the longest prefix of `s` that is valid
/// UTF-8: the split point the stream decoder releases at.
pub open spec fn split_ok(s: Seq<u8>, k: int) -> bool {
    &&& 0 <= k <= s.len()
    &&& valid_utf8(s.subrange(0, k))
    &&& forall|j: int| k < j <= s.len() ==> !valid_utf8(s.subrange(0, j))
}

/// The split point is unique: there is one longest valid prefix.
pub proof fn lemma_split_unique(s: Seq<u8>, k1: int, k2: int)
    requires
        split_ok(s, k1),
        split_ok(s, k2),
    ensures
        k1 == k2,
{
    if k1 < k2 {
        assert(!valid_utf8(s.subrange(0, k2)));
    }
    if k2 < k1 {
        assert(!valid_utf8(s.subrange(0, k1)));
    }
}

/// Buffers the bytes of decoded tokens and releases them in complete UTF-8
/// pieces. Bytes still waiting for the rest of their character sit in
/// `pending`; a flush hands them out verbatim, so no byte is ever lost.
pub struct StreamDecoder {
    pending: Vec<u8>,
}

impl StreamDecoder {
    /// The bytes received so far that have not yet been released.
    pub closed spec fn buffered(&self) -> Seq<u8> {
        self.pending@
    }

    /// A fresh decoder holds nothing.
    pub fn new() -> (r: StreamDecoder)
        ensures
            r.buffered() == Seq::<u8>::empty(),
    {
        StreamDecoder { pending: Vec::new() }
    }

    /// Appends `bytes` to the buffer and releases the longest prefix of the
    /// buffer that is valid UTF-8. What is released plus what stays buffered
    /// is exactly what was buffered plus what arrived.
    pub fn push(&mut self, bytes: &Vec<u8>) -> (piece: Vec<u8>)
        ensures
            piece@ + final(self).buffered() == old(self).buffered() + bytes@,
            split_ok(old(self).buffered() + bytes@, piece@.len() as int),
            piece@ == (old(self).buffered() + bytes@).subrange(0, piece@.len() as int),
            final(self).buffered() == (old(self).buffered() + bytes@).subrange(
                piece@.len() as int,
                (old(self).buffered() + bytes@).len() as int,
            ),
    {
        let ghost combined = old(self).buffered() + bytes@;
        let mut idx: usize = 0;
        while idx < bytes.len()
            invariant
                0 <= idx <= bytes@.len(),
                self.pending@ == old(self).buffered() + bytes@.subrange(0, idx as int),
            decreases bytes@.len() - idx,
        {
            self.pending.push(bytes[idx]);
            proof {
                assert(self.pending@ =~= old(self).buffered() + bytes@.subrange(0, idx + 1));
            }
            idx += 1;
        }
        proof {
            assert(self.pending@ =~= combined);
        }
        let k = utf8_prefix_len(&self.pending);
        let piece = copy_range(&self.pending, 0, k);
        let rest = copy_range(&self.pending, k, self.pending.len());
        self.pending = rest;
        proof {
            assert(piece@ + self.pending@ =~= combined);
            assert(split_ok(combined, piece@.len() as int));
        }
        piece
    }

    /// Hands out whatever is still buffered, valid or not, and empties the
    /// buffer. A stream is flushed once, when generation ends.
    pub fn flush(&mut self) -> (rest: Vec<u8>)
        ensures
            rest@ == old(self).buffered(),
            final(self).buffered() == Seq::<u8>::empty(),
    {
        let rest = copy_range(&self.pending, 0, self.pending.len());
        self.pending = Vec::new();
        proof {
            assert(rest@ =~= old(self).buffered());
        }
        rest
    }
}

} // verus!
