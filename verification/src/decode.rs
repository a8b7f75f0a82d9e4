//! Byte-level UTF-8 decoding over spans of a buffer.
//!
//! The buffer is never decoded wholesale: every operation works on the byte
//! range `[a, b)` of a byte sequence, so that a caller can decode exactly the
//! span it must traverse.  The specification side is built on `vstd::utf8`:
//! a span is well formed when `valid_utf8` holds of the corresponding
//! subrange, and its characters are `decode_utf8` of that subrange.

use vstd::prelude::*;
use vstd::utf8::*;

verus! {

/// The byte range `[a, b)` of `s` is well-formed UTF-8.
pub open spec fn span_ok(s: Seq<u8>, a: int, b: int) -> bool {
    &&& 0 <= a <= b <= s.len()
    &&& valid_utf8(s.subrange(a, b))
}

/// The characters encoded in the byte range `[a, b)` of `s`.
pub open spec fn span_chars(s: Seq<u8>, a: int, b: int) -> Seq<char> {
    decode_utf8(s.subrange(a, b))
}

/// The byte offset at which a left-to-right decode of the range `[a, b)` of
/// `s` first leaves well-formed UTF-8, or `b` when the whole range is well
/// formed.  This is the offset that a decoding failure reports.
pub open spec fn stuck_at(s: Seq<u8>, a: int, b: int) -> int
    decreases b - a,
    when a <= b
{
    if a >= b {
        b
    } else if valid_first_scalar(s.subrange(a, b)) && a + length_of_first_scalar(
        s.subrange(a, b),
    ) <= b {
        stuck_at(s, a + length_of_first_scalar(s.subrange(a, b)), b)
    } else {
        a
    }
}

/// A well-formed scalar encoding at the head of a byte range keeps its
/// validity, width and value when the range is widened or narrowed, as long
/// as the whole encoding stays inside the range.
pub proof fn lemma_first_scalar_agree(s: Seq<u8>, i: int, b1: int, b2: int)
    requires
        0 <= i < b1 <= s.len(),
        i < b2 <= s.len(),
        valid_first_scalar(s.subrange(i, b1)),
        i + length_of_first_scalar(s.subrange(i, b1)) <= b2,
    ensures
        valid_first_scalar(s.subrange(i, b2)),
        length_of_first_scalar(s.subrange(i, b2)) == length_of_first_scalar(s.subrange(i, b1)),
        decode_first_scalar(s.subrange(i, b2)) == decode_first_scalar(s.subrange(i, b1)),
{
    let u = s.subrange(i, b1);
    let w = s.subrange(i, b2);
    let l = length_of_first_scalar(u);
    assert(l <= u.len());
    assert(forall|k: int| 0 <= k < l ==> u[k] == s[i + k] && w[k] == s[i + k]);
}

/// The bytes of a single well-formed scalar encoding form a well-formed span
/// of their own, whose characters are that one scalar.
pub proof fn lemma_single_scalar(s: Seq<u8>, i: int, b: int)
    requires
        0 <= i < b <= s.len(),
        valid_first_scalar(s.subrange(i, b)),
        i + length_of_first_scalar(s.subrange(i, b)) <= b,
    ensures
        ({
            let l = length_of_first_scalar(s.subrange(i, b));
            &&& span_ok(s, i, i + l)
            &&& span_chars(s, i, i + l) == seq![decode_first_scalar(s.subrange(i, b)) as char]
        }),
{
    let l = length_of_first_scalar(s.subrange(i, b));
    lemma_first_scalar_agree(s, i, b, i + l);
    let u = s.subrange(i, i + l);
    assert(pop_first_scalar(u) =~= Seq::<u8>::empty());
    reveal_with_fuel(valid_utf8, 2);
    assert(valid_utf8(u));
    reveal_with_fuel(decode_utf8, 2);
    assert(decode_utf8(u) =~= seq![decode_first_scalar(u) as char]);
}

/// An empty span is well formed and holds no characters.
pub proof fn lemma_empty_span(s: Seq<u8>, a: int)
    requires
        0 <= a <= s.len(),
    ensures
        span_ok(s, a, a),
        span_chars(s, a, a) == Seq::<char>::empty(),
{
    assert(s.subrange(a, a) =~= Seq::<u8>::empty());
    assert(decode_utf8(s.subrange(a, a)) =~= Seq::<char>::empty());
}

/// A well-formed byte sequence holds at most as many characters as bytes.
pub proof fn lemma_decode_len(s: Seq<u8>)
    requires
        valid_utf8(s),
    ensures
        decode_utf8(s).len() <= s.len(),
    decreases s.len(),
{
    if s.len() != 0 {
        assert(length_of_first_scalar(s) >= 1);
        assert(pop_first_scalar(s).len() == s.len() - length_of_first_scalar(s));
        lemma_decode_len(pop_first_scalar(s));
    }
}

/// Two adjacent well-formed spans form one well-formed span whose characters
/// are the two character sequences in order.
pub proof fn lemma_span_concat(s: Seq<u8>, a: int, m: int, b: int)
    requires
        span_ok(s, a, m),
        span_ok(s, m, b),
    ensures
        span_ok(s, a, b),
        span_chars(s, a, b) == span_chars(s, a, m) + span_chars(s, m, b),
{
    let u = s.subrange(a, b);
    let left = s.subrange(a, m);
    let right = s.subrange(m, b);
    assert(u =~= left + right);
    valid_utf8_concat(left, right);
    if m == b {
        is_char_boundary_start_end_of_seq(u);
        assert(right =~= Seq::<u8>::empty());
        assert(decode_utf8(right) =~= Seq::<char>::empty());
        assert(left =~= u);
    } else {
        assert(u[m - a] == s[m]);
        assert(right[0] == s[m]);
        assert(valid_first_scalar(right));
        is_char_boundary_iff_is_leading_byte(u, m - a);
        assert(is_char_boundary(u, m - a));
        decode_utf8_split(u, m - a);
        assert(u.subrange(0, m - a) =~= left);
        assert(u.subrange(m - a, u.len() as int) =~= right);
    }
}

/// When a prefix of a well-formed byte sequence is itself well formed, the
/// prefix ends on a character boundary of the whole sequence.
pub proof fn lemma_prefix_boundary(s: Seq<u8>, b: int)
    requires
        valid_utf8(s),
        0 <= b <= s.len(),
        valid_utf8(s.subrange(0, b)),
    ensures
        is_char_boundary(s, b),
    decreases b,
{
    if b != 0 {
        let p = s.subrange(0, b);
        let l = length_of_first_scalar(p);
        assert(l <= p.len());
        assert(s.subrange(0, s.len() as int) =~= s);
        lemma_first_scalar_agree(s, 0, b, s.len() as int);
        assert(length_of_first_scalar(s) == l);
        let t = pop_first_scalar(s);
        assert(valid_utf8(t));
        assert(t =~= s.subrange(l, s.len() as int));
        assert(t.subrange(0, b - l) =~= s.subrange(l, b));
        assert(pop_first_scalar(p) =~= s.subrange(l, b));
        assert(valid_utf8(t.subrange(0, b - l)));
        lemma_prefix_boundary(t, b - l);
    }
}

/// Skipping over a leading well-formed stretch does not move the offset at
/// which a decode gets stuck.
pub proof fn lemma_stuck_skip(s: Seq<u8>, a: int, m: int, b: int)
    requires
        0 <= a <= m <= b <= s.len(),
        valid_utf8(s.subrange(a, m)),
    ensures
        stuck_at(s, a, b) == stuck_at(s, m, b),
    decreases m - a,
{
    if a != m {
        let p = s.subrange(a, m);
        let l = length_of_first_scalar(p);
        assert(l <= p.len());
        lemma_first_scalar_agree(s, a, m, b);
        assert(pop_first_scalar(p) =~= s.subrange(a + l, m));
        assert(stuck_at(s, a, b) == stuck_at(s, a + l, b));
        lemma_stuck_skip(s, a + l, m, b);
    }
}

/// Check that the byte range `[a, b)` of `map` is well-formed UTF-8.  On
/// failure the error carries the offset at which decoding got stuck.
pub fn validate_span(map: &Vec<u8>, a: usize, b: usize) -> (r: Result<(), usize>)
    requires
        a <= b <= map@.len(),
    ensures
        r is Ok <==> span_ok(map@, a as int, b as int),
        (r matches Err(p) ==> p == stuck_at(map@, a as int, b as int) && a <= p <= b),
{
    let ghost s = map@;
    let mut i: usize = a;
    while i < b
        invariant
            a <= i <= b <= s.len(),
            s == map@,
            valid_utf8(s.subrange(a as int, b as int)) <==> valid_utf8(
                s.subrange(i as int, b as int),
            ),
            stuck_at(s, i as int, b as int) == stuck_at(s, a as int, b as int),
        decreases b - i,
    {
        match decode_char_at(map, i, b) {
            Some(p) => {
                let n = p.1;
                proof {
                    let l = n as int;
                    lemma_single_scalar(s, i as int, b as int);
                    if valid_utf8(s.subrange(i + l, b as int)) {
                        valid_utf8_concat(s.subrange(i as int, i + l), s.subrange(i + l, b as int));
                        assert(s.subrange(i as int, b as int) =~= s.subrange(i as int, i + l)
                            + s.subrange(i + l, b as int));
                    }
                    assert(pop_first_scalar(s.subrange(i as int, b as int)) =~= s.subrange(
                        i + l,
                        b as int,
                    ));
                    assert(stuck_at(s, i as int, b as int) == stuck_at(s, i + l, b as int));
                }
                i = i + n;
            },
            None => {
                proof {
                    assert(!valid_utf8(s.subrange(i as int, b as int)));
                    assert(stuck_at(s, i as int, b as int) == i);
                }
                return Err(i);
            },
        }
    }
    proof {
        assert(s.subrange(b as int, b as int) =~= Seq::<u8>::empty());
        assert(valid_utf8(s.subrange(b as int, b as int)));
    }
    Ok(())
}

/// Relies on std's `char::from_u32`: for an argument in the Unicode scalar
/// range (at most 0x10FFFF and not a surrogate) it returns `Some` of the
/// character with exactly that scalar value, so the unwrap cannot fail.
#[verifier::external_body]
fn char_from_scalar(v: u32) -> (c: char)
    requires
        is_scalar(v),
    ensures
        c as u32 == v,
{
    char::from_u32(v).unwrap()
}

/// Decode the single scalar that starts at byte `i` of `map`, confined to the
/// range `[i, end)`.  Returns the character and the width of its encoding, or
/// `None` when no well-formed encoding of a scalar starts at `i` within the
/// range.
pub fn decode_char_at(map: &Vec<u8>, i: usize, end: usize) -> (r: Option<(char, usize)>)
    requires
        end <= map@.len(),
    ensures
        ({
            let sub = map@.subrange(i as int, end as int);
            match r {
                Some(p) => {
                    &&& i < end
                    &&& valid_first_scalar(sub)
                    &&& p.1 == length_of_first_scalar(sub)
                    &&& i + p.1 <= end
                    &&& 1 <= p.1 <= 4
                    &&& p.0 as u32 == decode_first_scalar(sub)
                },
                None => i >= end || !valid_first_scalar(sub),
            }
        }),
{
    if i >= end {
        return None;
    }
    let ghost sub = map@.subrange(i as int, end as int);
    proof {
        assert(sub.len() == end - i);
        assert(forall|k: int| 0 <= k < sub.len() ==> sub[k] == map@[i + k]);
    }
    let b0 = map[i];
    if b0 < 0x80 {
        // one byte
        proof {
            assert(b0 < 0x80 ==> (b0 & 0x7f) == b0) by (bit_vector);
        }
        let c = char_from_scalar(b0 as u32);
        Some((c, 1))
    } else if b0 < 0xC2 {
        // a continuation byte, or the overlong leading bytes 0xC0 and 0xC1
        proof {
            if 0xC0 <= b0 {
                let b1: u8 = sub[1];
                assert((((b0 & 0x1f) as u32) << 6) | ((b1 & 0x3f) as u32) < 0x80) by (bit_vector)
                    requires
                        0xC0 <= b0 < 0xC2,
                ;
            }
        }
        None
    } else if b0 < 0xE0 {
        // two bytes
        if end - i < 2 {
            return None;
        }
        let b1 = map[i + 1];
        if !(0x80 <= b1 && b1 < 0xC0) {
            return None;
        }
        let v = (((b0 & 0x1F) as u32) << 6) | ((b1 & 0x3F) as u32);
        proof {
            assert(0x80 <= ((((b0 & 0x1f) as u32) << 6) | ((b1 & 0x3f) as u32)) < 0x800)
                by (bit_vector)
                requires
                    0xC2 <= b0 < 0xE0,
                    0x80 <= b1 < 0xC0,
            ;
        }
        let c = char_from_scalar(v);
        Some((c, 2))
    } else if b0 < 0xF0 {
        // three bytes; the second byte's range depends on the leading byte so
        // that overlong encodings (0xE0) and surrogates (0xED) are rejected
        if end - i < 3 {
            return None;
        }
        let b1 = map[i + 1];
        let lo: u8 = if b0 == 0xE0 {
            0xA0
        } else {
            0x80
        };
        let hi: u8 = if b0 == 0xED {
            0xA0
        } else {
            0xC0
        };
        if !(lo <= b1 && b1 < hi) {
            proof {
                if 0x80 <= b1 && b1 < 0xC0 {
                    let b2: u8 = sub[2];
                    let w = (((b0 & 0x0f) as u32) << 12) | (((b1 & 0x3f) as u32) << 6) | ((b2
                        & 0x3f) as u32);
                    if b0 == 0xE0 {
                        assert(w < 0x800) by (bit_vector)
                            requires
                                b0 == 0xE0,
                                0x80 <= b1 < 0xA0,
                                w == (((b0 & 0x0f) as u32) << 12) | (((b1 & 0x3f) as u32) << 6) | ((
                                b2 & 0x3f) as u32),
                        ;
                    } else {
                        assert(0xD800 <= w <= 0xDFFF) by (bit_vector)
                            requires
                                b0 == 0xED,
                                0xA0 <= b1 < 0xC0,
                                w == (((b0 & 0x0f) as u32) << 12) | (((b1 & 0x3f) as u32) << 6) | ((
                                b2 & 0x3f) as u32),
                        ;
                    }
                }
            }
            return None;
        }
        let b2 = map[i + 2];
        if !(0x80 <= b2 && b2 < 0xC0) {
            return None;
        }
        let v = (((b0 & 0x0F) as u32) << 12) | (((b1 & 0x3F) as u32) << 6) | ((b2 & 0x3F) as u32);
        proof {
            assert(0x800 <= ((((b0 & 0x0f) as u32) << 12) | (((b1 & 0x3f) as u32) << 6) | ((b2
                & 0x3f) as u32)) <= 0xFFFF && !(0xD800 <= ((((b0 & 0x0f) as u32) << 12) | (((b1
                & 0x3f) as u32) << 6) | ((b2 & 0x3f) as u32)) <= 0xDFFF)) by (bit_vector)
                requires
                    0xE0 <= b0 < 0xF0,
                    0x80 <= b1 < 0xC0,
                    0x80 <= b2 < 0xC0,
                    b0 == 0xE0 ==> 0xA0 <= b1,
                    b0 == 0xED ==> b1 < 0xA0,
            ;
        }
        let c = char_from_scalar(v);
        Some((c, 3))
    } else if b0 < 0xF5 {
        // four bytes; the second byte's range depends on the leading byte so
        // that overlong encodings (0xF0) and values past 0x10FFFF (0xF4) are
        // rejected
        if end - i < 4 {
            return None;
        }
        let b1 = map[i + 1];
        let lo: u8 = if b0 == 0xF0 {
            0x90
        } else {
            0x80
        };
        let hi: u8 = if b0 == 0xF4 {
            0x90
        } else {
            0xC0
        };
        if !(lo <= b1 && b1 < hi) {
            proof {
                if 0x80 <= b1 && b1 < 0xC0 {
                    let b2: u8 = sub[2];
                    let b3: u8 = sub[3];
                    let w = (((b0 & 0x07) as u32) << 18) | (((b1 & 0x3f) as u32) << 12) | (((b2
                        & 0x3f) as u32) << 6) | ((b3 & 0x3f) as u32);
                    if b0 == 0xF0 {
                        assert(w < 0x10000) by (bit_vector)
                            requires
                                b0 == 0xF0,
                                0x80 <= b1 < 0x90,
                                w == (((b0 & 0x07) as u32) << 18) | (((b1 & 0x3f) as u32) << 12) | (
                                ((b2 & 0x3f) as u32) << 6) | ((b3 & 0x3f) as u32),
                        ;
                    } else {
                        assert(w > 0x10FFFF) by (bit_vector)
                            requires
                                b0 == 0xF4,
                                0x90 <= b1 < 0xC0,
                                w == (((b0 & 0x07) as u32) << 18) | (((b1 & 0x3f) as u32) << 12) | (
                                ((b2 & 0x3f) as u32) << 6) | ((b3 & 0x3f) as u32),
                        ;
                    }
                }
            }
            return None;
        }
        let b2 = map[i + 2];
        if !(0x80 <= b2 && b2 < 0xC0) {
            return None;
        }
        let b3 = map[i + 3];
        if !(0x80 <= b3 && b3 < 0xC0) {
            return None;
        }
        let v = (((b0 & 0x07) as u32) << 18) | (((b1 & 0x3F) as u32) << 12) | (((b2
            & 0x3F) as u32) << 6) | ((b3 & 0x3F) as u32);
        proof {
            assert(0x10000 <= ((((b0 & 0x07) as u32) << 18) | (((b1 & 0x3f) as u32) << 12) | (((b2
                & 0x3f) as u32) << 6) | ((b3 & 0x3f) as u32)) <= 0x10FFFF) by (bit_vector)
                requires
                    0xF0 <= b0 < 0xF5,
                    0x80 <= b1 < 0xC0,
                    0x80 <= b2 < 0xC0,
                    0x80 <= b3 < 0xC0,
                    b0 == 0xF0 ==> 0x90 <= b1,
                    b0 == 0xF4 ==> b1 < 0x90,
            ;
        }
        let c = char_from_scalar(v);
        Some((c, 4))
    } else {
        // leading bytes 0xF5 through 0xFF can only start values past 0x10FFFF
        proof {
            if b0 < 0xF8 {
                let b1: u8 = sub[1];
                let b2: u8 = sub[2];
                let b3: u8 = sub[3];
                let w = (((b0 & 0x07) as u32) << 18) | (((b1 & 0x3f) as u32) << 12) | (((b2
                    & 0x3f) as u32) << 6) | ((b3 & 0x3f) as u32);
                assert(w > 0x10FFFF) by (bit_vector)
                    requires
                        0xF5 <= b0 < 0xF8,
                        w == (((b0 & 0x07) as u32) << 18) | (((b1 & 0x3f) as u32) << 12) | (((b2
                        & 0x3f) as u32) << 6) | ((b3 & 0x3f) as u32),
                ;
            }
        }
        None
    }
}

} // verus!
