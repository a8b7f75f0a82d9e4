//! The mapped buffer and its checkpoint cache.
//!
//! A [`MappedFile`] owns the bytes of a memory-mapped region together with an
//! append-only list of checkpoints, each recording that a known number of
//! characters occupies a known number of leading bytes of the buffer.  Every
//! checkpoint but the sentinel marks the start of a line: the character just
//! before it is a line feed.  The one query, [`MappedFile::unicode_at`],
//! resolves a 0-based character index to its character while decoding only
//! the byte span it must traverse, and records every line start it passes so
//! that later queries start from the nearest known line.

use vstd::prelude::*;
use vstd::utf8::valid_utf8;
use vstd::utf8::decode_utf8;
use vstd::utf8::valid_first_scalar;
use vstd::utf8::pop_first_scalar;
use vstd::utf8::decode_first_scalar;
use vstd::utf8::char_u32_cast;
use vstd::utf8::decode_utf8_split;
use vstd::utf8::partial_valid_partial_invalid_utf8;

use crate::decode::span_ok;
use crate::decode::span_chars;
use crate::decode::stuck_at;
use crate::decode::decode_char_at;
use crate::decode::validate_span;
use crate::decode::lemma_span_concat;
use crate::decode::lemma_single_scalar;
use crate::decode::lemma_decode_len;
use crate::decode::lemma_prefix_boundary;
use crate::decode::lemma_stuck_skip;
use crate::decode::lemma_empty_span;

verus! {

/// The position of a character in the buffer, as both a byte offset and a
/// character index.
#[derive(Clone, Copy, Debug)]
pub struct CharPosition {
    /// The position of the character in bytes.
    pub byte_position: usize,
    /// The position of the character in decoded characters.
    pub char_position: usize,
}

/// Why a byte span could not be decoded: the number of bytes from the start
/// of the buffer that do form well-formed UTF-8.
#[derive(Clone, Copy, Debug, PartialEq, Eq, Structural)]
pub struct DecodeError {
    /// The length in bytes of the longest well-formed prefix.
    pub valid_up_to: usize,
}

/// Why a query could not be answered.
#[derive(Clone, Copy, Debug, PartialEq, Eq, Structural)]
pub enum IndexError {
    /// The index is outside of the bounds of the buffer.
    OutOfBounds,
    /// The bytes that must be traversed are not valid UTF-8.
    InvalidChar(DecodeError),
}

/// The newer checkpoint list extends the older one: nothing already recorded
/// is removed or reordered.
pub open spec fn cache_extends(older: Seq<CharPosition>, newer: Seq<CharPosition>) -> bool {
    &&& older.len() <= newer.len()
    &&& forall|j: int| 0 <= j < older.len() ==> #[trigger] newer[j] == older[j]
}

/// What one checkpoint step promises: between the byte offsets of two
/// adjacent checkpoints lies one well-formed line, a span whose character
/// count matches the step in character indices and whose one line feed is its
/// last character.
pub open spec fn cp_span_wf(s: Seq<u8>, a: CharPosition, b: CharPosition) -> bool {
    &&& a.byte_position < b.byte_position <= s.len()
    &&& a.char_position < b.char_position
    &&& span_ok(s, a.byte_position as int, b.byte_position as int)
    &&& span_chars(s, a.byte_position as int, b.byte_position as int).len() == b.char_position
        - a.char_position
    &&& span_chars(s, a.byte_position as int, b.byte_position as int).last() == '\n'
    &&& forall|j: int|
        0 <= j < span_chars(s, a.byte_position as int, b.byte_position as int).len() - 1
            ==> span_chars(s, a.byte_position as int, b.byte_position as int)[j] != '\n'
}

/// A memory-mapped file: the bytes of the mapped region together with the
/// cache of line start positions discovered so far.
pub struct MappedFile {
    /// The contents of the memory map of the file.
    pub map: Vec<u8>,
    /// The cache of line ending positions.
    pub line_ending_positions: Vec<CharPosition>,
}

impl MappedFile {
    /// The bytes of the mapped region.
    pub open spec fn bytes(self) -> Seq<u8> {
        self.map@
    }

    /// The checkpoint cache.
    pub open spec fn cache(self) -> Seq<CharPosition> {
        self.line_ending_positions@
    }

    /// The cache invariant: it starts with the sentinel for the start of the
    /// buffer, every adjacent pair brackets one line, and a cache that grew
    /// past the sentinel only ever grows over a fully well-formed buffer.
    pub open spec fn wf(self) -> bool {
        &&& self.cache().len() >= 1
        &&& self.cache()[0].byte_position == 0
        &&& self.cache()[0].char_position == 0
        &&& forall|k: int|
            1 <= k < self.cache().len() ==> cp_span_wf(
                self.bytes(),
                self.cache()[k - 1],
                #[trigger] self.cache()[k],
            )
        &&& self.cache().len() > 1 ==> valid_utf8(self.bytes())
    }

    /// The number of characters covered by the checkpoint cache.
    pub open spec fn covered_chars(self) -> int {
        self.cache().last().char_position as int
    }

    /// The byte offset up to which the checkpoint cache reaches.
    pub open spec fn covered_bytes(self) -> int {
        self.cache().last().byte_position as int
    }

    /// Gets the char at the given index in the line that spans the bytes
    /// `[byte_position, next_line_byte_position)`.  The whole span is decoded
    /// first, so bytes past the requested character are still checked; the
    /// error carries the offset where decoding got stuck.
    pub fn get_unicode_char_in_line(
        &self,
        byte_position: usize,
        index: usize,
        next_line_byte_position: usize,
    ) -> (r: Result<char, IndexError>)
        requires
            byte_position <= next_line_byte_position <= self.bytes().len(),
        ensures
            ({
                let s = self.bytes();
                let a = byte_position as int;
                let b = next_line_byte_position as int;
                if span_ok(s, a, b) {
                    if (index as int) < span_chars(s, a, b).len() {
                        r matches Ok(c) && c == span_chars(s, a, b)[index as int]
                    } else {
                        r == Err::<char, IndexError>(IndexError::OutOfBounds)
                    }
                } else {
                    r == Err::<char, IndexError>(
                        IndexError::InvalidChar(
                            (DecodeError { valid_up_to: stuck_at(s, a, b) as usize }),
                        ),
                    )
                }
            }),
    {
        let ghost s = self.bytes();
        let ghost a = byte_position as int;
        let ghost b = next_line_byte_position as int;
        // Parse the span as UTF-8; if it is not well formed, report where.
        if let Err(p) = validate_span(&self.map, byte_position, next_line_byte_position) {
            return Err(IndexError::InvalidChar(DecodeError { valid_up_to: p }));
        }
        let ghost cs = span_chars(s, a, b);
        let mut i = byte_position;
        let mut k: usize = 0;
        loop
            invariant
                byte_position <= i <= next_line_byte_position,
                a == byte_position as int,
                b == next_line_byte_position as int,
                s == self.bytes(),
                b <= s.len(),
                span_ok(s, a, b),
                span_ok(s, i as int, b),
                cs == span_chars(s, a, b),
                span_chars(s, i as int, b) == cs.skip(k as int),
                k <= index,
                k as int <= cs.len(),
            decreases next_line_byte_position - i,
        {
            if i >= next_line_byte_position {
                proof {
                    assert(s.subrange(i as int, b) =~= Seq::<u8>::empty());
                    assert(span_chars(s, i as int, b).len() == 0);
                    assert(cs.len() == k);
                }
                return Err(IndexError::OutOfBounds);
            }
            match decode_char_at(&self.map, i, next_line_byte_position) {
                Some(pair) => {
                    let c = pair.0;
                    let n = pair.1;
                    proof {
                        let sub = s.subrange(i as int, b);
                        assert(span_chars(s, i as int, b) == seq![
                            decode_first_scalar(sub) as char,
                        ] + decode_utf8(pop_first_scalar(sub)));
                        assert(cs.skip(k as int)[0] == cs[k as int]);
                        char_u32_cast(c, decode_first_scalar(sub));
                    }
                    if k == index {
                        return Ok(c);
                    }
                    proof {
                        let sub = s.subrange(i as int, b);
                        let l = n as int;
                        assert(pop_first_scalar(sub) =~= s.subrange(i + l, b));
                        assert(decode_utf8(pop_first_scalar(sub)) =~= (seq![
                            decode_first_scalar(sub) as char,
                        ] + decode_utf8(pop_first_scalar(sub))).drop_first());
                        assert(cs.skip(k as int).drop_first() =~= cs.skip(k as int + 1));
                    }
                    k = k + 1;
                    i = i + n;
                },
                None => {
                    proof {
                        assert(valid_first_scalar(s.subrange(i as int, b)));
                        assert(false);
                    }
                    return Err(IndexError::OutOfBounds);
                },
            }
        }
    }

    /// Scan adjacent checkpoint pairs for one that brackets the requested
    /// character index, and decode only that line.  Returns `None` when the
    /// index lies past the cache's coverage.
    pub fn find_with_cache(&self, index: usize) -> (r: Option<char>)
        requires
            self.wf(),
        ensures
            r is Some <==> (index as int) < self.covered_chars(),
            (r matches Some(c) ==> valid_utf8(self.bytes()) && (index as int) < decode_utf8(
                self.bytes(),
            ).len() && c == decode_utf8(self.bytes())[index as int]),
    {
        let ghost s = self.bytes();
        let len = self.line_ending_positions.len();
        let mut k: usize = 1;
        while k < len
            invariant
                self.wf(),
                1 <= k <= len,
                len == self.cache().len(),
                s == self.bytes(),
                index as int >= self.cache()[k - 1].char_position,
            decreases len - k,
        {
            let last = self.line_ending_positions[k - 1];
            let current = self.line_ending_positions[k];
            proof {
                assert(cp_span_wf(s, self.cache()[k as int - 1], self.cache()[k as int]));
            }
            // if we do, we can locate it in a line
            if last.char_position <= index && index < current.char_position {
                let ghost ab = last.byte_position as int;
                let ghost bb = current.byte_position as int;
                proof {
                    lemma_cache_prefix(*self, k as int - 1);
                    lemma_cache_prefix(*self, k as int);
                    lemma_span_concat(s, 0, ab, bb);
                    lemma_cache_monotone(*self, k as int, len as int - 1);
                    lemma_prefix_boundary(s, bb);
                    decode_utf8_split(s, bb);
                    assert(s.subrange(0, s.len() as int) =~= s);
                }
                match self.get_unicode_char_in_line(
                    last.byte_position,
                    index - last.char_position,
                    current.byte_position,
                ) {
                    Ok(c) => {
                        proof {
                            assert(decode_utf8(s).len() >= self.cache()[k as int].char_position);
                        }
                        return Some(c);
                    },
                    Err(_) => {
                        proof {
                            assert(false);
                        }
                        return None;
                    },
                }
            }
            k = k + 1;
        }
        None
    }

    /// Walk the characters of the unbounded span that begins at the last
    /// checkpoint `start`, recording a new checkpoint after every line feed
    /// passed, until the character whose 0-based offset from `start` is `n`
    /// is reached.  The whole span is decoded at the outset: when it is not
    /// well-formed UTF-8, nothing is recorded and the error reports where
    /// decoding got stuck.
    pub fn find_nth_in_str(&mut self, n: usize, start: CharPosition) -> (r: Result<
        char,
        IndexError,
    >)
        requires
            old(self).wf(),
            old(self).cache().last() == start,
        ensures
            final(self).wf(),
            final(self).bytes() == old(self).bytes(),
            cache_extends(old(self).cache(), final(self).cache()),
            ({
                let s = old(self).bytes();
                let a = start.byte_position as int;
                if span_ok(s, a, s.len() as int) {
                    let tail = span_chars(s, a, s.len() as int);
                    if (n as int) < tail.len() {
                        r matches Ok(c) && c == tail[n as int]
                    } else {
                        r == Err::<char, IndexError>(IndexError::OutOfBounds)
                    }
                } else {
                    r == Err::<char, IndexError>(
                        IndexError::InvalidChar(
                            (DecodeError { valid_up_to: stuck_at(s, a, s.len() as int) as usize }),
                        ),
                    ) && *final(self) == *old(self)
                }
            }),
    {
        let ghost s = self.bytes();
        let ghost a = start.byte_position as int;
        proof {
            lemma_cache_prefix(*self, self.cache().len() - 1);
            lemma_decode_len(s.subrange(0, a));
        }
        let end = self.map.len();
        if let Err(p) = validate_span(&self.map, start.byte_position, end) {
            return Err(IndexError::InvalidChar(DecodeError { valid_up_to: p }));
        }
        proof {
            // the prefix up to `start` and the span past it are both well
            // formed, so the whole buffer is
            lemma_span_concat(s, 0, a, s.len() as int);
            assert(s.subrange(0, s.len() as int) =~= s);
            assert(valid_utf8(s));
        }
        let ghost tail = span_chars(s, a, s.len() as int);
        let mut i = start.byte_position;
        let mut rel: usize = 0;
        loop
            invariant
                self.wf(),
                self.map@ == s,
                s == old(self).bytes(),
                cache_extends(old(self).cache(), self.cache()),
                a == start.byte_position as int,
                start.char_position as int <= a,
                a <= i as int <= s.len(),
                end == s.len(),
                rel <= n,
                rel as int <= tail.len(),
                valid_utf8(s),
                span_ok(s, a, s.len() as int),
                tail == span_chars(s, a, s.len() as int),
                span_ok(s, i as int, s.len() as int),
                span_chars(s, i as int, s.len() as int) == tail.skip(rel as int),
                span_ok(s, a, i as int),
                span_chars(s, a, i as int).len() == rel,
                self.cache().last().byte_position <= i,
                span_ok(s, self.cache().last().byte_position as int, i as int),
                span_chars(s, self.cache().last().byte_position as int, i as int).len()
                    + self.cache().last().char_position == start.char_position + rel,
                forall|j: int|
                    0 <= j < span_chars(
                        s,
                        self.cache().last().byte_position as int,
                        i as int,
                    ).len() ==> span_chars(
                        s,
                        self.cache().last().byte_position as int,
                        i as int,
                    )[j] != '\n',
            decreases end - i,
        {
            if i >= end {
                proof {
                    lemma_empty_span(s, i as int);
                    assert(tail.skip(rel as int).len() == 0);
                    assert(tail.len() == rel);
                }
                return Err(IndexError::OutOfBounds);
            }
            match decode_char_at(&self.map, i, end) {
                Some(pair) => {
                    let c = pair.0;
                    let nb = pair.1;
                    proof {
                        let sub = s.subrange(i as int, s.len() as int);
                        assert(span_chars(s, i as int, s.len() as int) == seq![
                            decode_first_scalar(sub) as char,
                        ] + decode_utf8(pop_first_scalar(sub)));
                        char_u32_cast(c, decode_first_scalar(sub));
                        assert(tail.skip(rel as int)[0] == tail[rel as int]);
                        lemma_single_scalar(s, i as int, s.len() as int);
                    }
                    // update the positions
                    let next_i = i + nb;
                    let ghost prev_cache = self.cache();
                    let ghost last = self.cache().last();
                    proof {
                        let l = nb as int;
                        // the one decoded character as a span of its own
                        assert(span_chars(s, i as int, i as int + l) == seq![c]);
                        lemma_span_concat(s, a, i as int, i as int + l);
                        lemma_span_concat(
                            s,
                            last.byte_position as int,
                            i as int,
                            i as int + l,
                        );
                        lemma_decode_len(s.subrange(a, i as int));
                    }
                    // if we have a newline we need to update the line ending indexes
                    if c == '\n' {
                        let cp = CharPosition {
                            byte_position: next_i,
                            char_position: start.char_position + rel + 1,
                        };
                        proof {
                            assert(cp_span_wf(s, last, cp));
                        }
                        self.line_ending_positions.push(cp);
                        proof {
                            assert(self.cache() == prev_cache.push(cp));
                            assert(self.cache().last() == cp);
                            assert forall|k: int| 1 <= k < self.cache().len() implies cp_span_wf(
                                s,
                                self.cache()[k - 1],
                                #[trigger] self.cache()[k],
                            ) by {
                                if k < prev_cache.len() {
                                    assert(cp_span_wf(s, prev_cache[k - 1], prev_cache[k]));
                                }
                            }
                            assert(self.wf());
                        }
                    }
                    // if we have found the index, return the char
                    if rel == n {
                        return Ok(c);
                    }
                    proof {
                        let sub = s.subrange(i as int, s.len() as int);
                        let l = nb as int;
                        assert(pop_first_scalar(sub) =~= s.subrange(i as int + l, s.len() as int));
                        assert(decode_utf8(pop_first_scalar(sub)) =~= (seq![
                            decode_first_scalar(sub) as char,
                        ] + decode_utf8(pop_first_scalar(sub))).drop_first());
                        assert(tail.skip(rel as int).drop_first() =~= tail.skip(rel as int + 1));
                        if c == '\n' {
                            lemma_empty_span(s, i as int + l);
                        }
                    }
                    rel = rel + 1;
                    i = next_i;
                },
                None => {
                    proof {
                        assert(valid_first_scalar(s.subrange(i as int, s.len() as int)));
                        assert(false);
                    }
                    return Err(IndexError::OutOfBounds);
                },
            }
        }
    }

    /// Returns the character at the given 0-based character index.  A lookup
    /// is answered from the checkpoint cache where it already covers the
    /// index, and otherwise by decoding forward from the last checkpoint,
    /// growing the cache as a side effect; either way the answer is the one
    /// that [`is_answer`] fixes from the buffer and the index alone.
    pub fn unicode_at(&mut self, index: usize) -> (r: Result<char, IndexError>)
        requires
            old(self).wf(),
        ensures
            final(self).wf(),
            final(self).bytes() == old(self).bytes(),
            cache_extends(old(self).cache(), final(self).cache()),
            is_answer(old(self).bytes(), index as int, r),
    {
        let ghost s = self.bytes();
        // Check through to see if we have something close to the index in the line cache
        match self.find_with_cache(index) {
            Some(c) => Ok(c),
            None => {
                let last_idx = self.line_ending_positions.len() - 1;
                let current = self.line_ending_positions[last_idx];
                let ghost a = current.byte_position as int;
                proof {
                    assert(current == self.cache().last());
                    lemma_cache_prefix(*self, self.cache().len() - 1);
                }
                // Go through the file until we find the index
                let r = self.find_nth_in_str(index - current.char_position, current);
                proof {
                    if span_ok(s, a, s.len() as int) {
                        lemma_span_concat(s, 0, a, s.len() as int);
                        assert(s.subrange(0, s.len() as int) =~= s);
                        assert(decode_utf8(s) == span_chars(s, 0, a) + span_chars(
                            s,
                            a,
                            s.len() as int,
                        ));
                    } else {
                        assert(!valid_utf8(s.subrange(a, s.len() as int)));
                        partial_valid_partial_invalid_utf8(s, a);
                        lemma_stuck_skip(s, 0, a, s.len() as int);
                    }
                }
                r
            },
        }
    }

    /// Creates a new `MappedFile` from the bytes of a mapped region.  The
    /// caller establishes the mapping; the cache starts as the single
    /// sentinel for the start of the buffer.
    pub fn new(map: Vec<u8>) -> (r: MappedFile)
        ensures
            r.wf(),
            r.bytes() == map@,
            r.cache().len() == 1,
    {
        MappedFile {
            map,
            line_ending_positions: vec![
                CharPosition { char_position: 0, byte_position: 0 },
            ],
        }
    }
}

/// The one answer a lookup of `index` in a buffer `s` may give, whatever the
/// cache holds:
/// - when the whole buffer is well-formed UTF-8, the character that a full
///   linear decode of `s` yields at position `index`, or `OutOfBounds` when
///   the buffer holds no more than `index` characters;
/// - otherwise `InvalidChar`, reporting the length of the longest
///   well-formed prefix of the buffer.
pub open spec fn is_answer(s: Seq<u8>, index: int, r: Result<char, IndexError>) -> bool {
    if valid_utf8(s) {
        if index < decode_utf8(s).len() {
            r == Ok::<char, IndexError>(decode_utf8(s)[index])
        } else {
            r == Err::<char, IndexError>(IndexError::OutOfBounds)
        }
    } else {
        r == Err::<char, IndexError>(
            IndexError::InvalidChar(
                (DecodeError { valid_up_to: stuck_at(s, 0, s.len() as int) as usize }),
            ),
        )
    }
}

/// Every checkpoint of a well-formed cache records a true prefix count: the
/// bytes before its byte offset are well formed and decode to exactly its
/// character index many characters.
pub proof fn lemma_cache_prefix(m: MappedFile, k: int)
    requires
        m.wf(),
        0 <= k < m.cache().len(),
    ensures
        span_ok(m.bytes(), 0, m.cache()[k].byte_position as int),
        span_chars(m.bytes(), 0, m.cache()[k].byte_position as int).len() == m.cache()[
            k
        ].char_position,
        m.cache()[k].char_position <= m.cache()[k].byte_position,
    decreases k,
{
    let s = m.bytes();
    if k == 0 {
        assert(s.subrange(0, 0) =~= Seq::<u8>::empty());
        assert(valid_utf8(s.subrange(0, 0)));
        assert(decode_utf8(s.subrange(0, 0)) =~= Seq::<char>::empty());
    } else {
        lemma_cache_prefix(m, k - 1);
        assert(cp_span_wf(s, m.cache()[k - 1], m.cache()[k]));
        lemma_span_concat(
            s,
            0,
            m.cache()[k - 1].byte_position as int,
            m.cache()[k].byte_position as int,
        );
        lemma_decode_len(
            s.subrange(
                m.cache()[k - 1].byte_position as int,
                m.cache()[k].byte_position as int,
            ),
        );
    }
}

/// A lookup's outcome is a function of the buffer contents and the queried
/// index alone: two answers for the same buffer and index agree, whatever
/// earlier queries grew the cache each answer was computed with.  Repeating
/// a query, and issuing queries in any order, therefore returns the same
/// results as issuing them in increasing order.
pub proof fn lemma_answer_deterministic(
    s: Seq<u8>,
    index: int,
    r1: Result<char, IndexError>,
    r2: Result<char, IndexError>,
)
    requires
        is_answer(s, index, r1),
        is_answer(s, index, r2),
    ensures
        r1 == r2,
{
}

/// On a buffer of well-formed UTF-8, a lookup of any index the buffer covers
/// answers with exactly the character that a full linear decode of the
/// buffer yields at that position.
pub proof fn lemma_answer_complete(s: Seq<u8>, index: int, r: Result<char, IndexError>)
    requires
        valid_utf8(s),
        0 <= index < decode_utf8(s).len(),
        is_answer(s, index, r),
    ensures
        r == Ok::<char, IndexError>(decode_utf8(s)[index]),
{
}

/// On a buffer of well-formed UTF-8, a lookup of any index at or past the
/// buffer's character count answers `OutOfBounds`.
pub proof fn lemma_answer_out_of_bounds(s: Seq<u8>, index: int, r: Result<char, IndexError>)
    requires
        valid_utf8(s),
        index >= decode_utf8(s).len(),
        is_answer(s, index, r),
    ensures
        r == Err::<char, IndexError>(IndexError::OutOfBounds),
{
}

/// Every checkpoint after the sentinel marks the start of a line of its own:
/// the character just before its character index is a line feed, so the
/// characters from the checkpoint on are attributed to the line it opens and
/// not to the previous one.
pub proof fn lemma_checkpoint_after_line_feed(m: MappedFile, k: int)
    requires
        m.wf(),
        1 <= k < m.cache().len(),
    ensures
        valid_utf8(m.bytes()),
        0 < m.cache()[k].char_position <= decode_utf8(m.bytes()).len(),
        decode_utf8(m.bytes())[m.cache()[k].char_position as int - 1] == '\n',
{
    let s = m.bytes();
    let b = m.cache()[k].byte_position as int;
    lemma_cache_prefix(m, k - 1);
    lemma_cache_prefix(m, k);
    assert(cp_span_wf(s, m.cache()[k - 1], m.cache()[k]));
    lemma_span_concat(s, 0, m.cache()[k - 1].byte_position as int, b);
    lemma_prefix_boundary(s, b);
    decode_utf8_split(s, b);
    assert(s.subrange(0, s.len() as int) =~= s);
}

/// Checkpoints grow in both coordinates along the cache.
pub proof fn lemma_cache_monotone(m: MappedFile, j: int, k: int)
    requires
        m.wf(),
        0 <= j <= k < m.cache().len(),
    ensures
        m.cache()[j].char_position <= m.cache()[k].char_position,
        m.cache()[j].byte_position <= m.cache()[k].byte_position,
    decreases k - j,
{
    if j < k {
        assert(cp_span_wf(m.bytes(), m.cache()[k - 1], m.cache()[k]));
        lemma_cache_monotone(m, j, k - 1);
    }
}

} // verus!
