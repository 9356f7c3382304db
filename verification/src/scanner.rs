//! A cursor over a byte buffer: the engine's lexical layer.
//!
//! The cursor consumes bytes from the front of a slice. Predicates handed to
//! [`StrByteIterator::read_until`] are consulted only for byte values below
//! 128, so a match can never split a multi-byte UTF-8 code point: every byte
//! of such a code point has its high bit set.

use vstd::prelude::*;

verus! {

/// The line feed byte.
pub const NEWLINE: u8 = 10;

/// The position of the first occurrence of `ch` in `s`, or `-1` when `ch`
/// does not occur.
pub open spec fn find_byte(s: Seq<u8>, ch: u8) -> int
    decreases s.len(),
{
    if s.len() == 0 {
        -1
    } else if s[0] == ch {
        0
    } else {
        let rest = find_byte(s.skip(1), ch);
        if rest < 0 {
            -1
        } else {
            rest + 1
        }
    }
}

/// What `find_byte` returns: either `-1` and no occurrence, or the first
/// occurrence.
pub proof fn lemma_find_byte(s: Seq<u8>, ch: u8)
    ensures
        find_byte(s, ch) == -1 || (0 <= find_byte(s, ch) < s.len()),
        find_byte(s, ch) == -1 ==> forall|j: int| 0 <= j < s.len() ==> s[j] != ch,
        find_byte(s, ch) >= 0 ==> s[find_byte(s, ch)] == ch,
        find_byte(s, ch) >= 0 ==> forall|j: int| 0 <= j < find_byte(s, ch) ==> s[j] != ch,
    decreases s.len(),
{
    if s.len() > 0 && s[0] != ch {
        lemma_find_byte(s.skip(1), ch);
        if find_byte(s, ch) == -1 {
            assert forall|j: int| 0 <= j < s.len() implies s[j] != ch by {
                if j > 0 {
                    assert(s[j] == s.skip(1)[j - 1]);
                }
            }
        } else {
            assert(s[find_byte(s, ch)] == s.skip(1)[find_byte(s.skip(1), ch)]);
            assert forall|j: int| 0 <= j < find_byte(s, ch) implies s[j] != ch by {
                if j > 0 {
                    assert(s[j] == s.skip(1)[j - 1]);
                }
            }
        }
    }
}

/// A position that holds the byte, with no earlier occurrence, is the one
/// `find_byte` returns.
pub proof fn lemma_find_byte_at(s: Seq<u8>, ch: u8, i: int)
    requires
        0 <= i < s.len(),
        s[i] == ch,
        forall|j: int| 0 <= j < i ==> s[j] != ch,
    ensures
        find_byte(s, ch) == i,
{
    lemma_find_byte(s, ch);
}

/// A cursor that consumes a byte buffer from the front. Its view is the
/// remaining, not yet consumed, suffix.
pub struct StrByteIterator<'a> {
    remaining: &'a [u8],
}

impl<'a> View for StrByteIterator<'a> {
    type V = Seq<u8>;

    closed spec fn view(&self) -> Seq<u8> {
        self.remaining@
    }
}

impl<'a> StrByteIterator<'a> {
    /// A cursor standing at the start of `value`.
    pub fn new(value: &'a [u8]) -> (it: Self)
        ensures
            it@ == value@,
    {
        Self { remaining: value }
    }

    /// True when nothing remains to be read.
    pub fn is_at_end(&self) -> (r: bool)
        ensures
            r == (self@.len() == 0),
    {
        self.remaining.len() == 0
    }

    /// If the remaining buffer starts with `compare_against`, consumes that
    /// prefix and returns true; otherwise leaves the cursor unchanged.
    pub fn try_read(&mut self, compare_against: &[u8]) -> (matched: bool)
        ensures
            matched == (compare_against@.len() <= old(self)@.len()
                && old(self)@.take(compare_against@.len() as int) == compare_against@),
            matched ==> final(self)@ == old(self)@.skip(compare_against@.len() as int),
            !matched ==> final(self)@ == old(self)@,
    {
        let n = compare_against.len();
        if n > self.remaining.len() {
            return false;
        }
        let mut i: usize = 0;
        while i < n
            invariant
                n == compare_against@.len(),
                n <= self.remaining@.len(),
                0 <= i <= n,
                self.remaining@ == old(self)@,
                forall|j: int| 0 <= j < i ==> self.remaining@[j] == compare_against@[j],
            decreases n - i,
        {
            if self.remaining[i] != compare_against[i] {
                proof {
                    assert(old(self)@.take(n as int)[i as int] != compare_against@[i as int]);
                }
                return false;
            }
            i += 1;
        }
        proof {
            assert(old(self)@.take(n as int) =~= compare_against@);
        }
        let (_, tail) = self.remaining.split_at(n);
        self.remaining = tail;
        true
    }

    /// Consumes bytes until `cb` accepts one (consulted only for bytes below
    /// 128), returning the consumed prefix: without the accepted byte when
    /// `include_last_byte` is false, with it when true. When no byte is
    /// accepted the whole remaining buffer is consumed.
    pub fn read_until<F: Fn(u8) -> bool>(&mut self, cb: F, include_last_byte: bool) -> (read:
        &'a [u8])
        requires
            forall|b: u8| b < 128 ==> call_requires(cb, (b,)),
        ensures
            old(self)@ == read@ + final(self)@,
            ({
                // no byte was accepted
                &&& final(self)@.len() == 0
                &&& forall|j: int|
                    0 <= j < read@.len() && read@[j] < 128 ==> call_ensures(
                        cb,
                        (#[trigger] read@[j],),
                        false,
                    )
            } || {
                // a byte was accepted, standing at the end of `read` or at
                // the head of the remainder
                let scanned = read@.len() - if include_last_byte {
                    1int
                } else {
                    0int
                };
                &&& scanned >= 0
                &&& (if include_last_byte {
                    read@[scanned] < 128 && call_ensures(cb, (read@[scanned],), true)
                } else {
                    final(self)@.len() > 0 && final(self)@[0] < 128 && call_ensures(cb, (final(self)@[0],), true)
                })
                &&& forall|j: int|
                    0 <= j < scanned && read@[j] < 128 ==> call_ensures(
                        cb,
                        (#[trigger] read@[j],),
                        false,
                    )
            }),
    {
        let len = self.remaining.len();
        let mut index: usize = 0;
        while index < len
            invariant
                forall|b: u8| b < 128 ==> call_requires(cb, (b,)),
                len == self.remaining@.len(),
                0 <= index <= len,
                self.remaining@ == old(self)@,
                forall|j: int|
                    0 <= j < index && self.remaining@[j] < 128 ==> call_ensures(
                        cb,
                        (#[trigger] self.remaining@[j],),
                        false,
                    ),
            decreases len - index,
        {
            let byte = self.remaining[index];
            if byte < 128 && cb(byte) {
                let split = if include_last_byte {
                    index + 1
                } else {
                    index
                };
                let (head, tail) = self.remaining.split_at(split);
                self.remaining = tail;
                proof {
                    assert(old(self)@ =~= head@ + tail@);
                }
                return head;
            }
            index += 1;
        }
        let (head, tail) = self.remaining.split_at(len);
        self.remaining = tail;
        proof {
            assert(old(self)@ =~= head@ + tail@);
        }
        head
    }

    /// Consumes bytes up to, not including, the first occurrence of `ch`;
    /// the cursor then stands on `ch`, or at the end when `ch` is absent.
    pub fn read_until_char(&mut self, ch: u8) -> (read: &'a [u8])
        requires
            ch < 128,
        ensures
            ({
                let s = old(self)@;
                let i = find_byte(s, ch);
                &&& i >= 0 ==> read@ == s.take(i) && final(self)@ == s.skip(i)
                &&& i < 0 ==> read@ == s && final(self)@.len() == 0
            }),
    {
        let ghost s = self@;
        let is_sought = |b: u8| -> (r: bool)
            ensures
                r == (b == ch),
            {
                b == ch
            };
        let read = self.read_until(is_sought, false);
        proof {
            if self@.len() > 0 {
                // a byte was accepted and stands at the head of the remainder
                assert forall|j: int| 0 <= j < read@.len() implies s[j] != ch by {
                    assert(s[j] == read@[j]);
                }
                assert(s[read@.len() as int] == self@[0]);
                lemma_find_byte_at(s, ch, read@.len() as int);
                assert(read@ =~= s.take(read@.len() as int));
                assert(self@ =~= s.skip(read@.len() as int));
            } else {
                assert forall|j: int| 0 <= j < s.len() implies s[j] != ch by {
                    assert(s[j] == read@[j]);
                }
                lemma_find_byte(s, ch);
                assert(read@ =~= s);
            }
        }
        read
    }

    /// Consumes one line: everything up to and including the first newline,
    /// or the whole remainder when no newline is left. Returns the empty
    /// slice only at the end of the buffer.
    pub fn read_line(&mut self) -> (line: &'a [u8])
        ensures
            ({
                let s = old(self)@;
                let i = find_byte(s, NEWLINE);
                &&& i >= 0 ==> line@ == s.take(i + 1) && final(self)@ == s.skip(i + 1)
                &&& i < 0 ==> line@ == s && final(self)@.len() == 0
            }),
    {
        let ghost s = self@;
        let is_newline = |b: u8| -> (r: bool)
            ensures
                r == (b == NEWLINE),
            {
                b == NEWLINE
            };
        let line = self.read_until(is_newline, true);
        proof {
            if line@.len() > 0 && line@[line@.len() - 1] == NEWLINE {
                // the accepting branch of read_until's contract applies
                assert forall|j: int| 0 <= j < line@.len() - 1 implies s[j] != NEWLINE by {
                    assert(s[j] == line@[j]);
                }
                assert(s[line@.len() - 1] == NEWLINE);
                lemma_find_byte_at(s, NEWLINE, line@.len() - 1);
                assert(line@ =~= s.take(line@.len() as int));
                assert(self@ =~= s.skip(line@.len() as int));
            } else {
                // no byte was accepted: the whole remainder was consumed
                assert forall|j: int| 0 <= j < s.len() implies s[j] != NEWLINE by {
                    assert(s[j] == line@[j]);
                }
                lemma_find_byte(s, NEWLINE);
                assert(line@ =~= s);
            }
        }
        line
    }

    /// Consumes and returns one byte, or `None` at the end of the buffer.
    pub fn next_byte(&mut self) -> (b: Option<u8>)
        ensures
            old(self)@.len() == 0 ==> b is None && final(self)@ == old(self)@,
            old(self)@.len() > 0 ==> b == Some(old(self)@[0]) && final(self)@ == old(self)@.skip(1),
    {
        if self.remaining.len() == 0 {
            None
        } else {
            let byte = self.remaining[0];
            let (_, tail) = self.remaining.split_at(1);
            self.remaining = tail;
            Some(byte)
        }
    }
}

} // verus!
