//! How deeply the arrays and objects of a text are nested.
//!
//! The parser walks nested values by recursion and sets no limit of its own,
//! so a text is measured here before it is handed over. The measure reads
//! the text as the parser does: a quote opens and closes a string, and inside
//! a string a backslash takes the next byte with it, or the next five when
//! that byte is `u`.

use vstd::prelude::*;

verus! {

/// The deepest nesting that is handed to the parser.
pub const MAX_DEPTH: usize = 255;

/// How far the reading of a text has come.
#[derive(Clone, Copy, Debug, PartialEq, Eq, Structural)]
pub struct Reading {
    /// The number of arrays and objects that are open.
    pub depth: usize,
    /// The greatest number that were open at once.
    pub deepest: usize,
    /// Whether the next byte belongs to a string.
    pub in_string: bool,
    /// Whether the last byte was a backslash that takes the next byte with it.
    pub escaped: bool,
    /// How many more bytes belong to the escape that is being read.
    pub pending: u8,
}

/// One more than `n`, or `n` at the end of the range.
pub open spec fn up(n: usize) -> usize {
    if n < usize::MAX {
        (n + 1) as usize
    } else {
        n
    }
}

/// One less than `n`, or `n` at zero.
pub open spec fn down(n: usize) -> usize {
    if n > 0 {
        (n - 1) as usize
    } else {
        n
    }
}

impl Reading {
    /// The reading before the first byte.
    pub open spec fn start() -> Reading {
        Reading { depth: 0, deepest: 0, in_string: false, escaped: false, pending: 0 }
    }

    /// The reading after one more byte.
    pub open spec fn step(self, byte: u8) -> Reading {
        if self.pending > 0 {
            Reading { pending: (self.pending - 1) as u8, ..self }
        } else if self.escaped {
            Reading { escaped: false, pending: if byte == 0x75 { 4u8 } else { 0u8 }, ..self }
        } else if self.in_string {
            if byte == 0x5c {
                Reading { escaped: true, ..self }
            } else if byte == 0x22 {
                Reading { in_string: false, ..self }
            } else {
                self
            }
        } else if byte == 0x22 {
            Reading { in_string: true, ..self }
        } else if byte == 0x5b || byte == 0x7b {
            Reading {
                depth: up(self.depth),
                deepest: if up(self.depth) > self.deepest {
                    up(self.depth)
                } else {
                    self.deepest
                },
                ..self
            }
        } else if byte == 0x5d || byte == 0x7d {
            Reading { depth: down(self.depth), ..self }
        } else {
            self
        }
    }

    /// The reading before the first byte.
    pub fn new() -> (r: Reading)
        ensures
            r == Reading::start(),
    {
        Reading { depth: 0, deepest: 0, in_string: false, escaped: false, pending: 0 }
    }

    /// Reads one more byte.
    pub fn advance(self, byte: u8) -> (r: Reading)
        ensures
            r == self.step(byte),
    {
        let mut next = self;
        if self.pending > 0 {
            next.pending = self.pending - 1;
        } else if self.escaped {
            next.escaped = false;
            next.pending = if byte == 0x75 {
                4
            } else {
                0
            };
        } else if self.in_string {
            if byte == 0x5c {
                next.escaped = true;
            } else if byte == 0x22 {
                next.in_string = false;
            }
        } else if byte == 0x22 {
            next.in_string = true;
        } else if byte == 0x5b || byte == 0x7b {
            if self.depth < usize::MAX {
                next.depth = self.depth + 1;
            }
            if next.depth > self.deepest {
                next.deepest = next.depth;
            }
        } else if byte == 0x5d || byte == 0x7d {
            if self.depth > 0 {
                next.depth = self.depth - 1;
            }
        }
        next
    }
}

/// The reading after the whole of `text`.
pub open spec fn read(text: Seq<u8>) -> Reading
    decreases text.len(),
{
    if text.len() == 0 {
        Reading::start()
    } else {
        read(text.drop_last()).step(text.last())
    }
}

/// The greatest number of arrays and objects that are open at once in
/// `text`.
pub open spec fn deepest(text: Seq<u8>) -> nat {
    read(text).deepest as nat
}

/// Whether `text` is nested no deeper than the parser is trusted with.
pub open spec fn shallow(text: Seq<u8>) -> bool {
    deepest(text) <= MAX_DEPTH
}

/// Measures the greatest number of arrays and objects that are open at once
/// in `text`.
pub fn nesting(text: &[u8]) -> (r: usize)
    ensures
        r == deepest(text@),
{
    let mut reading = Reading::new();
    let mut i: usize = 0;
    assert(text@.take(0) =~= Seq::<u8>::empty());
    while i < text.len()
        invariant
            i <= text.len(),
            reading == read(text@.take(i as int)),
        decreases text.len() - i,
    {
        proof {
            assert(text@.take(i + 1).drop_last() =~= text@.take(i as int));
            assert(text@.take(i + 1).last() == text@[i as int]);
        }
        reading = reading.advance(text[i]);
        i += 1;
    }
    assert(text@.take(i as int) =~= text@);
    reading.deepest
}

/// Whether `text` is nested no deeper than the parser is trusted with.
pub fn is_shallow(text: &[u8]) -> (r: bool)
    ensures
        r == shallow(text@),
{
    nesting(text) <= MAX_DEPTH
}

} // verus!
