//! Lengths and spans of text, counted in bytes of UTF-8.

use vstd::prelude::*;

verus! {

/// The number of bytes that `text` takes in UTF-8.
pub open spec fn utf8_len(text: Seq<char>) -> nat {
    vstd::utf8::encode_utf8(text).len()
}

/// A length of text, or an offset into a text, in bytes of UTF-8.
#[derive(Clone, Copy, Debug, PartialEq, Eq, Structural, PartialOrd, Ord, Hash)]
pub struct TextSize {
    pub raw: u32,
}

impl TextSize {
    /// The number of bytes that `text` takes.
    pub fn of(text: &str) -> (size: TextSize)
        requires
            utf8_len(text@) <= u32::MAX,
        ensures
            size.raw == utf8_len(text@),
    {
        let len: usize = text.len();
        TextSize { raw: len as u32 }
    }
}

/// A span of text between two offsets, `start <= end`.
#[derive(Clone, Copy, Debug, PartialEq, Eq, Hash)]
pub struct TextRange {
    start: TextSize,
    end: TextSize,
}

impl TextRange {
    #[verifier::type_invariant]
    spec fn ordered(self) -> bool {
        self.start.raw <= self.end.raw
    }

    /// The offset at which the range begins.
    pub closed spec fn spec_start(self) -> TextSize {
        self.start
    }

    /// The offset just behind the range.
    pub closed spec fn spec_end(self) -> TextSize {
        self.end
    }

    /// Whether `other` lies wholly inside this range, bounds included.
    pub open spec fn spec_contains_range(self, other: TextRange) -> bool {
        self.spec_start().raw <= other.spec_start().raw && other.spec_end().raw
            <= self.spec_end().raw
    }

    /// The range from `start` up to `end`.
    pub fn new(start: TextSize, end: TextSize) -> (range: TextRange)
        requires
            start.raw <= end.raw,
        ensures
            range.spec_start() == start,
            range.spec_end() == end,
    {
        TextRange { start, end }
    }

    /// The range of `len` bytes that begins at `offset`.
    pub fn at(offset: TextSize, len: TextSize) -> (range: TextRange)
        requires
            offset.raw + len.raw <= u32::MAX,
        ensures
            range.spec_start() == offset,
            range.spec_end().raw == offset.raw + len.raw,
    {
        TextRange { start: offset, end: TextSize { raw: offset.raw + len.raw } }
    }

    #[verifier::when_used_as_spec(spec_start)]
    pub fn start(self) -> (start: TextSize)
        ensures
            start == self.spec_start(),
    {
        self.start
    }

    #[verifier::when_used_as_spec(spec_end)]
    pub fn end(self) -> (end: TextSize)
        ensures
            end == self.spec_end(),
            self.spec_start().raw <= end.raw,
    {
        proof {
            use_type_invariant(&self);
        }
        self.end
    }

    /// The number of bytes in the range.
    pub fn len(self) -> (len: TextSize)
        ensures
            len.raw == self.spec_end().raw - self.spec_start().raw,
    {
        proof {
            use_type_invariant(&self);
        }
        TextSize { raw: self.end.raw - self.start.raw }
    }

    pub fn is_empty(self) -> (empty: bool)
        ensures
            empty == (self.spec_start() == self.spec_end()),
    {
        self.start.raw == self.end.raw
    }

    #[verifier::when_used_as_spec(spec_contains_range)]
    pub fn contains_range(self, other: TextRange) -> (inside: bool)
        ensures
            inside == self.spec_contains_range(other),
    {
        self.start.raw <= other.start.raw && other.end.raw <= self.end.raw
    }
}

} // verus!
