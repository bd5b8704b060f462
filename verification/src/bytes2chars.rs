//! lazily decodes utf-8 `char`s from bytes
//!
//! provides a push based [`Utf8Decoder`] and fallible analogs to
//! `str::CharIndices` ([`Utf8CharIndices`]) and `str::Chars` ([`Utf8Chars`])
//! that report the byte range and the cause of every invalid sequence.
mod decoder;
mod iter;

pub use decoder::{
    Utf8Decoder, acc_codepoint, all_ok, classify, decode_items, finish_result, first_bad,
    first_step, item_chars, lead_len, lead_payload, lemma_decode_items_extend,
    lemma_decode_matches_utf8, min_bytes, reported, to_item,
};
pub use iter::{Utf8CharIndices, Utf8Chars, decode_all};

use vstd::prelude::*;

verus! {

/// the reason a byte sequence is not valid utf-8
#[derive(Clone, Copy, Debug, PartialEq, Eq, Hash)]
pub enum ErrorKind {
    /// byte cannot start a UTF-8 sequence
    InvalidLead(u8),
    /// byte would start a sequence of 5 or more bytes
    InvalidSequenceLength(u8),
    /// expected a continuation byte, found this one
    ExpectedContinuation(u8),
    /// invalid surrogate code point
    InvalidSurrogate(u32),
    /// overlong encoding of this code point
    Overlong(u32),
    /// code point exceeds maximum U+10FFFF
    OutOfRange(u32),
    /// unfinished multi-byte sequence
    UnfinishedSequence,
}

/// invalid utf-8 at the given byte range
#[derive(Debug, PartialEq, Eq, Hash)]
pub struct Error {
    /// byte range of the invalid sequence
    pub range: core::ops::Range<usize>,
    /// what is wrong with the sequence
    pub kind: ErrorKind,
}

impl Clone for Error {
    fn clone(&self) -> (res: Self)
        ensures
            res == *self,
    {
        Error { range: self.range.start..self.range.end, kind: self.kind }
    }
}

} // verus!
