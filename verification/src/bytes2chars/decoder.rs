use vstd::prelude::*;
use vstd::utf8::*;

use super::{Error, ErrorKind};
use crate::text::char_from_u32;

verus! {

/// length of the sequence announced by the non-ASCII lead byte `b`
pub open spec fn lead_len(b: u8) -> Result<u8, ErrorKind> {
    if b <= 0xC1 {
        Err(ErrorKind::InvalidLead(b))
    } else if b <= 0xDF {
        Ok(2u8)
    } else if b <= 0xEF {
        Ok(3u8)
    } else if b <= 0xF4 {
        Ok(4u8)
    } else if b <= 0xF7 {
        Err(ErrorKind::InvalidLead(b))
    } else {
        Err(ErrorKind::InvalidSequenceLength(b))
    }
}

/// the payload bits of a lead byte of a sequence of `n` bytes
pub open spec fn lead_payload(b: u8, n: u8) -> u32 {
    if n == 2 {
        (b & 0x1F) as u32
    } else if n == 3 {
        (b & 0x0F) as u32
    } else {
        (b & 0x07) as u32
    }
}

/// the code point accumulated from the first bytes of a sequence of `n` bytes
pub open spec fn acc_codepoint(bytes: Seq<u8>, n: u8) -> u32
    decreases bytes.len(),
{
    if bytes.len() <= 1 {
        lead_payload(bytes[0], n)
    } else {
        (acc_codepoint(bytes.drop_last(), n) << 6) | ((bytes.last() & 0x3F) as u32)
    }
}

/// fewest bytes that encode the code point `cp`
pub open spec fn min_bytes(cp: u32) -> u8 {
    if cp <= 0x7F {
        1
    } else if cp <= 0x7FF {
        2
    } else if cp <= 0xFFFF {
        3
    } else {
        4
    }
}

/// the verdict on a complete sequence of `n` bytes encoding `cp`
pub open spec fn classify(cp: u32, n: u8) -> Result<char, ErrorKind> {
    if 0xD800 <= cp <= 0xDFFF {
        Err(ErrorKind::InvalidSurrogate(cp))
    } else if cp > 0x10FFFF {
        Err(ErrorKind::OutOfRange(cp))
    } else if n != min_bytes(cp) {
        Err(ErrorKind::Overlong(cp))
    } else {
        Ok(cp as char)
    }
}

/// first index in `j..n` that holds a byte of `bytes` which is not a continuation byte
pub open spec fn first_bad(bytes: Seq<u8>, j: int, n: int) -> Option<int>
    decreases n - j,
{
    if j >= n || j >= bytes.len() {
        None
    } else if !is_continuation_byte(bytes[j]) {
        Some(j)
    } else {
        first_bad(bytes, j + 1, n)
    }
}

/// what the decoder makes of the bytes that start at the beginning of a sequence:
/// the number of bytes the first item consumes and the item itself, or `None`
/// when the bytes end before the first sequence is complete
pub open spec fn first_step(bytes: Seq<u8>) -> Option<(int, Result<char, ErrorKind>)> {
    if bytes.len() == 0 {
        None
    } else if bytes[0] < 0x80 {
        Some((1, Ok(bytes[0] as char)))
    } else {
        match lead_len(bytes[0]) {
            Err(k) => Some((1, Err(k))),
            Ok(n) => match first_bad(bytes, 1, n as int) {
                Some(j) => Some((j + 1, Err(ErrorKind::ExpectedContinuation(bytes[j])))),
                None => if bytes.len() < n {
                    None
                } else {
                    Some((n as int, classify(decode_first_codepoint(bytes), n)))
                },
            },
        }
    }
}

/// the result that reports an item of `n` bytes starting at byte `start`
pub open spec fn to_item(start: int, n: int, r: Result<char, ErrorKind>) -> Result<
    (usize, char),
    Error,
> {
    match r {
        Ok(c) => Ok((start as usize, c)),
        Err(k) => Err(Error { range: (start as usize)..((start + n) as usize), kind: k }),
    }
}

/// the items decoded from `bytes`, whose first byte sits at offset `base`,
/// and the trailing bytes of a sequence that is not complete yet
pub open spec fn decode_items(bytes: Seq<u8>, base: int) -> (Seq<Result<(usize, char), Error>>, Seq<u8>)
    decreases bytes.len(),
{
    match first_step(bytes) {
        None => (seq![], bytes),
        Some((n, r)) => if 0 < n <= bytes.len() {
            let rest = decode_items(bytes.subrange(n, bytes.len() as int), base + n);
            (seq![to_item(base, n, r)] + rest.0, rest.1)
        } else {
            (seq![], bytes)
        },
    }
}

/// a continuation byte has the bit pattern `10xxxxxx`
fn is_utf8_continuation(b: u8) -> (res: bool)
    ensures
        res == is_continuation_byte(b),
{
    assert((b & 0xC0u8 == 0x80u8) == (0x80u8 <= b && b <= 0xBFu8)) by (bit_vector);
    b & 0xC0 == 0x80
}

/// length of the sequence that the non-ASCII byte `b` starts
fn utf8_seq_len(b: u8) -> (res: Result<u8, ErrorKind>)
    requires
        b >= 0x80,
    ensures
        res == lead_len(b),
{
    if b <= 0xC1 {
        Err(ErrorKind::InvalidLead(b))
    } else if b <= 0xDF {
        Ok(2)
    } else if b <= 0xEF {
        Ok(3)
    } else if b <= 0xF4 {
        Ok(4)
    } else if b <= 0xF7 {
        Err(ErrorKind::InvalidLead(b))
    } else {
        Err(ErrorKind::InvalidSequenceLength(b))
    }
}

/// a partially decoded multi-byte sequence
#[derive(Clone, Copy, Debug, PartialEq, Eq)]
struct UtfStateInner {
    codepoint: u32,
    bytes: u8,
    max_bytes: u8,
}

impl UtfStateInner {
    /// the state has consumed exactly the bytes `p` of a sequence that its
    /// lead byte announced to be `max_bytes` long
    spec fn holds(self, p: Seq<u8>) -> bool {
        &&& 2 <= self.max_bytes <= 4
        &&& self.bytes == p.len()
        &&& self.bytes <= self.max_bytes
        &&& p.len() == 0 ==> self.codepoint == 0
        &&& p.len() > 0 ==> {
            &&& p[0] >= 0x80
            &&& lead_len(p[0]) == Ok::<u8, ErrorKind>(self.max_bytes)
            &&& forall|i: int| 1 <= i < p.len() ==> is_continuation_byte(#[trigger] p[i])
            &&& self.codepoint == acc_codepoint(p, self.max_bytes)
        }
    }

    fn new(max_bytes: u8) -> (res: Self)
        requires
            2 <= max_bytes <= 4,
        ensures
            res.holds(Seq::empty()),
            res.max_bytes == max_bytes,
    {
        Self { codepoint: 0, bytes: 0, max_bytes }
    }

    fn lead_payload_bits(b: u8, max_bytes: u8) -> (res: u32)
        requires
            2 <= max_bytes <= 4,
        ensures
            res == lead_payload(b, max_bytes),
    {
        let mask: u8 = if max_bytes == 2 {
            0b0001_1111
        } else if max_bytes == 3 {
            0b0000_1111
        } else {
            0b0000_0111
        };
        (b & mask) as u32
    }

    fn continuation_payload_bits(b: u8) -> (res: u32)
        ensures
            res == (b & 0x3F) as u32,
    {
        (b & 0b0011_1111) as u32
    }

    fn push(&mut self, b: u8, Ghost(p): Ghost<Seq<u8>>)
        requires
            old(self).holds(p),
            old(self).bytes < old(self).max_bytes,
            p.len() == 0 ==> b >= 0x80 && lead_len(b) == Ok::<u8, ErrorKind>(old(self).max_bytes),
            p.len() > 0 ==> is_continuation_byte(b),
        ensures
            final(self).holds(p.push(b)),
            final(self).max_bytes == old(self).max_bytes,
    {
        let q = Ghost(p.push(b));
        if self.bytes == 0 {
            self.codepoint = Self::lead_payload_bits(b, self.max_bytes);
            assert(q@.drop_last() =~= p);
        } else {
            self.codepoint = (self.codepoint << 6) | Self::continuation_payload_bits(b);
            assert(q@.drop_last() =~= p);
        }
        self.bytes = self.bytes + 1;
        assert forall|i: int| 1 <= i < q@.len() implies is_continuation_byte(#[trigger] q@[i]) by {
            if i < p.len() {
                assert(q@[i] == p[i]);
            }
        }
    }

    fn is_done(&self) -> (res: bool)
        ensures
            res == (self.bytes == self.max_bytes),
    {
        self.bytes == self.max_bytes
    }

    fn from_byte(b: u8, remaining_bytes: u8) -> (res: Self)
        requires
            b >= 0x80,
            lead_len(b) == Ok::<u8, ErrorKind>(remaining_bytes),
        ensures
            res.holds(seq![b]),
            res.max_bytes == remaining_bytes,
    {
        let mut s = Self::new(remaining_bytes);
        s.push(b, Ghost(Seq::empty()));
        assert(Seq::<u8>::empty().push(b) =~= seq![b]);
        s
    }
}

/// the state of the decoder between bytes
#[derive(Clone, Copy, Debug, PartialEq, Eq)]
enum Utf8State {
    Idle,
    Expecting(UtfStateInner),
    Done(char),
}

impl Utf8State {
    /// the state holds exactly the bytes `p` of an unfinished sequence
    spec fn holds(self, p: Seq<u8>) -> bool {
        match self {
            Utf8State::Idle => p.len() == 0,
            Utf8State::Expecting(inner) => inner.holds(p) && 1 <= p.len() < inner.max_bytes,
            Utf8State::Done(_) => false,
        }
    }

    /// consumes the non-ASCII byte `b` after the pending bytes `p`: the
    /// result is what `first_step` makes of `p` followed by `b`
    fn process(self, b: u8, Ghost(p): Ghost<Seq<u8>>) -> (res: Result<Self, ErrorKind>)
        requires
            self.holds(p),
            p.len() == 0 ==> b >= 0x80,
        ensures
            match first_step(p.push(b)) {
                None => match res {
                    Ok(Utf8State::Expecting(inner)) => inner.holds(p.push(b)) && p.len() + 1
                        < inner.max_bytes,
                    _ => false,
                },
                Some((n, r)) => n == p.len() + 1 && match r {
                    Ok(c) => res == Ok::<Utf8State, ErrorKind>(Utf8State::Done(c)),
                    Err(k) => res == Err::<Utf8State, ErrorKind>(k),
                },
            },
    {
        let ghost q = p.push(b);
        match self {
            Utf8State::Idle => {
                assert(q =~= seq![b]);
                let seq_len = utf8_seq_len(b)?;
                Ok(Utf8State::Expecting(UtfStateInner::from_byte(b, seq_len)))
            },
            Utf8State::Expecting(inner) => {
                let mut state = inner;
                proof {
                    assert(q[0] == p[0]);
                    assert forall|i: int| 1 <= i < q.len() - 1 implies is_continuation_byte(
                        #[trigger] q[i],
                    ) by {
                        assert(q[i] == p[i]);
                    }
                    lemma_first_bad_last(q, 1, inner.max_bytes as int);
                }
                if !is_utf8_continuation(b) {
                    return Err(ErrorKind::ExpectedContinuation(b));
                }
                state.push(b, Ghost(p));
                if state.is_done() {
                    proof {
                        lemma_acc_codepoint_complete(q, state.max_bytes);
                    }
                    validate_utf8_sequence(&state)?;
                    match char_from_u32(state.codepoint) {
                        Some(c) => Ok(Utf8State::Done(c)),
                        None => {
                            proof {
                                assert(false);
                            }
                            Err(ErrorKind::OutOfRange(state.codepoint))
                        },
                    }
                } else {
                    Ok(Utf8State::Expecting(state))
                }
            },
            Utf8State::Done(_) => {
                proof {
                    assert(false);
                }
                Err(ErrorKind::UnfinishedSequence)
            },
        }
    }
}

/// rejects surrogates, code points above `U+10FFFF` and overlong encodings
fn validate_utf8_sequence(bytes: &UtfStateInner) -> (res: Result<(), ErrorKind>)
    ensures
        match classify(bytes.codepoint, bytes.bytes) {
            Ok(_) => res is Ok && is_scalar(bytes.codepoint),
            Err(k) => res == Err::<(), ErrorKind>(k),
        },
{
    let codepoint = bytes.codepoint;
    if 0xD800 <= codepoint && codepoint <= 0xDFFF {
        return Err(ErrorKind::InvalidSurrogate(codepoint));
    }
    if codepoint > 0x0010_FFFF {
        return Err(ErrorKind::OutOfRange(codepoint));
    }
    if bytes.bytes != min_bytes_for_code_point(codepoint) {
        return Err(ErrorKind::Overlong(codepoint));
    }
    Ok(())
}

fn min_bytes_for_code_point(cp: u32) -> (res: u8)
    requires
        cp <= 0x10FFFF,
    ensures
        res == min_bytes(cp),
{
    if cp <= 0x007F {
        1
    } else if cp <= 0x07FF {
        2
    } else if cp <= 0xFFFF {
        3
    } else {
        4
    }
}

/// `first_bad` only looks at the bytes it is asked about
proof fn lemma_first_bad_last(q: Seq<u8>, j: int, n: int)
    requires
        1 <= j,
        q.len() >= 1,
        j <= q.len(),
        q.len() <= n,
        forall|i: int| j <= i < q.len() - 1 ==> is_continuation_byte(#[trigger] q[i]),
    ensures
        first_bad(q, j, n) == (if j <= q.len() - 1 && !is_continuation_byte(q.last()) {
            Some(q.len() - 1)
        } else {
            None::<int>
        }),
    decreases n - j,
{
    if j < n && j < q.len() {
        lemma_first_bad_last(q, j + 1, n);
    }
}

/// the accumulated code point of a complete sequence is the one that vstd decodes
proof fn lemma_acc_codepoint_complete(q: Seq<u8>, n: u8)
    requires
        2 <= n <= 4,
        q.len() == n,
        q[0] >= 0x80,
        lead_len(q[0]) == Ok::<u8, ErrorKind>(n),
    ensures
        acc_codepoint(q, n) == decode_first_codepoint(q),
{
    let b0 = q[0];
    let b1 = q[1];
    reveal_with_fuel(acc_codepoint, 4);
    if n == 2 {
        assert(q.drop_last().len() == 1);
        assert(acc_codepoint(q, n) == ((b0 & 0x1F) as u32) << 6 | ((b1 & 0x3F) as u32));
    } else if n == 3 {
        let b2 = q[2];
        assert(q.drop_last().drop_last().len() == 1);
        assert(q.drop_last().last() == b1);
        assert(acc_codepoint(q, n) == (((b0 & 0x0F) as u32) << 6 | ((b1 & 0x3F) as u32)) << 6 | ((b2 & 0x3F) as u32));
        assert((((b0 & 0x0F) as u32) << 6 | ((b1 & 0x3F) as u32)) << 6 | ((b2 & 0x3F) as u32)
            == (((b0 & 0x0F) as u32) << 12) | (((b1 & 0x3F) as u32) << 6) | ((b2 & 0x3F) as u32)) by (bit_vector);
    } else {
        let b2 = q[2];
        let b3 = q[3];
        assert(q.drop_last().drop_last().drop_last().len() == 1);
        assert(q.drop_last().last() == b2);
        assert(q.drop_last().drop_last().last() == b1);
        assert(acc_codepoint(q, n) == ((((b0 & 0x07) as u32) << 6 | ((b1 & 0x3F) as u32)) << 6 | ((b2 & 0x3F) as u32)) << 6 | ((b3 & 0x3F) as u32));
        assert(((((b0 & 0x07) as u32) << 6 | ((b1 & 0x3F) as u32)) << 6 | ((b2 & 0x3F) as u32)) << 6 | ((b3 & 0x3F) as u32)
            == (((b0 & 0x07) as u32) << 18) | (((b1 & 0x3F) as u32) << 12) | (((b2 & 0x3F) as u32) << 6) | ((b3 & 0x3F) as u32)) by (bit_vector);
    }
}

/// a result that the first index `first_bad` reports lies in the window it scans
proof fn lemma_first_bad_bounds(bytes: Seq<u8>, j: int, n: int)
    ensures
        first_bad(bytes, j, n) matches Some(k) ==> j <= k < bytes.len() && k < n
            && !is_continuation_byte(bytes[k]),
    decreases n - j,
{
    if j < n && j < bytes.len() && is_continuation_byte(bytes[j]) {
        lemma_first_bad_bounds(bytes, j + 1, n);
    }
}

/// appending bytes does not change what `first_bad` found in a window that was fully present
proof fn lemma_first_bad_extend(h: Seq<u8>, e: Seq<u8>, j: int, n: int)
    requires
        0 <= j,
        first_bad(h, j, n) is Some || h.len() >= n,
    ensures
        first_bad(h + e, j, n) == first_bad(h, j, n),
    decreases n - j,
{
    if j < n {
        assert((h + e)[j] == h[j]);
        if is_continuation_byte(h[j]) {
            lemma_first_bad_extend(h, e, j + 1, n);
        }
    }
}

/// the first item consumes at least one and at most all of the bytes
pub(crate) proof fn lemma_first_step_len(h: Seq<u8>)
    ensures
        first_step(h) matches Some((n, _)) ==> 1 <= n <= h.len(),
{
    if h.len() > 0 && h[0] >= 0x80 {
        if let Ok(n) = lead_len(h[0]) {
            lemma_first_bad_bounds(h, 1, n as int);
        }
    }
}

/// the first item depends only on its own bytes
proof fn lemma_first_step_extend(h: Seq<u8>, e: Seq<u8>)
    requires
        first_step(h) is Some,
    ensures
        first_step(h + e) == first_step(h),
{
    assert((h + e)[0] == h[0]);
    if h[0] >= 0x80 {
        if let Ok(n) = lead_len(h[0]) {
            lemma_first_bad_extend(h, e, 1, n as int);
            lemma_first_bad_bounds(h, 1, n as int);
            if let Some(j) = first_bad(h, 1, n as int) {
                assert((h + e)[j] == h[j]);
            }
            if first_bad(h, 1, n as int) is None {
                assert((h + e)[1] == h[1]);
                if n >= 3 {
                    assert((h + e)[2] == h[2]);
                }
                if n >= 4 {
                    assert((h + e)[3] == h[3]);
                }
            }
        }
    }
}

/// decoding bytes `h` followed by `e` decodes the complete items of `h`, then
/// continues from the bytes of `h` that were still pending
pub proof fn lemma_decode_items_extend(h: Seq<u8>, e: Seq<u8>, base: int)
    ensures
        ({
            let (items, p) = decode_items(h, base);
            let (more, q) = decode_items(p + e, base + h.len() - p.len());
            &&& p.len() <= h.len()
            &&& p == h.subrange(h.len() - p.len(), h.len() as int)
            &&& decode_items(h + e, base) == (items + more, q)
        }),
    decreases h.len(),
{
    lemma_first_step_len(h);
    match first_step(h) {
        None => {
            assert(h.subrange(0, h.len() as int) =~= h);
            assert(Seq::<Result<(usize, char), Error>>::empty() + decode_items(h + e, base).0
                =~= decode_items(h + e, base).0);
        },
        Some((n, r)) => {
            lemma_first_step_extend(h, e);
            let t = h.subrange(n, h.len() as int);
            lemma_first_step_len(h + e);
            assert((h + e).subrange(n, (h + e).len() as int) =~= t + e);
            lemma_decode_items_extend(t, e, base + n);
            let (items, p) = decode_items(t, base + n);
            assert(p == h.subrange(h.len() - p.len(), h.len() as int));
            let (more, q) = decode_items(p + e, base + h.len() - p.len());
            assert(seq![to_item(base, n, r)] + (items + more) =~= (seq![to_item(base, n, r)]
                + items) + more);
        },
    }
}

/// the sequence holding the item that a push reported, if any
pub open spec fn reported(res: Option<Result<(usize, char), Error>>) -> Seq<
    Result<(usize, char), Error>,
> {
    match res {
        Some(item) => seq![item],
        None => seq![],
    }
}

/// what flushing a decoder that consumed `bytes` from offset `base` gives:
/// the number of bytes consumed, or the range of a truncated sequence
pub open spec fn finish_result(bytes: Seq<u8>, base: int) -> Result<usize, Error> {
    let p = decode_items(bytes, base).1;
    if p.len() == 0 {
        Ok((base + bytes.len()) as usize)
    } else {
        Err(
            Error {
                range: ((base + bytes.len() - p.len()) as usize)..((base + bytes.len()) as usize),
                kind: ErrorKind::UnfinishedSequence,
            },
        )
    }
}

/// push based UTF-8 decoder that tracks byte positions
pub struct Utf8Decoder {
    state: Utf8State,
    /// offset of the current sequence
    sequence_offset: usize,
    /// byte offset of the next byte to be consumed
    offset: usize,
    /// every byte pushed so far
    history: Ghost<Seq<u8>>,
}

/// a decoder that starts at byte offset 0
impl Default for Utf8Decoder {
    fn default() -> (res: Self)
        ensures
            res.wf(),
            res.history() == Seq::<u8>::empty(),
            res.offset() == 0,
    {
        Utf8Decoder::new(0)
    }
}

impl Utf8Decoder {
    /// every byte pushed so far
    pub closed spec fn history(&self) -> Seq<u8> {
        self.history@
    }

    /// byte offset of the next byte to be consumed
    pub closed spec fn offset(&self) -> int {
        self.offset as int
    }

    /// byte offset of the first byte pushed
    pub open spec fn base(&self) -> int {
        self.offset() - self.history().len()
    }

    /// the state agrees with the bytes pushed so far
    pub closed spec fn wf(&self) -> bool {
        let p = decode_items(self.history@, self.base()).1;
        &&& self.history@.len() <= self.offset
        &&& self.state.holds(p)
        &&& p.len() > 0 ==> self.sequence_offset == self.offset - p.len()
    }

    /// create a decoder starting at byte offset `offset`
    pub fn new(offset: usize) -> (res: Self)
        ensures
            res.wf(),
            res.history() == Seq::<u8>::empty(),
            res.offset() == offset,
    {
        Self {
            state: Utf8State::Idle,
            sequence_offset: offset,
            offset,
            history: Ghost(Seq::empty()),
        }
    }

    /// process a single byte: reports the char or the error that the byte
    /// completes, if any. The items reported so far are exactly the complete
    /// items that `decode_items` finds in all the bytes pushed.
    pub fn push(&mut self, b: u8) -> (res: Option<Result<(usize, char), Error>>)
        requires
            old(self).wf(),
            old(self).offset() < usize::MAX,
        ensures
            final(self).wf(),
            final(self).history() == old(self).history().push(b),
            final(self).base() == old(self).base(),
            decode_items(final(self).history(), final(self).base()).0 == decode_items(
                old(self).history(),
                old(self).base(),
            ).0 + reported(res),
    {
        let ghost old_h = self.history@;
        let ghost base = self.base();
        let ghost p = decode_items(old_h, base).1;
        let ghost pbase = base + old_h.len() - p.len();
        proof {
            lemma_decode_items_extend(old_h, seq![b], base);
            assert(old_h + seq![b] =~= old_h.push(b));
            assert(p + seq![b] =~= p.push(b));
            reveal_with_fuel(decode_items, 2);
            lemma_first_step_len(p.push(b));
        }
        let curr_idx = self.offset;
        self.offset = curr_idx + 1;
        self.history = Ghost(old_h.push(b));
        if let Utf8State::Idle = self.state {
            if b < 0x80 {
                proof {
                    assert(p.push(b).subrange(1, 1) =~= Seq::<u8>::empty());
                }
                return Some(Ok((curr_idx, b as char)));
            }
            self.sequence_offset = curr_idx;
        }
        match self.state.process(b, Ghost(p)) {
            Err(kind) => {
                self.state = Utf8State::Idle;
                proof {
                    assert(p.push(b).subrange(p.len() + 1int, p.len() + 1int) =~= Seq::<u8>::empty());
                }
                return Some(Err(Error { range: self.sequence_offset..curr_idx + 1, kind }));
            },
            Ok(state) => self.state = state,
        }
        if let Utf8State::Done(c) = self.state {
            self.state = Utf8State::Idle;
            proof {
                assert(p.push(b).subrange(p.len() + 1int, p.len() + 1int) =~= Seq::<u8>::empty());
            }
            Some(Ok((self.sequence_offset, c)))
        } else {
            None
        }
    }

    /// flush the decoder when there are no more bytes left: on success the
    /// total number of bytes consumed, else an error of kind
    /// `UnfinishedSequence` covering the truncated sequence
    pub fn finish(self) -> (res: Result<usize, Error>)
        requires
            self.wf(),
        ensures
            res == finish_result(self.history(), self.base()),
    {
        if let Utf8State::Expecting(_) = self.state {
            Err(
                Error {
                    range: self.sequence_offset..self.offset,
                    kind: ErrorKind::UnfinishedSequence,
                },
            )
        } else {
            Ok(self.offset)
        }
    }
}

} // verus!

verus! {

proof fn lemma_width_2_bounds(b1: u8, b2: u8)
    ensures
        codepoint_width_2(b1, b2) <= 0x7FF,
        (0xC0 <= b1 <= 0xC1) ==> codepoint_width_2(b1, b2) < 0x80,
{
    assert(((b1 & 0x1F) as u32) << 6 | ((b2 & 0x3F) as u32) <= 0x7FF) by (bit_vector);
    assert((0xC0 <= b1 && b1 <= 0xC1) ==> ((b1 & 0x1F) as u32) << 6 | ((b2 & 0x3F) as u32) < 0x80)
        by (bit_vector);
}

proof fn lemma_width_3_bounds(b1: u8, b2: u8, b3: u8)
    ensures
        codepoint_width_3(b1, b2, b3) <= 0xFFFF,
{
    assert((((b1 & 0x0F) as u32) << 12) | (((b2 & 0x3F) as u32) << 6) | ((b3 & 0x3F) as u32)
        <= 0xFFFF) by (bit_vector);
}

proof fn lemma_width_4_bounds(b1: u8, b2: u8, b3: u8, b4: u8)
    ensures
        (0xF5 <= b1 <= 0xF7) ==> codepoint_width_4(b1, b2, b3, b4) > 0x10FFFF,
{
    assert((0xF5 <= b1 && b1 <= 0xF7) ==> (((b1 & 0x07) as u32) << 18) | (((b2 & 0x3F) as u32)
        << 12) | (((b3 & 0x3F) as u32) << 6) | ((b4 & 0x3F) as u32) > 0x10FFFF) by (bit_vector);
}

/// the decoder accepts the first item exactly when vstd finds a well-formed
/// first scalar, and then agrees with vstd on its length and value
pub proof fn lemma_first_step_valid_first_scalar(bytes: Seq<u8>)
    requires
        bytes.len() > 0,
    ensures
        (first_step(bytes) matches Some((_, Ok(_)))) <==> valid_first_scalar(bytes),
        first_step(bytes) matches Some((n, Ok(c))) ==> n == length_of_first_scalar(bytes) && c
            == decode_first_scalar(bytes) as char,
{
    let b0 = bytes[0];
    if b0 < 0x80 {
        assert(b0 & 0x7F == b0) by (bit_vector)
            requires
                b0 < 0x80,
        ;
    } else {
        lemma_first_bad_bounds(bytes, 1, 4);
        if bytes.len() >= 2 {
            lemma_width_2_bounds(b0, bytes[1]);
        }
        if bytes.len() >= 3 {
            lemma_width_3_bounds(b0, bytes[1], bytes[2]);
        }
        if bytes.len() >= 4 {
            lemma_width_4_bounds(b0, bytes[1], bytes[2], bytes[3]);
        }
        match lead_len(b0) {
            Err(_) => {},
            Ok(n) => {
                lemma_first_bad_bounds(bytes, 1, n as int);
                if first_bad(bytes, 1, n as int) is None && bytes.len() >= n {
                    lemma_first_bad_none(bytes, 1, n as int);
                }
            },
        }
    }
}

/// when `first_bad` finds nothing, every byte in the window is a continuation byte
proof fn lemma_first_bad_none(bytes: Seq<u8>, j: int, n: int)
    requires
        first_bad(bytes, j, n) is None,
        n <= bytes.len(),
    ensures
        forall|i: int| j <= i < n ==> is_continuation_byte(#[trigger] bytes[i]),
    decreases n - j,
{
    if j < n {
        lemma_first_bad_none(bytes, j + 1, n);
    }
}

/// the chars of decoded items that are all `Ok`
pub open spec fn item_chars(items: Seq<Result<(usize, char), Error>>) -> Seq<char> {
    items.map_values(|r: Result<(usize, char), Error>| r->Ok_0.1)
}

/// no item reports an error
pub open spec fn all_ok(items: Seq<Result<(usize, char), Error>>) -> bool {
    forall|i: int| 0 <= i < items.len() ==> (#[trigger] items[i]) is Ok
}

/// Bytes are valid UTF-8 exactly when decoding them reports no error and
/// leaves no truncated sequence; the chars decoded are then the chars that the
/// bytes encode.
pub proof fn lemma_decode_matches_utf8(bytes: Seq<u8>, base: int)
    ensures
        valid_utf8(bytes) <==> (all_ok(decode_items(bytes, base).0) && decode_items(bytes, base).1.len()
            == 0),
        valid_utf8(bytes) ==> item_chars(decode_items(bytes, base).0) == decode_utf8(bytes),
    decreases bytes.len(),
{
    if bytes.len() == 0 {
        assert(item_chars(decode_items(bytes, base).0) =~= Seq::<char>::empty());
    } else {
        lemma_first_step_valid_first_scalar(bytes);
        lemma_first_step_len(bytes);
        match first_step(bytes) {
            None => {},
            Some((n, r)) => {
                let rest = bytes.subrange(n, bytes.len() as int);
                lemma_decode_matches_utf8(rest, base + n);
                let (items, p) = decode_items(rest, base + n);
                let all = seq![to_item(base, n, r)] + items;
                assert(all[0] == to_item(base, n, r));
                assert forall|i: int| 0 <= i < items.len() implies #[trigger] items[i] == all[i
                    + 1] by {}
                if all_ok(all) {
                    assert(all[0] is Ok);
                    assert(all_ok(items)) by {
                        assert forall|i: int| 0 <= i < items.len() implies (
                        #[trigger] items[i]) is Ok by {
                            assert(all[i + 1] is Ok);
                        }
                    }
                }
                if valid_utf8(bytes) {
                    assert(rest == pop_first_scalar(bytes));
                    assert(item_chars(all) =~= seq![decode_first_scalar(bytes) as char]
                        + item_chars(items));
                }
            },
        }
    }
}

/// the byte offset, in UTF-8 text with bytes `bytes` starting at offset
/// `base`, of its char number `i`
pub open spec fn char_offset(bytes: Seq<u8>, base: int, i: int) -> int {
    base + encode_utf8(decode_utf8(bytes).take(i)).len()
}

/// Decoding valid UTF-8 reports each char at the offset where its bytes start,
/// as `str::char_indices` does.
pub proof fn lemma_decode_offsets(bytes: Seq<u8>, base: int)
    requires
        valid_utf8(bytes),
        0 <= base,
        base + bytes.len() <= usize::MAX,
    ensures
        decode_items(bytes, base).0.len() == decode_utf8(bytes).len(),
        forall|i: int|
            0 <= i < decode_utf8(bytes).len() ==> #[trigger] decode_items(bytes, base).0[i] == Ok::<
                (usize, char),
                Error,
            >((char_offset(bytes, base, i) as usize, decode_utf8(bytes)[i])),
    decreases bytes.len(),
{
    lemma_decode_matches_utf8(bytes, base);
    if bytes.len() > 0 {
        lemma_first_step_valid_first_scalar(bytes);
        lemma_first_step_len(bytes);
        let n = length_of_first_scalar(bytes);
        let c = decode_first_scalar(bytes) as char;
        let rest = bytes.subrange(n, bytes.len() as int);
        assert(rest == pop_first_scalar(bytes));
        lemma_decode_offsets(rest, base + n);
        let (items, p) = decode_items(rest, base + n);
        let all = seq![to_item(base, n, Ok(c))] + items;
        let cs = decode_utf8(bytes);
        assert(cs =~= seq![c] + decode_utf8(rest));
        decode_utf8_first_scalar(bytes);
        char_is_scalar(c);
        assert(encode_scalar(c as u32).len() == n);
        assert forall|i: int| 0 <= i < cs.len() implies #[trigger] all[i] == Ok::<(usize, char), Error>(
            (char_offset(bytes, base, i) as usize, cs[i]),
        ) by {
            if i == 0 {
                assert(cs.take(0) =~= Seq::<char>::empty());
            } else {
                assert(all[i] == items[i - 1]);
                assert(cs.take(i) =~= seq![c] + decode_utf8(rest).take(i - 1));
                assert(cs.take(i).drop_first() =~= decode_utf8(rest).take(i - 1));
                assert(cs.take(i)[0] == c);
                assert(encode_utf8(cs.take(i)) =~= encode_scalar(c as u32) + encode_utf8(
                    decode_utf8(rest).take(i - 1),
                ));
            }
        }
    }
}

} // verus!
