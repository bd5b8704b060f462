//! byte-level facts about UTF-8 text and the `String` operations the library uses
use vstd::prelude::*;
use vstd::utf8::*;
use vstd::string::StringSliceAdditionalSpecFns;

use crate::tokens::Span;

verus! {

/// the bytes of a `str`, as a view of its chars, decode back to those chars
pub proof fn lemma_str_bytes(t: &str)
    ensures
        valid_utf8(t.spec_bytes()),
        decode_utf8(t.spec_bytes()) == t@,
{
    encode_utf8_valid_utf8(t@);
    encode_utf8_decode_utf8(t@);
}

/// the two strings hold the same chars
pub fn str_eq(a: &str, b: &str) -> (res: bool)
    ensures
        res == (a@ == b@),
{
    let x = a.as_bytes();
    let y = b.as_bytes();
    proof {
        lemma_str_bytes(a);
        lemma_str_bytes(b);
    }
    if x.len() != y.len() {
        proof {
            if a@ == b@ {
                assert(a.spec_bytes() == b.spec_bytes());
            }
        }
        return false;
    }
    let mut i: usize = 0;
    while i < x.len()
        invariant
            x@ == a.spec_bytes(),
            y@ == b.spec_bytes(),
            x@.len() == y@.len(),
            i <= x@.len(),
            forall|j: int| 0 <= j < i ==> x@[j] == y@[j],
        decreases x@.len() - i,
    {
        if x[i] != y[i] {
            proof {
                if a@ == b@ {
                    assert(a.spec_bytes() == b.spec_bytes());
                }
            }
            return false;
        }
        i = i + 1;
    }
    proof {
        assert(x@ =~= y@);
    }
    true
}

/// the part of `text` from byte `start` to byte `end`, both char boundaries
pub fn substr(text: &str, start: usize, end: usize) -> (res: &str)
    requires
        start <= end <= text.spec_bytes().len(),
        is_char_boundary(text.spec_bytes(), start as int),
        is_char_boundary(text.spec_bytes(), end as int),
    ensures
        res.spec_bytes() == text.spec_bytes().subrange(start as int, end as int),
        res@ == decode_utf8(text.spec_bytes().subrange(start as int, end as int)),
{
    let ghost t = text.spec_bytes();
    proof {
        lemma_str_bytes(text);
    }
    let (head, _) = text.split_at(end);
    proof {
        let h = head.spec_bytes();
        lemma_str_bytes(head);
        valid_utf8_split(t, end as int);
        is_char_boundary_start_end_of_seq(h);
        if 0 < start < end {
            is_char_boundary_iff_not_is_continuation_byte(t, start as int);
            is_char_boundary_iff_not_is_continuation_byte(h, start as int);
            assert(h[start as int] == t[start as int]);
        }
    }
    let (_, tail) = head.split_at(start);
    proof {
        lemma_str_bytes(tail);
        assert(tail.spec_bytes() =~= t.subrange(start as int, end as int));
    }
    tail
}

/// `String::push`: std documents that it appends the char to the end of the string
#[verifier::external_body]
pub fn push_char(s: &mut String, c: char)
    ensures
        final(s)@ == old(s)@.push(c),
{
    s.push(c)
}

/// `String::push_str`: std documents that it appends the given string slice
#[verifier::external_body]
pub fn push_str(s: &mut String, t: &str)
    ensures
        final(s)@ == old(s)@ + t@,
{
    s.push_str(t)
}

/// the text `String::from_utf8_lossy` makes of `bytes`: each invalid sequence
/// replaced by U+FFFD
pub uninterp spec fn lossy_utf8(bytes: Seq<u8>) -> Seq<char>;

/// `String::from_utf8_lossy`: std documents that valid UTF-8 comes back
/// unchanged; on other bytes its result, which depends on the bytes alone, is
/// named by [`lossy_utf8`]
#[verifier::external_body]
pub fn string_from_utf8_lossy(bytes: &[u8]) -> (res: String)
    ensures
        res@ == lossy_utf8(bytes@),
        valid_utf8(bytes@) ==> res@ == decode_utf8(bytes@),
{
    String::from_utf8_lossy(bytes).into_owned()
}

/// `r` lies in the text with bytes `t`, from one char boundary to another
pub open spec fn placed(t: Seq<u8>, r: Span) -> bool {
    &&& r.start <= r.end <= t.len()
    &&& is_char_boundary(t, r.start as int)
    &&& is_char_boundary(t, r.end as int)
}

/// position `i` sits next to an ASCII byte, or at an end of `bytes`
pub open spec fn ascii_boundary(bytes: Seq<u8>, i: int) -> bool {
    ||| i == 0
    ||| i == bytes.len()
    ||| (0 <= i < bytes.len() && bytes[i] < 0x80)
    ||| (0 < i <= bytes.len() && bytes[i - 1] < 0x80)
}

/// positions next to ASCII bytes are char boundaries of valid UTF-8
pub proof fn lemma_ascii_boundary(bytes: Seq<u8>, i: int)
    requires
        valid_utf8(bytes),
        0 <= i <= bytes.len(),
        ascii_boundary(bytes, i),
    ensures
        is_char_boundary(bytes, i),
    decreases bytes.len(),
{
    if i != 0 {
        let k = length_of_first_scalar(bytes);
        let pop = pop_first_scalar(bytes);
        assert(pop.len() == bytes.len() - k);
        if i < k {
            assert(is_continuation_byte(bytes[i]));
            if i >= 2 {
                assert(is_continuation_byte(bytes[i - 1]));
            }
            assert(false);
        }
        if i - k > 0 && i - k < pop.len() {
            assert(pop[i - k] == bytes[i]);
        }
        if i - k > 0 {
            assert(pop[i - k - 1] == bytes[i - 1]);
        }
        lemma_ascii_boundary(pop, i - k);
    }
}

/// the bytes between two ASCII boundaries of valid UTF-8 are valid UTF-8
pub proof fn lemma_ascii_slice_valid(bytes: Seq<u8>, a: int, b: int)
    requires
        valid_utf8(bytes),
        0 <= a <= b <= bytes.len(),
        ascii_boundary(bytes, a),
        ascii_boundary(bytes, b),
    ensures
        valid_utf8(bytes.subrange(a, b)),
{
    lemma_ascii_boundary(bytes, b);
    valid_utf8_split(bytes, b);
    let pre = bytes.subrange(0, b);
    assert(ascii_boundary(pre, a)) by {
        if 0 < a <= pre.len() {
            assert(pre[a - 1] == bytes[a - 1]);
        }
        if 0 <= a < pre.len() {
            assert(pre[a] == bytes[a]);
        }
    }
    lemma_ascii_boundary(pre, a);
    valid_utf8_split(pre, a);
    assert(pre.subrange(a, pre.len() as int) =~= bytes.subrange(a, b));
}

/// the suffix that starts at an ASCII boundary of valid UTF-8 is valid UTF-8
pub proof fn lemma_ascii_suffix_valid(bytes: Seq<u8>, a: int)
    requires
        valid_utf8(bytes),
        0 <= a <= bytes.len(),
        ascii_boundary(bytes, a),
    ensures
        valid_utf8(bytes.subrange(a, bytes.len() as int)),
{
    lemma_ascii_slice_valid(bytes, a, bytes.len() as int);
}

/// ASCII bytes are valid UTF-8 on their own
pub proof fn lemma_ascii_valid(bytes: Seq<u8>)
    requires
        forall|i: int| 0 <= i < bytes.len() ==> #[trigger] bytes[i] < 0x80,
    ensures
        valid_utf8(bytes),
    decreases bytes.len(),
{
    if bytes.len() > 0 {
        let pop = pop_first_scalar(bytes);
        assert(pop =~= bytes.subrange(1, bytes.len() as int));
        assert forall|i: int| 0 <= i < pop.len() implies #[trigger] pop[i] < 0x80 by {
            assert(pop[i] == bytes[i + 1]);
        }
        lemma_ascii_valid(pop);
    }
}

/// the char that the bytes of a well-formed scalar encode, and the number of those bytes
pub open spec fn first_char(bytes: Seq<u8>) -> (char, int) {
    (decode_first_scalar(bytes) as char, length_of_first_scalar(bytes))
}

/// `char::from_u32`, which std documents to return `Some(c)` exactly when `v`
/// is a Unicode scalar value, with `c` the char of that value
#[verifier::external_body]
pub(crate) fn char_from_u32(v: u32) -> (res: Option<char>)
    ensures
        res == (if is_scalar(v) {
            Some(v as char)
        } else {
            None::<char>
        }),
{
    char::from_u32(v)
}

proof fn lemma_first_scalar_is_scalar(bytes: Seq<u8>)
    requires
        valid_first_scalar(bytes),
    ensures
        is_scalar(decode_first_scalar(bytes)),
{
    let b0 = bytes[0];
    if is_leading_byte_width_1(b0) {
        assert(b0 & 0x7F <= 0x7F) by (bit_vector);
    } else if is_leading_byte_width_2(b0) {
        let b1 = bytes[1];
        assert(((b0 & 0x1F) as u32) << 6 | ((b1 & 0x3F) as u32) <= 0x7FF) by (bit_vector);
    } else if is_leading_byte_width_3(b0) {
        let b1 = bytes[1];
        let b2 = bytes[2];
        assert((((b0 & 0x0F) as u32) << 12) | (((b1 & 0x3F) as u32) << 6) | ((b2 & 0x3F) as u32)
            <= 0xFFFF) by (bit_vector);
    }
}

/// the char that starts at byte `p`, and how many bytes it takes
pub fn char_at(bytes: &[u8], p: usize) -> (res: (char, usize))
    requires
        p < bytes@.len(),
        valid_utf8(bytes@.subrange(p as int, bytes@.len() as int)),
    ensures
        (res.0, res.1 as int) == first_char(bytes@.subrange(p as int, bytes@.len() as int)),
        1 <= res.1 <= 4,
        p + res.1 <= bytes@.len(),
{
    let ghost s = bytes@.subrange(p as int, bytes@.len() as int);
    proof {
        assert(s[0] == bytes@[p as int]);
        lemma_first_scalar_is_scalar(s);
    }
    let b0 = bytes[p];
    if b0 < 0x80 {
        assert(b0 & 0x7F == b0) by (bit_vector)
            requires
                b0 < 0x80,
        ;
        return (b0 as char, 1);
    }
    let cp: u32;
    let n: usize;
    if b0 <= 0xDF {
        assert(s[1] == bytes@[p + 1]);
        cp = (((b0 & 0x1F) as u32) << 6) | ((bytes[p + 1] & 0x3F) as u32);
        n = 2;
    } else if b0 <= 0xEF {
        assert(s[1] == bytes@[p + 1]);
        assert(s[2] == bytes@[p + 2]);
        cp = (((b0 & 0x0F) as u32) << 12) | (((bytes[p + 1] & 0x3F) as u32) << 6) | ((bytes[p
            + 2] & 0x3F) as u32);
        n = 3;
    } else {
        assert(s[1] == bytes@[p + 1]);
        assert(s[2] == bytes@[p + 2]);
        assert(s[3] == bytes@[p + 3]);
        cp = (((b0 & 0x07) as u32) << 18) | (((bytes[p + 1] & 0x3F) as u32) << 12) | (((bytes[p
            + 2] & 0x3F) as u32) << 6) | ((bytes[p + 3] & 0x3F) as u32);
        n = 4;
    }
    match char_from_u32(cp) {
        Some(c) => (c, n),
        None => {
            proof {
                assert(false);
            }
            (' ', 1)
        },
    }
}

} // verus!
