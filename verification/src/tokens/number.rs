//! JSON numbers, RFC 8259 section 6:
//!
//! ```abnf
//! number        = [ minus ] int [ frac ] [ exp ]
//! exp           = e [ minus / plus ] 1*DIGIT
//! frac          = decimal-point 1*DIGIT
//! int           = zero / ( digit1-9 *DIGIT )
//! ```
//!
//! A number is read as two tokens: the mantissa (sign, integer and fraction)
//! and, where there is one, the exponent. An exponent whose digits are all
//! zero is read and dropped.
use vstd::prelude::*;
use vstd::utf8::*;
use vstd::string::StringSliceAdditionalSpecFns;

use crate::error::{Error, ErrorKind, JsonCharOption, reports, opt_site, window_of};
use crate::text::ascii_boundary;
use crate::tokens::lexical::JsonChar;
use crate::tokens::{
    CharWithContext, ErrorSite, Span, Token, TokenWithContext, char_opt_at,
    char_site, current_char_with_context, sp, split_char,
};

verus! {

pub open spec fn is_digit(b: u8) -> bool {
    0x30 <= b <= 0x39
}

/// the first offset at or after `p` that holds no digit
pub open spec fn digits_end(s: Seq<u8>, p: int) -> int
    decreases s.len() - p,
{
    if 0 <= p < s.len() && is_digit(s[p]) {
        digits_end(s, p + 1)
    } else {
        p
    }
}

/// the first offset at or after `p` that holds no `0`
pub open spec fn zeros_end(s: Seq<u8>, p: int) -> int
    decreases s.len() - p,
{
    if 0 <= p < s.len() && s[p] == 0x30 {
        zeros_end(s, p + 1)
    } else {
        p
    }
}

/// the outcome of reading a token: where it ends, or the error and where it is reported
pub type Scan<T> = Result<T, (ErrorKind, ErrorSite)>;

/// the mantissa that starts at byte `p` of `s`: the offset where it ends, or the error
pub open spec fn mantissa_scan(s: Seq<u8>, p: int) -> Scan<int> {
    let len = s.len() as int;
    let neg = p < len && s[p] == 0x2D;
    let i = if neg {
        p + 1
    } else {
        p
    };
    if !(i < len && is_digit(s[i])) {
        if neg {
            Err(
                (
                    ErrorKind::ExpectedDigitFollowingMinus(sp(p, p + 1), JsonCharOption(char_opt_at(s, i))),
                    ErrorSite::At(sp(p, p + 1)),
                ),
            )
        } else {
            Err((ErrorKind::ExpectedMinusOrDigit(JsonCharOption(char_opt_at(s, p))), char_site(s, p)))
        }
    } else if s[i] == 0x30 && i + 1 < len && is_digit(s[i + 1]) {
        let z = zeros_end(s, i + 1);
        let last_zero = if z > i + 1 {
            sp(z - 1, z)
        } else {
            sp(i, i + 1)
        };
        let extra_end = if z < len && 0x31 <= s[z] <= 0x39 {
            last_zero.end as int
        } else {
            last_zero.start as int
        };
        Err(
            (
                ErrorKind::UnexpectedLeadingZero { initial: sp(i, i + 1), extra: sp(i, extra_end) },
                ErrorSite::At(sp(p, last_zero.end as int)),
            ),
        )
    } else {
        let int_end = if s[i] == 0x30 {
            i + 1
        } else {
            digits_end(s, i + 1)
        };
        if int_end < len && s[int_end] == 0x2E {
            if int_end + 1 < len && is_digit(s[int_end + 1]) {
                Ok(digits_end(s, int_end + 1))
            } else {
                Err(
                    (
                        ErrorKind::ExpectedDigitAfterDot {
                            number_range: sp(p, int_end + 1),
                            dot_range: sp(int_end, int_end + 1),
                            maybe_c: JsonCharOption(char_opt_at(s, int_end + 1)),
                        },
                        char_site(s, int_end + 1),
                    ),
                )
            }
        } else {
            Ok(int_end)
        }
    }
}

/// some byte in `a..b` is not `0`
pub open spec fn has_nonzero(s: Seq<u8>, a: int, b: int) -> bool {
    exists|i: int| a <= i < b && s[i] != 0x30
}

/// the digits of an exponent from `start`, whose digits begin at `d`: the token,
/// or nothing when every digit is zero, and where reading stopped
pub open spec fn exponent_digits(s: Seq<u8>, start: int, d: int) -> (Option<Span>, int) {
    let end = digits_end(s, d);
    if has_nonzero(s, d, end) {
        (Some(sp(start, end)), end)
    } else {
        (None, end)
    }
}

/// the exponent whose marker `e` or `E` is byte `p` of `s`
pub open spec fn exponent_scan(s: Seq<u8>, p: int) -> Scan<(Option<Span>, int)> {
    let len = s.len() as int;
    let q = p + 1;
    if q < len && (s[q] == 0x2B || s[q] == 0x2D) {
        let r = q + 1;
        if r < len && is_digit(s[r]) {
            Ok(
                exponent_digits(
                    s,
                    if s[q] == 0x2D {
                        q
                    } else {
                        r
                    },
                    r,
                ),
            )
        } else {
            Err(
                (
                    ErrorKind::ExpectedDigitAfterE {
                        exponent_range: sp(p, q + 1),
                        maybe_c: JsonCharOption(char_opt_at(s, r)),
                    },
                    char_site(s, r),
                ),
            )
        }
    } else if q < len && is_digit(s[q]) {
        Ok(exponent_digits(s, q, q))
    } else {
        Err(
            (
                ErrorKind::ExpectedPlusOrMinusOrDigitAfterE {
                    e_range: sp(p, q),
                    maybe_c: JsonCharOption(char_opt_at(s, q)),
                },
                char_site(s, q),
            ),
        )
    }
}

/// where reading a mantissa stands
#[derive(Debug, PartialEq, Eq, Clone, Copy, Structural)]
pub enum MantissaState {
    MinusOrInteger,
    Leading(Span),
    IntegerOrDecimalOrEnd { leading_zero: Option<Span>, mantissa: Span },
    Fraction { mantissa: Span, dot_range: Span },
    FractionOrEnd(Span),
    End(TokenWithContext),
}

/// the outcome of reading on from state `st` at byte `pos`, one step at a time
pub open spec fn mantissa_from(s: Seq<u8>, st: MantissaState, pos: int) -> Scan<int>
    decreases s.len() - pos,
{
    let len = s.len() as int;
    if pos > len {
        Err((ErrorKind::ExpectedMinusOrDigit(JsonCharOption(None)), ErrorSite::AtEnd))
    } else {
        match st {
            MantissaState::MinusOrInteger => {
                if pos < len && s[pos] == 0x2D {
                    mantissa_from(s, MantissaState::Leading(sp(pos, pos + 1)), pos + 1)
                } else if pos < len && s[pos] == 0x30 {
                    mantissa_from(
                        s,
                        MantissaState::IntegerOrDecimalOrEnd {
                            leading_zero: Some(sp(pos, pos + 1)),
                            mantissa: sp(pos, pos + 1),
                        },
                        pos + 1,
                    )
                } else if pos < len && 0x31 <= s[pos] <= 0x39 {
                    mantissa_from(
                        s,
                        MantissaState::IntegerOrDecimalOrEnd {
                            leading_zero: None,
                            mantissa: sp(pos, pos + 1),
                        },
                        pos + 1,
                    )
                } else {
                    Err(
                        (
                            ErrorKind::ExpectedMinusOrDigit(JsonCharOption(char_opt_at(s, pos))),
                            char_site(s, pos),
                        ),
                    )
                }
            },
            MantissaState::Leading(m) => {
                if pos < len && s[pos] == 0x30 {
                    mantissa_from(
                        s,
                        MantissaState::IntegerOrDecimalOrEnd {
                            leading_zero: Some(sp(pos, pos + 1)),
                            mantissa: sp(m.start as int, pos + 1),
                        },
                        pos + 1,
                    )
                } else if pos < len && 0x31 <= s[pos] <= 0x39 {
                    mantissa_from(
                        s,
                        MantissaState::IntegerOrDecimalOrEnd {
                            leading_zero: None,
                            mantissa: sp(m.start as int, pos + 1),
                        },
                        pos + 1,
                    )
                } else {
                    Err(
                        (
                            ErrorKind::ExpectedDigitFollowingMinus(
                                m,
                                JsonCharOption(char_opt_at(s, pos)),
                            ),
                            ErrorSite::At(m),
                        ),
                    )
                }
            },
            MantissaState::IntegerOrDecimalOrEnd { leading_zero, mantissa } => {
                if pos < len && is_digit(s[pos]) {
                    match leading_zero {
                        Some(initial) => {
                            let z = zeros_end(s, pos);
                            let last_zero = if z > pos {
                                sp(z - 1, z)
                            } else {
                                initial
                            };
                            let extra_end = if z < len && 0x31 <= s[z] <= 0x39 {
                                last_zero.end as int
                            } else {
                                last_zero.start as int
                            };
                            Err(
                                (
                                    ErrorKind::UnexpectedLeadingZero {
                                        initial,
                                        extra: sp(initial.start as int, extra_end),
                                    },
                                    ErrorSite::At(sp(mantissa.start as int, last_zero.end as int)),
                                ),
                            )
                        },
                        None => mantissa_from(
                            s,
                            MantissaState::IntegerOrDecimalOrEnd {
                                leading_zero: None,
                                mantissa: sp(mantissa.start as int, pos + 1),
                            },
                            pos + 1,
                        ),
                    }
                } else if pos < len && s[pos] == 0x2E {
                    mantissa_from(
                        s,
                        MantissaState::Fraction {
                            mantissa: sp(mantissa.start as int, pos + 1),
                            dot_range: sp(pos, pos + 1),
                        },
                        pos + 1,
                    )
                } else {
                    Ok(mantissa.end as int)
                }
            },
            MantissaState::Fraction { mantissa, dot_range } => {
                if pos < len && is_digit(s[pos]) {
                    mantissa_from(
                        s,
                        MantissaState::FractionOrEnd(sp(mantissa.start as int, pos + 1)),
                        pos + 1,
                    )
                } else {
                    Err(
                        (
                            ErrorKind::ExpectedDigitAfterDot {
                                number_range: mantissa,
                                dot_range,
                                maybe_c: JsonCharOption(char_opt_at(s, pos)),
                            },
                            char_site(s, pos),
                        ),
                    )
                }
            },
            MantissaState::FractionOrEnd(m) => {
                if pos < len && is_digit(s[pos]) {
                    mantissa_from(s, MantissaState::FractionOrEnd(sp(m.start as int, pos + 1)), pos + 1)
                } else {
                    Ok(m.end as int)
                }
            },
            MantissaState::End(t) => Ok(t.range.end as int),
        }
    }
}

/// what a state of the mantissa reader knows: the mantissa read so far runs
/// from `start` to `pos`
pub open spec fn mantissa_state_inv(st: MantissaState, start: int, pos: int) -> bool {
    match st {
        MantissaState::MinusOrInteger => pos == start,
        MantissaState::Leading(m) => m == sp(start, pos) && start < pos,
        MantissaState::IntegerOrDecimalOrEnd { leading_zero, mantissa } => {
            &&& mantissa == sp(start, pos)
            &&& start < pos
            &&& (leading_zero matches Some(z) ==> z == sp(pos - 1, pos))
        },
        MantissaState::Fraction { mantissa, dot_range } => mantissa == sp(start, pos) && start < pos
            && dot_range == sp(pos - 1, pos),
        MantissaState::FractionOrEnd(m) => m == sp(start, pos) && start < pos,
        MantissaState::End(t) => t.token == Token::Mantissa && t.range == sp(start, pos) && start < pos,
    }
}

proof fn lemma_digits_end_bounds(s: Seq<u8>, p: int)
    requires
        0 <= p <= s.len(),
    ensures
        p <= digits_end(s, p) <= s.len(),
        forall|i: int| p <= i < digits_end(s, p) ==> is_digit(#[trigger] s[i]),
        digits_end(s, p) < s.len() ==> !is_digit(s[digits_end(s, p)]),
    decreases s.len() - p,
{
    if p < s.len() && is_digit(s[p]) {
        lemma_digits_end_bounds(s, p + 1);
    }
}

proof fn lemma_zeros_end_bounds(s: Seq<u8>, p: int)
    requires
        0 <= p <= s.len(),
    ensures
        p <= zeros_end(s, p) <= s.len(),
        forall|i: int| p <= i < zeros_end(s, p) ==> #[trigger] s[i] == 0x30,
        zeros_end(s, p) < s.len() ==> s[zeros_end(s, p)] != 0x30,
    decreases s.len() - p,
{
    if p < s.len() && s[p] == 0x30 {
        lemma_zeros_end_bounds(s, p + 1);
    }
}

/// reading digits of the integer part on from `pos` ends where the digits end
proof fn lemma_integer_digits(s: Seq<u8>, start: int, pos: int)
    requires
        s.len() <= usize::MAX,
        0 <= start < pos <= s.len(),
    ensures
        mantissa_from(
            s,
            MantissaState::IntegerOrDecimalOrEnd { leading_zero: None, mantissa: sp(start, pos) },
            pos,
        ) == mantissa_from(
            s,
            MantissaState::IntegerOrDecimalOrEnd {
                leading_zero: None,
                mantissa: sp(start, digits_end(s, pos)),
            },
            digits_end(s, pos),
        ),
    decreases s.len() - pos,
{
    if pos < s.len() && is_digit(s[pos]) {
        lemma_integer_digits(s, start, pos + 1);
    }
}

/// reading fraction digits on from `pos` ends where the digits end
proof fn lemma_fraction_digits(s: Seq<u8>, start: int, pos: int)
    requires
        s.len() <= usize::MAX,
        0 <= start < pos <= s.len(),
    ensures
        mantissa_from(s, MantissaState::FractionOrEnd(sp(start, pos)), pos) == Ok::<int, (ErrorKind, ErrorSite)>(
            digits_end(s, pos),
        ),
    decreases s.len() - pos,
{
    if pos < s.len() && is_digit(s[pos]) {
        lemma_fraction_digits(s, start, pos + 1);
    }
}

/// the integer part without a leading zero, read to its end, then the rest
proof fn lemma_after_integer(s: Seq<u8>, p: int, e: int, lz: Option<Span>)
    requires
        s.len() <= usize::MAX,
        0 <= p < e <= s.len(),
        e < s.len() ==> !is_digit(s[e]),
    ensures
        mantissa_from(
            s,
            MantissaState::IntegerOrDecimalOrEnd { leading_zero: lz, mantissa: sp(p, e) },
            e,
        ) == (if e < s.len() && s[e] == 0x2E {
            if e + 1 < s.len() && is_digit(s[e + 1]) {
                Ok::<int, (ErrorKind, ErrorSite)>(digits_end(s, e + 1))
            } else {
                Err(
                    (
                        ErrorKind::ExpectedDigitAfterDot {
                            number_range: sp(p, e + 1),
                            dot_range: sp(e, e + 1),
                            maybe_c: JsonCharOption(char_opt_at(s, e + 1)),
                        },
                        char_site(s, e + 1),
                    ),
                )
            }
        } else {
            Ok(e)
        }),
{
    let st = MantissaState::IntegerOrDecimalOrEnd { leading_zero: lz, mantissa: sp(p, e) };
    if e < s.len() && s[e] == 0x2E {
        let fr = MantissaState::Fraction { mantissa: sp(p, e + 1), dot_range: sp(e, e + 1) };
        assert(mantissa_from(s, st, e) == mantissa_from(s, fr, e + 1));
        if e + 1 < s.len() && is_digit(s[e + 1]) {
            lemma_fraction_digits(s, p, e + 2);
            lemma_digits_end_bounds(s, e + 2);
            assert(mantissa_from(s, fr, e + 1) == mantissa_from(
                s,
                MantissaState::FractionOrEnd(sp(p, e + 2)),
                e + 2,
            ));
            assert(digits_end(s, e + 1) == digits_end(s, e + 2));
        }
    } else {
        assert(mantissa_from(s, st, e) == Ok::<int, (ErrorKind, ErrorSite)>(e));
    }
}

/// stepping the state machine from its first state reads the mantissa of RFC 8259
proof fn lemma_mantissa_steps(s: Seq<u8>, p: int)
    requires
        s.len() <= usize::MAX,
        0 <= p <= s.len(),
    ensures
        mantissa_from(s, MantissaState::MinusOrInteger, p) == mantissa_scan(s, p),
{
    let len = s.len() as int;
    let neg = p < len && s[p] == 0x2D;
    let i = if neg {
        p + 1
    } else {
        p
    };
    let st0 = MantissaState::MinusOrInteger;
    let sti = if neg {
        MantissaState::Leading(sp(p, p + 1))
    } else {
        st0
    };
    assert(mantissa_from(s, st0, p) == mantissa_from(s, sti, i));
    if i < len && is_digit(s[i]) {
        if s[i] == 0x30 {
            let z0 = MantissaState::IntegerOrDecimalOrEnd {
                leading_zero: Some(sp(i, i + 1)),
                mantissa: sp(p, i + 1),
            };
            assert(mantissa_from(s, sti, i) == mantissa_from(s, z0, i + 1));
            if i + 1 < len && is_digit(s[i + 1]) {
                lemma_zeros_end_bounds(s, i + 1);
            } else {
                lemma_after_integer(s, p, i + 1, Some(sp(i, i + 1)));
            }
        } else {
            let d0 = MantissaState::IntegerOrDecimalOrEnd { leading_zero: None, mantissa: sp(p, i + 1) };
            assert(mantissa_from(s, sti, i) == mantissa_from(s, d0, i + 1));
            lemma_digits_end_bounds(s, i + 1);
            lemma_integer_digits(s, p, i + 1);
            lemma_after_integer(s, p, digits_end(s, i + 1), None);
        }
    }
}

impl MantissaState {
    /// one step: reads at most one byte of `s` at `*pos`
    pub fn process(self, s: &[u8], pos: &mut usize, text: &str, Ghost(start): Ghost<int>) -> (res:
        Result<Self, Error>)
        requires
            window_of(s@, text),
            *old(pos) <= s@.len(),
            ascii_boundary(s@, *old(pos) as int),
            !(self is End),
            mantissa_state_inv(self, start, *old(pos) as int),
        ensures
            match res {
                Ok(st) => {
                    &&& mantissa_state_inv(st, start, *final(pos) as int)
                    &&& *final(pos) <= s@.len()
                    &&& ascii_boundary(s@, *final(pos) as int)
                    &&& mantissa_from(s@, st, *final(pos) as int) == mantissa_from(
                        s@,
                        self,
                        *old(pos) as int,
                    )
                    &&& (*final(pos) > *old(pos) || (st is End && *final(pos) == *old(pos)))
                    &&& (st matches MantissaState::End(t) ==> t.token == Token::Mantissa
                        && t.range.end == *final(pos))
                },
                Err(e) => mantissa_from(s@, self, *old(pos) as int) matches Err((k, site))
                    && reports(e, k, site, text),
            },
    {
        let p = *pos;
        let at_end = p >= s.len();
        let b: u8 = if at_end {
            0u8
        } else {
            s[p]
        };
        proof {
            if !at_end {
                assert(s@[p as int] < 0x80 ==> ascii_boundary(s@, p + 1));
            }
        }
        match self {
            MantissaState::MinusOrInteger => {
                if !at_end && b == 0x2D {
                    *pos = p + 1;
                    Ok(MantissaState::Leading(Span { start: p, end: p + 1 }))
                } else if !at_end && b == 0x30 {
                    *pos = p + 1;
                    let range = Span { start: p, end: p + 1 };
                    Ok(MantissaState::IntegerOrDecimalOrEnd { leading_zero: Some(range), mantissa: range })
                } else if !at_end && 0x31 <= b && b <= 0x39 {
                    *pos = p + 1;
                    let range = Span { start: p, end: p + 1 };
                    Ok(MantissaState::IntegerOrDecimalOrEnd { leading_zero: None, mantissa: range })
                } else {
                    let c = current_char_with_context(s, p);
                    let (found, at) = split_char(c);
                    Err(
                        Error::from_maybe_json_char_with_context(
                            ErrorKind::ExpectedMinusOrDigit(JsonCharOption(found)),
                            at,
                            text,
                        ),
                    )
                }
            },
            MantissaState::Leading(mantissa) => {
                if !at_end && b == 0x30 {
                    *pos = p + 1;
                    Ok(
                        MantissaState::IntegerOrDecimalOrEnd {
                            leading_zero: Some(Span { start: p, end: p + 1 }),
                            mantissa: Span { start: mantissa.start, end: p + 1 },
                        },
                    )
                } else if !at_end && 0x31 <= b && b <= 0x39 {
                    *pos = p + 1;
                    Ok(
                        MantissaState::IntegerOrDecimalOrEnd {
                            leading_zero: None,
                            mantissa: Span { start: mantissa.start, end: p + 1 },
                        },
                    )
                } else {
                    let c = current_char_with_context(s, p);
                    let (found, _) = split_char(c);
                    Err(
                        Error::new(
                            ErrorKind::ExpectedDigitFollowingMinus(mantissa, JsonCharOption(found)),
                            mantissa,
                            text,
                        ),
                    )
                }
            },
            MantissaState::IntegerOrDecimalOrEnd { leading_zero, mantissa } => {
                if !at_end && 0x30 <= b && b <= 0x39 {
                    match leading_zero {
                        Some(initial) => {
                            let mut q = p;
                            let mut last_zero = initial;
                            proof {
                                lemma_zeros_end_bounds(s@, p as int);
                            }
                            while q < s.len() && s[q] == 0x30
                                invariant
                                    p <= q <= s@.len(),
                                    zeros_end(s@, p as int) == zeros_end(s@, q as int),
                                    forall|i: int| p <= i < q ==> #[trigger] s@[i] == 0x30,
                                    last_zero == (if q > p {
                                        sp(q - 1, q as int)
                                    } else {
                                        initial
                                    }),
                                decreases s@.len() - q,
                            {
                                last_zero = Span { start: q, end: q + 1 };
                                q = q + 1;
                            }
                            let extra_end = if q < s.len() && 0x31 <= s[q] && s[q] <= 0x39 {
                                last_zero.end
                            } else {
                                last_zero.start
                            };
                            Err(
                                Error::new(
                                    ErrorKind::UnexpectedLeadingZero {
                                        initial,
                                        extra: Span { start: initial.start, end: extra_end },
                                    },
                                    Span { start: mantissa.start, end: last_zero.end },
                                    text,
                                ),
                            )
                        },
                        None => {
                            *pos = p + 1;
                            Ok(
                                MantissaState::IntegerOrDecimalOrEnd {
                                    leading_zero: None,
                                    mantissa: Span { start: mantissa.start, end: p + 1 },
                                },
                            )
                        },
                    }
                } else if !at_end && b == 0x2E {
                    *pos = p + 1;
                    Ok(
                        MantissaState::Fraction {
                            mantissa: Span { start: mantissa.start, end: p + 1 },
                            dot_range: Span { start: p, end: p + 1 },
                        },
                    )
                } else {
                    Ok(MantissaState::End(TokenWithContext { token: Token::Mantissa, range: mantissa }))
                }
            },
            MantissaState::Fraction { mantissa, dot_range } => {
                if !at_end && 0x30 <= b && b <= 0x39 {
                    *pos = p + 1;
                    Ok(MantissaState::FractionOrEnd(Span { start: mantissa.start, end: p + 1 }))
                } else {
                    let c = current_char_with_context(s, p);
                    let (found, at) = split_char(c);
                    Err(
                        Error::from_maybe_json_char_with_context(
                            ErrorKind::ExpectedDigitAfterDot {
                                number_range: mantissa,
                                dot_range,
                                maybe_c: JsonCharOption(found),
                            },
                            at,
                            text,
                        ),
                    )
                }
            },
            MantissaState::FractionOrEnd(mantissa) => {
                if !at_end && 0x30 <= b && b <= 0x39 {
                    *pos = p + 1;
                    Ok(MantissaState::FractionOrEnd(Span { start: mantissa.start, end: p + 1 }))
                } else {
                    Ok(MantissaState::End(TokenWithContext { token: Token::Mantissa, range: mantissa }))
                }
            },
            MantissaState::End(_) => Ok(self),
        }
    }
}

/// reads the mantissa that starts at byte `pos` of the bytes `s` of `text`
pub fn scan_mantissa(s: &[u8], text: &str, pos: usize) -> (res: Result<TokenWithContext, Error>)
    requires
        window_of(s@, text),
        pos <= s@.len(),
        ascii_boundary(s@, pos as int),
    ensures
        match mantissa_scan(s@, pos as int) {
            Ok(e) => res == Ok::<TokenWithContext, Error>(
                TokenWithContext { token: Token::Mantissa, range: sp(pos as int, e) },
            ),
            Err((k, site)) => res matches Err(err) && reports(err, k, site, text),
        },
{
    let _n = s.len();
    proof {
        lemma_mantissa_steps(s@, pos as int);
    }
    let mut state = MantissaState::MinusOrInteger;
    let mut p = pos;
    loop
        invariant
            window_of(s@, text),
            pos <= p <= s@.len(),
            ascii_boundary(s@, p as int),
            !(state is End),
            mantissa_state_inv(state, pos as int, p as int),
            mantissa_from(s@, state, p as int) == mantissa_scan(s@, pos as int),
        decreases s@.len() - p,
    {
        match state.process(s, &mut p, text, Ghost(pos as int)) {
            Ok(MantissaState::End(tok)) => {
                return Ok(tok);
            },
            Ok(next) => {
                state = next;
            },
            Err(e) => {
                return Err(e);
            },
        }
    }
}

/// the mantissa that starts at byte `pos` of `input`
pub fn parse_mantissa(input: &str, pos: usize) -> (res: Result<TokenWithContext, Error>)
    requires
        pos <= input.spec_bytes().len(),
        ascii_boundary(input.spec_bytes(), pos as int),
    ensures
        match mantissa_scan(input.spec_bytes(), pos as int) {
            Ok(e) => res == Ok::<TokenWithContext, Error>(
                TokenWithContext { token: Token::Mantissa, range: sp(pos as int, e) },
            ),
            Err((k, site)) => res matches Err(err) && reports(err, k, site, input),
        },
{
    let s = input.as_bytes();
    proof {
        crate::text::lemma_str_bytes(input);
        assert(s@.subrange(0, s@.len() as int) =~= s@);
    }
    scan_mantissa(s, input, pos)
}


/// where reading an exponent stands
#[derive(Debug, PartialEq, Eq, Clone, Copy, Structural)]
pub enum ExponentState {
    MinusOrPlusOrDigit { exponent_range: Span },
    AfterSign { exponent_range: Span, sign_end: usize, minus_at: Option<usize> },
    Digits { exp_start: usize, has_nonzero: bool, exp_end: usize },
    Zero,
    End(Span),
}

/// the outcome of reading on from state `st` at byte `pos`, one step at a time
pub open spec fn exponent_from(s: Seq<u8>, st: ExponentState, pos: int) -> Scan<(Option<Span>, int)>
    decreases s.len() - pos,
{
    let len = s.len() as int;
    if pos > len {
        Err(
            (
                ErrorKind::ExpectedPlusOrMinusOrDigitAfterE {
                    e_range: sp(pos, pos),
                    maybe_c: JsonCharOption(None),
                },
                ErrorSite::AtEnd,
            ),
        )
    } else {
        match st {
            ExponentState::MinusOrPlusOrDigit { exponent_range } => {
                if pos < len && s[pos] == 0x2B {
                    exponent_from(
                        s,
                        ExponentState::AfterSign {
                            exponent_range,
                            sign_end: (pos + 1) as usize,
                            minus_at: None,
                        },
                        pos + 1,
                    )
                } else if pos < len && s[pos] == 0x2D {
                    exponent_from(
                        s,
                        ExponentState::AfterSign {
                            exponent_range,
                            sign_end: (pos + 1) as usize,
                            minus_at: Some(pos as usize),
                        },
                        pos + 1,
                    )
                } else if pos < len && is_digit(s[pos]) {
                    exponent_from(
                        s,
                        ExponentState::Digits {
                            exp_start: pos as usize,
                            has_nonzero: s[pos] != 0x30,
                            exp_end: (pos + 1) as usize,
                        },
                        pos + 1,
                    )
                } else {
                    Err(
                        (
                            ErrorKind::ExpectedPlusOrMinusOrDigitAfterE {
                                e_range: exponent_range,
                                maybe_c: JsonCharOption(char_opt_at(s, pos)),
                            },
                            char_site(s, pos),
                        ),
                    )
                }
            },
            ExponentState::AfterSign { exponent_range, sign_end, minus_at } => {
                if pos < len && is_digit(s[pos]) {
                    exponent_from(
                        s,
                        ExponentState::Digits {
                            exp_start: match minus_at {
                                Some(e) => e,
                                None => pos as usize,
                            },
                            has_nonzero: s[pos] != 0x30,
                            exp_end: (pos + 1) as usize,
                        },
                        pos + 1,
                    )
                } else {
                    Err(
                        (
                            ErrorKind::ExpectedDigitAfterE {
                                exponent_range: Span { start: exponent_range.start, end: sign_end },
                                maybe_c: JsonCharOption(char_opt_at(s, pos)),
                            },
                            char_site(s, pos),
                        ),
                    )
                }
            },
            ExponentState::Digits { exp_start, has_nonzero, exp_end } => {
                if pos < len && is_digit(s[pos]) {
                    exponent_from(
                        s,
                        ExponentState::Digits {
                            exp_start,
                            has_nonzero: has_nonzero || s[pos] != 0x30,
                            exp_end: (pos + 1) as usize,
                        },
                        pos + 1,
                    )
                } else if has_nonzero {
                    Ok((Some(Span { start: exp_start, end: exp_end }), pos))
                } else {
                    Ok((None, pos))
                }
            },
            ExponentState::Zero => Ok((None, pos)),
            ExponentState::End(r) => Ok((Some(r), pos)),
        }
    }
}

/// what a state of the exponent reader knows, for the marker at byte `e`
pub open spec fn exponent_state_inv(s: Seq<u8>, st: ExponentState, e: int, pos: int) -> bool {
    match st {
        ExponentState::MinusOrPlusOrDigit { exponent_range } => exponent_range == sp(e, e + 1) && pos
            == e + 1,
        ExponentState::AfterSign { exponent_range, sign_end, minus_at } => {
            &&& exponent_range == sp(e, e + 1)
            &&& pos == e + 2
            &&& sign_end == pos
            &&& (minus_at matches Some(x) ==> x == e + 1)
        },
        ExponentState::Digits { exp_start, has_nonzero, exp_end } => exp_end == pos && e < exp_start
            < pos,
        ExponentState::Zero => e < pos,
        ExponentState::End(r) => r.end == pos && e < r.start < r.end,
    }
}

/// reading exponent digits on from `pos` ends where the digits end
proof fn lemma_exponent_digits(s: Seq<u8>, start: int, d: int, pos: int, nz: bool)
    requires
        s.len() <= usize::MAX,
        0 <= start <= d < pos <= s.len(),
        forall|i: int| d <= i < pos ==> is_digit(#[trigger] s[i]),
        nz == has_nonzero(s, d, pos),
    ensures
        exponent_from(
            s,
            ExponentState::Digits { exp_start: start as usize, has_nonzero: nz, exp_end: pos as usize },
            pos,
        ) == Ok::<(Option<Span>, int), (ErrorKind, ErrorSite)>(exponent_digits(s, start, d)),
    decreases s.len() - pos,
{
    lemma_digits_end_bounds(s, pos);
    assert(digits_end(s, d) == digits_end(s, pos)) by {
        lemma_digits_end_skip(s, d, pos);
    }
    if pos < s.len() && is_digit(s[pos]) {
        let nz2 = nz || s[pos] != 0x30;
        assert(nz2 == has_nonzero(s, d, pos + 1)) by {
            if nz2 && !nz {
                assert(d <= pos < pos + 1 && s[pos] != 0x30);
            }
        }
        lemma_exponent_digits(s, start, d, pos + 1, nz2);
    } else {
        assert(digits_end(s, pos) == pos);
    }
}

/// skipping digits known to be there does not change where the digits end
proof fn lemma_digits_end_skip(s: Seq<u8>, d: int, pos: int)
    requires
        0 <= d <= pos <= s.len(),
        forall|i: int| d <= i < pos ==> is_digit(#[trigger] s[i]),
    ensures
        digits_end(s, d) == digits_end(s, pos),
    decreases pos - d,
{
    if d < pos {
        lemma_digits_end_skip(s, d + 1, pos);
    }
}

/// stepping the state machine from its first state reads the exponent of RFC 8259
proof fn lemma_exponent_steps(s: Seq<u8>, e: int)
    requires
        s.len() <= usize::MAX,
        0 <= e < s.len(),
    ensures
        exponent_from(s, ExponentState::MinusOrPlusOrDigit { exponent_range: sp(e, e + 1) }, e + 1)
            == exponent_scan(s, e),
{
    let len = s.len() as int;
    let q = e + 1;
    let st0 = ExponentState::MinusOrPlusOrDigit { exponent_range: sp(e, e + 1) };
    if q < len && (s[q] == 0x2B || s[q] == 0x2D) {
        let r = q + 1;
        let st1 = ExponentState::AfterSign {
            exponent_range: sp(e, e + 1),
            sign_end: r as usize,
            minus_at: if s[q] == 0x2D {
                Some(q as usize)
            } else {
                None
            },
        };
        assert(exponent_from(s, st0, q) == exponent_from(s, st1, r));
        if r < len && is_digit(s[r]) {
            let start = if s[q] == 0x2D {
                q
            } else {
                r
            };
            let st2 = ExponentState::Digits {
                exp_start: start as usize,
                has_nonzero: s[r] != 0x30,
                exp_end: (r + 1) as usize,
            };
            assert(exponent_from(s, st1, r) == exponent_from(s, st2, r + 1));
            assert((s[r] != 0x30) == has_nonzero(s, r, r + 1));
            lemma_exponent_digits(s, start, r, r + 1, s[r] != 0x30);
        }
    } else if q < len && is_digit(s[q]) {
        let st2 = ExponentState::Digits {
            exp_start: q as usize,
            has_nonzero: s[q] != 0x30,
            exp_end: (q + 1) as usize,
        };
        assert(exponent_from(s, st0, q) == exponent_from(s, st2, q + 1));
        assert((s[q] != 0x30) == has_nonzero(s, q, q + 1));
        lemma_exponent_digits(s, q, q, q + 1, s[q] != 0x30);
    }
}

impl ExponentState {
    /// one step: reads at most one byte of `s` at `*pos`
    pub fn process(self, s: &[u8], pos: &mut usize, text: &str, Ghost(e): Ghost<int>) -> (res:
        Result<Self, Error>)
        requires
            window_of(s@, text),
            *old(pos) <= s@.len(),
            ascii_boundary(s@, *old(pos) as int),
            !(self is End),
            !(self is Zero),
            exponent_state_inv(s@, self, e, *old(pos) as int),
        ensures
            match res {
                Ok(st) => {
                    &&& exponent_state_inv(s@, st, e, *final(pos) as int)
                    &&& *final(pos) <= s@.len()
                    &&& ascii_boundary(s@, *final(pos) as int)
                    &&& exponent_from(s@, st, *final(pos) as int) == exponent_from(
                        s@,
                        self,
                        *old(pos) as int,
                    )
                    &&& (*final(pos) > *old(pos) || ((st is End || st is Zero) && *final(pos)
                        == *old(pos)))
                },
                Err(err) => exponent_from(s@, self, *old(pos) as int) matches Err((k, site))
                    && reports(err, k, site, text),
            },
    {
        let p = *pos;
        let at_end = p >= s.len();
        let b: u8 = if at_end {
            0u8
        } else {
            s[p]
        };
        proof {
            if !at_end {
                assert(s@[p as int] < 0x80 ==> ascii_boundary(s@, p + 1));
            }
        }
        match self {
            ExponentState::MinusOrPlusOrDigit { exponent_range } => {
                if !at_end && b == 0x2B {
                    *pos = p + 1;
                    Ok(ExponentState::AfterSign { exponent_range, sign_end: p + 1, minus_at: None })
                } else if !at_end && b == 0x2D {
                    *pos = p + 1;
                    Ok(ExponentState::AfterSign { exponent_range, sign_end: p + 1, minus_at: Some(p) })
                } else if !at_end && 0x30 <= b && b <= 0x39 {
                    *pos = p + 1;
                    Ok(ExponentState::Digits { exp_start: p, has_nonzero: b != 0x30, exp_end: p + 1 })
                } else {
                    let c = current_char_with_context(s, p);
                    let (found, at) = split_char(c);
                    Err(
                        Error::from_maybe_json_char_with_context(
                            ErrorKind::ExpectedPlusOrMinusOrDigitAfterE {
                                e_range: exponent_range,
                                maybe_c: JsonCharOption(found),
                            },
                            at,
                            text,
                        ),
                    )
                }
            },
            ExponentState::AfterSign { exponent_range, sign_end, minus_at } => {
                if !at_end && 0x30 <= b && b <= 0x39 {
                    *pos = p + 1;
                    let start = match minus_at {
                        Some(x) => x,
                        None => p,
                    };
                    Ok(ExponentState::Digits { exp_start: start, has_nonzero: b != 0x30, exp_end: p + 1 })
                } else {
                    let c = current_char_with_context(s, p);
                    let (found, at) = split_char(c);
                    Err(
                        Error::from_maybe_json_char_with_context(
                            ErrorKind::ExpectedDigitAfterE {
                                exponent_range: Span { start: exponent_range.start, end: sign_end },
                                maybe_c: JsonCharOption(found),
                            },
                            at,
                            text,
                        ),
                    )
                }
            },
            ExponentState::Digits { exp_start, has_nonzero, exp_end } => {
                if !at_end && 0x30 <= b && b <= 0x39 {
                    *pos = p + 1;
                    Ok(
                        ExponentState::Digits {
                            exp_start,
                            has_nonzero: has_nonzero || b != 0x30,
                            exp_end: p + 1,
                        },
                    )
                } else if has_nonzero {
                    Ok(ExponentState::End(Span { start: exp_start, end: exp_end }))
                } else {
                    Ok(ExponentState::Zero)
                }
            },
            _ => Ok(self),
        }
    }
}

/// reads the exponent whose marker is byte `e` of the bytes `s` of `text`:
/// the token, or nothing when its digits are all zero, and where reading stopped
pub fn scan_exponent(s: &[u8], text: &str, e: usize) -> (res: Result<
    (Option<TokenWithContext>, usize),
    Error,
>)
    requires
        window_of(s@, text),
        e < s@.len(),
        s@[e as int] < 0x80,
    ensures
        match exponent_scan(s@, e as int) {
            Ok((r, end)) => res matches Ok((t, n)) && n == end && t == (match r {
                Some(r) => Some(TokenWithContext { token: Token::Exponent, range: r }),
                None => None::<TokenWithContext>,
            }),
            Err((k, site)) => res matches Err(err) && reports(err, k, site, text),
        },
        res matches Ok((_, n)) ==> e < n <= s@.len() && ascii_boundary(s@, n as int),
{
    let _n = s.len();
    proof {
        lemma_exponent_steps(s@, e as int);
    }
    let mut state = ExponentState::MinusOrPlusOrDigit { exponent_range: Span { start: e, end: e + 1 } };
    let mut p = e + 1;
    loop
        invariant
            window_of(s@, text),
            e < p <= s@.len(),
            ascii_boundary(s@, p as int),
            !(state is End),
            !(state is Zero),
            exponent_state_inv(s@, state, e as int, p as int),
            exponent_from(s@, state, p as int) == exponent_scan(s@, e as int),
        decreases s@.len() - p,
    {
        match state.process(s, &mut p, text, Ghost(e as int)) {
            Ok(ExponentState::End(r)) => {
                return Ok((Some(TokenWithContext { token: Token::Exponent, range: r }), p));
            },
            Ok(ExponentState::Zero) => {
                return Ok((None, p));
            },
            Ok(next) => {
                state = next;
            },
            Err(err) => {
                return Err(err);
            },
        }
    }
}

/// the exponent of `input` whose marker `e` or `E` is at `exponent_range`
pub fn parse_exponent(input: &str, exponent_range: Span) -> (res: Result<
    (Option<TokenWithContext>, usize),
    Error,
>)
    requires
        exponent_range.start < input.spec_bytes().len(),
        input.spec_bytes()[exponent_range.start as int] < 0x80,
    ensures
        match exponent_scan(input.spec_bytes(), exponent_range.start as int) {
            Ok((r, end)) => res matches Ok((t, n)) && n == end && t == (match r {
                Some(r) => Some(TokenWithContext { token: Token::Exponent, range: r }),
                None => None::<TokenWithContext>,
            }),
            Err((k, site)) => res matches Err(err) && reports(err, k, site, input),
        },
{
    let s = input.as_bytes();
    proof {
        crate::text::lemma_str_bytes(input);
        assert(s@.subrange(0, s@.len() as int) =~= s@);
    }
    scan_exponent(s, input, exponent_range.start)
}


/// the bytes of `m` from `a` to `b` are all decimal digits
pub open spec fn digits_between(m: Seq<u8>, a: int, b: int) -> bool {
    forall|i: int| a <= i < b ==> '0' <= #[trigger] m[i] as char <= '9'
}

/// the bytes of the minus that `m` starts with: one or none
pub open spec fn sign_len(m: Seq<u8>) -> int {
    if m.len() > 0 && m[0] as char == '-' {
        1
    } else {
        0
    }
}

/// `m` is the part of a JSON number before its exponent, RFC 8259: a minus or
/// not, an integer that is `0` or starts with a digit from `1` to `9`, then a
/// point and one digit or more, or nothing
pub open spec fn rfc_mantissa(m: Seq<u8>) -> bool {
    let n = sign_len(m);
    exists|k: int|
        #![trigger digits_between(m, n, k)]
        n < k <= m.len() && digits_between(m, n, k) && (m[n] as char == '0' ==> k == n + 1) && (k
            == m.len() || (m[k] as char == '.' && k + 1 < m.len() && digits_between(
            m,
            k + 1,
            m.len() as int,
        )))
}

/// A mantissa read from byte `p` that ends at `e` is one by RFC 8259, and no
/// digit follows it; and the bytes from `p` to `e`, when they are one and no
/// digit or point follows them, are read as a mantissa that ends at `e`.
pub proof fn lemma_mantissa_grammar(s: Seq<u8>, p: int, e: int)
    requires
        0 <= p <= e <= s.len(),
    ensures
        mantissa_scan(s, p) == Ok::<int, (ErrorKind, ErrorSite)>(e) ==> rfc_mantissa(s.subrange(p, e))
            && (e == s.len() || !('0' <= s[e] as char <= '9')),
        rfc_mantissa(s.subrange(p, e)) && (e == s.len() || !('0' <= s[e] as char <= '9' || s[e] as char
            == '.')) ==> mantissa_scan(s, p) == Ok::<int, (ErrorKind, ErrorSite)>(e),
{
    let m = s.subrange(p, e);
    let len = s.len() as int;
    let neg = p < len && s[p] == 0x2D;
    let i = if neg {
        p + 1
    } else {
        p
    };
    let n = sign_len(m);
    assert forall|a: int, b: int| 0 <= a <= b <= m.len() implies digits_between(m, a, b) == (forall|
        j: int,
    | p + a <= j < p + b ==> is_digit(#[trigger] s[j])) by {
        if digits_between(m, a, b) {
            assert forall|j: int| p + a <= j < p + b implies is_digit(#[trigger] s[j]) by {
                assert(m[j - p] == s[j]);
            }
        }
        if forall|j: int| p + a <= j < p + b ==> is_digit(#[trigger] s[j]) {
            assert forall|j: int| a <= j < b implies '0' <= #[trigger] m[j] as char <= '9' by {
                assert(m[j] == s[p + j]);
            }
        }
    }
    if i < len {
        lemma_digits_end_bounds(s, i + 1);
    }
    if mantissa_scan(s, p) == Ok::<int, (ErrorKind, ErrorSite)>(e) {
        assert(i < len && is_digit(s[i]));
        assert(!(s[i] == 0x30 && i + 1 < len && is_digit(s[i + 1])));
        lemma_digits_end_bounds(s, i + 1);
        let ie = if s[i] == 0x30 {
            i + 1
        } else {
            digits_end(s, i + 1)
        };
        if ie < len && s[ie] == 0x2E {
            lemma_digits_end_bounds(s, ie + 1);
            assert(e == digits_end(s, ie + 1));
        } else {
            assert(e == ie);
        }
        assert(e > p);
        assert(n == i - p) by {
            if m.len() > 0 {
                assert(m[0] == s[p]);
            }
        }
        let int_end = if s[i] == 0x30 {
            i + 1
        } else {
            digits_end(s, i + 1)
        };
        let k = int_end - p;
        assert(is_digit(s[i]));
        assert(forall|j: int| i <= j < int_end ==> is_digit(#[trigger] s[j]));
        assert(m[n] == s[i]);
        if int_end < len && s[int_end] == 0x2E {
            lemma_digits_end_bounds(s, int_end + 1);
            assert(is_digit(s[int_end + 1]));
            assert(digits_end(s, int_end + 1) == digits_end(s, int_end + 2));
            lemma_digits_end_bounds(s, int_end + 2);
            assert(k + 1 < m.len());
            assert(m[k] == s[int_end]);
            assert(forall|j: int| int_end + 1 <= j < e ==> is_digit(#[trigger] s[j]));
            assert(digits_between(m, k + 1, m.len() as int));
        } else {
            assert(e == int_end);
        }
        assert(digits_between(m, n, k));
        assert(n < k <= m.len());
        assert(m[n] as char == '0' ==> k == n + 1);
        assert(k == m.len() || (m[k] as char == '.' && k + 1 < m.len() && digits_between(
            m,
            k + 1,
            m.len() as int,
        )));
        assert(rfc_mantissa(m));
    }
    if rfc_mantissa(m) && (e == s.len() || !('0' <= s[e] as char <= '9' || s[e] as char == '.')) {
        let k = choose|k: int|
            #![trigger digits_between(m, n, k)]
            n < k <= m.len() && digits_between(m, n, k) && (m[n] as char == '0' ==> k == n + 1) && (k
                == m.len() || (m[k] as char == '.' && k + 1 < m.len() && digits_between(
                m,
                k + 1,
                m.len() as int,
            )));
        assert(m[0] == s[p]);
        assert(n == i - p);
        assert(m[n] == s[i]);
        let ke = p + k;
        assert(forall|j: int| i <= j < ke ==> is_digit(#[trigger] s[j]));
        assert(ke == len || !is_digit(s[ke])) by {
            if ke < e {
                assert(m[k] == s[ke]);
            }
        }
        if s[i] == 0x30 {
            assert(ke == i + 1);
        } else {
            lemma_digits_end_skip(s, i + 1, ke);
            assert(digits_end(s, ke) == ke);
        }
        if ke < e {
            assert(m[k] == s[ke]);
            assert(s[ke] == 0x2E);
            assert(is_digit(s[ke + 1])) by {
                assert(m[k + 1] == s[ke + 1]);
            }
            assert(forall|j: int| ke + 1 <= j < e ==> is_digit(#[trigger] s[j]));
            lemma_digits_end_skip(s, ke + 1, e);
            assert(digits_end(s, e) == e);
        }
    }
}


/// the bytes of the sign that the exponent `x` has after its `e`: one or none
pub open spec fn exponent_sign_len(x: Seq<u8>) -> int {
    if x.len() > 1 && (x[1] as char == '+' || x[1] as char == '-') {
        1
    } else {
        0
    }
}

/// `x` is the exponent of a JSON number, RFC 8259: `e` or `E`, a sign or not,
/// then one digit or more
pub open spec fn rfc_exponent(x: Seq<u8>) -> bool {
    &&& x.len() > 0
    &&& x[0] as char == 'e' || x[0] as char == 'E'
    &&& 1 + exponent_sign_len(x) < x.len()
    &&& digits_between(x, 1 + exponent_sign_len(x), x.len() as int)
}

/// An exponent read from its `e` at byte `p` that ends at `e` is one by RFC
/// 8259, and no digit follows it; and the bytes from `p` to `e`, when they are
/// one and no digit follows them, are read as an exponent that ends at `e`.
pub proof fn lemma_exponent_grammar(s: Seq<u8>, p: int, e: int)
    requires
        0 <= p < e <= s.len(),
        s[p] as char == 'e' || s[p] as char == 'E',
    ensures
        exponent_scan(s, p) matches Ok((_, end)) && end == e ==> rfc_exponent(s.subrange(p, e)) && (e
            == s.len() || !('0' <= s[e] as char <= '9')),
        rfc_exponent(s.subrange(p, e)) && (e == s.len() || !('0' <= s[e] as char <= '9'))
            ==> (exponent_scan(s, p) matches Ok((_, end)) && end == e),
{
    let x = s.subrange(p, e);
    let len = s.len() as int;
    let q = p + 1;
    assert(x[0] == s[p]);
    assert forall|a: int, b: int| 0 <= a <= b <= x.len() implies digits_between(x, a, b) == (forall|
        j: int,
    | p + a <= j < p + b ==> is_digit(#[trigger] s[j])) by {
        if digits_between(x, a, b) {
            assert forall|j: int| p + a <= j < p + b implies is_digit(#[trigger] s[j]) by {
                assert(x[j - p] == s[j]);
            }
        }
        if forall|j: int| p + a <= j < p + b ==> is_digit(#[trigger] s[j]) {
            assert forall|j: int| a <= j < b implies '0' <= #[trigger] x[j] as char <= '9' by {
                assert(x[j] == s[p + j]);
            }
        }
    }
    let signed = q < len && (s[q] == 0x2B || s[q] == 0x2D);
    let d = if signed {
        q + 1
    } else {
        q
    };
    if q < e {
        assert(x[1] == s[q]);
    }
    if d <= len {
        lemma_digits_end_bounds(s, d);
    }
    if exponent_scan(s, p) matches Ok((_, end)) && end == e {
        assert(d < len && is_digit(s[d]));
        assert(e == digits_end(s, d));
        assert(digits_end(s, d) == digits_end(s, d + 1));
        lemma_digits_end_bounds(s, d + 1);
        assert(exponent_sign_len(x) == d - q);
        assert(digits_between(x, 1 + exponent_sign_len(x), x.len() as int));
    }
    if rfc_exponent(x) && (e == s.len() || !('0' <= s[e] as char <= '9')) {
        assert(exponent_sign_len(x) == d - q);
        assert(x[d - p] == s[d]);
        assert(is_digit(s[d]));
        assert(forall|j: int| d <= j < e ==> is_digit(#[trigger] s[j]));
        lemma_digits_end_skip(s, d, e);
        assert(digits_end(s, e) == e);
    }
}

} // verus!
