use jjpwrgem::bytes2chars::{Error, ErrorKind, Utf8CharIndices, Utf8Chars, Utf8Decoder};

fn collect_from_bytes(bytes: &[u8]) -> Vec<Result<(usize, char), Error>> {
    let mut decoder = Utf8Decoder::new(0);
    bytes.iter().copied().filter_map(|b| decoder.push(b)).collect()
}

fn collect_string(bytes: &[u8]) -> Result<String, Error> {
    collect_from_bytes(bytes).into_iter().map(|r| r.map(|(_, c)| c)).collect()
}

fn chars_to_string(mut chars: Utf8Chars) -> Result<String, Error> {
    let mut out = String::new();
    while let Some(r) = chars.next() {
        out.push(r?);
    }
    Ok(out)
}

fn indices_to_vec(mut indices: Utf8CharIndices) -> Result<Vec<(usize, char)>, Error> {
    let mut out = Vec::new();
    while let Some(r) = indices.next() {
        out.push(r?);
    }
    Ok(out)
}

const CRAB: &[u8] = b"\xF0\x9F\xA6\x80";

#[test]
fn ascii() {
    assert_eq!(collect_from_bytes(b"a"), Vec::from([Ok((0, 'a'))]));
}

#[test]
fn valid_2byte() {
    assert_eq!(collect_from_bytes(&[0xC3, 0xA9]), Vec::from([Ok((0, 'é'))]));
}

#[test]
fn valid_3byte() {
    assert_eq!(collect_from_bytes(&[0xE2, 0x82, 0xAC]), Vec::from([Ok((0, '€'))]));
}

#[test]
fn valid_4byte() {
    assert_eq!(collect_from_bytes(&[0xF0, 0x9F, 0x98, 0x80]), Vec::from([Ok((0, '😀'))]));
}

#[test]
fn invalid_lead_byte() {
    assert_eq!(
        collect_from_bytes(&[0x80]),
        Vec::from([Err(Error { range: 0..1, kind: ErrorKind::InvalidLead(0x80) })])
    );
}

#[test]
fn five_plus_byte_lead() {
    assert_eq!(
        collect_from_bytes(&[0xF8]),
        Vec::from([Err(Error { range: 0..1, kind: ErrorKind::InvalidSequenceLength(0xF8) })])
    );
}

#[test]
fn missing_continuation() {
    assert_eq!(
        collect_from_bytes(&[0xC3, 0xC3, b'a']),
        Vec::from([
            Err(Error { range: 0..2, kind: ErrorKind::ExpectedContinuation(0xC3) }),
            Ok((2, 'a')),
        ])
    );
}

#[test]
fn invalid_continuation() {
    assert_eq!(
        collect_from_bytes(&[0xC3, 0x40]),
        Vec::from([Err(Error { range: 0..2, kind: ErrorKind::ExpectedContinuation(0x40) })])
    );
}

#[test]
fn e0_overlong() {
    assert_eq!(
        collect_from_bytes(&[0xE0, 0x80, 0x80]),
        Vec::from([Err(Error { range: 0..3, kind: ErrorKind::Overlong(0x0000) })])
    );
}

#[test]
fn ed_surrogate_rejected() {
    assert_eq!(
        collect_from_bytes(&[0xED, 0xA0, 0x80]),
        Vec::from([Err(Error { range: 0..3, kind: ErrorKind::InvalidSurrogate(0xD800) })])
    );
}

#[test]
fn f0_overlong() {
    assert_eq!(
        collect_from_bytes(&[0xF0, 0x80, 0x80, 0x80]),
        Vec::from([Err(Error { range: 0..4, kind: ErrorKind::Overlong(0x0000) })])
    );
}

#[test]
fn f4_out_of_range() {
    assert_eq!(
        collect_from_bytes(&[0xF4, 0x90, 0x80, 0x80]),
        Vec::from([Err(Error { range: 0..4, kind: ErrorKind::OutOfRange(0x0011_0000) })])
    );
}

#[test]
fn incomplete_sequence_errors_on_finish() {
    let mut decoder = Utf8Decoder::new(0);
    assert!(decoder.push(0xC3).is_none());
    assert_eq!(
        decoder.finish(),
        Err(Error { range: 0..1, kind: ErrorKind::UnfinishedSequence })
    );

    let mut decoder = Utf8Decoder::new(0);
    assert!(decoder.push(0xF0).is_none());
    assert_eq!(
        decoder.finish(),
        Err(Error { range: 0..1, kind: ErrorKind::UnfinishedSequence })
    );
}

#[test]
fn chars_collect() {
    assert_eq!(collect_string(b"\xF0\x9F\xA6\x80 rust").unwrap(), "🦀 rust");
}

#[test]
fn done_starts_fresh_sequence() {
    let mut decoder = Utf8Decoder::new(0);
    assert_eq!(decoder.push(0xE2), None);
    assert_eq!(decoder.push(0x82), None);
    assert_eq!(decoder.push(0xAC), Some(Ok((0, '€'))));
    assert_eq!(decoder.push(b'a'), Some(Ok((3, 'a'))));
    assert_eq!(decoder.push(0xC3), None);
    assert_eq!(decoder.push(0x80), Some(Ok((4, 'À'))));
}

#[test]
fn new_at_offsets_indices() {
    let mut decoder = Utf8Decoder::new(10);
    assert_eq!(decoder.push(b'x'), Some(Ok((10, 'x'))));
    assert_eq!(decoder.push(0xC3), None);
    assert_eq!(decoder.push(0xA9), Some(Ok((11, 'é'))));
    assert_eq!(
        decoder.push(0x80),
        Some(Err(Error { range: 13..14, kind: ErrorKind::InvalidLead(0x80) }))
    );
}

#[test]
fn unterminated_sequence_yields_eof_error() {
    let result = chars_to_string(Utf8Chars::new(vec![0xC3u8], 0));
    assert_eq!(
        result.unwrap_err(),
        Error { range: 0..1, kind: ErrorKind::UnfinishedSequence }
    );
}

#[test]
fn indices_into_chars() {
    let indices = Utf8CharIndices::new(CRAB.to_vec(), 0);
    let chars: Utf8Chars = indices.into_chars();
    assert_eq!(chars_to_string(chars).unwrap(), "🦀");
}

#[test]
fn chars_into_indices() {
    let chars = Utf8Chars::new(CRAB.to_vec(), 0);
    let indices: Utf8CharIndices = chars.into_char_indices();
    assert_eq!(indices_to_vec(indices).unwrap(), [(0, '🦀')]);
}

#[test]
fn chars_dot_into_char_indices() {
    let chars = Utf8Chars::new(CRAB.to_vec(), 0);
    assert_eq!(indices_to_vec(chars.into_char_indices()).unwrap(), [(0, '🦀')]);
}

#[test]
fn indices_dot_into_chars() {
    let chars: Utf8Chars = Utf8CharIndices::new(CRAB.to_vec(), 0).into_chars();
    assert_eq!(chars_to_string(chars).unwrap(), "🦀");
}

/// a sample of the cases of Markus Kuhn's UTF-8 decoder stress test, which
/// this sandbox does not hold: each is valid UTF-8
const VALID_CASES: &[&[u8]] = &[
    b"\x00",
    b"\x7F",
    b"\xC2\x80",
    b"\xDF\xBF",
    b"\xE0\xA0\x80",
    b"\xEF\xBF\xBF",
    b"\xF0\x90\x80\x80",
    b"\xF4\x8F\xBF\xBF",
    b"\xED\x9F\xBF",
    b"\xEE\x80\x80",
    b"\xEF\xBF\xBD",
    b"\xCE\xBA\xE1\xBD\xB9\xCF\x83\xCE\xBC\xCE\xB5",
];

/// a sample of the invalid cases of that test
const INVALID_CASES: &[&[u8]] = &[
    b"\x80",
    b"\xBF",
    b"\x80\xBF\x80",
    b"\xC0\xAF",
    b"\xE0\x80\xAF",
    b"\xF0\x80\x80\xAF",
    b"\xF8\x80\x80\x80\xAF",
    b"\xFC\x80\x80\x80\x80\xAF",
    b"\xC1\xBF",
    b"\xE0\x9F\xBF",
    b"\xF0\x8F\xBF\xBF",
    b"\xED\xA0\x80",
    b"\xED\xBF\xBF",
    b"\xED\xA0\x80\xED\xB0\x80",
    b"\xF4\x90\x80\x80",
    b"\xFE",
    b"\xFF",
    b"\xC2",
    b"\xE0\xA0",
    b"\xF0\x90\x80",
    b"\xC2\x41",
];

fn errors_of(bytes: &[u8]) -> Vec<ErrorKind> {
    Utf8CharIndices::new(bytes.to_vec(), 0)
        .collect()
        .into_iter()
        .filter_map(|r| r.err().map(|e| e.kind))
        .collect()
}

#[test]
fn conformance_valid() {
    for case in VALID_CASES {
        assert_eq!(errors_of(case), Vec::new(), "{case:02X?}");
    }
}

#[test]
fn conformance_invalid() {
    for case in INVALID_CASES {
        assert!(!errors_of(case).is_empty(), "{case:02X?}");
    }
}

#[test]
fn offsets_match_char_indices() {
    let text = "a\u{e9}\u{20ac}\u{1F980}z";
    let expected: Vec<Result<(usize, char), Error>> =
        text.char_indices().map(|(i, c)| Ok((i + 10, c))).collect();
    assert_eq!(Utf8CharIndices::new(text.as_bytes().to_vec(), 10).collect(), expected);
}

#[test]
fn default_decoder_starts_at_zero() {
    let mut d = Utf8Decoder::default();
    assert_eq!(d.push(b'a'), Some(Ok((0, 'a'))));
}

#[test]
fn reported_ranges_cover_the_bytes_in_order() {
    let bytes = b"a\xC3\xC3b\xF0\x9F\xA6\x80\xE2\x82";
    let mut next = 5;
    for item in Utf8CharIndices::new(bytes.to_vec(), 5).collect() {
        let (start, end) = match item {
            Ok((i, c)) => (i, i + c.len_utf8()),
            Err(e) => (e.range.start, e.range.end),
        };
        assert_eq!(start, next);
        assert!(start < end);
        next = end;
    }
    assert_eq!(next, 5 + bytes.len());
}
