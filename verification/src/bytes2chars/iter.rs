use vstd::prelude::*;

use super::decoder::{
    Utf8Decoder, decode_items, finish_result, first_step, lemma_decode_items_extend,
    lemma_first_step_len, to_item,
};
use vstd::utf8::*;
use super::{Error, ErrorKind};

verus! {

/// everything that decoding `bytes` from offset `base` reports: the decoded
/// items, then the error for a truncated final sequence, if there is one
pub open spec fn decode_all(bytes: Seq<u8>, base: int) -> Seq<Result<(usize, char), Error>> {
    decode_items(bytes, base).0 + match finish_result(bytes, base) {
        Ok(_) => Seq::<Result<(usize, char), Error>>::empty(),
        Err(e) => seq![Err::<(usize, char), Error>(e)],
    }
}

/// fallible analog to `CharIndices` over a byte buffer: yields `char`s and
/// their byte offset, or an `Error` for each invalid sequence
pub struct Utf8CharIndices {
    bytes: Vec<u8>,
    pos: usize,
    state: Utf8Decoder,
    exhausted: bool,
    base: Ghost<int>,
    yielded: Ghost<nat>,
}

impl Utf8CharIndices {
    /// the bytes being decoded
    pub closed spec fn bytes(&self) -> Seq<u8> {
        self.bytes@
    }

    /// the byte offset of the first byte
    pub closed spec fn base(&self) -> int {
        self.base@
    }

    /// how many items were yielded so far
    pub closed spec fn yielded(&self) -> nat {
        self.yielded@
    }

    /// every item that the iterator yields, in order
    pub open spec fn items(&self) -> Seq<Result<(usize, char), Error>> {
        decode_all(self.bytes(), self.base())
    }

    pub closed spec fn wf(&self) -> bool {
        &&& self.pos <= self.bytes@.len()
        &&& self.base@ >= 0
        &&& self.base@ + self.bytes@.len() <= usize::MAX
        &&& self.yielded@ <= decode_all(self.bytes@, self.base@).len()
        &&& !self.exhausted ==> {
            &&& self.state.wf()
            &&& self.state.history() == self.bytes@.subrange(0, self.pos as int)
            &&& self.state.base() == self.base@
            &&& self.yielded@ == decode_items(self.state.history(), self.base@).0.len()
        }
        &&& self.exhausted ==> self.yielded@ == decode_all(self.bytes@, self.base@).len()
    }

    /// create an iterator whose first byte sits at byte offset `offset`
    pub fn new(bytes: Vec<u8>, offset: usize) -> (res: Self)
        requires
            offset + bytes@.len() <= usize::MAX,
        ensures
            res.wf(),
            res.bytes() == bytes@,
            res.base() == offset,
            res.yielded() == 0,
    {
        let res = Self {
            bytes,
            pos: 0,
            state: Utf8Decoder::new(offset),
            exhausted: false,
            base: Ghost(offset as int),
            yielded: Ghost(0),
        };
        assert(res.bytes@.subrange(0, 0) =~= Seq::<u8>::empty());
        res
    }

    /// convert into a [`Utf8Chars`] iterator yielding `char`s and omitting their position
    pub fn into_chars(self) -> (res: Utf8Chars)
        ensures
            res.inner() == self,
    {
        Utf8Chars { inner: self }
    }

    /// the next item: a decoded char with its offset, or the error of an
    /// invalid sequence; `None` once every item was yielded
    pub fn next(&mut self) -> (res: Option<Result<(usize, char), Error>>)
        requires
            old(self).wf(),
        ensures
            final(self).wf(),
            final(self).bytes() == old(self).bytes(),
            final(self).base() == old(self).base(),
            old(self).yielded() <= old(self).items().len(),
            old(self).yielded() < old(self).items().len() ==> res == Some(
                old(self).items()[old(self).yielded() as int],
            ) && final(self).yielded() == old(self).yielded() + 1,
            old(self).yielded() == old(self).items().len() ==> res is None && final(self).yielded()
                == old(self).yielded(),
    {
        let ghost bytes = self.bytes@;
        let ghost base = self.base@;
        let ghost all = decode_all(bytes, base);
        if self.exhausted {
            return None;
        }
        proof {
            lemma_decode_items_extend(
                bytes.subrange(0, self.pos as int),
                bytes.subrange(self.pos as int, bytes.len() as int),
                base,
            );
            assert(bytes.subrange(0, self.pos as int) + bytes.subrange(
                self.pos as int,
                bytes.len() as int,
            ) =~= bytes);
        }
        while self.pos < self.bytes.len()
            invariant
                self.wf(),
                !self.exhausted,
                self.bytes@ == bytes,
                self.base@ == base,
                bytes == old(self).bytes@,
                base == old(self).base@,
                all == decode_all(bytes, base),
                self.yielded@ == old(self).yielded@,
                self.yielded@ <= decode_items(bytes, base).0.len(),
                forall|i: int|
                    0 <= i < self.yielded@ ==> decode_items(self.state.history(), base).0[i]
                        == #[trigger] decode_items(bytes, base).0[i],
            decreases self.bytes@.len() - self.pos,
        {
            let b = self.bytes[self.pos];
            let ghost h = self.state.history();
            self.pos = self.pos + 1;
            let r = self.state.push(b);
            proof {
                let h2 = bytes.subrange(0, self.pos as int);
                assert(h.push(b) =~= h2);
                lemma_decode_items_extend(h2, bytes.subrange(self.pos as int, bytes.len() as int), base);
                assert(h2 + bytes.subrange(self.pos as int, bytes.len() as int) =~= bytes);
            }
            if r.is_some() {
                self.yielded = Ghost(self.yielded@ + 1);
                return r;
            }
        }
        proof {
            assert(self.state.history() =~= bytes);
        }
        self.exhausted = true;
        let mut state = Utf8Decoder::new(0);
        core::mem::swap(&mut state, &mut self.state);
        match state.finish() {
            Ok(_) => {
                assert(all =~= decode_items(bytes, base).0);
                None
            },
            Err(e) => {
                self.yielded = Ghost(self.yielded@ + 1);
                Some(Err(e))
            },
        }
    }

    /// every remaining item, in order
    pub fn collect(self) -> (res: Vec<Result<(usize, char), Error>>)
        requires
            self.wf(),
        ensures
            res@ == self.items().subrange(self.yielded() as int, self.items().len() as int),
    {
        let mut it = self;
        let mut out: Vec<Result<(usize, char), Error>> = Vec::new();
        let ghost start = it.yielded();
        let ghost all = it.items();
        loop
            invariant
                it.wf(),
                it.items() == all,
                all == self.items(),
                start == self.yielded(),
                start <= it.yielded() <= all.len(),
                out@ == all.subrange(start as int, it.yielded() as int),
            decreases all.len() - it.yielded(),
        {
            let ghost before = it.yielded();
            match it.next() {
                Some(x) => {
                    out.push(x);
                    assert(out@ =~= all.subrange(start as int, it.yielded() as int));
                },
                None => {
                    return out;
                },
            }
        }
    }
}

/// fallible analog to `Chars` over a byte buffer: yields `char`s, or an
/// `Error` for each invalid sequence; a convenience wrapper over
/// [`Utf8CharIndices`]
pub struct Utf8Chars {
    inner: Utf8CharIndices,
}

impl Utf8Chars {
    /// the iterator that tracks positions
    pub closed spec fn inner(&self) -> Utf8CharIndices {
        self.inner
    }

    /// create an iterator whose first byte sits at byte offset `offset`
    pub fn new(bytes: Vec<u8>, offset: usize) -> (res: Self)
        requires
            offset + bytes@.len() <= usize::MAX,
        ensures
            res.inner().wf(),
            res.inner().bytes() == bytes@,
            res.inner().base() == offset,
            res.inner().yielded() == 0,
    {
        Self { inner: Utf8CharIndices::new(bytes, offset) }
    }

    /// convert into a [`Utf8CharIndices`], which also yields byte offsets
    pub fn into_char_indices(self) -> (res: Utf8CharIndices)
        ensures
            res == self.inner(),
    {
        self.inner
    }

    /// the next char, or the error of an invalid sequence, without its offset
    pub fn next(&mut self) -> (res: Option<Result<char, Error>>)
        requires
            old(self).inner().wf(),
        ensures
            final(self).inner().wf(),
            final(self).inner().bytes() == old(self).inner().bytes(),
            final(self).inner().base() == old(self).inner().base(),
            ({
                let it = old(self).inner();
                &&& it.yielded() < it.items().len() ==> final(self).inner().yielded() == it.yielded() + 1
                    && res == Some(match it.items()[it.yielded() as int] {
                    Ok((_, c)) => Ok::<char, Error>(c),
                    Err(e) => Err(e),
                })
                &&& it.yielded() >= it.items().len() ==> res is None
            }),
    {
        match self.inner.next() {
            Some(Ok((_, c))) => Some(Ok(c)),
            Some(Err(e)) => Some(Err(e)),
            None => None,
        }
    }
}

/// an item reported `k` bytes further on
pub open spec fn shifted(item: Result<(usize, char), Error>, k: int) -> Result<(usize, char), Error> {
    match item {
        Ok((o, c)) => Ok(((o + k) as usize, c)),
        Err(e) => Err(Error { range: ((e.range.start + k) as usize)..((e.range.end + k) as usize), kind: e.kind }),
    }
}

proof fn lemma_decode_items_shift(bytes: Seq<u8>, base: int, k: int)
    requires
        0 <= base,
        0 <= k,
        base + k + bytes.len() <= usize::MAX,
    ensures
        decode_items(bytes, base + k).1 == decode_items(bytes, base).1,
        decode_items(bytes, base + k).0 == decode_items(bytes, base).0.map_values(
            |item: Result<(usize, char), Error>| shifted(item, k),
        ),
    decreases bytes.len(),
{
    match first_step(bytes) {
        None => {
            assert(decode_items(bytes, base).0.map_values(|item: Result<(usize, char), Error>| shifted(item, k))
                =~= Seq::<Result<(usize, char), Error>>::empty());
        },
        Some((n, r)) => if 0 < n <= bytes.len() {
            let tail = bytes.subrange(n, bytes.len() as int);
            lemma_decode_items_shift(tail, base + n, k);
            assert(base + k + n == base + n + k);
            assert(shifted(to_item(base, n, r), k) == to_item(base + k, n, r));
            assert(decode_items(bytes, base + k).0 =~= decode_items(bytes, base).0.map_values(
                |item: Result<(usize, char), Error>| shifted(item, k),
            ));
        } else {
            assert(decode_items(bytes, base).0.map_values(|item: Result<(usize, char), Error>| shifted(item, k))
                =~= Seq::<Result<(usize, char), Error>>::empty());
        },
    }
}

proof fn lemma_decode_items_rest_len(bytes: Seq<u8>, base: int)
    ensures
        decode_items(bytes, base).1.len() <= bytes.len(),
    decreases bytes.len(),
{
    match first_step(bytes) {
        Some((n, r)) => if 0 < n <= bytes.len() {
            lemma_decode_items_rest_len(bytes.subrange(n, bytes.len() as int), base + n);
        },
        None => {},
    }
}

/// Decoding bytes that sit `k` bytes further on reports the same chars and
/// errors, each at an offset `k` bytes further on.
pub proof fn lemma_decode_all_shift(bytes: Seq<u8>, base: int, k: int)
    requires
        0 <= base,
        0 <= k,
        base + k + bytes.len() <= usize::MAX,
    ensures
        decode_all(bytes, base + k) == decode_all(bytes, base).map_values(
            |item: Result<(usize, char), Error>| shifted(item, k),
        ),
{
    lemma_decode_items_shift(bytes, base, k);
    let f = |item: Result<(usize, char), Error>| shifted(item, k);
    let items = decode_items(bytes, base).0;
    match finish_result(bytes, base) {
        Ok(_) => {
            assert(decode_all(bytes, base) =~= items);
            assert(decode_all(bytes, base + k) =~= items.map_values(f));
        },
        Err(e) => {
            let p = decode_items(bytes, base).1;
            lemma_decode_items_rest_len(bytes, base);
            assert(p.len() > 0);
            assert(finish_result(bytes, base + k) == Err::<usize, Error>(
                Error {
                    range: ((base + k + bytes.len() - p.len()) as usize)..((base + k + bytes.len()) as usize),
                    kind: ErrorKind::UnfinishedSequence,
                },
            ));
            assert(shifted(Err(e), k) == Err::<(usize, char), Error>(
                Error {
                    range: ((base + k + bytes.len() - p.len()) as usize)..((base + k + bytes.len()) as usize),
                    kind: ErrorKind::UnfinishedSequence,
                },
            ));
            assert(decode_all(bytes, base).map_values(f) =~= items.map_values(f) + seq![shifted(Err(e), k)]);
            assert(decode_all(bytes, base + k) =~= items.map_values(f) + seq![shifted(Err(e), k)]);
        },
    }
}

/// the bytes an item of the decoder reports on: a char's encoding from its
/// offset, or the range of an error
pub open spec fn item_range(item: Result<(usize, char), Error>) -> (int, int) {
    match item {
        Ok((i, c)) => (i as int, i + encode_scalar(c as u32).len()),
        Err(e) => (e.range.start as int, e.range.end as int),
    }
}

/// the items report on the bytes from offset `a` to offset `b`, each where the
/// one before it ends
pub open spec fn tiles(items: Seq<Result<(usize, char), Error>>, a: int, b: int) -> bool
    decreases items.len(),
{
    if items.len() == 0 {
        a == b
    } else {
        item_range(items[0]).0 == a && a < item_range(items[0]).1 && tiles(
            items.drop_first(),
            item_range(items[0]).1,
            b,
        )
    }
}

proof fn lemma_tiles_concat(xs: Seq<Result<(usize, char), Error>>, ys: Seq<Result<(usize, char), Error>>, a: int, m: int, b: int)
    requires
        tiles(xs, a, m),
        tiles(ys, m, b),
    ensures
        tiles(xs + ys, a, b),
    decreases xs.len(),
{
    if xs.len() > 0 {
        assert((xs + ys).drop_first() =~= xs.drop_first() + ys);
        assert((xs + ys)[0] == xs[0]);
        lemma_tiles_concat(xs.drop_first(), ys, item_range(xs[0]).1, m, b);
    } else {
        assert(xs + ys =~= ys);
    }
}

proof fn lemma_decode_items_tile(bytes: Seq<u8>, base: int)
    requires
        0 <= base,
        base + bytes.len() <= usize::MAX,
    ensures
        decode_items(bytes, base).1.len() <= bytes.len(),
        tiles(decode_items(bytes, base).0, base, base + bytes.len() - decode_items(bytes, base).1.len()),
    decreases bytes.len(),
{
    lemma_first_step_len(bytes);
    match first_step(bytes) {
        None => {},
        Some((n, r)) => {
            let rest = bytes.subrange(n, bytes.len() as int);
            lemma_decode_items_tile(rest, base + n);
            let item = to_item(base, n, r);
            let all = seq![item] + decode_items(rest, base + n).0;
            assert(all.drop_first() =~= decode_items(rest, base + n).0);
            if let Ok(c) = r {
                char_is_scalar(c);
                if bytes[0] >= 0x80 {
                    let cp = decode_first_codepoint(bytes);
                    assert(c == cp as char);
                    char_u32_cast(c, cp);
                }
                assert(encode_scalar(c as u32).len() == n);
            }
            assert(item_range(item).1 == base + n);
        },
    }
}

/// The items that decoding reports, the error for an unfinished sequence
/// included, cover the bytes exactly and in order: each starts where the one
/// before it ends, from the first byte to the last.
pub proof fn lemma_decode_all_tiles(bytes: Seq<u8>, base: int)
    requires
        0 <= base,
        base + bytes.len() <= usize::MAX,
    ensures
        tiles(decode_all(bytes, base), base, base + bytes.len()),
{
    lemma_decode_items_tile(bytes, base);
    let (items, p) = decode_items(bytes, base);
    let m = base + bytes.len() - p.len();
    if p.len() == 0 {
        assert(decode_all(bytes, base) =~= items);
    } else {
        let e = finish_result(bytes, base)->Err_0;
        let last = seq![Err::<(usize, char), Error>(e)];
        assert(last.drop_first() =~= Seq::<Result<(usize, char), Error>>::empty());
        assert(tiles(last, m, base + bytes.len())) by {
            reveal_with_fuel(tiles, 2);
        }
        lemma_tiles_concat(items, last, base, m, base + bytes.len());
    }
}

} // verus!
