//! The depth-guarded encoder and decoder of item trees.
use vstd::prelude::*;
use vstd::slice::{slice_subrange, slice_to_vec};

use crate::header::{
    addnl_bytes, decode_addnl, decode_hdr, encode_addnl, encode_hdr, hdr_byte, spec_decode_addnl,
    spec_decode_hdr, Info,
};
use crate::value::{
    cbor_view, item_key, key_item, list_view, map_view, simple_payload, spec_decode_simple, Cbor,
    CborView, Key, KeyView, SimpleValue, Tag,
};
use crate::Error;

verus! {

/// The deepest nesting that encode and decode accept; the top item is at depth 1.
pub const RECURSION_LIMIT: u32 = 1000;

/// Whether encoding `v` as an item at nesting depth `depth` succeeds: no
/// item lies deeper than the limit and every immediate descriptor is at
/// most 23.
pub open spec fn encodable(v: CborView, depth: int) -> bool
    decreases v,
{
    &&& depth <= RECURSION_LIMIT
    &&& match v {
        CborView::Major0(i, _) => i.encodable(),
        CborView::Major1(i, _) => i.encodable(),
        CborView::Major2(i, _) => i.encodable(),
        CborView::Major3(i, _) => i.encodable(),
        CborView::Major4(i, l) => i.encodable() && list_encodable(l, depth + 1),
        CborView::Major5(i, m) => i.encodable() && (m.len() > 0 ==> depth + 1 <= RECURSION_LIMIT)
            && map_encodable(m, depth + 1),
        CborView::Major6(i, _) => i.encodable(),
        CborView::Major7(i, _) => i.encodable(),
    }
}

/// Whether every item of `s` can be encoded at depth `depth`.
pub open spec fn list_encodable(s: Seq<CborView>, depth: int) -> bool
    decreases s,
{
    s.len() > 0 ==> list_encodable(s.subrange(0, s.len() - 1), depth) && encodable(
        s[s.len() - 1],
        depth,
    )
}

/// Whether every value of `s` can be encoded at depth `depth`.
pub open spec fn map_encodable(s: Seq<(KeyView, CborView)>, depth: int) -> bool
    decreases s,
{
    s.len() > 0 ==> map_encodable(s.subrange(0, s.len() - 1), depth) && encodable(
        s[s.len() - 1].1,
        depth,
    )
}

pub(crate) proof fn lemma_list_encodable(s: Seq<CborView>, depth: int)
    ensures
        list_encodable(s, depth) <==> forall|k: int|
            0 <= k < s.len() ==> #[trigger] encodable(s[k], depth),
    decreases s.len(),
{
    if s.len() > 0 {
        let p = s.subrange(0, s.len() - 1);
        lemma_list_encodable(p, depth);
        assert forall|k: int| 0 <= k < p.len() implies p[k] == s[k] by {}
        if list_encodable(s, depth) {
            assert(encodable(s[s.len() - 1], depth));
            assert forall|k: int| 0 <= k < s.len() implies #[trigger] encodable(s[k], depth) by {
                if k < p.len() {
                    assert(p[k] == s[k]);
                }
            }
        }
        if forall|k: int| 0 <= k < s.len() ==> #[trigger] encodable(s[k], depth) {
            assert forall|k: int| 0 <= k < p.len() implies #[trigger] encodable(p[k], depth) by {
                assert(p[k] == s[k]);
            }
            assert(encodable(s[s.len() - 1], depth));
        }
    }
}

pub(crate) proof fn lemma_map_encodable(s: Seq<(KeyView, CborView)>, depth: int)
    ensures
        map_encodable(s, depth) <==> forall|k: int|
            0 <= k < s.len() ==> #[trigger] encodable(s[k].1, depth),
    decreases s.len(),
{
    if s.len() > 0 {
        let p = s.subrange(0, s.len() - 1);
        lemma_map_encodable(p, depth);
        assert forall|k: int| 0 <= k < p.len() implies p[k] == s[k] by {}
        if map_encodable(s, depth) {
            assert(encodable(s[s.len() - 1].1, depth));
            assert forall|k: int| 0 <= k < s.len() implies #[trigger] encodable(s[k].1, depth) by {
                if k < p.len() {
                    assert(p[k] == s[k]);
                }
            }
        }
        if forall|k: int| 0 <= k < s.len() ==> #[trigger] encodable(s[k].1, depth) {
            assert forall|k: int| 0 <= k < p.len() implies #[trigger] encodable(p[k].1, depth) by {
                assert(p[k] == s[k]);
            }
            assert(encodable(s[s.len() - 1].1, depth));
        }
    }
}

/// The bytes of an item that holds no other item: header, additional
/// value and payload.
pub open spec fn enc_flat(v: CborView) -> Seq<u8> {
    match v {
        CborView::Major0(i, n) => seq![hdr_byte(0, i)] + addnl_bytes(n),
        CborView::Major1(i, n) => seq![hdr_byte(1, i)] + addnl_bytes(n),
        CborView::Major2(i, b) => seq![hdr_byte(2, i)] + addnl_bytes(b.len() as u64) + b,
        CborView::Major3(i, b) => seq![hdr_byte(3, i)] + addnl_bytes(b.len() as u64) + b,
        CborView::Major6(i, t) => seq![hdr_byte(6, i)] + addnl_bytes(t->Value_0),
        CborView::Major7(i, s) => seq![hdr_byte(7, i)] + simple_payload(s),
        _ => Seq::empty(),
    }
}

/// The bytes written for an item. The additional value always takes the
/// least width, whatever the descriptor says.
pub open spec fn enc(v: CborView) -> Seq<u8>
    decreases v,
{
    match v {
        CborView::Major4(i, l) => seq![hdr_byte(4, i)] + addnl_bytes(l.len() as u64) + enc_list(
            l,
        ),
        CborView::Major5(i, m) => seq![hdr_byte(5, i)] + addnl_bytes(m.len() as u64) + enc_map(
            m,
        ),
        _ => enc_flat(v),
    }
}

/// The bytes of a sequence of items, one after the other.
pub open spec fn enc_list(s: Seq<CborView>) -> Seq<u8>
    decreases s,
{
    if s.len() == 0 {
        Seq::empty()
    } else {
        enc_list(s.subrange(0, s.len() - 1)) + enc(s[s.len() - 1])
    }
}

/// The bytes of a sequence of pairs: each key as the item it stands for,
/// then its value.
pub open spec fn enc_map(s: Seq<(KeyView, CborView)>) -> Seq<u8>
    decreases s,
{
    if s.len() == 0 {
        Seq::empty()
    } else {
        enc_map(s.subrange(0, s.len() - 1)) + enc_flat(key_item(s[s.len() - 1].0)) + enc(
            s[s.len() - 1].1,
        )
    }
}

/// Whether an item is the break marker.
pub open spec fn is_break(v: CborView) -> bool {
    v matches CborView::Major7(_, SimpleValue::Break)
}

/// The bytes of `v` if it is a definite-length string of major type `major`.
pub open spec fn chunk_of(v: CborView, major: u8) -> Option<Seq<u8>> {
    match v {
        CborView::Major2(i, b) => if major == 2 && i != Info::Indefinite {
            Some(b)
        } else {
            None
        },
        CborView::Major3(i, b) => if major == 3 && i != Info::Indefinite {
            Some(b)
        } else {
            None
        },
        _ => None,
    }
}

/// A byte string (`major` 2) or a text string (`major` 3).
pub open spec fn string_item(major: u8, info: Info, b: Seq<u8>) -> CborView {
    if major == 2 {
        CborView::Major2(info, b)
    } else {
        CborView::Major3(info, b)
    }
}

/// Whether `q` lies after `pos` and within `data`.
pub open spec fn advances(data: Seq<u8>, pos: usize, q: usize) -> bool {
    pos < q && q <= data.len()
}

/// `a` put before the sequence that a successful read gave.
pub open spec fn prepend<T>(a: Seq<T>, r: Result<(Seq<T>, usize), Error>) -> Result<
    (Seq<T>, usize),
    Error,
> {
    match r {
        Ok((s, q)) => Ok((a + s, q)),
        Err(e) => Err(e),
    }
}

/// Reading one item at `pos`, nested at depth `depth`: the item and the
/// position after it. The break marker is read as an item here; only an
/// enclosing indefinite aggregate accepts it.
pub open spec fn dec(data: Seq<u8>, pos: usize, depth: int) -> Result<(CborView, usize), Error>
    decreases RECURSION_LIMIT + 1 - depth, data.len() - pos, 0int,
{
    if depth > RECURSION_LIMIT {
        Err(Error::FailCbor)
    } else if pos >= data.len() {
        Err(Error::IoError)
    } else {
        match spec_decode_hdr(data, pos) {
            Err(e) => Err(e),
            Ok((major, info, p)) => if !advances(data, pos, p) {
                Err(Error::Fatal)
            } else if major == 0 || major == 1 || major == 6 {
                match spec_decode_addnl(info, data, p) {
                    Ok((n, q)) => Ok(
                        (
                            if major == 0 {
                                CborView::Major0(info, n)
                            } else if major == 1 {
                                CborView::Major1(info, n)
                            } else {
                                CborView::Major6(info, Tag::Value(n))
                            },
                            q,
                        ),
                    ),
                    Err(e) => Err(e),
                }
            } else if major == 7 {
                match spec_decode_simple(info, data, p) {
                    Ok((s, q)) => Ok((CborView::Major7(info, s), q)),
                    Err(e) => Err(e),
                }
            } else if info == Info::Indefinite {
                if major == 2 || major == 3 {
                    match dec_chunks(data, p, depth, major) {
                        Ok((b, q)) => Ok((string_item(major, info, b), q)),
                        Err(e) => Err(e),
                    }
                } else if major == 4 {
                    match dec_list_indef(data, p, depth) {
                        Ok((l, q)) => Ok((CborView::Major4(info, l), q)),
                        Err(e) => Err(e),
                    }
                } else {
                    match dec_map_indef(data, p, depth) {
                        Ok((m, q)) => Ok((CborView::Major5(info, m), q)),
                        Err(e) => Err(e),
                    }
                }
            } else {
                match spec_decode_addnl(info, data, p) {
                    Err(e) => Err(e),
                    Ok((n, q)) => if !(p <= q <= data.len()) {
                        Err(Error::Fatal)
                    } else if major == 2 || major == 3 {
                        if n > usize::MAX {
                            Err(Error::FailConvert)
                        } else if q + n <= data.len() {
                            Ok(
                                (
                                    string_item(major, info, data.subrange(q as int, q + n)),
                                    (q + n) as usize,
                                ),
                            )
                        } else {
                            Err(Error::IoError)
                        }
                    } else if major == 4 {
                        match dec_list_n(data, q, depth, n as nat) {
                            Ok((l, r)) => Ok((CborView::Major4(info, l), r)),
                            Err(e) => Err(e),
                        }
                    } else {
                        match dec_map_n(data, q, depth, n as nat) {
                            Ok((m, r)) => Ok((CborView::Major5(info, m), r)),
                            Err(e) => Err(e),
                        }
                    },
                }
            },
        }
    }
}

/// Reading the chunks of an indefinite-length string of major type `major`
/// up to the break marker: their bytes joined, and the position after the
/// break. Each chunk must be a definite-length string of the same type.
pub open spec fn dec_chunks(data: Seq<u8>, pos: usize, depth: int, major: u8) -> Result<
    (Seq<u8>, usize),
    Error,
>
    decreases RECURSION_LIMIT + 1 - depth, data.len() - pos, 1int,
{
    if depth > RECURSION_LIMIT {
        Err(Error::FailCbor)
    } else {
        match dec(data, pos, depth + 1) {
            Err(e) => Err(e),
            Ok((x, q)) => if is_break(x) {
                Ok((Seq::empty(), q))
            } else {
                match chunk_of(x, major) {
                    None => Err(Error::FailCbor),
                    Some(b) => if !advances(data, pos, q) {
                        Err(Error::Fatal)
                    } else {
                        prepend(b, dec_chunks(data, q, depth, major))
                    },
                }
            },
        }
    }
}

/// Reading the items of an indefinite-length list up to the break marker.
pub open spec fn dec_list_indef(data: Seq<u8>, pos: usize, depth: int) -> Result<
    (Seq<CborView>, usize),
    Error,
>
    decreases RECURSION_LIMIT + 1 - depth, data.len() - pos, 1int,
{
    if depth > RECURSION_LIMIT {
        Err(Error::FailCbor)
    } else {
        match dec(data, pos, depth + 1) {
            Err(e) => Err(e),
            Ok((x, q)) => if is_break(x) {
                Ok((Seq::empty(), q))
            } else if !advances(data, pos, q) {
                Err(Error::Fatal)
            } else {
                prepend(seq![x], dec_list_indef(data, q, depth))
            },
        }
    }
}

/// Reading the `n` items of a definite-length list; a break marker among
/// them is malformed.
pub open spec fn dec_list_n(data: Seq<u8>, pos: usize, depth: int, n: nat) -> Result<
    (Seq<CborView>, usize),
    Error,
>
    decreases RECURSION_LIMIT + 1 - depth, data.len() - pos, 1int,
{
    if depth > RECURSION_LIMIT {
        Err(Error::FailCbor)
    } else if n == 0 {
        Ok((Seq::empty(), pos))
    } else {
        match dec(data, pos, depth + 1) {
            Err(e) => Err(e),
            Ok((x, q)) => if is_break(x) {
                Err(Error::FailCbor)
            } else if !advances(data, pos, q) {
                Err(Error::Fatal)
            } else {
                prepend(seq![x], dec_list_n(data, q, depth, (n - 1) as nat))
            },
        }
    }
}

/// Reading the pairs of an indefinite-length map. A break marker ends the
/// map where a value is expected; where a key is expected it is no key.
pub open spec fn dec_map_indef(data: Seq<u8>, pos: usize, depth: int) -> Result<
    (Seq<(KeyView, CborView)>, usize),
    Error,
>
    decreases RECURSION_LIMIT + 1 - depth, data.len() - pos, 1int,
{
    if depth > RECURSION_LIMIT {
        Err(Error::FailCbor)
    } else {
        match dec(data, pos, depth + 1) {
            Err(e) => Err(e),
            Ok((kx, q1)) => match item_key(kx) {
                Err(e) => Err(e),
                Ok(k) => match dec(data, q1, depth + 1) {
                    Err(e) => Err(e),
                    Ok((v, q2)) => if is_break(v) {
                        Ok((Seq::empty(), q2))
                    } else if !advances(data, pos, q2) {
                        Err(Error::Fatal)
                    } else {
                        prepend(seq![(k, v)], dec_map_indef(data, q2, depth))
                    },
                },
            },
        }
    }
}

/// Reading the `n` pairs of a definite-length map.
pub open spec fn dec_map_n(data: Seq<u8>, pos: usize, depth: int, n: nat) -> Result<
    (Seq<(KeyView, CborView)>, usize),
    Error,
>
    decreases RECURSION_LIMIT + 1 - depth, data.len() - pos, 1int,
{
    if depth > RECURSION_LIMIT {
        Err(Error::FailCbor)
    } else if n == 0 {
        Ok((Seq::empty(), pos))
    } else {
        match dec(data, pos, depth + 1) {
            Err(e) => Err(e),
            Ok((kx, q1)) => match item_key(kx) {
                Err(e) => Err(e),
                Ok(k) => match dec(data, q1, depth + 1) {
                    Err(e) => Err(e),
                    Ok((v, q2)) => if is_break(v) {
                        Err(Error::FailCbor)
                    } else if !advances(data, pos, q2) {
                        Err(Error::Fatal)
                    } else {
                        prepend(seq![(k, v)], dec_map_n(data, q2, depth, (n - 1) as nat))
                    },
                },
            },
        }
    }
}

/// Decoding one item from the start of `data`: the item and the number of
/// bytes it took. A break marker standing alone is malformed.
pub open spec fn spec_decode(data: Seq<u8>) -> Result<(CborView, usize), Error> {
    match dec(data, 0, 1) {
        Ok((x, q)) => if is_break(x) {
            Err(Error::FailCbor)
        } else {
            Ok((x, q))
        },
        Err(e) => Err(e),
    }
}

/// The view of a result that holds an item and a position.
pub open spec fn item_result(r: Result<(Cbor, usize), Error>) -> Result<(CborView, usize), Error> {
    match r {
        Ok((v, q)) => Ok((v@, q)),
        Err(e) => Err(e),
    }
}

spec fn bytes_result(r: Result<(Vec<u8>, usize), Error>) -> Result<(Seq<u8>, usize), Error> {
    match r {
        Ok((b, q)) => Ok((b@, q)),
        Err(e) => Err(e),
    }
}

spec fn list_result(r: Result<(Vec<Cbor>, usize), Error>) -> Result<(Seq<CborView>, usize), Error> {
    match r {
        Ok((l, q)) => Ok((list_view(l@), q)),
        Err(e) => Err(e),
    }
}

spec fn map_result(r: Result<(Vec<(Key, Cbor)>, usize), Error>) -> Result<
    (Seq<(KeyView, CborView)>, usize),
    Error,
> {
    match r {
        Ok((m, q)) => Ok((map_view(m@), q)),
        Err(e) => Err(e),
    }
}

proof fn lemma_prepend_assoc<T>(a: Seq<T>, b: Seq<T>, r: Result<(Seq<T>, usize), Error>)
    ensures
        prepend(a, prepend(b, r)) == prepend(a + b, r),
{
    if let Ok((s, q)) = r {
        assert(a + (b + s) =~= (a + b) + s);
    }
}

proof fn lemma_list_view_push(s: Seq<Cbor>, x: Cbor)
    ensures
        list_view(s.push(x)) == list_view(s).push(cbor_view(x)),
{
    assert(s.push(x).subrange(0, s.len() as int) =~= s);
}

proof fn lemma_map_view_push(s: Seq<(Key, Cbor)>, x: (Key, Cbor))
    ensures
        map_view(s.push(x)) == map_view(s).push((x.0@, cbor_view(x.1))),
{
    assert(s.push(x).subrange(0, s.len() as int) =~= s);
}

proof fn lemma_list_view(s: Seq<Cbor>)
    ensures
        list_view(s).len() == s.len(),
        forall|k: int| 0 <= k < s.len() ==> #[trigger] list_view(s)[k] == cbor_view(s[k]),
    decreases s.len(),
{
    if s.len() > 0 {
        lemma_list_view(s.subrange(0, s.len() - 1));
    }
}

proof fn lemma_map_view(s: Seq<(Key, Cbor)>)
    ensures
        map_view(s).len() == s.len(),
        forall|k: int|
            0 <= k < s.len() ==> #[trigger] map_view(s)[k] == (s[k].0@, cbor_view(s[k].1)),
    decreases s.len(),
{
    if s.len() > 0 {
        lemma_map_view(s.subrange(0, s.len() - 1));
    }
}

/// Appends the bytes of `src` to `buf`.
fn push_all(buf: &mut Vec<u8>, src: &[u8])
    ensures
        final(buf)@ == old(buf)@ + src@,
{
    let mut k: usize = 0;
    while k < src.len()
        invariant
            k <= src@.len(),
            buf@ == old(buf)@ + src@.subrange(0, k as int),
        decreases src@.len() - k,
    {
        buf.push(src[k]);
        k += 1;
        assert(buf@ =~= old(buf)@ + src@.subrange(0, k as int));
    }
    assert(src@.subrange(0, k as int) =~= src@);
}

/// The item that a key stands for, built from a borrowed key.
fn key_to_cbor(key: &Key) -> (r: Cbor)
    ensures
        r@ == key_item(key@),
{
    match key {
        Key::U64(n) => Cbor::Major0(Info::from_u64(*n), *n),
        Key::N64(n) => {
            if *n >= 0 {
                Cbor::Major0(Info::from_u64(*n as u64), *n as u64)
            } else {
                let m = (-(*n + 1)) as u64;
                Cbor::Major1(Info::from_u64(m), m)
            }
        },
        Key::Bytes(b) => Cbor::Major2(Info::from_usize(b.len()), slice_to_vec(b.as_slice())),
        Key::Text(s) => {
            let b = slice_to_vec(s.as_str().as_bytes());
            Cbor::Major3(Info::from_usize(b.len()), b)
        },
        Key::Bool(b) => {
            if *b {
                Cbor::Major7(Info::Tiny(20), SimpleValue::True)
            } else {
                Cbor::Major7(Info::Tiny(21), SimpleValue::False)
            }
        },
        Key::F32(f) => Cbor::Major7(Info::U32, SimpleValue::F32(*f)),
        Key::F64(f) => Cbor::Major7(Info::U64, SimpleValue::F64(*f)),
    }
}

impl Cbor {
    /// Appends the encoding of this item to `buf` and returns the number of
    /// bytes written. Fails when an immediate descriptor exceeds 23 or items
    /// nest deeper than the recursion limit; `buf` then holds a partial
    /// encoding after what it held.
    pub fn encode(self, buf: &mut Vec<u8>) -> (r: Result<usize, Error>)
        ensures
            encodable(self@, 1) ==> r == Ok::<usize, Error>(enc(self@).len() as usize)
                && final(buf)@ == old(buf)@ + enc(self@),
            !encodable(self@, 1) ==> r == Err::<usize, Error>(Error::FailCbor) && old(
                buf,
            )@.is_prefix_of(final(buf)@),
    {
        self.do_encode(buf, 1)
    }

    #[verifier::rlimit(50)]
    fn do_encode(&self, buf: &mut Vec<u8>, depth: u32) -> (r: Result<usize, Error>)
        requires
            depth >= 1,
        ensures
            encodable(self@, depth as int) ==> r == Ok::<usize, Error>(enc(self@).len() as usize)
                && final(buf)@ == old(buf)@ + enc(self@),
            !encodable(self@, depth as int) ==> r == Err::<usize, Error>(Error::FailCbor) && old(
                buf,
            )@.is_prefix_of(final(buf)@),
            depth > RECURSION_LIMIT ==> final(buf)@ == old(buf)@,
        decreases RECURSION_LIMIT + 1 - depth, 2int,
    {
        if depth > RECURSION_LIMIT {
            return Err(Error::FailCbor);
        }
        let start = buf.len();
        let ghost v = self@;
        match self {
            Cbor::Major0(info, n) => {
                if let Err(e) = encode_hdr(0, *info, buf) {
                    return Err(e);
                }
                let _ = encode_addnl(*n, buf);
                assert(buf@ =~= old(buf)@ + enc(v));
                assert(encodable(v, depth as int));
            },
            Cbor::Major1(info, n) => {
                if let Err(e) = encode_hdr(1, *info, buf) {
                    return Err(e);
                }
                let _ = encode_addnl(*n, buf);
                assert(buf@ =~= old(buf)@ + enc(v));
                assert(encodable(v, depth as int));
            },
            Cbor::Major2(info, b) => {
                if let Err(e) = encode_hdr(2, *info, buf) {
                    return Err(e);
                }
                let _ = encode_addnl(b.len() as u64, buf);
                push_all(buf, b.as_slice());
                assert(buf@ =~= old(buf)@ + enc(v));
                assert(encodable(v, depth as int));
            },
            Cbor::Major3(info, b) => {
                if let Err(e) = encode_hdr(3, *info, buf) {
                    return Err(e);
                }
                let _ = encode_addnl(b.len() as u64, buf);
                push_all(buf, b.as_slice());
                assert(buf@ =~= old(buf)@ + enc(v));
                assert(encodable(v, depth as int));
            },
            Cbor::Major4(info, list) => {
                if let Err(e) = encode_list_item(*info, list, buf, depth) {
                    return Err(e);
                }
            },
            Cbor::Major5(info, map) => {
                if let Err(e) = encode_map_item(*info, map, buf, depth) {
                    return Err(e);
                }
            },
            Cbor::Major6(info, tag) => {
                if let Err(e) = encode_hdr(6, *info, buf) {
                    return Err(e);
                }
                let _ = tag.encode(buf);
                assert(buf@ =~= old(buf)@ + enc(v));
                assert(encodable(v, depth as int));
            },
            Cbor::Major7(info, sval) => {
                if let Err(e) = encode_hdr(7, *info, buf) {
                    return Err(e);
                }
                let _ = sval.encode(buf);
                assert(buf@ =~= old(buf)@ + enc(v));
                assert(encodable(v, depth as int));
            },
        }
        Ok(buf.len() - start)
    }
}

/// Appends a list item: its header, its length, then its items at `depth + 1`.
fn encode_list_item(info: Info, list: &Vec<Cbor>, buf: &mut Vec<u8>, depth: u32) -> (r: Result<
    (),
    Error,
>)
    requires
        1 <= depth <= RECURSION_LIMIT,
    ensures
        encodable(CborView::Major4(info, list_view(list@)), depth as int) ==> r is Ok
            && final(buf)@ == old(buf)@ + enc(CborView::Major4(info, list_view(list@))),
        !encodable(CborView::Major4(info, list_view(list@)), depth as int) ==> r == Err::<
            (),
            Error,
        >(Error::FailCbor) && old(buf)@.is_prefix_of(final(buf)@),
    decreases RECURSION_LIMIT + 1 - depth, 1int,
{
    let ghost v = CborView::Major4(info, list_view(list@));
    if let Err(e) = encode_hdr(4, info, buf) {
        return Err(e);
    }
    let _ = encode_addnl(list.len() as u64, buf);
    let ghost head = buf@;
    proof {
        lemma_list_view(list@);
        lemma_list_encodable(list_view(list@), depth + 1);
    }
    if let Err(e) = encode_list(list, buf, depth) {
        proof {
            lemma_prefix_trans(old(buf)@, head, buf@);
        }
        return Err(e);
    }
    assert(buf@ =~= old(buf)@ + enc(v));
    assert(encodable(v, depth as int));
    Ok(())
}

/// Appends a map item: its header, its number of pairs, then its pairs at
/// `depth + 1`.
fn encode_map_item(
    info: Info,
    map: &Vec<(Key, Cbor)>,
    buf: &mut Vec<u8>,
    depth: u32,
) -> (r: Result<(), Error>)
    requires
        1 <= depth <= RECURSION_LIMIT,
    ensures
        encodable(CborView::Major5(info, map_view(map@)), depth as int) ==> r is Ok
            && final(buf)@ == old(buf)@ + enc(CborView::Major5(info, map_view(map@))),
        !encodable(CborView::Major5(info, map_view(map@)), depth as int) ==> r == Err::<
            (),
            Error,
        >(Error::FailCbor) && old(buf)@.is_prefix_of(final(buf)@),
    decreases RECURSION_LIMIT + 1 - depth, 1int,
{
    let ghost v = CborView::Major5(info, map_view(map@));
    proof {
        lemma_map_view(map@);
        lemma_map_encodable(map_view(map@), depth + 1);
    }
    if map.len() > 0 && depth + 1 > RECURSION_LIMIT {
        return Err(Error::FailCbor);
    }
    if let Err(e) = encode_hdr(5, info, buf) {
        return Err(e);
    }
    let _ = encode_addnl(map.len() as u64, buf);
    let ghost head = buf@;
    if map.len() > 0 {
        if let Err(e) = encode_map(map, buf, depth) {
            proof {
                lemma_prefix_trans(old(buf)@, head, buf@);
            }
            return Err(e);
        }
    } else {
        assert(map_view(map@) =~= Seq::<(KeyView, CborView)>::empty());
        assert(buf@ =~= head + enc_map(map_view(map@)));
    }
    assert(buf@ =~= old(buf)@ + enc(v));
    assert(encodable(v, depth as int));
    Ok(())
}

proof fn lemma_prefix_trans(a: Seq<u8>, b: Seq<u8>, c: Seq<u8>)
    requires
        a.is_prefix_of(b),
        b.is_prefix_of(c),
    ensures
        a.is_prefix_of(c),
{
    assert(c.subrange(0, a.len() as int) =~= b.subrange(0, a.len() as int));
}

/// Appends the items of a list one after the other, each at `depth + 1`.
fn encode_list(list: &Vec<Cbor>, buf: &mut Vec<u8>, depth: u32) -> (r: Result<(), Error>)
    requires
        1 <= depth <= RECURSION_LIMIT,
    ensures
        (forall|j: int|
            0 <= j < list@.len() ==> #[trigger] encodable(list_view(list@)[j], depth + 1))
            ==> r is Ok && final(buf)@ == old(buf)@ + enc_list(list_view(list@)),
        !(forall|j: int|
            0 <= j < list@.len() ==> #[trigger] encodable(list_view(list@)[j], depth + 1))
            ==> r == Err::<(), Error>(Error::FailCbor) && old(buf)@.is_prefix_of(final(buf)@),
    decreases RECURSION_LIMIT + 1 - depth, 0int,
{
    let ghost l = list_view(list@);
    proof {
        lemma_list_view(list@);
        assert(l.subrange(0, 0) =~= Seq::<CborView>::empty());
        assert(old(buf)@ =~= old(buf)@ + enc_list(l.subrange(0, 0)));
    }
    let mut k: usize = 0;
    while k < list.len()
        invariant
            1 <= depth <= RECURSION_LIMIT,
            k <= list@.len(),
            l == list_view(list@),
            l.len() == list@.len(),
            forall|j: int| 0 <= j < list@.len() ==> #[trigger] l[j] == cbor_view(list@[j]),
            buf@ == old(buf)@ + enc_list(l.subrange(0, k as int)),
            forall|j: int| 0 <= j < k ==> #[trigger] encodable(l[j], depth + 1),
        decreases list@.len() - k,
    {
        let ghost before = buf@;
        match list[k].do_encode(buf, depth + 1) {
            Err(e) => {
                proof {
                    assert(!encodable(l[k as int], depth + 1));
                    assert(before.subrange(0, old(buf)@.len() as int) =~= old(buf)@);
                    lemma_prefix_trans(old(buf)@, before, buf@);
                }
                return Err(e);
            },
            Ok(_) => {},
        }
        proof {
            assert(l.subrange(0, k + 1).subrange(0, k as int) =~= l.subrange(0, k as int));
            assert(buf@ =~= old(buf)@ + enc_list(l.subrange(0, k + 1)));
        }
        k += 1;
    }
    proof {
        assert(l.subrange(0, k as int) =~= l);
    }
    Ok(())
}

/// Appends the pairs of a map one after the other: each key as the item it
/// stands for, then its value, both at `depth + 1`.
fn encode_map(map: &Vec<(Key, Cbor)>, buf: &mut Vec<u8>, depth: u32) -> (r: Result<(), Error>)
    requires
        1 <= depth < RECURSION_LIMIT,
    ensures
        (forall|j: int|
            0 <= j < map@.len() ==> #[trigger] encodable(map_view(map@)[j].1, depth + 1))
            ==> r is Ok && final(buf)@ == old(buf)@ + enc_map(map_view(map@)),
        !(forall|j: int|
            0 <= j < map@.len() ==> #[trigger] encodable(map_view(map@)[j].1, depth + 1))
            ==> r == Err::<(), Error>(Error::FailCbor) && old(buf)@.is_prefix_of(final(buf)@),
    decreases RECURSION_LIMIT + 1 - depth, 0int,
{
    let ghost m = map_view(map@);
    proof {
        lemma_map_view(map@);
        assert(m.subrange(0, 0) =~= Seq::<(KeyView, CborView)>::empty());
        assert(old(buf)@ =~= old(buf)@ + enc_map(m.subrange(0, 0)));
    }
    let mut k: usize = 0;
    while k < map.len()
        invariant
            1 <= depth < RECURSION_LIMIT,
            k <= map@.len(),
            m == map_view(map@),
            m.len() == map@.len(),
            forall|j: int|
                0 <= j < map@.len() ==> #[trigger] m[j] == (map@[j].0@, cbor_view(map@[j].1)),
            buf@ == old(buf)@ + enc_map(m.subrange(0, k as int)),
            forall|j: int| 0 <= j < k ==> #[trigger] encodable(m[j].1, depth + 1),
        decreases map@.len() - k,
    {
        let ghost before = buf@;
        let pair = &map[k];
        let key = key_to_cbor(&pair.0);
        let _ = key.do_encode(buf, depth + 1);
        let ghost mid = buf@;
        assert(mid =~= before + enc_flat(key_item(m[k as int].0)));
        match pair.1.do_encode(buf, depth + 1) {
            Err(e) => {
                proof {
                    assert(!encodable(m[k as int].1, depth + 1));
                    assert(before.subrange(0, old(buf)@.len() as int) =~= old(buf)@);
                    assert(mid.subrange(0, before.len() as int) =~= before);
                    lemma_prefix_trans(old(buf)@, before, mid);
                    lemma_prefix_trans(old(buf)@, mid, buf@);
                }
                return Err(e);
            },
            Ok(_) => {},
        }
        proof {
            assert(m.subrange(0, k + 1).subrange(0, k as int) =~= m.subrange(0, k as int));
            assert(buf@ =~= old(buf)@ + enc_map(m.subrange(0, k + 1)));
        }
        k += 1;
    }
    proof {
        assert(m.subrange(0, k as int) =~= m);
    }
    Ok(())
}

impl Cbor {
    /// Decodes one item from the start of `data` and returns it with the
    /// number of bytes it took. Fails on input that ends early, on malformed
    /// or unsupported encodings, on a break marker standing alone, on map
    /// keys that are no keys, and on nesting deeper than the recursion limit.
    pub fn decode(data: &[u8]) -> (r: Result<(Cbor, usize), Error>)
        ensures
            item_result(r) == spec_decode(data@),
    {
        match Self::do_decode(data, 0, 1) {
            Ok((v, q)) => {
                if let Cbor::Major7(_, SimpleValue::Break) = v {
                    return Err(Error::FailCbor);
                }
                Ok((v, q))
            },
            Err(e) => Err(e),
        }
    }

    fn do_decode(data: &[u8], pos: usize, depth: u32) -> (r: Result<(Cbor, usize), Error>)
        requires
            depth >= 1,
        ensures
            item_result(r) == dec(data@, pos, depth as int),
            r matches Ok((_, q)) ==> advances(data@, pos, q),
        decreases RECURSION_LIMIT + 1 - depth, 1int,
    {
        if depth > RECURSION_LIMIT {
            return Err(Error::FailCbor);
        }
        if pos >= data.len() {
            return Err(Error::IoError);
        }
        let (major, info, p) = match decode_hdr(data, pos) {
            Ok(h) => h,
            Err(e) => return Err(e),
        };
        if major == 0 || major == 1 || major == 6 {
            let (n, q) = match decode_addnl(info, data, p) {
                Ok(a) => a,
                Err(e) => return Err(e),
            };
            let v = if major == 0 {
                Cbor::Major0(info, n)
            } else if major == 1 {
                Cbor::Major1(info, n)
            } else {
                Cbor::Major6(info, Tag::Value(n))
            };
            return Ok((v, q));
        }
        if major == 7 {
            let (sval, q) = match SimpleValue::decode(info, data, p) {
                Ok(a) => a,
                Err(e) => return Err(e),
            };
            return Ok((Cbor::Major7(info, sval), q));
        }
        if info == Info::Indefinite {
            if major == 2 || major == 3 {
                let (b, q) = match decode_chunks(data, p, depth, major) {
                    Ok(a) => a,
                    Err(e) => return Err(e),
                };
                let v = if major == 2 {
                    Cbor::Major2(info, b)
                } else {
                    Cbor::Major3(info, b)
                };
                return Ok((v, q));
            } else if major == 4 {
                let (l, q) = match decode_list_indef(data, p, depth) {
                    Ok(a) => a,
                    Err(e) => return Err(e),
                };
                return Ok((Cbor::Major4(info, l), q));
            } else {
                let (m, q) = match decode_map_indef(data, p, depth) {
                    Ok(a) => a,
                    Err(e) => return Err(e),
                };
                return Ok((Cbor::Major5(info, m), q));
            }
        }
        let (n, q) = match decode_addnl(info, data, p) {
            Ok(a) => a,
            Err(e) => return Err(e),
        };
        if major == 2 || major == 3 {
            if n > usize::MAX as u64 {
                return Err(Error::FailConvert);
            }
            let n = n as usize;
            if n > data.len() - q {
                return Err(Error::IoError);
            }
            let b = slice_to_vec(slice_subrange(data, q, q + n));
            let v = if major == 2 {
                Cbor::Major2(info, b)
            } else {
                Cbor::Major3(info, b)
            };
            Ok((v, q + n))
        } else if major == 4 {
            let (l, r) = match decode_list_n(data, q, depth, n) {
                Ok(a) => a,
                Err(e) => return Err(e),
            };
            Ok((Cbor::Major4(info, l), r))
        } else {
            let (m, r) = match decode_map_n(data, q, depth, n) {
                Ok(a) => a,
                Err(e) => return Err(e),
            };
            Ok((Cbor::Major5(info, m), r))
        }
    }
}

/// Reads the chunks of an indefinite-length string up to the break marker.
fn decode_chunks(data: &[u8], pos: usize, depth: u32, major: u8) -> (r: Result<
    (Vec<u8>, usize),
    Error,
>)
    requires
        1 <= depth <= RECURSION_LIMIT,
        pos <= data@.len(),
    ensures
        bytes_result(r) == dec_chunks(data@, pos, depth as int, major),
        r matches Ok((_, q)) ==> pos < q <= data@.len(),
    decreases RECURSION_LIMIT + 1 - depth, 0int,
{
    let mut acc: Vec<u8> = Vec::new();
    let mut p = pos;
    proof {
        assert(prepend(acc@, dec_chunks(data@, p, depth as int, major)) == dec_chunks(
            data@,
            pos,
            depth as int,
            major,
        )) by {
            if let Ok((b, q)) = dec_chunks(data@, p, depth as int, major) {
                assert(acc@ + b =~= b);
            }
        }
    }
    loop
        invariant
            1 <= depth <= RECURSION_LIMIT,
            pos <= p <= data@.len(),
            dec_chunks(data@, pos, depth as int, major) == prepend(
                acc@,
                dec_chunks(data@, p, depth as int, major),
            ),
        decreases data@.len() - p,
    {
        let (x, q) = match Cbor::do_decode(data, p, depth + 1) {
            Ok(a) => a,
            Err(e) => return Err(e),
        };
        let ghost xv = x@;
        match x {
            Cbor::Major7(_, SimpleValue::Break) => {
                assert(acc@ + Seq::<u8>::empty() =~= acc@);
                return Ok((acc, q));
            },
            Cbor::Major2(i, b) => {
                if major != 2 || i == Info::Indefinite {
                    return Err(Error::FailCbor);
                }
                proof {
                    lemma_prepend_assoc(acc@, b@, dec_chunks(data@, q, depth as int, major));
                }
                push_all(&mut acc, b.as_slice());
                p = q;
            },
            Cbor::Major3(i, b) => {
                if major != 3 || i == Info::Indefinite {
                    return Err(Error::FailCbor);
                }
                proof {
                    lemma_prepend_assoc(acc@, b@, dec_chunks(data@, q, depth as int, major));
                }
                push_all(&mut acc, b.as_slice());
                p = q;
            },
            _ => {
                return Err(Error::FailCbor);
            },
        }
    }
}

/// Reads the items of an indefinite-length list up to the break marker.
fn decode_list_indef(data: &[u8], pos: usize, depth: u32) -> (r: Result<(Vec<Cbor>, usize), Error>)
    requires
        1 <= depth <= RECURSION_LIMIT,
        pos <= data@.len(),
    ensures
        list_result(r) == dec_list_indef(data@, pos, depth as int),
        r matches Ok((_, q)) ==> pos < q <= data@.len(),
    decreases RECURSION_LIMIT + 1 - depth, 0int,
{
    let mut list: Vec<Cbor> = Vec::new();
    let mut p = pos;
    proof {
        assert(list_view(list@) =~= Seq::<CborView>::empty());
        if let Ok((b, q)) = dec_list_indef(data@, p, depth as int) {
            assert(list_view(list@) + b =~= b);
        }
    }
    loop
        invariant
            1 <= depth <= RECURSION_LIMIT,
            pos <= p <= data@.len(),
            dec_list_indef(data@, pos, depth as int) == prepend(
                list_view(list@),
                dec_list_indef(data@, p, depth as int),
            ),
        decreases data@.len() - p,
    {
        let (x, q) = match Cbor::do_decode(data, p, depth + 1) {
            Ok(a) => a,
            Err(e) => return Err(e),
        };
        if let Cbor::Major7(_, SimpleValue::Break) = x {
            assert(list_view(list@) + Seq::<CborView>::empty() =~= list_view(list@));
            return Ok((list, q));
        }
        proof {
            lemma_prepend_assoc(list_view(list@), seq![x@], dec_list_indef(data@, q, depth as int));
            lemma_list_view_push(list@, x);
            assert(list_view(list@) + seq![x@] =~= list_view(list@).push(x@));
        }
        list.push(x);
        p = q;
    }
}

/// Reads the `n` items of a definite-length list.
fn decode_list_n(data: &[u8], pos: usize, depth: u32, n: u64) -> (r: Result<(Vec<Cbor>, usize), Error>)
    requires
        1 <= depth <= RECURSION_LIMIT,
        pos <= data@.len(),
    ensures
        list_result(r) == dec_list_n(data@, pos, depth as int, n as nat),
        r matches Ok((_, q)) ==> pos <= q <= data@.len(),
    decreases RECURSION_LIMIT + 1 - depth, 0int,
{
    let mut list: Vec<Cbor> = Vec::new();
    let mut p = pos;
    let mut k: u64 = 0;
    proof {
        assert(list_view(list@) =~= Seq::<CborView>::empty());
        if let Ok((b, q)) = dec_list_n(data@, p, depth as int, n as nat) {
            assert(list_view(list@) + b =~= b);
        }
    }
    while k < n
        invariant
            1 <= depth <= RECURSION_LIMIT,
            k <= n,
            pos <= p <= data@.len(),
            dec_list_n(data@, pos, depth as int, n as nat) == prepend(
                list_view(list@),
                dec_list_n(data@, p, depth as int, (n - k) as nat),
            ),
        decreases n - k,
    {
        let (x, q) = match Cbor::do_decode(data, p, depth + 1) {
            Ok(a) => a,
            Err(e) => return Err(e),
        };
        if let Cbor::Major7(_, SimpleValue::Break) = x {
            return Err(Error::FailCbor);
        }
        proof {
            lemma_prepend_assoc(
                list_view(list@),
                seq![x@],
                dec_list_n(data@, q, depth as int, (n - k - 1) as nat),
            );
            lemma_list_view_push(list@, x);
            assert(list_view(list@) + seq![x@] =~= list_view(list@).push(x@));
        }
        list.push(x);
        p = q;
        k += 1;
    }
    assert(list_view(list@) + Seq::<CborView>::empty() =~= list_view(list@));
    Ok((list, p))
}

/// Reads the pairs of an indefinite-length map up to a break marker in
/// value position.
fn decode_map_indef(data: &[u8], pos: usize, depth: u32) -> (r: Result<
    (Vec<(Key, Cbor)>, usize),
    Error,
>)
    requires
        1 <= depth <= RECURSION_LIMIT,
        pos <= data@.len(),
    ensures
        map_result(r) == dec_map_indef(data@, pos, depth as int),
        r matches Ok((_, q)) ==> pos < q <= data@.len(),
    decreases RECURSION_LIMIT + 1 - depth, 0int,
{
    let mut map: Vec<(Key, Cbor)> = Vec::new();
    let mut p = pos;
    proof {
        assert(map_view(map@) =~= Seq::<(KeyView, CborView)>::empty());
        if let Ok((b, q)) = dec_map_indef(data@, p, depth as int) {
            assert(map_view(map@) + b =~= b);
        }
    }
    loop
        invariant
            1 <= depth <= RECURSION_LIMIT,
            pos <= p <= data@.len(),
            dec_map_indef(data@, pos, depth as int) == prepend(
                map_view(map@),
                dec_map_indef(data@, p, depth as int),
            ),
        decreases data@.len() - p,
    {
        let (kx, q1) = match Cbor::do_decode(data, p, depth + 1) {
            Ok(a) => a,
            Err(e) => return Err(e),
        };
        let key = match Key::from_cbor(kx) {
            Ok(k) => k,
            Err(e) => return Err(e),
        };
        let (v, q2) = match Cbor::do_decode(data, q1, depth + 1) {
            Ok(a) => a,
            Err(e) => return Err(e),
        };
        if let Cbor::Major7(_, SimpleValue::Break) = v {
            assert(map_view(map@) + Seq::<(KeyView, CborView)>::empty() =~= map_view(map@));
            return Ok((map, q2));
        }
        proof {
            lemma_prepend_assoc(
                map_view(map@),
                seq![(key@, v@)],
                dec_map_indef(data@, q2, depth as int),
            );
            lemma_map_view_push(map@, (key, v));
            assert(map_view(map@) + seq![(key@, v@)] =~= map_view(map@).push((key@, v@)));
        }
        map.push((key, v));
        p = q2;
    }
}

/// Reads the `n` pairs of a definite-length map.
fn decode_map_n(data: &[u8], pos: usize, depth: u32, n: u64) -> (r: Result<
    (Vec<(Key, Cbor)>, usize),
    Error,
>)
    requires
        1 <= depth <= RECURSION_LIMIT,
        pos <= data@.len(),
    ensures
        map_result(r) == dec_map_n(data@, pos, depth as int, n as nat),
        r matches Ok((_, q)) ==> pos <= q <= data@.len(),
    decreases RECURSION_LIMIT + 1 - depth, 0int,
{
    let mut map: Vec<(Key, Cbor)> = Vec::new();
    let mut p = pos;
    let mut k: u64 = 0;
    proof {
        assert(map_view(map@) =~= Seq::<(KeyView, CborView)>::empty());
        if let Ok((b, q)) = dec_map_n(data@, p, depth as int, n as nat) {
            assert(map_view(map@) + b =~= b);
        }
    }
    while k < n
        invariant
            1 <= depth <= RECURSION_LIMIT,
            k <= n,
            pos <= p <= data@.len(),
            dec_map_n(data@, pos, depth as int, n as nat) == prepend(
                map_view(map@),
                dec_map_n(data@, p, depth as int, (n - k) as nat),
            ),
        decreases n - k,
    {
        let (kx, q1) = match Cbor::do_decode(data, p, depth + 1) {
            Ok(a) => a,
            Err(e) => return Err(e),
        };
        let key = match Key::from_cbor(kx) {
            Ok(k) => k,
            Err(e) => return Err(e),
        };
        let (v, q2) = match Cbor::do_decode(data, q1, depth + 1) {
            Ok(a) => a,
            Err(e) => return Err(e),
        };
        if let Cbor::Major7(_, SimpleValue::Break) = v {
            return Err(Error::FailCbor);
        }
        proof {
            lemma_prepend_assoc(
                map_view(map@),
                seq![(key@, v@)],
                dec_map_n(data@, q2, depth as int, (n - k - 1) as nat),
            );
            lemma_map_view_push(map@, (key, v));
            assert(map_view(map@) + seq![(key@, v@)] =~= map_view(map@).push((key@, v@)));
        }
        map.push((key, v));
        p = q2;
        k += 1;
    }
    assert(map_view(map@) + Seq::<(KeyView, CborView)>::empty() =~= map_view(map@));
    Ok((map, p))
}

} // verus!
