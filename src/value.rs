//! The value model: items of the eight major types, simple values, tags
//! and map keys, with the conversions between keys and items.
use vstd::prelude::*;
use vstd::utf8::{decode_utf8, encode_utf8, valid_utf8};

use vstd::slice::slice_to_vec;

use crate::header::{
    addnl_bytes, addnl_width, be_bytes, decode_addnl, encode_addnl, lemma_be_value_bound,
    lemma_be_bytes_len, lemma_pow256_values, minimal_info, read_be, spec_decode_addnl, spec_read_be, write_be, Info,
};
use crate::Error;

verus! {

/// Payload of major type 7. Floats are held as their IEEE 754 bit patterns.
#[derive(Clone, Copy, Debug, PartialEq, Eq, Structural)]
pub enum SimpleValue {
    /// A simple value with no assigned meaning.
    Unassigned,
    /// Boolean true (immediate 20).
    True,
    /// Boolean false (immediate 21).
    False,
    /// Null (immediate 22).
    Null,
    /// Undefined (immediate 23).
    Undefined,
    /// A one-byte simple value (descriptor 24).
    Reserved24(u8),
    /// Half-precision float bits (descriptor 25); never decoded.
    F16(u16),
    /// Single-precision float bits (descriptor 26).
    F32(u32),
    /// Double-precision float bits (descriptor 27).
    F64(u64),
    /// The marker that closes an indefinite-length aggregate.
    Break,
}

/// Payload of major type 6: a numeric tag id and no content item.
#[derive(Clone, Copy, Debug, PartialEq, Eq, Structural)]
pub enum Tag {
    Value(u64),
}

/// What can stand as a key of a map.
#[derive(Debug, PartialEq)]
pub enum Key {
    U64(u64),
    N64(i64),
    Bytes(Vec<u8>),
    Text(String),
    Bool(bool),
    /// Single-precision float bits.
    F32(u32),
    /// Double-precision float bits.
    F64(u64),
}

/// An item of one of the eight major types, with the descriptor of its header.
#[derive(Debug, PartialEq)]
pub enum Cbor {
    /// Unsigned integer.
    Major0(Info, u64),
    /// Negative integer `-(n + 1)`, stored as `n`.
    Major1(Info, u64),
    /// Byte string.
    Major2(Info, Vec<u8>),
    /// Text string, as UTF-8 bytes.
    Major3(Info, Vec<u8>),
    /// List of items.
    Major4(Info, Vec<Cbor>),
    /// Map, as key-value pairs in their order.
    Major5(Info, Vec<(Key, Cbor)>),
    /// Tag id.
    Major6(Info, Tag),
    /// Simple value or float.
    Major7(Info, SimpleValue),
}

/// The mathematical value of a [`Key`].
pub enum KeyView {
    U64(u64),
    N64(i64),
    Bytes(Seq<u8>),
    Text(Seq<char>),
    Bool(bool),
    F32(u32),
    F64(u64),
}

/// The mathematical value of a [`Cbor`] item.
pub enum CborView {
    Major0(Info, u64),
    Major1(Info, u64),
    Major2(Info, Seq<u8>),
    Major3(Info, Seq<u8>),
    Major4(Info, Seq<CborView>),
    Major5(Info, Seq<(KeyView, CborView)>),
    Major6(Info, Tag),
    Major7(Info, SimpleValue),
}

impl View for Key {
    type V = KeyView;

    open spec fn view(&self) -> KeyView {
        match self {
            Key::U64(n) => KeyView::U64(*n),
            Key::N64(n) => KeyView::N64(*n),
            Key::Bytes(b) => KeyView::Bytes(b@),
            Key::Text(s) => KeyView::Text(s@),
            Key::Bool(b) => KeyView::Bool(*b),
            Key::F32(f) => KeyView::F32(*f),
            Key::F64(f) => KeyView::F64(*f),
        }
    }
}

impl View for Cbor {
    type V = CborView;

    open spec fn view(&self) -> CborView {
        cbor_view(*self)
    }
}

/// The view of an item.
pub open spec fn cbor_view(v: Cbor) -> CborView
    decreases v,
{
    match v {
        Cbor::Major0(i, n) => CborView::Major0(i, n),
        Cbor::Major1(i, n) => CborView::Major1(i, n),
        Cbor::Major2(i, b) => CborView::Major2(i, b@),
        Cbor::Major3(i, b) => CborView::Major3(i, b@),
        Cbor::Major4(i, l) => CborView::Major4(i, list_view(l@)),
        Cbor::Major5(i, m) => CborView::Major5(i, map_view(m@)),
        Cbor::Major6(i, t) => CborView::Major6(i, t),
        Cbor::Major7(i, s) => CborView::Major7(i, s),
    }
}

/// The views of a sequence of items.
pub open spec fn list_view(s: Seq<Cbor>) -> Seq<CborView>
    decreases s,
{
    if s.len() == 0 {
        Seq::empty()
    } else {
        list_view(s.subrange(0, s.len() - 1)).push(cbor_view(s[s.len() - 1]))
    }
}

/// The views of a sequence of key-value pairs.
pub open spec fn map_view(s: Seq<(Key, Cbor)>) -> Seq<(KeyView, CborView)>
    decreases s,
{
    if s.len() == 0 {
        Seq::empty()
    } else {
        map_view(s.subrange(0, s.len() - 1)).push(
            (s[s.len() - 1].0@, cbor_view(s[s.len() - 1].1)),
        )
    }
}

/// The item that a key stands for: integers in their least width, a
/// negative `n` as `-(n + 1)` under major type 1, text as its UTF-8 bytes.
pub open spec fn key_item(k: KeyView) -> CborView {
    match k {
        KeyView::U64(n) => CborView::Major0(minimal_info(n), n),
        KeyView::N64(n) => if n >= 0 {
            CborView::Major0(minimal_info(n as u64), n as u64)
        } else {
            CborView::Major1(minimal_info((-(n + 1)) as u64), (-(n + 1)) as u64)
        },
        KeyView::Bytes(b) => CborView::Major2(minimal_info(b.len() as u64), b),
        KeyView::Text(s) => CborView::Major3(
            minimal_info(encode_utf8(s).len() as u64),
            encode_utf8(s),
        ),
        KeyView::Bool(b) => if b {
            CborView::Major7(Info::Tiny(20), SimpleValue::True)
        } else {
            CborView::Major7(Info::Tiny(21), SimpleValue::False)
        },
        KeyView::F32(f) => CborView::Major7(Info::U32, SimpleValue::F32(f)),
        KeyView::F64(f) => CborView::Major7(Info::U64, SimpleValue::F64(f)),
    }
}

/// The key that an item stands for: a stored `n` under major type 1 is
/// `-(n + 1)`, which must fit an `i64`; text must be valid UTF-8; lists,
/// maps, tags and other simple values are no keys.
pub open spec fn item_key(v: CborView) -> Result<KeyView, Error> {
    match v {
        CborView::Major0(_, n) => Ok(KeyView::U64(n)),
        CborView::Major1(_, n) => if n <= i64::MAX {
            Ok(KeyView::N64((-(n as int) - 1) as i64))
        } else {
            Err(Error::FailConvert)
        },
        CborView::Major2(_, b) => Ok(KeyView::Bytes(b)),
        CborView::Major3(_, b) => if valid_utf8(b) {
            Ok(KeyView::Text(decode_utf8(b)))
        } else {
            Err(Error::FailConvert)
        },
        CborView::Major7(_, SimpleValue::True) => Ok(KeyView::Bool(true)),
        CborView::Major7(_, SimpleValue::False) => Ok(KeyView::Bool(false)),
        CborView::Major7(_, SimpleValue::F32(f)) => Ok(KeyView::F32(f)),
        CborView::Major7(_, SimpleValue::F64(f)) => Ok(KeyView::F64(f)),
        _ => Err(Error::FailKey),
    }
}

/// The item for a simple value standing alone: only true, false, null and
/// the two floats have one.
pub open spec fn simple_item(s: SimpleValue) -> Result<CborView, Error> {
    match s {
        SimpleValue::True => Ok(CborView::Major7(Info::Tiny(20), s)),
        SimpleValue::False => Ok(CborView::Major7(Info::Tiny(21), s)),
        SimpleValue::Null => Ok(CborView::Major7(Info::Tiny(22), s)),
        SimpleValue::F32(_) => Ok(CborView::Major7(Info::U32, s)),
        SimpleValue::F64(_) => Ok(CborView::Major7(Info::U64, s)),
        _ => Err(Error::FailConvert),
    }
}

/// The view of a result that holds an item.
pub open spec fn cbor_result_view(r: Result<Cbor, Error>) -> Result<CborView, Error> {
    match r {
        Ok(v) => Ok(v@),
        Err(e) => Err(e),
    }
}

/// The view of a result that holds a key.
pub open spec fn key_result_view(r: Result<Key, Error>) -> Result<KeyView, Error> {
    match r {
        Ok(k) => Ok(k@),
        Err(e) => Err(e),
    }
}

/// The bytes that follow the header of a simple value.
pub open spec fn simple_payload(s: SimpleValue) -> Seq<u8> {
    match s {
        SimpleValue::Reserved24(b) => seq![b],
        SimpleValue::F16(h) => be_bytes(h as nat, 2),
        SimpleValue::F32(f) => be_bytes(f as nat, 4),
        SimpleValue::F64(f) => be_bytes(f as nat, 8),
        _ => Seq::empty(),
    }
}

/// The number whose big-endian bytes a simple value's payload holds.
spec fn simple_payload_value(s: SimpleValue) -> nat {
    match s {
        SimpleValue::F16(h) => h as nat,
        SimpleValue::F32(f) => f as nat,
        SimpleValue::F64(f) => f as nat,
        _ => 0,
    }
}

/// Reading the payload of a simple value whose header has descriptor
/// `info`. The indefinite descriptor gives the break marker, which only an
/// enclosing indefinite aggregate accepts.
pub open spec fn spec_decode_simple(info: Info, data: Seq<u8>, pos: usize) -> Result<
    (SimpleValue, usize),
    Error,
> {
    match info {
        Info::Tiny(20) => Ok((SimpleValue::True, pos)),
        Info::Tiny(21) => Ok((SimpleValue::False, pos)),
        Info::Tiny(22) => Ok((SimpleValue::Null, pos)),
        Info::U32 => match spec_read_be(data, pos, 4) {
            Ok((v, p)) => Ok((SimpleValue::F32(v as u32), p)),
            Err(e) => Err(e),
        },
        Info::U64 => match spec_read_be(data, pos, 8) {
            Ok((v, p)) => Ok((SimpleValue::F64(v), p)),
            Err(e) => Err(e),
        },
        Info::Indefinite => Ok((SimpleValue::Break, pos)),
        _ => Err(Error::FailCbor),
    }
}

/// Reading a tag id whose header has descriptor `info`.
pub open spec fn spec_decode_tag(info: Info, data: Seq<u8>, pos: usize) -> Result<(Tag, usize), Error> {
    match spec_decode_addnl(info, data, pos) {
        Ok((n, p)) => Ok((Tag::Value(n), p)),
        Err(e) => Err(e),
    }
}

/// Relies on `String::from_utf8`: it succeeds exactly on valid UTF-8, and the
/// string then holds the characters that the bytes encode.
#[verifier::external_body]
fn string_from_utf8(b: Vec<u8>) -> (r: Option<String>)
    ensures
        r is Some <==> valid_utf8(b@),
        r matches Some(s) ==> s@ == decode_utf8(b@),
{
    match String::from_utf8(b) {
        Ok(s) => Some(s),
        Err(_) => None,
    }
}

impl Clone for Key {
    fn clone(&self) -> (r: Key)
        ensures
            r@ == self@,
    {
        match self {
            Key::U64(n) => Key::U64(*n),
            Key::N64(n) => Key::N64(*n),
            Key::Bytes(b) => Key::Bytes(slice_to_vec(b.as_slice())),
            Key::Text(s) => Key::Text(s.clone()),
            Key::Bool(b) => Key::Bool(*b),
            Key::F32(f) => Key::F32(*f),
            Key::F64(f) => Key::F64(*f),
        }
    }
}

impl Clone for Cbor {
    fn clone(&self) -> (r: Cbor)
        ensures
            r@ == self@,
        decreases self,
    {
        match self {
            Cbor::Major0(i, n) => Cbor::Major0(*i, *n),
            Cbor::Major1(i, n) => Cbor::Major1(*i, *n),
            Cbor::Major2(i, b) => Cbor::Major2(*i, slice_to_vec(b.as_slice())),
            Cbor::Major3(i, b) => Cbor::Major3(*i, slice_to_vec(b.as_slice())),
            Cbor::Major4(i, l) => {
                let mut out: Vec<Cbor> = Vec::new();
                let mut k: usize = 0;
                assert(l@.subrange(0, 0) =~= Seq::<Cbor>::empty());
                while k < l.len()
                    invariant
                        k <= l@.len(),
                        *self is Major4,
                        self->Major4_1 == *l,
                        list_view(out@) == list_view(l@.subrange(0, k as int)),
                    decreases l@.len() - k,
                {
                    proof {
                        assert(decreases_to!(*self => self->Major4_1));
                        assert(decreases_to!(*l => l@));
                        assert(decreases_to!(l@ => l@[k as int]));
                    }
                    let x = l[k].clone();
                    proof {
                        assert(out@.push(x).subrange(0, out@.len() as int) =~= out@);
                        assert(l@.subrange(0, k + 1).subrange(0, k as int) =~= l@.subrange(
                            0,
                            k as int,
                        ));
                    }
                    out.push(x);
                    k += 1;
                }
                assert(l@.subrange(0, k as int) =~= l@);
                Cbor::Major4(*i, out)
            },
            Cbor::Major5(i, m) => {
                let mut out: Vec<(Key, Cbor)> = Vec::new();
                let mut k: usize = 0;
                assert(m@.subrange(0, 0) =~= Seq::<(Key, Cbor)>::empty());
                while k < m.len()
                    invariant
                        k <= m@.len(),
                        *self is Major5,
                        self->Major5_1 == *m,
                        map_view(out@) == map_view(m@.subrange(0, k as int)),
                    decreases m@.len() - k,
                {
                    proof {
                        assert(decreases_to!(*self => self->Major5_1));
                        assert(decreases_to!(*m => m@));
                        assert(decreases_to!(m@ => m@[k as int]));
                        assert(decreases_to!(m@[k as int] => m@[k as int].1));
                    }
                    let key = m[k].0.clone();
                    let val = m[k].1.clone();
                    proof {
                        assert(out@.push((key, val)).subrange(0, out@.len() as int) =~= out@);
                        assert(m@.subrange(0, k + 1).subrange(0, k as int) =~= m@.subrange(
                            0,
                            k as int,
                        ));
                    }
                    out.push((key, val));
                    k += 1;
                }
                assert(m@.subrange(0, k as int) =~= m@);
                Cbor::Major5(*i, out)
            },
            Cbor::Major6(i, t) => Cbor::Major6(*i, *t),
            Cbor::Major7(i, sv) => Cbor::Major7(*i, *sv),
        }
    }
}

impl Cbor {
    /// The item for a simple value standing alone.
    pub fn from_simple(sval: SimpleValue) -> (r: Result<Cbor, Error>)
        ensures
            cbor_result_view(r) == simple_item(sval),
    {
        match sval {
            SimpleValue::True => Ok(Cbor::Major7(Info::Tiny(20), sval)),
            SimpleValue::False => Ok(Cbor::Major7(Info::Tiny(21), sval)),
            SimpleValue::Null => Ok(Cbor::Major7(Info::Tiny(22), sval)),
            SimpleValue::F32(_) => Ok(Cbor::Major7(Info::U32, sval)),
            SimpleValue::F64(_) => Ok(Cbor::Major7(Info::U64, sval)),
            _ => Err(Error::FailConvert),
        }
    }

    /// The item that a key stands for.
    pub fn from_key(key: Key) -> (r: Cbor)
        ensures
            r@ == key_item(key@),
    {
        match key {
            Key::U64(n) => Cbor::Major0(Info::from_u64(n), n),
            Key::N64(n) => {
                if n >= 0 {
                    Cbor::Major0(Info::from_u64(n as u64), n as u64)
                } else {
                    let m = (-(n + 1)) as u64;
                    Cbor::Major1(Info::from_u64(m), m)
                }
            },
            Key::Bytes(b) => Cbor::Major2(Info::from_usize(b.len()), b),
            Key::Text(s) => {
                let b = slice_to_vec(s.as_str().as_bytes());
                Cbor::Major3(Info::from_usize(b.len()), b)
            },
            Key::Bool(b) => {
                if b {
                    Cbor::Major7(Info::Tiny(20), SimpleValue::True)
                } else {
                    Cbor::Major7(Info::Tiny(21), SimpleValue::False)
                }
            },
            Key::F32(f) => Cbor::Major7(Info::U32, SimpleValue::F32(f)),
            Key::F64(f) => Cbor::Major7(Info::U64, SimpleValue::F64(f)),
        }
    }
}

impl Key {
    /// The key that an item stands for.
    pub fn from_cbor(val: Cbor) -> (r: Result<Key, Error>)
        ensures
            key_result_view(r) == item_key(val@),
    {
        match val {
            Cbor::Major0(_, n) => Ok(Key::U64(n)),
            Cbor::Major1(_, n) => {
                if n <= i64::MAX as u64 {
                    Ok(Key::N64(-(n as i64) - 1))
                } else {
                    Err(Error::FailConvert)
                }
            },
            Cbor::Major2(_, b) => Ok(Key::Bytes(b)),
            Cbor::Major3(_, b) => match string_from_utf8(b) {
                Some(s) => Ok(Key::Text(s)),
                None => Err(Error::FailConvert),
            },
            Cbor::Major7(_, SimpleValue::True) => Ok(Key::Bool(true)),
            Cbor::Major7(_, SimpleValue::False) => Ok(Key::Bool(false)),
            Cbor::Major7(_, SimpleValue::F32(f)) => Ok(Key::F32(f)),
            Cbor::Major7(_, SimpleValue::F64(f)) => Ok(Key::F64(f)),
            _ => Err(Error::FailKey),
        }
    }
}

impl SimpleValue {
    /// Appends the payload of this simple value: nothing, its one byte, or
    /// the big-endian bits of a float.
    pub fn encode(&self, buf: &mut Vec<u8>) -> (r: Result<usize, Error>)
        ensures
            r == Ok::<usize, Error>(simple_payload(*self).len() as usize),
            final(buf)@ == old(buf)@ + simple_payload(*self),
    {
        proof {
            lemma_pow256_values();
            lemma_be_bytes_len(simple_payload_value(*self), 2);
            lemma_be_bytes_len(simple_payload_value(*self), 4);
            lemma_be_bytes_len(simple_payload_value(*self), 8);
        }
        match self {
            SimpleValue::Reserved24(b) => {
                buf.push(*b);
                assert(simple_payload(*self) =~= seq![*b]);
                assert(buf@ =~= old(buf)@ + seq![*b]);
                let n: usize = 1;
                assert(n == simple_payload(*self).len());
                Ok(n)
            },
            SimpleValue::F16(h) => {
                write_be(*h as u64, 2, buf);
                Ok(2)
            },
            SimpleValue::F32(f) => {
                write_be(*f as u64, 4, buf);
                Ok(4)
            },
            SimpleValue::F64(f) => {
                write_be(*f, 8, buf);
                Ok(8)
            },
            _ => {
                assert(buf@ =~= old(buf)@ + Seq::<u8>::empty());
                Ok(0)
            },
        }
    }

    /// Reads the payload of a simple value whose header has descriptor
    /// `info`, at `pos`.
    pub fn decode(info: Info, data: &[u8], pos: usize) -> (r: Result<(SimpleValue, usize), Error>)
        ensures
            r == spec_decode_simple(info, data@, pos),
    {
        match info {
            Info::Tiny(20) => Ok((SimpleValue::True, pos)),
            Info::Tiny(21) => Ok((SimpleValue::False, pos)),
            Info::Tiny(22) => Ok((SimpleValue::Null, pos)),
            Info::U32 => match read_be(data, pos, 4) {
                Ok((v, p)) => {
                    proof {
                        lemma_pow256_values();
                        lemma_be_value_bound(data@.subrange(pos as int, pos + 4));
                    }
                    Ok((SimpleValue::F32(v as u32), p))
                },
                Err(e) => Err(e),
            },
            Info::U64 => match read_be(data, pos, 8) {
                Ok((v, p)) => Ok((SimpleValue::F64(v), p)),
                Err(e) => Err(e),
            },
            Info::Indefinite => Ok((SimpleValue::Break, pos)),
            _ => Err(Error::FailCbor),
        }
    }
}

impl From<u64> for Tag {
    fn from(tag: u64) -> (r: Tag)
        ensures
            r == Tag::Value(tag),
    {
        Tag::Value(tag)
    }
}

impl vstd::std_specs::convert::FromSpecImpl<u64> for Tag {
    open spec fn obeys_from_spec() -> bool {
        true
    }

    open spec fn from_spec(tag: u64) -> Tag {
        Tag::Value(tag)
    }
}

impl From<Tag> for u64 {
    fn from(tag: Tag) -> (r: u64)
        ensures
            r == tag->Value_0,
    {
        match tag {
            Tag::Value(n) => n,
        }
    }
}

impl vstd::std_specs::convert::FromSpecImpl<Tag> for u64 {
    open spec fn obeys_from_spec() -> bool {
        true
    }

    open spec fn from_spec(tag: Tag) -> u64 {
        tag->Value_0
    }
}

impl Tag {
    /// Appends the tag id as an additional value.
    pub fn encode(&self, buf: &mut Vec<u8>) -> (r: Result<usize, Error>)
        ensures
            r == Ok::<usize, Error>(addnl_width(self->Value_0) as usize),
            final(buf)@ == old(buf)@ + addnl_bytes(self->Value_0),
    {
        match self {
            Tag::Value(n) => encode_addnl(*n, buf),
        }
    }

    /// Reads a tag id whose header has descriptor `info`, at `pos`.
    pub fn decode(info: Info, data: &[u8], pos: usize) -> (r: Result<(Tag, usize), Error>)
        ensures
            r == spec_decode_tag(info, data@, pos),
    {
        match decode_addnl(info, data, pos) {
            Ok((n, p)) => Ok((Tag::Value(n), p)),
            Err(e) => Err(e),
        }
    }
}

} // verus!
