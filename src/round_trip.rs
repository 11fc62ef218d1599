//! Decoding what the encoder writes gives back the item that was written.
use vstd::prelude::*;
use vstd::utf8::{encode_utf8, encode_utf8_decode_utf8, encode_utf8_valid_utf8};

use crate::codec::{
    chunk_of, dec, dec_chunks, dec_list_indef, dec_list_n, dec_map_indef, dec_map_n, enc, enc_flat, enc_list, enc_map, encodable, is_break,
    lemma_list_encodable, lemma_map_encodable, list_encodable, map_encodable, prepend, spec_decode, string_item, RECURSION_LIMIT,
};
use crate::header::{
    addnl_bytes, addnl_width, hdr_byte, info_of_code, lemma_addnl_round_trip, lemma_be_bytes,
    lemma_be_bytes_len, lemma_pow256_values, minimal_info, spec_decode_hdr, Info,
};
use crate::value::{item_key, key_item, simple_item, simple_payload, CborView, KeyView, SimpleValue};
use crate::Error;

verus! {

/// Whether a key decodes back to itself: a negative integer key (a
/// non-negative one comes back as an unsigned key), and strings whose
/// length fits a `usize`.
pub open spec fn key_canonical(k: KeyView) -> bool {
    match k {
        KeyView::N64(n) => n < 0,
        KeyView::Bytes(b) => b.len() <= usize::MAX,
        KeyView::Text(s) => encode_utf8(s).len() <= usize::MAX,
        _ => true,
    }
}

/// Whether an item decodes back to itself: every descriptor is the least
/// that carries its number or length, there is no tag, and every simple
/// value is true, false, null or a float standing under its own descriptor.
pub open spec fn canonical(v: CborView) -> bool
    decreases v,
{
    match v {
        CborView::Major0(i, n) => i == minimal_info(n),
        CborView::Major1(i, n) => i == minimal_info(n),
        CborView::Major2(i, b) => b.len() <= usize::MAX && i == minimal_info(b.len() as u64),
        CborView::Major3(i, b) => b.len() <= usize::MAX && i == minimal_info(b.len() as u64),
        CborView::Major4(i, l) => l.len() <= usize::MAX && i == minimal_info(l.len() as u64)
            && list_canonical(l),
        CborView::Major5(i, m) => m.len() <= usize::MAX && i == minimal_info(m.len() as u64)
            && map_canonical(m),
        CborView::Major6(_, _) => false,
        CborView::Major7(i, s) => simple_item(s) == Ok::<CborView, Error>(CborView::Major7(i, s)),
    }
}

/// Whether every item of `s` is canonical.
pub open spec fn list_canonical(s: Seq<CborView>) -> bool
    decreases s,
{
    s.len() > 0 ==> canonical(s[0]) && list_canonical(s.subrange(1, s.len() as int))
}

/// Whether every key and every value of `s` is canonical.
pub open spec fn map_canonical(s: Seq<(KeyView, CborView)>) -> bool
    decreases s,
{
    s.len() > 0 ==> key_canonical(s[0].0) && canonical(s[0].1) && map_canonical(
        s.subrange(1, s.len() as int),
    )
}

/// Whether `data` holds `s` at `pos`.
pub open spec fn holds_at(data: Seq<u8>, pos: int, s: Seq<u8>) -> bool {
    0 <= pos && pos + s.len() <= data.len() && data.subrange(pos, pos + s.len()) == s
}

proof fn lemma_holds_split(data: Seq<u8>, pos: int, a: Seq<u8>, b: Seq<u8>)
    requires
        holds_at(data, pos, a + b),
    ensures
        holds_at(data, pos, a),
        holds_at(data, pos + a.len(), b),
{
    let w = data.subrange(pos, pos + a.len() + b.len());
    assert(w == a + b);
    assert(data.subrange(pos, pos + a.len()) =~= w.subrange(0, a.len() as int));
    assert(w.subrange(0, a.len() as int) =~= a);
    assert(data.subrange(pos + a.len(), pos + a.len() + b.len()) =~= w.subrange(
        a.len() as int,
        w.len() as int,
    ));
    assert(w.subrange(a.len() as int, w.len() as int) =~= b);
}

proof fn lemma_hdr_at(data: Seq<u8>, pos: int, major: u8, info: Info)
    requires
        major <= 7,
        info.encodable(),
        pos < data.len() <= usize::MAX,
        0 <= pos,
        data[pos] == hdr_byte(major, info),
    ensures
        spec_decode_hdr(data, pos as usize) == Ok::<(u8, Info, usize), Error>(
            (major, info, (pos + 1) as usize),
        ),
{
    assert(info_of_code(info.code()) == info);
}

proof fn lemma_enc_list_front(s: Seq<CborView>)
    requires
        s.len() > 0,
    ensures
        enc_list(s) == enc(s[0]) + enc_list(s.subrange(1, s.len() as int)),
    decreases s.len(),
{
    let n = s.len() as int;
    let p = s.subrange(0, n - 1);
    let t = s.subrange(1, n);
    if n == 1 {
        assert(p =~= Seq::<CborView>::empty());
        assert(t =~= Seq::<CborView>::empty());
        assert(enc_list(s) =~= enc(s[0]) + enc_list(t));
    } else {
        lemma_enc_list_front(p);
        assert(p.subrange(1, n - 1) =~= t.subrange(0, n - 2));
        assert(enc_list(s) =~= enc(s[0]) + enc_list(t));
    }
}

proof fn lemma_enc_map_front(s: Seq<(KeyView, CborView)>)
    requires
        s.len() > 0,
    ensures
        enc_map(s) == enc_flat(key_item(s[0].0)) + enc(s[0].1) + enc_map(
            s.subrange(1, s.len() as int),
        ),
    decreases s.len(),
{
    let n = s.len() as int;
    let p = s.subrange(0, n - 1);
    let t = s.subrange(1, n);
    if n == 1 {
        assert(p =~= Seq::<(KeyView, CborView)>::empty());
        assert(t =~= Seq::<(KeyView, CborView)>::empty());
        assert(enc_map(s) =~= enc_flat(key_item(s[0].0)) + enc(s[0].1) + enc_map(t));
    } else {
        lemma_enc_map_front(p);
        assert(p.subrange(1, n - 1) =~= t.subrange(0, n - 2));
        assert(enc_map(s) =~= enc_flat(key_item(s[0].0)) + enc(s[0].1) + enc_map(t));
    }
}

/// Every canonical key comes back from the item it stands for.
pub proof fn lemma_key_round_trip(k: KeyView)
    requires
        key_canonical(k),
    ensures
        item_key(key_item(k)) == Ok::<KeyView, Error>(k),
        canonical(key_item(k)),
{
    if let KeyView::Text(s) = k {
        encode_utf8_valid_utf8(s);
        encode_utf8_decode_utf8(s);
    }
}

proof fn lemma_first_byte(data: Seq<u8>, pos: int, h: u8, rest: Seq<u8>)
    requires
        holds_at(data, pos, seq![h] + rest),
    ensures
        pos < data.len(),
        data[pos] == h,
        holds_at(data, pos + 1, rest),
{
    lemma_holds_split(data, pos, seq![h], rest);
    assert(data.subrange(pos, pos + 1)[0] == data[pos]);
}

proof fn lemma_enc_nonempty(v: CborView)
    ensures
        enc(v).len() >= 1,
{
    match v {
        CborView::Major4(i, l) => {
            assert((seq![hdr_byte(4, i)] + addnl_bytes(l.len() as u64) + enc_list(l)).len() >= 1);
        },
        CborView::Major5(i, m) => {
            assert((seq![hdr_byte(5, i)] + addnl_bytes(m.len() as u64) + enc_map(m)).len() >= 1);
        },
        _ => {},
    }
}

/// Decoding an item that holds no other item, written at `pos`.
proof fn lemma_dec_flat(v: CborView, data: Seq<u8>, pos: int, depth: int)
    requires
        canonical(v),
        !(v is Major4),
        !(v is Major5),
        1 <= depth <= RECURSION_LIMIT,
        data.len() <= usize::MAX,
        holds_at(data, pos, enc_flat(v)),
    ensures
        dec(data, pos as usize, depth) == Ok::<(CborView, usize), Error>(
            (v, (pos + enc_flat(v).len()) as usize),
        ),
        !is_break(v),
{
    lemma_pow256_values();
    match v {
        CborView::Major0(i, n) => {
            lemma_first_byte(data, pos, hdr_byte(0, i), addnl_bytes(n));
            lemma_hdr_at(data, pos, 0, i);
            lemma_be_bytes_len(n as nat, addnl_width(n));
            lemma_addnl_round_trip(n, data, (pos + 1) as usize);
        },
        CborView::Major1(i, n) => {
            lemma_first_byte(data, pos, hdr_byte(1, i), addnl_bytes(n));
            lemma_hdr_at(data, pos, 1, i);
            lemma_be_bytes_len(n as nat, addnl_width(n));
            lemma_addnl_round_trip(n, data, (pos + 1) as usize);
        },
        CborView::Major2(i, b) => {
            let a = addnl_bytes(b.len() as u64);
            assert(seq![hdr_byte(2, i)] + a + b =~= seq![hdr_byte(2, i)] + (a + b));
            lemma_first_byte(data, pos, hdr_byte(2, i), a + b);
            lemma_holds_split(data, pos + 1, a, b);
            lemma_hdr_at(data, pos, 2, i);
            lemma_be_bytes_len(b.len() as u64 as nat, addnl_width(b.len() as u64));
            lemma_addnl_round_trip(b.len() as u64, data, (pos + 1) as usize);
        },
        CborView::Major3(i, b) => {
            let a = addnl_bytes(b.len() as u64);
            assert(seq![hdr_byte(3, i)] + a + b =~= seq![hdr_byte(3, i)] + (a + b));
            lemma_first_byte(data, pos, hdr_byte(3, i), a + b);
            lemma_holds_split(data, pos + 1, a, b);
            lemma_hdr_at(data, pos, 3, i);
            lemma_be_bytes_len(b.len() as u64 as nat, addnl_width(b.len() as u64));
            lemma_addnl_round_trip(b.len() as u64, data, (pos + 1) as usize);
        },
        CborView::Major7(i, s) => {
            let payload = simple_payload(s);
            lemma_first_byte(data, pos, hdr_byte(7, i), payload);
            lemma_hdr_at(data, pos, 7, i);
            match s {
                SimpleValue::F32(f) => {
                    lemma_be_bytes(f as nat, 4);
                },
                SimpleValue::F64(f) => {
                    lemma_be_bytes(f as nat, 8);
                },
                _ => {},
            }
        },
        _ => {},
    }
}

/// Decoding an item written at `pos`.
proof fn lemma_dec_enc(v: CborView, data: Seq<u8>, pos: int, depth: int)
    requires
        canonical(v),
        encodable(v, depth),
        1 <= depth,
        data.len() <= usize::MAX,
        holds_at(data, pos, enc(v)),
    ensures
        dec(data, pos as usize, depth) == Ok::<(CborView, usize), Error>(
            (v, (pos + enc(v).len()) as usize),
        ),
        !is_break(v),
    decreases v,
{
    lemma_pow256_values();
    match v {
        CborView::Major4(i, l) => {
            let a = addnl_bytes(l.len() as u64);
            let w = addnl_width(l.len() as u64);
            assert(seq![hdr_byte(4, i)] + a + enc_list(l) =~= seq![hdr_byte(4, i)] + (a + enc_list(
                l,
            )));
            lemma_first_byte(data, pos, hdr_byte(4, i), a + enc_list(l));
            lemma_holds_split(data, pos + 1, a, enc_list(l));
            lemma_hdr_at(data, pos, 4, i);
            lemma_be_bytes_len(l.len() as u64 as nat, addnl_width(l.len() as u64));
            lemma_addnl_round_trip(l.len() as u64, data, (pos + 1) as usize);
            lemma_list_encodable(l, depth + 1);
            lemma_dec_list(l, data, pos + 1 + w, depth);
        },
        CborView::Major5(i, m) => {
            let a = addnl_bytes(m.len() as u64);
            let w = addnl_width(m.len() as u64);
            assert(seq![hdr_byte(5, i)] + a + enc_map(m) =~= seq![hdr_byte(5, i)] + (a + enc_map(
                m,
            )));
            lemma_first_byte(data, pos, hdr_byte(5, i), a + enc_map(m));
            lemma_holds_split(data, pos + 1, a, enc_map(m));
            lemma_hdr_at(data, pos, 5, i);
            lemma_be_bytes_len(m.len() as u64 as nat, addnl_width(m.len() as u64));
            lemma_addnl_round_trip(m.len() as u64, data, (pos + 1) as usize);
            lemma_map_encodable(m, depth + 1);
            lemma_dec_map(m, data, pos + 1 + w, depth);
        },
        _ => {
            lemma_dec_flat(v, data, pos, depth);
        },
    }
}

/// Decoding the items of a list written one after the other at `pos`.
proof fn lemma_dec_list(l: Seq<CborView>, data: Seq<u8>, pos: int, depth: int)
    requires
        list_canonical(l),
        forall|k: int| 0 <= k < l.len() ==> #[trigger] encodable(l[k], depth + 1),
        1 <= depth <= RECURSION_LIMIT,
        data.len() <= usize::MAX,
        holds_at(data, pos, enc_list(l)),
    ensures
        dec_list_n(data, pos as usize, depth, l.len()) == Ok::<(Seq<CborView>, usize), Error>(
            (l, (pos + enc_list(l).len()) as usize),
        ),
    decreases l,
{
    if l.len() == 0 {
        assert(l =~= Seq::<CborView>::empty());
    } else {
        let t = l.subrange(1, l.len() as int);
        lemma_enc_list_front(l);
        lemma_holds_split(data, pos, enc(l[0]), enc_list(t));
        assert(encodable(l[0], depth + 1));
        lemma_dec_enc(l[0], data, pos, depth + 1);
        lemma_enc_nonempty(l[0]);
        assert forall|k: int| 0 <= k < t.len() implies #[trigger] encodable(t[k], depth + 1) by {
            assert(t[k] == l[k + 1]);
        }
        lemma_dec_list(t, data, pos + enc(l[0]).len(), depth);
        assert(seq![l[0]] + t =~= l);
    }
}

/// Decoding the pairs of a map written one after the other at `pos`.
#[verifier::rlimit(50)]
proof fn lemma_dec_map(m: Seq<(KeyView, CborView)>, data: Seq<u8>, pos: int, depth: int)
    requires
        map_canonical(m),
        forall|k: int| 0 <= k < m.len() ==> #[trigger] encodable(m[k].1, depth + 1),
        1 <= depth <= RECURSION_LIMIT,
        m.len() > 0 ==> depth + 1 <= RECURSION_LIMIT,
        data.len() <= usize::MAX,
        holds_at(data, pos, enc_map(m)),
    ensures
        dec_map_n(data, pos as usize, depth, m.len()) == Ok::<
            (Seq<(KeyView, CborView)>, usize),
            Error,
        >((m, (pos + enc_map(m).len()) as usize)),
    decreases m,
{
    if m.len() == 0 {
        assert(m =~= Seq::<(KeyView, CborView)>::empty());
    } else {
        let t = m.subrange(1, m.len() as int);
        let kb = enc_flat(key_item(m[0].0));
        let vb = enc(m[0].1);
        lemma_enc_map_front(m);
        lemma_holds_split(data, pos, kb + vb, enc_map(t));
        lemma_holds_split(data, pos, kb, vb);
        lemma_key_round_trip(m[0].0);
        lemma_dec_flat(key_item(m[0].0), data, pos, depth + 1);
        assert(encodable(m[0].1, depth + 1));
        lemma_dec_enc(m[0].1, data, pos + kb.len(), depth + 1);
        lemma_enc_nonempty(m[0].1);
        assert forall|k: int| 0 <= k < t.len() implies #[trigger] encodable(t[k].1, depth + 1) by {
            assert(t[k] == m[k + 1]);
        }
        let q1 = pos + kb.len();
        let q2 = q1 + vb.len();
        assert(dec(data, pos as usize, depth + 1) == Ok::<(CborView, usize), Error>(
            (key_item(m[0].0), q1 as usize),
        ));
        assert(dec(data, q1 as usize, depth + 1) == Ok::<(CborView, usize), Error>(
            (m[0].1, q2 as usize),
        ));
        lemma_dec_map(t, data, q2, depth);
        assert(seq![(m[0].0, m[0].1)] + t =~= m);
        assert(dec_map_n(data, pos as usize, depth, m.len()) == prepend(
            seq![(m[0].0, m[0].1)],
            dec_map_n(data, q2 as usize, depth, t.len()),
        ));
    }
}

/// Decoding the bytes that the encoder writes for a canonical item that it
/// accepts gives back the same item, and reads all of those bytes.
pub proof fn lemma_round_trip(v: CborView)
    requires
        canonical(v),
        encodable(v, 1),
        enc(v).len() <= usize::MAX,
    ensures
        spec_decode(enc(v)) == Ok::<(CborView, usize), Error>((v, enc(v).len() as usize)),
{
    assert(enc(v).subrange(0, enc(v).len() as int) =~= enc(v));
    lemma_dec_enc(v, enc(v), 0, 1);
}

proof fn lemma_break_at(data: Seq<u8>, pos: int, depth: int)
    requires
        1 <= depth <= RECURSION_LIMIT,
        data.len() <= usize::MAX,
        0 <= pos < data.len(),
        data[pos] == 0xff,
    ensures
        dec(data, pos as usize, depth) == Ok::<(CborView, usize), Error>(
            (CborView::Major7(Info::Indefinite, SimpleValue::Break), (pos + 1) as usize),
        ),
{
    assert(hdr_byte(7, Info::Indefinite) == 0xff);
    lemma_hdr_at(data, pos, 7, Info::Indefinite);
}

/// Decoding the items of an indefinite-length list, written one after the
/// other at `pos` and closed by the break marker.
proof fn lemma_dec_list_indef(l: Seq<CborView>, data: Seq<u8>, pos: int, depth: int)
    requires
        list_canonical(l),
        forall|k: int| 0 <= k < l.len() ==> #[trigger] encodable(l[k], depth + 1),
        1 <= depth < RECURSION_LIMIT,
        data.len() <= usize::MAX,
        holds_at(data, pos, enc_list(l) + seq![0xffu8]),
    ensures
        dec_list_indef(data, pos as usize, depth) == Ok::<(Seq<CborView>, usize), Error>(
            (l, (pos + enc_list(l).len() + 1) as usize),
        ),
    decreases l,
{
    lemma_holds_split(data, pos, enc_list(l), seq![0xffu8]);
    assert(data.subrange(pos + enc_list(l).len(), pos + enc_list(l).len() + 1)[0] == data[pos
        + enc_list(l).len()]);
    if l.len() == 0 {
        assert(l =~= Seq::<CborView>::empty());
        lemma_break_at(data, pos, depth + 1);
    } else {
        let t = l.subrange(1, l.len() as int);
        lemma_enc_list_front(l);
        assert(enc_list(l) + seq![0xffu8] =~= enc(l[0]) + (enc_list(t) + seq![0xffu8]));
        lemma_holds_split(data, pos, enc(l[0]), enc_list(t) + seq![0xffu8]);
        assert(encodable(l[0], depth + 1));
        lemma_dec_enc(l[0], data, pos, depth + 1);
        lemma_enc_nonempty(l[0]);
        assert forall|k: int| 0 <= k < t.len() implies #[trigger] encodable(t[k], depth + 1) by {
            assert(t[k] == l[k + 1]);
        }
        lemma_dec_list_indef(t, data, pos + enc(l[0]).len(), depth);
        assert(seq![l[0]] + t =~= l);
    }
}

/// An indefinite-length list whose items are written one after the other
/// and closed by the break marker decodes to the same items as the
/// definite-length list of those items.
pub proof fn lemma_indefinite_list(l: Seq<CborView>)
    requires
        list_canonical(l),
        list_encodable(l, 2),
        enc_list(l).len() + 2 <= usize::MAX,
    ensures
        spec_decode(seq![0x9fu8] + enc_list(l) + seq![0xffu8]) == Ok::<(CborView, usize), Error>(
            (CborView::Major4(Info::Indefinite, l), (enc_list(l).len() + 2) as usize),
        ),
        l.len() <= usize::MAX && enc(CborView::Major4(minimal_info(l.len() as u64), l)).len()
            <= usize::MAX ==> spec_decode(enc(CborView::Major4(minimal_info(l.len() as u64), l))) == Ok::<
            (CborView, usize),
            Error,
        >(
            (
                CborView::Major4(minimal_info(l.len() as u64), l),
                enc(CborView::Major4(minimal_info(l.len() as u64), l)).len() as usize,
            ),
        ),
{
    let data = seq![0x9fu8] + enc_list(l) + seq![0xffu8];
    lemma_list_encodable(l, 2);
    assert(data =~= seq![0x9fu8] + (enc_list(l) + seq![0xffu8]));
    assert(holds_at(data, 0, data)) by {
        assert(data.subrange(0, data.len() as int) =~= data);
    }
    lemma_first_byte(data, 0, 0x9f, enc_list(l) + seq![0xffu8]);
    assert(hdr_byte(4, Info::Indefinite) == 0x9f);
    lemma_hdr_at(data, 0, 4, Info::Indefinite);
    lemma_dec_list_indef(l, data, 1, 1);
    let v = CborView::Major4(minimal_info(l.len() as u64), l);
    lemma_pow256_values();
    lemma_be_bytes_len(l.len() as nat, addnl_width(l.len() as u64));
    if l.len() <= usize::MAX && enc(v).len() <= usize::MAX {
        lemma_round_trip(v);
    }
}

/// The payload of a byte or text string.
pub open spec fn string_payload(v: CborView) -> Seq<u8> {
    match v {
        CborView::Major2(_, b) => b,
        CborView::Major3(_, b) => b,
        _ => Seq::empty(),
    }
}

/// The payloads of a sequence of strings, joined in order.
pub open spec fn joined(l: Seq<CborView>) -> Seq<u8>
    decreases l.len(),
{
    if l.len() == 0 {
        Seq::empty()
    } else {
        string_payload(l[0]) + joined(l.subrange(1, l.len() as int))
    }
}

/// Whether every item of `l` is a canonical definite-length string of
/// major type `major`.
pub open spec fn canonical_chunks(l: Seq<CborView>, major: u8) -> bool {
    forall|k: int|
        0 <= k < l.len() ==> canonical(#[trigger] l[k]) && chunk_of(l[k], major) is Some
}

/// Decoding the chunks of an indefinite-length string, written one after
/// the other at `pos` and closed by the break marker.
proof fn lemma_dec_chunks(l: Seq<CborView>, data: Seq<u8>, pos: int, depth: int, major: u8)
    requires
        canonical_chunks(l, major),
        1 <= depth < RECURSION_LIMIT,
        data.len() <= usize::MAX,
        holds_at(data, pos, enc_list(l) + seq![0xffu8]),
    ensures
        dec_chunks(data, pos as usize, depth, major) == Ok::<(Seq<u8>, usize), Error>(
            (joined(l), (pos + enc_list(l).len() + 1) as usize),
        ),
    decreases l.len(),
{
    lemma_holds_split(data, pos, enc_list(l), seq![0xffu8]);
    assert(data.subrange(pos + enc_list(l).len(), pos + enc_list(l).len() + 1)[0] == data[pos
        + enc_list(l).len()]);
    if l.len() == 0 {
        lemma_break_at(data, pos, depth + 1);
    } else {
        let t = l.subrange(1, l.len() as int);
        lemma_enc_list_front(l);
        assert(enc_list(l) + seq![0xffu8] =~= enc(l[0]) + (enc_list(t) + seq![0xffu8]));
        lemma_holds_split(data, pos, enc(l[0]), enc_list(t) + seq![0xffu8]);
        assert(canonical(l[0]) && chunk_of(l[0], major) is Some);
        assert(encodable(l[0], depth + 1));
        lemma_dec_enc(l[0], data, pos, depth + 1);
        lemma_enc_nonempty(l[0]);
        assert forall|k: int| 0 <= k < t.len() implies canonical(#[trigger] t[k]) && chunk_of(
            t[k],
            major,
        ) is Some by {
            assert(t[k] == l[k + 1]);
        }
        lemma_dec_chunks(t, data, pos + enc(l[0]).len(), depth, major);
        assert(chunk_of(l[0], major) == Some(string_payload(l[0])));
    }
}

/// An indefinite-length byte string (`major` 2) or text string (`major` 3)
/// whose definite-length chunks are written one after the other and closed
/// by the break marker decodes to their payloads joined, as the
/// definite-length string of the joined payload does.
pub proof fn lemma_indefinite_string(major: u8, l: Seq<CborView>)
    requires
        major == 2 || major == 3,
        canonical_chunks(l, major),
        enc_list(l).len() + 2 <= usize::MAX,
    ensures
        spec_decode(seq![hdr_byte(major, Info::Indefinite)] + enc_list(l) + seq![0xffu8]) == Ok::<
            (CborView, usize),
            Error,
        >((string_item(major, Info::Indefinite, joined(l)), (enc_list(l).len() + 2) as usize)),
        joined(l).len() <= usize::MAX && enc(
            string_item(major, minimal_info(joined(l).len() as u64), joined(l)),
        ).len() <= usize::MAX ==> spec_decode(
            enc(string_item(major, minimal_info(joined(l).len() as u64), joined(l))),
        ) == Ok::<(CborView, usize), Error>(
            (
                string_item(major, minimal_info(joined(l).len() as u64), joined(l)),
                enc(string_item(major, minimal_info(joined(l).len() as u64), joined(l))).len() as usize,
            ),
        ),
{
    let h = hdr_byte(major, Info::Indefinite);
    let data = seq![h] + enc_list(l) + seq![0xffu8];
    assert(data =~= seq![h] + (enc_list(l) + seq![0xffu8]));
    assert(holds_at(data, 0, data)) by {
        assert(data.subrange(0, data.len() as int) =~= data);
    }
    lemma_first_byte(data, 0, h, enc_list(l) + seq![0xffu8]);
    lemma_hdr_at(data, 0, major, Info::Indefinite);
    lemma_dec_chunks(l, data, 1, 1, major);
    let b = joined(l);
    let v = string_item(major, minimal_info(b.len() as u64), b);
    lemma_pow256_values();
    if b.len() <= usize::MAX && enc(v).len() <= usize::MAX {
        lemma_round_trip(v);
    }
}

/// Decoding the pairs of an indefinite-length map, written one after the
/// other at `pos` and followed by a key whose value is the break marker.
#[verifier::rlimit(50)]
proof fn lemma_dec_map_indef(
    m: Seq<(KeyView, CborView)>,
    last: KeyView,
    data: Seq<u8>,
    pos: int,
    depth: int,
)
    requires
        map_canonical(m),
        forall|k: int| 0 <= k < m.len() ==> #[trigger] encodable(m[k].1, depth + 1),
        key_canonical(last),
        1 <= depth,
        depth + 1 <= RECURSION_LIMIT,
        data.len() <= usize::MAX,
        holds_at(data, pos, enc_map(m) + enc_flat(key_item(last)) + seq![0xffu8]),
    ensures
        dec_map_indef(data, pos as usize, depth) == Ok::<
            (Seq<(KeyView, CborView)>, usize),
            Error,
        >((m, (pos + enc_map(m).len() + enc_flat(key_item(last)).len() + 1) as usize)),
    decreases m.len(),
{
    let lb = enc_flat(key_item(last));
    if m.len() == 0 {
        assert(m =~= Seq::<(KeyView, CborView)>::empty());
        assert(enc_map(m) + lb + seq![0xffu8] =~= lb + seq![0xffu8]);
        lemma_holds_split(data, pos, lb, seq![0xffu8]);
        assert(data.subrange(pos + lb.len(), pos + lb.len() + 1)[0] == data[pos + lb.len()]);
        lemma_key_round_trip(last);
        lemma_dec_flat(key_item(last), data, pos, depth + 1);
        lemma_break_at(data, pos + lb.len(), depth + 1);
    } else {
        let t = m.subrange(1, m.len() as int);
        let kb = enc_flat(key_item(m[0].0));
        let vb = enc(m[0].1);
        lemma_enc_map_front(m);
        assert(enc_map(m) + lb + seq![0xffu8] =~= (kb + vb) + (enc_map(t) + lb + seq![0xffu8]));
        lemma_holds_split(data, pos, kb + vb, enc_map(t) + lb + seq![0xffu8]);
        lemma_holds_split(data, pos, kb, vb);
        lemma_key_round_trip(m[0].0);
        lemma_dec_flat(key_item(m[0].0), data, pos, depth + 1);
        assert(encodable(m[0].1, depth + 1));
        lemma_dec_enc(m[0].1, data, pos + kb.len(), depth + 1);
        lemma_enc_nonempty(m[0].1);
        assert forall|k: int| 0 <= k < t.len() implies #[trigger] encodable(t[k].1, depth + 1) by {
            assert(t[k] == m[k + 1]);
        }
        let q1 = pos + kb.len();
        let q2 = q1 + vb.len();
        assert(dec(data, pos as usize, depth + 1) == Ok::<(CborView, usize), Error>(
            (key_item(m[0].0), q1 as usize),
        ));
        assert(dec(data, q1 as usize, depth + 1) == Ok::<(CborView, usize), Error>(
            (m[0].1, q2 as usize),
        ));
        lemma_dec_map_indef(t, last, data, q2, depth);
        assert(seq![(m[0].0, m[0].1)] + t =~= m);
        assert(dec_map_indef(data, pos as usize, depth) == prepend(
            seq![(m[0].0, m[0].1)],
            dec_map_indef(data, q2 as usize, depth),
        ));
    }
}

/// An indefinite-length map whose pairs are written one after the other,
/// followed by a key whose value is the break marker, decodes to the same
/// pairs as the definite-length map of those pairs.
pub proof fn lemma_indefinite_map(m: Seq<(KeyView, CborView)>, last: KeyView)
    requires
        map_canonical(m),
        map_encodable(m, 2),
        key_canonical(last),
        enc_map(m).len() + enc_flat(key_item(last)).len() + 2 <= usize::MAX,
    ensures
        spec_decode(seq![0xbfu8] + enc_map(m) + enc_flat(key_item(last)) + seq![0xffu8]) == Ok::<
            (CborView, usize),
            Error,
        >(
            (
                CborView::Major5(Info::Indefinite, m),
                (enc_map(m).len() + enc_flat(key_item(last)).len() + 2) as usize,
            ),
        ),
        m.len() <= usize::MAX && enc(CborView::Major5(minimal_info(m.len() as u64), m)).len()
            <= usize::MAX ==> spec_decode(enc(CborView::Major5(minimal_info(m.len() as u64), m)))
            == Ok::<
            (CborView, usize),
            Error,
        >(
            (
                CborView::Major5(minimal_info(m.len() as u64), m),
                enc(CborView::Major5(minimal_info(m.len() as u64), m)).len() as usize,
            ),
        ),
{
    let rest = enc_map(m) + enc_flat(key_item(last)) + seq![0xffu8];
    let data = seq![0xbfu8] + enc_map(m) + enc_flat(key_item(last)) + seq![0xffu8];
    lemma_map_encodable(m, 2);
    assert(data =~= seq![0xbfu8] + rest);
    assert(holds_at(data, 0, data)) by {
        assert(data.subrange(0, data.len() as int) =~= data);
    }
    lemma_first_byte(data, 0, 0xbf, rest);
    assert(hdr_byte(5, Info::Indefinite) == 0xbf);
    lemma_hdr_at(data, 0, 5, Info::Indefinite);
    lemma_dec_map_indef(m, last, data, 1, 1);
    let v = CborView::Major5(minimal_info(m.len() as u64), m);
    lemma_pow256_values();
    lemma_be_bytes_len(m.len() as nat, addnl_width(m.len() as u64));
    if m.len() <= usize::MAX && enc(v).len() <= usize::MAX {
        lemma_round_trip(v);
    }
}

} // verus!
